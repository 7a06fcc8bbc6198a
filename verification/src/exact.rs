//! Why a search passes no exact cover by: what the rows of an exact cover
//! that is still to come look like in the lists.

use crate::dancing_links::{ColumnType, PuzzleSolver, Row, Shadow, State};
use vstd::prelude::*;

verus! {

impl PuzzleSolver {
    /// An exact cover holds one row at most of a column.
    pub(crate) proof fn lemma_one_cell(&self, s: Set<int>, c: int, y1: int, y2: int)
        requires
            self.shape(),
            self@.is_solution(s),
            0 <= c < self.nc(),
            self.in_column(s, c, y1),
            self.in_column(s, c, y2),
        ensures
            y1 == y2,
    {
        let h = self.head_of(c);
        assert(self.node_shape(y1));
        assert(self.node_shape(y2));
        assert(self.column_shape(c));
        let i = y1 - h - 1;
        let j = y2 - h - 1;
        assert(self@.columns[c].rows == self.shadow@.col_rows[c]);
        assert(self@.columns[c].rows[i] == self.row_of(y1));
        assert(self@.columns[c].rows[j] == self.row_of(y2));
        assert(self@.at_most_once(s, c)) by {
            assert(0 <= c < self@.columns.len());
            let spec_c = self@.columns[c];
            if spec_c.kind == ColumnType::Unique {
                assert(self@.exactly_once(s, c));
            }
        }
    }

    /// An exact cover holds a row of every unique column.
    pub(crate) proof fn lemma_some_cell(&self, s: Set<int>, c: int)
        requires
            self.shape(),
            self@.is_solution(s),
            0 <= c < self.nc(),
            self.kind_of(c) == ColumnType::Unique,
        ensures
            self.later(s, c, self.head_of(c)),
    {
        let h = self.head_of(c);
        assert(self.column_shape(c));
        assert(0 <= c < self@.columns.len());
        let spec_c = self@.columns[c];
        assert(spec_c.kind == ColumnType::Unique);
        assert(self@.exactly_once(s, c));
        assert(!self@.untouched(s, c));
        let i = choose|i: int|
            0 <= i < self@.columns[c].rows.len() && s.contains(
                #[trigger] self@.columns[c].rows[i] as int,
            );
        let y = h + 1 + i;
        assert(self.cell_at(c, i) == (crate::dancing_links::Node {
            row: self.shadow@.col_rows[c][i],
            column: c as usize,
        }));
        assert(self.node_list@[y] == self.cell_at(c, i));
        assert(self.node_shape(y));
        assert(self.in_column(s, c, y));
    }

    /// The marks of the frames do not fall.
    pub(crate) proof fn lemma_marks_mono(&self, k: int, top: int, i: int, j: int)
        requires
            self.frames_below(k, top),
            0 <= i <= j < k,
        ensures
            self.shadow@.marks[i] <= self.shadow@.marks[j],
        decreases j - i,
    {
        if i < j {
            self.lemma_marks_mono(k, top, i + 1, j);
            assert(self.frame_ok_in(i, k, top));
            match self.state_stack@[i] {
                State::CurrentState(c, n) => {
                    assert(self.shadow@.row_nodes[self.row_of(n as int)].len() >= 0);
                },
                _ => {},
            }
        }
    }

    /// The frames below a frame are in order by themselves.
    pub(crate) proof fn lemma_frames_lower(&self, k: int, top: int)
        requires
            self.frames_below(k, top),
            k >= 1,
        ensures
            self.frames_below(k - 1, self.shadow@.marks[k - 1]),
    {
        assert forall|i: int| 0 <= i < k - 1 implies #[trigger] self.frame_ok_in(
            i,
            k - 1,
            self.shadow@.marks[k - 1],
        ) by {
            assert(self.frame_ok_in(i, k, top));
        }
    }

    /// Every operation of the search belongs to a frame: it covers a
    /// column of the row that the frame has on trial.
    pub(crate) proof fn lemma_frame_of(&self, k: int, top: int, e: int) -> (i: int)
        requires
            self.frames_below(k, top),
            k >= 1,
            self.shadow@.marks[0] <= e < top,
        ensures
            0 <= i < k,
            self.state_stack@[i] is CurrentState,
            self.shadow@.marks[i] <= e < self.shadow@.marks[i] + self.shadow@.row_nodes[self.row_of(
                self.state_stack@[i]->CurrentState_1 as int,
            )].len(),
        decreases k,
    {
        assert(self.frame_ok_in(k - 1, k, top));
        if e >= self.shadow@.marks[k - 1] {
            k - 1
        } else {
            self.lemma_frames_lower(k, top);
            self.lemma_frame_of(k - 1, self.shadow@.marks[k - 1], e)
        }
    }

    /// The column that operation `e` covered, if `e` belongs to the frame
    /// `i`, is covered for the row that the frame has on trial.
    pub(crate) proof fn lemma_frame_row(&self, k: int, top: int, i: int, e: int, c: int)
        requires
            self.links(0),
            self.committed(),
            self.frames_below(k, top),
            0 <= i < k,
            self.state_stack@[i] is CurrentState,
            self.shadow@.marks[i] <= e < self.shadow@.marks[i] + self.shadow@.row_nodes[self.row_of(
                self.state_stack@[i]->CurrentState_1 as int,
            )].len(),
            0 <= c < self.nc(),
            self.shadow@.cop[c] == e,
        ensures
            self.is_cell(self.shadow@.cover_cell[c]),
            self.row_of(self.shadow@.cover_cell[c]) == self.row_of(
                self.state_stack@[i]->CurrentState_1 as int,
            ),
    {
        let n = self.state_stack@[i]->CurrentState_1 as int;
        let r = self.row_of(n);
        let rn = self.shadow@.row_nodes[r];
        let len = rn.len() as int;
        let p = self.shadow@.pos[n];
        let m = self.shadow@.marks[i];
        assert(self.frame_ok_in(i, k, top));
        assert(self.node_shape(n));
        let j = Self::at(p, e - m, len);
        assert(0 <= j < len);
        assert(Self::off(p, j, len) == e - m);
        self.lemma_row_member(r, j);
        let cj = self.col_of(rn[j] as int);
        assert(self.shadow@.cop[cj] == e);
        assert(self.column_links(cj, 0));
        assert(self.column_links(c, 0));
        assert(cj == c);
        assert(self.row_settled(r));
        assert(self.shadow@.cover_cell[c] == rn[j]);
    }

    /// A chosen row one of whose columns was covered before the frame `i`
    /// was made was chosen before it.
    pub(crate) proof fn lemma_chosen_side(&self, k: int, i: int, x: int, kx: int)
        requires
            self.links(0),
            self.committed(),
            self.frames_below(k, self.shadow@.ops.len() as int),
            0 <= i < k,
            0 <= x < self.nr(),
            self.row_list@[x].chosen,
            0 <= kx < self.shadow@.row_nodes[x].len(),
            self.shadow@.cop[self.col_of(self.shadow@.row_nodes[x][kx] as int)]
                < self.shadow@.marks[i],
        ensures
            self.chosen_before(x, self.shadow@.marks[i]),
    {
        let top = self.shadow@.ops.len() as int;
        let m = self.shadow@.marks[i];
        let hc = self.head_column(x);
        assert(self.row_shape(x));
        self.lemma_chosen_covered(x, 0);
        self.lemma_chosen_covered(x, kx);
        self.lemma_row_member(x, 0);
        self.lemma_row_member(x, kx);
        let e = self.shadow@.cop[hc];
        if e >= m {
            self.lemma_marks_mono(k, top, 0, i);
            let i2 = self.lemma_frame_of(k, top, e);
            self.lemma_frame_row(k, top, i2, e, hc);
            let n2 = self.state_stack@[i2]->CurrentState_1 as int;
            // the row on trial in that frame is `x`
            assert(self.shadow@.cover_cell[hc] == self.shadow@.row_nodes[x][0]);
            assert(self.row_of(n2) == x);
            assert(self.frame_ok_in(i2, k, top));
            let p = self.shadow@.pos[n2];
            let len = self.shadow@.row_nodes[x].len() as int;
            assert(self.shadow@.cop[self.col_of(self.shadow@.row_nodes[x][kx] as int)]
                == self.shadow@.marks[i2] + Self::off(p, kx, len));
            assert(self.shadow@.marks[i2] < m);
            if i2 >= i {
                self.lemma_marks_mono(k, top, i, i2);
            } else {
                // the frame lies below the frame `i`: its operations come
                // before those of the frame `i`
                self.lemma_marks_mono(k, top, i2 + 1, i);
            }
            assert(false);
        }
    }

    /// A row of an exact cover to come that is not chosen is free.
    pub(crate) proof fn lemma_rest_free(&self, s: Set<int>, m0: int, x: int)
        requires
            self.links(0),
            self.rows_settled(),
            self.committed(),
            self.shadow@.floor <= m0 <= self.shadow@.ops.len(),
            self.goal(s, m0),
            self.agrees(s, self.shadow@.ops.len() as int),
            s.contains(x),
            !self.is_chosen(x),
        ensures
            self.is_free(x),
    {
        let top = self.shadow@.ops.len() as int;
        assert(0 <= x < self.nr());
        assert(!self.chosen_before(x, m0));
        assert(self.free_before(x, m0));
        let rn = self.shadow@.row_nodes[x];
        // no column of the row is covered
        assert forall|k: int| 0 <= k < rn.len() implies self.shadow@.cop[self.col_of(
            #[trigger] rn[k] as int,
        )] < 0 by {
            self.lemma_row_member(x, k);
            let c = self.col_of(rn[k] as int);
            if self.shadow@.cop[c] >= 0 {
                assert(self.column_settled(c));
                let y = self.shadow@.cover_cell[c];
                let r2 = self.row_of(y);
                assert(self.node_shape(y));
                self.lemma_chosen_all(r2);
                assert(self.chosen_before(r2, top));
                assert(s.contains(r2));
                assert(self.in_column(s, c, y));
                assert(self.in_column(s, c, rn[k] as int));
                self.lemma_one_cell(s, c, y, rn[k] as int);
                assert(false);
            }
        }
        assert forall|k: int| 0 <= k < rn.len() implies self.shadow@.vop[#[trigger] rn[k] as int]
            < 0 && self.shadow@.cop[self.col_of(rn[k] as int)] < 0 by {
            self.lemma_row_member(x, k);
            let n = rn[k] as int;
            let d = self.shadow@.vop[n];
            if d >= 0 {
                assert(self.node_settled(n));
                assert(self.node_settled_at(n, -1, -1, 0));
                let v = self.shadow@.vsub[n];
                if v >= 0 {
                    assert(self.node_shape(v));
                    let kv = self.shadow@.pos[v];
                    assert(rn[kv] == v);
                    assert(self.shadow@.cop[self.col_of(rn[kv] as int)] < 0);
                    assert(false);
                } else {
                    assert(self.cell_clear(x, k, m0));
                    assert(false);
                }
            }
        }
    }

    /// When every unique column is covered, the only exact cover to come
    /// is the set of the chosen rows.
    pub(crate) proof fn lemma_only_chosen(&self, s: Set<int>, m0: int)
        requires
            self.links(0),
            self.rows_settled(),
            self.committed(),
            self.shadow@.floor <= m0 <= self.shadow@.ops.len(),
            self.goal(s, m0),
            self.agrees(s, self.shadow@.ops.len() as int),
            self.complete(),
        ensures
            s == self.chosen_set(),
    {
        let top = self.shadow@.ops.len() as int;
        assert forall|x: int| s.contains(x) == self.chosen_set().contains(x) by {
            self.lemma_chosen_all(x);
            if s.contains(x) && !self.is_chosen(x) {
                self.lemma_rest_free(s, m0, x);
                assert(self.row_shape(x));
                self.lemma_row_member(x, 0);
                let hc = self.head_column(x);
                assert(self.kind_of(hc) == ColumnType::Unique);
                assert(self.shadow@.cop[hc] >= 0);
                assert(false);
            }
        }
        assert(s =~= self.chosen_set());
    }

    /// While an exact cover is to come, every unique column in play has a
    /// linked cell.
    pub(crate) proof fn lemma_still_open(&self, s: Set<int>, m0: int, c: int)
        requires
            self.links(0),
            self.rows_settled(),
            self.committed(),
            self.shadow@.floor <= m0 <= self.shadow@.ops.len(),
            self.goal(s, m0),
            self.agrees(s, self.shadow@.ops.len() as int),
            0 <= c < self.nc(),
            self.kind_of(c) == ColumnType::Unique,
            self.shadow@.cop[c] < 0,
        ensures
            self.column_list@[c].count >= 1,
    {
        self.lemma_some_cell(s, c);
        let y = choose|y: int| #[trigger] self.in_column(s, c, y) && y > self.head_of(c);
        let x = self.row_of(y);
        assert(self.node_shape(y));
        let k = self.shadow@.pos[y];
        if self.is_chosen(x) {
            self.lemma_chosen_covered(x, k);
        } else {
            self.lemma_rest_free(s, m0, x);
            assert(self.shadow@.vop[self.shadow@.row_nodes[x][k] as int] < 0);
            self.lemma_count_zero(c);
        }
    }

    /// While an exact cover is to come and a unique column is in play,
    /// there is a column to branch on.
    pub(crate) proof fn lemma_not_stuck(&self, s: Set<int>, m0: int)
        requires
            self.links(0),
            self.rows_settled(),
            self.committed(),
            self.shadow@.floor <= m0 <= self.shadow@.ops.len(),
            self.goal(s, m0),
            self.agrees(s, self.shadow@.ops.len() as int),
            !self.complete(),
        ensures
            !self.blocked(),
            exists|c: int| self.kind_of(c) == ColumnType::Unique && #[trigger] self.candidate(c),
    {
        if self.blocked() {
            let c0 = choose|c0: int|
                #[trigger] self.primary(c0) && self.column_list@[c0].count == 0 && forall|c1: int|
                    #[trigger] self.primary(c1) && c1 < c0 ==> self.column_list@[c1].count != 1;
            self.lemma_still_open(s, m0, c0);
        }
        let c = choose|c: int|
            0 <= c < self.nc() && #[trigger] self.kind_of(c) == ColumnType::Unique && !(
            self.shadow@.cop[c] >= 0);
        self.lemma_still_open(s, m0, c);
        assert(self.candidate(c));
    }

    // ----- the rows of a column that have been passed by --------------------

    /// The cell `y`, if it is a cell of column `c` between `lo` and `hi`,
    /// was taken out before operation `m`.
    pub(crate) open spec fn gap_cell(&self, c: int, lo: int, hi: int, m: int, y: int) -> bool {
        self.is_cell(y) && self.col_of(y) == c && lo < y < hi ==> 0 <= self.shadow@.vop[y] < m
    }

    /// The cells of column `c` between `lo` and `hi` were taken out before
    /// operation `m`.
    pub(crate) open spec fn gap_dead(&self, c: int, lo: int, hi: int, m: int) -> bool {
        forall|y: int| 0 <= y < self.nn() ==> #[trigger] self.gap_cell(c, lo, hi, m, y)
    }

    /// On top of the stack of `pre` lie the frame for the cell `n` of
    /// column `c`, on trial since operation `m`, and the request for
    /// another level; the cells of the column between `lo` and `n` were out
    /// before.
    pub(crate) open spec fn on_top(&self, pre: &PuzzleSolver, c: int, lo: int, n: int, m: int) -> bool {
        &&& 0 <= c < self.nc()
        &&& 0 <= n < self.nn()
        &&& self.state_stack@ == pre.state_stack@.push(
            State::CurrentState(c as usize, n as usize),
        ).push(State::New)
        &&& self.shadow@.marks[pre.state_stack@.len() as int] == m
        &&& lo < n
        &&& self.gap_dead(c, lo, n, m)
    }

    /// The frames of `self` from those of `pre` up to the frame `j` only
    /// switch chaining off again.
    pub(crate) open spec fn raised(&self, pre: &PuzzleSolver, j: int) -> bool {
        &&& self.stack_extends(pre)
        &&& pre.state_stack@.len() <= j <= self.state_stack@.len()
        &&& forall|i: int|
            pre.state_stack@.len() <= i < j ==> #[trigger] self.state_stack@[i] is TriggerChaining
    }

    /// The frame `j` is the frame for the cell `n` of column `c`, on trial
    /// since operation `m`, and above it lies the request for another
    /// level; the cells of the column between `lo` and `n` were out before.
    pub(crate) open spec fn on_top_at(&self, j: int, c: int, lo: int, n: int, m: int) -> bool {
        &&& 0 <= c < self.nc()
        &&& 0 <= n < self.nn()
        &&& 0 <= j
        &&& self.state_stack@.len() == j + 2
        &&& self.state_stack@[j] == State::CurrentState(c as usize, n as usize)
        &&& self.state_stack@[j + 1] == State::New
        &&& self.shadow@.marks[j] == m
        &&& lo < n
        &&& self.gap_dead(c, lo, n, m)
    }

    /// Column `c` is one that the search branches on: a unique column, or
    /// a column of a group that is chaining.
    pub(crate) open spec fn may_branch(&self, c: int) -> bool {
        match self.kind_of(c) {
            ColumnType::Unique => true,
            ColumnType::ConditionalUnique(g) => g < self.ng() && self.condition_state_list@[g as int].chaining,
            ColumnType::Constraint => false,
        }
    }

    /// No row has been put on trial: above the frames of `pre` lie only
    /// frames that switch chaining off again.
    pub(crate) open spec fn rested(&self, pre: &PuzzleSolver) -> bool {
        self.raised(pre, self.state_stack@.len() as int)
    }

    /// The first linked cell of a column that was in play has been put on
    /// trial.
    pub(crate) open spec fn branched(&self, pre: &PuzzleSolver) -> bool {
        exists|c: int, n: int, j: int|
            self.raised(pre, j) && #[trigger] self.on_top_at(
                j,
                c,
                pre.head_of(c),
                n,
                pre.shadow@.ops.len() as int,
            ) && self.may_branch(c)
    }

    /// The next linked cell of column `c` after the cell `n` has been put
    /// on trial.
    pub(crate) open spec fn moved_on(&self, pre: &PuzzleSolver, c: int, n: int, m: int) -> bool {
        exists|n2: int| #[trigger] self.on_top(pre, c, n, n2, m)
    }

    /// The column `c` has no linked cell after the cell `n`, and is in
    /// play again.
    pub(crate) open spec fn gave_up(&self, pre: &PuzzleSolver, c: int, n: int, m: int) -> bool {
        &&& self.state_stack@ == pre.state_stack@
        &&& self.shadow@.ops.len() == m
        &&& self.shadow@.cop[c] < 0
        &&& self.gap_dead(c, n, self.nn(), m)
    }

    /// Between a linked node of the list of a column that was covered
    /// last and the node that follows it in the list, every cell of the
    /// column is out, and was so before the column was covered.
    pub(crate) proof fn lemma_gap(&self, c: int, lo: int, m: int)
        requires
            self.links(0),
            self.rows_settled(),
            0 <= c < self.nc(),
            m == self.shadow@.ops.len() - 1,
            self.shadow@.cop[c] == m,
            self.shadow@.floor <= m,
            0 <= lo < self.nn(),
            self.shadow@.vhome[lo] == self.head_of(c),
            self.shadow@.vop[lo] < 0,
        ensures
            self.gap_dead(
                c,
                lo,
                if self.down@[lo] == self.head_of(c) {
                    self.nn()
                } else {
                    self.down@[lo] as int
                },
                m,
            ),
    {
        let h = self.head_of(c);
        let hi = if self.down@[lo] == h {
            self.nn()
        } else {
            self.down@[lo] as int
        };
        assert(self.vchain().node_ok(lo));
        assert(self.column_shape(c));
        assert(self.node_shape(h));
        assert(self.vchain().next_ok(lo));
        assert forall|y: int| 0 <= y < self.nn() implies #[trigger] self.gap_cell(
            c,
            lo,
            hi,
            m,
            y,
        ) by {
            if self.is_cell(y) && self.col_of(y) == c && lo < y < hi {
                assert(self.node_shape(y));
                assert(self.vchain().home[y] == h);
                assert(!self.vchain().sees(lo, y));
                let d = self.shadow@.vop[y];
                assert(d >= 0);
                assert(self.node_settled(y));
                assert(self.node_settled_at(y, -1, -1, 0));
                let v = self.shadow@.vsub[y];
                if v >= 0 {
                    if d == m {
                        assert(self.node_shape(v));
                        let cv = self.col_of(v);
                        assert(self.column_links(cv, 0));
                        assert(self.column_links(c, 0));
                        assert(cv == c);
                        self.lemma_row_columns_differ(v, y);
                    }
                }
            }
        }
    }

    /// What was out before operation `m` between two nodes stays out while
    /// the operations before `m` are kept.
    pub(crate) proof fn lemma_gap_kept(&self, pre: &PuzzleSolver, c: int, lo: int, hi: int, m: int)
        requires
            self.kept(pre, m),
            pre.gap_dead(c, lo, hi, m),
        ensures
            self.gap_dead(c, lo, hi, m),
    {
        assert forall|y: int| 0 <= y < self.nn() implies #[trigger] self.gap_cell(
            c,
            lo,
            hi,
            m,
            y,
        ) by {
            assert(pre.gap_cell(c, lo, hi, m, y));
            assert(self.low_node(pre, m, y));
        }
    }

    /// A row of an exact cover to come that has a cell in the column of a
    /// frame was not taken out before the frame was made, nor by the cover
    /// of the column.
    pub(crate) proof fn lemma_untouched(&self, s: Set<int>, m0: int, k: int, i: int, y: int)
        requires
            self.links(0),
            self.rows_settled(),
            self.committed(),
            self.frames_below(k, self.shadow@.ops.len() as int),
            0 <= i < k,
            self.state_stack@[i] is CurrentState,
            self.shadow@.floor <= m0 <= self.shadow@.marks[i],
            self.goal(s, m0),
            self.agrees(s, self.shadow@.marks[i]),
            self.in_column(s, self.state_stack@[i]->CurrentState_0 as int, y),
        ensures
            !(0 <= self.shadow@.vop[y] <= self.shadow@.marks[i]),
    {
        let top = self.shadow@.ops.len() as int;
        let c = self.state_stack@[i]->CurrentState_0 as int;
        let n = self.state_stack@[i]->CurrentState_1 as int;
        let m = self.shadow@.marks[i];
        let x = self.row_of(y);
        let d = self.shadow@.vop[y];
        assert(self.frame_ok_in(i, k, top));
        assert(self.node_shape(y));
        assert(self.node_shape(n));
        let rho = self.row_of(n);
        let p = self.shadow@.pos[n];
        assert(self.shadow@.row_nodes[rho][p] == n);
        assert(Self::off(p, p, self.shadow@.row_nodes[rho].len() as int) == 0);
        assert(self.shadow@.cop[c] == m);
        assert(self.row_settled(rho));
        assert(self.shadow@.cover_cell[c] == n);
        if 0 <= d <= m {
            // a chosen row with a cell in the column is the row on trial
            if self.row_list@[x].chosen {
                self.lemma_chosen_covered(x, self.shadow@.pos[y]);
                assert(y == n);
                assert(false);
            }
            assert(self.node_settled(y));
            assert(self.node_settled_at(y, -1, -1, 0));
            let v = self.shadow@.vsub[y];
            if v >= 0 {
                assert(self.node_shape(v));
                let c2 = self.col_of(v);
                assert(self.shadow@.cop[c2] == d);
                assert(d < m);
                assert(self.column_settled(c2));
                let y2 = self.shadow@.cover_cell[c2];
                let r2 = self.row_of(y2);
                assert(self.node_shape(y2));
                self.lemma_chosen_side(k, i, r2, self.shadow@.pos[y2]);
                assert(s.contains(r2));
                assert(self.in_column(s, c2, y2));
                assert(self.in_column(s, c2, v));
                self.lemma_one_cell(s, c2, y2, v);
                assert(false);
            } else {
                assert(!self.chosen_before(x, m0));
                assert(self.free_before(x, m0));
                assert(self.cell_clear(x, self.shadow@.pos[y], m0));
                assert(false);
            }
        }
    }

    /// An exact cover to come with a row in the column of the frame that
    /// was made last is still to come, when the cells of the column that
    /// were passed by were out before.
    pub(crate) proof fn lemma_tried(&self, s: Set<int>, m0: int, i: int, lo: int)
        requires
            self.sound(),
            self.state_stack@.len() == i + 2,
            0 <= i,
            self.state_stack@[i] is CurrentState,
            self.state_stack@[i + 1] == State::New,
            self.shadow@.floor <= m0 <= self.shadow@.marks[i],
            m0 == self.shadow@.marks[0],
            self.goal(s, m0),
            self.agrees(s, self.shadow@.marks[i]),
            self.later(s, self.state_stack@[i]->CurrentState_0 as int, lo),
            self.gap_dead(
                self.state_stack@[i]->CurrentState_0 as int,
                lo,
                self.state_stack@[i]->CurrentState_1 as int,
                self.shadow@.marks[i],
            ),
        ensures
            self.to_come_from(s, m0),
    {
        let top = self.shadow@.ops.len() as int;
        let k = self.state_stack@.len() as int;
        let c = self.state_stack@[i]->CurrentState_0 as int;
        let n = self.state_stack@[i]->CurrentState_1 as int;
        let m = self.shadow@.marks[i];
        assert forall|j: int| 0 <= j < k implies #[trigger] self.frame_ok_in(j, k, top) by {
            assert(self.frame_ok(j));
        }
        assert(self.frame_ok_in(i, k, top));
        let y = choose|y: int| #[trigger] self.in_column(s, c, y) && y > lo;
        self.lemma_untouched(s, m0, k, i, y);
        assert(self.gap_cell(c, lo, n, m, y));
        assert(y >= n);
        if y > n {
            assert(self.later(s, c, n));
            assert(self.waits_at(s, i));
            assert(self.waits_below(s, k));
        } else {
            assert(s.contains(self.row_of(n)));
            assert forall|x: int| #[trigger] self.chosen_before(x, top) implies s.contains(x) by {
                let hc = self.head_column(x);
                let e = self.shadow@.cop[hc];
                if e < m {
                    assert(self.chosen_before(x, m));
                } else {
                    assert(self.row_shape(x));
                    self.lemma_row_member(x, 0);
                    self.lemma_chosen_covered(x, 0);
                    self.lemma_marks_mono(k, top, 0, i);
                    let i2 = self.lemma_frame_of(k, top, e);
                    self.lemma_frame_row(k, top, i2, e, hc);
                    assert(self.frame_ok_in(i2, k, top));
                    if i2 < i {
                        self.lemma_marks_mono(k, top, i2 + 1, i);
                        assert(false);
                    }
                    assert(i2 == i);
                    assert(x == self.row_of(n));
                }
            }
            assert(self.agrees(s, top));
        }
    }

    /// No exact cover to come has a row in a column in play after a cell
    /// after which every cell of the column is out.
    pub(crate) proof fn lemma_none_later(&self, s: Set<int>, m0: int, c: int, n: int)
        requires
            self.links(0),
            self.rows_settled(),
            self.committed(),
            self.shadow@.floor <= m0 <= self.shadow@.ops.len(),
            self.goal(s, m0),
            self.agrees(s, self.shadow@.ops.len() as int),
            0 <= c < self.nc(),
            self.shadow@.cop[c] < 0,
            self.gap_dead(c, n, self.nn(), self.shadow@.ops.len() as int),
        ensures
            !self.later(s, c, n),
    {
        if self.later(s, c, n) {
            let y = choose|y: int| #[trigger] self.in_column(s, c, y) && y > n;
            let x = self.row_of(y);
            assert(self.node_shape(y));
            let k = self.shadow@.pos[y];
            assert(self.gap_cell(c, n, self.nn(), self.shadow@.ops.len() as int, y));
            if self.is_chosen(x) {
                self.lemma_chosen_covered(x, k);
            } else {
                self.lemma_rest_free(s, m0, x);
                assert(self.shadow@.vop[self.shadow@.row_nodes[x][k] as int] < 0);
            }
        }
    }

    /// What waits at a frame goes on waiting there while the operations
    /// before the frame are kept.
    pub(crate) proof fn lemma_waits_kept(&self, pre: &PuzzleSolver, k: int, b: int, s: Set<int>)
        requires
            pre.shape(),
            pre.frames_below(k, b),
            0 <= k <= pre.state_stack@.len(),
            self.kept(pre, b),
            self.stack_extends(pre),
            pre.waits_below(s, k),
        ensures
            self.waits_below(s, k),
    {
        let i = choose|i: int| 0 <= i < k && #[trigger] pre.waits_at(s, i);
        pre.lemma_marks_rise(k, b, i);
        assert(self.state_stack@[i] == pre.state_stack@[i]);
        assert(self.shadow@.marks[i] == pre.shadow@.marks[i]);
        self.lemma_kept_goal(pre, b, s, pre.shadow@.marks[i]);
        assert(self.waits_at(s, i));
    }

    // ----- what the steps of the search keep --------------------------------

    /// Putting a row on trial keeps what operations before the cover of
    /// its column have done.
    pub(crate) proof fn lemma_kept_try(
        &self,
        pre: &PuzzleSolver,
        tried: &PuzzleSolver,
        covered: &PuzzleSolver,
        c: int,
        n: int,
    )
        requires
            pre.links(0),
            pre.committed_except(c),
            0 <= c < pre.nc(),
            pre.is_cell(n),
            pre.col_of(n) == c,
            pre.shadow@.ops.len() >= 1,
            tried.node_list@ == pre.node_list@,
            tried.column_list@ == pre.column_list@,
            tried.condition_state_list@ == pre.condition_state_list@,
            tried.up@ == pre.up@,
            tried.down@ == pre.down@,
            tried.left@ == pre.left@,
            tried.right@ == pre.right@,
            tried.shadow@ == (Shadow {
                cover_cell: pre.shadow@.cover_cell.update(c, n),
                ..pre.shadow@
            }),
            tried.row_list@ == pre.row_list@.update(
                pre.row_of(n),
                Row { head: pre.row_list@[pre.row_of(n)].head, chosen: true },
            ),
            covered.grown_cover(tried, pre.shadow@.ops.len() as int),
            covered.same_frame(tried),
            covered.covering(
                pre.row_of(n),
                pre.shadow@.pos[n],
                pre.shadow@.ops.len() - 1,
                pre.shadow@.row_nodes[pre.row_of(n)].len() as int,
            ),
            self.soft_change(covered),
            self@ == pre@,
        ensures
            self.kept(pre, pre.shadow@.ops.len() - 1),
    {
        let m = pre.shadow@.ops.len() - 1;
        let r1 = pre.row_of(n);
        let p1 = pre.shadow@.pos[n];
        let rn = pre.shadow@.row_nodes[r1];
        let len = rn.len() as int;
        assert(pre.node_shape(n));
        assert forall|y: int| 0 <= y < self.nn() implies #[trigger] self.low_node(pre, m, y) by {
            assert(covered.kill_ok(tried, m + 1, y));
        }
        assert forall|c2: int| 0 <= c2 < self.nc() implies #[trigger] self.low_column(
            pre,
            m,
            c2,
        ) by {
            assert(covered.cop_ok(tried, m + 1, c2));
        }
        assert forall|y: int| 0 <= y < self.nn() implies #[trigger] self.low_ptr(pre, m, y) by {
            assert(covered.ptr_kept(tried, m + 1, y));
            assert(covered.kill_ok(tried, m + 1, y));
        }
        assert forall|g: int| 0 <= g < self.ng() implies #[trigger] self.group_same(pre, g) by {
            assert(covered.condition_state_list@[g].head == tried.condition_state_list@[g].head);
        }
        assert forall|x: int| 0 <= x < self.nr() implies #[trigger] self.low_row(pre, m, x) by {
            assert(pre.row_shape(x));
            pre.lemma_row_member(x, 0);
            let hc = pre.head_column(x);
            assert(self.head_column(x) == hc);
            assert(self.low_column(pre, m, hc));
            if x == r1 {
                assert(!pre.row_list@[r1].chosen);
                assert(Self::off(p1, 0, len) >= 0);
                assert(covered.shadow@.cop[covered.col_of(rn[0] as int)] == m + Self::off(
                    p1,
                    0,
                    len,
                ));
            } else {
                assert(self.row_list@[x] == pre.row_list@[x]);
            }
        }
    }

    /// Taking a row off trial keeps what operations before the cover of
    /// its column have done.
    pub(crate) proof fn lemma_kept_back(
        &self,
        bare: &PuzzleSolver,
        pre: &PuzzleSolver,
        c: int,
        n: int,
        m: int,
    )
        requires
            pre.links(0),
            pre.on_trial(c, n, m),
            bare.shrunk_cover(pre, m + 1),
            bare.same_frame(pre),
            self.node_list@ == bare.node_list@,
            self.column_list@ == bare.column_list@,
            self.condition_state_list@ == bare.condition_state_list@,
            self.up@ == bare.up@,
            self.down@ == bare.down@,
            self.left@ == bare.left@,
            self.right@ == bare.right@,
            self.shadow@ == bare.shadow@,
            self.row_list@ == bare.row_list@.update(
                pre.row_of(n),
                Row { head: bare.row_list@[pre.row_of(n)].head, chosen: false },
            ),
            self@ == pre@,
        ensures
            self.kept(pre, m),
    {
        assert forall|y: int| 0 <= y < self.nn() implies #[trigger] self.low_ptr(pre, m, y) by {
            assert(bare.ptr_back(pre, m + 1, y));
            assert(bare.revive_ok(pre, m + 1, y));
        }
        assert forall|g: int| 0 <= g < self.ng() implies #[trigger] self.group_same(pre, g) by {
            assert(bare.condition_state_list@[g].head == pre.condition_state_list@[g].head);
        }
        let r0 = pre.row_of(n);
        let p0 = pre.shadow@.pos[n];
        let rn = pre.shadow@.row_nodes[r0];
        let len = rn.len() as int;
        assert(pre.node_shape(n));
        assert forall|y: int| 0 <= y < self.nn() implies #[trigger] self.low_node(pre, m, y) by {
            assert(bare.revive_ok(pre, m + 1, y));
        }
        assert forall|c2: int| 0 <= c2 < self.nc() implies #[trigger] self.low_column(
            pre,
            m,
            c2,
        ) by {
            assert(bare.uncop_ok(pre, m + 1, c2));
        }
        assert forall|x: int| 0 <= x < self.nr() implies #[trigger] self.low_row(pre, m, x) by {
            assert(pre.row_shape(x));
            pre.lemma_row_member(x, 0);
            let hc = pre.head_column(x);
            assert(self.head_column(x) == hc);
            assert(self.low_column(pre, m, hc));
            if x == r0 {
                assert(Self::off(p0, 0, len) >= 0);
                assert(pre.shadow@.cop[pre.col_of(rn[0] as int)] == m + Self::off(p0, 0, len));
            } else {
                assert(self.row_list@[x] == pre.row_list@[x]);
            }
        }
    }

    /// The cover of a column keeps what the operations before it have
    /// done.
    pub(crate) proof fn lemma_kept_cover(&self, pre: &PuzzleSolver, c: int)
        requires
            self.is_cover_of(pre, c),
            self@ == pre@,
        ensures
            self.kept(pre, pre.shadow@.ops.len() as int),
    {
        let top = pre.shadow@.ops.len() as int;
        self.lemma_ptr_cover(pre, c);
        assert forall|y: int| 0 <= y < self.nn() implies #[trigger] self.low_ptr(pre, top, y) by {
            assert(self.ptr_kept(pre, top, y));
            assert(self.delta_ok(pre, top, pre.nn(), -1, y));
        }
        assert forall|g: int| 0 <= g < self.ng() implies #[trigger] self.group_same(pre, g) by {}
        assert forall|y: int| 0 <= y < self.nn() implies #[trigger] self.low_node(pre, top, y) by {
            assert(self.delta_ok(pre, top, pre.nn(), -1, y));
        }
        assert forall|c2: int| 0 <= c2 < self.nc() implies #[trigger] self.low_column(
            pre,
            top,
            c2,
        ) by {}
        assert forall|x: int| 0 <= x < self.nr() implies #[trigger] self.low_row(pre, top, x) by {
            assert(pre.row_shape(x));
            pre.lemma_row_member(x, 0);
            assert(self.low_column(pre, top, pre.head_column(x)));
        }
    }

    /// After the last row of a column has been taken off trial and the
    /// column is in play again.
    pub(crate) proof fn lemma_gave_up(
        &self,
        cleared: &PuzzleSolver,
        pre: &PuzzleSolver,
        c: int,
        n: int,
        m: int,
    )
        requires
            cleared.shape(),
            cleared.kept(pre, m),
            cleared.state_stack@ == pre.state_stack@,
            cleared.shadow@.ops.len() == m + 1,
            0 <= m,
            0 <= c < cleared.nc(),
            cleared.gap_dead(c, n, cleared.nn(), m),
            self.shrunk_cover(cleared, m),
            self.same_frame(cleared),
            self@ == cleared@,
            self.shadow@.ops == cleared.shadow@.ops.drop_last(),
            self.shadow@.cop == cleared.shadow@.cop.update(c, -1),
        ensures
            self.kept(pre, m),
            self.gave_up(pre, c, n, m),
    {
        self.lemma_kept_shrunk(cleared, m);
        self.lemma_kept_trans(cleared, pre, m);
        self.lemma_gap_kept(cleared, c, n, cleared.nn(), m);
        assert(self.nn() == cleared.nn());
        assert(cleared.sizes_ok());
        assert(self.shadow@.ops.len() == m);
        assert(self.shadow@.cop[c] == -1);
        assert(self.state_stack@ == pre.state_stack@);
    }

    /// After the next row of a column has been put on trial.
    pub(crate) proof fn lemma_moved_on(
        &self,
        cleared: &PuzzleSolver,
        pre: &PuzzleSolver,
        c: int,
        n: int,
        n2: int,
        m: int,
    )
        requires
            cleared.shape(),
            cleared.kept(pre, m),
            cleared.state_stack@ == pre.state_stack@,
            0 <= c < cleared.nc(),
            0 <= n < n2 < cleared.nn(),
            cleared.gap_dead(c, n, n2, m),
            self.kept(cleared, m),
            self.state_stack@ == cleared.state_stack@.push(
                State::CurrentState(c as usize, n2 as usize),
            ).push(State::New),
            self.shadow@.marks[cleared.state_stack@.len() as int] == m,
        ensures
            self.kept(pre, m),
            self.moved_on(pre, c, n, m),
    {
        self.lemma_kept_trans(cleared, pre, m);
        self.lemma_gap_kept(cleared, c, n, n2, m);
        assert(self.nn() == cleared.nn());
        assert(self.nc() == cleared.nc());
        assert(self.on_top(pre, c, n, n2, m));
    }

    /// Switching chaining on changes nothing for the unique columns.
    pub(crate) proof fn lemma_soft_stuck(&self, pre: &PuzzleSolver)
        requires
            self.soft_change(pre),
        ensures
            self.blocked() == pre.blocked(),
            forall|c: int|
                #![trigger self.candidate(c)]
                #![trigger pre.candidate(c)]
                pre.kind_of(c) == ColumnType::Unique ==> self.candidate(c) == pre.candidate(c),
    {
        assert forall|c: int| self.primary(c) == pre.primary(c) by {}
        if pre.blocked() {
            let c0 = choose|c0: int|
                #[trigger] pre.primary(c0) && pre.column_list@[c0].count == 0 && forall|c1: int|
                    #[trigger] pre.primary(c1) && c1 < c0 ==> pre.column_list@[c1].count != 1;
            assert(self.primary(c0));
            assert forall|c1: int| #[trigger] self.primary(c1) && c1 < c0 implies self.column_list@[c1].count
                != 1 by {
                assert(pre.primary(c1));
            }
        }
        if self.blocked() {
            let c0 = choose|c0: int|
                #[trigger] self.primary(c0) && self.column_list@[c0].count == 0 && forall|c1: int|
                    #[trigger] self.primary(c1) && c1 < c0 ==> self.column_list@[c1].count != 1;
            assert(pre.primary(c0));
            assert forall|c1: int| #[trigger] pre.primary(c1) && c1 < c0 implies pre.column_list@[c1].count
                != 1 by {
                assert(self.primary(c1));
            }
        }
    }

    /// After the first linked cell of the column that was picked has been
    /// put on trial.
    pub(crate) proof fn lemma_branched(
        &self,
        covered: &PuzzleSolver,
        mid: &PuzzleSolver,
        pre: &PuzzleSolver,
        c: int,
        n: int,
    )
        requires
            pre.shape(),
            mid.shape(),
            mid.kept(pre, pre.shadow@.ops.len() as int),
            mid.soft_change(pre),
            mid.stack_extends(pre),
            mid.triggers_from(pre.state_stack@.len() as int, pre.shadow@.ops.len() as int),
            mid.frames_below(mid.state_stack@.len() as int, mid.shadow@.ops.len() as int),
            mid.candidate(c),
            covered.is_cover_of(mid, c),
            covered@ == mid@,
            covered.shadow@.floor <= mid.shadow@.ops.len(),
            n == covered.down@[covered.head_of(c)],
            n != covered.head_of(c),
            self.kept(covered, mid.shadow@.ops.len() as int),
            self.same_flags(covered),
            self.stack_extends(covered),
            self.state_stack@ == covered.state_stack@.push(
                State::CurrentState(c as usize, n as usize),
            ).push(State::New),
            self.shadow@.marks[covered.state_stack@.len() as int] == mid.shadow@.ops.len(),
        ensures
            self.kept(pre, pre.shadow@.ops.len() as int),
            self.branched(pre),
            mid.chains_ok() ==> self.chains_ok(),
    {
        let top = pre.shadow@.ops.len() as int;
        let h = covered.head_of(c);
        let j = mid.state_stack@.len() as int;
        covered.lemma_kept_cover(mid, c);
        self.lemma_kept_trans(covered, mid, top);
        self.lemma_kept_trans(mid, pre, top);
        assert(covered.column_shape(c));
        assert(covered.node_shape(h));
        assert(covered.vchain().node_ok(h));
        assert(covered.sizes_ok());
        covered.lemma_gap(c, h, top);
        self.lemma_gap_kept(covered, c, h, n, top);
        assert(covered.vchain().node_ok(n));
        assert(mid.column_shape(c));
        assert(self.nn() == covered.nn());
        assert(self.nc() == covered.nc());
        assert(pre.head_of(c) == h);
        assert(self.on_top_at(j, c, pre.head_of(c), n, top));
        assert(self.raised(pre, j)) by {
            assert forall|i: int| 0 <= i < pre.state_stack@.len() implies #[trigger] self.state_stack@[i]
                == pre.state_stack@[i] by {
                assert(mid.state_stack@[i] == pre.state_stack@[i]);
            }
            assert forall|i: int| 0 <= i < pre.state_stack@.len() implies #[trigger] self.shadow@.marks[i]
                == pre.shadow@.marks[i] by {
                assert(covered.shadow@.marks[i] == mid.shadow@.marks[i]);
                assert(mid.shadow@.marks[i] == pre.shadow@.marks[i]);
            }
            assert forall|i: int|
                pre.state_stack@.len() <= i < j implies #[trigger] self.state_stack@[i] is TriggerChaining by {
                assert(mid.state_stack@[i] is TriggerChaining);
            }
        }
        assert(self.may_branch(c)) by {
            assert(self.condition_state_list@.len() == mid.condition_state_list@.len());
            assert(self@.columns[c].kind == mid@.columns[c].kind);
            assert(self.kind_of(c) == mid.kind_of(c));
            match mid.kind_of(c) {
                ColumnType::ConditionalUnique(g) => {
                    assert(covered.condition_state_list@[g as int].chaining
                        == mid.condition_state_list@[g as int].chaining);
                    assert(self.flag_same(covered, g as int));
                },
                _ => {},
            }
        }
        if mid.chains_ok() {
            assert(self.same_flags(mid)) by {
                assert forall|g: int| 0 <= g < self.ng() implies #[trigger] self.flag_same(mid, g) by {
                    assert(self.flag_same(covered, g));
                    assert(covered.condition_state_list@[g].chaining
                        == mid.condition_state_list@[g].chaining);
                }
            }
            assert(self.stack_extends(mid)) by {
                assert forall|i: int| 0 <= i < mid.state_stack@.len() implies #[trigger] self.shadow@.marks[i]
                    == mid.shadow@.marks[i] by {
                    assert(covered.shadow@.marks[i] == mid.shadow@.marks[i]);
                }
            }
            self.lemma_chains_kept(mid, top);
        }
    }

    // ----- one step of the search --------------------------------------------

    /// `self` is `pre` with the top frame taken off the stack.
    pub(crate) open spec fn is_popped(&self, pre: &PuzzleSolver) -> bool {
        &&& pre.state_stack@.len() >= 1
        &&& self.node_list@ == pre.node_list@
        &&& self.row_list@ == pre.row_list@
        &&& self.column_list@ == pre.column_list@
        &&& self.state_stack@ == pre.state_stack@.drop_last()
        &&& self.shadow@ == (Shadow { marks: pre.shadow@.marks.drop_last(), ..pre.shadow@ })
        &&& self@ == pre@
        &&& self.up@ == pre.up@
        &&& self.down@ == pre.down@
        &&& self.left@ == pre.left@
        &&& self.right@ == pre.right@
        &&& self.ng() == pre.ng()
        &&& forall|g: int| 0 <= g < self.ng() ==> #[trigger] self.group_same(pre, g)
    }

    /// What was to come before the top frame was taken off the stack
    /// waited at that frame, or waits below it.
    pub(crate) proof fn lemma_popped_goal(&self, pre: &PuzzleSolver, s: Set<int>, m0: int)
        requires
            pre.sound(),
            self.is_popped(pre),
            m0 == pre.shadow@.marks[0],
            pre.to_come_from(s, m0),
        ensures
            self.goal(s, m0),
            self.kept(pre, pre.shadow@.ops.len() as int),
            match pre.state_stack@[pre.state_stack@.len() - 1] {
                State::New => self.agrees(s, self.shadow@.ops.len() as int) || self.waits_below(
                    s,
                    self.state_stack@.len() as int,
                ),
                State::CurrentState(c, n) => (self.agrees(
                    s,
                    pre.shadow@.marks[pre.state_stack@.len() - 1],
                ) && self.later(s, c as int, n as int)) || self.waits_below(
                    s,
                    self.state_stack@.len() as int,
                ),
                State::TriggerChaining(_) => self.waits_below(s, self.state_stack@.len() as int),
            },
    {
        let top = pre.shadow@.ops.len() as int;
        let k = pre.state_stack@.len() - 1;
        self.lemma_kept_same(pre, top);
        assert(pre.frame_ok(k));
        assert forall|j: int| 0 <= j < k + 1 implies #[trigger] pre.frame_ok_in(j, k + 1, top) by {
            assert(pre.frame_ok(j));
        }
        pre.lemma_marks_rise(k + 1, top, 0);
        self.lemma_kept_goal(pre, top, s, m0);
        if pre.waits_below(s, k + 1) {
            let i = choose|i: int| 0 <= i < k + 1 && #[trigger] pre.waits_at(s, i);
            assert(pre.frame_ok(i));
            pre.lemma_marks_rise(k + 1, top, i);
            self.lemma_kept_goal(pre, top, s, pre.shadow@.marks[i]);
            if i < k {
                assert(self.state_stack@[i] == pre.state_stack@[i]);
                assert(self.shadow@.marks[i] == pre.shadow@.marks[i]);
                assert(self.waits_at(s, i));
            }
        } else {
            self.lemma_kept_goal(pre, top, s, top);
        }
    }

    /// What waits below the top of the stack is to come.
    pub(crate) proof fn lemma_waits_on(&self, pre: &PuzzleSolver, b: int, s: Set<int>, m0: int)
        requires
            pre.shape(),
            pre.frames_below(pre.state_stack@.len() as int, b),
            self.kept(pre, b),
            self.stack_extends(pre),
            m0 <= b,
            pre.goal(s, m0),
            pre.waits_below(s, pre.state_stack@.len() as int),
        ensures
            self.to_come_from(s, m0),
    {
        let k = pre.state_stack@.len() as int;
        self.lemma_waits_kept(pre, k, b, s);
        self.lemma_kept_goal(pre, b, s, m0);
        let i = choose|i: int| 0 <= i < k && #[trigger] self.waits_at(s, i);
        assert(self.waits_below(s, self.state_stack@.len() as int));
    }

    /// A step that asks for another level passes no exact cover by: what
    /// was to come is the set of the chosen rows, handed out, or is still
    /// to come.
    pub(crate) proof fn lemma_step_new(
        &self,
        before: &PuzzleSolver,
        popped: &PuzzleSolver,
        emitted: bool,
        s: Set<int>,
        m0: int,
    )
        requires
            before.sound(),
            before.state_stack@[before.state_stack@.len() - 1] == State::New,
            m0 == before.shadow@.marks[0],
            popped.is_popped(before),
            popped.links(0),
            popped.rows_settled(),
            popped.committed(),
            popped.frames_below(
                popped.state_stack@.len() as int,
                popped.shadow@.ops.len() as int,
            ),
            popped.no_new_below(popped.state_stack@.len() as int),
            self.sound(),
            self.kept(popped, popped.shadow@.ops.len() as int),
            self.rested(popped) || self.branched(popped),
            self.rested(popped) && popped.within_budget() && !popped.complete()
                ==> popped.blocked() || forall|c: int|
                popped.kind_of(c) == ColumnType::Unique ==> !#[trigger] popped.candidate(c),
            self.branched(popped) ==> self.chains_ok(),
            emitted == (popped.within_budget() && popped.complete()),
            emitted ==> forall|r: int| self.is_chosen(r) == popped.is_chosen(r),
            self.state_stack@.len() >= 1 ==> self.shadow@.marks[0] == m0,
            before.to_come_from(s, m0),
        ensures
            (emitted && s == self.chosen_set()) || self.to_come_from(s, m0),
    {
        let top = popped.shadow@.ops.len() as int;
        let k = popped.state_stack@.len() as int;
        popped.lemma_popped_goal(before, s, m0);
        assert(before.frame_ok(0));
        assert(before.frame_ok(k));
        assert forall|j: int| 0 <= j < k + 1 implies #[trigger] before.frame_ok_in(
            j,
            k + 1,
            top,
        ) by {
            assert(before.frame_ok(j));
        }
        before.lemma_marks_mono(k + 1, top, 0, k);
        assert(m0 <= top);
        if popped.waits_below(s, k) {
            self.lemma_waits_on(popped, top, s, m0);
        } else {
            assert(popped.agrees(s, top));
            popped.lemma_in_budget(s, m0);
            if popped.complete() {
                popped.lemma_only_chosen(s, m0);
                assert(self.chosen_set() =~= popped.chosen_set());
            } else {
                popped.lemma_not_stuck(s, m0);
                assert(!self.rested(popped));
                let (c, n, j) = choose|c: int, n: int, j: int|
                    self.raised(popped, j) && #[trigger] self.on_top_at(
                        j,
                        c,
                        popped.head_of(c),
                        n,
                        top,
                    ) && self.may_branch(c);
                self.lemma_kept_goal(popped, top, s, top);
                self.lemma_kept_goal(popped, top, s, m0);
                assert(self.frame_ok(0));
                assert(self.column_shape(c));
                assert(self.head_of(c) == popped.head_of(c)) by {
                    assert(popped.column_shape(c));
                    assert(self@.columns[c].kind == popped@.columns[c].kind);
                    self.lemma_same_heads(popped, c);
                }
                match self.kind_of(c) {
                    ColumnType::Unique => {
                        self.lemma_some_cell(s, c);
                    },
                    ColumnType::ConditionalUnique(g) => {
                        self.lemma_chained_touch(s, m0, j, g as int);
                    },
                    ColumnType::Constraint => {},
                }
                assert(self.later(s, c, popped.head_of(c)));
                self.lemma_tried(s, m0, j, popped.head_of(c));
            }
        }
    }

    /// A step that takes a row off trial passes no exact cover by.
    pub(crate) proof fn lemma_step_row(
        &self,
        before: &PuzzleSolver,
        popped: &PuzzleSolver,
        c: int,
        n: int,
        s: Set<int>,
        m0: int,
    )
        requires
            before.sound(),
            before.state_stack@[before.state_stack@.len() - 1] == State::CurrentState(
                c as usize,
                n as usize,
            ),
            0 <= c < before.nc(),
            0 <= n < before.nn(),
            m0 == before.shadow@.marks[0],
            popped.is_popped(before),
            popped.links(0),
            popped.frames_below(
                popped.state_stack@.len() as int,
                before.shadow@.marks[before.state_stack@.len() - 1],
            ),
            self.sound(),
            self.kept(popped, before.shadow@.marks[before.state_stack@.len() - 1]),
            self.stack_extends(popped),
            self.gave_up(popped, c, n, before.shadow@.marks[before.state_stack@.len() - 1])
                || self.moved_on(popped, c, n, before.shadow@.marks[before.state_stack@.len() - 1]),
            self.state_stack@.len() >= 1 ==> self.shadow@.marks[0] == m0,
            before.to_come_from(s, m0),
        ensures
            self.to_come_from(s, m0),
    {
        let top = before.shadow@.ops.len() as int;
        let k = popped.state_stack@.len() as int;
        let m = before.shadow@.marks[k];
        popped.lemma_popped_goal(before, s, m0);
        assert(before.frame_ok(0));
        assert(before.frame_ok(k));
        assert forall|j: int| 0 <= j < k + 1 implies #[trigger] before.frame_ok_in(
            j,
            k + 1,
            top,
        ) by {
            assert(before.frame_ok(j));
        }
        before.lemma_marks_mono(k + 1, top, 0, k);
        assert(m0 <= m);
        if popped.waits_below(s, k) {
            self.lemma_waits_on(popped, m, s, m0);
        } else {
            self.lemma_kept_goal(popped, m, s, m);
            self.lemma_kept_goal(popped, m, s, m0);
            assert(self.later(s, c, n));
            assert(self.agrees(s, m));
            if self.gave_up(popped, c, n, m) {
                self.lemma_none_later(s, m0, c, n);
                assert(false);
            } else {
                let n2 = choose|n2: int| #[trigger] self.on_top(popped, c, n, n2, m);
                assert(self.state_stack@[k] == State::CurrentState(c as usize, n2 as usize));
                assert(self.state_stack@[k + 1] == State::New);
                if k >= 1 {
                    assert(self.shadow@.marks[0] == m0);
                }
                assert(self.frame_ok(0));
                self.lemma_tried(s, m0, k, n);
            }
        }
    }

    /// A step that switches chaining off passes no exact cover by.
    pub(crate) proof fn lemma_step_flag(&self, before: &PuzzleSolver, s: Set<int>, m0: int)
        requires
            before.sound(),
            before.state_stack@[before.state_stack@.len() - 1] is TriggerChaining,
            self.is_popped(before),
            m0 == before.shadow@.marks[0],
            before.to_come_from(s, m0),
        ensures
            self.to_come_from(s, m0),
    {
        self.lemma_popped_goal(before, s, m0);
    }

    /// What was to come before a step that handed out the chosen rows is
    /// this set or is still to come.
    pub(crate) proof fn lemma_emitted(
        &self,
        before: &PuzzleSolver,
        popped: &PuzzleSolver,
        s: Set<int>,
        m0: int,
    )
        requires
            before.sound(),
            before.state_stack@[before.state_stack@.len() - 1] == State::New,
            m0 == before.shadow@.marks[0],
            popped.is_popped(before),
            popped.links(0),
            popped.rows_settled(),
            popped.committed(),
            popped.frames_below(
                popped.state_stack@.len() as int,
                popped.shadow@.ops.len() as int,
            ),
            popped.no_new_below(popped.state_stack@.len() as int),
            popped.within_budget() && popped.complete(),
            self.sound(),
            self.kept(popped, popped.shadow@.ops.len() as int),
            self.stack_extends(popped),
            self.state_stack@ == popped.state_stack@,
            forall|r: int| self.is_chosen(r) == popped.is_chosen(r),
            before.to_come_from(s, m0),
        ensures
            self.to_come(s) || s == self.chosen_set(),
    {
        let k = popped.state_stack@.len() as int;
        if self.state_stack@.len() >= 1 {
            assert(self.shadow@.marks[0] == popped.shadow@.marks[0]);
        }
        assert(self.rested(popped));
        assert(!self.branched(popped)) by {
            if self.branched(popped) {
                let (c, n, j) = choose|c: int, n: int, j: int|
                    self.raised(popped, j) && #[trigger] self.on_top_at(
                        j,
                        c,
                        popped.head_of(c),
                        n,
                        popped.shadow@.ops.len() as int,
                    ) && self.may_branch(c);
            }
        }
        self.lemma_step_new(before, popped, true, s, m0);
        if self.to_come_from(s, m0) {
            self.lemma_to_come_frame(s, m0);
        }
    }

    /// What was to come before a step that asked for another level and
    /// handed out nothing is still to come.
    pub(crate) proof fn lemma_descended(
        &self,
        before: &PuzzleSolver,
        popped: &PuzzleSolver,
        s: Set<int>,
        m0: int,
    )
        requires
            before.sound(),
            before.state_stack@[before.state_stack@.len() - 1] == State::New,
            m0 == before.shadow@.marks[0],
            popped.is_popped(before),
            popped.links(0),
            popped.rows_settled(),
            popped.committed(),
            popped.frames_below(
                popped.state_stack@.len() as int,
                popped.shadow@.ops.len() as int,
            ),
            popped.no_new_below(popped.state_stack@.len() as int),
            !(popped.within_budget() && popped.complete()),
            self.sound(),
            self.kept(popped, popped.shadow@.ops.len() as int),
            self.rested(popped) || self.branched(popped),
            self.rested(popped) && popped.within_budget() && !popped.complete()
                ==> popped.blocked() || forall|c: int|
                popped.kind_of(c) == ColumnType::Unique ==> !#[trigger] popped.candidate(c),
            self.branched(popped) ==> self.chains_ok(),
            popped.state_stack@.len() == 0 && self.state_stack@.len() >= 1
                ==> self.shadow@.marks[0] == popped.shadow@.ops.len(),
            before.to_come_from(s, m0),
        ensures
            self.to_come_from(s, m0),
    {
        assert(before.frame_ok(0));
        if self.state_stack@.len() >= 1 {
            if popped.state_stack@.len() >= 1 {
                assert(self.shadow@.marks[0] == popped.shadow@.marks[0]);
            } else {
                assert(before.state_stack@.len() == 1);
            }
        }
        self.lemma_step_new(before, popped, false, s, m0);
    }

    /// What was to come before a step that took a row off trial is still
    /// to come.
    pub(crate) proof fn lemma_advanced(
        &self,
        before: &PuzzleSolver,
        popped: &PuzzleSolver,
        c: int,
        n: int,
        s: Set<int>,
        m0: int,
    )
        requires
            before.sound(),
            before.state_stack@[before.state_stack@.len() - 1] == State::CurrentState(
                c as usize,
                n as usize,
            ),
            0 <= c <= usize::MAX,
            0 <= n <= usize::MAX,
            m0 == before.shadow@.marks[0],
            popped.is_popped(before),
            popped.links(0),
            popped.frames_below(
                popped.state_stack@.len() as int,
                before.shadow@.marks[before.state_stack@.len() - 1],
            ),
            self.sound(),
            self.kept(popped, before.shadow@.marks[before.state_stack@.len() - 1]),
            self.stack_extends(popped),
            self.gave_up(popped, c, n, before.shadow@.marks[before.state_stack@.len() - 1])
                || self.moved_on(popped, c, n, before.shadow@.marks[before.state_stack@.len() - 1]),
            popped.state_stack@.len() == 0 && self.state_stack@.len() >= 1
                ==> self.shadow@.marks[0] == before.shadow@.marks[before.state_stack@.len() - 1],
            before.to_come_from(s, m0),
        ensures
            self.to_come_from(s, m0),
    {
        let k = before.state_stack@.len() - 1;
        assert(before.frame_ok(k));
        assert(before.node_shape(n));
        if self.state_stack@.len() >= 1 {
            if popped.state_stack@.len() >= 1 {
                assert(self.shadow@.marks[0] == popped.shadow@.marks[0]);
            }
        }
        self.lemma_step_row(before, popped, c, n, s, m0);
    }

    // ----- nothing comes that was not to come --------------------------------

    /// An exact cover is to come only while the stack holds a frame.
    pub(crate) proof fn lemma_to_come_frame(&self, s: Set<int>, m0: int)
        requires
            self.to_come_from(s, m0),
        ensures
            self.state_stack@.len() >= 1,
    {
        if self.waits_below(s, self.state_stack@.len() as int) {
            let i = choose|i: int|
                0 <= i < self.state_stack@.len() && #[trigger] self.waits_at(s, i);
        }
    }

    /// What agrees with the rows chosen before an operation agrees with
    /// those chosen before an earlier one.
    pub(crate) proof fn lemma_agrees_lower(&self, s: Set<int>, m: int, m2: int)
        requires
            self.agrees(s, m),
            m2 <= m,
        ensures
            self.agrees(s, m2),
    {
        assert forall|x: int| #[trigger] self.chosen_before(x, m2) implies s.contains(x) by {
            assert(self.chosen_before(x, m));
        }
    }

    /// What waits at a frame of `self` waited there in `pre`, while the
    /// operations before the frame are kept.
    pub(crate) proof fn lemma_waits_back(&self, pre: &PuzzleSolver, k: int, b: int, s: Set<int>)
        requires
            pre.shape(),
            pre.frames_below(k, b),
            0 <= k <= pre.state_stack@.len(),
            self.kept(pre, b),
            self.stack_extends(pre),
            self.waits_below(s, k),
        ensures
            pre.waits_below(s, k),
    {
        let i = choose|i: int| 0 <= i < k && #[trigger] self.waits_at(s, i);
        pre.lemma_marks_rise(k, b, i);
        assert(self.state_stack@[i] == pre.state_stack@[i]);
        assert(self.shadow@.marks[i] == pre.shadow@.marks[i]);
        self.lemma_kept_goal(pre, b, s, pre.shadow@.marks[i]);
        assert(pre.waits_at(s, i));
    }

    /// What is to come after the top frame has been taken off the stack
    /// and frames for a row on trial have been put there, or none, was to
    /// come before: at the frame that was taken off or below it.
    pub(crate) proof fn lemma_step_back(
        &self,
        before: &PuzzleSolver,
        popped: &PuzzleSolver,
        c: int,
        lo: int,
        b: int,
        s: Set<int>,
        m0: int,
    )
        requires
            before.sound(),
            m0 == before.shadow@.marks[0],
            b == before.shadow@.marks[before.state_stack@.len() - 1],
            popped.is_popped(before),
            popped.shape(),
            popped.frames_below(popped.state_stack@.len() as int, b),
            popped.no_new_below(popped.state_stack@.len() as int),
            self.sound(),
            self.kept(popped, b),
            self.rested(popped) || exists|n: int, j: int|
                self.raised(popped, j) && #[trigger] self.on_top_at(j, c, lo, n, b),
            self.to_come_from(s, m0),
        ensures
            before.goal(s, m0),
            before.waits_below(s, popped.state_stack@.len() as int) || (!self.rested(popped)
                && before.agrees(s, b) && before.later(s, c, lo)),
    {
        let top = before.shadow@.ops.len() as int;
        let k = popped.state_stack@.len() as int;
        assert(before.frame_ok(0));
        assert(before.frame_ok(k));
        assert forall|j: int| 0 <= j < k + 1 implies #[trigger] before.frame_ok_in(
            j,
            k + 1,
            top,
        ) by {
            assert(before.frame_ok(j));
        }
        before.lemma_marks_mono(k + 1, top, 0, k);
        before.lemma_marks_rise(k + 1, top, k);
        popped.lemma_kept_same(before, top);
        popped.lemma_kept_lower(before, top, b);
        self.lemma_kept_trans(popped, before, b);
        self.lemma_kept_goal(before, b, s, m0);
        self.lemma_kept_goal(before, b, s, b);
        let len = self.state_stack@.len() as int;
        assert forall|j: int| 0 <= j < len implies #[trigger] self.frame_ok_in(
            j,
            len,
            self.shadow@.ops.len() as int,
        ) by {
            assert(self.frame_ok(j));
        }
        if self.waits_below(s, len) {
            let i = choose|i: int| 0 <= i < len && #[trigger] self.waits_at(s, i);
            if i < k {
                assert(self.waits_below(s, k));
                self.lemma_waits_back(popped, k, b, s);
                let i2 = choose|i2: int| 0 <= i2 < k && #[trigger] popped.waits_at(s, i2);
                assert(before.state_stack@[i2] == popped.state_stack@[i2]);
                assert(before.shadow@.marks[i2] == popped.shadow@.marks[i2]);
                popped.lemma_marks_rise(k, b, i2);
                popped.lemma_kept_goal(before, top, s, popped.shadow@.marks[i2]);
                assert(before.waits_at(s, i2));
            } else {
                assert(!self.rested(popped));
                let (n, j) = choose|n: int, j: int|
                    self.raised(popped, j) && #[trigger] self.on_top_at(j, c, lo, n, b);
                assert(i == j);
                assert(self.later(s, c, n));
                let y = choose|y: int| #[trigger] self.in_column(s, c, y) && y > n;
                assert(before.in_column(s, c, y));
            }
        } else {
            assert(self.state_stack@[len - 1] == State::New);
            if self.rested(popped) {
                if len - 1 < k {
                    assert(popped.state_stack@[len - 1] != State::New);
                }
                assert(false);
            }
            let (n, j) = choose|n: int, j: int|
                self.raised(popped, j) && #[trigger] self.on_top_at(j, c, lo, n, b);
            assert(self.frame_ok_in(j, len, self.shadow@.ops.len() as int));
            self.lemma_marks_rise(len, self.shadow@.ops.len() as int, j);
            self.lemma_agrees_lower(s, self.shadow@.ops.len() as int, b);
            // the row on trial is a row of the set
            let r = self.row_of(n);
            assert(self.node_shape(n));
            self.lemma_chosen_all(r);
            assert(self.chosen_before(r, self.shadow@.ops.len() as int));
            assert(s.contains(r));
            assert(self.in_column(s, c, n));
            assert(before.in_column(s, c, n));
        }
    }

    /// The set of the chosen rows, when every unique column is covered, is
    /// an exact cover that the search looks for.
    pub(crate) proof fn lemma_chosen_goal(&self, k: int, m0: int)
        requires
            self.links(0),
            self.rows_settled(),
            self.committed(),
            self.frames_below(k, self.shadow@.ops.len() as int),
            k == self.state_stack@.len(),
            k >= 1 ==> m0 == self.shadow@.marks[0],
            k == 0 ==> m0 == self.shadow@.ops.len(),
            self@.is_solution(self.chosen_set()),
        ensures
            self.goal(self.chosen_set(), m0),
            self.agrees(self.chosen_set(), self.shadow@.ops.len() as int),
    {
        let top = self.shadow@.ops.len() as int;
        let s = self.chosen_set();
        assert forall|x: int| #[trigger] s.contains(x) implies self.chosen_before(x, m0)
            || self.free_before(x, m0) by {
            assert(self.row_shape(x));
            self.lemma_row_member(x, 0);
            self.lemma_chosen_covered(x, 0);
            let hc = self.head_column(x);
            let e = self.shadow@.cop[hc];
            if e >= m0 {
                assert(k >= 1);
                let i = self.lemma_frame_of(k, top, e);
                self.lemma_frame_row(k, top, i, e, hc);
                self.lemma_marks_mono(k, top, 0, i);
                assert(self.frame_ok_in(i, k, top));
                let n = self.state_stack@[i]->CurrentState_1 as int;
                let c = self.col_of(n);
                let p = self.shadow@.pos[n];
                let rn = self.shadow@.row_nodes[x];
                let len = rn.len() as int;
                assert(self.node_shape(n));
                assert(self.node_settled(n));
                assert(self.node_settled_at(n, -1, -1, 0));
                assert(Self::off(p, p, len) == 0);
                assert(self.shadow@.cop[c] == self.shadow@.marks[i]);
                assert(self.vcop(-1, -1, c) == self.shadow@.marks[i]);
                assert forall|j: int| 0 <= j < rn.len() implies #[trigger] self.cell_clear(
                    x,
                    j,
                    m0,
                ) by {
                    assert(self.shadow@.cop[self.col_of(rn[j] as int)] == self.shadow@.marks[i]
                        + Self::off(p, j, len));
                    if j != p {
                        assert(self.stamp_is(rn[j] as int, self.shadow@.marks[i], n));
                    }
                }
            }
        }
        assert forall|x: int| #[trigger] self.chosen_before(x, top) implies s.contains(x) by {}
        assert forall|x: int| #[trigger] self.chosen_before(x, m0) implies s.contains(x) by {}
    }

    /// The set of the chosen rows waits at no frame: of the column of a
    /// frame it holds the row on trial and no other.
    pub(crate) proof fn lemma_chosen_waits_not(&self, k: int)
        requires
            self.links(0),
            self.committed(),
            self.frames_below(k, self.shadow@.ops.len() as int),
            0 <= k <= self.state_stack@.len(),
            self@.is_solution(self.chosen_set()),
        ensures
            !self.waits_below(self.chosen_set(), k),
    {
        let s = self.chosen_set();
        let top = self.shadow@.ops.len() as int;
        if self.waits_below(s, k) {
            let i = choose|i: int| 0 <= i < k && #[trigger] self.waits_at(s, i);
            assert(self.frame_ok_in(i, k, top));
            let c = self.state_stack@[i]->CurrentState_0 as int;
            let n = self.state_stack@[i]->CurrentState_1 as int;
            let y = choose|y: int| #[trigger] self.in_column(s, c, y) && y > n;
            assert(self.node_shape(n));
            assert(self.is_chosen(self.row_of(n)));
            assert(self.in_column(s, c, n));
            self.lemma_one_cell(s, c, y, n);
        }
    }

    /// What is to come after a step that asked for another level was to
    /// come before.
    pub(crate) proof fn lemma_descended_back(
        &self,
        before: &PuzzleSolver,
        popped: &PuzzleSolver,
        s: Set<int>,
        m0: int,
    )
        requires
            before.sound(),
            before.state_stack@[before.state_stack@.len() - 1] == State::New,
            m0 == before.shadow@.marks[0],
            popped.is_popped(before),
            popped.shape(),
            popped.frames_below(
                popped.state_stack@.len() as int,
                popped.shadow@.ops.len() as int,
            ),
            popped.no_new_below(popped.state_stack@.len() as int),
            self.sound(),
            self.kept(popped, popped.shadow@.ops.len() as int),
            self.rested(popped) || self.branched(popped),
            self.to_come_from(s, m0),
        ensures
            before.to_come_from(s, m0),
    {
        let top = popped.shadow@.ops.len() as int;
        let k = popped.state_stack@.len() as int;
        assert(before.frame_ok(k));
        if self.rested(popped) {
            self.lemma_step_back(before, popped, 0, 0, top, s, m0);
        } else {
            let (c, n, j) = choose|c: int, n: int, j: int|
                self.raised(popped, j) && #[trigger] self.on_top_at(
                    j,
                    c,
                    popped.head_of(c),
                    n,
                    top,
                ) && self.may_branch(c);
            self.lemma_step_back(before, popped, c, popped.head_of(c), top, s, m0);
        }
        if before.waits_below(s, k) {
            let i = choose|i: int| 0 <= i < k && #[trigger] before.waits_at(s, i);
            assert(before.waits_below(s, k + 1));
        }
    }

    /// What is to come after a step that took a row off trial was to come
    /// before.
    pub(crate) proof fn lemma_advanced_back(
        &self,
        before: &PuzzleSolver,
        popped: &PuzzleSolver,
        c: int,
        n: int,
        s: Set<int>,
        m0: int,
    )
        requires
            before.sound(),
            before.state_stack@[before.state_stack@.len() - 1] == State::CurrentState(
                c as usize,
                n as usize,
            ),
            0 <= c <= usize::MAX,
            0 <= n <= usize::MAX,
            m0 == before.shadow@.marks[0],
            popped.is_popped(before),
            popped.shape(),
            popped.frames_below(
                popped.state_stack@.len() as int,
                before.shadow@.marks[before.state_stack@.len() - 1],
            ),
            popped.no_new_below(popped.state_stack@.len() as int),
            self.sound(),
            self.kept(popped, before.shadow@.marks[before.state_stack@.len() - 1]),
            self.stack_extends(popped),
            self.gave_up(popped, c, n, before.shadow@.marks[before.state_stack@.len() - 1])
                || self.moved_on(popped, c, n, before.shadow@.marks[before.state_stack@.len() - 1]),
            self.to_come_from(s, m0),
        ensures
            before.to_come_from(s, m0),
    {
        let k = popped.state_stack@.len() as int;
        let m = before.shadow@.marks[k];
        if self.gave_up(popped, c, n, m) {
            assert(self.rested(popped));
        } else {
            let n2 = choose|n2: int| #[trigger] self.on_top(popped, c, n, n2, m);
            assert(self.raised(popped, k));
            assert(self.on_top_at(k, c, n, n2, m));
        }
        self.lemma_step_back(before, popped, c, n, m, s, m0);
        if before.waits_below(s, k) {
            let i = choose|i: int| 0 <= i < k && #[trigger] before.waits_at(s, i);
            assert(before.waits_below(s, k + 1));
        } else {
            assert(before.waits_at(s, k));
            assert(before.waits_below(s, k + 1));
        }
    }

    /// What is to come after a step that switched chaining off was to come
    /// before.
    pub(crate) proof fn lemma_flag_back(&self, before: &PuzzleSolver, s: Set<int>, m0: int)
        requires
            before.sound(),
            before.state_stack@[before.state_stack@.len() - 1] is TriggerChaining,
            self.is_popped(before),
            m0 == before.shadow@.marks[0],
            self.to_come_from(s, m0),
        ensures
            before.to_come_from(s, m0),
    {
        let top = before.shadow@.ops.len() as int;
        let k = self.state_stack@.len() as int;
        self.lemma_kept_same(before, top);
        assert forall|j: int| 0 <= j < k + 1 implies #[trigger] before.frame_ok_in(
            j,
            k + 1,
            top,
        ) by {
            assert(before.frame_ok(j));
        }
        before.lemma_marks_rise(k + 1, top, 0);
        self.lemma_kept_goal(before, top, s, m0);
        if self.waits_below(s, k) {
            let i = choose|i: int| 0 <= i < k && #[trigger] self.waits_at(s, i);
            before.lemma_marks_rise(k + 1, top, i);
            self.lemma_kept_goal(before, top, s, before.shadow@.marks[i]);
            assert(before.state_stack@[i] == self.state_stack@[i]);
            assert(before.waits_at(s, i));
            assert(before.waits_below(s, k + 1));
        } else {
            assert(before.frame_ok_in(k - 1, k + 1, top));
        }
    }

    /// The set of the chosen rows that a step hands out was to come before
    /// the step and is no longer to come after it.
    pub(crate) proof fn lemma_emitted_due(
        &self,
        before: &PuzzleSolver,
        popped: &PuzzleSolver,
        m0: int,
    )
        requires
            before.sound(),
            before.state_stack@[before.state_stack@.len() - 1] == State::New,
            m0 == before.shadow@.marks[0],
            popped.is_popped(before),
            popped.links(0),
            popped.rows_settled(),
            popped.committed(),
            popped.frames_below(
                popped.state_stack@.len() as int,
                popped.shadow@.ops.len() as int,
            ),
            popped.no_new_below(popped.state_stack@.len() as int),
            self.sound(),
            self.state_stack@ == popped.state_stack@,
            self@ == popped@,
            forall|r: int| self.is_chosen(r) == popped.is_chosen(r),
            self@.is_solution(self.chosen_set()),
        ensures
            before.to_come_from(self.chosen_set(), m0),
            !self.to_come(self.chosen_set()),
    {
        let top = popped.shadow@.ops.len() as int;
        let k = popped.state_stack@.len() as int;
        let s = self.chosen_set();
        assert(s =~= popped.chosen_set());
        assert(s =~= before.chosen_set());
        assert(before.frame_ok(k));
        assert(before.frame_ok(0));
        assert forall|j: int| 0 <= j < k + 1 implies #[trigger] before.frame_ok_in(
            j,
            k + 1,
            top,
        ) by {
            assert(before.frame_ok(j));
        }
        before.lemma_chosen_goal(k + 1, m0);
        // after the step
        let len = self.state_stack@.len() as int;
        assert forall|j: int| 0 <= j < len implies #[trigger] self.frame_ok_in(
            j,
            len,
            self.shadow@.ops.len() as int,
        ) by {
            assert(self.frame_ok(j));
        }
        self.lemma_chosen_waits_not(len);
        if len >= 1 {
            assert(self.state_stack@[len - 1] != State::New);
        }
    }

    /// While the nodes are kept, the heads of the columns are where they
    /// were.
    pub(crate) proof fn lemma_same_heads(&self, pre: &PuzzleSolver, c: int)
        requires
            self.shape(),
            pre.shape(),
            self.node_list@ == pre.node_list@,
            self.nc() == pre.nc(),
            0 <= c < self.nc(),
        ensures
            self.head_of(c) == pre.head_of(c),
    {
        assert(self.column_shape(c));
        assert(pre.column_shape(c));
        let h = self.head_of(c);
        let h2 = pre.head_of(c);
        assert(self.node_shape(h2));
        assert(pre.node_shape(h));
    }
}

} // verus!
