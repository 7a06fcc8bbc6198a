//! Groups whose budget of holes is used up: while one is chaining, every
//! column of it that still has a linked cell must be covered.

use crate::dancing_links::{ColumnType, Node, PuzzleSolver, State};
use vstd::prelude::*;

verus! {

impl PuzzleSolver {
    /// Column `c` of group `g` was a hole before operation `m`: it was not
    /// covered, and none of its cells was linked.
    pub(crate) open spec fn hole_before(&self, g: int, c: int, m: int) -> bool {
        &&& self.kind_of(c) == ColumnType::ConditionalUnique(g as usize)
        &&& !(0 <= self.shadow@.cop[c] < m)
        &&& forall|y: int|
            self.is_cell(y) && self.col_of(y) == c ==> 0 <= #[trigger] self.shadow@.vop[y] < m
    }

    /// Number of columns among the first `k` that were holes of group `g`
    /// before operation `m`.
    pub(crate) open spec fn holes_before(&self, g: int, k: int, m: int) -> int
        decreases k,
    {
        if k <= 0 {
            0
        } else {
            self.holes_before(g, k - 1, m) + if self.hole_before(g, k - 1, m) {
                1int
            } else {
                0int
            }
        }
    }

    /// A frame that switches chaining off again was made when the budget
    /// of holes of its group was used up.
    pub(crate) open spec fn chain_frame(&self, i: int) -> bool {
        match self.state_stack@[i] {
            State::TriggerChaining(g) => g < self.ng() && self.holes_before(
                g as int,
                self.nc(),
                self.shadow@.marks[i],
            ) >= self.condition_state_list@[g as int].holes,
            _ => true,
        }
    }

    /// A group that is chaining has a frame that switches chaining off
    /// again.
    pub(crate) open spec fn flag_framed(&self, g: int) -> bool {
        self.condition_state_list@[g].chaining ==> exists|i: int|
            0 <= i < self.state_stack@.len() && #[trigger] self.state_stack@[i]
                == State::TriggerChaining(g as usize)
    }

    /// Chaining is on only for groups whose budget of holes was used up
    /// when it was switched on, and that have been no better off since.
    pub open(crate) spec fn chains_ok(&self) -> bool {
        &&& forall|i: int| 0 <= i < self.state_stack@.len() ==> #[trigger] self.chain_frame(i)
        &&& forall|g: int| 0 <= g < self.ng() ==> #[trigger] self.flag_framed(g)
    }

    /// Of the first `k` groups, those whose budget of holes is used up are
    /// chaining.
    pub(crate) open spec fn all_raised(&self, k: int) -> bool {
        forall|g: int|
            0 <= g < k && (#[trigger] self.condition_state_list@[g]).current_holes
                == self.condition_state_list@[g].holes ==> self.condition_state_list@[g].chaining
    }

    /// No group is chaining.
    pub open(crate) spec fn calm(&self) -> bool {
        forall|g: int| 0 <= g < self.ng() ==> !(#[trigger] self.condition_state_list@[g]).chaining
    }

    /// The columns that are holes are holes before the operation that
    /// comes next.
    pub(crate) proof fn lemma_holes_now(&self, g: int, k: int)
        requires
            self.links(0),
            self.rows_settled(),
            0 <= k <= self.nc(),
        ensures
            self.holes_below(g, k) <= self.holes_before(g, k, self.shadow@.ops.len() as int),
        decreases k,
    {
        if k > 0 {
            self.lemma_holes_now(g, k - 1);
            let c = k - 1;
            if self.is_hole(g, c) {
                self.lemma_count_zero(c);
                assert forall|y: int| self.is_cell(y) && self.col_of(y) == c implies 0
                    <= #[trigger] self.shadow@.vop[y] < self.shadow@.ops.len() by {
                    assert(self.node_settled(y));
                }
                assert(self.hole_before(g, c, self.shadow@.ops.len() as int));
            }
        }
    }

    /// What was a hole before operation `m` is one while the operations
    /// before `m` are kept.
    pub(crate) proof fn lemma_holes_kept(&self, pre: &PuzzleSolver, b: int, g: int, k: int, m: int)
        requires
            self.kept(pre, b),
            m <= b,
            0 <= k <= self.nc(),
            forall|c: int| 0 <= c < self.nc() ==> self.kind_of(c) == pre.kind_of(c),
        ensures
            self.holes_before(g, k, m) == pre.holes_before(g, k, m),
        decreases k,
    {
        if k > 0 {
            self.lemma_holes_kept(pre, b, g, k - 1, m);
            let c = k - 1;
            assert(self.low_column(pre, b, c));
            if pre.hole_before(g, c, m) {
                assert forall|y: int| self.is_cell(y) && self.col_of(y) == c implies 0
                    <= #[trigger] self.shadow@.vop[y] < m by {
                    assert(0 <= pre.shadow@.vop[y] < m);
                    assert(self.low_node(pre, b, y));
                }
            }
            if self.hole_before(g, c, m) {
                assert forall|y: int| pre.is_cell(y) && pre.col_of(y) == c implies 0
                    <= #[trigger] pre.shadow@.vop[y] < m by {
                    assert(0 <= self.shadow@.vop[y] < m);
                    assert(self.low_node(pre, b, y));
                }
            }
        }
    }

    /// An exact cover that holds a row of a column holds a row whose cell
    /// in the column comes after the head.
    pub(crate) proof fn lemma_touched(&self, s: Set<int>, c: int)
        requires
            self.shape(),
            0 <= c < self.nc(),
            !self@.untouched(s, c),
        ensures
            self.later(s, c, self.head_of(c)),
    {
        let h = self.head_of(c);
        assert(self.column_shape(c));
        let i = choose|i: int|
            0 <= i < self@.columns[c].rows.len() && s.contains(
                #[trigger] self@.columns[c].rows[i] as int,
            );
        let y = h + 1 + i;
        assert(self.cell_at(c, i) == (Node { row: self.shadow@.col_rows[c][i], column: c as usize }));
        assert(self.node_list@[y] == self.cell_at(c, i));
        assert(self.node_shape(y));
        assert(self.in_column(s, c, y));
    }

    /// No row of an exact cover to come has a cell in a column that is a
    /// hole.
    pub(crate) proof fn lemma_hole_stays(&self, s: Set<int>, m0: int, g: int, c: int)
        requires
            self.links(0),
            self.rows_settled(),
            self.committed(),
            self.shadow@.floor <= m0 <= self.shadow@.ops.len(),
            self.goal(s, m0),
            self.agrees(s, self.shadow@.ops.len() as int),
            0 <= c < self.nc(),
            self.is_hole(g, c),
        ensures
            self@.untouched(s, c),
    {
        if !self@.untouched(s, c) {
            self.lemma_touched(s, c);
            let y = choose|y: int| #[trigger] self.in_column(s, c, y) && y > self.head_of(c);
            let x = self.row_of(y);
            assert(self.node_shape(y));
            let k = self.shadow@.pos[y];
            if self.is_chosen(x) {
                self.lemma_chosen_covered(x, k);
            } else {
                self.lemma_rest_free(s, m0, x);
                assert(self.shadow@.vop[self.shadow@.row_nodes[x][k] as int] < 0);
                self.lemma_count_zero(c);
            }
        }
    }

    /// An exact cover to come leaves at least the holes that there are.
    pub(crate) proof fn lemma_holes_least(&self, s: Set<int>, m0: int, g: int, k: int)
        requires
            self.links(0),
            self.rows_settled(),
            self.committed(),
            self.shadow@.floor <= m0 <= self.shadow@.ops.len(),
            self.goal(s, m0),
            self.agrees(s, self.shadow@.ops.len() as int),
            0 <= k <= self.nc(),
        ensures
            self.holes_below(g, k) <= self@.holes(s, g, k),
        decreases k,
    {
        if k > 0 {
            self.lemma_holes_least(s, m0, g, k - 1);
            let c = k - 1;
            assert(self@.columns[c].kind == self.kind_of(c));
            if self.is_hole(g, c) {
                self.lemma_hole_stays(s, m0, g, c);
            }
        }
    }

    /// While an exact cover is to come, no group has more holes than its
    /// budget allows.
    pub(crate) proof fn lemma_in_budget(&self, s: Set<int>, m0: int)
        requires
            self.links(0),
            self.rows_settled(),
            self.committed(),
            self.shadow@.floor <= m0 <= self.shadow@.ops.len(),
            self.goal(s, m0),
            self.agrees(s, self.shadow@.ops.len() as int),
        ensures
            self.within_budget(),
    {
        assert forall|g: int| 0 <= g < self.ng() implies (
        #[trigger] self.condition_state_list@[g]).current_holes
            <= self.condition_state_list@[g].holes by {
            self.lemma_holes_least(s, m0, g, self.nc());
            assert(self.group_links(g));
            assert(self@.budgets[g] == self.condition_state_list@[g].holes);
            assert(self@.columns.len() == self.nc());
        }
    }

    /// A row of an exact cover to come that is not chosen was free when
    /// the frame `j` was made.
    pub(crate) proof fn lemma_free_at(&self, s: Set<int>, m0: int, k: int, j: int, x: int)
        requires
            self.links(0),
            self.rows_settled(),
            self.committed(),
            self.frames_below(k, self.shadow@.ops.len() as int),
            0 <= j < k,
            self.shadow@.floor <= m0 <= self.shadow@.marks[j],
            self.goal(s, m0),
            self.agrees(s, self.shadow@.marks[j]),
            s.contains(x),
            !self.is_chosen(x),
        ensures
            self.free_before(x, self.shadow@.marks[j]),
    {
        let m = self.shadow@.marks[j];
        assert(0 <= x < self.nr());
        assert(!self.chosen_before(x, m0));
        assert(self.free_before(x, m0));
        let rn = self.shadow@.row_nodes[x];
        assert forall|i: int| 0 <= i < rn.len() implies #[trigger] self.cell_clear(x, i, m) by {
            self.lemma_row_member(x, i);
            let n = rn[i] as int;
            let c = self.col_of(n);
            let e = self.shadow@.cop[c];
            if 0 <= e < m {
                assert(self.column_settled(c));
                let y2 = self.shadow@.cover_cell[c];
                let r2 = self.row_of(y2);
                assert(self.node_shape(y2));
                self.lemma_chosen_side(k, j, r2, self.shadow@.pos[y2]);
                assert(s.contains(r2));
                assert(self.in_column(s, c, y2));
                assert(self.in_column(s, c, n));
                self.lemma_one_cell(s, c, y2, n);
                assert(false);
            }
            let d = self.shadow@.vop[n];
            if 0 <= d < m {
                assert(self.node_settled(n));
                assert(self.node_settled_at(n, -1, -1, 0));
                let v = self.shadow@.vsub[n];
                if v >= 0 {
                    assert(self.node_shape(v));
                    let c2 = self.col_of(v);
                    assert(self.shadow@.cop[c2] == d);
                    assert(self.column_settled(c2));
                    let y2 = self.shadow@.cover_cell[c2];
                    let r2 = self.row_of(y2);
                    assert(self.node_shape(y2));
                    self.lemma_chosen_side(k, j, r2, self.shadow@.pos[y2]);
                    assert(s.contains(r2));
                    assert(self.in_column(s, c2, y2));
                    assert(self.in_column(s, c2, v));
                    self.lemma_one_cell(s, c2, y2, v);
                    assert(false);
                } else {
                    assert(self.cell_clear(x, i, m0));
                    assert(false);
                }
            }
        }
    }

    /// No row of an exact cover to come has a cell in a column that was a
    /// hole when a frame below the frame `j` was made.
    pub(crate) proof fn lemma_hole_stayed(
        &self,
        s: Set<int>,
        m0: int,
        k: int,
        j: int,
        i: int,
        g: int,
        c: int,
    )
        requires
            self.links(0),
            self.rows_settled(),
            self.committed(),
            self.frames_below(k, self.shadow@.ops.len() as int),
            0 <= i < j < k,
            self.state_stack@[i] is TriggerChaining,
            self.shadow@.floor <= m0 <= self.shadow@.marks[j],
            m0 == self.shadow@.marks[0],
            self.goal(s, m0),
            self.agrees(s, self.shadow@.marks[j]),
            0 <= c < self.nc(),
            self.hole_before(g, c, self.shadow@.marks[i]),
        ensures
            self@.untouched(s, c),
    {
        let top = self.shadow@.ops.len() as int;
        let mi = self.shadow@.marks[i];
        self.lemma_marks_mono(k, top, i, j);
        self.lemma_marks_mono(k, top, 0, i);
        if !self@.untouched(s, c) {
            self.lemma_touched(s, c);
            let y = choose|y: int| #[trigger] self.in_column(s, c, y) && y > self.head_of(c);
            let x = self.row_of(y);
            assert(self.node_shape(y));
            let p = self.shadow@.pos[y];
            assert(0 <= self.shadow@.vop[y] < mi);
            if self.is_chosen(x) {
                self.lemma_chosen_covered(x, p);
                let e = self.shadow@.cop[c];
                assert(e >= mi);
                let i2 = self.lemma_frame_of(k, top, e);
                self.lemma_frame_row(k, top, i2, e, c);
                assert(self.frame_ok_in(i2, k, top));
                assert(self.frame_ok_in(i, k, top));
                let n2 = self.state_stack@[i2]->CurrentState_1 as int;
                assert(self.row_of(n2) == x);
                if i2 < i {
                    self.lemma_marks_mono(k, top, i2 + 1, i);
                    assert(false);
                }
                self.lemma_marks_mono(k, top, i, i2);
                assert(self.node_shape(n2));
                assert(self.node_settled(n2));
                assert(self.node_settled_at(n2, -1, -1, 0));
                let c2 = self.col_of(n2);
                let p2 = self.shadow@.pos[n2];
                let len = self.shadow@.row_nodes[x].len() as int;
                assert(Self::off(p2, p2, len) == 0);
                assert(self.shadow@.cop[c2] == self.shadow@.marks[i2]);
                assert(self.vcop(-1, -1, c2) == self.shadow@.marks[i2]);
                if p != p2 {
                    assert(self.stamp_is(
                        self.shadow@.row_nodes[x][p] as int,
                        self.shadow@.marks[i2],
                        n2,
                    ));
                }
                assert(false);
            } else {
                self.lemma_free_at(s, m0, k, j, x);
                assert(self.cell_clear(x, p, self.shadow@.marks[j]));
                assert(false);
            }
        }
    }

    /// An exact cover that leaves out a column of a group besides the
    /// columns that were holes before operation `m` leaves more holes than
    /// there were.
    pub(crate) proof fn lemma_holes_more(&self, s: Set<int>, g: int, k: int, m: int, c: int)
        requires
            self.shape(),
            0 <= k <= self.nc(),
            0 <= c < self.nc(),
            self.kind_of(c) == ColumnType::ConditionalUnique(g as usize),
            self@.untouched(s, c),
            !self.hole_before(g, c, m),
            forall|c2: int|
                0 <= c2 < self.nc() && #[trigger] self.hole_before(g, c2, m) ==> self@.untouched(
                    s,
                    c2,
                ),
        ensures
            self@.holes(s, g, k) >= self.holes_before(g, k, m) + if c < k {
                1int
            } else {
                0int
            },
        decreases k,
    {
        if k > 0 {
            self.lemma_holes_more(s, g, k - 1, m, c);
            let c2 = k - 1;
            assert(self@.columns[c2].kind == self.kind_of(c2));
        }
    }

    // ----- what the steps of the search keep of the chaining ----------------

    /// Group `g` is chaining in `self` exactly when it is in `pre`, and has
    /// the same budget.
    pub(crate) open spec fn flag_same(&self, pre: &PuzzleSolver, g: int) -> bool {
        self.condition_state_list@[g].chaining == pre.condition_state_list@[g].chaining
            && self.condition_state_list@[g].holes == pre.condition_state_list@[g].holes
    }

    /// The groups chain as in `pre`.
    pub(crate) open spec fn same_flags(&self, pre: &PuzzleSolver) -> bool {
        &&& self.ng() == pre.ng()
        &&& forall|g: int| 0 <= g < self.ng() ==> #[trigger] self.flag_same(pre, g)
    }

    /// A state that differs from `pre` in nothing that chaining depends on
    /// but the frames on top of the stack keeps the chaining in order.
    pub(crate) proof fn lemma_chains_kept(&self, pre: &PuzzleSolver, b: int)
        requires
            pre.shape(),
            pre.frames_below(pre.state_stack@.len() as int, b),
            self.kept(pre, b),
            self.stack_extends(pre),
            self.same_flags(pre),
            forall|i: int|
                pre.state_stack@.len() <= i < self.state_stack@.len() ==> !(
                #[trigger] self.state_stack@[i] is TriggerChaining),
            pre.chains_ok(),
        ensures
            self.chains_ok(),
    {
        let k = pre.state_stack@.len() as int;
        assert forall|c: int| 0 <= c < self.nc() implies self.kind_of(c) == pre.kind_of(c) by {
            assert(self@.columns[c].kind == pre@.columns[c].kind);
        }
        assert forall|i: int| 0 <= i < self.state_stack@.len() implies #[trigger] self.chain_frame(
            i,
        ) by {
            if i < k {
                assert(pre.chain_frame(i));
                assert(self.state_stack@[i] == pre.state_stack@[i]);
                assert(self.shadow@.marks[i] == pre.shadow@.marks[i]);
                pre.lemma_marks_rise(k, b, i);
                match self.state_stack@[i] {
                    State::TriggerChaining(g) => {
                        self.lemma_holes_kept(pre, b, g as int, self.nc(), pre.shadow@.marks[i]);
                        assert(self.flag_same(pre, g as int));
                    },
                    _ => {},
                }
            }
        }
        assert forall|g: int| 0 <= g < self.ng() implies #[trigger] self.flag_framed(g) by {
            assert(self.flag_same(pre, g));
            assert(pre.flag_framed(g));
            if pre.condition_state_list@[g].chaining {
                let i = choose|i: int|
                    0 <= i < pre.state_stack@.len() && #[trigger] pre.state_stack@[i]
                        == State::TriggerChaining(g as usize);
                assert(self.state_stack@[i] == State::TriggerChaining(g as usize));
            }
        }
    }

    /// A state with the stamps, the kinds and the flags of `pre` has the
    /// holes of `pre`.
    pub(crate) proof fn lemma_holes_same(&self, pre: &PuzzleSolver, g: int, k: int, m: int)
        requires
            self.node_list@ == pre.node_list@,
            self.column_list@ == pre.column_list@,
            self.shadow@.vop == pre.shadow@.vop,
            self.shadow@.cop == pre.shadow@.cop,
        ensures
            self.holes_before(g, k, m) == pre.holes_before(g, k, m),
        decreases k,
    {
        if k > 0 {
            self.lemma_holes_same(pre, g, k - 1, m);
            let c = k - 1;
            if pre.hole_before(g, c, m) {
                assert forall|y: int| self.is_cell(y) && self.col_of(y) == c implies 0
                    <= #[trigger] self.shadow@.vop[y] < m by {
                    assert(0 <= pre.shadow@.vop[y] < m);
                }
            }
            if self.hole_before(g, c, m) {
                assert forall|y: int| pre.is_cell(y) && pre.col_of(y) == c implies 0
                    <= #[trigger] pre.shadow@.vop[y] < m by {
                    assert(0 <= self.shadow@.vop[y] < m);
                }
            }
        }
    }

    /// Taking a frame off the stack that does not switch chaining off
    /// keeps the chaining in order.
    pub(crate) proof fn lemma_chains_popped(&self, pre: &PuzzleSolver)
        requires
            pre.chains_ok(),
            pre.state_stack@.len() >= 1,
            pre.shadow@.marks.len() == pre.state_stack@.len(),
            pre.ng() <= usize::MAX,
            !(pre.state_stack@[pre.state_stack@.len() - 1] is TriggerChaining),
            self.node_list@ == pre.node_list@,
            self.column_list@ == pre.column_list@,
            self.condition_state_list@ == pre.condition_state_list@,
            self.state_stack@ == pre.state_stack@.drop_last(),
            self.shadow@.vop == pre.shadow@.vop,
            self.shadow@.cop == pre.shadow@.cop,
            self.shadow@.marks == pre.shadow@.marks.drop_last(),
        ensures
            self.chains_ok(),
    {
        assert forall|i: int| 0 <= i < self.state_stack@.len() implies #[trigger] self.chain_frame(
            i,
        ) by {
            assert(pre.chain_frame(i));
            assert(self.state_stack@[i] == pre.state_stack@[i]);
            assert(self.shadow@.marks[i] == pre.shadow@.marks[i]);
            match self.state_stack@[i] {
                State::TriggerChaining(g) => {
                    self.lemma_holes_same(pre, g as int, self.nc(), pre.shadow@.marks[i]);
                },
                _ => {},
            }
        }
        assert forall|g: int| 0 <= g < self.ng() implies #[trigger] self.flag_framed(g) by {
            assert(pre.flag_framed(g));
            if pre.condition_state_list@[g].chaining {
                let i = choose|i: int|
                    0 <= i < pre.state_stack@.len() && #[trigger] pre.state_stack@[i]
                        == State::TriggerChaining(g as usize);
                assert(i < pre.state_stack@.len() - 1);
                assert(self.state_stack@[i] == pre.state_stack@[i]);
            }
        }
    }

    /// Taking off the stack a frame that switches chaining off, and
    /// switching it off, keeps the chaining in order.
    pub(crate) proof fn lemma_chains_off(&self, pre: &PuzzleSolver, g0: int)
        requires
            pre.chains_ok(),
            pre.state_stack@.len() >= 1,
            pre.shadow@.marks.len() == pre.state_stack@.len(),
            pre.ng() <= usize::MAX,
            pre.state_stack@[pre.state_stack@.len() - 1] == State::TriggerChaining(g0 as usize),
            0 <= g0 < pre.ng(),
            self.node_list@ == pre.node_list@,
            self.column_list@ == pre.column_list@,
            self.condition_state_list@.len() == pre.condition_state_list@.len(),
            forall|g: int|
                0 <= g < pre.ng() ==> (#[trigger] self.condition_state_list@[g]).holes
                    == pre.condition_state_list@[g].holes && (g != g0
                    ==> self.condition_state_list@[g].chaining
                    == pre.condition_state_list@[g].chaining),
            !self.condition_state_list@[g0].chaining,
            self.state_stack@ == pre.state_stack@.drop_last(),
            self.shadow@.vop == pre.shadow@.vop,
            self.shadow@.cop == pre.shadow@.cop,
            self.shadow@.marks == pre.shadow@.marks.drop_last(),
        ensures
            self.chains_ok(),
    {
        assert forall|i: int| 0 <= i < self.state_stack@.len() implies #[trigger] self.chain_frame(
            i,
        ) by {
            assert(pre.chain_frame(i));
            assert(self.state_stack@[i] == pre.state_stack@[i]);
            assert(self.shadow@.marks[i] == pre.shadow@.marks[i]);
            match self.state_stack@[i] {
                State::TriggerChaining(g) => {
                    self.lemma_holes_same(pre, g as int, self.nc(), pre.shadow@.marks[i]);
                    assert(self.condition_state_list@[g as int].holes
                        == pre.condition_state_list@[g as int].holes);
                },
                _ => {},
            }
        }
        assert forall|g: int| 0 <= g < self.ng() implies #[trigger] self.flag_framed(g) by {
            assert(pre.flag_framed(g));
            if g != g0 && pre.condition_state_list@[g].chaining {
                assert(self.condition_state_list@[g].chaining
                    == pre.condition_state_list@[g].chaining);
                let i = choose|i: int|
                    0 <= i < pre.state_stack@.len() && #[trigger] pre.state_stack@[i]
                        == State::TriggerChaining(g as usize);
                assert(i < pre.state_stack@.len() - 1);
                assert(self.state_stack@[i] == pre.state_stack@[i]);
            }
        }
    }

    /// Switching chaining on for a group whose budget of holes is used up,
    /// with a frame that switches it off again, keeps the chaining in
    /// order.
    pub(crate) proof fn lemma_chains_on(&self, pre: &PuzzleSolver, g0: int)
        requires
            pre.links(0),
            pre.rows_settled(),
            pre.chains_ok(),
            0 <= g0 < pre.ng(),
            pre.ng() <= usize::MAX,
            pre.condition_state_list@[g0].current_holes == pre.condition_state_list@[g0].holes,
            self.node_list@ == pre.node_list@,
            self.column_list@ == pre.column_list@,
            self.condition_state_list@.len() == pre.condition_state_list@.len(),
            forall|g: int|
                0 <= g < pre.ng() ==> (#[trigger] self.condition_state_list@[g]).holes
                    == pre.condition_state_list@[g].holes && (g != g0
                    ==> self.condition_state_list@[g].chaining
                    == pre.condition_state_list@[g].chaining),
            self.state_stack@ == pre.state_stack@.push(State::TriggerChaining(g0 as usize)),
            self.shadow@.vop == pre.shadow@.vop,
            self.shadow@.cop == pre.shadow@.cop,
            self.shadow@.marks == pre.shadow@.marks.push(pre.shadow@.ops.len() as int),
            pre.shadow@.marks.len() == pre.state_stack@.len(),
        ensures
            self.chains_ok(),
    {
        let k = pre.state_stack@.len() as int;
        let top = pre.shadow@.ops.len() as int;
        assert forall|i: int| 0 <= i < self.state_stack@.len() implies #[trigger] self.chain_frame(
            i,
        ) by {
            if i < k {
                assert(pre.chain_frame(i));
                assert(self.state_stack@[i] == pre.state_stack@[i]);
                assert(self.shadow@.marks[i] == pre.shadow@.marks[i]);
                match self.state_stack@[i] {
                    State::TriggerChaining(g) => {
                        self.lemma_holes_same(pre, g as int, self.nc(), pre.shadow@.marks[i]);
                        assert(self.condition_state_list@[g as int].holes
                            == pre.condition_state_list@[g as int].holes);
                    },
                    _ => {},
                }
            } else {
                assert(self.state_stack@[i] == State::TriggerChaining(g0 as usize));
                assert(self.shadow@.marks[i] == top);
                pre.lemma_holes_now(g0, pre.nc());
                assert(pre.group_links(g0));
                self.lemma_holes_same(pre, g0, self.nc(), top);
                assert(self.condition_state_list@[g0].holes == pre.condition_state_list@[g0].holes);
            }
        }
        assert forall|g: int| 0 <= g < self.ng() implies #[trigger] self.flag_framed(g) by {
            if g == g0 {
                assert(self.state_stack@[k] == State::TriggerChaining(g as usize));
            } else {
                assert(pre.flag_framed(g));
                if pre.condition_state_list@[g].chaining {
                    let i = choose|i: int|
                        0 <= i < pre.state_stack@.len() && #[trigger] pre.state_stack@[i]
                            == State::TriggerChaining(g as usize);
                    assert(self.state_stack@[i] == State::TriggerChaining(g as usize));
                }
                assert(self.condition_state_list@[g].chaining
                    == pre.condition_state_list@[g].chaining);
            }
        }
    }

    /// Before the search, the chaining is in order if no group is
    /// chaining.
    pub(crate) proof fn lemma_chains_first(&self)
        requires
            self.sound(),
            !self.started(),
            self.calm(),
        ensures
            self.chains_ok(),
    {
        assert(self.state_stack@ == seq![State::New]);
        assert(self.state_stack@.len() == 1);
        assert forall|i: int| 0 <= i < self.state_stack@.len() implies #[trigger] self.chain_frame(
            i,
        ) by {
            assert(self.state_stack@[0] == State::New);
        }
        assert forall|g: int| 0 <= g < self.ng() implies #[trigger] self.flag_framed(g) by {
            assert(!self.condition_state_list@[g].chaining);
        }
    }

    /// While a group is chaining, an exact cover to come holds a row of
    /// every column of the group that is branched on.
    pub(crate) proof fn lemma_chained_touch(&self, s: Set<int>, m0: int, j: int, g: int)
        requires
            self.sound(),
            self.chains_ok(),
            0 <= j,
            self.state_stack@.len() == j + 2,
            self.state_stack@[j] is CurrentState,
            self.state_stack@[j + 1] == State::New,
            0 <= g < self.ng(),
            self.kind_of(self.state_stack@[j]->CurrentState_0 as int)
                == ColumnType::ConditionalUnique(g as usize),
            self.condition_state_list@[g].chaining,
            self.shadow@.floor <= m0 <= self.shadow@.marks[j],
            m0 == self.shadow@.marks[0],
            self.goal(s, m0),
            self.agrees(s, self.shadow@.marks[j]),
        ensures
            self.later(
                s,
                self.state_stack@[j]->CurrentState_0 as int,
                self.head_of(self.state_stack@[j]->CurrentState_0 as int),
            ),
    {
        let top = self.shadow@.ops.len() as int;
        let k = self.state_stack@.len() as int;
        let c = self.state_stack@[j]->CurrentState_0 as int;
        let n = self.state_stack@[j]->CurrentState_1 as int;
        assert forall|i: int| 0 <= i < k implies #[trigger] self.frame_ok_in(i, k, top) by {
            assert(self.frame_ok(i));
        }
        assert(self.frame_ok_in(j, k, top));
        if self@.untouched(s, c) {
            assert(self.flag_framed(g));
            let i = choose|i: int|
                0 <= i < self.state_stack@.len() && #[trigger] self.state_stack@[i]
                    == State::TriggerChaining(g as usize);
            assert(i < j);
            assert(self.chain_frame(i));
            let mi = self.shadow@.marks[i];
            assert forall|c2: int|
                0 <= c2 < self.nc() && #[trigger] self.hole_before(
                    g,
                    c2,
                    mi,
                ) implies self@.untouched(s, c2) by {
                self.lemma_hole_stayed(s, m0, k, j, i, g, c2);
            }
            assert(!self.hole_before(g, c, mi)) by {
                assert(self.shadow@.vop[n] < 0);
            }
            self.lemma_holes_more(s, g, self.nc(), mi, c);
            assert(self@.budgets[g] == self.condition_state_list@[g].holes);
            assert(self@.columns.len() == self.nc());
            assert(false);
        }
        self.lemma_touched(s, c);
    }
}

} // verus!
