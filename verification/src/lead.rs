//! What the lists of a solver say of the matrix in the midst of a search:
//! the rows that are free, the columns that are covered, the counts and the
//! column that is branched on are those that the order of the search
//! speaks of.

use crate::chain::lemma_linked_below_gap;
use crate::dancing_links::{ColumnType, Node, PuzzleSolver, State};
use crate::order::Start;
use vstd::prelude::*;

verus! {

impl PuzzleSolver {
    /// Column `c` was covered before operation `m`.
    pub open(crate) spec fn shut_before(&self, c: int, m: int) -> bool {
        0 <= c < self.nc() && 0 <= self.shadow@.cop[c] < m
    }

    /// What the search that began with operation `m0` began with.
    pub open(crate) spec fn start_of(&self, m0: int) -> Start {
        Start {
            open: Set::new(|x: int| self.free_before(x, m0)),
            shut: Set::new(|c: int| self.shut_before(c, m0)),
        }
    }

    /// The rows that the first `k` frames have on trial, from the bottom
    /// of the stack upwards.
    pub open(crate) spec fn trail(&self, k: int) -> Seq<int>
        decreases k,
    {
        if k <= 0 {
            Seq::empty()
        } else {
            match self.state_stack@[k - 1] {
                State::CurrentState(_, n) => self.trail(k - 1).push(self.row_of(n as int)),
                _ => self.trail(k - 1),
            }
        }
    }

    /// The state between two steps of the search that began with operation
    /// `m0`, with `k` frames on the stack.
    pub(crate) open spec fn at_rest(&self, k: int, m0: int) -> bool {
        &&& self.links(0)
        &&& self.rows_settled()
        &&& self.committed()
        &&& k == self.state_stack@.len()
        &&& self.frames_below(k, self.shadow@.ops.len() as int)
        &&& self.shadow@.floor <= m0 <= self.shadow@.ops.len()
        &&& k >= 1 ==> m0 == self.shadow@.marks[0]
        &&& k == 0 ==> m0 == self.shadow@.ops.len()
    }

    /// The row that a frame has on trial is a row of the trail.
    pub(crate) proof fn lemma_trail_has(&self, k: int, i: int) -> (j: int)
        requires
            0 <= i < k,
            self.state_stack@[i] is CurrentState,
        ensures
            0 <= j < self.trail(k).len(),
            self.trail(k)[j] == self.row_of(self.state_stack@[i]->CurrentState_1 as int),
        decreases k,
    {
        if i == k - 1 {
            self.trail(k - 1).len() as int
        } else {
            let j = self.lemma_trail_has(k - 1, i);
            match self.state_stack@[k - 1] {
                State::CurrentState(_, n) => {
                    assert(self.trail(k)[j] == self.trail(k - 1)[j]);
                },
                _ => {},
            }
            j
        }
    }

    /// A row of the trail is the row that a frame has on trial.
    pub(crate) proof fn lemma_trail_from(&self, k: int, j: int) -> (i: int)
        requires
            0 <= j < self.trail(k).len(),
        ensures
            0 <= i < k,
            self.state_stack@[i] is CurrentState,
            self.trail(k)[j] == self.row_of(self.state_stack@[i]->CurrentState_1 as int),
        decreases k,
    {
        if k <= 0 {
            0
        } else {
            match self.state_stack@[k - 1] {
                State::CurrentState(_, n) => {
                    if j == self.trail(k - 1).len() {
                        k - 1
                    } else {
                        assert(self.trail(k)[j] == self.trail(k - 1)[j]);
                        self.lemma_trail_from(k - 1, j)
                    }
                },
                _ => self.lemma_trail_from(k - 1, j),
            }
        }
    }

    /// A cell of a row lies in a column that the row has a cell in.
    pub(crate) proof fn lemma_cell_hits(&self, y: int)
        requires
            self.shape(),
            self.is_cell(y),
        ensures
            self@.hits(self.col_of(y), self.row_of(y)),
    {
        let c = self.col_of(y);
        assert(self.node_shape(y));
        assert(self.column_shape(c));
        let i = y - self.head_of(c) - 1;
        assert(self@.columns[c].rows == self.shadow@.col_rows[c]);
        assert(self@.columns[c].rows[i] == self.row_of(y) as usize);
        assert(self.sizes_ok());
    }

    /// A row that has a cell in a column has a cell of it there.
    pub(crate) proof fn lemma_hits_cell(&self, c: int, x: int) -> (y: int)
        requires
            self.shape(),
            self@.hits(c, x),
        ensures
            self.is_cell(y),
            self.col_of(y) == c,
            self.row_of(y) == x,
            0 <= self.shadow@.pos[y] < self.shadow@.row_nodes[x].len(),
            self.shadow@.row_nodes[x][self.shadow@.pos[y]] == y,
            0 <= y - self.head_of(c) - 1 < self.shadow@.col_rows[c].len(),
    {
        assert(self.sizes_ok());
        assert(self.column_shape(c));
        let rows = self@.columns[c].rows;
        assert(rows == self.shadow@.col_rows[c]);
        let i = choose|i: int| 0 <= i < rows.len() && rows[i] == x as usize;
        let y = self.head_of(c) + 1 + i;
        assert(self.cell_at(c, i) == (Node { row: self.shadow@.col_rows[c][i], column: c as usize }));
        assert(self.node_list@[y] == self.cell_at(c, i));
        assert(self.node_shape(y));
        y
    }

    /// The columns that are covered are those that were covered when the
    /// search began and those that a row of the trail has a cell in.
    pub(crate) proof fn lemma_shut(&self, k: int, m0: int, c: int)
        requires
            self.at_rest(k, m0),
            0 <= c < self.nc(),
        ensures
            (self.shadow@.cop[c] >= 0) == self@.col_shut(self.start_of(m0), self.trail(k), c),
    {
        let top = self.shadow@.ops.len() as int;
        let st = self.start_of(m0);
        let e = self.shadow@.cop[c];
        assert(self.column_links(c, 0));
        if e >= 0 {
            if e < m0 {
                assert(st.shut.contains(c));
            } else {
                let i = self.lemma_frame_of(k, top, e);
                self.lemma_frame_row(k, top, i, e, c);
                let j = self.lemma_trail_has(k, i);
                self.lemma_cell_hits(self.shadow@.cover_cell[c]);
                assert(self.column_settled(c));
                assert(self@.hits(c, self.trail(k)[j]));
            }
        }
        if self@.col_shut(st, self.trail(k), c) {
            if !st.shut.contains(c) {
                let j = choose|j: int|
                    0 <= j < self.trail(k).len() && self@.hits(c, #[trigger] self.trail(k)[j]);
                let i = self.lemma_trail_from(k, j);
                assert(self.frame_ok_in(i, k, top));
                let x = self.trail(k)[j];
                let y = self.lemma_hits_cell(c, x);
                self.lemma_chosen_covered(x, self.shadow@.pos[y]);
            }
        }
    }

    /// The rows that are free are those that were free when the search
    /// began and have no column in common with a row of the trail.
    pub(crate) proof fn lemma_free(&self, k: int, m0: int, x: int)
        requires
            self.at_rest(k, m0),
        ensures
            self.is_free(x) == self@.row_free(self.start_of(m0), self.trail(k), x),
    {
        let top = self.shadow@.ops.len() as int;
        let st = self.start_of(m0);
        let p = self.trail(k);
        if self.is_free(x) {
            let rn = self.shadow@.row_nodes[x];
            assert forall|i: int| 0 <= i < rn.len() implies #[trigger] self.cell_clear(x, i, m0) by {}
            assert(self.free_before(x, m0));
            assert forall|j: int| 0 <= j < p.len() implies !self@.clash(#[trigger] p[j], x) by {
                if self@.clash(p[j], x) {
                    let c = choose|c: int| #[trigger] self@.hits(c, p[j]) && self@.hits(c, x);
                    let y = self.lemma_hits_cell(c, x);
                    self.lemma_shut(k, m0, c);
                    assert(self@.col_shut(st, p, c));
                    assert(self.shadow@.cop[self.col_of(rn[self.shadow@.pos[y]] as int)] < 0);
                }
            }
        }
        if self@.row_free(st, p, x) {
            assert(self.free_before(x, m0));
            let rn = self.shadow@.row_nodes[x];
            // no column of the row is covered
            assert forall|i: int| 0 <= i < rn.len() implies self.shadow@.cop[self.col_of(
                #[trigger] rn[i] as int,
            )] < 0 by {
                self.lemma_row_member(x, i);
                let c = self.col_of(rn[i] as int);
                if self.shadow@.cop[c] >= 0 {
                    self.lemma_shut(k, m0, c);
                    assert(self.cell_clear(x, i, m0));
                    assert(!st.shut.contains(c));
                    let j = choose|j: int| 0 <= j < p.len() && self@.hits(c, #[trigger] p[j]);
                    self.lemma_cell_hits(rn[i] as int);
                    assert(self@.clash(p[j], x));
                }
            }
            assert forall|i: int| 0 <= i < rn.len() implies self.shadow@.vop[#[trigger] rn[i] as int]
                < 0 && self.shadow@.cop[self.col_of(rn[i] as int)] < 0 by {
                self.lemma_row_member(x, i);
                let n = rn[i] as int;
                let d = self.shadow@.vop[n];
                if d >= 0 {
                    assert(self.cell_clear(x, i, m0));
                    assert(self.node_settled(n));
                    assert(self.node_settled_at(n, -1, -1, 0));
                    let v = self.shadow@.vsub[n];
                    if v >= 0 {
                        assert(self.node_shape(v));
                        let kv = self.shadow@.pos[v];
                        assert(rn[kv] == v);
                        assert(self.shadow@.cop[self.col_of(rn[kv] as int)] < 0);
                    }
                    assert(false);
                }
            }
        }
    }

    /// The cells of column `c` lie right after its head: among the nodes
    /// up to the `i`-th cell, as many are linked as rows among the first
    /// `i` of the column are free.
    pub(crate) proof fn lemma_live(&self, k: int, m0: int, c: int, i: int)
        requires
            self.at_rest(k, m0),
            0 <= c < self.nc(),
            self.shadow@.cop[c] < 0,
            0 <= i <= self.shadow@.col_rows[c].len(),
        ensures
            self.vchain().linked_below(self.head_of(c), self.head_of(c) + 1 + i) == self@.live(
                self.start_of(m0),
                self.trail(k),
                c,
                i,
            ),
        decreases i,
    {
        let h = self.head_of(c);
        let ch = self.vchain();
        assert(self.column_shape(c));
        if i == 0 {
            assert forall|m: int| 0 <= m < h + 1 && #[trigger] ch.home[m] == h && m != h implies !ch.alive(
                m,
            ) by {
                assert(self.node_shape(m));
            }
            lemma_linked_below_gap(ch, h, 0, h + 1);
        } else {
            self.lemma_live(k, m0, c, i - 1);
            let y = h + i;
            assert(self.cell_at(c, i - 1) == (Node {
                row: self.shadow@.col_rows[c][i - 1],
                column: c as usize,
            }));
            assert(self.node_list@[y] == self.cell_at(c, i - 1));
            assert(self.node_shape(y));
            let x = self.row_of(y);
            assert(self@.columns[c].rows == self.shadow@.col_rows[c]);
            assert(self@.columns[c].rows[i - 1] as int == x);
            self.lemma_free(k, m0, x);
            if self.shadow@.vop[y] < 0 {
                self.lemma_row_free(y);
            }
            if self.is_free(x) {
                assert(self.shadow@.vop[self.shadow@.row_nodes[x][self.shadow@.pos[y]] as int] < 0);
            }
            assert(ch.home[y] == h);
            assert(ch.alive(y) == self.is_free(x));
        }
    }

    /// The count of a column in play is the number of its rows that are
    /// free.
    pub(crate) proof fn lemma_count_live(&self, k: int, m0: int, c: int)
        requires
            self.at_rest(k, m0),
            0 <= c < self.nc(),
            self.shadow@.cop[c] < 0,
        ensures
            self.column_list@[c].count == self@.live_all(self.start_of(m0), self.trail(k), c),
    {
        let h = self.head_of(c);
        let ch = self.vchain();
        let len = self.shadow@.col_rows[c].len() as int;
        assert(self.column_shape(c));
        assert(self.column_links(c, 0));
        self.lemma_live(k, m0, c, len);
        assert forall|m: int|
            h + 1 + len <= m < self.nn() && #[trigger] ch.home[m] == h && m != h implies !ch.alive(
            m,
        ) by {
            self.lemma_member_is_cell(c, m);
            assert(self.node_shape(m));
        }
        lemma_linked_below_gap(ch, h, h + 1 + len, self.nn());
        assert(self@.columns[c].rows == self.shadow@.col_rows[c]);
    }

    /// The holes that are counted are the holes that the order of the
    /// search speaks of.
    pub(crate) proof fn lemma_dries(&self, k: int, m0: int, g: int, lim: int)
        requires
            self.at_rest(k, m0),
            0 <= lim <= self.nc(),
        ensures
            self.holes_below(g, lim) == self@.dries(self.start_of(m0), self.trail(k), g, lim),
        decreases lim,
    {
        if lim > 0 {
            self.lemma_dries(k, m0, g, lim - 1);
            let c = lim - 1;
            assert(self@.columns[c].kind == self.kind_of(c));
            self.lemma_shut(k, m0, c);
            if self.shadow@.cop[c] < 0 {
                self.lemma_count_live(k, m0, c);
            }
        }
    }

    // ----- the column that is branched on ------------------------------------

    /// A column that was a hole when a frame was made that switches
    /// chaining off again is a hole.
    pub(crate) proof fn lemma_hole_still(&self, k: int, m0: int, i: int, g: int, c: int)
        requires
            self.at_rest(k, m0),
            0 <= i < k,
            self.state_stack@[i] is TriggerChaining,
            0 <= c < self.nc(),
            self.hole_before(g, c, self.shadow@.marks[i]),
        ensures
            self.is_hole(g, c),
    {
        let top = self.shadow@.ops.len() as int;
        let mi = self.shadow@.marks[i];
        let e = self.shadow@.cop[c];
        self.lemma_marks_mono(k, top, 0, i);
        assert(self.column_links(c, 0));
        if e >= 0 {
            let i2 = self.lemma_frame_of(k, top, e);
            self.lemma_frame_row(k, top, i2, e, c);
            assert(self.frame_ok_in(i2, k, top));
            assert(self.frame_ok_in(i, k, top));
            if i2 < i {
                self.lemma_marks_mono(k, top, i2 + 1, i);
                assert(false);
            }
            self.lemma_marks_mono(k, top, i, i2);
            let n2 = self.state_stack@[i2]->CurrentState_1 as int;
            let x = self.row_of(n2);
            let y = self.shadow@.cover_cell[c];
            assert(self.column_settled(c));
            assert(0 <= self.shadow@.vop[y] < mi);
            assert(self.node_shape(y));
            assert(self.node_shape(n2));
            assert(self.node_settled(n2));
            assert(self.node_settled_at(n2, -1, -1, 0));
            let c2 = self.col_of(n2);
            let p2 = self.shadow@.pos[n2];
            let p = self.shadow@.pos[y];
            let len = self.shadow@.row_nodes[x].len() as int;
            assert(Self::off(p2, p2, len) == 0);
            assert(self.shadow@.cop[c2] == self.shadow@.marks[i2]);
            assert(self.vcop(-1, -1, c2) == self.shadow@.marks[i2]);
            if p != p2 {
                assert(self.stamp_is(self.shadow@.row_nodes[x][p] as int, self.shadow@.marks[i2], n2));
            }
            assert(false);
        }
        self.lemma_count_zero(c);
    }

    /// There are no fewer holes than there were when a frame was made
    /// that switches chaining off again.
    pub(crate) proof fn lemma_holes_grown(&self, k: int, m0: int, i: int, g: int, lim: int)
        requires
            self.at_rest(k, m0),
            0 <= i < k,
            self.state_stack@[i] is TriggerChaining,
            0 <= lim <= self.nc(),
        ensures
            self.holes_before(g, lim, self.shadow@.marks[i]) <= self.holes_below(g, lim),
        decreases lim,
    {
        if lim > 0 {
            self.lemma_holes_grown(k, m0, i, g, lim - 1);
            if self.hole_before(g, lim - 1, self.shadow@.marks[i]) {
                self.lemma_hole_still(k, m0, i, g, lim - 1);
            }
        }
    }

    /// The groups that are chaining are those whose budget of holes is
    /// used up.
    pub(crate) open spec fn flags_right(&self) -> bool {
        forall|g: int|
            0 <= g < self.ng() ==> (#[trigger] self.condition_state_list@[g]).chaining == (
            self.condition_state_list@[g].current_holes == self.condition_state_list@[g].holes)
    }

    /// After chaining has been switched on for the groups whose budget of
    /// holes is used up, the groups that are chaining are those groups.
    pub(crate) proof fn lemma_flags_right(&self, k: int, m0: int)
        requires
            self.at_rest(k, m0),
            self.chains_ok(),
            self.within_budget(),
            self.all_raised(self.ng()),
        ensures
            self.flags_right(),
    {
        assert forall|g: int| 0 <= g < self.ng() implies (
        #[trigger] self.condition_state_list@[g]).chaining == (
        self.condition_state_list@[g].current_holes == self.condition_state_list@[g].holes) by {
            if self.condition_state_list@[g].chaining {
                assert(self.flag_framed(g));
                let i = choose|i: int|
                    0 <= i < self.state_stack@.len() && #[trigger] self.state_stack@[i]
                        == State::TriggerChaining(g as usize);
                assert(self.chain_frame(i));
                self.lemma_holes_grown(k, m0, i, g, self.nc());
                assert(self.group_links(g));
            }
        }
    }

    /// The columns that can be branched on are those that the order of the
    /// search speaks of.
    pub(crate) proof fn lemma_may_lead(&self, k: int, m0: int, c: int)
        requires
            self.at_rest(k, m0),
            self.flags_right(),
        ensures
            self.candidate(c) == self@.may_lead(self.start_of(m0), self.trail(k), c),
    {
        if 0 <= c < self.nc() {
            assert(self.column_shape(c));
            assert(self@.columns[c].kind == self.kind_of(c));
            self.lemma_shut(k, m0, c);
            if self.shadow@.cop[c] < 0 {
                self.lemma_count_live(k, m0, c);
                match self.kind_of(c) {
                    ColumnType::ConditionalUnique(g) => {
                        self.lemma_dries(k, m0, g as int, self.nc());
                        assert(self.group_links(g as int));
                        assert(self@.budgets[g as int] == self.condition_state_list@[g as int].holes);
                    },
                    _ => {},
                }
            }
        }
    }

    /// The column that the walk picks is the one that the order of the
    /// search speaks of.
    pub(crate) proof fn lemma_leads(&self, k: int, m0: int, c: int)
        requires
            self.at_rest(k, m0),
            self.flags_right(),
            self.best(c),
        ensures
            self@.leads(self.start_of(m0), self.trail(k), c),
    {
        let st = self.start_of(m0);
        let p = self.trail(k);
        self.lemma_may_lead(k, m0, c);
        self.lemma_count_live(k, m0, c);
        assert forall|c2: int| #[trigger] self@.may_lead(st, p, c2) implies self@.live_all(
            st,
            p,
            c2,
        ) > self@.live_all(st, p, c) || (self@.live_all(st, p, c2) == self@.live_all(st, p, c)
            && !self@.comes_first(c2, c)) by {
            self.lemma_may_lead(k, m0, c2);
            assert(self.candidate(c2));
            self.lemma_count_live(k, m0, c2);
            assert(self@.columns[c2].kind == self.kind_of(c2));
            assert(self@.columns[c].kind == self.kind_of(c));
            assert(self@.comes_first(c2, c) == self.earlier(c2, c));
        }
    }

    // ----- what the frames say of the columns that were branched on ---------

    /// The column of the frame `j` is the one that the order of the search
    /// branches on after the rows that the frames below have on trial.
    pub(crate) open spec fn led(&self, j: int, m0: int) -> bool {
        match self.state_stack@[j] {
            State::CurrentState(c, _) => self@.leads(self.start_of(m0), self.trail(j), c as int),
            _ => true,
        }
    }

    /// The columns of the first `k` frames are those that the order of the
    /// search branches on.
    pub(crate) open spec fn leads_upto(&self, k: int, m0: int) -> bool {
        forall|j: int| 0 <= j < k ==> #[trigger] self.led(j, m0)
    }

    /// The columns of the frames are those that the order of the search
    /// branches on.
    pub open(crate) spec fn leads_ok(&self) -> bool {
        self.state_stack@.len() >= 1 ==> self.leads_upto(
            self.state_stack@.len() as int,
            self.shadow@.marks[0],
        )
    }

    /// What the search began with is what it began with, while the
    /// operations before it are kept.
    pub(crate) proof fn lemma_start_kept(&self, pre: &PuzzleSolver, b: int, m0: int)
        requires
            pre.shape(),
            self.kept(pre, b),
            m0 <= b,
        ensures
            self.start_of(m0) == pre.start_of(m0),
    {
        self.lemma_kept_lower(pre, b, m0);
        assert forall|x: int| self.free_before(x, m0) == pre.free_before(x, m0) by {
            self.lemma_kept_free(pre, m0, x);
        }
        assert forall|c: int| #[trigger] self.shut_before(c, m0) == pre.shut_before(c, m0) by {
            if 0 <= c < self.nc() {
                assert(self.low_column(pre, m0, c));
            }
        }
        assert(self.start_of(m0).open =~= pre.start_of(m0).open);
        assert(self.start_of(m0).shut =~= pre.start_of(m0).shut);
    }

    /// The rows on trial in the frames that two stacks share are the same.
    pub(crate) proof fn lemma_trail_same(&self, pre: &PuzzleSolver, k: int)
        requires
            self.node_list@ == pre.node_list@,
            0 <= k <= pre.state_stack@.len(),
            k <= self.state_stack@.len(),
            forall|i: int| 0 <= i < k ==> #[trigger] self.state_stack@[i] == pre.state_stack@[i],
        ensures
            self.trail(k) == pre.trail(k),
        decreases k,
    {
        if k > 0 {
            self.lemma_trail_same(pre, k - 1);
            assert(self.state_stack@[k - 1] == pre.state_stack@[k - 1]);
        }
    }

    /// What the frames say of the columns that were branched on stays
    /// true while the operations before the search are kept.
    pub(crate) proof fn lemma_leads_kept(&self, pre: &PuzzleSolver, b: int, m0: int, k: int)
        requires
            pre.shape(),
            self.kept(pre, b),
            m0 <= b,
            0 <= k <= pre.state_stack@.len(),
            k <= self.state_stack@.len(),
            forall|i: int| 0 <= i < k ==> #[trigger] self.state_stack@[i] == pre.state_stack@[i],
            pre.leads_upto(k, m0),
        ensures
            self.leads_upto(k, m0),
    {
        self.lemma_start_kept(pre, b, m0);
        assert forall|j: int| 0 <= j < k implies #[trigger] self.led(j, m0) by {
            assert(pre.led(j, m0));
            assert(self.state_stack@[j] == pre.state_stack@[j]);
            self.lemma_trail_same(pre, j);
        }
    }

    // ----- what the steps of the search keep of it ---------------------------

    /// Frames that switch chaining off again say nothing of columns.
    pub(crate) proof fn lemma_led_raised(&self, pre: &PuzzleSolver, b: int, m0: int)
        requires
            pre.shape(),
            self.kept(pre, b),
            m0 <= b,
            self.raised(pre, self.state_stack@.len() as int),
            pre.leads_upto(pre.state_stack@.len() as int, m0),
        ensures
            self.leads_upto(self.state_stack@.len() as int, m0),
    {
        let k = pre.state_stack@.len() as int;
        self.lemma_leads_kept(pre, b, m0, k);
        assert forall|j: int| 0 <= j < self.state_stack@.len() implies #[trigger] self.led(
            j,
            m0,
        ) by {
            if j >= k {
                assert(self.state_stack@[j] is TriggerChaining);
            }
        }
    }

    /// After the first linked cell of the column that the walk picked has
    /// been put on trial, the frames say of the column that it is the one
    /// that the order of the search branches on.
    pub(crate) proof fn lemma_led_branched(
        &self,
        mid: &PuzzleSolver,
        pre: &PuzzleSolver,
        c: int,
        n: int,
        m0: int,
    )
        requires
            pre.shape(),
            mid.at_rest(mid.state_stack@.len() as int, m0),
            mid.kept(pre, pre.shadow@.ops.len() as int),
            mid.raised(pre, mid.state_stack@.len() as int),
            mid.chains_ok(),
            mid.within_budget(),
            mid.all_raised(mid.ng()),
            mid.best(c),
            mid.shadow@.ops.len() == pre.shadow@.ops.len(),
            pre.leads_upto(pre.state_stack@.len() as int, m0),
            self.kept(mid, mid.shadow@.ops.len() as int),
            self.state_stack@ == mid.state_stack@.push(
                State::CurrentState(c as usize, n as usize),
            ).push(State::New),
            0 <= c < mid.nc(),
        ensures
            self.leads_upto(self.state_stack@.len() as int, m0),
    {
        let top = mid.shadow@.ops.len() as int;
        let j = mid.state_stack@.len() as int;
        mid.lemma_led_raised(pre, top, m0);
        mid.lemma_flags_right(j, m0);
        mid.lemma_leads(j, m0, c);
        self.lemma_leads_kept(mid, top, m0, j);
        self.lemma_start_kept(mid, top, m0);
        self.lemma_trail_same(mid, j);
        assert(mid.sizes_ok());
        assert forall|i: int| 0 <= i < self.state_stack@.len() implies #[trigger] self.led(
            i,
            m0,
        ) by {
            if i == j {
                assert(self.state_stack@[j] == State::CurrentState(c as usize, n as usize));
            } else if i == j + 1 {
                assert(self.state_stack@[i] == State::New);
            }
        }
    }

    /// After a row has been taken off trial, the frames say of the columns
    /// what they said.
    pub(crate) proof fn lemma_led_advanced(&self, pre: &PuzzleSolver, c: int, n: int, m: int, m0: int)
        requires
            pre.shape(),
            self.kept(pre, m),
            m0 <= m,
            self.stack_extends(pre),
            self.gave_up(pre, c, n, m) || self.moved_on(pre, c, n, m),
            pre.leads_upto(pre.state_stack@.len() as int, m0),
            pre@.leads(pre.start_of(m0), pre.trail(pre.state_stack@.len() as int), c),
        ensures
            self.leads_upto(self.state_stack@.len() as int, m0),
    {
        let k = pre.state_stack@.len() as int;
        self.lemma_leads_kept(pre, m, m0, k);
        self.lemma_start_kept(pre, m, m0);
        self.lemma_trail_same(pre, k);
        if !self.gave_up(pre, c, n, m) {
            let n2 = choose|n2: int| #[trigger] self.on_top(pre, c, n, n2, m);
            assert forall|i: int| 0 <= i < self.state_stack@.len() implies #[trigger] self.led(
                i,
                m0,
            ) by {
                if i == k {
                    assert(self.state_stack@[k] == State::CurrentState(c as usize, n2 as usize));
                } else if i == k + 1 {
                    assert(self.state_stack@[i] == State::New);
                }
            }
        }
    }

    /// After the top frame has been taken off the stack, the frames below
    /// say of the columns what they said.
    pub(crate) proof fn lemma_led_popped(&self, pre: &PuzzleSolver, m0: int)
        requires
            pre.sound(),
            self.is_popped(pre),
            m0 == pre.shadow@.marks[0],
            pre.leads_upto(pre.state_stack@.len() as int, m0),
        ensures
            self.leads_upto(self.state_stack@.len() as int, m0),
            self.start_of(m0) == pre.start_of(m0),
            self.trail(self.state_stack@.len() as int) == pre.trail(
                self.state_stack@.len() as int,
            ),
    {
        let top = pre.shadow@.ops.len() as int;
        let k = self.state_stack@.len() as int;
        self.lemma_kept_same(pre, top);
        assert(pre.frame_ok(0));
        assert forall|j: int| 0 <= j < k + 1 implies #[trigger] pre.frame_ok_in(j, k + 1, top) by {
            assert(pre.frame_ok(j));
        }
        pre.lemma_marks_rise(k + 1, top, 0);
        assert forall|i: int| 0 <= i < k implies #[trigger] self.state_stack@[i]
            == pre.state_stack@[i] by {}
        self.lemma_leads_kept(pre, top, m0, k);
        self.lemma_start_kept(pre, top, m0);
        self.lemma_trail_same(pre, k);
    }

    /// Before the search, the frames say nothing of columns.
    pub(crate) proof fn lemma_leads_first(&self)
        requires
            self.state_stack@ == seq![State::New],
        ensures
            self.leads_ok(),
    {
        assert(self.state_stack@.len() == 1);
        assert forall|j: int| 0 <= j < 1 implies #[trigger] self.led(j, self.shadow@.marks[0]) by {
            assert(self.state_stack@[0] == State::New);
        }
    }

    // ----- what is found first ------------------------------------------------

    /// What the search in progress began with.
    pub open(crate) spec fn start(&self) -> Start {
        self.start_of(self.shadow@.marks[0])
    }

    /// The set of the chosen rows is found sooner than an exact cover that
    /// waits at the frame `i`, from every frame up to that one on.
    pub(crate) proof fn lemma_found_sooner(&self, s: Set<int>, m0: int, k: int, i: int, j: int)
        requires
            self.at_rest(k, m0),
            self.leads_upto(k, m0),
            0 <= j <= i < k,
            self.goal(s, m0),
            self.waits_at(s, i),
        ensures
            self@.sooner(
                self.start_of(m0),
                self.trail(j),
                self.chosen_set(),
                s,
                (i - j + 1) as nat,
            ),
        decreases i - j,
    {
        let top = self.shadow@.ops.len() as int;
        let st = self.start_of(m0);
        let chosen = self.chosen_set();
        assert(self.frame_ok_in(j, k, top));
        assert(self.frame_ok_in(i, k, top));
        assert(self.led(j, m0));
        match self.state_stack@[j] {
            State::CurrentState(cj, nj) => {
                let c = cj as int;
                let n = nj as int;
                let h = self.head_of(c);
                let r = self.row_of(n);
                assert(self.node_shape(n));
                assert(self.column_shape(c));
                let p = n - h - 1;
                assert(self@.columns[c].rows == self.shadow@.col_rows[c]);
                assert(self@.columns[c].rows[p] as int == r);
                assert(self.is_chosen(r));
                assert(self@.holds_at(chosen, c, p));
                assert(self.trail(j + 1) == self.trail(j).push(r));
                if j == i {
                    let y = choose|y: int| #[trigger] self.in_column(s, c, y) && y > n;
                    assert(self.node_shape(y));
                    let q = y - h - 1;
                    assert(self@.columns[c].rows[q] as int == self.row_of(y));
                    assert(self@.holds_at(s, c, q));
                    assert(self@.holds_at(chosen, c, p) && self@.holds_at(s, c, q));
                } else {
                    // the row on trial is a row of the set
                    self.lemma_marks_mono(k, top, j + 1, i);
                    assert(self.row_shape(r));
                    self.lemma_row_member(r, 0);
                    let pos = self.shadow@.pos[n];
                    let len = self.shadow@.row_nodes[r].len() as int;
                    assert(self.shadow@.cop[self.head_column(r)] == self.shadow@.marks[j]
                        + Self::off(pos, 0, len));
                    assert(self.chosen_before(r, self.shadow@.marks[i]));
                    assert(s.contains(r));
                    assert(self@.holds_at(s, c, p));
                    self.lemma_found_sooner(s, m0, k, i, j + 1);
                    assert(self@.holds_at(chosen, c, p) && self@.holds_at(s, c, p));
                }
            },
            _ => {
                assert(j < i);
                assert(self.trail(j + 1) == self.trail(j));
                self.lemma_found_sooner(s, m0, k, i, j + 1);
                self@.lemma_sooner_more(st, self.trail(j), chosen, s, (i - j) as nat);
            },
        }
    }

    /// The set of the chosen rows is found before every exact cover that
    /// waits at a frame.
    pub(crate) proof fn lemma_found_first(&self, s: Set<int>, m0: int, k: int)
        requires
            self.at_rest(k, m0),
            self.leads_upto(k, m0),
            self.goal(s, m0),
            self.waits_below(s, k),
        ensures
            self@.before(self.start_of(m0), self.chosen_set(), s),
    {
        let i = choose|i: int| 0 <= i < k && #[trigger] self.waits_at(s, i);
        self.lemma_found_sooner(s, m0, k, i, 0);
        assert(self.trail(0) =~= Seq::<int>::empty());
    }

    /// `self` is what a request for a solution that was answered with
    /// `found` has made of `pre`: the exact cover that was handed out was to
    /// come, and is found before all others that were; the others are
    /// still to come, and no others.
    pub open(crate) spec fn is_next_of(&self, pre: &PuzzleSolver, found: Option<Seq<usize>>) -> bool {
        &&& self@ == pre@
        &&& forall|s: Set<int>|
            #[trigger] self.to_come(s) == (pre.to_come(s) && !(found is Some && s
                == self.chosen_set()))
        &&& match found {
            Some(v) => {
                &&& self.lists_chosen(v)
                &&& pre.to_come(self.chosen_set())
                &&& forall|s: Set<int>|
                    #[trigger] pre.to_come(s) && s != self.chosen_set() ==> self@.before(
                        pre.start(),
                        self.chosen_set(),
                        s,
                    )
            },
            None => forall|s: Set<int>| !#[trigger] pre.to_come(s),
        }
        &&& (exists|s: Set<int>| self.to_come(s)) ==> self.start() == pre.start()
    }

    /// What a request for a solution ensures of the exact covers to come
    /// makes the state after it the next of the state before it.
    pub(crate) proof fn lemma_is_next(&self, pre: &PuzzleSolver, found: Option<Seq<usize>>)
        requires
            self@ == pre@,
            found is None ==> self.exhausted(),
            found is Some ==> self.lists_chosen(found->0),
            forall|s: Set<int>|
                #[trigger] pre.to_come(s) ==> self.to_come(s) || (found is Some && s
                    == self.chosen_set()),
            forall|s: Set<int>| #[trigger] self.to_come(s) ==> pre.to_come(s),
            found is Some ==> pre.to_come(self.chosen_set()) && !self.to_come(self.chosen_set()),
            found is Some ==> forall|s: Set<int>|
                #[trigger] pre.to_come(s) && s != self.chosen_set() ==> self@.before(
                    pre.start(),
                    self.chosen_set(),
                    s,
                ),
            self.state_stack@.len() >= 1 && pre.state_stack@.len() >= 1 ==> self.start()
                == pre.start(),
        ensures
            self.is_next_of(pre, found),
    {
        assert forall|s: Set<int>|
            #[trigger] self.to_come(s) == (pre.to_come(s) && !(found is Some && s
                == self.chosen_set())) by {
            if self.to_come(s) {
                assert(pre.to_come(s));
            }
        }
        if found is None {
            assert forall|s: Set<int>| !#[trigger] pre.to_come(s) by {
                if pre.to_come(s) {
                    assert(self.to_come(s));
                }
            }
        }
        if exists|s: Set<int>| self.to_come(s) {
            let s = choose|s: Set<int>| self.to_come(s);
            assert(pre.to_come(s));
        }
    }

    /// After a solution has been handed out, the set of the chosen rows is
    /// found before every exact cover that is still to come.
    pub(crate) proof fn lemma_found_after(&self, s: Set<int>, m0: int)
        requires
            self.sound(),
            self.state_stack@.len() >= 1 ==> self.shadow@.marks[0] == m0,
            self.leads_upto(self.state_stack@.len() as int, m0),
            self.no_new_below(self.state_stack@.len() as int),
            self.to_come(s),
        ensures
            self@.before(self.start_of(m0), self.chosen_set(), s),
    {
        let k = self.state_stack@.len() as int;
        let top = self.shadow@.ops.len() as int;
        assert(self.frame_ok(0));
        assert(self.frame_ok(k - 1));
        assert forall|j: int| 0 <= j < k implies #[trigger] self.frame_ok_in(j, k, top) by {
            assert(self.frame_ok(j));
        }
        self.lemma_marks_rise(k, top, 0);
        assert(self.state_stack@[k - 1] != State::New);
        self.lemma_found_first(s, m0, k);
    }

    /// Before the search, what it begins with are the rows that are free
    /// and the columns that are covered.
    pub(crate) proof fn lemma_start_first(&self)
        requires
            self.wf(),
            !self.started(),
        ensures
            forall|x: int| self.start().open.contains(x) == self.is_free(x),
            forall|c: int| self.start().shut.contains(c) == self.is_covered(c),
    {
        assert(self.state_stack@ == seq![State::New]);
        assert(self.state_stack@.len() == 1);
        assert(self.frame_ok(0));
        let top = self.shadow@.ops.len() as int;
        assert(self.shadow@.marks[0] == top);
        assert forall|x: int| self.start().open.contains(x) == self.is_free(x) by {
            self.lemma_free_all(x);
        }
        assert forall|c: int| self.start().shut.contains(c) == self.is_covered(c) by {
            if 0 <= c < self.nc() {
                assert(self.column_links(c, 0));
            }
        }
    }

    /// An exact cover that is to come is an exact cover.
    pub(crate) proof fn lemma_to_come_cover(&self, s: Set<int>)
        requires
            self.to_come(s),
        ensures
            self@.is_solution(s),
    {
    }
}

} // verus!
