//! The exact covers that a search has still to find: those that hold the
//! rows chosen before the search and otherwise rows that were free then, and
//! that the search has not passed by.

use crate::dancing_links::{ColumnType, PuzzleSolver, State};
use vstd::prelude::*;

verus! {

impl PuzzleSolver {
    /// The column of the first cell of row `x`.
    pub open(crate) spec fn head_column(&self, x: int) -> int {
        self.col_of(self.shadow@.row_nodes[x][0] as int)
    }

    /// Row `x` is chosen, by an operation before operation `m`.
    pub open(crate) spec fn chosen_before(&self, x: int, m: int) -> bool {
        &&& 0 <= x < self.nr()
        &&& self.row_list@[x].chosen
        &&& 0 <= self.shadow@.cop[self.head_column(x)] < m
    }

    /// No operation before operation `m` has taken out the `k`-th cell of
    /// row `x` or covered its column.
    pub open(crate) spec fn cell_clear(&self, x: int, k: int, m: int) -> bool {
        let n = self.shadow@.row_nodes[x][k] as int;
        !(0 <= self.shadow@.vop[n] < m) && !(0 <= self.shadow@.cop[self.col_of(n)] < m)
    }

    /// Row `x` was free before operation `m`.
    pub open(crate) spec fn free_before(&self, x: int, m: int) -> bool {
        &&& 0 <= x < self.nr()
        &&& forall|k: int|
            0 <= k < self.shadow@.row_nodes[x].len() ==> #[trigger] self.cell_clear(x, k, m)
    }

    /// The set `s` holds every row that was chosen before operation `m`.
    pub open(crate) spec fn agrees(&self, s: Set<int>, m: int) -> bool {
        forall|x: int| #[trigger] self.chosen_before(x, m) ==> s.contains(x)
    }

    /// The set `s` is an exact cover that the search from operation `m0`
    /// on looks for: it holds the rows chosen before, and otherwise rows
    /// that were free.
    pub open(crate) spec fn goal(&self, s: Set<int>, m0: int) -> bool {
        &&& self@.is_solution(s)
        &&& self.agrees(s, m0)
        &&& forall|x: int|
            #[trigger] s.contains(x) ==> self.chosen_before(x, m0) || self.free_before(x, m0)
    }

    /// The cell `y` of column `c` belongs to a row of the set `s`.
    pub open(crate) spec fn in_column(&self, s: Set<int>, c: int, y: int) -> bool {
        self.is_cell(y) && self.col_of(y) == c && s.contains(self.row_of(y))
    }

    /// The set `s` holds a row whose cell in column `c` comes after the
    /// node `n`.
    pub open(crate) spec fn later(&self, s: Set<int>, c: int, n: int) -> bool {
        exists|y: int| #[trigger] self.in_column(s, c, y) && y > n
    }

    /// The set `s` is still to be found from frame `i`: it holds the rows
    /// that were chosen when the frame was made, and of its column a row
    /// that is yet to be put on trial.
    pub open(crate) spec fn waits_at(&self, s: Set<int>, i: int) -> bool {
        match self.state_stack@[i] {
            State::CurrentState(c, n) => self.agrees(s, self.shadow@.marks[i]) && self.later(
                s,
                c as int,
                n as int,
            ),
            _ => false,
        }
    }

    /// The set `s` is still to be found from one of the first `k` frames.
    pub open(crate) spec fn waits_below(&self, s: Set<int>, k: int) -> bool {
        exists|i: int| 0 <= i < k && #[trigger] self.waits_at(s, i)
    }

    /// The set `s` is still to be found by the search that began with
    /// operation `m0`.
    pub open(crate) spec fn to_come_from(&self, s: Set<int>, m0: int) -> bool {
        let len = self.state_stack@.len() as int;
        &&& self.goal(s, m0)
        &&& (len >= 1 && self.state_stack@[len - 1] == State::New && self.agrees(
            s,
            self.shadow@.ops.len() as int,
        )) || self.waits_below(s, len)
    }

    /// The set `s` of rows is an exact cover that the search has still to
    /// find.
    pub open(crate) spec fn to_come(&self, s: Set<int>) -> bool {
        self.state_stack@.len() >= 1 && self.to_come_from(s, self.shadow@.marks[0])
    }

    /// The columns of a chosen row are covered.
    pub(crate) proof fn lemma_chosen_covered(&self, x: int, k: int)
        requires
            self.links(0),
            self.committed(),
            0 <= x < self.nr(),
            self.row_list@[x].chosen,
            0 <= k < self.shadow@.row_nodes[x].len(),
        ensures
            0 <= self.shadow@.cop[self.col_of(self.shadow@.row_nodes[x][k] as int)]
                < self.shadow@.ops.len(),
            self.shadow@.cover_cell[self.col_of(self.shadow@.row_nodes[x][k] as int)]
                == self.shadow@.row_nodes[x][k],
    {
        self.lemma_row_member(x, k);
        let c = self.col_of(self.shadow@.row_nodes[x][k] as int);
        assert(self.row_settled(x));
        assert(self.column_settled(c));
        assert(self.column_links(c, 0));
    }

    /// Every chosen row was chosen before the operation that comes next.
    pub(crate) proof fn lemma_chosen_all(&self, x: int)
        requires
            self.links(0),
            self.committed(),
        ensures
            self.chosen_before(x, self.shadow@.ops.len() as int) == self.is_chosen(x),
    {
        if self.is_chosen(x) {
            assert(self.row_shape(x));
            self.lemma_chosen_covered(x, 0);
        }
    }

    /// The rows that were free before the operation that comes next are
    /// the free rows.
    pub(crate) proof fn lemma_free_all(&self, x: int)
        requires
            self.links(0),
            self.rows_settled(),
        ensures
            self.free_before(x, self.shadow@.ops.len() as int) == self.is_free(x),
    {
        if 0 <= x < self.nr() {
            let rn = self.shadow@.row_nodes[x];
            let top = self.shadow@.ops.len() as int;
            assert forall|k: int| 0 <= k < rn.len() implies (#[trigger] self.cell_clear(x, k, top)
                == (self.shadow@.vop[rn[k] as int] < 0 && self.shadow@.cop[self.col_of(
                rn[k] as int,
            )] < 0)) by {
                self.lemma_row_member(x, k);
                let n = rn[k] as int;
                assert(self.node_settled(n));
                assert(self.column_links(self.col_of(n), 0));
            }
            if self.is_free(x) {
                assert forall|k: int| 0 <= k < rn.len() implies #[trigger] self.cell_clear(
                    x,
                    k,
                    top,
                ) by {}
            }
            if self.free_before(x, top) {
                assert forall|k: int| 0 <= k < rn.len() implies self.shadow@.vop[
                    #[trigger] rn[k] as int] < 0 && self.shadow@.cop[self.col_of(rn[k] as int)]
                    < 0 by {
                    assert(self.cell_clear(x, k, top));
                }
            }
        }
    }

    /// Before the search, the exact covers to come are those that hold the
    /// chosen rows and otherwise free rows.
    pub(crate) proof fn lemma_to_come_first(&self, s: Set<int>)
        requires
            self.sound(),
            !self.started(),
        ensures
            self.to_come(s) == (self@.is_solution(s) && (forall|r: int|
                self.is_chosen(r) ==> s.contains(r)) && (forall|r: int|
                s.contains(r) ==> self.is_chosen(r) || self.is_free(r))),
    {
        let top = self.shadow@.ops.len() as int;
        assert(self.state_stack@ == seq![State::New]);
        assert(self.state_stack@.len() == 1);
        assert(self.state_stack@[0] == State::New);
        assert(self.frame_ok(0));
        assert(self.shadow@.marks[0] == top);
        assert(!self.waits_below(s, 1)) by {
            if self.waits_below(s, 1) {
                let i = choose|i: int| 0 <= i < 1 && #[trigger] self.waits_at(s, i);
                assert(!self.waits_at(s, 0));
            }
        }
        assert forall|x: int| self.chosen_before(x, top) == self.is_chosen(x) by {
            self.lemma_chosen_all(x);
        }
        assert forall|x: int| self.free_before(x, top) == self.is_free(x) by {
            self.lemma_free_all(x);
        }
        if self.to_come(s) {
            assert(self.goal(s, top));
            assert forall|r: int| self.is_chosen(r) implies s.contains(r) by {
                assert(self.chosen_before(r, top));
            }
            assert forall|r: int| s.contains(r) implies self.is_chosen(r) || self.is_free(r) by {
                assert(self.chosen_before(r, top) || self.free_before(r, top));
            }
        }
        if self@.is_solution(s) && (forall|r: int| self.is_chosen(r) ==> s.contains(r)) && (forall|
            r: int,
        |
            s.contains(r) ==> self.is_chosen(r) || self.is_free(r)) {
            assert(self.agrees(s, top));
            assert(self.goal(s, top));
            assert(self.to_come_from(s, top));
        }
    }

    /// When the search is over, no exact cover is to come.
    pub(crate) proof fn lemma_to_come_last(&self, s: Set<int>)
        requires
            self.exhausted(),
        ensures
            !self.to_come(s),
    {
    }

    // ----- what operations leave untouched ----------------------------------

    /// Node `n` was taken out before operation `b` in both states or in
    /// neither, and by the same operation.
    pub(crate) open spec fn low_node(&self, pre: &PuzzleSolver, b: int, n: int) -> bool {
        (0 <= pre.shadow@.vop[n] < b || 0 <= self.shadow@.vop[n] < b) ==> self.shadow@.vop[n]
            == pre.shadow@.vop[n]
    }

    /// Column `c` was covered before operation `b` in both states or in
    /// neither, and by the same operation.
    pub(crate) open spec fn low_column(&self, pre: &PuzzleSolver, b: int, c: int) -> bool {
        (0 <= pre.shadow@.cop[c] < b || 0 <= self.shadow@.cop[c] < b) ==> self.shadow@.cop[c]
            == pre.shadow@.cop[c]
    }

    /// Row `x` was chosen before operation `b` in both states or in
    /// neither.
    pub(crate) open spec fn low_row(&self, pre: &PuzzleSolver, b: int, x: int) -> bool {
        self.chosen_before(x, b) == pre.chosen_before(x, b)
    }

    /// The links of node `n` are as in `pre` if it was taken out of its
    /// vertical list before operation `b`, and its horizontal links if it is
    /// a cell or was taken out of its header list before operation `b`; so
    /// are the stamps that say how it was taken out.
    pub(crate) open spec fn low_ptr(&self, pre: &PuzzleSolver, b: int, n: int) -> bool {
        let sh = self.shadow@;
        let psh = pre.shadow@;
        &&& 0 <= psh.vop[n] < b ==> self.up@[n] == pre.up@[n] && self.down@[n] == pre.down@[n]
            && sh.vsub[n] == psh.vsub[n]
        &&& (0 <= psh.hop[n] < b || 0 <= sh.hop[n] < b) ==> sh.hop[n] == psh.hop[n] && sh.hsub[n]
            == psh.hsub[n]
        &&& (psh.hhome[n] < 0 || 0 <= psh.hop[n] < b) ==> self.left@[n] == pre.left@[n]
            && self.right@[n] == pre.right@[n]
    }

    /// Group `g` has the sentinel and the budget it has in `pre`.
    pub(crate) open spec fn group_same(&self, pre: &PuzzleSolver, g: int) -> bool {
        self.condition_state_list@[g].head == pre.condition_state_list@[g].head
            && self.condition_state_list@[g].holes == pre.condition_state_list@[g].holes
    }

    /// What operations before operation `b` have done is as in `pre`.
    pub(crate) open spec fn kept(&self, pre: &PuzzleSolver, b: int) -> bool {
        &&& self.node_list@ == pre.node_list@
        &&& self.nr() == pre.nr()
        &&& self.nc() == pre.nc()
        &&& self.ng() == pre.ng()
        &&& self.shadow@.row_nodes == pre.shadow@.row_nodes
        &&& self.shadow@.vop.len() == pre.shadow@.vop.len()
        &&& self.shadow@.floor == pre.shadow@.floor
        &&& self.shadow@.vhome == pre.shadow@.vhome
        &&& self.shadow@.hhome == pre.shadow@.hhome
        &&& self@ == pre@
        &&& (forall|n: int| 0 <= n < self.nn() ==> #[trigger] self.low_node(pre, b, n))
        &&& (forall|c: int| 0 <= c < self.nc() ==> #[trigger] self.low_column(pre, b, c))
        &&& (forall|x: int| 0 <= x < self.nr() ==> #[trigger] self.low_row(pre, b, x))
        &&& (forall|n: int| 0 <= n < self.nn() ==> #[trigger] self.low_ptr(pre, b, n))
        &&& (forall|g: int| 0 <= g < self.ng() ==> #[trigger] self.group_same(pre, g))
    }

    pub(crate) proof fn lemma_kept_lower(&self, pre: &PuzzleSolver, b: int, b2: int)
        requires
            pre.shape(),
            self.kept(pre, b),
            b2 <= b,
        ensures
            self.kept(pre, b2),
    {
        assert forall|n: int| 0 <= n < self.nn() implies #[trigger] self.low_node(pre, b2, n) by {
            assert(self.low_node(pre, b, n));
        }
        assert forall|c: int| 0 <= c < self.nc() implies #[trigger] self.low_column(
            pre,
            b2,
            c,
        ) by {
            assert(self.low_column(pre, b, c));
        }
        assert forall|x: int| 0 <= x < self.nr() implies #[trigger] self.low_row(pre, b2, x) by {
            assert(self.low_row(pre, b, x));
            assert(pre.row_shape(x));
            pre.lemma_row_member(x, 0);
            assert(self.low_column(pre, b, self.head_column(x)));
        }
        assert forall|n: int| 0 <= n < self.nn() implies #[trigger] self.low_ptr(pre, b2, n) by {
            assert(self.low_ptr(pre, b, n));
        }
        assert forall|g: int| 0 <= g < self.ng() implies #[trigger] self.group_same(pre, g) by {}
    }

    pub(crate) proof fn lemma_kept_trans(&self, mid: &PuzzleSolver, pre: &PuzzleSolver, b: int)
        requires
            self.kept(mid, b),
            mid.kept(pre, b),
        ensures
            self.kept(pre, b),
    {
        assert forall|n: int| 0 <= n < self.nn() implies #[trigger] self.low_node(pre, b, n) by {
            assert(self.low_node(mid, b, n));
            assert(mid.low_node(pre, b, n));
        }
        assert forall|c: int| 0 <= c < self.nc() implies #[trigger] self.low_column(
            pre,
            b,
            c,
        ) by {
            assert(self.low_column(mid, b, c));
            assert(mid.low_column(pre, b, c));
        }
        assert forall|x: int| 0 <= x < self.nr() implies #[trigger] self.low_row(pre, b, x) by {
            assert(self.low_row(mid, b, x));
            assert(mid.low_row(pre, b, x));
        }
        assert forall|n: int| 0 <= n < self.nn() implies #[trigger] self.low_ptr(pre, b, n) by {
            assert(self.low_ptr(mid, b, n));
            assert(mid.low_ptr(pre, b, n));
            assert(mid.low_node(pre, b, n));
        }
        assert forall|g: int| 0 <= g < self.ng() implies #[trigger] self.group_same(pre, g) by {
            assert(self.group_same(mid, g));
            assert(mid.group_same(pre, g));
        }
    }

    /// A state with the stamps and the chosen rows of `pre` keeps what
    /// operations have done.
    pub(crate) proof fn lemma_kept_same(&self, pre: &PuzzleSolver, b: int)
        requires
            self.node_list@ == pre.node_list@,
            self.row_list@ == pre.row_list@,
            self.nc() == pre.nc(),
            self@ == pre@,
            self.shadow@.row_nodes == pre.shadow@.row_nodes,
            self.shadow@.vop == pre.shadow@.vop,
            self.shadow@.cop == pre.shadow@.cop,
            self.shadow@.floor == pre.shadow@.floor,
            self.shadow@.vsub == pre.shadow@.vsub,
            self.shadow@.hop == pre.shadow@.hop,
            self.shadow@.hsub == pre.shadow@.hsub,
            self.shadow@.vhome == pre.shadow@.vhome,
            self.shadow@.hhome == pre.shadow@.hhome,
            self.up@ == pre.up@,
            self.down@ == pre.down@,
            self.left@ == pre.left@,
            self.right@ == pre.right@,
            self.ng() == pre.ng(),
            forall|g: int| 0 <= g < self.ng() ==> #[trigger] self.group_same(pre, g),
        ensures
            self.kept(pre, b),
    {
        assert forall|n: int| 0 <= n < self.nn() implies #[trigger] self.low_ptr(pre, b, n) by {}
        assert forall|n: int| 0 <= n < self.nn() implies #[trigger] self.low_node(pre, b, n) by {}
        assert forall|c: int| 0 <= c < self.nc() implies #[trigger] self.low_column(
            pre,
            b,
            c,
        ) by {}
        assert forall|x: int| 0 <= x < self.nr() implies #[trigger] self.low_row(pre, b, x) by {}
    }

    /// Undoing covers numbered from `d0` on keeps what operations before
    /// `d0` have done.
    pub(crate) proof fn lemma_kept_shrunk(&self, pre: &PuzzleSolver, d0: int)
        requires
            pre.shape(),
            self.shrunk_cover(pre, d0),
            self.same_frame(pre),
            self.row_list@ == pre.row_list@,
            self@ == pre@,
        ensures
            self.kept(pre, d0),
    {
        assert forall|n: int| 0 <= n < self.nn() implies #[trigger] self.low_ptr(pre, d0, n) by {
            assert(self.ptr_back(pre, d0, n));
            assert(self.revive_ok(pre, d0, n));
        }
        assert forall|g: int| 0 <= g < self.ng() implies #[trigger] self.group_same(pre, g) by {}
        assert forall|n: int| 0 <= n < self.nn() implies #[trigger] self.low_node(pre, d0, n) by {
            assert(self.revive_ok(pre, d0, n));
        }
        assert forall|c: int| 0 <= c < self.nc() implies #[trigger] self.low_column(
            pre,
            d0,
            c,
        ) by {
            assert(self.uncop_ok(pre, d0, c));
        }
        assert forall|x: int| 0 <= x < self.nr() implies #[trigger] self.low_row(pre, d0, x) by {
            assert(pre.row_shape(x));
            pre.lemma_row_member(x, 0);
            assert(self.low_column(pre, d0, self.head_column(x)));
        }
    }

    /// What a set of rows has to do with the operations before `m` is as
    /// in `pre`.
    pub(crate) proof fn lemma_kept_goal(&self, pre: &PuzzleSolver, b: int, s: Set<int>, m: int)
        requires
            pre.shape(),
            self.kept(pre, b),
            m <= b,
        ensures
            self.agrees(s, m) == pre.agrees(s, m),
            self.goal(s, m) == pre.goal(s, m),
            forall|c: int, n: int| self.later(s, c, n) == pre.later(s, c, n),
    {
        self.lemma_kept_lower(pre, b, m);
        assert forall|x: int| self.chosen_before(x, m) == pre.chosen_before(x, m) by {
            if 0 <= x < self.nr() {
                assert(self.low_row(pre, m, x));
            }
        }
        assert forall|x: int| self.free_before(x, m) == pre.free_before(x, m) by {
            if 0 <= x < self.nr() {
                let rn = self.shadow@.row_nodes[x];
                assert forall|k: int| 0 <= k < rn.len() implies #[trigger] self.cell_clear(x, k, m)
                    == pre.cell_clear(x, k, m) by {
                    pre.lemma_row_member(x, k);
                    assert(self.low_node(pre, m, rn[k] as int));
                    assert(self.low_column(pre, m, self.col_of(rn[k] as int)));
                }
                if self.free_before(x, m) {
                    assert forall|k: int| 0 <= k < rn.len() implies #[trigger] pre.cell_clear(
                        x,
                        k,
                        m,
                    ) by {
                        assert(self.cell_clear(x, k, m));
                    }
                }
                if pre.free_before(x, m) {
                    assert forall|k: int| 0 <= k < rn.len() implies #[trigger] self.cell_clear(
                        x,
                        k,
                        m,
                    ) by {
                        assert(pre.cell_clear(x, k, m));
                    }
                }
            }
        }
        if self.agrees(s, m) {
            assert forall|x: int| #[trigger] pre.chosen_before(x, m) implies s.contains(x) by {
                assert(self.chosen_before(x, m));
            }
        }
        if pre.agrees(s, m) {
            assert forall|x: int| #[trigger] self.chosen_before(x, m) implies s.contains(x) by {
                assert(pre.chosen_before(x, m));
            }
        }
        if self.goal(s, m) {
            assert forall|x: int| #[trigger] s.contains(x) implies pre.chosen_before(x, m)
                || pre.free_before(x, m) by {
                assert(self.chosen_before(x, m) || self.free_before(x, m));
            }
        }
        if pre.goal(s, m) {
            assert forall|x: int| #[trigger] s.contains(x) implies self.chosen_before(x, m)
                || self.free_before(x, m) by {
                assert(pre.chosen_before(x, m) || pre.free_before(x, m));
            }
        }
        assert forall|c: int, n: int| self.later(s, c, n) == pre.later(s, c, n) by {
            if self.later(s, c, n) {
                let y = choose|y: int| #[trigger] self.in_column(s, c, y) && y > n;
                assert(pre.in_column(s, c, y));
            }
            if pre.later(s, c, n) {
                let y = choose|y: int| #[trigger] pre.in_column(s, c, y) && y > n;
                assert(self.in_column(s, c, y));
            }
        }
    }

    // ----- rows chosen or taken away before the search ----------------------

    /// Two rows of an exact cover have no column in common.
    pub(crate) proof fn lemma_no_clash(&self, s: Set<int>, x: int, y: int)
        requires
            self.shape(),
            self@.is_solution(s),
            s.contains(x),
            s.contains(y),
            self@.clash(x, y),
        ensures
            x == y,
    {
        assert(self.sizes_ok());
        let c = choose|c: int| #[trigger] self@.hits(c, x) && self@.hits(c, y);
        let rows = self@.columns[c].rows;
        let i = choose|i: int| 0 <= i < rows.len() && rows[i] == x as usize;
        let j = choose|j: int| 0 <= j < rows.len() && rows[j] == y as usize;
        let spec_c = self@.columns[c];
        if spec_c.kind == ColumnType::Unique {
            assert(self@.exactly_once(s, c));
        }
        assert(self@.at_most_once(s, c));
        assert(s.contains(rows[i] as int));
        assert(s.contains(rows[j] as int));
    }

    /// After a free row has been chosen before the search, the exact
    /// covers to come are those that were to come and hold the row.
    pub(crate) proof fn lemma_selected(&self, pre: &PuzzleSolver, row: int, s: Set<int>)
        requires
            pre.sound(),
            !pre.started(),
            pre.is_free(row),
            self.sound(),
            !self.started(),
            self@ == pre@,
            forall|r: int|
                0 <= r < pre@.rows ==> #[trigger] self.is_chosen(r) == (pre.is_chosen(r) || r
                    == row),
            forall|r: int|
                0 <= r < pre@.rows ==> #[trigger] self.is_free(r) == (pre.is_free(r)
                    && !pre@.clash(row, r)),
        ensures
            self.to_come(s) == (pre.to_come(s) && s.contains(row)),
    {
        self.lemma_to_come_first(s);
        pre.lemma_to_come_first(s);
        if self.to_come(s) {
            assert(self.is_chosen(row));
            assert(s.contains(row));
            assert forall|r: int| pre.is_chosen(r) implies s.contains(r) by {
                assert(self.is_chosen(r));
            }
            assert forall|r: int| s.contains(r) implies pre.is_chosen(r) || pre.is_free(r) by {
                assert(self.is_chosen(r) || self.is_free(r));
            }
        }
        if pre.to_come(s) && s.contains(row) {
            assert forall|r: int| self.is_chosen(r) implies s.contains(r) by {}
            assert forall|r: int| s.contains(r) implies self.is_chosen(r) || self.is_free(r) by {
                if !pre.is_chosen(r) && r != row {
                    assert(pre.is_free(r));
                    if pre@.clash(row, r) {
                        pre.lemma_no_clash(s, row, r);
                    }
                }
            }
        }
    }

    /// After a row that is not chosen has been taken away before the
    /// search, the exact covers to come are those that were to come and do
    /// not hold the row.
    pub(crate) proof fn lemma_deselected(&self, pre: &PuzzleSolver, row: int, s: Set<int>)
        requires
            pre.sound(),
            !pre.started(),
            0 <= row < pre@.rows,
            !pre.is_chosen(row),
            self.sound(),
            !self.started(),
            self@ == pre@,
            forall|r: int| 0 <= r < pre@.rows ==> #[trigger] self.is_chosen(r) == pre.is_chosen(r),
            forall|r: int|
                0 <= r < pre@.rows ==> #[trigger] self.is_free(r) == (pre.is_free(r) && r != row),
        ensures
            self.to_come(s) == (pre.to_come(s) && !s.contains(row)),
    {
        self.lemma_to_come_first(s);
        pre.lemma_to_come_first(s);
        if self.to_come(s) {
            assert forall|r: int| pre.is_chosen(r) implies s.contains(r) by {
                assert(self.is_chosen(r));
            }
            assert forall|r: int| s.contains(r) implies pre.is_chosen(r) || pre.is_free(r) by {
                assert(self.is_chosen(r) || self.is_free(r));
            }
            if s.contains(row) {
                assert(self.is_chosen(row) || self.is_free(row));
            }
        }
        if pre.to_come(s) && !s.contains(row) {
            assert forall|r: int| self.is_chosen(r) implies s.contains(r) by {
                assert(pre.is_chosen(r));
            }
            assert forall|r: int| s.contains(r) implies self.is_chosen(r) || self.is_free(r) by {
                assert(pre.is_chosen(r) || pre.is_free(r));
            }
        }
    }

    /// A row was free before operation `m` in both states or in neither,
    /// while the operations before `m` are kept.
    pub(crate) proof fn lemma_kept_free(&self, pre: &PuzzleSolver, m: int, x: int)
        requires
            pre.shape(),
            self.kept(pre, m),
        ensures
            self.free_before(x, m) == pre.free_before(x, m),
    {
        if 0 <= x < self.nr() {
            let rn = self.shadow@.row_nodes[x];
            assert forall|k: int| 0 <= k < rn.len() implies #[trigger] self.cell_clear(x, k, m)
                == pre.cell_clear(x, k, m) by {
                pre.lemma_row_member(x, k);
                assert(self.low_node(pre, m, rn[k] as int));
                assert(self.low_column(pre, m, self.col_of(rn[k] as int)));
            }
            if self.free_before(x, m) {
                assert forall|k: int| 0 <= k < rn.len() implies #[trigger] pre.cell_clear(
                    x,
                    k,
                    m,
                ) by {
                    assert(self.cell_clear(x, k, m));
                }
            }
            if pre.free_before(x, m) {
                assert forall|k: int| 0 <= k < rn.len() implies #[trigger] self.cell_clear(
                    x,
                    k,
                    m,
                ) by {
                    assert(pre.cell_clear(x, k, m));
                }
            }
        }
    }

    // ----- what a search leaves behind ----------------------------------------

    /// The number of operations that were in effect when the search began;
    /// before the search, and after it, the number that are in effect.
    pub open(crate) spec fn base(&self) -> int {
        if self.state_stack@.len() >= 1 {
            self.shadow@.marks[0]
        } else {
            self.shadow@.ops.len() as int
        }
    }

    /// `self` is a later state of the search that `pre` is a state of, or
    /// `pre` itself: what was done before the search began is as in `pre`.
    pub open(crate) spec fn search_kept(&self, pre: &PuzzleSolver) -> bool {
        self.kept(pre, pre.base()) && self.base() == pre.base()
    }

    /// A later state of a later state is a later state.
    pub proof fn lemma_search_kept_trans(&self, mid: &PuzzleSolver, pre: &PuzzleSolver)
        requires
            self.search_kept(mid),
            mid.search_kept(pre),
        ensures
            self.search_kept(pre),
    {
        self.lemma_kept_trans(mid, pre, pre.base());
    }

    /// One step of the search keeps what was done before the search began.
    pub(crate) proof fn lemma_step_kept(
        &self,
        popped: &PuzzleSolver,
        before: &PuzzleSolver,
        start: &PuzzleSolver,
        b: int,
        m0: int,
    )
        requires
            before.shape(),
            popped.shape(),
            popped.kept(before, m0),
            self.kept(popped, b),
            m0 <= b,
            before.kept(start, m0),
        ensures
            self.kept(start, m0),
    {
        self.lemma_kept_lower(popped, b, m0);
        self.lemma_kept_trans(popped, before, m0);
        self.lemma_kept_trans(before, start, m0);
    }
}

} // verus!
