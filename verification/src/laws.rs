//! What holds of a solver whatever it is used for.

use crate::chain::{lemma_determined, lemma_linked_below_same, lemma_linked_loop};
use crate::dancing_links::{ColumnType, Matrix, PuzzleSolver, Shadow, State};
use crate::splice::lemma_holes_same;
use vstd::prelude::*;

verus! {

impl PuzzleSolver {
    /// `self` is the state that covering column `c` makes of `pre`.
    pub open(crate) spec fn is_cover_of(&self, pre: &PuzzleSolver, c: int) -> bool {
        &&& pre.links(0)
        &&& pre.rows_settled()
        &&& 0 <= c < pre.nc()
        &&& pre.shadow@.cop[c] < 0
        &&& self.links(0)
        &&& self.rows_settled()
        &&& self.same_frame(pre)
        &&& self.shadow@ == (Shadow {
            ops: pre.shadow@.ops.push(c),
            cop: pre.shadow@.cop.update(c, pre.shadow@.ops.len() as int),
            hop: self.shadow@.hop,
            hsub: self.shadow@.hsub,
            vop: self.shadow@.vop,
            vsub: self.shadow@.vsub,
            ..pre.shadow@
        })
        &&& self.hchain() == if pre.kind_of(c) == ColumnType::Constraint {
            pre.hchain()
        } else {
            pre.hchain().unlinked(pre.head_of(c), pre.shadow@.ops.len() as int, 0)
        }
        &&& self.cover_delta(pre, pre.shadow@.ops.len() as int, pre.nn(), -1)
        &&& self.dead_kept(pre)
    }

    /// `self` is the state that uncovering column `c`, covered last, makes
    /// of `pre`.
    pub open(crate) spec fn is_uncover_of(&self, pre: &PuzzleSolver, c: int) -> bool {
        &&& pre.links(0)
        &&& pre.rows_settled()
        &&& 0 <= c < pre.nc()
        &&& pre.shadow@.cop[c] == pre.shadow@.ops.len() - 1
        &&& pre.shadow@.cop[c] >= pre.shadow@.floor
        &&& self.links(0)
        &&& self.rows_settled()
        &&& self.same_frame(pre)
        &&& self.shadow@ == (Shadow {
            ops: pre.shadow@.ops.drop_last(),
            cop: pre.shadow@.cop.update(c, -1),
            hop: self.shadow@.hop,
            hsub: self.shadow@.hsub,
            vop: self.shadow@.vop,
            vsub: self.shadow@.vsub,
            ..pre.shadow@
        })
        &&& self.hchain() == if pre.kind_of(c) == ColumnType::Constraint {
            pre.hchain()
        } else {
            pre.hchain().relinked(pre.head_of(c))
        }
        &&& self.uncover_delta(pre, pre.shadow@.ops.len() - 1)
        &&& self.out_kept(pre)
    }

    /// Covering a column and uncovering it again restores the state: the
    /// four link arrays, the count of every column and the hole count of
    /// every group are what they were, and so is the bookkeeping. Covers and
    /// uncovers that are nested in one another cancel from the inside out.
    pub proof fn lemma_cover_uncover(
        before: &PuzzleSolver,
        covered: &PuzzleSolver,
        after: &PuzzleSolver,
        c: int,
    )
        requires
            covered.is_cover_of(before, c),
            after.is_uncover_of(covered, c),
        ensures
            after.layout() == before.layout(),
            after.same_state_as(before),
    {
        let s0 = before;
        let s1 = covered;
        let s2 = after;
        let d = s0.shadow@.ops.len() as int;
        let h = s0.head_of(c);
        assert(s0.column_shape(c));
        assert(s0.column_links(c, 0));
        assert(s0.node_shape(h));
        assert(s1.column_shape(c));
        assert(s1.column_links(c, 0));
        // the stamps
        assert(s1.shadow@.ops.len() == d + 1);
        assert(s1.nn() == s0.nn() && s2.nn() == s0.nn());
        assert(s2.uncover_delta(s1, d));
        assert(s2.shadow@.ops =~= s0.shadow@.ops);
        assert(s2.shadow@.cop =~= s0.shadow@.cop);
        assert forall|n: int| 0 <= n < s0.nn() implies s2.shadow@.vop[n] == s0.shadow@.vop[n]
            && s2.shadow@.vsub[n] == s0.shadow@.vsub[n] by {
            assert(s1.delta_ok(s0, d, s0.nn(), -1, n));
            assert((s2.shadow@.vop[n] == s1.shadow@.vop[n] && s2.shadow@.vsub[n]
                == s1.shadow@.vsub[n]) || (s1.shadow@.vop[n] == d && s2.shadow@.vop[n] == -1
                && s2.shadow@.vsub[n] == -1));
            assert(s0.node_settled(n));
            assert(s2.node_settled(n));
            assert(s0.vchain().node_ok(n));
        }
        assert(s2.shadow@.vop =~= s0.shadow@.vop);
        assert(s2.shadow@.vsub =~= s0.shadow@.vsub);
        // the header lists
        if s0.kind_of(c) != ColumnType::Constraint {
            assert(s0.hchain().node_ok(h));
            lemma_linked_loop(s0.hchain(), h);
            assert(s2.shadow@.hop =~= s0.shadow@.hop);
            assert(s2.shadow@.hsub =~= s0.shadow@.hsub);
            assert(s2.left@ =~= s0.left@);
            assert(s2.right@ =~= s0.right@);
        }
        assert(s2.hchain() == s0.hchain());
        // the vertical lists
        assert forall|n: int| 0 <= n < s0.nn() implies s2.up@[n] == s0.up@[n] && s2.down@[n]
            == s0.down@[n] by {
            if s0.shadow@.vop[n] >= 0 {
                assert(s1.shadow@.vop[n] >= 0) by {
                    assert(s1.delta_ok(s0, d, s0.nn(), -1, n));
                }
            } else {
                assert(s0.node_shape(n));
                lemma_determined(s0.vchain(), s2.vchain(), n);
            }
        }
        assert(s2.up@ =~= s0.up@);
        assert(s2.down@ =~= s0.down@);
        assert(s2.vchain() == s0.vchain());
        // the counters
        assert forall|c2: int| 0 <= c2 < s0.nc() implies s2.column_list@[c2]
            == s0.column_list@[c2] by {
            assert(s0.column_links(c2, 0));
            assert(s2.column_links(c2, 0));
            assert(s1.column_list@[c2].head == s0.column_list@[c2].head);
            assert(s2.column_list@[c2].head == s1.column_list@[c2].head);
        }
        assert(s2.column_list@ =~= s0.column_list@);
        assert forall|g: int| 0 <= g < s0.ng() implies s2.condition_state_list@[g]
            == s0.condition_state_list@[g] by {
            assert(s0.group_links(g));
            assert(s2.group_links(g));
            assert(s1.condition_state_list@[g].head == s0.condition_state_list@[g].head);
            assert(s2.condition_state_list@[g].head == s1.condition_state_list@[g].head);
            lemma_holes_same(s0, s2, g, s0.nc());
        }
        assert(s2.condition_state_list@ =~= s0.condition_state_list@);
    }

    /// What the uncover of a column makes of a state, it makes of every
    /// state that is the same in every part.
    pub proof fn lemma_uncover_of_same(
        after: &PuzzleSolver,
        covered: &PuzzleSolver,
        other: &PuzzleSolver,
        c: int,
    )
        requires
            after.is_uncover_of(covered, c),
            covered.same_state_as(other),
            other.links(0),
            other.rows_settled(),
        ensures
            after.is_uncover_of(other, c),
    {
        assert(other.nc() == covered.nc());
        assert(after.same_frame(other)) by {
            assert forall|c2: int| 0 <= c2 < after.nc() implies (
            #[trigger] after.column_list@[c2]).head == other.column_list@[c2].head
                && after.column_list@[c2].column_type == other.column_list@[c2].column_type by {
                assert(covered.column_list@[c2] == other.column_list@[c2]);
            }
            assert forall|g: int| 0 <= g < after.ng() implies (
            #[trigger] after.condition_state_list@[g]).head == other.condition_state_list@[g].head
                && after.condition_state_list@[g].holes == other.condition_state_list@[g].holes
                && after.condition_state_list@[g].chaining
                == other.condition_state_list@[g].chaining by {
                assert(covered.condition_state_list@[g] == other.condition_state_list@[g]);
            }
        }
        assert(covered.hchain() == other.hchain());
        assert(covered.kind_of(c) == other.kind_of(c));
        assert(covered.head_of(c) == other.head_of(c));
        assert(after.uncover_delta(other, other.shadow@.ops.len() - 1)) by {
            assert(after.uncover_delta(covered, covered.shadow@.ops.len() - 1));
        }
        assert(after.out_kept(other)) by {
            assert(after.out_kept(covered));
        }
    }

    /// The state `down[i + 1]` is what the cover of the `i`-th column makes
    /// of the state `down[i]`.
    pub open(crate) spec fn cover_at(down: Seq<PuzzleSolver>, columns: Seq<int>, i: int) -> bool {
        down[i + 1].is_cover_of(&down[i], columns[i])
    }

    /// The state `up[i]` is what the uncover of the `i`-th column makes of
    /// the state `up[i + 1]`.
    pub open(crate) spec fn uncover_at(up: Seq<PuzzleSolver>, columns: Seq<int>, i: int) -> bool {
        up[i].is_uncover_of(&up[i + 1], columns[i])
    }

    /// The covers of the columns from `k` on, and then their uncovers in
    /// the opposite order, restore the state before the cover of the `k`-th.
    proof fn lemma_chain_from(
        down: Seq<PuzzleSolver>,
        up: Seq<PuzzleSolver>,
        columns: Seq<int>,
        k: int,
    )
        requires
            down.len() == columns.len() + 1,
            up.len() == columns.len() + 1,
            0 <= k <= columns.len(),
            forall|i: int| 0 <= i < columns.len() ==> #[trigger] Self::cover_at(down, columns, i),
            forall|i: int| 0 <= i < columns.len() ==> #[trigger] Self::uncover_at(up, columns, i),
            up[columns.len() as int].same_state_as(&down[columns.len() as int]),
        ensures
            up[k].same_state_as(&down[k]),
        decreases columns.len() - k,
    {
        if k < columns.len() {
            Self::lemma_chain_from(down, up, columns, k + 1);
            assert(Self::cover_at(down, columns, k));
            assert(Self::uncover_at(up, columns, k));
            Self::lemma_uncover_of_same(&up[k], &up[k + 1], &down[k + 1], columns[k]);
            Self::lemma_cover_uncover(&down[k], &down[k + 1], &up[k], columns[k]);
        }
    }

    /// Any number of covers, one after the other, and then their uncovers
    /// in the opposite order, restore the state: the four link arrays, the
    /// count of every column, the hole count of every group and the
    /// bookkeeping are what they were before the first cover.
    pub proof fn lemma_covers_uncovered(
        down: Seq<PuzzleSolver>,
        up: Seq<PuzzleSolver>,
        columns: Seq<int>,
    )
        requires
            down.len() == columns.len() + 1,
            up.len() == columns.len() + 1,
            forall|i: int| 0 <= i < columns.len() ==> #[trigger] Self::cover_at(down, columns, i),
            forall|i: int| 0 <= i < columns.len() ==> #[trigger] Self::uncover_at(up, columns, i),
            up[columns.len() as int].same_state_as(&down[columns.len() as int]),
        ensures
            up[0].layout() == down[0].layout(),
            up[0].same_state_as(&down[0]),
    {
        Self::lemma_chain_from(down, up, columns, 0);
    }

    /// Every part of the state of `self` is as in `pre`.
    pub open(crate) spec fn same_state_as(&self, pre: &PuzzleSolver) -> bool {
        &&& self.layout() == pre.layout()
        &&& self.node_list@ == pre.node_list@
        &&& self.row_list@ == pre.row_list@
        &&& self.state_stack@ == pre.state_stack@
        &&& self.shadow@ == pre.shadow@
    }

    /// Number of cells of column `c` that are linked in its vertical list.
    pub open(crate) spec fn linked_cells(&self, c: int) -> int {
        self.vchain().linked(self.head_of(c))
    }

    /// Number of columns of group `g` that are in play and have no linked
    /// cell.
    pub open(crate) spec fn empty_columns(&self, g: int) -> int {
        self.holes_below(g, self.nc())
    }

    /// Number of holes that group `g` counts.
    pub open(crate) spec fn hole_count(&self, g: int) -> int {
        self.condition_state_list@[g].current_holes as int
    }

    /// The count of a column is the length of its vertical list.
    pub proof fn lemma_count_is_length(&self, c: int)
        requires
            self.wf(),
            0 <= c < self@.columns.len(),
        ensures
            self.count_of(c) == self.linked_cells(c),
    {
        assert(self.column_links(c, 0));
    }

    /// The hole count of a group is the number of its columns in play
    /// without a linked cell.
    pub proof fn lemma_holes_are_empty_columns(&self, g: int)
        requires
            self.wf(),
            0 <= g < self@.budgets.len(),
        ensures
            self.hole_count(g) == self.empty_columns(g),
    {
        assert(self.group_links(g));
    }

    /// The columns that are covered are those in which a chosen row has a
    /// cell.
    pub proof fn lemma_covered_by_chosen(&self, c: int)
        requires
            self.wf(),
            0 <= c < self@.columns.len(),
        ensures
            self.is_covered(c) == exists|r: int| #[trigger] self.is_chosen(r) && self@.hits(c, r),
    {
        if self.is_covered(c) {
            assert(self.column_settled(c));
            let x = self.shadow@.cover_cell[c];
            self.lemma_cell_hits(x);
            assert(self.node_shape(x));
            assert(self.is_chosen(self.row_of(x)) && self@.hits(c, self.row_of(x)));
        }
        if exists|r: int| #[trigger] self.is_chosen(r) && self@.hits(c, r) {
            let r = choose|r: int| #[trigger] self.is_chosen(r) && self@.hits(c, r);
            let y = self.lemma_hits_cell(c, r);
            self.lemma_chosen_covered(r, self.shadow@.pos[y]);
        }
    }

    /// A search is doomed from the start when some unique column in play
    /// has no linked cell: it will find nothing.
    pub proof fn lemma_empty_column_dooms(&self, c: int)
        requires
            self.wf(),
            !self.started(),
            0 <= c < self@.columns.len(),
            self@.columns[c].kind == ColumnType::Unique,
            !self.is_covered(c),
            self.count_of(c) == 0,
        ensures
            self.doomed(),
    {
        self.lemma_ready();
        self.lemma_count_zero(c);
        assert(self.column_links(c, 0));
        assert forall|x: int| self.is_cell(x) && self.col_of(x) == c implies 0
            <= #[trigger] self.shadow@.vop[x] < self.shadow@.marks[0] by {
            assert(self.node_settled(x));
        }
        assert(self.dead_end(c, self.shadow@.marks[0]));
    }

    /// A matrix without unique columns and without groups is solved as it
    /// stands.
    pub proof fn lemma_nothing_to_cover(&self)
        requires
            self.wf(),
            forall|c: int|
                0 <= c < self@.columns.len() ==> (#[trigger] self@.columns[c]).kind
                    != ColumnType::Unique,
            self@.budgets.len() == 0,
        ensures
            self.complete(),
            self.within_budget(),
    {
        assert forall|c: int|
            0 <= c < self.nc() && #[trigger] self.kind_of(c)
                == ColumnType::Unique implies self.shadow@.cop[c] >= 0 by {
            assert(self@.columns[c].kind == self.kind_of(c));
        }
    }
}

/// Before the search begins, the exact covers that are to come are all the
/// exact covers of the matrix that hold the rows chosen so far and otherwise
/// only rows that can still be chosen.
pub proof fn lemma_all_are_to_come(solver: PuzzleSolver, s: Set<int>)
    requires
        solver.wf(),
        !solver.started(),
    ensures
        solver.to_come(s) == (solver@.is_solution(s) && (forall|r: int|
            solver.is_chosen(r) ==> s.contains(r)) && (forall|r: int|
            s.contains(r) ==> solver.is_chosen(r) || solver.is_free(r))),
{
    solver.lemma_to_come_first(s);
}

/// When the search is over, no exact cover is to come. A request for a
/// solution takes the exact cover that it hands out from those that are to
/// come, and leaves the others as they are: so between its beginning and
/// its end the search hands out every exact cover that was to come when it
/// began, each of them once, and nothing else, in whatever order it picks
/// the columns to branch on.
pub proof fn lemma_none_is_to_come(solver: PuzzleSolver, s: Set<int>)
    requires
        solver.exhausted(),
    ensures
        !solver.to_come(s),
{
    solver.lemma_to_come_last(s);
}

/// Two solvers that hold the same matrix, with the same rows chosen and the
/// same rows free, have the same exact covers to come when their searches
/// begin: whatever order they are found in, two searches find the same.
pub proof fn lemma_same_to_come(a: PuzzleSolver, b: PuzzleSolver, s: Set<int>)
    requires
        a.wf(),
        b.wf(),
        !a.started(),
        !b.started(),
        a@ == b@,
        forall|r: int| a.is_chosen(r) == b.is_chosen(r),
        forall|r: int| a.is_free(r) == b.is_free(r),
    ensures
        a.to_come(s) == b.to_come(s),
{
    lemma_all_are_to_come(a, s);
    lemma_all_are_to_come(b, s);
}

/// Two searches are alike: they go over the same matrix, have the same
/// exact covers to come, and began with the same rows free and the same
/// columns covered.
pub open spec fn alike(a: PuzzleSolver, b: PuzzleSolver) -> bool {
    &&& a@ == b@
    &&& forall|s: Set<int>| a.to_come(s) == b.to_come(s)
    &&& (exists|s: Set<int>| a.to_come(s)) ==> a.start() == b.start()
}

/// Two solvers that hold the same matrix, with the same rows chosen, the
/// same rows free and the same columns covered, are alike when their
/// searches begin.
pub proof fn lemma_alike_at_first(a: PuzzleSolver, b: PuzzleSolver)
    requires
        a.wf(),
        b.wf(),
        !a.started(),
        !b.started(),
        a@ == b@,
        forall|r: int| a.is_chosen(r) == b.is_chosen(r),
        forall|r: int| a.is_free(r) == b.is_free(r),
        forall|c: int| a.is_covered(c) == b.is_covered(c),
    ensures
        alike(a, b),
{
    assert forall|s: Set<int>| a.to_come(s) == b.to_come(s) by {
        lemma_same_to_come(a, b, s);
    }
    a.lemma_start_first();
    b.lemma_start_first();
    assert forall|x: int| a.start().open.contains(x) == b.start().open.contains(x) by {
        assert(a.start().open.contains(x) == a.is_free(x));
        assert(b.start().open.contains(x) == b.is_free(x));
    }
    assert forall|c: int| a.start().shut.contains(c) == b.start().shut.contains(c) by {
        assert(a.start().shut.contains(c) == a.is_covered(c));
        assert(b.start().shut.contains(c) == b.is_covered(c));
    }
    assert(a.start().open =~= b.start().open);
    assert(a.start().shut =~= b.start().shut);
}

/// Two lists in ascending order that hold the same numbers are the same.
pub proof fn lemma_ascending_same(v: Seq<usize>, w: Seq<usize>, k: int)
    requires
        forall|i: int, j: int| 0 <= i < j < v.len() ==> v[i] < v[j],
        forall|i: int, j: int| 0 <= i < j < w.len() ==> w[i] < w[j],
        forall|x: usize| v.contains(x) == w.contains(x),
        0 <= k <= v.len(),
    ensures
        k <= w.len(),
        forall|i: int| 0 <= i < k ==> v[i] == w[i],
    decreases k,
{
    if k > 0 {
        lemma_ascending_same(v, w, k - 1);
        let x = v[k - 1];
        assert(v.contains(x));
        assert(w.contains(x));
        let j = choose|j: int| 0 <= j < w.len() && w[j] == x;
        if j < k - 1 {
            assert(v[j] == w[j]);
            assert(v[j] < v[k - 1]);
            assert(false);
        }
        if j > k - 1 {
            let y = w[k - 1];
            assert(w.contains(y));
            assert(v.contains(y));
            let i = choose|i: int| 0 <= i < v.len() && v[i] == y;
            assert(w[k - 1] < w[j]);
            if i < k - 1 {
                assert(v[i] == w[i]);
                assert(w[i] < w[k - 1]);
            } else if i > k - 1 {
                assert(v[k - 1] < v[i]);
            }
            assert(false);
        }
    }
}

/// Determinism: if two searches are alike, a request for a solution is
/// answered alike in both, and the searches are alike after it. So two
/// solvers that were built alike hand out the same solutions in the same
/// order.
pub proof fn lemma_same_next(
    a0: PuzzleSolver,
    a1: PuzzleSolver,
    ra: Option<Seq<usize>>,
    b0: PuzzleSolver,
    b1: PuzzleSolver,
    rb: Option<Seq<usize>>,
)
    requires
        a1.is_next_of(&a0, ra),
        b1.is_next_of(&b0, rb),
        alike(a0, b0),
    ensures
        ra == rb,
        alike(a1, b1),
{
    let sa = a1.chosen_set();
    let sb = b1.chosen_set();
    if ra is Some {
        assert(a0.to_come(sa));
        assert(b0.to_come(sa));
        assert(rb is Some);
    }
    if rb is Some {
        assert(b0.to_come(sb));
        assert(a0.to_come(sb));
        assert(ra is Some);
    }
    if ra is Some {
        assert(a0.start() == b0.start());
        a0.lemma_to_come_cover(sa);
        a0.lemma_to_come_cover(sb);
        if sa != sb {
            assert(a1@.before(a0.start(), sa, sb));
            assert(b1@.before(b0.start(), sb, sa));
            a1@.lemma_before_one_way(a0.start(), sa, sb);
        }
        let v = ra->0;
        let w = rb->0;
        assert forall|x: usize| v.contains(x) == w.contains(x) by {
            if v.contains(x) {
                let i = choose|i: int| 0 <= i < v.len() && v[i] == x;
                assert(a1.is_chosen(v[i] as int));
                assert(sb.contains(x as int));
                assert(b1.is_chosen(x as int));
            }
            if w.contains(x) {
                let i = choose|i: int| 0 <= i < w.len() && w[i] == x;
                assert(b1.is_chosen(w[i] as int));
                assert(sa.contains(x as int));
                assert(a1.is_chosen(x as int));
            }
        }
        lemma_ascending_same(v, w, v.len() as int);
        lemma_ascending_same(w, v, w.len() as int);
        assert(v =~= w);
    }
    assert forall|s: Set<int>| a1.to_come(s) == b1.to_come(s) by {}
    if exists|s: Set<int>| a1.to_come(s) {
        let s = choose|s: Set<int>| a1.to_come(s);
        assert(b1.to_come(s));
        assert(a0.to_come(s));
    }
}

/// Replaying an exact cover: a row of an exact cover that is to come can be
/// chosen until all of them are, and once all of its rows have been chosen
/// before the search, every unique column is covered and no group has more
/// holes than its budget allows.
pub proof fn lemma_replayed(solver: PuzzleSolver, s: Set<int>)
    requires
        solver.wf(),
        !solver.started(),
        solver.to_come(s),
    ensures
        forall|r: int| s.contains(r) && !solver.is_chosen(r) ==> solver.is_free(r),
        (forall|r: int| s.contains(r) ==> solver.is_chosen(r)) ==> s == solver.chosen_set()
            && solver.complete() && solver.within_budget(),
{
    solver.lemma_to_come_first(s);
    if forall|r: int| s.contains(r) ==> solver.is_chosen(r) {
        assert(s =~= solver.chosen_set());
        solver.lemma_ready();
        let top = solver.shadow@.ops.len() as int;
        assert(solver.state_stack@.len() == 1);
        assert(solver.shadow@.marks[0] == top);
        assert(solver.state_stack@[0] == State::New);
        assert(solver.to_come_from(s, top));
        assert(!solver.waits_below(s, 1)) by {
            if solver.waits_below(s, 1) {
                let i = choose|i: int| 0 <= i < 1 && #[trigger] solver.waits_at(s, i);
                assert(!solver.waits_at(s, 0));
            }
        }
        solver.lemma_in_budget(s, top);
        assert forall|c: int|
            0 <= c < solver.nc() && #[trigger] solver.kind_of(c)
                == ColumnType::Unique implies solver.shadow@.cop[c] >= 0 by {
            solver.lemma_some_cell(s, c);
            let y = choose|y: int| #[trigger] solver.in_column(s, c, y) && y > solver.head_of(c);
            assert(solver.node_shape(y));
            solver.lemma_chosen_covered(solver.row_of(y), solver.shadow@.pos[y]);
        }
    }
}

/// A column of a group in which no row of the set has a cell is counted
/// among the holes that the set leaves in the group.
pub proof fn lemma_untouched_is_hole(m: Matrix, s: Set<int>, g: int, c: int, k: int)
    requires
        0 <= c < m.columns.len(),
        0 <= k <= m.columns.len(),
        m.columns[c].kind == ColumnType::ConditionalUnique(g as usize),
        m.untouched(s, c),
    ensures
        m.holes(s, g, k) >= if c < k {
            1int
        } else {
            0int
        },
    decreases k,
{
    if k > 0 {
        lemma_untouched_is_hole(m, s, g, c, k - 1);
    }
}

/// A column of a group without rows is a hole of the group whatever rows
/// are chosen: a matrix with such a column in a group that allows no hole
/// has no exact cover, and a search of it finds none.
pub proof fn lemma_empty_column_is_hole(m: Matrix, s: Set<int>, g: int, c: int)
    requires
        0 <= c < m.columns.len(),
        0 <= g < m.budgets.len(),
        m.columns[c].kind == ColumnType::ConditionalUnique(g as usize),
        m.columns[c].rows.len() == 0,
    ensures
        m.holes(s, g, m.columns.len() as int) >= 1,
        m.budgets[g] == 0 ==> !m.is_solution(s),
{
    lemma_untouched_is_hole(m, s, g, c, m.columns.len() as int);
}

/// Before the search, what it begins with are the rows that are free and
/// the columns that are covered.
pub proof fn lemma_start_is_state(solver: PuzzleSolver)
    requires
        solver.wf(),
        !solver.started(),
    ensures
        forall|x: int| solver.start().open.contains(x) == solver.is_free(x),
        forall|c: int| solver.start().shut.contains(c) == solver.is_covered(c),
{
    solver.lemma_start_first();
}

/// When a search is over, it has undone all that it did: the four link
/// arrays, the count of every column, the hole count and the chaining flag
/// of every group are what they were before the first request for a
/// solution; the same cells are linked, the same columns covered, and the
/// same rows chosen and free. (`after.search_kept(&start)` is what every
/// request ensures of the state it leaves, and it passes on from request to
/// request by `lemma_search_kept_trans`.)
pub proof fn lemma_search_restores(after: PuzzleSolver, start: PuzzleSolver)
    requires
        start.wf(),
        !start.started(),
        after.wf(),
        after.exhausted(),
        after.search_kept(&start),
    ensures
        forall|c: int|
            0 <= c < start@.columns.len() ==> #[trigger] after.count_of(c) == start.count_of(c),
        forall|g: int|
            0 <= g < start@.budgets.len() ==> #[trigger] after.hole_count(g) == start.hole_count(g),
        forall|r: int| #[trigger] after.is_chosen(r) == start.is_chosen(r),
        forall|r: int| #[trigger] after.is_free(r) == start.is_free(r),
        forall|c: int| #[trigger] after.is_covered(c) == start.is_covered(c),
        forall|n: int| start.is_cell(n) ==> #[trigger] after.is_linked(n) == start.is_linked(n),
        after.calm(),
        after.layout() == start.layout(),
{
    start.lemma_ready();
    let m0 = start.shadow@.ops.len() as int;
    assert(start.state_stack@.len() == 1);
    assert(start.base() == m0);
    assert(after.base() == after.shadow@.ops.len());
    assert(after.shadow@.ops.len() == m0);
    assert(after.kept(&start, m0));
    assert forall|n: int| 0 <= n < start.nn() implies after.shadow@.vop[n]
        == start.shadow@.vop[n] by {
        assert(after.low_node(&start, m0, n));
        assert(after.node_settled(n));
        assert(start.node_settled(n));
        assert(after.vchain().node_ok(n));
        assert(start.vchain().node_ok(n));
    }
    assert forall|c: int| 0 <= c < start.nc() implies after.shadow@.cop[c]
        == start.shadow@.cop[c] by {
        assert(after.low_column(&start, m0, c));
        assert(after.column_links(c, 0));
        assert(start.column_links(c, 0));
    }
    assert forall|r: int| #[trigger] after.is_chosen(r) == start.is_chosen(r) by {
        after.lemma_chosen_all(r);
        start.lemma_chosen_all(r);
        if 0 <= r < start.nr() {
            assert(after.low_row(&start, m0, r));
        }
    }
    assert forall|r: int| #[trigger] after.is_free(r) == start.is_free(r) by {
        after.lemma_free_all(r);
        start.lemma_free_all(r);
        after.lemma_kept_free(&start, m0, r);
    }
    assert forall|c: int| #[trigger] after.is_covered(c) == start.is_covered(c) by {}
    assert forall|n: int| start.is_cell(n) implies #[trigger] after.is_linked(n)
        == start.is_linked(n) by {
        after.lemma_linked_iff(n);
        start.lemma_linked_iff(n);
    }
    assert forall|c: int| 0 <= c < start.nc() implies after.head_of(c) == start.head_of(c) by {
        after.lemma_same_heads(&start, c);
    }
    assert forall|n: int| 0 <= n < start.nn() implies after.shadow@.vhome[n]
        == start.shadow@.vhome[n] by {
        assert(after.node_shape(n));
        assert(start.node_shape(n));
    }
    assert forall|c: int| 0 <= c < start@.columns.len() implies #[trigger] after.count_of(c)
        == start.count_of(c) by {
        assert(after.column_links(c, 0));
        assert(start.column_links(c, 0));
        let h = start.head_of(c);
        assert(after.sizes_ok());
        assert(start.sizes_ok());
        lemma_linked_below_same(after.vchain(), start.vchain(), h, start.nn());
    }
    assert forall|g: int| 0 <= g < start@.budgets.len() implies #[trigger] after.hole_count(g)
        == start.hole_count(g) by {
        assert(after.group_links(g));
        assert(start.group_links(g));
        assert forall|c: int| 0 <= c < start.nc() implies after.is_hole(g, c) == start.is_hole(
            g,
            c,
        ) by {
            assert(after@.columns[c].kind == start@.columns[c].kind);
            assert(after.count_of(c) == start.count_of(c));
        }
        lemma_holes_same(&after, &start, g, start.nc());
    }
    assert forall|g: int| 0 <= g < after.ng() implies !(
    #[trigger] after.condition_state_list@[g]).chaining by {
        assert(after.flag_framed(g));
    }
    // the stamps that say how a node was taken out
    assert forall|n: int| 0 <= n < start.nn() implies after.shadow@.vsub[n]
        == start.shadow@.vsub[n] && after.shadow@.hop[n] == start.shadow@.hop[n]
        && after.shadow@.hsub[n] == start.shadow@.hsub[n] by {
        assert(after.low_ptr(&start, m0, n));
        assert(after.vchain().node_ok(n));
        assert(start.vchain().node_ok(n));
        assert(after.hchain().node_ok(n));
        assert(start.hchain().node_ok(n));
        assert(after.node_settled(n));
        assert(start.node_settled(n));
        assert(after.hop_ok(n));
        assert(start.hop_ok(n));
        assert(after.node_shape(n));
        assert(start.node_shape(n));
        if start.node_list@[n].column != usize::MAX {
            let c = start.col_of(n);
            assert(after.column_links(c, 0));
            assert(start.column_links(c, 0));
            assert(after@.columns[c].kind == start@.columns[c].kind);
        }
    }
    assert(after.sizes_ok());
    assert(start.sizes_ok());
    assert(after.shadow@.vop =~= start.shadow@.vop);
    assert(after.shadow@.vsub =~= start.shadow@.vsub);
    assert(after.shadow@.hop =~= start.shadow@.hop);
    assert(after.shadow@.hsub =~= start.shadow@.hsub);
    // the links
    assert forall|n: int| 0 <= n < start.nn() implies after.up@[n] == start.up@[n]
        && after.down@[n] == start.down@[n] && after.left@[n] == start.left@[n] && after.right@[n]
        == start.right@[n] by {
        assert(after.low_ptr(&start, m0, n));
        assert(start.node_shape(n));
        assert(start.node_settled(n));
        assert(start.hop_ok(n));
        if start.shadow@.vop[n] < 0 {
            lemma_determined(after.vchain(), start.vchain(), n);
        }
        if start.shadow@.hhome[n] >= 0 && start.shadow@.hop[n] < 0 {
            lemma_determined(after.hchain(), start.hchain(), n);
        }
        if start.shadow@.hop[n] >= 0 {
            let c = start.col_of(n);
            assert(start.column_links(c, 0));
        }
    }
    assert(after.up@ =~= start.up@);
    assert(after.down@ =~= start.down@);
    assert(after.left@ =~= start.left@);
    assert(after.right@ =~= start.right@);
    assert forall|c: int| 0 <= c < start.nc() implies after.column_list@[c]
        == start.column_list@[c] by {
        assert(after.count_of(c) == start.count_of(c));
        assert(after@.columns[c].kind == start@.columns[c].kind);
        assert(after.kind_of(c) == start.kind_of(c));
        after.lemma_same_heads(&start, c);
        assert(after.column_list@[c].head == start.column_list@[c].head);
        assert(after.column_list@[c].count == start.column_list@[c].count);
    }
    assert(after.column_list@ =~= start.column_list@);
    assert forall|g: int| 0 <= g < start.ng() implies after.condition_state_list@[g]
        == start.condition_state_list@[g] by {
        assert(after.group_same(&start, g));
        assert(after.hole_count(g) == start.hole_count(g));
        assert(!after.condition_state_list@[g].chaining);
        assert(!start.condition_state_list@[g].chaining);
    }
    assert(after.condition_state_list@ =~= start.condition_state_list@);
}

} // verus!
