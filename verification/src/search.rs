//! The search: a stack of frames worked off one by one, which hands out
//! one solution at a time.

use crate::dancing_links::{ColumnType, Matrix, PuzzleSolver, Row, Shadow, State};
use crate::measure::{lemma_work_floor, lemma_work_grows, lemma_work_split, work};
use vstd::prelude::*;

verus! {

impl PuzzleSolver {
    /// Column `c`, if it was covered in `pre` by an operation below `top`,
    /// is still covered by it.
    pub(crate) open spec fn low_same(&self, pre: &PuzzleSolver, top: int, c: int) -> bool {
        &&& self.column_list@[c].head == pre.column_list@[c].head
        &&& 0 <= pre.shadow@.cop[c] < top ==> self.shadow@.cop[c] == pre.shadow@.cop[c]
    }

    /// Cell `n`, if its column was covered in `pre` by an operation below
    /// `top`, is linked or not as in `pre`, and its row chosen or not as in
    /// `pre`.
    pub(crate) open spec fn low_cell_same(&self, pre: &PuzzleSolver, top: int, n: int) -> bool {
        pre.is_cell(n) && 0 <= pre.shadow@.cop[pre.col_of(n)] < top ==> (self.shadow@.vop[n] < 0) == (
        pre.shadow@.vop[n] < 0) && self.row_list@[pre.row_of(n)].chosen
            == pre.row_list@[pre.row_of(n)].chosen
    }

    /// What the frames that stand for operations below `top` rely on is as
    /// in `pre`.
    pub(crate) open spec fn below_kept(&self, pre: &PuzzleSolver, top: int) -> bool {
        let sh = self.shadow@;
        let psh = pre.shadow@;
        &&& self.node_list@ == pre.node_list@
        &&& self.nc() == pre.nc()
        &&& self.nr() == pre.nr()
        &&& self.ng() == pre.ng()
        &&& self.up@.len() == pre.up@.len()
        &&& self.down@.len() == pre.down@.len()
        &&& sh.vhome == psh.vhome
        &&& sh.pos == psh.pos
        &&& sh.row_nodes == psh.row_nodes
        &&& sh.floor == psh.floor
        &&& sh.vop.len() == psh.vop.len()
        &&& sh.vsub.len() == psh.vsub.len()
        &&& (forall|c: int| 0 <= c < self.nc() ==> #[trigger] self.low_same(pre, top, c))
        &&& (forall|n: int| 0 <= n < self.nn() ==> #[trigger] self.low_cell_same(pre, top, n))
    }

    pub(crate) proof fn lemma_below_trans(&self, mid: &PuzzleSolver, pre: &PuzzleSolver, top: int)
        requires
            self.below_kept(mid, top),
            mid.below_kept(pre, top),
            pre.shape(),
        ensures
            self.below_kept(pre, top),
    {
        assert forall|c: int| 0 <= c < self.nc() implies #[trigger] self.low_same(pre, top, c) by {
            assert(self.low_same(mid, top, c));
            assert(mid.low_same(pre, top, c));
        }
        assert forall|n: int| 0 <= n < self.nn() implies #[trigger] self.low_cell_same(
            pre,
            top,
            n,
        ) by {
            assert(self.low_cell_same(mid, top, n));
            assert(mid.low_cell_same(pre, top, n));
            if pre.is_cell(n) {
                assert(pre.node_shape(n));
                assert(mid.low_same(pre, top, pre.col_of(n)));
            }
        }
    }

    /// Covers from `top` on leave what lies below alone.
    pub(crate) proof fn lemma_below_grown(&self, pre: &PuzzleSolver, d0: int, top: int)
        requires
            pre.shape(),
            self.grown_cover(pre, d0),
            self.same_frame(pre),
            self.up@.len() == pre.up@.len(),
            self.down@.len() == pre.down@.len(),
            self.shadow@.vsub.len() == pre.shadow@.vsub.len(),
            0 <= top <= d0,
        ensures
            self.below_kept(pre, top),
    {
        assert forall|c: int| 0 <= c < self.nc() implies #[trigger] self.low_same(pre, top, c) by {
            assert(self.cop_ok(pre, d0, c));
            assert(self.column_list@[c].head == pre.column_list@[c].head);
        }
        assert forall|n: int| 0 <= n < self.nn() implies #[trigger] self.low_cell_same(
            pre,
            top,
            n,
        ) by {
            assert(self.kill_ok(pre, d0, n));
        }
    }

    /// The undoing of covers from `top` on leaves what lies below alone.
    pub(crate) proof fn lemma_below_shrunk(&self, pre: &PuzzleSolver, d0: int, top: int)
        requires
            pre.links(0),
            pre.rows_settled(),
            self.shrunk_cover(pre, d0),
            self.same_frame(pre),
            self.up@.len() == pre.up@.len(),
            self.down@.len() == pre.down@.len(),
            self.shadow@.vsub.len() == pre.shadow@.vsub.len(),
            0 <= top <= d0,
            pre.shadow@.floor <= d0,
        ensures
            self.below_kept(pre, top),
    {
        assert forall|c: int| 0 <= c < self.nc() implies #[trigger] self.low_same(pre, top, c) by {
            assert(self.uncop_ok(pre, d0, c));
            assert(self.column_list@[c].head == pre.column_list@[c].head);
        }
        assert forall|n: int| 0 <= n < self.nn() implies #[trigger] self.low_cell_same(
            pre,
            top,
            n,
        ) by {
            assert(self.revive_ok(pre, d0, n));
            if pre.is_cell(n) && 0 <= pre.shadow@.cop[pre.col_of(n)] < top {
                if !(self.shadow@.vop[n] == pre.shadow@.vop[n]) {
                    assert(pre.node_settled(n));
                    assert(pre.node_settled_at(n, -1, -1, 0));
                    assert(pre.vcop(-1, -1, pre.col_of(n)) == pre.shadow@.cop[pre.col_of(n)]);
                    assert(false);
                }
            }
        }
    }

    /// A change of the mark of row `r0` leaves what lies below `top` alone,
    /// when no column of the row is covered below `top`.
    pub(crate) proof fn lemma_below_flag(&self, pre: &PuzzleSolver, r0: int, top: int)
        requires
            pre.shape(),
            0 <= r0 < pre.nr(),
            self.node_list@ == pre.node_list@,
            self.column_list@ == pre.column_list@,
            self.condition_state_list@.len() == pre.condition_state_list@.len(),
            self.up@.len() == pre.up@.len(),
            self.down@.len() == pre.down@.len(),
            self.shadow@ == pre.shadow@,
            self.row_list@.len() == pre.row_list@.len(),
            forall|r: int| 0 <= r < pre.nr() && r != r0 ==> #[trigger] self.row_list@[r] == pre.row_list@[r],
            forall|k: int|
                0 <= k < pre.shadow@.row_nodes[r0].len() ==> !(0 <= pre.shadow@.cop[pre.col_of(
                    #[trigger] pre.shadow@.row_nodes[r0][k] as int,
                )] < top),
        ensures
            self.below_kept(pre, top),
    {
        assert forall|c: int| 0 <= c < self.nc() implies #[trigger] self.low_same(pre, top, c) by {}
        assert forall|n: int| 0 <= n < self.nn() implies #[trigger] self.low_cell_same(
            pre,
            top,
            n,
        ) by {
            if pre.is_cell(n) && 0 <= pre.shadow@.cop[pre.col_of(n)] < top {
                assert(pre.node_shape(n));
                let r = pre.row_of(n);
                if r == r0 {
                    let k = pre.shadow@.pos[n];
                    assert(pre.shadow@.row_nodes[r0][k] == n);
                    assert(false);
                }
            }
        }
    }

    /// A change of the stack, the marks and the chaining flags alone.
    pub(crate) open spec fn soft_change(&self, pre: &PuzzleSolver) -> bool {
        &&& self.node_list@ == pre.node_list@
        &&& self.row_list@ == pre.row_list@
        &&& self.column_list@ == pre.column_list@
        &&& self.up@ == pre.up@
        &&& self.down@ == pre.down@
        &&& self.left@ == pre.left@
        &&& self.right@ == pre.right@
        &&& self.condition_state_list@.len() == pre.condition_state_list@.len()
        &&& (forall|g: int|
            0 <= g < self.ng() ==> (#[trigger] self.condition_state_list@[g]).head
                == pre.condition_state_list@[g].head && self.condition_state_list@[g].holes
                == pre.condition_state_list@[g].holes
                && self.condition_state_list@[g].current_holes
                == pre.condition_state_list@[g].current_holes)
        &&& self.shadow@ == (Shadow { marks: self.shadow@.marks, ..pre.shadow@ })
        &&& self.shadow@.marks.len() == self.state_stack@.len()
    }

    pub(crate) proof fn lemma_soft_change(&self, pre: &PuzzleSolver)
        requires
            pre.links(0),
            pre.rows_settled(),
            pre.committed(),
            self.soft_change(pre),
        ensures
            self.links(0),
            self.rows_settled(),
            self.committed(),
            self.budget() == pre.budget(),
            self@ == pre@,
            self.below_kept(pre, self.shadow@.ops.len() as int),
            forall|c: int, m0: int| pre.dead_end(c, m0) ==> self.dead_end(c, m0),
            self.within_budget() == pre.within_budget(),
            self.complete() == pre.complete(),
            forall|r: int| self.is_chosen(r) == pre.is_chosen(r),
    {
        assert(self.vchain() == pre.vchain());
        assert(self.hchain() == pre.hchain());
        assert forall|n: int| 0 <= n < self.nn() implies #[trigger] self.node_shape(n) by {
            assert(pre.node_shape(n));
            if pre.node_list@[n].column != usize::MAX {
                assert(pre.column_shape(pre.col_of(n)));
            }
        }
        assert forall|c: int| 0 <= c < self.nc() implies #[trigger] self.column_shape(c) by {
            assert(pre.column_shape(c));
            assert forall|i: int| 0 <= i < self.shadow@.col_rows[c].len() implies #[trigger] self.cell_at(
                c,
                i,
            ) == (crate::dancing_links::Node {
                row: self.shadow@.col_rows[c][i],
                column: c as usize,
            }) by {
                assert(pre.cell_at(c, i) == self.cell_at(c, i));
            }
        }
        assert forall|g: int| 0 <= g < self.ng() implies #[trigger] self.group_shape(g) by {
            assert(pre.group_shape(g));
            assert(self.condition_state_list@[g].head == pre.condition_state_list@[g].head);
            if g >= 1 {
                assert(self.condition_state_list@[g - 1].head
                    == pre.condition_state_list@[g - 1].head);
            }
        }
        assert forall|r: int| 0 <= r < self.nr() implies #[trigger] self.row_shape(r) by {
            assert(pre.row_shape(r));
            assert forall|i: int|
                0 <= i < self.shadow@.row_nodes[r].len() implies #[trigger] self.row_link_ok(r, i) by {
                assert(pre.row_link_ok(r, i));
            }
        }
        assert forall|c: int| 0 <= c < self.nc() implies #[trigger] self.column_links(c, 0) by {
            assert(pre.column_links(c, 0));
        }
        assert forall|g: int| 0 <= g < self.ng() implies #[trigger] self.group_links(g) by {
            assert(pre.group_links(g));
            assert(self.condition_state_list@[g].current_holes
                == pre.condition_state_list@[g].current_holes);
            crate::splice::lemma_holes_same(pre, self, g, pre.nc());
        }
        assert forall|n: int| 0 <= n < self.nn() implies #[trigger] self.hop_ok(n) by {
            assert(pre.hop_ok(n));
        }
        self.lemma_rows_same(pre);
        assert forall|c: int| 0 <= c < self.nc() implies #[trigger] self.column_settled(c) by {
            assert(pre.column_settled(c));
        }
        assert forall|r: int| 0 <= r < self.nr() implies #[trigger] self.row_settled(r) by {
            assert(pre.row_settled(r));
        }
        self.lemma_open_same(pre, pre.nc());
        assert(self@.columns =~= pre@.columns);
        assert(self@.budgets =~= pre@.budgets) by {
            assert forall|g: int| 0 <= g < pre.ng() implies self@.budgets[g] == pre@.budgets[g] by {
                assert(self.condition_state_list@[g].holes == pre.condition_state_list@[g].holes);
            }
        }
        assert forall|c: int| 0 <= c < self.nc() implies #[trigger] self.low_same(
            pre,
            self.shadow@.ops.len() as int,
            c,
        ) by {}
        assert forall|n: int| 0 <= n < self.nn() implies #[trigger] self.low_cell_same(
            pre,
            self.shadow@.ops.len() as int,
            n,
        ) by {}
        assert forall|c: int, m0: int| pre.dead_end(c, m0) implies self.dead_end(c, m0) by {}
        if pre.complete() {
            assert forall|c: int|
                0 <= c < self.nc() && #[trigger] self.kind_of(c)
                    == ColumnType::Unique implies self.shadow@.cop[c] >= 0 by {
                assert(pre.kind_of(c) == ColumnType::Unique);
            }
        }
        if self.complete() {
            assert forall|c: int|
                0 <= c < pre.nc() && #[trigger] pre.kind_of(c)
                    == ColumnType::Unique implies pre.shadow@.cop[c] >= 0 by {
                assert(self.kind_of(c) == ColumnType::Unique);
            }
        }
        if pre.within_budget() {
            assert forall|g: int| 0 <= g < self.ng() implies (
            #[trigger] self.condition_state_list@[g]).current_holes
                <= self.condition_state_list@[g].holes by {
                assert(pre.condition_state_list@[g].current_holes
                    <= pre.condition_state_list@[g].holes);
            }
        }
        if self.within_budget() {
            assert forall|g: int| 0 <= g < pre.ng() implies (
            #[trigger] pre.condition_state_list@[g]).current_holes
                <= pre.condition_state_list@[g].holes by {
                assert(self.condition_state_list@[g].current_holes
                    <= self.condition_state_list@[g].holes);
            }
        }
    }

    /// The marks of the frames do not fall, and none is above the top.
    pub(crate) proof fn lemma_marks_rise(&self, k: int, top: int, i: int)
        requires
            self.frames_below(k, top),
            0 <= i < k,
        ensures
            self.shadow@.floor <= self.shadow@.marks[i] <= top,
            i + 1 < k ==> self.shadow@.marks[i + 1] <= top,
        decreases k - i,
    {
        assert(self.frame_ok_in(i, k, top));
        if i + 1 < k {
            self.lemma_marks_rise(k, top, i + 1);
        }
    }

    /// The frames below stay in order when what they rely on is kept.
    pub(crate) proof fn lemma_frames_kept(&self, pre: &PuzzleSolver, k: int, top: int)
        requires
            pre.shape(),
            pre.shadow@.floor >= 0,
            pre.frames_below(k, top),
            self.below_kept(pre, top),
            0 <= k <= pre.state_stack@.len(),
            k <= self.state_stack@.len(),
            k <= pre.shadow@.marks.len(),
            k <= self.shadow@.marks.len(),
            forall|i: int| 0 <= i < k ==> #[trigger] self.state_stack@[i] == pre.state_stack@[i],
            forall|i: int| 0 <= i < k ==> #[trigger] self.shadow@.marks[i] == pre.shadow@.marks[i],
        ensures
            self.frames_below(k, top),
    {
        assert forall|i: int| 0 <= i < k implies #[trigger] self.frame_ok_in(i, k, top) by {
            assert(pre.frame_ok_in(i, k, top));
            pre.lemma_marks_rise(k, top, i);
            assert(self.state_stack@[i] == pre.state_stack@[i]);
            assert(self.shadow@.marks[i] == pre.shadow@.marks[i]);
            if i + 1 < k {
                assert(self.shadow@.marks[i + 1] == pre.shadow@.marks[i + 1]);
            }
            match pre.state_stack@[i] {
                State::CurrentState(c, n) => {
                    let r = pre.row_of(n as int);
                    let rn = pre.shadow@.row_nodes[r];
                    let p = pre.shadow@.pos[n as int];
                    let m = pre.shadow@.marks[i];
                    assert(pre.node_shape(n as int));
                    assert(rn[p] == n);
                    assert(pre.shadow@.cop[pre.col_of(rn[p] as int)] == m + Self::off(
                        p,
                        p,
                        rn.len() as int,
                    ));
                    assert(self.low_cell_same(pre, top, n as int));
                    assert forall|j: int| 0 <= j < rn.len() implies self.shadow@.cop[self.col_of(
                        #[trigger] rn[j] as int,
                    )] == m + Self::off(p, j, rn.len() as int) by {
                        pre.lemma_row_member(r, j);
                        let cj = pre.col_of(rn[j] as int);
                        assert(self.low_same(pre, top, cj));
                        assert(0 <= Self::off(p, j, rn.len() as int) < rn.len());
                        assert(pre.shadow@.cop[pre.col_of(rn[j] as int)] == m + Self::off(
                            p,
                            j,
                            rn.len() as int,
                        ));
                        assert(m + rn.len() <= top);
                    }
                },
                _ => {},
            }
        }
    }

    /// The frames below stand for the same work when what they rely on is
    /// kept.
    pub(crate) proof fn lemma_phi_kept(&self, pre: &PuzzleSolver, k: int, top: int)
        requires
            pre.shape(),
            pre.shadow@.floor >= 0,
            pre.frames_below(k, top),
            self.below_kept(pre, top),
            self.budget() == pre.budget(),
            0 <= k <= pre.state_stack@.len(),
            k <= self.state_stack@.len(),
            forall|i: int| 0 <= i < k ==> #[trigger] self.state_stack@[i] == pre.state_stack@[i],
            forall|i: int| 0 <= i < k ==> #[trigger] self.shadow@.marks[i] == pre.shadow@.marks[i],
        ensures
            self.phi(k) == pre.phi(k),
    {
        assert forall|i: int| 0 <= i < k implies match #[trigger] pre.state_stack@[i] {
            State::CurrentState(c, n) => self.rest_of(c as int, n as int) == pre.rest_of(
                c as int,
                n as int,
            ),
            _ => true,
        } by {
            assert(pre.frame_ok_in(i, k, top));
            pre.lemma_marks_rise(k, top, i);
            match pre.state_stack@[i] {
                State::CurrentState(c, n) => {
                    let r = pre.row_of(n as int);
                    let rn = pre.shadow@.row_nodes[r];
                    let p = pre.shadow@.pos[n as int];
                    let m = pre.shadow@.marks[i];
                    assert(pre.node_shape(n as int));
                    assert(rn[p] == n);
                    assert(pre.shadow@.cop[pre.col_of(rn[p] as int)] == m + Self::off(
                        p,
                        p,
                        rn.len() as int,
                    ));
                    assert(self.low_same(pre, top, c as int));
                    assert forall|x: int|
                        0 <= x < pre.nn() && #[trigger] pre.shadow@.vhome[x] == pre.head_of(
                            c as int,
                        ) && x != pre.head_of(c as int) implies (self.shadow@.vop[x] < 0) == (
                    pre.shadow@.vop[x] < 0) by {
                        pre.lemma_member_is_cell(c as int, x);
                        assert(self.low_cell_same(pre, top, x));
                    }
                    self.lemma_rest_same(pre, c as int, n as int);
                },
                _ => {},
            }
        }
        self.lemma_phi_same(pre, k);
    }

    /// The stack of `self` is that of `pre`, with frames on top.
    pub(crate) open spec fn stack_extends(&self, pre: &PuzzleSolver) -> bool {
        &&& self.state_stack@.len() >= pre.state_stack@.len()
        &&& self.shadow@.marks.len() == self.state_stack@.len()
        &&& pre.shadow@.marks.len() == pre.state_stack@.len()
        &&& (forall|i: int|
            0 <= i < pre.state_stack@.len() ==> #[trigger] self.state_stack@[i]
                == pre.state_stack@[i])
        &&& (forall|i: int|
            0 <= i < pre.state_stack@.len() ==> #[trigger] self.shadow@.marks[i]
                == pre.shadow@.marks[i])
    }

    /// The frames from `k` on switch chaining off again; they stand for no
    /// operation.
    pub(crate) open spec fn triggers_from(&self, k: int, top: int) -> bool {
        forall|i: int|
            k <= i < self.state_stack@.len() ==> match #[trigger] self.state_stack@[i] {
                State::TriggerChaining(g) => g < self.ng() && self.shadow@.marks[i] == top,
                _ => false,
            }
    }

    /// None of the first `k` frames asks for another level.
    pub(crate) open spec fn no_new_below(&self, k: int) -> bool {
        forall|i: int| 0 <= i < k ==> #[trigger] self.state_stack@[i] != State::New
    }

    pub(crate) proof fn lemma_frames_extend(&self, k: int, top: int)
        requires
            0 <= k <= self.state_stack@.len(),
            self.frames_below(k, top),
            self.no_new_below(k),
            self.triggers_from(k, top),
            self.shadow@.floor <= top,
        ensures
            self.frames_below(self.state_stack@.len() as int, top),
            self.no_new_below(self.state_stack@.len() as int),
    {
        let len = self.state_stack@.len() as int;
        assert forall|i: int| 0 <= i < len implies #[trigger] self.frame_ok_in(i, len, top) by {
            if i < k {
                assert(self.frame_ok_in(i, k, top));
                assert(self.state_stack@[i] != State::New);
                if i + 1 == k && k < len {
                    assert(match self.state_stack@[k] {
                        State::TriggerChaining(g) => g < self.ng() && self.shadow@.marks[k] == top,
                        _ => false,
                    });
                }
            } else {
                assert(match self.state_stack@[i] {
                    State::TriggerChaining(g) => g < self.ng() && self.shadow@.marks[i] == top,
                    _ => false,
                });
                if i + 1 < len {
                    assert(match self.state_stack@[i + 1] {
                        State::TriggerChaining(g) => g < self.ng() && self.shadow@.marks[i + 1]
                            == top,
                        _ => false,
                    });
                }
            }
        }
        assert forall|i: int| 0 <= i < len implies #[trigger] self.state_stack@[i]
            != State::New by {
            if i >= k {
                assert(self.state_stack@[i] is TriggerChaining);
            }
        }
    }

    pub(crate) proof fn lemma_phi_triggers(&self, k: int, top: int, j: int)
        requires
            0 <= k <= j <= self.state_stack@.len(),
            self.triggers_from(k, top),
        ensures
            self.phi(j) == self.phi(k) + (j - k),
        decreases j - k,
    {
        if j > k {
            self.lemma_phi_triggers(k, top, j - 1);
            assert(self.state_stack@[j - 1] is TriggerChaining);
        }
    }

    /// Some group counts more holes than its budget allows.
    pub(crate) fn over_budget(&self) -> (over: bool)
        ensures
            over == !self.within_budget(),
    {
        let mut over = false;
        let mut index: usize = 0;
        while index < self.condition_state_list.len()
            invariant
                index <= self.ng(),
                over == exists|g: int|
                    0 <= g < index && (#[trigger] self.condition_state_list@[g]).current_holes
                        > self.condition_state_list@[g].holes,
            decreases self.ng() - index,
        {
            let state = self.condition_state_list[index];
            if state.current_holes > state.holes {
                over = true;
            }
            index += 1;
        }
        over
    }

    /// Switches chaining on for every group whose budget of holes is used
    /// up, and leaves a frame on the stack that switches it off again.
    pub(crate) fn raise_triggers(&mut self)
        requires
            old(self).links(0),
            old(self).rows_settled(),
            old(self).committed(),
            old(self).frames_below(
                old(self).state_stack@.len() as int,
                old(self).shadow@.ops.len() as int,
            ),
        ensures
            final(self).soft_change(old(self)),
            final(self).stack_extends(old(self)),
            final(self).triggers_from(
                old(self).state_stack@.len() as int,
                old(self).shadow@.ops.len() as int,
            ),
            final(self).state_stack@.len() <= old(self).state_stack@.len() + old(self).ng(),
            old(self).chains_ok() ==> final(self).chains_ok(),
            final(self).all_raised(final(self).ng()),
    {
        let ghost base = *self;
        let ghost k = self.state_stack@.len() as int;
        let ghost top = self.shadow@.ops.len() as int;
        let mut index: usize = 0;
        while index < self.condition_state_list.len()
            invariant
                index <= self.ng(),
                base.links(0),
                base.rows_settled(),
                base.committed(),
                top == base.shadow@.ops.len(),
                self.soft_change(&base),
                self.stack_extends(&base),
                self.triggers_from(k, top),
                k == base.state_stack@.len(),
                self.state_stack@.len() <= k + index,
                base.chains_ok() ==> self.chains_ok(),
                self.all_raised(index as int),
            decreases self.ng() - index,
        {
            let state = self.condition_state_list[index];
            if !state.chaining && state.current_holes == state.holes {
                let ghost before = *self;
                self.condition_state_list[index].chaining = true;
                self.state_stack.push(State::TriggerChaining(index));
                proof {
                    self.shadow@.marks = self.shadow@.marks.push(top);
                    if base.chains_ok() {
                        before.lemma_soft_change(&base);
                        self.lemma_chains_on(&before, index as int);
                    }
                    assert forall|i: int|
                        k <= i < self.state_stack@.len() implies match #[trigger] self.state_stack@[i] {
                        State::TriggerChaining(g) => g < self.ng() && self.shadow@.marks[i] == top,
                        _ => false,
                    } by {
                        if i < before.state_stack@.len() {
                            assert(before.state_stack@[i] is TriggerChaining);
                        }
                    }
                    assert forall|g: int| 0 <= g < self.ng() implies (
                    #[trigger] self.condition_state_list@[g]).head
                        == base.condition_state_list@[g].head
                        && self.condition_state_list@[g].holes
                        == base.condition_state_list@[g].holes
                        && self.condition_state_list@[g].current_holes
                        == base.condition_state_list@[g].current_holes by {
                        assert(before.condition_state_list@[g].head
                            == base.condition_state_list@[g].head);
                    }
                    assert forall|i: int| 0 <= i < base.state_stack@.len() implies #[trigger] self.state_stack@[i]
                        == base.state_stack@[i] by {
                        assert(before.state_stack@[i] == base.state_stack@[i]);
                    }
                    assert forall|i: int| 0 <= i < base.state_stack@.len() implies #[trigger] self.shadow@.marks[i]
                        == base.shadow@.marks[i] by {
                        assert(before.shadow@.marks[i] == base.shadow@.marks[i]);
                    }
                }
            }
            index += 1;
        }
    }

    /// The bookkeeping of chosen rows is in order but for the record of the
    /// cell that column `c` is covered for: no chosen row has a cell in it.
    pub(crate) open spec fn committed_except(&self, c: int) -> bool {
        &&& (forall|c2: int| 0 <= c2 < self.nc() && c2 != c ==> #[trigger] self.column_settled(c2))
        &&& (forall|r: int| 0 <= r < self.nr() ==> #[trigger] self.row_settled(r))
        &&& (forall|y: int|
            self.is_cell(y) && self.col_of(y) == c ==> !(#[trigger] self.row_list@[self.row_of(
                y,
            )]).chosen)
    }

    /// The state after the cell that column `c` is covered for has been
    /// recorded and its row marked as chosen.
    proof fn lemma_row_on_trial(&self, pre: &PuzzleSolver, c: int, n: int)
        requires
            pre.links(0),
            pre.rows_settled(),
            pre.committed_except(c),
            0 <= c < pre.nc(),
            pre.is_cell(n),
            pre.col_of(n) == c,
            pre.shadow@.vop[n] < 0,
            pre.shadow@.ops.len() >= 1,
            pre.shadow@.cop[c] == pre.shadow@.ops.len() - 1,
            self.node_list@ == pre.node_list@,
            self.column_list@ == pre.column_list@,
            self.condition_state_list@ == pre.condition_state_list@,
            self.up@ == pre.up@,
            self.down@ == pre.down@,
            self.left@ == pre.left@,
            self.right@ == pre.right@,
            self.state_stack@ == pre.state_stack@,
            self.shadow@ == (Shadow {
                cover_cell: pre.shadow@.cover_cell.update(c, n),
                ..pre.shadow@
            }),
            self.row_list@ == pre.row_list@.update(
                pre.row_of(n),
                Row { head: pre.row_list@[pre.row_of(n)].head, chosen: true },
            ),
        ensures
            self.links(0),
            self.rows_settled(),
            self.committed_but(pre.row_of(n)),
            self.covering(
                pre.row_of(n),
                pre.shadow@.pos[n],
                pre.shadow@.ops.len() - 1,
                1,
            ),
            self.budget() == pre.budget(),
            self@ == pre@,
            self.below_kept(pre, pre.shadow@.ops.len() - 1),
    {
        let r1 = pre.row_of(n);
        let p1 = pre.shadow@.pos[n];
        let m = pre.shadow@.ops.len() - 1;
        let rn = pre.shadow@.row_nodes[r1];
        assert(pre.node_shape(n));
        let recorded = PuzzleSolver { row_list: pre.row_list, ..*self };
        recorded.lemma_cover_cell_free(pre);
        self.lemma_flag_set(&recorded, r1);
        pre.lemma_row_taken(n);
        assert forall|c2: int| 0 <= c2 < self.nc() implies #[trigger] self.column_settled_but(
            c2,
            r1,
        ) by {
            if c2 != c {
                assert(pre.column_settled(c2));
                let x = pre.shadow@.cover_cell[c2];
                if pre.shadow@.cop[c2] >= 0 {
                    assert(pre.node_shape(x));
                    if pre.row_of(x) != r1 {
                        assert(self.row_list@[pre.row_of(x)] == pre.row_list@[pre.row_of(x)]);
                    }
                }
            }
        }
        assert forall|r: int| 0 <= r < self.nr() && r != r1 implies #[trigger] self.row_settled(
            r,
        ) by {
            assert(pre.row_settled(r));
            assert(self.row_list@[r] == pre.row_list@[r]);
            let rr = pre.shadow@.row_nodes[r];
            if pre.row_list@[r].chosen {
                assert forall|k: int| 0 <= k < rr.len() implies self.shadow@.cover_cell[self.col_of(
                    #[trigger] rr[k] as int,
                )] == rr[k] by {
                    pre.lemma_row_member(r, k);
                    let y = rr[k] as int;
                    if pre.col_of(y) == c {
                        assert(!pre.row_list@[pre.row_of(y)].chosen);
                    }
                }
            }
        }
        assert forall|k: int| 0 <= k < rn.len() implies if Self::off(p1, k, rn.len() as int) < 1 {
            &&& self.shadow@.cop[self.col_of(#[trigger] rn[k] as int)] == m + Self::off(
                p1,
                k,
                rn.len() as int,
            )
            &&& self.shadow@.cover_cell[self.col_of(rn[k] as int)] == rn[k]
        } else {
            self.shadow@.cop[self.col_of(rn[k] as int)] < 0
        } by {
            pre.lemma_row_member(r1, k);
            if k != p1 {
                assert(pre.shadow@.cop[pre.col_of(rn[k] as int)] < 0);
            }
        }
        self.lemma_open_same(pre, pre.nc());
        assert(self@.columns =~= pre@.columns);
        assert(self@.budgets =~= pre@.budgets);
        assert forall|k: int| 0 <= k < rn.len() implies !(0 <= pre.shadow@.cop[pre.col_of(
            #[trigger] rn[k] as int,
        )] < m) by {
            if k != p1 {
                assert(pre.shadow@.cop[pre.col_of(rn[k] as int)] < 0);
            }
        }
        recorded.lemma_below_record(pre, m);
        self.lemma_below_flag(&recorded, r1, m);
        self.lemma_below_trans(&recorded, pre, m);
    }

    /// The record of the cell a column is covered for is of no concern to
    /// the frames below.
    proof fn lemma_below_record(&self, pre: &PuzzleSolver, top: int)
        requires
            self.node_list@ == pre.node_list@,
            self.row_list@ == pre.row_list@,
            self.column_list@ == pre.column_list@,
            self.condition_state_list@.len() == pre.condition_state_list@.len(),
            self.up@.len() == pre.up@.len(),
            self.down@.len() == pre.down@.len(),
            self.shadow@ == (Shadow { cover_cell: self.shadow@.cover_cell, ..pre.shadow@ }),
        ensures
            self.below_kept(pre, top),
    {
        assert forall|c: int| 0 <= c < self.nc() implies #[trigger] self.low_same(pre, top, c) by {}
        assert forall|n: int| 0 <= n < self.nn() implies #[trigger] self.low_cell_same(
            pre,
            top,
            n,
        ) by {}
    }

    /// Puts the row of the linked cell `row_node` of the column `column`,
    /// covered last, on trial: marks it as chosen, covers its other columns,
    /// and leaves on the stack the frame that stands for the trial and the
    /// request for another level.
    #[verifier::rlimit(60)]
    pub(crate) fn try_row(&mut self, column: usize, row_node: usize, Ghost(m0): Ghost<int>)
        requires
            old(self).links(0),
            old(self).rows_settled(),
            old(self).committed_except(column as int),
            old(self).frames_below(
                old(self).state_stack@.len() as int,
                old(self).shadow@.ops.len() - 1,
            ),
            old(self).no_new_below(old(self).state_stack@.len() as int),
            column < old(self).nc(),
            old(self).is_cell(row_node as int),
            old(self).col_of(row_node as int) == column,
            old(self).shadow@.vop[row_node as int] < 0,
            old(self).shadow@.ops.len() >= 1,
            old(self).shadow@.cop[column as int] == old(self).shadow@.ops.len() - 1,
            old(self).shadow@.floor <= old(self).shadow@.ops.len() - 1,
            0 <= m0 <= old(self).shadow@.ops.len() - 1,
        ensures
            final(self).sound(),
            final(self)@ == old(self)@,
            final(self).nn() == old(self).nn(),
            final(self).ng() == old(self).ng(),
            final(self).budget() == old(self).budget(),
            final(self).stack_extends(old(self)),
            final(self).state_stack@.len() == old(self).state_stack@.len() + 2,
            final(self).phi(final(self).state_stack@.len() as int) <= old(self).phi(
                old(self).state_stack@.len() as int,
            ) + (old(self).rest_of(column as int, row_node as int) + 1) * (1 + work(
                old(self).nn(),
                old(self).ng(),
                old(self).budget() - old(self).shadow@.ops.len(),
            )),
            forall|c: int| old(self).dead_end(c, m0) ==> final(self).dead_end(c, m0),
            final(self).started(),
            old(self).state_stack@.len() == 0 ==> final(self).shadow@.marks[0] == old(
                self,
            ).shadow@.ops.len() - 1,
            final(self).state_stack@ == old(self).state_stack@.push(
                State::CurrentState(column, row_node),
            ).push(State::New),
            final(self).shadow@.marks[old(self).state_stack@.len() as int] == old(
                self,
            ).shadow@.ops.len() - 1,
            final(self).kept(old(self), old(self).shadow@.ops.len() - 1),
            final(self).same_flags(old(self)),
    {
        let ghost pre = *self;
        let ghost c = column as int;
        let ghost n = row_node as int;
        let ghost r1 = self.row_of(n);
        let ghost p1 = self.shadow@.pos[n];
        let ghost m = self.shadow@.ops.len() - 1;
        let ghost k = self.state_stack@.len() as int;
        let ghost len = self.shadow@.row_nodes[r1].len() as int;
        proof {
            assert(self.node_shape(n));
            self.shadow@.cover_cell = self.shadow@.cover_cell.update(c, n);
        }
        let row = self.node_list[row_node].row;
        self.row_list[row].chosen = true;
        let ghost tried = *self;
        proof {
            self.lemma_row_on_trial(&pre, c, n);
            self.lemma_grown_refl(m + 1);
        }
        self.cover_others(row_node, Ghost(tried), Ghost(m + 1), Ghost(m));
        let ghost covered = *self;
        self.state_stack.push(State::CurrentState(column, row_node));
        self.state_stack.push(State::New);
        proof {
            self.shadow@.marks = self.shadow@.marks.push(m).push(self.shadow@.ops.len() as int);
            self.lemma_try_row_done(&pre, &tried, &covered, c, n, m0);
            self.lemma_kept_try(&pre, &tried, &covered, c, n);
            assert forall|g: int| 0 <= g < self.ng() implies #[trigger] self.flag_same(&pre, g) by {
                assert(covered.condition_state_list@[g].chaining
                    == tried.condition_state_list@[g].chaining);
            }
        }
    }

    /// The state after a row has been put on trial.
    #[verifier::rlimit(100)]
    proof fn lemma_try_row_done(
        &self,
        pre: &PuzzleSolver,
        tried: &PuzzleSolver,
        covered: &PuzzleSolver,
        c: int,
        n: int,
        m0: int,
    )
        requires
            pre.links(0),
            pre.rows_settled(),
            pre.frames_below(pre.state_stack@.len() as int, pre.shadow@.ops.len() - 1),
            pre.no_new_below(pre.state_stack@.len() as int),
            0 <= c < pre.nc(),
            pre.is_cell(n),
            pre.col_of(n) == c,
            pre.shadow@.vop[n] < 0,
            pre.shadow@.ops.len() >= 1,
            pre.shadow@.cop[c] == pre.shadow@.ops.len() - 1,
            pre.shadow@.floor <= pre.shadow@.ops.len() - 1,
            0 <= m0 <= pre.shadow@.ops.len() - 1,
            tried.links(0),
            tried.rows_settled(),
            tried@ == pre@,
            tried.budget() == pre.budget(),
            tried.below_kept(pre, pre.shadow@.ops.len() - 1),
            tried.state_stack@ == pre.state_stack@,
            tried.shadow@.marks == pre.shadow@.marks,
            tried.node_list@ == pre.node_list@,
            tried.shadow@.vop == pre.shadow@.vop,
            tried.shadow@.cop == pre.shadow@.cop,
            tried.shadow@.ops == pre.shadow@.ops,
            tried.column_list@ == pre.column_list@,
            tried.row_list@[pre.row_of(n)].chosen,
            covered.links(0),
            covered.rows_settled(),
            covered.committed_but(pre.row_of(n)),
            covered.covering(
                pre.row_of(n),
                pre.shadow@.pos[n],
                pre.shadow@.ops.len() - 1,
                pre.shadow@.row_nodes[pre.row_of(n)].len() as int,
            ),
            covered.grown_cover(tried, pre.shadow@.ops.len() as int),
            covered.budget() == tried.budget(),
            covered.same_frame(tried),
            self.soft_change(covered),
            self.state_stack@ == covered.state_stack@.push(
                State::CurrentState(c as usize, n as usize),
            ).push(State::New),
            self.shadow@.marks == covered.shadow@.marks.push(pre.shadow@.ops.len() - 1).push(
                covered.shadow@.ops.len() as int,
            ),
        ensures
            self.sound(),
            self@ == pre@,
            self.nn() == pre.nn(),
            self.ng() == pre.ng(),
            self.budget() == pre.budget(),
            self.stack_extends(pre),
            self.state_stack@.len() == pre.state_stack@.len() + 2,
            self.phi(self.state_stack@.len() as int) <= pre.phi(pre.state_stack@.len() as int) + (
            pre.rest_of(c, n) + 1) * (1 + work(
                pre.nn(),
                pre.ng(),
                pre.budget() - pre.shadow@.ops.len(),
            )),
            forall|c2: int| pre.dead_end(c2, m0) ==> self.dead_end(c2, m0),
            self.started(),
            pre.state_stack@.len() == 0 ==> self.shadow@.marks[0] == pre.shadow@.ops.len() - 1,
    {
        let r1 = pre.row_of(n);
        let p1 = pre.shadow@.pos[n];
        let m = pre.shadow@.ops.len() - 1;
        let k = pre.state_stack@.len() as int;
        let rn = pre.shadow@.row_nodes[r1];
        let len = rn.len() as int;
        assert(pre.node_shape(n));
        assert(pre.row_shape(r1));
        // the bookkeeping of chosen rows
        assert(covered.row_list@[r1].chosen) by {
            assert(covered.row_list@ == tried.row_list@);
        }
        covered.lemma_covering_done(r1, p1, m);
        self.lemma_soft_change(covered);
        covered.lemma_view_same(tried);
        // the frames
        covered.lemma_below_grown(tried, m + 1, m);
        covered.lemma_below_trans(tried, pre, m);
        self.lemma_below_lower(covered, covered.shadow@.ops.len() as int, m);
        self.lemma_below_trans(covered, pre, m);
        assert(self.state_stack@[k] == State::CurrentState(c as usize, n as usize));
        assert(self.state_stack@[k + 1] == State::New);
        assert forall|i: int| 0 <= i < k implies #[trigger] self.state_stack@[i]
            == pre.state_stack@[i] by {}
        assert forall|i: int| 0 <= i < k implies #[trigger] self.shadow@.marks[i]
            == pre.shadow@.marks[i] by {}
        self.lemma_frames_kept(pre, k, m);
        assert(covered.kill_ok(tried, m + 1, n));
        assert(covered.cop_ok(tried, m + 1, c));
        assert forall|i: int| 0 <= i < self.state_stack@.len() implies #[trigger] self.frame_ok(
            i,
        ) by {
            if i < k {
                assert(self.frame_ok_in(i, k, m));
                assert(pre.state_stack@[i] != State::New);
            } else if i == k {
                assert(self.shadow@.ops.len() == m + len);
                assert forall|j: int| 0 <= j < rn.len() implies self.shadow@.cop[self.col_of(
                    #[trigger] rn[j] as int,
                )] == m + Self::off(p1, j, len) by {
                    assert(Self::off(p1, j, len) < len);
                    assert(covered.shadow@.cop[covered.col_of(rn[j] as int)] == m + Self::off(
                        p1,
                        j,
                        len,
                    ));
                }
            }
        }
        // the work that the frames stand for
        self.lemma_phi_kept(pre, k, m);
        let w1 = work(pre.nn(), pre.ng(), pre.budget() - pre.shadow@.ops.len());
        lemma_work_floor(pre.nn(), pre.ng(), pre.budget() - pre.shadow@.ops.len());
        lemma_work_grows(
            pre.nn(),
            pre.ng(),
            self.budget() - self.shadow@.ops.len(),
            pre.budget() - pre.shadow@.ops.len(),
        );
        assert(self.rest_of(c, n) == pre.rest_of(c, n)) by {
            assert(self.low_same(pre, m, c));
            assert forall|x: int|
                0 <= x < pre.nn() && #[trigger] pre.shadow@.vhome[x] == pre.head_of(c) && x
                    != pre.head_of(c) implies (self.shadow@.vop[x] < 0) == (pre.shadow@.vop[x]
                < 0) by {
                pre.lemma_member_is_cell(c, x);
                assert(covered.kill_ok(tried, m + 1, x));
            }
            self.lemma_rest_same(pre, c, n);
        }
        pre.lemma_rest_bounds(c, n);
        assert(self.phi(k + 2) == self.phi(k + 1) + self.weight(k + 1));
        assert(self.phi(k + 1) == self.phi(k) + self.weight(k));
        assert(self.weight(k) == 1 + pre.rest_of(c, n) * (1 + w1));
        assert(self.weight(k + 1) <= w1);
        assert((pre.rest_of(c, n) + 1) * (1 + w1) == pre.rest_of(c, n) * (1 + w1) + (1 + w1))
            by (nonlinear_arith);
        // dead ends
        assert forall|c2: int| pre.dead_end(c2, m0) implies self.dead_end(c2, m0) by {
            covered.lemma_doom_grown(tried, pre, n, m, c2, m0);
        }
        assert(self.state_stack@ != seq![State::New]) by {
            assert(self.state_stack@.len() >= 2);
        }
    }

    /// The matrix does not depend on what the search changes.
    pub(crate) proof fn lemma_view_same(&self, pre: &PuzzleSolver)
        requires
            self.same_frame(pre),
            self.shadow@.col_rows == pre.shadow@.col_rows,
        ensures
            self@ == pre@,
    {
        assert(self@.columns =~= pre@.columns) by {
            assert forall|c: int| 0 <= c < pre.nc() implies self@.columns[c] == pre@.columns[c] by {
                assert(self.column_list@[c].column_type == pre.column_list@[c].column_type);
            }
        }
        assert(self@.budgets =~= pre@.budgets) by {
            assert forall|g: int| 0 <= g < pre.ng() implies self@.budgets[g] == pre@.budgets[g] by {
                assert(self.condition_state_list@[g].holes == pre.condition_state_list@[g].holes);
            }
        }
    }

    /// What is kept below `top` is kept below every smaller bound.
    pub(crate) proof fn lemma_below_lower(&self, pre: &PuzzleSolver, top: int, top2: int)
        requires
            self.below_kept(pre, top),
            top2 <= top,
        ensures
            self.below_kept(pre, top2),
    {
        assert forall|c: int| 0 <= c < self.nc() implies #[trigger] self.low_same(pre, top2, c) by {
            assert(self.low_same(pre, top, c));
        }
        assert forall|n: int| 0 <= n < self.nn() implies #[trigger] self.low_cell_same(
            pre,
            top2,
            n,
        ) by {
            assert(self.low_cell_same(pre, top, n));
        }
    }

    /// A dead end stays one while the other columns of a row on trial are
    /// covered: none of the cells of the row lies in it.
    pub(crate) proof fn lemma_doom_grown(
        &self,
        tried: &PuzzleSolver,
        pre: &PuzzleSolver,
        n: int,
        m: int,
        c2: int,
        m0: int,
    )
        requires
            pre.dead_end(c2, m0),
            tried.node_list@ == pre.node_list@,
            tried.nc() == pre.nc(),
            tried.column_list@ == pre.column_list@,
            tried.shadow@.vop == pre.shadow@.vop,
            tried.shadow@.cop == pre.shadow@.cop,
            tried.links(0),
            tried.rows_settled(),
            tried.is_cell(n),
            tried.shadow@.vop[n] < 0,
            tried.shadow@.cop[tried.col_of(n)] == m,
            tried.shadow@.ops.len() == m + 1,
            self.links(0),
            self.grown_cover(tried, m + 1),
            self.same_frame(tried),
            self.covering(
                tried.row_of(n),
                tried.shadow@.pos[n],
                m,
                tried.shadow@.row_nodes[tried.row_of(n)].len() as int,
            ),
            0 <= m0 <= m,
        ensures
            self.dead_end(c2, m0),
    {
        let r1 = tried.row_of(n);
        let p1 = tried.shadow@.pos[n];
        let rn = tried.shadow@.row_nodes[r1];
        let len = rn.len() as int;
        assert(tried.node_shape(n));
        assert(self.cop_ok(tried, m + 1, c2));
        assert(self.column_list@[c2].column_type == tried.column_list@[c2].column_type);
        if self.shadow@.cop[c2] >= 0 {
            // then `c2` is another column of the row on trial
            assert(self.column_links(c2, 0));
            let j = self.shadow@.cop[c2] - m;
            assert(1 <= j < len);
            let kk = Self::at(p1, j, len);
            tried.lemma_row_member(r1, kk);
            assert(Self::off(p1, kk, len) == j);
            let y = rn[kk] as int;
            assert(self.shadow@.cop[self.col_of(rn[kk] as int)] == m + j);
            assert(self.column_links(self.col_of(y), 0));
            assert(self.col_of(y) == c2);
            assert(tried.node_settled(n));
            assert(tried.node_settled_at(n, -1, -1, 0));
            assert(tried.vcop(-1, -1, tried.col_of(n)) == m);
            assert(tried.stamp_is(rn[kk] as int, m, n));
            assert(pre.shadow@.vop[y] < m0);
            assert(false);
        }
        assert forall|x: int| self.is_cell(x) && self.col_of(x) == c2 implies 0
            <= #[trigger] self.shadow@.vop[x] < m0 by {
            assert(self.kill_ok(tried, m + 1, x));
            assert(0 <= pre.shadow@.vop[x] < m0);
        }
    }

    /// After the column picked to branch on has been covered: what it
    /// takes to put its first row on trial.
    #[verifier::rlimit(100)]
    proof fn lemma_branch_ready(&self, mid: &PuzzleSolver, c: int, m0: int)
        requires
            mid.links(0),
            mid.rows_settled(),
            mid.committed(),
            mid.frames_below(mid.state_stack@.len() as int, mid.shadow@.ops.len() as int),
            mid.candidate(c),
            0 <= m0 <= mid.shadow@.ops.len(),
            self.links(0),
            self.rows_settled(),
            self.same_frame(mid),
            self.shadow@ == (Shadow {
                ops: mid.shadow@.ops.push(c),
                cop: mid.shadow@.cop.update(c, mid.shadow@.ops.len() as int),
                hop: self.shadow@.hop,
                hsub: self.shadow@.hsub,
                vop: self.shadow@.vop,
                vsub: self.shadow@.vsub,
                ..mid.shadow@
            }),
            self.cover_delta(mid, mid.shadow@.ops.len() as int, mid.nn(), -1),
            self.dead_kept(mid),
            self.hchain() == if mid.kind_of(c) == ColumnType::Constraint {
                mid.hchain()
            } else {
                mid.hchain().unlinked(mid.head_of(c), mid.shadow@.ops.len() as int, 0)
            },
        ensures
            self.committed_except(c),
            self.frames_below(self.state_stack@.len() as int, self.shadow@.ops.len() - 1),
            self.budget() == mid.budget(),
            self@ == mid@,
            self.phi(self.state_stack@.len() as int) == mid.phi(mid.state_stack@.len() as int),
            forall|c2: int| mid.dead_end(c2, m0) ==> self.dead_end(c2, m0),
            self.down@[self.head_of(c)] != self.head_of(c),
            self.is_cell(self.down@[self.head_of(c)] as int),
            self.col_of(self.down@[self.head_of(c)] as int) == c,
            self.shadow@.vop[self.down@[self.head_of(c)] as int] < 0,
            self.rest_of(c, self.down@[self.head_of(c)] as int) + 1 == mid.column_list@[c].count,
            mid.column_list@[c].count <= mid.nn(),
            mid.budget() - mid.shadow@.ops.len() >= 1,
    {
        let top = mid.shadow@.ops.len() as int;
        let k = mid.state_stack@.len() as int;
        let h = self.head_of(c);
        self.lemma_grown_one(mid, c);
        self.lemma_below_grown(mid, top, top);
        self.lemma_frames_kept(mid, k, top);
        self.lemma_open_flip(mid, c, mid.nc());
        self.lemma_view_same(mid);
        self.lemma_phi_kept(mid, k, top);
        mid.lemma_open_witness(c, mid.nc());
        // the bookkeeping of chosen rows
        assert forall|c2: int| 0 <= c2 < self.nc() && c2 != c implies #[trigger] self.column_settled(
            c2,
        ) by {
            assert(mid.column_settled(c2));
        }
        assert forall|r: int| 0 <= r < self.nr() implies #[trigger] self.row_settled(r) by {
            assert(mid.row_settled(r));
        }
        assert forall|y: int| self.is_cell(y) && self.col_of(y) == c implies !(
        #[trigger] self.row_list@[self.row_of(y)]).chosen by {
            assert(mid.node_shape(y));
            let r = mid.row_of(y);
            if mid.row_list@[r].chosen {
                assert(mid.row_settled(r));
                let kk = mid.shadow@.pos[y];
                assert(mid.shadow@.row_nodes[r][kk] == y);
                assert(mid.shadow@.cover_cell[mid.col_of(mid.shadow@.row_nodes[r][kk] as int)]
                    == y);
                assert(mid.column_settled(c));
                assert(false);
            }
        }
        // the cells of the column are as they were
        assert forall|x: int| self.is_cell(x) && self.col_of(x) == c implies self.shadow@.vop[x]
            == mid.shadow@.vop[x] by {
            self.lemma_cover_keeps_own(mid, c, x);
        }
        mid.lemma_count_zero(c);
        self.lemma_count_zero(c);
        assert(self.column_shape(c));
        assert(self.column_links(c, 0));
        assert(mid.column_links(c, 0));
        assert(self.node_shape(h));
        assert(self.vchain().node_ok(h));
        crate::chain::lemma_empty_list(self.vchain(), h);
        assert forall|x: int| 0 <= x < mid.nn() && mid.vchain().home[x] == h && x != h implies (
        mid.vchain().alive(x) <==> self.vchain().alive(x)) by {
            mid.lemma_member_is_cell(c, x);
            self.lemma_cover_keeps_own(mid, c, x);
        }
        crate::chain::lemma_linked_below_same(mid.vchain(), self.vchain(), h, mid.nn());
        let first = self.down@[h] as int;
        assert(first != h);
        self.lemma_member_is_cell(c, first);
        assert forall|x: int|
            0 <= x < first && #[trigger] self.vchain().home[x] == h && x
                != h implies !self.vchain().alive(x) by {
            assert(self.vchain().node_ok(x));
        }
        crate::chain::lemma_linked_below_gap(self.vchain(), h, 0, first);
        crate::chain::lemma_linked_below_bounds(mid.vchain(), h, mid.nn());
        // dead ends
        assert forall|c2: int| mid.dead_end(c2, m0) implies self.dead_end(c2, m0) by {
            mid.lemma_count_zero(c2);
            assert(c2 != c);
            assert(self.column_list@[c2].column_type == mid.column_list@[c2].column_type);
            assert forall|x: int| self.is_cell(x) && self.col_of(x) == c2 implies 0
                <= #[trigger] self.shadow@.vop[x] < m0 by {
                assert(self.kill_ok(mid, top, x));
            }
        }
    }

    /// Works off a request for another level: hands out the chosen rows if
    /// they are a solution, gives up if the branch is dead, and else covers
    /// the column to branch on and puts its first row on trial.
    #[verifier::rlimit(100)]
    pub(crate) fn descend(&mut self, Ghost(m0): Ghost<int>) -> (r: Option<Vec<usize>>)
        requires
            old(self).links(0),
            old(self).rows_settled(),
            old(self).committed(),
            old(self).frames_below(
                old(self).state_stack@.len() as int,
                old(self).shadow@.ops.len() as int,
            ),
            old(self).no_new_below(old(self).state_stack@.len() as int),
            0 <= m0 <= old(self).shadow@.ops.len(),
        ensures
            final(self).sound(),
            final(self)@ == old(self)@,
            final(self).nn() == old(self).nn(),
            final(self).ng() == old(self).ng(),
            final(self).budget() == old(self).budget(),
            final(self).stack_extends(old(self)),
            final(self).started() || final(self).state_stack@.len() == 0,
            (r is Some) == (old(self).within_budget() && old(self).complete()),
            match r {
                Some(v) => {
                    &&& final(self).state_stack@ == old(self).state_stack@
                    &&& final(self).lists_chosen(v@)
                    &&& final(self)@.is_solution(final(self).chosen_set())
                    &&& forall|r: int| final(self).is_chosen(r) == old(self).is_chosen(r)
                },
                None => final(self).phi(final(self).state_stack@.len() as int) < old(self).phi(
                    old(self).state_stack@.len() as int,
                ) + work(
                    old(self).nn(),
                    old(self).ng(),
                    old(self).budget() - old(self).shadow@.ops.len(),
                ),
            },
            forall|c: int| old(self).dead_end(c, m0) ==> final(self).dead_end(c, m0),
            old(self).state_stack@.len() == 0 && final(self).state_stack@.len() >= 1
                ==> final(self).shadow@.marks[0] == old(self).shadow@.ops.len(),
            final(self).kept(old(self), old(self).shadow@.ops.len() as int),
            final(self).rested(old(self)) || final(self).branched(old(self)),
            final(self).rested(old(self)) && old(self).within_budget() && !old(self).complete()
                ==> old(self).blocked() || forall|c: int|
                old(self).kind_of(c) == ColumnType::Unique ==> !#[trigger] old(self).candidate(c),
            old(self).chains_ok() ==> final(self).chains_ok(),
            final(self).rested(old(self)) ==> final(self).shadow@.ops.len() == old(
                self,
            ).shadow@.ops.len(),
            old(self).chains_ok() && old(self).at_rest(old(self).state_stack@.len() as int, m0)
                && old(self).leads_upto(old(self).state_stack@.len() as int, m0)
                ==> final(self).leads_upto(final(self).state_stack@.len() as int, m0),
    {
        let ghost base = *self;
        let ghost k = self.state_stack@.len() as int;
        let ghost top = self.shadow@.ops.len() as int;
        let ghost u = self.budget() - top;
        proof {
            lemma_work_floor(self.nn(), self.ng(), u);
            self.lemma_primary_empty();
            self.lemma_stack_settled();
            self.lemma_kept_same(&base, top);
            assert(self.rested(&base));
        }
        if self.over_budget() {
            return None;
        }
        if self.right[0] == 0 {
            proof {
                self.lemma_emit();
            }
            return Some(self.chosen_rows());
        }
        self.raise_triggers();
        let ghost mid = *self;
        proof {
            self.lemma_soft_change(&base);
            self.lemma_below_lower(&base, top, top);
            self.lemma_frames_kept(&base, k, top);
            self.lemma_frames_extend(k, top);
            self.lemma_phi_kept(&base, k, top);
            self.lemma_phi_triggers(k, top, self.state_stack@.len() as int);
            self.lemma_stack_settled();
            self.lemma_kept_same(&base, top);
            self.lemma_soft_stuck(&base);
            assert(self.rested(&base)) by {
                assert forall|i: int|
                    base.state_stack@.len() <= i < self.state_stack@.len() implies (
                    #[trigger] self.state_stack@[i]) is TriggerChaining by {}
            }
            if base.leads_upto(k, m0) {
                self.lemma_led_raised(&base, top, m0);
            }
        }
        match self.pick_best_column() {
            None => {
                return None;
            },
            Some(best_column) => {
                self.remove_column(best_column);
                proof {
                    self.lemma_branch_ready(&mid, best_column as int, m0);
                    assert(self.column_shape(best_column as int));
                    lemma_work_split(
                        mid.nn(),
                        mid.ng(),
                        u,
                        mid.column_list@[best_column as int].count as int,
                    );
                }
                let column_head = self.column_list[best_column].head;
                let row_node = self.down[column_head];
                let ghost covered = *self;
                if row_node != column_head {
                    self.try_row(best_column, row_node, Ghost(m0));
                    proof {
                        self.lemma_branched(&covered, &mid, &base, best_column as int, row_node as int);
                        if base.chains_ok() && base.at_rest(k, m0) && base.leads_upto(k, m0) {
                            covered.lemma_kept_cover(&mid, best_column as int);
                            self.lemma_kept_trans(&covered, &mid, top);
                            if k == 0 && mid.state_stack@.len() >= 1 {
                                assert(mid.state_stack@[0] is TriggerChaining);
                            }
                            self.lemma_led_branched(
                                &mid,
                                &base,
                                best_column as int,
                                row_node as int,
                                m0,
                            );
                        }
                        self.lemma_stack_extends_trans(&covered, &base);
                        if k == 0 && mid.state_stack@.len() >= 1 {
                            assert(mid.state_stack@[0] is TriggerChaining);
                            assert(self.shadow@.marks[0] == covered.shadow@.marks[0]);
                        }
                    }
                }
                return None;
            },
        }
    }

    /// A stack that holds no request for another level is not the stack of
    /// a search that has not begun.
    pub(crate) proof fn lemma_stack_settled(&self)
        requires
            self.no_new_below(self.state_stack@.len() as int),
        ensures
            self.started() || self.state_stack@.len() == 0,
    {
        if self.state_stack@.len() > 0 {
            assert(self.state_stack@[0] != State::New);
            assert(seq![State::New][0] == State::New);
        }
    }

    pub(crate) proof fn lemma_stack_extends_trans(&self, mid: &PuzzleSolver, pre: &PuzzleSolver)
        requires
            self.stack_extends(mid),
            mid.stack_extends(pre) || (mid.state_stack@ == pre.state_stack@ && mid.shadow@.marks
                == pre.shadow@.marks && pre.shadow@.marks.len() == pre.state_stack@.len()),
        ensures
            self.stack_extends(pre),
    {
        assert forall|i: int| 0 <= i < pre.state_stack@.len() implies #[trigger] self.state_stack@[i]
            == pre.state_stack@[i] by {
            assert(mid.state_stack@[i] == pre.state_stack@[i]);
        }
        assert forall|i: int| 0 <= i < pre.state_stack@.len() implies #[trigger] self.shadow@.marks[i]
            == pre.shadow@.marks[i] by {
            assert(mid.shadow@.marks[i] == pre.shadow@.marks[i]);
        }
    }

    /// A dead end stays one while covers are undone.
    pub(crate) proof fn lemma_doom_shrunk(&self, pre: &PuzzleSolver, d0: int, c2: int, m0: int)
        requires
            pre.dead_end(c2, m0),
            self.shrunk_cover(pre, d0),
            self.same_frame(pre),
            0 <= m0 <= d0,
        ensures
            self.dead_end(c2, m0),
    {
        assert(self.uncop_ok(pre, d0, c2));
        assert(self.column_list@[c2].column_type == pre.column_list@[c2].column_type);
        assert forall|x: int| self.is_cell(x) && self.col_of(x) == c2 implies 0
            <= #[trigger] self.shadow@.vop[x] < m0 by {
            assert(self.revive_ok(pre, d0, x));
            assert(0 <= pre.shadow@.vop[x] < m0);
        }
    }

    /// What a choice frame on top of the stack says of the state: the
    /// columns of the row on trial are covered for it, by the last
    /// operations.
    pub(crate) open spec fn on_trial(&self, c: int, n: int, m: int) -> bool {
        let r = self.row_of(n);
        let rn = self.shadow@.row_nodes[r];
        let p = self.shadow@.pos[n];
        &&& 0 <= c < self.nc()
        &&& self.is_cell(n)
        &&& self.col_of(n) == c
        &&& self.shadow@.vop[n] < 0
        &&& self.shadow@.ops.len() == m + rn.len()
        &&& self.row_list@[r].chosen
        &&& self.shadow@.floor <= m
        &&& forall|j: int|
            0 <= j < rn.len() ==> self.shadow@.cop[self.col_of(#[trigger] rn[j] as int)] == m
                + Self::off(p, j, rn.len() as int)
    }

    /// After the other columns of the row on trial have been uncovered and
    /// the row is no longer marked as chosen.
    #[verifier::rlimit(100)]
    proof fn lemma_trial_over(&self, bare: &PuzzleSolver, pre: &PuzzleSolver, c: int, n: int, m0: int)
        requires
            pre.links(0),
            pre.rows_settled(),
            pre.committed(),
            pre.frames_below(pre.state_stack@.len() as int, bare.shadow@.ops.len() - 1),
            pre.on_trial(c, n, bare.shadow@.ops.len() - 1),
            0 <= m0 <= bare.shadow@.ops.len() - 1,
            bare.links(0),
            bare.rows_settled(),
            bare.committed_but(pre.row_of(n)),
            bare.covering(pre.row_of(n), pre.shadow@.pos[n], bare.shadow@.ops.len() - 1, 1),
            bare.shrunk_cover(pre, bare.shadow@.ops.len() as int),
            bare.budget() == pre.budget(),
            bare.same_frame(pre),
            self.node_list@ == bare.node_list@,
            self.column_list@ == bare.column_list@,
            self.condition_state_list@ == bare.condition_state_list@,
            self.up@ == bare.up@,
            self.down@ == bare.down@,
            self.left@ == bare.left@,
            self.right@ == bare.right@,
            self.state_stack@ == bare.state_stack@,
            self.shadow@ == bare.shadow@,
            self.row_list@ == bare.row_list@.update(
                pre.row_of(n),
                Row { head: bare.row_list@[pre.row_of(n)].head, chosen: false },
            ),
        ensures
            self.links(0),
            self.rows_settled(),
            self.committed_except(c),
            self.frames_below(self.state_stack@.len() as int, self.shadow@.ops.len() - 1),
            self.budget() == pre.budget(),
            self@ == pre@,
            self.phi(self.state_stack@.len() as int) == pre.phi(pre.state_stack@.len() as int),
            forall|c2: int| pre.dead_end(c2, m0) ==> self.dead_end(c2, m0),
            self.shadow@.cop[c] == self.shadow@.ops.len() - 1,
            self.shadow@.vop[n] < 0,
            self.rest_of(c, n) == pre.rest_of(c, n),
            self.below_kept(pre, self.shadow@.ops.len() - 1),
    {
        let r0 = pre.row_of(n);
        let p0 = pre.shadow@.pos[n];
        let m = bare.shadow@.ops.len() - 1;
        let k = pre.state_stack@.len() as int;
        let rn = pre.shadow@.row_nodes[r0];
        let len = rn.len() as int;
        assert(pre.node_shape(n));
        assert(rn[p0] == n);
        assert(Self::off(p0, p0, len) == 0);
        self.lemma_flag_set(bare, r0);
        assert(bare.shadow@.cop[bare.col_of(rn[p0] as int)] == m);
        assert(bare.shadow@.cover_cell[bare.col_of(rn[p0] as int)] == n);
        // the bookkeeping of chosen rows
        assert forall|c2: int| 0 <= c2 < self.nc() && c2 != c implies #[trigger] self.column_settled(
            c2,
        ) by {
            assert(bare.column_settled_but(c2, r0));
            let x = bare.shadow@.cover_cell[c2];
            if bare.shadow@.cop[c2] >= 0 {
                assert(bare.node_shape(x));
                if bare.row_of(x) == r0 {
                    let kk = bare.shadow@.pos[x];
                    assert(rn[kk] == x);
                    if kk != p0 {
                        assert(Self::off(p0, kk, len) >= 1);
                        assert(bare.shadow@.cop[bare.col_of(rn[kk] as int)] < 0);
                    }
                    assert(false);
                }
                assert(self.row_list@[bare.row_of(x)] == bare.row_list@[bare.row_of(x)]);
            }
        }
        assert forall|r: int| 0 <= r < self.nr() implies #[trigger] self.row_settled(r) by {
            if r != r0 {
                assert(bare.row_settled(r));
                assert(self.row_list@[r] == bare.row_list@[r]);
            }
        }
        assert forall|y: int| self.is_cell(y) && self.col_of(y) == c implies !(
        #[trigger] self.row_list@[self.row_of(y)]).chosen by {
            assert(bare.node_shape(y));
            let r = bare.row_of(y);
            if r != r0 {
                assert(self.row_list@[r] == bare.row_list@[r]);
                if bare.row_list@[r].chosen {
                    assert(bare.row_settled(r));
                    let kk = bare.shadow@.pos[y];
                    assert(bare.shadow@.row_nodes[r][kk] == y);
                    assert(bare.shadow@.cover_cell[bare.col_of(
                        bare.shadow@.row_nodes[r][kk] as int,
                    )] == y);
                    assert(pre.node_shape(y));
                    assert(false);
                }
            }
        }
        // the frames below
        bare.lemma_below_shrunk(pre, m + 1, m);
        assert forall|kk: int| 0 <= kk < rn.len() implies !(0 <= bare.shadow@.cop[bare.col_of(
            #[trigger] rn[kk] as int,
        )] < m) by {
            if kk != p0 {
                assert(Self::off(p0, kk, len) >= 1);
            }
        }
        self.lemma_below_flag(bare, r0, m);
        self.lemma_below_trans(bare, pre, m);
        self.lemma_frames_kept(pre, k, m);
        self.lemma_open_same(bare, bare.nc());
        self.lemma_phi_kept(pre, k, m);
        bare.lemma_view_same(pre);
        assert(self@.columns =~= bare@.columns);
        assert(self@.budgets =~= bare@.budgets);
        // the column branched on
        assert(bare.revive_ok(pre, m + 1, n));
        assert forall|x: int|
            0 <= x < pre.nn() && #[trigger] pre.shadow@.vhome[x] == pre.head_of(c) && x
                != pre.head_of(c) implies (self.shadow@.vop[x] < 0) == (pre.shadow@.vop[x] < 0) by {
            pre.lemma_member_is_cell(c, x);
            assert(bare.revive_ok(pre, m + 1, x));
        }
        assert(self.column_list@[c].head == pre.column_list@[c].head);
        self.lemma_rest_same(pre, c, n);
        // dead ends
        assert forall|c2: int| pre.dead_end(c2, m0) implies self.dead_end(c2, m0) by {
            bare.lemma_doom_shrunk(pre, m + 1, c2, m0);
        }
    }

    /// After the column branched on has been uncovered too: the branch is
    /// worked off.
    #[verifier::rlimit(100)]
    proof fn lemma_branch_over(&self, cleared: &PuzzleSolver, c: int, m0: int)
        requires
            cleared.links(0),
            cleared.rows_settled(),
            cleared.committed_except(c),
            cleared.frames_below(
                cleared.state_stack@.len() as int,
                cleared.shadow@.ops.len() - 1,
            ),
            cleared.no_new_below(cleared.state_stack@.len() as int),
            0 <= c < cleared.nc(),
            cleared.shadow@.ops.len() >= 1,
            cleared.shadow@.cop[c] == cleared.shadow@.ops.len() - 1,
            cleared.shadow@.floor <= cleared.shadow@.ops.len() - 1,
            0 <= m0 <= cleared.shadow@.ops.len() - 1,
            self.links(0),
            self.rows_settled(),
            self.same_frame(cleared),
            self.shrunk_cover(cleared, cleared.shadow@.ops.len() - 1),
            self.shadow@.ops == cleared.shadow@.ops.drop_last(),
            self.shadow@.cop == cleared.shadow@.cop.update(c, -1),
            self.shadow@.cover_cell == cleared.shadow@.cover_cell.update(c, -1),
            self.budget() == cleared.budget(),
        ensures
            self.sound(),
            self@ == cleared@,
            self.phi(self.state_stack@.len() as int) == cleared.phi(
                cleared.state_stack@.len() as int,
            ),
            forall|c2: int| cleared.dead_end(c2, m0) ==> self.dead_end(c2, m0),
            self.started() || self.state_stack@.len() == 0,
            self.stack_extends(cleared),
    {
        let m = cleared.shadow@.ops.len() - 1;
        let k = cleared.state_stack@.len() as int;
        assert forall|c2: int| 0 <= c2 < self.nc() implies #[trigger] self.column_settled(c2) by {
            if c2 != c {
                assert(cleared.column_settled(c2));
            }
        }
        assert forall|r: int| 0 <= r < self.nr() implies #[trigger] self.row_settled(r) by {
            assert(cleared.row_settled(r));
            let rr = cleared.shadow@.row_nodes[r];
            if cleared.row_list@[r].chosen {
                assert forall|kk: int| 0 <= kk < rr.len() implies self.shadow@.cover_cell[self.col_of(
                    #[trigger] rr[kk] as int,
                )] == rr[kk] by {
                    cleared.lemma_row_member(r, kk);
                    let y = rr[kk] as int;
                    if cleared.col_of(y) == c {
                        assert(!cleared.row_list@[cleared.row_of(y)].chosen);
                    }
                }
            }
        }
        self.lemma_below_shrunk(cleared, m, m);
        self.lemma_frames_kept(cleared, k, m);
        assert forall|i: int| 0 <= i < self.state_stack@.len() implies #[trigger] self.frame_ok(
            i,
        ) by {
            assert(self.frame_ok_in(i, k, m));
        }
        self.lemma_phi_kept(cleared, k, m);
        self.lemma_view_same(cleared);
        assert forall|c2: int| cleared.dead_end(c2, m0) implies self.dead_end(c2, m0) by {
            self.lemma_doom_shrunk(cleared, m, c2, m0);
        }
        assert forall|i: int| 0 <= i < k implies #[trigger] self.state_stack@[i] != State::New by {
            assert(cleared.state_stack@[i] != State::New);
        }
        self.lemma_stack_settled();
    }

    /// Works off a choice frame: takes the row on trial back and puts the
    /// next row of the column on trial, or, if there is none, uncovers the
    /// column.
    #[verifier::rlimit(100)]
    pub(crate) fn advance(
        &mut self,
        current_column: usize,
        current_row_node: usize,
        Ghost(m): Ghost<int>,
        Ghost(m0): Ghost<int>,
    )
        requires
            old(self).links(0),
            old(self).rows_settled(),
            old(self).committed(),
            old(self).frames_below(old(self).state_stack@.len() as int, m),
            old(self).no_new_below(old(self).state_stack@.len() as int),
            old(self).on_trial(current_column as int, current_row_node as int, m),
            0 <= m0 <= m,
        ensures
            final(self).sound(),
            final(self)@ == old(self)@,
            final(self).nn() == old(self).nn(),
            final(self).ng() == old(self).ng(),
            final(self).budget() == old(self).budget(),
            final(self).stack_extends(old(self)),
            final(self).started() || final(self).state_stack@.len() == 0,
            final(self).phi(final(self).state_stack@.len() as int) < old(self).phi(
                old(self).state_stack@.len() as int,
            ) + 1 + old(self).rest_of(current_column as int, current_row_node as int) * (1 + work(
                old(self).nn(),
                old(self).ng(),
                old(self).budget() - m - 1,
            )),
            forall|c: int| old(self).dead_end(c, m0) ==> final(self).dead_end(c, m0),
            old(self).state_stack@.len() == 0 && final(self).state_stack@.len() >= 1
                ==> final(self).shadow@.marks[0] == m,
            final(self).kept(old(self), m),
            final(self).gave_up(old(self), current_column as int, current_row_node as int, m)
                || final(self).moved_on(
                old(self),
                current_column as int,
                current_row_node as int,
                m,
            ),
            old(self).chains_ok() ==> final(self).chains_ok(),
            old(self).leads_upto(old(self).state_stack@.len() as int, m0) && old(self)@.leads(
                old(self).start_of(m0),
                old(self).trail(old(self).state_stack@.len() as int),
                current_column as int,
            ) ==> final(self).leads_upto(final(self).state_stack@.len() as int, m0),
    {
        let ghost pre = *self;
        let ghost c = current_column as int;
        let ghost n = current_row_node as int;
        let ghost r0 = self.row_of(n);
        let ghost p0 = self.shadow@.pos[n];
        let ghost rn = self.shadow@.row_nodes[r0];
        let ghost len = rn.len() as int;
        let ghost w1 = work(self.nn(), self.ng(), self.budget() - m - 1);
        proof {
            assert(self.node_shape(n));
            assert(self.row_settled(r0));
            assert(self.covering(r0, p0, m, len)) by {
                assert forall|j: int| 0 <= j < rn.len() implies if Self::off(p0, j, len) < len {
                    &&& self.shadow@.cop[self.col_of(#[trigger] rn[j] as int)] == m + Self::off(
                        p0,
                        j,
                        len,
                    )
                    &&& self.shadow@.cover_cell[self.col_of(rn[j] as int)] == rn[j]
                } else {
                    self.shadow@.cop[self.col_of(rn[j] as int)] < 0
                } by {}
            }
            assert forall|c2: int| 0 <= c2 < self.nc() implies #[trigger] self.column_settled_but(
                c2,
                r0,
            ) by {
                assert(self.column_settled(c2));
            }
            self.lemma_shrunk_refl(m + 1);
            lemma_work_floor(self.nn(), self.ng(), self.budget() - m - 1);
            self.lemma_rest_bounds(c, n);
            assert(pre.rest_of(c, n) * (1 + w1) >= 0) by (nonlinear_arith)
                requires
                    pre.rest_of(c, n) >= 0,
                    w1 >= 0,
            ;
        }
        self.uncover_others(current_row_node, Ghost(pre), Ghost(m + 1), Ghost(m));
        let ghost bare = *self;
        let row = self.node_list[current_row_node].row;
        self.row_list[row].chosen = false;
        proof {
            self.lemma_trial_over(&bare, &pre, c, n, m0);
            assert(self.column_shape(c));
            assert(self.node_shape(n));
            assert(self.vchain().node_ok(n));
            assert(self.vchain().node_ok(self.head_of(c)));
            self.lemma_kept_back(&bare, &pre, c, n, m);
            self.lemma_gap(c, n, m);
        }
        let ghost cleared = *self;
        let row_node = self.down[current_row_node];
        if row_node == self.column_list[current_column].head {
            proof {
                self.lemma_shrunk_refl(m);
            }
            self.uncover_for(current_column, Ghost(cleared), Ghost(m));
            proof {
                self.lemma_branch_over(&cleared, c, m0);
                self.lemma_stack_extends_trans(&cleared, &pre);
                self.lemma_gave_up(&cleared, &pre, c, n, m);
                if pre.leads_upto(pre.state_stack@.len() as int, m0) && pre@.leads(
                    pre.start_of(m0),
                    pre.trail(pre.state_stack@.len() as int),
                    c,
                ) {
                    self.lemma_led_advanced(&pre, c, n, m, m0);
                }
                if pre.chains_ok() {
                    assert forall|g: int| 0 <= g < self.ng() implies #[trigger] self.flag_same(
                        &pre,
                        g,
                    ) by {
                        assert(self.condition_state_list@[g].chaining
                            == cleared.condition_state_list@[g].chaining);
                        assert(bare.condition_state_list@[g].chaining
                            == pre.condition_state_list@[g].chaining);
                    }
                    self.lemma_chains_kept(&pre, m);
                }
            }
        } else {
            proof {
                self.lemma_member_is_cell(c, row_node as int);
                // one row less is left to try
                let h = self.head_of(c);
                assert forall|x: int|
                    n + 1 <= x < row_node && #[trigger] self.vchain().home[x] == h && x
                        != h implies !self.vchain().alive(x) by {}
                crate::chain::lemma_linked_below_gap(self.vchain(), h, n + 1, row_node as int);
                assert(self.rest_of(c, row_node as int) + 1 == self.rest_of(c, n));
            }
            self.try_row(current_column, row_node, Ghost(m0));
            proof {
                self.lemma_stack_extends_trans(&cleared, &pre);
                self.lemma_moved_on(&cleared, &pre, c, n, row_node as int, m);
                if pre.leads_upto(pre.state_stack@.len() as int, m0) && pre@.leads(
                    pre.start_of(m0),
                    pre.trail(pre.state_stack@.len() as int),
                    c,
                ) {
                    self.lemma_led_advanced(&pre, c, n, m, m0);
                }
                if pre.chains_ok() {
                    assert forall|g: int| 0 <= g < self.ng() implies #[trigger] self.flag_same(
                        &pre,
                        g,
                    ) by {
                        assert(self.flag_same(&cleared, g));
                        assert(bare.condition_state_list@[g].chaining
                            == pre.condition_state_list@[g].chaining);
                    }
                    self.lemma_chains_kept(&pre, m);
                }
            }
        }
    }

    /// No mark is below the mark of the bottom frame.
    pub(crate) proof fn lemma_marks_bottom(&self, k: int, top: int, i: int)
        requires
            self.frames_below(k, top),
            0 <= i < k,
        ensures
            self.shadow@.marks[0] <= self.shadow@.marks[i],
        decreases i,
    {
        if i > 0 {
            self.lemma_marks_bottom(k, top, i - 1);
            assert(self.frame_ok_in(i - 1, k, top));
        }
    }

    /// The state after the top frame has been taken off the stack.
    #[verifier::rlimit(60)]
    proof fn lemma_popped(&self, pre: &PuzzleSolver)
        requires
            pre.sound(),
            pre.state_stack@.len() >= 1,
            self.node_list@ == pre.node_list@,
            self.row_list@ == pre.row_list@,
            self.column_list@ == pre.column_list@,
            self.condition_state_list@ == pre.condition_state_list@,
            self.up@ == pre.up@,
            self.down@ == pre.down@,
            self.left@ == pre.left@,
            self.right@ == pre.right@,
            self.state_stack@ == pre.state_stack@.drop_last(),
            self.shadow@ == (Shadow { marks: pre.shadow@.marks.drop_last(), ..pre.shadow@ }),
        ensures
            self.links(0),
            self.rows_settled(),
            self.committed(),
            self.budget() == pre.budget(),
            self@ == pre@,
            self.frames_below(
                self.state_stack@.len() as int,
                pre.shadow@.marks[pre.state_stack@.len() - 1],
            ),
            self.no_new_below(self.state_stack@.len() as int),
            self.phi(self.state_stack@.len() as int) + pre.weight(pre.state_stack@.len() - 1)
                == pre.phi(pre.state_stack@.len() as int),
            forall|c: int, m0: int| pre.dead_end(c, m0) ==> self.dead_end(c, m0),
            self.within_budget() == pre.within_budget(),
            self.complete() == pre.complete(),
            forall|r: int| self.is_chosen(r) == pre.is_chosen(r),
            pre.shadow@.marks[0] <= pre.shadow@.marks[pre.state_stack@.len() - 1]
                <= pre.shadow@.ops.len(),
            0 <= pre.shadow@.marks[0],
            pre.weight(pre.state_stack@.len() - 1) == (match pre.state_stack@[
                pre.state_stack@.len() - 1] {
                State::New => work(
                    self.nn(),
                    self.ng(),
                    self.budget() - self.shadow@.ops.len(),
                ),
                State::TriggerChaining(_) => 1,
                State::CurrentState(c, n) => 1 + self.rest_of(c as int, n as int) * (1 + work(
                    self.nn(),
                    self.ng(),
                    self.budget() - pre.shadow@.marks[pre.state_stack@.len() - 1] - 1,
                )),
            }),
            match pre.state_stack@[pre.state_stack@.len() - 1] {
                State::New => pre.shadow@.marks[pre.state_stack@.len() - 1]
                    == pre.shadow@.ops.len(),
                State::TriggerChaining(g) => g < pre.ng() && pre.shadow@.marks[
                    pre.state_stack@.len() - 1] == pre.shadow@.ops.len(),
                State::CurrentState(c, n) => self.on_trial(
                    c as int,
                    n as int,
                    pre.shadow@.marks[pre.state_stack@.len() - 1],
                ),
            },
    {
        let k = pre.state_stack@.len() - 1;
        let top = pre.shadow@.ops.len() as int;
        let m = pre.shadow@.marks[k];
        self.lemma_soft_change(pre);
        assert(pre.frame_ok(k));
        assert(pre.frame_ok(0));
        assert(self.vchain() == pre.vchain());
        assert forall|i: int| 0 <= i < k + 1 implies #[trigger] pre.frame_ok_in(i, k + 1, top) by {
            assert(pre.frame_ok(i));
        }
        pre.lemma_marks_bottom(k + 1, top, k);
        pre.lemma_marks_rise(k + 1, top, k);
        assert forall|i: int| 0 <= i < k implies #[trigger] pre.frame_ok_in(i, k, m) by {
            assert(pre.frame_ok(i));
        }
        assert forall|i: int| 0 <= i < k implies #[trigger] pre.state_stack@[i] != State::New by {
            assert(pre.frame_ok(i));
        }
        self.lemma_below_lower(pre, top, m);
        self.lemma_frames_kept(pre, k, m);
        self.lemma_phi_kept(pre, k, m);
        assert forall|i: int| 0 <= i < k implies #[trigger] self.state_stack@[i] != State::New by {
            assert(pre.state_stack@[i] != State::New);
        }
    }

    /// Gives the next solution: the rows of an exact cover, in ascending
    /// order; none when the search is over. The exact cover that is handed
    /// out was to come and is to come no longer, and comes before all the
    /// others in the order of the search; every other exact cover is to
    /// come after the call exactly if it was before.
    #[verifier::rlimit(100)]
    pub fn solve_next(&mut self) -> (r: Option<Vec<usize>>)
        requires
            old(self).wf(),
        ensures
            final(self).wf(),
            final(self)@ == old(self)@,
            final(self).started(),
            match r {
                Some(v) => final(self).lists_chosen(v@) && final(self)@.is_solution(
                    final(self).chosen_set(),
                ),
                None => final(self).exhausted(),
            },
            old(self).exhausted() ==> r is None,
            !old(self).started() && old(self).within_budget() && old(self).complete() ==> r is Some
                && final(self).exhausted() && forall|r: int|
                final(self).is_chosen(r) == old(self).is_chosen(r),
            old(self).doomed() ==> r is None,
            forall|s: Set<int>|
                #[trigger] old(self).to_come(s) ==> final(self).to_come(s) || (
                r is Some && s == final(self).chosen_set()),
            forall|s: Set<int>|
                #[trigger] final(self).to_come(s) ==> old(self).to_come(s),
            r is Some ==> old(self).to_come(final(self).chosen_set())
                && !final(self).to_come(final(self).chosen_set()),
            final(self).is_next_of(
                old(self),
                match r {
                    Some(v) => Some(v@),
                    None => None,
                },
            ),
            final(self).search_kept(old(self)),
    {
        let ghost m0 = if self.state_stack@.len() >= 1 {
            self.shadow@.marks[0]
        } else {
            0
        };
        let ghost mut fresh = true;
        let ghost base = self.base();
        proof {
            if self.state_stack@.len() >= 1 {
                assert(self.frame_ok(0));
            }
            self.lemma_kept_same(old(self), base);
        }
        loop
            invariant
                self.sound(),
                self@ == old(self)@,
                0 <= m0,
                self.state_stack@.len() >= 1 ==> self.shadow@.marks[0] == m0,
                fresh ==> self.state_stack@ == old(self).state_stack@ && self.within_budget()
                    == old(self).within_budget() && self.complete() == old(self).complete()
                    && forall|r: int| self.is_chosen(r) == old(self).is_chosen(r),
                !fresh ==> self.started(),
                !fresh ==> !old(self).exhausted(),
                !fresh ==> old(self).started() || !(old(self).within_budget() && old(
                    self,
                ).complete()),
                forall|c: int| old(self).dead_end(c, m0) ==> self.dead_end(c, m0),
                old(self).state_stack@.len() >= 1 ==> m0 == old(self).shadow@.marks[0],
                self.ng() == old(self).ng(),
                self.chains_ok(),
                self.leads_upto(self.state_stack@.len() as int, m0),
                self.start_of(m0) == old(self).start_of(m0),
                base == old(self).base(),
                self.kept(old(self), base),
                self.state_stack@.len() == 0 ==> self.shadow@.ops.len() == base,
                forall|s: Set<int>|
                    #[trigger] old(self).to_come(s) ==> self.to_come_from(
                        s,
                        m0,
                    ),
                forall|s: Set<int>|
                    #[trigger] self.to_come_from(s, m0) ==> old(
                        self,
                    ).to_come(s),
            decreases self.phi(self.state_stack@.len() as int),
        {
            let ghost before = *self;
            match self.state_stack.pop() {
                None => {
                    proof {
                        assert(self.state_stack@.len() == 0);
                        assert forall|s: Set<int>|
                            #[trigger] old(self).to_come(s) implies false by {
                            assert(before.to_come_from(s, m0));
                            if before.waits_below(s, 0) {
                                let i = choose|i: int| 0 <= i < 0 && #[trigger] before.waits_at(s, i);
                            }
                        }
                        if before.chains_ok() {
                            assert forall|g: int| 0 <= g < self.ng() implies #[trigger] self.flag_framed(
                                g,
                            ) by {
                                assert(before.flag_framed(g));
                            }
                        }
                        self.lemma_is_next(old(self), None);
                        assert(self.shadow@ == before.shadow@);
                        assert(before.kept(old(self), base));
                        self.lemma_kept_same(&before, base);
                        self.lemma_kept_trans(&before, old(self), base);
                        assert(self.base() == base);
                        assert(seq![State::New].len() == 1);
                        self.lemma_soft_change(&before);
                        assert forall|i: int|
                            0 <= i < self.state_stack@.len() implies #[trigger] self.frame_ok(i) by {}
                    }
                    return None;
                },
                Some(frame) => {
                    let ghost m = before.shadow@.marks[before.state_stack@.len() - 1];
                    proof {
                        self.shadow@.marks = self.shadow@.marks.drop_last();
                        self.lemma_popped(&before);
                    }
                    let ghost popped = *self;
                    proof {
                        if before.chains_ok() && !(frame is TriggerChaining) {
                            self.lemma_chains_popped(&before);
                        }
                        self.lemma_led_popped(&before, m0);
                        self.lemma_kept_same(&before, m0);
                        assert(before.frame_ok(0));
                        assert(before.frame_ok(before.state_stack@.len() - 1));
                        assert(before.led(before.state_stack@.len() - 1, m0));
                    }
                    match frame {
                        State::New => {
                            match self.descend(Ghost(m0)) {
                                Some(v) => {
                                    proof {
                                        if old(self).doomed() {
                                            let c = choose|c: int|
                                                #[trigger] old(self).dead_end(
                                                    c,
                                                    old(self).shadow@.marks[0],
                                                );
                                            assert(popped.dead_end(c, m0));
                                            assert(popped.kind_of(c) == ColumnType::Unique);
                                            assert(false);
                                        }
                                        if fresh && !old(self).started() {
                                            assert(before.state_stack@ == seq![State::New]);
                                            assert(self.state_stack@.len() == 0);
                                        }
                                        assert(seq![State::New].len() == 1);
                                        self.lemma_stack_started();
                                        assert forall|s: Set<int>|
                                            #[trigger] old(self).to_come(
                                                s,
                                            ) implies self.to_come(s) || s == self.chosen_set() by {
                                            self.lemma_emitted(&before, &popped, s, m0);
                                        }
                                        assert forall|s: Set<int>|
                                            #[trigger] self.to_come(
                                                s,
                                            ) implies old(self).to_come(s) by {
                                            self.lemma_descended_back(&before, &popped, s, m0);
                                        }
                                        self.lemma_emitted_due(&before, &popped, m0);
                                        assert(before.to_come_from(self.chosen_set(), m0));
                                        assert(old(self).to_come(self.chosen_set()));
                                        self.lemma_start_kept(
                                            &popped,
                                            popped.shadow@.ops.len() as int,
                                            m0,
                                        );
                                        self.lemma_step_kept(
                                            &popped,
                                            &before,
                                            old(self),
                                            popped.shadow@.ops.len() as int,
                                            m0,
                                        );
                                        assert forall|s: Set<int>|
                                            #[trigger] old(self).to_come(s) && s
                                                != self.chosen_set() implies self@.before(
                                            old(self).start(),
                                            self.chosen_set(),
                                            s,
                                        ) by {
                                            assert(self.to_come(s));
                                            self.lemma_found_after(s, m0);
                                        }
                                        self.lemma_is_next(old(self), Some(v@));
                                    }
                                    return Some(v);
                                },
                                None => {
                                    assert(self.phi(self.state_stack@.len() as int) < before.phi(
                                        before.state_stack@.len() as int,
                                    ));
                                    proof {
                                        assert forall|s: Set<int>|
                                            #[trigger] old(self).to_come(
                                                s,
                                            ) implies self.to_come_from(s, m0) by {
                                            self.lemma_descended(&before, &popped, s, m0);
                                        }
                                        assert forall|s: Set<int>|
                                            #[trigger] self.to_come_from(
                                                s,
                                                m0,
                                            ) implies old(self).to_come(s) by {
                                            self.lemma_descended_back(&before, &popped, s, m0);
                                        }
                                        self.lemma_start_kept(
                                            &popped,
                                            popped.shadow@.ops.len() as int,
                                            m0,
                                        );
                                        self.lemma_step_kept(
                                            &popped,
                                            &before,
                                            old(self),
                                            popped.shadow@.ops.len() as int,
                                            m0,
                                        );
                                    }
                                },
                            }
                        },
                        State::CurrentState(current_column, current_row_node) => {
                            self.advance(current_column, current_row_node, Ghost(m), Ghost(m0));
                            assert(self.phi(self.state_stack@.len() as int) < before.phi(
                                before.state_stack@.len() as int,
                            ));
                            proof {
                                assert forall|s: Set<int>|
                                    #[trigger] old(self).to_come(
                                        s,
                                    ) implies self.to_come_from(s, m0) by {
                                    self.lemma_advanced(
                                        &before,
                                        &popped,
                                        current_column as int,
                                        current_row_node as int,
                                        s,
                                        m0,
                                    );
                                }
                                assert forall|s: Set<int>|
                                    #[trigger] self.to_come_from(
                                        s,
                                        m0,
                                    ) implies old(self).to_come(s) by {
                                    self.lemma_advanced_back(
                                        &before,
                                        &popped,
                                        current_column as int,
                                        current_row_node as int,
                                        s,
                                        m0,
                                    );
                                }
                                self.lemma_start_kept(&popped, m, m0);
                                self.lemma_step_kept(&popped, &before, old(self), m, m0);
                            }
                        },
                        State::TriggerChaining(index) => {
                            self.condition_state_list[index].chaining = false;
                            proof {
                                self.lemma_soft_change(&popped);
                                let k = popped.state_stack@.len() as int;
                                self.lemma_frames_kept(&popped, k, m);
                                assert forall|i: int|
                                    0 <= i < self.state_stack@.len() implies #[trigger] self.frame_ok(
                                    i,
                                ) by {
                                    assert(self.frame_ok_in(i, k, m));
                                }
                                self.lemma_phi_kept(&popped, k, m);
                                assert forall|i: int| 0 <= i < k implies #[trigger] self.state_stack@[i]
                                    != State::New by {
                                    assert(popped.state_stack@[i] != State::New);
                                }
                                self.lemma_stack_settled();
                                assert(self.phi(self.state_stack@.len() as int) < before.phi(
                                    before.state_stack@.len() as int,
                                ));
                                if before.chains_ok() {
                                    self.lemma_chains_off(&before, index as int);
                                }
                                self.lemma_led_popped(&before, m0);
                                self.lemma_kept_same(&before, m0);
                                self.lemma_kept_trans(&before, old(self), m0);
                                assert forall|s: Set<int>|
                                    #[trigger] old(self).to_come(
                                        s,
                                    ) implies self.to_come_from(s, m0) by {
                                    self.lemma_step_flag(&before, s, m0);
                                }
                                assert forall|s: Set<int>|
                                    #[trigger] self.to_come_from(
                                        s,
                                        m0,
                                    ) implies old(self).to_come(s) by {
                                    self.lemma_flag_back(&before, s, m0);
                                }
                            }
                        },
                    }
                    proof {
                        if fresh {
                            assert(seq![State::New].len() == 1);
                            if !old(self).started() {
                                assert(before.state_stack@ == seq![State::New]);
                                assert(frame == State::New);
                            }
                        }
                        fresh = false;
                        assert forall|i: int|
                            0 <= i < self.state_stack@.len() implies #[trigger] self.frame_ok_in(
                            i,
                            self.state_stack@.len() as int,
                            self.shadow@.ops.len() as int,
                        ) by {
                            assert(self.frame_ok(i));
                        }
                        self.lemma_phi_nonneg(
                            self.state_stack@.len() as int,
                            self.state_stack@.len() as int,
                            self.shadow@.ops.len() as int,
                        );
                        self.lemma_stack_started();
                        if self.state_stack@.len() >= 1 {
                            if popped.state_stack@.len() >= 1 {
                                assert(self.shadow@.marks[0] == popped.shadow@.marks[0]);
                            }
                        }
                    }
                },
            }
        }
    }

    /// The frames stand for work, not for its opposite.
    pub(crate) proof fn lemma_phi_nonneg(&self, k: int, len: int, top: int)
        requires
            self.shape(),
            self.frames_below(len, top),
            0 <= k <= len,
        ensures
            self.phi(k) >= 0,
        decreases k,
    {
        if k > 0 {
            self.lemma_phi_nonneg(k - 1, len, top);
            assert(self.frame_ok_in(k - 1, len, top));
            let u = self.budget() - self.shadow@.marks[k - 1];
            lemma_work_floor(self.nn(), self.ng(), u);
            lemma_work_floor(self.nn(), self.ng(), u - 1);
            match self.state_stack@[k - 1] {
                State::CurrentState(c, n) => {
                    self.lemma_rest_bounds(c as int, n as int);
                    let w = work(self.nn(), self.ng(), u - 1);
                    assert(self.rest_of(c as int, n as int) * (1 + w) >= 0) by (nonlinear_arith)
                        requires
                            self.rest_of(c as int, n as int) >= 0,
                            w >= 0,
                    ;
                },
                _ => {},
            }
        }
    }

    /// An empty stack is the stack of a search that has begun.
    pub(crate) proof fn lemma_stack_started(&self)
        ensures
            self.state_stack@.len() == 0 ==> self.started(),
    {
        assert(seq![State::New].len() == 1);
    }
}

} // verus!

verus! {

/// A lazy stream of the solutions of a solver: every call of `next` asks the
/// solver for one more.
pub struct SolverIterator<'a> {
    pub(crate) solver: &'a mut PuzzleSolver,
}

impl<'a> SolverIterator<'a> {
    /// The solver that the stream draws on.
    pub open(crate) spec fn inner(&self) -> PuzzleSolver {
        *self.solver
    }

    /// The next solution, if there is one.
    pub fn next(&mut self) -> (r: Option<Vec<usize>>)
        requires
            old(self).inner().wf(),
        ensures
            final(self).inner().wf(),
            final(self).inner()@ == old(self).inner()@,
            final(self).inner().started(),
            match r {
                Some(v) => {
                    &&& final(self).inner().lists_chosen(v@)
                    &&& final(self).inner()@.is_solution(final(self).inner().chosen_set())
                },
                None => final(self).inner().exhausted(),
            },
            old(self).inner().exhausted() ==> r is None,
            old(self).inner().doomed() ==> r is None,
            forall|s: Set<int>|
                #[trigger] old(self).inner().to_come(s) ==> final(self).inner().to_come(s) || (
                r is Some && s == final(self).inner().chosen_set()),
            forall|s: Set<int>|
                #[trigger] final(self).inner().to_come(s) ==> old(self).inner().to_come(s),
            r is Some ==> old(self).inner().to_come(
                final(self).inner().chosen_set(),
            ) && !final(self).inner().to_come(final(self).inner().chosen_set()),
            final(self).inner().is_next_of(
                &old(self).inner(),
                match r {
                    Some(v) => Some(v@),
                    None => None,
                },
            ),
            final(self).inner().search_kept(&old(self).inner()),
    {
        self.solver.solve_next()
    }
}

impl PuzzleSolver {
    /// The stream of the solutions.
    pub fn solve(&mut self) -> (iterator: SolverIterator<'_>)
        requires
            old(self).wf(),
        ensures
            iterator.inner() == *old(self),
    {
        SolverIterator { solver: self }
    }
}

} // verus!
