//! The measure that shows that the search comes to an end.
//!
//! Every frame of the stack stands for work that is still to be done. A
//! frame that asks for another level stands for the whole subtree below the
//! matrix as it is; a choice frame stands for the rows of its column that
//! are still to be tried, each with its subtree. The bound on a subtree
//! depends on the number of columns in play alone, which falls with every
//! level.

use crate::chain::{lemma_linked_below_bounds, lemma_linked_below_same};
use crate::dancing_links::{PuzzleSolver, State};
use vstd::prelude::*;

verus! {

/// A bound on the number of frames worked off below a matrix with `u`
/// columns in play, `n` nodes and `g` groups.
pub open spec fn work(n: int, g: int, u: int) -> int
    decreases u,
{
    if u <= 0 {
        g + 2
    } else {
        g + 2 + n * (1 + work(n, g, u - 1))
    }
}

pub proof fn lemma_work_floor(n: int, g: int, u: int)
    requires
        n >= 0,
        g >= 0,
    ensures
        work(n, g, u) >= g + 2,
    decreases u,
{
    if u > 0 {
        lemma_work_floor(n, g, u - 1);
        assert(n * (1 + work(n, g, u - 1)) >= 0) by (nonlinear_arith)
            requires
                n >= 0,
                work(n, g, u - 1) >= 0,
        ;
    }
}

pub proof fn lemma_work_grows(n: int, g: int, u1: int, u2: int)
    requires
        n >= 0,
        g >= 0,
        u1 <= u2,
    ensures
        work(n, g, u1) <= work(n, g, u2),
    decreases u2,
{
    if u2 <= 0 {
    } else if u1 <= 0 {
        lemma_work_floor(n, g, u2);
    } else {
        lemma_work_grows(n, g, u1 - 1, u2 - 1);
        assert(n * (1 + work(n, g, u1 - 1)) <= n * (1 + work(n, g, u2 - 1))) by (nonlinear_arith)
            requires
                n >= 0,
                work(n, g, u1 - 1) <= work(n, g, u2 - 1),
        ;
    }
}

/// The work below a matrix covers `k` rows to try, each with the work
/// below the smaller matrix, and the frames of the groups.
pub proof fn lemma_work_split(n: int, g: int, u: int, k: int)
    requires
        n >= 0,
        g >= 0,
        u >= 1,
        0 <= k <= n,
    ensures
        g + k * (1 + work(n, g, u - 1)) + 2 <= work(n, g, u),
{
    lemma_work_floor(n, g, u - 1);
    assert(k * (1 + work(n, g, u - 1)) <= n * (1 + work(n, g, u - 1))) by (nonlinear_arith)
        requires
            0 <= k <= n,
            work(n, g, u - 1) >= 0,
    ;
}

impl PuzzleSolver {
    /// Number of columns in play among the first `k`.
    pub open(crate) spec fn open_columns(&self, k: int) -> int
        decreases k,
    {
        if k <= 0 {
            0
        } else {
            self.open_columns(k - 1) + if self.shadow@.cop[k - 1] < 0 {
                1int
            } else {
                0int
            }
        }
    }

    /// Columns in play and operations in effect: what a cover moves from one
    /// side to the other.
    pub open(crate) spec fn budget(&self) -> int {
        self.open_columns(self.nc()) + self.shadow@.ops.len()
    }

    /// Number of linked cells of column `c` after the cell `n`.
    pub open(crate) spec fn rest_of(&self, c: int, n: int) -> int {
        self.vchain().linked(self.head_of(c)) - self.vchain().linked_below(self.head_of(c), n + 1)
    }

    /// The work that frame `i` stands for.
    pub open(crate) spec fn weight(&self, i: int) -> int {
        let u = self.budget() - self.shadow@.marks[i];
        match self.state_stack@[i] {
            State::New => work(self.nn(), self.ng(), u),
            State::TriggerChaining(_) => 1,
            State::CurrentState(c, n) => 1 + self.rest_of(c as int, n as int) * (1 + work(
                self.nn(),
                self.ng(),
                u - 1,
            )),
        }
    }

    /// The work that the first `k` frames stand for.
    pub open(crate) spec fn phi(&self, k: int) -> int
        decreases k,
    {
        if k <= 0 {
            0
        } else {
            self.phi(k - 1) + self.weight(k - 1)
        }
    }

    pub(crate) proof fn lemma_open_bounds(&self, k: int)
        requires
            0 <= k,
        ensures
            0 <= self.open_columns(k) <= k,
        decreases k,
    {
        if k > 0 {
            self.lemma_open_bounds(k - 1);
        }
    }

    pub(crate) proof fn lemma_open_same(&self, pre: &PuzzleSolver, k: int)
        requires
            0 <= k,
            forall|c: int|
                0 <= c < k ==> (#[trigger] self.shadow@.cop[c] < 0) == (pre.shadow@.cop[c] < 0),
        ensures
            self.open_columns(k) == pre.open_columns(k),
        decreases k,
    {
        if k > 0 {
            self.lemma_open_same(pre, k - 1);
            assert((self.shadow@.cop[k - 1] < 0) == (pre.shadow@.cop[k - 1] < 0));
        }
    }

    pub(crate) proof fn lemma_open_flip(&self, pre: &PuzzleSolver, c0: int, k: int)
        requires
            0 <= k,
            0 <= c0,
            (self.shadow@.cop[c0] < 0) != (pre.shadow@.cop[c0] < 0),
            forall|c: int|
                0 <= c < k && c != c0 ==> (#[trigger] self.shadow@.cop[c] < 0) == (
                pre.shadow@.cop[c] < 0),
        ensures
            self.open_columns(k) == pre.open_columns(k) + if k <= c0 {
                0int
            } else if self.shadow@.cop[c0] < 0 {
                1int
            } else {
                -1int
            },
        decreases k,
    {
        if k > 0 {
            self.lemma_open_flip(pre, c0, k - 1);
            if k - 1 != c0 {
                assert((self.shadow@.cop[k - 1] < 0) == (pre.shadow@.cop[k - 1] < 0));
            }
        }
    }

    /// A column in play witnesses a positive count.
    pub(crate) proof fn lemma_open_witness(&self, c0: int, k: int)
        requires
            0 <= c0 < k,
            self.shadow@.cop[c0] < 0,
        ensures
            self.open_columns(k) >= 1,
        decreases k,
    {
        if k - 1 > c0 {
            self.lemma_open_witness(c0, k - 1);
        } else {
            self.lemma_open_bounds(k - 1);
        }
    }

    pub(crate) proof fn lemma_rest_bounds(&self, c: int, n: int)
        requires
            self.shape(),
            0 <= c < self.nc(),
            0 <= n < self.nn(),
        ensures
            0 <= self.rest_of(c, n) <= self.nn(),
    {
        let ch = self.vchain();
        let h = self.head_of(c);
        lemma_linked_below_bounds(ch, h, self.nn());
        lemma_linked_below_bounds(ch, h, n + 1);
        lemma_rest_nonneg(ch, h, n + 1, self.nn());
    }

    /// The frames below `k` stand for the same work in `self` and `pre` when
    /// the stack, the marks, the budget and the linked cells of the columns
    /// branched on are the same.
    pub(crate) proof fn lemma_phi_same(&self, pre: &PuzzleSolver, k: int)
        requires
            0 <= k <= pre.state_stack@.len(),
            k <= self.state_stack@.len(),
            forall|i: int| 0 <= i < k ==> #[trigger] self.state_stack@[i] == pre.state_stack@[i],
            forall|i: int| 0 <= i < k ==> #[trigger] self.shadow@.marks[i] == pre.shadow@.marks[i],
            self.budget() == pre.budget(),
            self.nn() == pre.nn(),
            self.ng() == pre.ng(),
            forall|i: int|
                0 <= i < k ==> match #[trigger] pre.state_stack@[i] {
                    State::CurrentState(c, n) => self.rest_of(c as int, n as int) == pre.rest_of(
                        c as int,
                        n as int,
                    ),
                    _ => true,
                },
        ensures
            self.phi(k) == pre.phi(k),
        decreases k,
    {
        if k > 0 {
            self.lemma_phi_same(pre, k - 1);
            assert(self.state_stack@[k - 1] == pre.state_stack@[k - 1]);
            assert(self.shadow@.marks[k - 1] == pre.shadow@.marks[k - 1]);
            assert(match pre.state_stack@[k - 1] {
                State::CurrentState(c, n) => self.rest_of(c as int, n as int) == pre.rest_of(
                    c as int,
                    n as int,
                ),
                _ => true,
            });
        }
    }

    /// The linked cells of a column are the same in `self` and `pre` when
    /// none of its cells has changed sides.
    pub(crate) proof fn lemma_rest_same(&self, pre: &PuzzleSolver, c: int, n: int)
        requires
            pre.shape(),
            0 <= c < pre.nc(),
            0 <= n < pre.nn(),
            self.nn() == pre.nn(),
            self.up@.len() == pre.up@.len(),
            self.down@.len() == pre.down@.len(),
            self.shadow@.vhome == pre.shadow@.vhome,
            self.shadow@.vop.len() == pre.shadow@.vop.len(),
            self.shadow@.vsub.len() == pre.shadow@.vsub.len(),
            self.head_of(c) == pre.head_of(c),
            forall|x: int|
                0 <= x < pre.nn() && #[trigger] pre.shadow@.vhome[x] == pre.head_of(c) && x
                    != pre.head_of(c) ==> (self.shadow@.vop[x] < 0) == (pre.shadow@.vop[x] < 0),
        ensures
            self.rest_of(c, n) == pre.rest_of(c, n),
    {
        let h = pre.head_of(c);
        lemma_linked_below_same(pre.vchain(), self.vchain(), h, pre.nn());
        lemma_linked_below_same(pre.vchain(), self.vchain(), h, n + 1);
    }
}

/// The count over a longer stretch is not smaller.
pub proof fn lemma_rest_nonneg(ch: crate::chain::Chain, s: int, lo: int, hi: int)
    requires
        0 <= lo <= hi,
    ensures
        ch.linked_below(s, lo) <= ch.linked_below(s, hi),
    decreases hi - lo,
{
    if lo < hi {
        lemma_rest_nonneg(ch, s, lo, hi - 1);
    }
}

} // verus!
