//! Questions that a client asks of a solver before it changes it.

use crate::dancing_links::{PuzzleSolver, State};
use vstd::prelude::*;

verus! {

impl PuzzleSolver {
    /// Tells whether the search has begun.
    pub fn has_started(&self) -> (begun: bool)
        ensures
            begun == self.started(),
    {
        if self.state_stack.len() != 1 {
            return true;
        }
        match self.state_stack[0] {
            State::New => {
                proof {
                    assert(self.state_stack@ =~= seq![State::New]);
                }
                false
            },
            _ => {
                proof {
                    assert(seq![State::New][0] == State::New);
                }
                true
            },
        }
    }

    /// Number of rows.
    pub fn row_count(&self) -> (count: usize)
        ensures
            count == self@.rows,
    {
        self.row_list.len()
    }

    /// Number of conditional groups.
    pub fn group_count(&self) -> (count: usize)
        ensures
            count == self@.budgets.len(),
    {
        self.condition_state_list.len()
    }

    /// The first `k` rows of the list can still be chosen, and none of
    /// them is named twice.
    pub open spec fn can_join(&self, rows: Seq<usize>, k: int) -> bool {
        &&& forall|i: int| 0 <= i < k ==> self.is_free(#[trigger] rows[i] as int)
        &&& forall|i: int, j: int| 0 <= i < j < k ==> rows[i] != rows[j]
    }

    /// Tells whether the rows can be the cells of a new column: each of
    /// them can still be chosen, and none is named twice.
    pub fn rows_can_join(&self, rows: &Vec<usize>) -> (ok: bool)
        requires
            self.wf(),
        ensures
            ok == (rows@.no_duplicates() && forall|i: int|
                0 <= i < rows@.len() ==> self.is_free(#[trigger] rows@[i] as int)),
    {
        let mut index: usize = 0;
        while index < rows.len()
            invariant
                index <= rows@.len(),
                self.wf(),
                self.can_join(rows@, index as int),
            decreases rows@.len() - index,
        {
            let row = rows[index];
            if row >= self.row_list.len() {
                proof {
                    assert(!self.is_free(rows@[index as int] as int));
                }
                return false;
            }
            if !self.row_is_free(row) {
                return false;
            }
            let mut other: usize = 0;
            while other < index
                invariant
                    other <= index < rows@.len(),
                    row == rows@[index as int],
                    forall|i: int| 0 <= i < other ==> rows@[i] != row,
                decreases index - other,
            {
                if rows[other] == row {
                    proof {
                        assert(rows@[other as int] == rows@[index as int]);
                    }
                    return false;
                }
                other += 1;
            }
            index += 1;
        }
        true
    }
}

} // verus!
