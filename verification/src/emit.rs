//! What the search hands out: the chosen rows, when they cover the matrix.

use crate::chain::{lemma_empty_list, lemma_linked_below_gap};
use crate::dancing_links::{ColumnType, PuzzleSolver};
use crate::splice::lemma_holes_bounds;
use vstd::prelude::*;

verus! {

impl PuzzleSolver {
    /// The primary list is empty exactly when every unique column is
    /// covered.
    pub(crate) proof fn lemma_primary_empty(&self)
        requires
            self.links(0),
        ensures
            (self.right@[0] == 0) == self.complete(),
    {
        assert(self.node_shape(0));
        lemma_empty_list(self.hchain(), 0);
        if self.right@[0] == 0 {
            assert forall|c: int|
                0 <= c < self.nc() && #[trigger] self.kind_of(c)
                    == ColumnType::Unique implies self.shadow@.cop[c] >= 0 by {
                assert(self.column_shape(c));
                assert(self.column_links(c, 0));
                let h = self.head_of(c);
                assert(self.node_shape(h));
                assert(self.shadow@.hhome[h] == 0);
            }
        }
        if self.complete() {
            assert forall|m: int|
                0 <= m < self.nn() && #[trigger] self.shadow@.hhome[m] == 0 && m
                    != 0 implies !self.hchain().alive(m) by {
                if self.shadow@.hop[m] < 0 {
                    self.lemma_header_member(0, m);
                    let c = self.col_of(m);
                    self.lemma_anchor_kind(-1, c);
                    assert(self.kind_of(c) == ColumnType::Unique);
                }
            }
        }
    }

    /// A column without linked cell has the count zero, and the other way
    /// round.
    pub(crate) proof fn lemma_count_zero(&self, c: int)
        requires
            self.links(0),
            0 <= c < self.nc(),
        ensures
            (self.column_list@[c].count == 0) == (forall|x: int|
                self.is_cell(x) && self.col_of(x) == c ==> #[trigger] self.shadow@.vop[x] >= 0),
    {
        let h = self.head_of(c);
        assert(self.column_shape(c));
        assert(self.column_links(c, 0));
        assert(self.node_shape(h));
        lemma_empty_list(self.vchain(), h);
        if self.column_list@[c].count == 0 {
            assert forall|x: int| self.is_cell(x) && self.col_of(x) == c implies #[trigger] self.shadow@.vop[x]
                >= 0 by {
                assert(self.node_shape(x));
                assert(self.shadow@.vhome[x] == h);
            }
        }
        if forall|x: int|
            self.is_cell(x) && self.col_of(x) == c ==> #[trigger] self.shadow@.vop[x] >= 0 {
            assert forall|m: int|
                0 <= m < self.nn() && #[trigger] self.shadow@.vhome[m] == h && m
                    != h implies !self.vchain().alive(m) by {
                self.lemma_member_is_cell(c, m);
            }
        }
    }

    /// When every unique column is covered, no column in play has a linked
    /// cell: every row is chosen or out.
    pub(crate) proof fn lemma_complete_empty(&self, c: int)
        requires
            self.links(0),
            self.rows_settled(),
            self.complete(),
            0 <= c < self.nc(),
            self.shadow@.cop[c] < 0,
        ensures
            self.column_list@[c].count == 0,
    {
        self.lemma_count_zero(c);
        assert forall|x: int| self.is_cell(x) && self.col_of(x) == c implies #[trigger] self.shadow@.vop[x]
            >= 0 by {
            if self.shadow@.vop[x] < 0 {
                self.lemma_row_free(x);
                let r = self.row_of(x);
                assert(self.row_shape(r));
                self.lemma_row_member(r, 0);
                let x0 = self.shadow@.row_nodes[r][0] as int;
                assert(self.kind_of(self.col_of(x0)) == ColumnType::Unique);
                assert(self.shadow@.cop[self.col_of(x0)] < 0);
                assert(false);
            }
        }
    }

    /// The rows that hold a cell of a covered column are not chosen, but
    /// for the one it is covered for; no chosen row holds a cell of a column
    /// in play.
    pub(crate) proof fn lemma_chosen_in_column(&self, c: int, i: int)
        requires
            self.shape(),
            self.committed(),
            0 <= c < self.nc(),
            0 <= i < self.shadow@.col_rows[c].len(),
            self.is_chosen(self.shadow@.col_rows[c][i] as int),
        ensures
            self.shadow@.cop[c] >= 0,
            self.shadow@.cover_cell[c] == self.head_of(c) + 1 + i,
    {
        let r = self.shadow@.col_rows[c][i] as int;
        let y = self.head_of(c) + 1 + i;
        assert(self.column_shape(c));
        assert(self.cell_at(c, i) == (crate::dancing_links::Node {
            row: self.shadow@.col_rows[c][i],
            column: c as usize,
        }));
        assert(self.node_shape(y));
        assert(self.row_settled(r));
        let k = self.shadow@.pos[y];
        assert(self.shadow@.row_nodes[r][k] == y);
        assert(self.shadow@.cover_cell[self.col_of(self.shadow@.row_nodes[r][k] as int)] == y);
        assert(self.column_settled(c));
    }

    /// The holes that the chosen rows leave in group `g` are the columns in
    /// play of the group, when every unique column is covered.
    pub(crate) proof fn lemma_holes_match(&self, g: int, k: int)
        requires
            self.links(0),
            self.rows_settled(),
            self.committed(),
            self.complete(),
            0 <= k <= self.nc(),
        ensures
            self@.holes(self.chosen_set(), g, k) == self.holes_below(g, k),
        decreases k,
    {
        if k > 0 {
            self.lemma_holes_match(g, k - 1);
            let c = k - 1;
            let s = self.chosen_set();
            assert(self@.columns[c].kind == self.kind_of(c));
            assert(self@.columns[c].rows == self.shadow@.col_rows[c]);
            if self.kind_of(c) == ColumnType::ConditionalUnique(g as usize) {
                if self.shadow@.cop[c] < 0 {
                    self.lemma_complete_empty(c);
                    assert(self@.untouched(s, c)) by {
                        assert forall|i: int|
                            0 <= i < self@.columns[c].rows.len() implies !s.contains(
                            #[trigger] self@.columns[c].rows[i] as int,
                        ) by {
                            if self.is_chosen(self.shadow@.col_rows[c][i] as int) {
                                self.lemma_chosen_in_column(c, i);
                            }
                        }
                    }
                } else {
                    assert(self.column_settled(c));
                    let x = self.shadow@.cover_cell[c];
                    assert(self.node_shape(x));
                    let i = x - self.head_of(c) - 1;
                    assert(self.shadow@.col_rows[c][i] == self.row_of(x));
                    assert(s.contains(self@.columns[c].rows[i] as int));
                    assert(!self@.untouched(s, c));
                }
            }
        }
    }

    /// When every unique column is covered and no group is over its budget,
    /// the chosen rows are an exact cover.
    pub(crate) proof fn lemma_emit(&self)
        requires
            self.links(0),
            self.rows_settled(),
            self.committed(),
            self.complete(),
            self.within_budget(),
        ensures
            self@.is_solution(self.chosen_set()),
    {
        let s = self.chosen_set();
        let m = self@;
        assert forall|c: int| 0 <= c < m.columns.len() implies if (#[trigger] m.columns[c]).kind
            == ColumnType::Unique {
            m.exactly_once(s, c)
        } else {
            m.at_most_once(s, c)
        } by {
            assert(m.columns[c].kind == self.kind_of(c));
            assert(m.columns[c].rows == self.shadow@.col_rows[c]);
            assert forall|i: int, j: int|
                0 <= i < m.columns[c].rows.len() && 0 <= j < m.columns[c].rows.len() && s.contains(
                    #[trigger] m.columns[c].rows[i] as int,
                ) && s.contains(#[trigger] m.columns[c].rows[j] as int) implies i == j by {
                self.lemma_chosen_in_column(c, i);
                self.lemma_chosen_in_column(c, j);
            }
            if self.kind_of(c) == ColumnType::Unique {
                assert(self.shadow@.cop[c] >= 0);
                assert(self.column_settled(c));
                let x = self.shadow@.cover_cell[c];
                assert(self.node_shape(x));
                let i = x - self.head_of(c) - 1;
                assert(self.shadow@.col_rows[c][i] == self.row_of(x));
                assert(s.contains(m.columns[c].rows[i] as int));
            }
        }
        assert forall|g: int| 0 <= g < m.budgets.len() implies m.holes(
            s,
            g,
            m.columns.len() as int,
        ) <= #[trigger] m.budgets[g] by {
            self.lemma_holes_match(g, self.nc());
            assert(self.group_links(g));
            assert(self.condition_state_list@[g].current_holes
                <= self.condition_state_list@[g].holes);
        }
    }

    /// The chosen rows, in ascending order.
    pub(crate) fn chosen_rows(&self) -> (v: Vec<usize>)
        ensures
            self.lists_chosen(v@),
    {
        let mut v: Vec<usize> = Vec::new();
        let mut index: usize = 0;
        while index < self.row_list.len()
            invariant
                index <= self.nr(),
                forall|i: int, j: int| 0 <= i < j < v@.len() ==> v@[i] < v@[j],
                forall|i: int| 0 <= i < v@.len() ==> v@[i] < index && self.is_chosen(
                    #[trigger] v@[i] as int,
                ),
                forall|r: int| 0 <= r < index && self.is_chosen(r) ==> v@.contains(r as usize),
            decreases self.nr() - index,
        {
            if self.row_list[index].chosen {
                let ghost old_v = v@;
                v.push(index);
                proof {
                    assert(v@[old_v.len() as int] == index);
                    assert forall|r: int| 0 <= r < index + 1 && self.is_chosen(r) implies v@.contains(
                        r as usize,
                    ) by {
                        if r < index {
                            let i = choose|i: int| 0 <= i < old_v.len() && old_v[i] == r as usize;
                            assert(v@[i] == r as usize);
                        }
                    }
                }
            }
            index += 1;
        }
        v
    }
}

} // verus!
