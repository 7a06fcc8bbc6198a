//! Committing to a row during the search and taking the commitment back:
//! the covers of the other columns of the row, and their undoing.

use crate::dancing_links::PuzzleSolver;
use vstd::prelude::*;

verus! {

impl PuzzleSolver {
    /// A linked cell of a column in play belongs to a row that is whole and
    /// whose columns are all in play.
    pub(crate) proof fn lemma_row_free(&self, n: int)
        requires
            self.links(0),
            self.rows_settled(),
            self.is_cell(n),
            self.shadow@.vop[n] < 0,
            self.shadow@.cop[self.col_of(n)] < 0,
        ensures
            self.is_free(self.row_of(n)),
    {
        let r = self.row_of(n);
        let rn = self.shadow@.row_nodes[r];
        let p = self.shadow@.pos[n];
        assert(self.node_shape(n));
        assert(self.node_settled(n));
        assert(self.node_settled_at(n, -1, -1, 0));
        assert forall|k: int| 0 <= k < rn.len() implies self.shadow@.vop[#[trigger] rn[k] as int]
            < 0 && self.shadow@.cop[self.col_of(rn[k] as int)] < 0 by {
            self.lemma_row_member(r, k);
            let x = rn[k] as int;
            assert(self.shadow@.vop[x] < 0);
            if k != p {
                assert(self.node_settled(x));
                assert(self.node_settled_at(x, -1, -1, 0));
                let cx = self.col_of(x);
                if self.shadow@.cop[cx] >= 0 {
                    assert(self.vcop(-1, -1, cx) == self.shadow@.cop[cx]);
                    assert(self.stamp_is(rn[p] as int, self.shadow@.cop[cx], x));
                    assert(false);
                }
            }
        }
    }

    /// The other cells of the row of a linked cell of a covered column lie
    /// in columns in play, when the cover is the last operation.
    pub(crate) proof fn lemma_row_taken(&self, n: int)
        requires
            self.links(0),
            self.rows_settled(),
            self.is_cell(n),
            self.shadow@.vop[n] < 0,
            self.shadow@.ops.len() >= 1,
            self.shadow@.cop[self.col_of(n)] == self.shadow@.ops.len() - 1,
        ensures
            forall|k: int|
                0 <= k < self.shadow@.row_nodes[self.row_of(n)].len() && k != self.shadow@.pos[n]
                    ==> self.shadow@.cop[self.col_of(
                    #[trigger] self.shadow@.row_nodes[self.row_of(n)][k] as int,
                )] < 0,
    {
        let r = self.row_of(n);
        let rn = self.shadow@.row_nodes[r];
        let p = self.shadow@.pos[n];
        let d = self.shadow@.ops.len() - 1;
        assert(self.node_shape(n));
        assert(self.node_settled(n));
        assert(self.node_settled_at(n, -1, -1, 0));
        assert(self.vcop(-1, -1, self.col_of(n)) == d);
        assert forall|k: int| 0 <= k < rn.len() && k != p implies self.shadow@.cop[self.col_of(
            #[trigger] rn[k] as int,
        )] < 0 by {
            self.lemma_row_member(r, k);
            let x = rn[k] as int;
            assert(self.stamp_is(rn[k] as int, d, n));
            assert(self.node_settled(x));
            assert(self.node_settled_at(x, -1, -1, 0));
            let cx = self.col_of(x);
            assert(self.column_links(cx, 0));
            assert(self.vcop(-1, -1, cx) == self.shadow@.cop[cx]);
        }
    }

    /// A cover takes no cell out of the column that it covers.
    pub(crate) proof fn lemma_cover_keeps_own(&self, pre: &PuzzleSolver, c: int, x: int)
        requires
            pre.links(0),
            self.links(0),
            self.rows_settled(),
            0 <= c < pre.nc(),
            self.grown_cover(pre, pre.shadow@.ops.len() as int),
            self.shadow@.ops == pre.shadow@.ops.push(c),
            self.shadow@.cop[c] == pre.shadow@.ops.len(),
            self.is_cell(x),
            self.col_of(x) == c,
        ensures
            self.shadow@.vop[x] == pre.shadow@.vop[x],
            self.shadow@.vsub[x] == pre.shadow@.vsub[x],
    {
        let d = pre.shadow@.ops.len() as int;
        assert(self.kill_ok(pre, d, x));
        if !(self.shadow@.vop[x] == pre.shadow@.vop[x] && self.shadow@.vsub[x]
            == pre.shadow@.vsub[x]) {
            assert(self.node_settled(x));
            assert(self.node_settled_at(x, -1, -1, 0));
            let v = self.shadow@.vsub[x];
            assert(self.shadow@.vop[x] == d) by {
                assert(self.shadow@.vop[x] < self.shadow@.ops.len());
            }
            if v >= 0 {
                assert(self.node_shape(v));
                let cv = self.col_of(v);
                assert(self.column_links(cv, 0));
                assert(self.column_links(c, 0));
                assert(cv == c);
                self.lemma_row_columns_differ(x, v);
            } else {
                assert(false);
            }
        }
    }

    /// Covers the other columns of the row of `row_node`, from the cell
    /// rightwards.
    pub(crate) fn cover_others(
        &mut self,
        row_node: usize,
        Ghost(pre): Ghost<PuzzleSolver>,
        Ghost(d0): Ghost<int>,
        Ghost(m): Ghost<int>,
    )
        requires
            old(self).links(0),
            old(self).rows_settled(),
            old(self).is_cell(row_node as int),
            old(self).committed_but(old(self).row_of(row_node as int)),
            old(self).covering(
                old(self).row_of(row_node as int),
                old(self).shadow@.pos[row_node as int],
                m,
                1,
            ),
            old(self).grown_cover(&pre, d0),
            0 <= d0 <= m + 1,
            0 <= m,
        ensures
            final(self).links(0),
            final(self).rows_settled(),
            final(self).committed_but(old(self).row_of(row_node as int)),
            final(self).covering(
                old(self).row_of(row_node as int),
                old(self).shadow@.pos[row_node as int],
                m,
                old(self).shadow@.row_nodes[old(self).row_of(row_node as int)].len() as int,
            ),
            final(self).grown_cover(&pre, d0),
            final(self).grown_cover(old(self), m + 1),
            final(self).budget() == old(self).budget(),
            final(self).same_frame(old(self)),
    {
        let ghost start = *self;
        let ghost cur = row_node as int;
        let ghost r0 = self.row_of(cur);
        let ghost p0 = self.shadow@.pos[cur];
        let ghost rn = self.shadow@.row_nodes[r0];
        let ghost len = rn.len() as int;
        proof {
            assert(self.node_shape(cur));
            assert(self.row_shape(r0));
            assert(self.row_link_ok(r0, p0));
            assert(Self::after(p0, len) == Self::at(p0, 1, len));
            self.lemma_grown_refl(m + 1);
        }
        let mut column_node = self.right[row_node];
        let ghost mut j: int = 1;
        while column_node != row_node
            invariant
                self.links(0),
                self.rows_settled(),
                self.committed_but(r0),
                self.covering(r0, p0, m, j),
                self.grown_cover(&pre, d0),
                self.grown_cover(&start, m + 1),
                self.budget() == start.budget(),
                self.same_frame(&start),
                0 <= d0 <= m + 1,
                0 <= m,
                cur == row_node,
                self.is_cell(cur),
                r0 == self.row_of(cur),
                0 <= r0 < self.nr(),
                p0 == self.shadow@.pos[cur],
                rn == self.shadow@.row_nodes[r0],
                len == rn.len(),
                0 <= p0 < len,
                rn[p0] == cur,
                1 <= j <= len,
                column_node == rn[Self::at(p0, j, len)],
            decreases len - j,
        {
            let ghost before = *self;
            let ghost x = column_node as int;
            let ghost k = Self::at(p0, j, len);
            proof {
                self.lemma_row_member(r0, k);
                self.lemma_row_member(r0, p0);
                assert(j < len);
                assert(Self::off(p0, k, len) == j);
                assert(self.shadow@.cop[self.col_of(rn[k] as int)] < 0);
            }
            let column = self.node_list[column_node].column;
            self.cover_for(column, Ghost(x), Ghost(pre), Ghost(d0));
            proof {
                self.lemma_covering_step(&before, r0, p0, m, j, x);
                self.lemma_grown_trans(&before, &start, m + j, m + 1);
                self.lemma_same_frame_trans(&before, &start);
                assert(Self::after(k, len) == Self::at(p0, j + 1, len));
                assert(self.row_shape(r0));
                assert(self.row_link_ok(r0, k));
                j = j + 1;
            }
            column_node = self.right[column_node];
        }
        proof {
            self.lemma_went_round(cur, j);
        }
    }

    /// Uncovers the other columns of the row of `row_node`, from the cell
    /// leftwards.
    pub(crate) fn uncover_others(
        &mut self,
        row_node: usize,
        Ghost(pre): Ghost<PuzzleSolver>,
        Ghost(d0): Ghost<int>,
        Ghost(m): Ghost<int>,
    )
        requires
            old(self).links(0),
            old(self).rows_settled(),
            old(self).is_cell(row_node as int),
            old(self).committed_but(old(self).row_of(row_node as int)),
            old(self).covering(
                old(self).row_of(row_node as int),
                old(self).shadow@.pos[row_node as int],
                m,
                old(self).shadow@.row_nodes[old(self).row_of(row_node as int)].len() as int,
            ),
            old(self).shrunk_cover(&pre, d0),
            0 <= d0 <= m + 1,
            0 <= m,
            m >= old(self).shadow@.floor,
        ensures
            final(self).links(0),
            final(self).rows_settled(),
            final(self).committed_but(old(self).row_of(row_node as int)),
            final(self).covering(
                old(self).row_of(row_node as int),
                old(self).shadow@.pos[row_node as int],
                m,
                1,
            ),
            final(self).shrunk_cover(&pre, d0),
            final(self).shrunk_cover(old(self), m + 1),
            final(self).budget() == old(self).budget(),
            final(self).same_frame(old(self)),
    {
        let ghost start = *self;
        let ghost cur = row_node as int;
        let ghost r0 = self.row_of(cur);
        let ghost p0 = self.shadow@.pos[cur];
        let ghost rn = self.shadow@.row_nodes[r0];
        let ghost len = rn.len() as int;
        proof {
            assert(self.node_shape(cur));
            assert(self.row_shape(r0));
            assert(self.row_link_ok(r0, p0));
            assert(Self::before(p0, len) == Self::at(p0, len - 1, len));
            self.lemma_shrunk_refl(m + 1);
        }
        let mut column_node = self.left[row_node];
        let ghost mut j: int = len;
        while column_node != row_node
            invariant
                self.links(0),
                self.rows_settled(),
                self.committed_but(r0),
                self.covering(r0, p0, m, j),
                self.shrunk_cover(&pre, d0),
                self.shrunk_cover(&start, m + 1),
                self.budget() == start.budget(),
                self.same_frame(&start),
                0 <= d0 <= m + 1,
                0 <= m,
                m >= self.shadow@.floor,
                cur == row_node,
                self.is_cell(cur),
                r0 == self.row_of(cur),
                0 <= r0 < self.nr(),
                p0 == self.shadow@.pos[cur],
                rn == self.shadow@.row_nodes[r0],
                len == rn.len(),
                0 <= p0 < len,
                rn[p0] == cur,
                1 <= j <= len,
                column_node == rn[Self::at(p0, j - 1, len)],
            decreases j,
        {
            let ghost before = *self;
            let ghost x = column_node as int;
            let ghost k = Self::at(p0, j - 1, len);
            proof {
                self.lemma_row_member(r0, k);
                self.lemma_row_member(r0, p0);
                assert(j > 1) by {
                    if j == 1 {
                        assert(k == p0);
                    }
                }
                assert(Self::off(p0, k, len) == j - 1);
                assert(self.shadow@.cop[self.col_of(rn[k] as int)] == m + j - 1);
            }
            let column = self.node_list[column_node].column;
            self.uncover_for(column, Ghost(pre), Ghost(d0));
            proof {
                self.lemma_uncovering_step(&before, r0, p0, m, j, x);
                self.lemma_shrunk_trans(&before, &start, m + j - 1, m + 1);
                self.lemma_same_frame_trans(&before, &start);
                if j >= 3 {
                    assert(Self::before(k, len) == Self::at(p0, j - 2, len));
                } else {
                    assert(Self::before(k, len) == p0);
                    assert(Self::at(p0, 0, len) == p0);
                }
                assert(self.row_shape(r0));
                assert(self.row_link_ok(r0, k));
                j = j - 1;
            }
            column_node = self.left[column_node];
        }
        proof {
            assert(j == 1) by {
                if j > 1 {
                    self.lemma_row_member(r0, Self::at(p0, j - 1, len));
                    self.lemma_row_member(r0, p0);
                }
            }
        }
    }
}

} // verus!
