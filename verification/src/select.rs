//! Settling rows before the search: committing to a row, and removing one.

use crate::chain::{lemma_linked_loop, lemma_raise_floor};
use crate::dancing_links::{ColumnType, Matrix, PuzzleSolver, Shadow, State};
use vstd::prelude::*;

verus! {

impl PuzzleSolver {
    /// A row has a cell in a column exactly when the column lists the row.
    pub(crate) proof fn lemma_hits(&self, c: int, r: int)
        requires
            self.shape(),
        ensures
            self@.hits(c, r) <==> (exists|x: int|
                #![trigger self.node_list@[x]]
                self.is_cell(x) && self.row_of(x) == r && self.col_of(x) == c),
    {
        if self@.hits(c, r) {
            let cr = self.shadow@.col_rows[c];
            assert(self@.columns[c].rows == cr);
            let i = choose|i: int| 0 <= i < cr.len() && cr[i] == r as usize;
            assert(self.column_shape(c));
            let x = self.head_of(c) + 1 + i;
            assert(self.cell_at(c, i) == (crate::dancing_links::Node {
                row: cr[i],
                column: c as usize,
            }));
            assert(self.node_list@[x].row == r);
            assert(self.is_cell(x) && self.row_of(x) == r && self.col_of(x) == c);
        }
        if exists|x: int|
            #![trigger self.node_list@[x]]
            self.is_cell(x) && self.row_of(x) == r && self.col_of(x) == c {
            let x = choose|x: int|
                #![trigger self.node_list@[x]]
                self.is_cell(x) && self.row_of(x) == r && self.col_of(x) == c;
            assert(self.node_shape(x));
            let cr = self.shadow@.col_rows[c];
            assert(self@.columns[c].rows == cr);
            let i = x - self.head_of(c) - 1;
            assert(cr[i] == r as usize);
        }
    }

    /// After the cover of one more column of row `r0`, recorded as covered
    /// for the cell `x` of the row, the bookkeeping of chosen rows is as
    /// before, with one more column done.
    pub(crate) proof fn lemma_covering_step(
        &self,
        pre: &PuzzleSolver,
        r0: int,
        p0: int,
        m: int,
        j: int,
        x: int,
    )
        requires
            pre.shape(),
            pre.committed_but(r0),
            pre.covering(r0, p0, m, j),
            0 <= r0 < pre.nr(),
            0 <= p0 < pre.shadow@.row_nodes[r0].len(),
            0 <= j < pre.shadow@.row_nodes[r0].len(),
            x == pre.shadow@.row_nodes[r0][Self::at(
                p0,
                j,
                pre.shadow@.row_nodes[r0].len() as int,
            )],
            self.node_list@ == pre.node_list@,
            self.row_list@ == pre.row_list@,
            self.column_list@.len() == pre.column_list@.len(),
            self.shadow@.row_nodes == pre.shadow@.row_nodes,
            self.shadow@.pos == pre.shadow@.pos,
            self.shadow@.ops == pre.shadow@.ops.push(pre.col_of(x)),
            self.shadow@.cop == pre.shadow@.cop.update(pre.col_of(x), m + j),
            self.shadow@.cover_cell == pre.shadow@.cover_cell.update(pre.col_of(x), x),
            pre.shadow@.cop.len() == pre.nc(),
            pre.shadow@.cover_cell.len() == pre.nc(),
        ensures
            self.committed_but(r0),
            self.covering(r0, p0, m, j + 1),
    {
        let sh = self.shadow@;
        let psh = pre.shadow@;
        let rn = psh.row_nodes[r0];
        let len = rn.len() as int;
        let kx = Self::at(p0, j, len);
        let cx = pre.col_of(x);
        pre.lemma_row_member(r0, kx);
        assert(Self::off(p0, kx, len) == j);
        assert forall|c: int| 0 <= c < self.nc() implies #[trigger] self.column_settled_but(
            c,
            r0,
        ) by {
            assert(pre.column_settled_but(c, r0));
        }
        assert forall|r: int| 0 <= r < self.nr() && r != r0 implies #[trigger] self.row_settled(
            r,
        ) by {
            assert(pre.row_settled(r));
            let rr = psh.row_nodes[r];
            if pre.row_list@[r].chosen {
                assert forall|k: int| 0 <= k < rr.len() implies sh.cover_cell[self.col_of(
                    #[trigger] rr[k] as int,
                )] == rr[k] by {
                    pre.lemma_row_member(r, k);
                    let c = pre.col_of(rr[k] as int);
                    if c == cx {
                        assert(pre.column_settled_but(c, r0));
                        assert(psh.cop[cx] < 0);
                    }
                }
            }
        }
        assert forall|k: int| 0 <= k < rn.len() implies if Self::off(p0, k, len) < j + 1 {
            &&& sh.cop[self.col_of(#[trigger] rn[k] as int)] == m + Self::off(p0, k, len)
            &&& sh.cover_cell[self.col_of(rn[k] as int)] == rn[k]
        } else {
            sh.cop[self.col_of(rn[k] as int)] < 0
        } by {
            pre.lemma_row_member(r0, k);
            if k != kx {
                pre.lemma_row_columns_differ(rn[k] as int, x);
                assert(Self::off(p0, k, len) != j);
            }
        }
    }

    /// Once all columns of row `r0` are covered for it and the row is
    /// marked as chosen, the bookkeeping of chosen rows is whole again.
    pub(crate) proof fn lemma_covering_done(&self, r0: int, p0: int, m: int)
        requires
            self.shape(),
            0 <= r0 < self.nr(),
            0 <= p0 < self.shadow@.row_nodes[r0].len(),
            self.committed_but(r0),
            self.covering(r0, p0, m, self.shadow@.row_nodes[r0].len() as int),
            self.row_list@[r0].chosen,
        ensures
            self.committed(),
    {
        let rn = self.shadow@.row_nodes[r0];
        let len = rn.len() as int;
        assert forall|c: int| 0 <= c < self.nc() implies #[trigger] self.column_settled(c) by {
            assert(self.column_settled_but(c, r0));
        }
        assert forall|r: int| 0 <= r < self.nr() implies #[trigger] self.row_settled(r) by {
            if r == r0 {
                assert forall|k: int| 0 <= k < rn.len() implies self.shadow@.cover_cell[self.col_of(
                    #[trigger] rn[k] as int,
                )] == rn[k] by {
                    assert(Self::off(p0, k, len) < len);
                }
            }
        }
    }

    /// Node `n` has the stamp it had in `pre`, or was linked in `pre`, in a
    /// column in play, and has been taken out by an operation from `d0` on.
    pub(crate) open spec fn kill_ok(&self, pre: &PuzzleSolver, d0: int, n: int) -> bool {
        (self.shadow@.vop[n] == pre.shadow@.vop[n] && self.shadow@.vsub[n] == pre.shadow@.vsub[n])
            || {
            &&& pre.shadow@.vop[n] < 0
            &&& self.is_cell(n)
            &&& 0 <= self.col_of(n) < self.nc()
            &&& self.shadow@.vop[n] >= d0
            &&& pre.shadow@.cop[self.col_of(n)] < 0
        }
    }

    /// Column `c` is as it was in `pre`, or was in play in `pre` and has
    /// been covered by an operation from `d0` on.
    pub(crate) open spec fn cop_ok(&self, pre: &PuzzleSolver, d0: int, c: int) -> bool {
        (self.shadow@.cop[c] == pre.shadow@.cop[c] && self.shadow@.cover_cell[c]
            == pre.shadow@.cover_cell[c]) || (pre.shadow@.cop[c] < 0 && self.shadow@.cop[c] >= d0)
    }

    /// The links of node `n` are as in `pre` if it was out of its vertical
    /// list in `pre`, and so are its horizontal links and its header stamp
    /// if it is a cell or was out of its header list; a head that is out
    /// only now has left its list by an operation from `d0` on.
    pub(crate) open spec fn ptr_kept(&self, pre: &PuzzleSolver, d0: int, n: int) -> bool {
        let sh = self.shadow@;
        let psh = pre.shadow@;
        &&& psh.vop[n] >= 0 ==> self.up@[n] == pre.up@[n] && self.down@[n] == pre.down@[n]
        &&& (sh.hop[n] == psh.hop[n] && sh.hsub[n] == psh.hsub[n]) || (psh.hop[n] < 0 && sh.hop[n]
            >= d0)
        &&& (psh.hhome[n] < 0 || psh.hop[n] >= 0) ==> self.left@[n] == pre.left@[n]
            && self.right@[n] == pre.right@[n]
    }

    /// The links of node `n` are as in `pre` if it is out of its vertical
    /// list, and so are its horizontal links and its header stamp if it is
    /// a cell or out of its header list; a head that was out only in `pre`
    /// had left its list by an operation from `d0` on.
    pub(crate) open spec fn ptr_back(&self, pre: &PuzzleSolver, d0: int, n: int) -> bool {
        let sh = self.shadow@;
        let psh = pre.shadow@;
        &&& sh.vop[n] >= 0 ==> self.up@[n] == pre.up@[n] && self.down@[n] == pre.down@[n]
        &&& (sh.hop[n] == psh.hop[n] && sh.hsub[n] == psh.hsub[n]) || (psh.hop[n] >= d0 && sh.hop[n]
            == -1)
        &&& (sh.hhome[n] < 0 || sh.hop[n] >= 0) ==> self.left@[n] == pre.left@[n] && self.right@[n]
            == pre.right@[n]
    }

    /// The cover of a column leaves the links of the nodes that were out
    /// as they were.
    pub(crate) proof fn lemma_ptr_cover(&self, pre: &PuzzleSolver, c: int)
        requires
            pre.links(0),
            0 <= c < pre.nc(),
            pre.shadow@.cop[c] < 0,
            self.nn() == pre.nn(),
            self.shadow@.hhome == pre.shadow@.hhome,
            self.dead_kept(pre),
            self.hchain() == if pre.kind_of(c) == ColumnType::Constraint {
                pre.hchain()
            } else {
                pre.hchain().unlinked(pre.head_of(c), pre.shadow@.ops.len() as int, 0)
            },
        ensures
            forall|n: int|
                0 <= n < self.nn() ==> #[trigger] self.ptr_kept(
                    pre,
                    pre.shadow@.ops.len() as int,
                    n,
                ),
    {
        let h = pre.head_of(c);
        let d = pre.shadow@.ops.len() as int;
        assert(pre.column_shape(c));
        assert(pre.column_links(c, 0));
        assert(pre.node_shape(h));
        assert(pre.hchain().node_ok(h));
        if pre.kind_of(c) != ColumnType::Constraint {
            lemma_linked_loop(pre.hchain(), h);
            let p = pre.left@[h] as int;
            let x = pre.right@[h] as int;
            assert(pre.hchain().node_ok(p));
            assert(pre.hchain().node_ok(x));
            assert(pre.node_shape(p));
            assert(pre.node_shape(x));
            assert(pre.hchain().alive(p));
            assert(pre.hchain().alive(x));
        }
        assert forall|n: int| 0 <= n < self.nn() implies #[trigger] self.ptr_kept(pre, d, n) by {
            assert(pre.node_shape(n));
            assert(pre.hchain().node_ok(n));
        }
    }

    /// The uncover of the column that was covered last leaves the links
    /// of the nodes that are out as they were.
    pub(crate) proof fn lemma_ptr_uncover(&self, pre: &PuzzleSolver, c: int)
        requires
            pre.links(0),
            0 <= c < pre.nc(),
            pre.shadow@.ops.len() >= 1,
            pre.shadow@.cop[c] == pre.shadow@.ops.len() - 1,
            pre.shadow@.cop[c] >= pre.shadow@.floor,
            self.nn() == pre.nn(),
            self.shadow@.hhome == pre.shadow@.hhome,
            self.out_kept(pre),
            self.hchain() == if pre.kind_of(c) == ColumnType::Constraint {
                pre.hchain()
            } else {
                pre.hchain().relinked(pre.head_of(c))
            },
        ensures
            forall|n: int|
                0 <= n < self.nn() ==> #[trigger] self.ptr_back(
                    pre,
                    pre.shadow@.ops.len() - 1,
                    n,
                ),
    {
        let h = pre.head_of(c);
        let d = pre.shadow@.ops.len() - 1;
        assert(pre.column_shape(c));
        assert(pre.column_links(c, 0));
        assert(pre.node_shape(h));
        assert(pre.hchain().node_ok(h));
        if pre.kind_of(c) != ColumnType::Constraint {
            let p = pre.left@[h] as int;
            let x = pre.right@[h] as int;
            assert(pre.hchain().node_ok(p));
            assert(pre.hchain().node_ok(x));
            assert(pre.node_shape(p));
            assert(pre.node_shape(x));
            // a head that is out left its list before the column that was
            // covered last
            assert forall|m: int|
                0 <= m < pre.nn() && m != h && pre.shadow@.hhome[m] >= 0 implies pre.shadow@.hop[m]
                < d by {
                assert(pre.node_shape(m));
                assert(pre.hop_ok(m));
                if pre.shadow@.hop[m] >= 0 {
                    let cm = pre.col_of(m);
                    assert(pre.column_shape(cm));
                    assert(pre.column_links(cm, 0));
                    assert(pre.head_of(cm) == m);
                }
            }
            assert(pre.hchain().alive(p));
            assert(pre.hchain().alive(x));
        }
        assert forall|n: int| 0 <= n < self.nn() implies #[trigger] self.ptr_back(pre, d, n) by {
            assert(pre.node_shape(n));
            assert(pre.hchain().node_ok(n));
        }
    }

    /// `self` comes from `pre` by covers numbered from `d0` on.
    pub(crate) open spec fn grown_cover(&self, pre: &PuzzleSolver, d0: int) -> bool {
        let sh = self.shadow@;
        let psh = pre.shadow@;
        &&& self.node_list@ == pre.node_list@
        &&& self.nc() == pre.nc()
        &&& sh.vhome == psh.vhome
        &&& sh.hhome == psh.hhome
        &&& sh.pos == psh.pos
        &&& sh.row_nodes == psh.row_nodes
        &&& sh.col_rows == psh.col_rows
        &&& sh.floor == psh.floor
        &&& sh.marks == psh.marks
        &&& sh.ops.len() >= psh.ops.len()
        &&& sh.vop.len() == psh.vop.len()
        &&& sh.cop.len() == psh.cop.len()
        &&& (forall|n: int| 0 <= n < self.nn() ==> #[trigger] self.kill_ok(pre, d0, n))
        &&& (forall|c: int| 0 <= c < self.nc() ==> #[trigger] self.cop_ok(pre, d0, c))
        &&& (forall|n: int| 0 <= n < self.nn() ==> #[trigger] self.ptr_kept(pre, d0, n))
    }

    /// Node `n` has the stamp it had in `pre`, or was out in `pre` by an
    /// operation from `d0` on and is linked again.
    pub(crate) open spec fn revive_ok(&self, pre: &PuzzleSolver, d0: int, n: int) -> bool {
        (self.shadow@.vop[n] == pre.shadow@.vop[n] && self.shadow@.vsub[n] == pre.shadow@.vsub[n])
            || {
            &&& pre.shadow@.vop[n] >= d0
            &&& self.is_cell(n)
            &&& 0 <= self.col_of(n) < self.nc()
            &&& self.shadow@.vop[n] == -1
            &&& self.shadow@.vsub[n] == -1
            &&& self.shadow@.cop[self.col_of(n)] < 0
        }
    }

    /// Column `c` is as it was in `pre`, or was covered in `pre` by an
    /// operation from `d0` on and is in play again.
    pub(crate) open spec fn uncop_ok(&self, pre: &PuzzleSolver, d0: int, c: int) -> bool {
        (self.shadow@.cop[c] == pre.shadow@.cop[c] && self.shadow@.cover_cell[c]
            == pre.shadow@.cover_cell[c]) || (pre.shadow@.cop[c] >= d0 && self.shadow@.cop[c] == -1
            && self.shadow@.cover_cell[c] == -1)
    }

    /// `self` comes from `pre` by undoing covers numbered from `d0` on.
    pub(crate) open spec fn shrunk_cover(&self, pre: &PuzzleSolver, d0: int) -> bool {
        let sh = self.shadow@;
        let psh = pre.shadow@;
        &&& self.node_list@ == pre.node_list@
        &&& self.nc() == pre.nc()
        &&& sh.vhome == psh.vhome
        &&& sh.hhome == psh.hhome
        &&& sh.pos == psh.pos
        &&& sh.row_nodes == psh.row_nodes
        &&& sh.col_rows == psh.col_rows
        &&& sh.floor == psh.floor
        &&& sh.marks == psh.marks
        &&& sh.ops.len() <= psh.ops.len()
        &&& sh.vop.len() == psh.vop.len()
        &&& sh.cop.len() == psh.cop.len()
        &&& (forall|n: int| 0 <= n < self.nn() ==> #[trigger] self.revive_ok(pre, d0, n))
        &&& (forall|c: int| 0 <= c < self.nc() ==> #[trigger] self.uncop_ok(pre, d0, c))
        &&& (forall|n: int| 0 <= n < self.nn() ==> #[trigger] self.ptr_back(pre, d0, n))
    }

    /// Covers column `column` for the cell `x` of the row that is being
    /// committed to.
    pub(crate) fn cover_for(
        &mut self,
        column: usize,
        Ghost(x): Ghost<int>,
        Ghost(pre): Ghost<PuzzleSolver>,
        Ghost(d0): Ghost<int>,
    )
        requires
            old(self).links(0),
            old(self).rows_settled(),
            column < old(self).nc(),
            old(self).shadow@.cop[column as int] < 0,
            old(self).is_cell(x),
            old(self).col_of(x) == column,
            old(self).grown_cover(&pre, d0),
            0 <= d0 <= old(self).shadow@.ops.len(),
        ensures
            final(self).links(0),
            final(self).rows_settled(),
            final(self).grown_cover(&pre, d0),
            final(self).same_frame(old(self)),
            final(self).shadow@.ops == old(self).shadow@.ops.push(column as int),
            final(self).shadow@.cop == old(self).shadow@.cop.update(
                column as int,
                old(self).shadow@.ops.len() as int,
            ),
            final(self).shadow@.cover_cell == old(self).shadow@.cover_cell.update(column as int, x),
            final(self).grown_cover(old(self), old(self).shadow@.ops.len() as int),
            final(self).budget() == old(self).budget(),
    {
        let ghost before = *self;
        self.remove_column(column);
        proof {
            let ghost after = *self;
            after.lemma_open_flip(&before, column as int, before.nc());
            self.shadow@.cover_cell = self.shadow@.cover_cell.update(column as int, x);
            self.lemma_open_same(&after, before.nc());
            self.lemma_cover_cell_free(&after);
            self.lemma_same_frame_trans(&after, &before);
            assert forall|n: int| 0 <= n < self.nn() implies #[trigger] self.delta_ok(
                &before,
                before.shadow@.ops.len() as int,
                before.nn(),
                -1,
                n,
            ) by {
                assert(after.delta_ok(&before, before.shadow@.ops.len() as int, before.nn(), -1, n));
            }
            assert(self.dead_kept(&before)) by {
                assert(after.dead_kept(&before));
            }
            assert(self.hchain() == after.hchain());
            self.lemma_grown_one(&before, column as int);
            self.lemma_grown_trans(&before, &pre, before.shadow@.ops.len() as int, d0);
        }
    }

    /// The record of the cell a column is covered for is pure bookkeeping.
    pub(crate) proof fn lemma_cover_cell_free(&self, pre: &PuzzleSolver)
        requires
            pre.links(0),
            pre.rows_settled(),
            self.node_list@ == pre.node_list@,
            self.row_list@ == pre.row_list@,
            self.column_list@ == pre.column_list@,
            self.condition_state_list@ == pre.condition_state_list@,
            self.up@ == pre.up@,
            self.down@ == pre.down@,
            self.left@ == pre.left@,
            self.right@ == pre.right@,
            self.state_stack@ == pre.state_stack@,
            self.shadow@ == (Shadow { cover_cell: self.shadow@.cover_cell, ..pre.shadow@ }),
            self.shadow@.cover_cell.len() == pre.shadow@.cover_cell.len(),
        ensures
            self.links(0),
            self.rows_settled(),
            self.same_frame(pre),
    {
        assert(self.vchain() == pre.vchain());
        assert(self.hchain() == pre.hchain());
        assert forall|n: int| 0 <= n < self.nn() implies #[trigger] self.node_shape(n) by {
            assert(pre.node_shape(n));
        }
        assert forall|c: int| 0 <= c < self.nc() implies #[trigger] self.column_shape(c) by {
            assert(pre.column_shape(c));
            assert forall|i: int| 0 <= i < self.shadow@.col_rows[c].len() implies #[trigger] self.cell_at(
                c,
                i,
            ) == (crate::dancing_links::Node {
                row: self.shadow@.col_rows[c][i],
                column: c as usize,
            }) by {
                assert(pre.cell_at(c, i) == self.cell_at(c, i));
            }
        }
        assert forall|g: int| 0 <= g < self.ng() implies #[trigger] self.group_shape(g) by {
            assert(pre.group_shape(g));
        }
        assert forall|r: int| 0 <= r < self.nr() implies #[trigger] self.row_shape(r) by {
            assert(pre.row_shape(r));
            assert forall|i: int|
                0 <= i < self.shadow@.row_nodes[r].len() implies #[trigger] self.row_link_ok(r, i) by {
                assert(pre.row_link_ok(r, i));
            }
        }
        assert forall|c: int| 0 <= c < self.nc() implies #[trigger] self.column_links(c, 0) by {
            assert(pre.column_links(c, 0));
        }
        assert forall|g: int| 0 <= g < self.ng() implies #[trigger] self.group_links(g) by {
            assert(pre.group_links(g));
            crate::splice::lemma_holes_same(pre, self, g, pre.nc());
        }
        assert forall|n: int| 0 <= n < self.nn() implies #[trigger] self.hop_ok(n) by {
            assert(pre.hop_ok(n));
        }
        self.lemma_rows_same(pre);
    }

    /// One cover, with the record of the cell it is for, is a growth by
    /// covers from its own number on.
    pub(crate) proof fn lemma_grown_one(&self, pre: &PuzzleSolver, c: int)
        requires
            pre.links(0),
            0 <= c < pre.nc(),
            self.same_frame(pre),
            self.shadow@ == (Shadow {
                ops: pre.shadow@.ops.push(c),
                cop: pre.shadow@.cop.update(c, pre.shadow@.ops.len() as int),
                hop: self.shadow@.hop,
                hsub: self.shadow@.hsub,
                vop: self.shadow@.vop,
                vsub: self.shadow@.vsub,
                cover_cell: self.shadow@.cover_cell,
                ..pre.shadow@
            }),
            self.shadow@.vop.len() == pre.shadow@.vop.len(),
            self.shadow@.cover_cell.len() == pre.shadow@.cover_cell.len(),
            forall|c2: int|
                0 <= c2 < pre.nc() && c2 != c ==> #[trigger] self.shadow@.cover_cell[c2]
                    == pre.shadow@.cover_cell[c2],
            pre.shadow@.cop[c] < 0,
            self.cover_delta(pre, pre.shadow@.ops.len() as int, pre.nn(), -1),
            self.dead_kept(pre),
            self.hchain() == if pre.kind_of(c) == ColumnType::Constraint {
                pre.hchain()
            } else {
                pre.hchain().unlinked(pre.head_of(c), pre.shadow@.ops.len() as int, 0)
            },
        ensures
            self.grown_cover(pre, pre.shadow@.ops.len() as int),
    {
        let d = pre.shadow@.ops.len() as int;
        self.lemma_ptr_cover(pre, c);
        assert forall|n: int| 0 <= n < self.nn() implies #[trigger] self.kill_ok(pre, d, n) by {
            assert(self.delta_ok(pre, d, pre.nn(), -1, n));
            assert(pre.node_shape(n));
        }
        assert forall|c2: int| 0 <= c2 < self.nc() implies #[trigger] self.cop_ok(pre, d, c2) by {
            if c2 != c {
                assert(self.shadow@.cover_cell[c2] == pre.shadow@.cover_cell[c2]);
            }
        }
    }

    pub(crate) proof fn lemma_grown_trans(
        &self,
        mid: &PuzzleSolver,
        pre: &PuzzleSolver,
        d1: int,
        d0: int,
    )
        requires
            self.grown_cover(mid, d1),
            mid.grown_cover(pre, d0),
            0 <= d0 <= d1,
        ensures
            self.grown_cover(pre, d0),
    {
        assert forall|n: int| 0 <= n < self.nn() implies #[trigger] self.kill_ok(pre, d0, n) by {
            assert(self.kill_ok(mid, d1, n));
            assert(mid.kill_ok(pre, d0, n));
            if !(self.shadow@.vop[n] == mid.shadow@.vop[n] && self.shadow@.vsub[n]
                == mid.shadow@.vsub[n]) {
                // linked in `mid`, so unchanged between `pre` and `mid`
                let c = self.col_of(n);
                assert(mid.cop_ok(pre, d0, c));
            }
        }
        assert forall|c: int| 0 <= c < self.nc() implies #[trigger] self.cop_ok(pre, d0, c) by {
            assert(self.cop_ok(mid, d1, c));
            assert(mid.cop_ok(pre, d0, c));
        }
        assert forall|n: int| 0 <= n < self.nn() implies #[trigger] self.ptr_kept(pre, d0, n) by {
            assert(self.ptr_kept(mid, d1, n));
            assert(mid.ptr_kept(pre, d0, n));
            assert(mid.kill_ok(pre, d0, n));
        }
    }

    pub(crate) proof fn lemma_grown_refl(&self, d0: int)
        ensures
            self.grown_cover(self, d0),
    {
        assert forall|n: int| 0 <= n < self.nn() implies #[trigger] self.kill_ok(self, d0, n) by {}
        assert forall|c: int| 0 <= c < self.nc() implies #[trigger] self.cop_ok(self, d0, c) by {}
        assert forall|n: int| 0 <= n < self.nn() implies #[trigger] self.ptr_kept(self, d0, n) by {}
    }

    /// Marking a row as chosen or not touches nothing but the mark.
    pub(crate) proof fn lemma_flag_set(&self, pre: &PuzzleSolver, r0: int)
        requires
            pre.links(0),
            pre.rows_settled(),
            0 <= r0 < pre.nr(),
            self.node_list@ == pre.node_list@,
            self.column_list@ == pre.column_list@,
            self.condition_state_list@ == pre.condition_state_list@,
            self.up@ == pre.up@,
            self.down@ == pre.down@,
            self.left@ == pre.left@,
            self.right@ == pre.right@,
            self.state_stack@ == pre.state_stack@,
            self.shadow@ == pre.shadow@,
            self.row_list@ == pre.row_list@.update(
                r0,
                crate::dancing_links::Row {
                    head: pre.row_list@[r0].head,
                    chosen: self.row_list@[r0].chosen,
                },
            ),
        ensures
            self.links(0),
            self.rows_settled(),
    {
        assert(self.vchain() == pre.vchain());
        assert(self.hchain() == pre.hchain());
        assert forall|n: int| 0 <= n < self.nn() implies #[trigger] self.node_shape(n) by {
            assert(pre.node_shape(n));
        }
        assert forall|c: int| 0 <= c < self.nc() implies #[trigger] self.column_shape(c) by {
            assert(pre.column_shape(c));
            assert forall|i: int| 0 <= i < self.shadow@.col_rows[c].len() implies #[trigger] self.cell_at(
                c,
                i,
            ) == (crate::dancing_links::Node {
                row: self.shadow@.col_rows[c][i],
                column: c as usize,
            }) by {
                assert(pre.cell_at(c, i) == self.cell_at(c, i));
            }
        }
        assert forall|g: int| 0 <= g < self.ng() implies #[trigger] self.group_shape(g) by {
            assert(pre.group_shape(g));
        }
        assert forall|r: int| 0 <= r < self.nr() implies #[trigger] self.row_shape(r) by {
            assert(pre.row_shape(r));
            assert forall|i: int|
                0 <= i < self.shadow@.row_nodes[r].len() implies #[trigger] self.row_link_ok(r, i) by {
                assert(pre.row_link_ok(r, i));
            }
        }
        assert forall|c: int| 0 <= c < self.nc() implies #[trigger] self.column_links(c, 0) by {
            assert(pre.column_links(c, 0));
        }
        assert forall|g: int| 0 <= g < self.ng() implies #[trigger] self.group_links(g) by {
            assert(pre.group_links(g));
            crate::splice::lemma_holes_same(pre, self, g, pre.nc());
        }
        assert forall|n: int| 0 <= n < self.nn() implies #[trigger] self.hop_ok(n) by {
            assert(pre.hop_ok(n));
        }
        self.lemma_rows_same(pre);
    }

    /// The rows and columns after all columns of the free row `r0` have
    /// been covered: a row is still free when it was free and shares no
    /// column with `r0`; a column is covered when it was, or holds `r0`.
    #[verifier::rlimit(60)]
    proof fn lemma_select_state(&self, pre: &PuzzleSolver, r0: int)
        requires
            pre.links(0),
            pre.rows_settled(),
            pre.is_free(r0),
            self.links(0),
            self.rows_settled(),
            self.grown_cover(pre, pre.shadow@.ops.len() as int),
            self.covering(
                r0,
                0,
                pre.shadow@.ops.len() as int,
                pre.shadow@.row_nodes[r0].len() as int,
            ),
        ensures
            forall|r: int|
                0 <= r < pre.nr() ==> #[trigger] self.is_free(r) == (pre.is_free(r) && !pre@.clash(
                    r0,
                    r,
                )),
            forall|c: int|
                0 <= c < pre.nc() ==> #[trigger] self.is_covered(c) == (pre.is_covered(c)
                    || pre@.hits(c, r0)),
    {
        let d0 = pre.shadow@.ops.len() as int;
        let sh = self.shadow@;
        let psh = pre.shadow@;
        let rn0 = psh.row_nodes[r0];
        let len0 = rn0.len() as int;
        assert(self.nn() == pre.nn());
        assert forall|c: int| 0 <= c < pre.nc() implies #[trigger] self.is_covered(c) == (
        pre.is_covered(c) || pre@.hits(c, r0)) by {
            pre.lemma_hits(c, r0);
            assert(self.cop_ok(pre, d0, c));
            assert(pre.column_links(c, 0));
            assert(self.column_links(c, 0));
            if pre@.hits(c, r0) {
                let x = choose|x: int|
                    #![trigger pre.node_list@[x]]
                    pre.is_cell(x) && pre.row_of(x) == r0 && pre.col_of(x) == c;
                assert(pre.node_shape(x));
                let k = psh.pos[x];
                assert(rn0[k] == x);
                assert(Self::off(0, k, len0) < len0);
                assert(sh.cop[self.col_of(rn0[k] as int)] >= 0);
            }
            if sh.cop[c] >= 0 && psh.cop[c] < 0 {
                let k = sh.cop[c] - d0;
                pre.lemma_row_member(r0, k);
                assert(Self::off(0, k, len0) == k);
                let ck = self.col_of(rn0[k] as int);
                assert(sh.cop[ck] == d0 + k);
                assert(self.column_links(ck, 0));
                assert(ck == c);
                assert(pre.is_cell(rn0[k] as int) && pre.row_of(rn0[k] as int) == r0 && pre.col_of(
                    rn0[k] as int,
                ) == c);
            }
        }
        assert forall|r: int| 0 <= r < pre.nr() implies #[trigger] self.is_free(r) == (pre.is_free(r)
            && !pre@.clash(r0, r)) by {
            let rn = psh.row_nodes[r];
            assert(pre.row_shape(r));
            if self.is_free(r) {
                assert forall|k: int| 0 <= k < rn.len() implies psh.vop[#[trigger] rn[k] as int] < 0
                    && psh.cop[pre.col_of(rn[k] as int)] < 0 by {
                    pre.lemma_row_member(r, k);
                    let x = rn[k] as int;
                    assert(self.kill_ok(pre, d0, x));
                    assert(self.cop_ok(pre, d0, pre.col_of(x)));
                    assert(sh.vop[rn[k] as int] < 0);
                }
                if pre@.clash(r0, r) {
                    let c = choose|c: int| #[trigger] pre@.hits(c, r0) && pre@.hits(c, r);
                    pre.lemma_hits(c, r);
                    let x = choose|x: int|
                        #![trigger pre.node_list@[x]]
                        pre.is_cell(x) && pre.row_of(x) == r && pre.col_of(x) == c;
                    assert(pre.node_shape(x));
                    assert(rn[psh.pos[x]] == x);
                    assert(self.is_covered(c));
                    assert(sh.cop[self.col_of(rn[psh.pos[x]] as int)] < 0);
                    assert(false);
                }
            }
            if pre.is_free(r) && !pre@.clash(r0, r) {
                assert forall|k: int| 0 <= k < rn.len() implies sh.vop[#[trigger] rn[k] as int] < 0
                    && sh.cop[self.col_of(rn[k] as int)] < 0 by {
                    pre.lemma_row_member(r, k);
                    let x = rn[k] as int;
                    let c = pre.col_of(x);
                    assert(psh.vop[rn[k] as int] < 0);
                    assert(pre@.hits(c, r)) by {
                        pre.lemma_hits(c, r);
                        assert(pre.is_cell(x) && pre.row_of(x) == r && pre.col_of(x) == c);
                    }
                    assert(!pre@.hits(c, r0));
                    assert(self.is_covered(c) == (pre.is_covered(c) || pre@.hits(c, r0)));
                    assert(sh.cop[c] < 0);
                    if sh.vop[x] >= 0 {
                        assert(self.kill_ok(pre, d0, x));
                        assert(self.node_settled(x));
                        assert(self.node_settled_at(x, -1, -1, 0));
                        let v = sh.vsub[x];
                        if v >= 0 {
                            let cv = self.col_of(v);
                            assert(self.node_shape(v));
                            assert(self.is_covered(cv) == (pre.is_covered(cv) || pre@.hits(cv, r0)));
                            assert(pre.column_links(cv, 0));
                            assert(self.cop_ok(pre, d0, cv));
                            assert(pre@.hits(cv, r0));
                            assert(pre@.hits(cv, r)) by {
                                pre.lemma_hits(cv, r);
                                assert(pre.is_cell(v) && pre.row_of(v) == r && pre.col_of(v) == cv);
                            }
                            assert(false);
                        } else {
                            assert(false);
                        }
                    }
                }
            }
        }
    }

    /// Commits to the free row `row` before the search: covers every column
    /// that holds it and marks it as chosen.
    pub fn select_row(&mut self, row: usize)
        requires
            old(self).wf(),
            !old(self).started(),
            old(self).is_free(row as int),
        ensures
            final(self).wf(),
            !final(self).started(),
            final(self)@ == old(self)@,
            forall|r: int|
                0 <= r < old(self)@.rows ==> #[trigger] final(self).is_chosen(r) == (old(
                    self,
                ).is_chosen(r) || r == row),
            forall|r: int|
                0 <= r < old(self)@.rows ==> #[trigger] final(self).is_free(r) == (old(
                    self,
                ).is_free(r) && !old(self)@.clash(row as int, r)),
            forall|c: int|
                0 <= c < old(self)@.columns.len() ==> #[trigger] final(self).is_covered(c) == (old(
                    self,
                ).is_covered(c) || old(self)@.hits(c, row as int)),
            forall|s: Set<int>|
                #[trigger] final(self).to_come(s) == (old(self).to_come(s) && s.contains(
                    row as int,
                )),
    {
        proof {
            self.lemma_ready();
        }
        let ghost pre = *self;
        let ghost r0 = row as int;
        let ghost rn = self.shadow@.row_nodes[r0];
        let ghost len = rn.len() as int;
        let ghost d0 = self.shadow@.ops.len() as int;
        proof {
            assert(self.row_shape(r0));
            assert(self.row_link_ok(r0, 0));
            self.lemma_row_member(r0, 0);
            assert(Self::after(0, len) == Self::at(0, 1, len));
        }
        let row_head = self.row_list[row].head;
        let mut row_nodes = vec![row_head];
        let mut node = self.right[row_head];
        let ghost mut j: int = 1;
        proof {
            assert(row_nodes@ =~= rn.subrange(0, 1));
        }
        while node != row_head
            invariant
                self.shape(),
                0 <= r0 < self.nr(),
                rn == self.shadow@.row_nodes[r0],
                len == rn.len(),
                len >= 1,
                row_head == rn[0],
                1 <= j <= len,
                node == rn[Self::at(0, j, len)],
                row_nodes@ == rn.subrange(0, j),
            decreases len - j,
        {
            proof {
                let k = Self::at(0, j, len);
                self.lemma_row_member(r0, k);
                self.lemma_row_member(r0, 0);
                assert(j < len);
                assert(self.row_shape(r0));
                assert(self.row_link_ok(r0, k));
                assert(Self::after(k, len) == Self::at(0, j + 1, len));
                assert(rn.subrange(0, j).push(rn[j]) =~= rn.subrange(0, j + 1));
            }
            row_nodes.push(node);
            node = self.right[node];
            proof {
                j = j + 1;
            }
        }
        proof {
            assert(j == len) by {
                if j < len {
                    self.lemma_row_member(r0, Self::at(0, j, len));
                    self.lemma_row_member(r0, 0);
                }
            }
            assert(rn.subrange(0, len) =~= rn);
            self.lemma_grown_refl(d0);
            pre.lemma_free_not_chosen(r0);
            assert forall|c: int| 0 <= c < self.nc() implies #[trigger] self.column_settled_but(
                c,
                r0,
            ) by {
                assert(self.column_settled(c));
            }
            assert(self.covering(r0, 0, d0, 0));
        }
        let mut i: usize = 0;
        while i < row_nodes.len()
            invariant
                self.links(0),
                self.rows_settled(),
                self.committed_but(r0),
                self.covering(r0, 0, d0, i as int),
                self.grown_cover(&pre, d0),
                self.same_frame(&pre),
                pre.shape(),
                0 <= d0,
                0 <= r0 < self.nr(),
                rn == self.shadow@.row_nodes[r0],
                row_nodes@ == rn,
                len == rn.len(),
                i <= len,
            decreases len - i,
        {
            let ghost before = *self;
            let node = row_nodes[i];
            proof {
                self.lemma_row_member(r0, i as int);
                assert(Self::off(0, i as int, len) == i);
                assert(Self::at(0, i as int, len) == i);
            }
            let column = self.node_list[node].column;
            self.cover_for(column, Ghost(node as int), Ghost(pre), Ghost(d0));
            proof {
                self.lemma_covering_step(&before, r0, 0, d0, i as int, node as int);
                self.lemma_same_frame_trans(&before, &pre);
            }
            i += 1;
        }
        let ghost mid = *self;
        self.row_list[row].chosen = true;
        proof {
            self.shadow@.marks = seq![self.shadow@.ops.len() as int];
            let ghost flagged = PuzzleSolver { shadow: Ghost(mid.shadow@), ..*self };
            flagged.lemma_flag_set(&mid, r0);
            self.lemma_marks_free(&flagged);
            assert forall|c: int| 0 <= c < self.nc() implies #[trigger] self.column_settled_but(
                c,
                r0,
            ) by {
                assert(mid.column_settled_but(c, r0));
                let x = mid.shadow@.cover_cell[c];
                assert(self.shadow@.cover_cell[c] == x);
                assert(self.shadow@.cop[c] == mid.shadow@.cop[c]);
                if mid.shadow@.cop[c] >= 0 {
                    assert(mid.node_shape(x));
                    assert(self.is_cell(x));
                    if mid.row_of(x) != r0 {
                        assert(self.row_list@[mid.row_of(x)] == mid.row_list@[mid.row_of(x)]);
                    }
                }
            }
            assert forall|r: int| 0 <= r < self.nr() && r != r0 implies #[trigger] self.row_settled(
                r,
            ) by {
                assert(mid.row_settled(r));
                assert(self.row_list@[r] == mid.row_list@[r]);
            }
            assert(self.covering(r0, 0, d0, len)) by {
                assert forall|k: int| 0 <= k < rn.len() implies if Self::off(0, k, len) < len {
                    &&& self.shadow@.cop[self.col_of(#[trigger] rn[k] as int)] == d0 + Self::off(
                        0,
                        k,
                        len,
                    )
                    &&& self.shadow@.cover_cell[self.col_of(rn[k] as int)] == rn[k]
                } else {
                    self.shadow@.cop[self.col_of(rn[k] as int)] < 0
                } by {
                    assert(mid.shadow@.cop[mid.col_of(rn[k] as int)] == d0 + Self::off(0, k, len));
                }
            }
            self.lemma_covering_done(r0, 0, d0);
            self.lemma_ready_wf();
            mid.lemma_select_state(&pre, r0);
            assert(self@.columns =~= pre@.columns);
            assert(self@.budgets =~= pre@.budgets) by {
                assert forall|g: int| 0 <= g < pre.ng() implies self@.budgets[g]
                    == pre@.budgets[g] by {
                    assert(mid.condition_state_list@[g].holes == pre.condition_state_list@[g].holes);
                }
            }
            assert forall|r: int| 0 <= r < pre@.rows implies #[trigger] self.is_free(r) == (
            pre.is_free(r) && !pre@.clash(r0, r)) by {
                assert(mid.is_free(r) == (pre.is_free(r) && !pre@.clash(r0, r)));
            }
            assert forall|c: int| 0 <= c < pre@.columns.len() implies #[trigger] self.is_covered(c)
                == (pre.is_covered(c) || pre@.hits(c, r0)) by {
                assert(mid.is_covered(c) == (pre.is_covered(c) || pre@.hits(c, r0)));
            }
            assert forall|s: Set<int>|
                #[trigger] self.to_come(s) == (pre.to_come(s) && s.contains(row as int)) by {
                self.lemma_selected(&pre, row as int, s);
            }
        }
    }

    /// The marks of the stack frames are pure bookkeeping.
    pub(crate) proof fn lemma_marks_free(&self, pre: &PuzzleSolver)
        requires
            pre.links(0),
            pre.rows_settled(),
            *self == (PuzzleSolver {
                shadow: Ghost(Shadow { marks: self.shadow@.marks, ..pre.shadow@ }),
                ..*pre
            }),
            self.shadow@.marks.len() == pre.shadow@.marks.len(),
        ensures
            self.links(0),
            self.rows_settled(),
    {
        assert(self.vchain() == pre.vchain());
        assert(self.hchain() == pre.hchain());
        assert forall|n: int| 0 <= n < self.nn() implies #[trigger] self.node_shape(n) by {
            assert(pre.node_shape(n));
        }
        assert forall|c: int| 0 <= c < self.nc() implies #[trigger] self.column_shape(c) by {
            assert(pre.column_shape(c));
            assert forall|i: int| 0 <= i < self.shadow@.col_rows[c].len() implies #[trigger] self.cell_at(
                c,
                i,
            ) == (crate::dancing_links::Node {
                row: self.shadow@.col_rows[c][i],
                column: c as usize,
            }) by {
                assert(pre.cell_at(c, i) == self.cell_at(c, i));
            }
        }
        assert forall|g: int| 0 <= g < self.ng() implies #[trigger] self.group_shape(g) by {
            assert(pre.group_shape(g));
        }
        assert forall|r: int| 0 <= r < self.nr() implies #[trigger] self.row_shape(r) by {
            assert(pre.row_shape(r));
            assert forall|i: int|
                0 <= i < self.shadow@.row_nodes[r].len() implies #[trigger] self.row_link_ok(r, i) by {
                assert(pre.row_link_ok(r, i));
            }
        }
        assert forall|c: int| 0 <= c < self.nc() implies #[trigger] self.column_links(c, 0) by {
            assert(pre.column_links(c, 0));
        }
        assert forall|g: int| 0 <= g < self.ng() implies #[trigger] self.group_links(g) by {
            assert(pre.group_links(g));
            crate::splice::lemma_holes_same(pre, self, g, pre.nc());
        }
        assert forall|n: int| 0 <= n < self.nn() implies #[trigger] self.hop_ok(n) by {
            assert(pre.hop_ok(n));
        }
        self.lemma_rows_same(pre);
    }

    /// Node `n` has the stamp it had in `pre`, or is a cell of row `r0`
    /// that was linked in `pre` and has been removed by operation `d`.
    pub(crate) open spec fn gone_ok(&self, pre: &PuzzleSolver, r0: int, d: int, n: int) -> bool {
        (self.shadow@.vop[n] == pre.shadow@.vop[n] && self.shadow@.vsub[n] == pre.shadow@.vsub[n])
            || {
            &&& pre.shadow@.vop[n] < 0
            &&& self.is_cell(n)
            &&& self.row_of(n) == r0
            &&& self.shadow@.vop[n] == d
            &&& self.shadow@.vsub[n] == -1
        }
    }

    /// While row `r0` is being removed: its first `j` nodes are out, the
    /// others are as they were in `pre`.
    pub(crate) open spec fn removing(&self, pre: &PuzzleSolver, r0: int, d: int, j: int) -> bool {
        let rn = self.shadow@.row_nodes[r0];
        &&& (forall|n: int| 0 <= n < self.nn() ==> #[trigger] self.gone_ok(pre, r0, d, n))
        &&& (forall|k: int|
            0 <= k < rn.len() ==> if k < j {
                self.shadow@.vop[#[trigger] rn[k] as int] >= 0
            } else {
                self.shadow@.vop[rn[k] as int] == pre.shadow@.vop[rn[k] as int]
            })
    }

    /// The removal of a row counts as an operation of its own.
    proof fn lemma_removal_begins(&self, pre: &PuzzleSolver, r0: int)
        requires
            pre.links(0),
            pre.rows_settled(),
            0 <= r0 < pre.nr(),
            *self == (PuzzleSolver {
                shadow: Ghost(Shadow { ops: pre.shadow@.ops.push(-1), ..pre.shadow@ }),
                ..*pre
            }),
        ensures
            self.links(0),
            self.rows_mid(-1, -1, 0, r0),
            self.removing(pre, r0, pre.shadow@.ops.len() as int, 0),
            self.same_frame(pre),
    {
        assert(self.vchain() == pre.vchain());
        assert(self.hchain() == pre.hchain());
        assert forall|n: int| 0 <= n < self.nn() implies #[trigger] self.node_shape(n) by {
            assert(pre.node_shape(n));
        }
        assert forall|c: int| 0 <= c < self.nc() implies #[trigger] self.column_shape(c) by {
            assert(pre.column_shape(c));
            assert forall|i: int| 0 <= i < self.shadow@.col_rows[c].len() implies #[trigger] self.cell_at(
                c,
                i,
            ) == (crate::dancing_links::Node {
                row: self.shadow@.col_rows[c][i],
                column: c as usize,
            }) by {
                assert(pre.cell_at(c, i) == self.cell_at(c, i));
            }
        }
        assert forall|g: int| 0 <= g < self.ng() implies #[trigger] self.group_shape(g) by {
            assert(pre.group_shape(g));
        }
        assert forall|r: int| 0 <= r < self.nr() implies #[trigger] self.row_shape(r) by {
            assert(pre.row_shape(r));
            assert forall|i: int|
                0 <= i < self.shadow@.row_nodes[r].len() implies #[trigger] self.row_link_ok(r, i) by {
                assert(pre.row_link_ok(r, i));
            }
        }
        assert forall|c: int| 0 <= c < self.nc() implies #[trigger] self.column_links(c, 0) by {
            assert(pre.column_links(c, 0));
        }
        assert forall|g: int| 0 <= g < self.ng() implies #[trigger] self.group_links(g) by {
            assert(pre.group_links(g));
            crate::splice::lemma_holes_same(pre, self, g, pre.nc());
        }
        assert forall|n: int| 0 <= n < self.nn() implies #[trigger] self.hop_ok(n) by {
            assert(pre.hop_ok(n));
        }
        let grown = PuzzleSolver {
            shadow: Ghost(Shadow { ops: pre.shadow@.ops.push(-1), ..pre.shadow@ }),
            ..*pre
        };
        assert forall|n: int| 0 <= n < self.nn() implies #[trigger] self.node_mid(
            n,
            -1,
            -1,
            0,
            r0,
        ) by {
            assert(pre.node_settled(n));
            self.lemma_node_same(pre, n);
        }
        assert forall|n: int| 0 <= n < self.nn() implies #[trigger] self.gone_ok(
            pre,
            r0,
            pre.shadow@.ops.len() as int,
            n,
        ) by {}
    }

    /// After the removal of row `r0` nothing that is out can come back:
    /// the floor rises above the removal, and every row is settled.
    #[verifier::rlimit(60)]
    proof fn lemma_removal_ends(&self, mid: &PuzzleSolver, pre: &PuzzleSolver, r0: int)
        requires
            pre.links(0),
            pre.rows_settled(),
            0 <= r0 < pre.nr(),
            mid.links(0),
            mid.same_frame(pre),
            mid.shadow@ == (Shadow {
                ops: pre.shadow@.ops.push(-1),
                vop: mid.shadow@.vop,
                vsub: mid.shadow@.vsub,
                ..pre.shadow@
            }),
            mid.rows_mid(-1, -1, 0, r0),
            mid.removing(
                pre,
                r0,
                pre.shadow@.ops.len() as int,
                pre.shadow@.row_nodes[r0].len() as int,
            ),
            *self == (PuzzleSolver {
                shadow: Ghost(
                    Shadow {
                        floor: mid.shadow@.ops.len() as int,
                        marks: self.shadow@.marks,
                        ..mid.shadow@
                    },
                ),
                ..*mid
            }),
            self.shadow@.marks.len() == mid.shadow@.marks.len(),
        ensures
            self.links(0),
            self.rows_settled(),
    {
        let d = pre.shadow@.ops.len() as int;
        let f = mid.shadow@.ops.len() as int;
        let sh = self.shadow@;
        let psh = pre.shadow@;
        let rn0 = psh.row_nodes[r0];
        lemma_raise_floor(mid.vchain(), f);
        lemma_raise_floor(mid.hchain(), f);
        assert(self.vchain() == crate::chain::Chain { floor: f, ..mid.vchain() });
        assert(self.hchain() == crate::chain::Chain { floor: f, ..mid.hchain() });
        assert forall|n: int| 0 <= n < self.nn() implies #[trigger] self.node_shape(n) by {
            assert(mid.node_shape(n));
        }
        assert forall|c: int| 0 <= c < self.nc() implies #[trigger] self.column_shape(c) by {
            assert(mid.column_shape(c));
            assert forall|i: int| 0 <= i < self.shadow@.col_rows[c].len() implies #[trigger] self.cell_at(
                c,
                i,
            ) == (crate::dancing_links::Node {
                row: self.shadow@.col_rows[c][i],
                column: c as usize,
            }) by {
                assert(mid.cell_at(c, i) == self.cell_at(c, i));
            }
        }
        assert forall|g: int| 0 <= g < self.ng() implies #[trigger] self.group_shape(g) by {
            assert(mid.group_shape(g));
        }
        assert forall|r: int| 0 <= r < self.nr() implies #[trigger] self.row_shape(r) by {
            assert(mid.row_shape(r));
            assert forall|i: int|
                0 <= i < self.shadow@.row_nodes[r].len() implies #[trigger] self.row_link_ok(r, i) by {
                assert(mid.row_link_ok(r, i));
            }
        }
        assert forall|c: int| 0 <= c < self.nc() implies #[trigger] self.column_links(c, 0) by {
            assert(mid.column_links(c, 0));
            crate::chain::lemma_linked_below_same(
                mid.vchain(),
                self.vchain(),
                mid.head_of(c),
                mid.nn(),
            );
        }
        assert forall|g: int| 0 <= g < self.ng() implies #[trigger] self.group_links(g) by {
            assert(mid.group_links(g));
            crate::splice::lemma_holes_same(mid, self, g, mid.nc());
        }
        assert forall|n: int| 0 <= n < self.nn() implies #[trigger] self.hop_ok(n) by {
            assert(mid.hop_ok(n));
        }
        assert forall|n: int| 0 <= n < self.nn() implies #[trigger] self.node_settled(n) by {
            assert(mid.node_mid(n, -1, -1, 0, r0));
            assert(mid.gone_ok(pre, r0, d, n));
            assert(pre.node_settled(n));
            assert(pre.node_settled_at(n, -1, -1, 0));
            let dn = sh.vop[n];
            let v = sh.vsub[n];
            let cn = self.col_of(n);
            assert(self.vcop(-1, -1, cn) == mid.vcop(-1, -1, cn));
            if self.is_cell(n) && self.row_of(n) == r0 {
                assert(mid.node_shape(n));
                assert(forall|k: int| 0 <= k < rn0.len() ==> sh.vop[#[trigger] rn0[k] as int] >= 0);
                assert(rn0[psh.pos[n]] == n);
                assert(dn >= 0);
                if v >= 0 {
                    assert(psh.vop[n] == dn && psh.vsub[n] == v);
                    assert(mid.gone_ok(pre, r0, d, v));
                    assert(self.vcop(-1, -1, self.col_of(v)) == pre.vcop(-1, -1, pre.col_of(v)));
                    assert(dn < d);
                    assert(self.vcop(-1, -1, cn) == pre.vcop(-1, -1, cn));
                } else {
                    assert(dn < f);
                }
                assert(self.node_settled_at(n, -1, -1, 0));
            } else {
                assert(mid.node_settled_at(n, -1, -1, 0));
                self.lemma_node_same(mid, n);
            }
        }
    }

    /// Removes row `row` before the search: takes each of its cells that is
    /// still linked out of its column, for good.
    pub fn deselect_row(&mut self, row: usize)
        requires
            old(self).wf(),
            !old(self).started(),
            row < old(self)@.rows,
        ensures
            final(self).wf(),
            !final(self).started(),
            final(self)@ == old(self)@,
            forall|r: int|
                0 <= r < old(self)@.rows ==> #[trigger] final(self).is_chosen(r) == old(
                    self,
                ).is_chosen(r),
            forall|r: int|
                0 <= r < old(self)@.rows ==> #[trigger] final(self).is_free(r) == (old(
                    self,
                ).is_free(r) && r != row),
            forall|c: int|
                0 <= c < old(self)@.columns.len() ==> #[trigger] final(self).is_covered(c) == old(
                    self,
                ).is_covered(c),
            forall|s: Set<int>|
                !old(self).is_chosen(row as int) ==> #[trigger] final(self).to_come(s) == (old(
                    self,
                ).to_come(s) && !s.contains(row as int)),
            final(self).same_frame(old(self)),
            final(self).layout().left == old(self).layout().left,
            final(self).layout().right == old(self).layout().right,
            forall|n: int|
                old(self).is_cell(n) ==> #[trigger] final(self).is_linked(n) == (old(
                    self,
                ).is_linked(n) && old(self).row_of(n) != row),
            forall|c: int|
                0 <= c < old(self)@.columns.len() ==> #[trigger] final(self).count_of(c) == old(
                    self,
                ).count_of(c) - if old(self).holds_linked(row as int, c) {
                    1int
                } else {
                    0int
                },
            forall|g: int|
                0 <= g < old(self)@.budgets.len() ==> #[trigger] final(self).hole_count(g)
                    == final(self).empty_columns(g),
            (forall|n: int|
                old(self).is_cell(n) && old(self).row_of(n) == row ==> !#[trigger] old(
                    self,
                ).is_linked(n)) ==> final(self).layout() == old(self).layout(),
    {
        proof {
            self.lemma_ready();
        }
        let ghost pre = *self;
        let ghost r0 = row as int;
        let ghost rn = self.shadow@.row_nodes[r0];
        let ghost len = rn.len() as int;
        let ghost d = self.shadow@.ops.len() as int;
        proof {
            self.shadow@.ops = self.shadow@.ops.push(-1);
            self.lemma_removal_begins(&pre, r0);
            assert(self.row_shape(r0));
            self.lemma_row_member(r0, 0);
        }
        let ghost start = *self;
        let row_head = self.row_list[row].head;
        let mut node = row_head;
        let ghost mut j: int = 0;
        proof {
            assert forall|c: int| 0 <= c < self.nc() implies #[trigger] self.count_after(
                &pre,
                r0,
                0,
                c,
            ) by {
                if pre.dropped(r0, 0, c) {
                    let k = choose|k: int| 0 <= k < 0 && #[trigger] pre.drop_at(r0, k, c);
                }
            }
        }
        loop
            invariant_except_break
                0 <= j < len,
                node == rn[j],
            invariant
                self.links(0),
                self.same_frame(&start),
                self.left@ == start.left@,
                self.right@ == start.right@,
                self.same_shadow_but_vstamps(&start),
                start.shape(),
                start.shadow@ == (Shadow { ops: pre.shadow@.ops.push(-1), ..pre.shadow@ }),
                start.same_frame(&pre),
                pre.rows_settled(),
                pre.shape(),
                0 <= r0 < self.nr(),
                row == r0,
                rn == self.shadow@.row_nodes[r0],
                len == rn.len(),
                row_head == rn[0],
                d == pre.shadow@.ops.len(),
                d >= self.shadow@.floor,
                d >= 0,
                self.rows_mid(-1, -1, 0, r0),
                self.removing(&pre, r0, d, j),
                self.counts_after(&pre, r0, j),
                pre.none_dropped(r0, j) ==> self.layout() == pre.layout(),
            ensures
                j == len,
            decreases len - j,
        {
            let ghost before = *self;
            let ghost x = node as int;
            proof {
                self.lemma_row_member(r0, j);
                assert(self.node_shape(x));
                assert(self.vchain().node_ok(x));
                if self.shadow@.vop[x] < 0 {
                    lemma_linked_loop(self.vchain(), x);
                }
            }
            if self.down[self.up[node]] == node {
                proof {
                    self.lemma_newest_in_removal(&pre, r0, d, x);
                }
                self.unlink_cell(node, Ghost(d), Ghost(-1));
                proof {
                    self.lemma_same_frame_trans(&before, &start);
                    self.lemma_mid_frame(&before, -1, -1, 0, r0);
                    assert(self.shadow@.vop == before.shadow@.vop.update(x, d));
                    assert(self.shadow@.vsub == before.shadow@.vsub.update(x, -1));
                }
            }
            proof {
                assert forall|n: int| 0 <= n < self.nn() implies #[trigger] self.gone_ok(
                    &pre,
                    r0,
                    d,
                    n,
                ) by {
                    assert(before.gone_ok(&pre, r0, d, n));
                    if n == x {
                        assert(before.shadow@.vop[rn[j] as int] == pre.shadow@.vop[rn[j] as int]);
                    }
                }
                assert forall|k: int| 0 <= k < rn.len() implies if k < j + 1 {
                    self.shadow@.vop[#[trigger] rn[k] as int] >= 0
                } else {
                    self.shadow@.vop[rn[k] as int] == pre.shadow@.vop[rn[k] as int]
                } by {
                    self.lemma_row_member(r0, k);
                    if k != j {
                        assert(rn[k] != rn[j]);
                        assert(before.shadow@.vop[rn[k] as int] == self.shadow@.vop[rn[k] as int]);
                    }
                }
                assert(self.row_shape(r0));
                assert(self.row_link_ok(r0, j));
                self.lemma_count_step(&before, &pre, r0, j);
            }
            node = self.right[node];
            proof {
                j = j + 1;
                if j < len {
                    self.lemma_row_member(r0, j);
                    self.lemma_row_member(r0, 0);
                }
            }
            if node == row_head {
                break ;
            }
        }
        let ghost mid = *self;
        proof {
            self.shadow@.floor = self.shadow@.ops.len() as int;
            self.shadow@.marks = seq![self.shadow@.ops.len() as int];
            self.lemma_same_frame_trans(&start, &pre);
            mid.lemma_same_frame_trans(&start, &pre);
            self.lemma_removal_ends(&mid, &pre, r0);
            assert forall|c: int| 0 <= c < self.nc() implies #[trigger] self.column_settled(c) by {
                assert(pre.column_settled(c));
            }
            assert forall|r: int| 0 <= r < self.nr() implies #[trigger] self.row_settled(r) by {
                assert(pre.row_settled(r));
            }
            self.lemma_ready_wf();
            assert(self@.columns =~= pre@.columns);
            assert(self@.budgets =~= pre@.budgets) by {
                assert forall|g: int| 0 <= g < pre.ng() implies self@.budgets[g]
                    == pre@.budgets[g] by {
                    assert(self.condition_state_list@[g].holes == pre.condition_state_list@[g].holes);
                }
            }
            assert forall|r: int| 0 <= r < pre@.rows implies #[trigger] self.is_free(r) == (
            pre.is_free(r) && r != row) by {
                let rr = pre.shadow@.row_nodes[r];
                assert(pre.row_shape(r));
                if r == r0 {
                    assert(self.shadow@.vop[rr[0] as int] >= 0);
                } else {
                    assert forall|k: int| 0 <= k < rr.len() implies self.shadow@.vop[#[trigger] rr[k] as int]
                        == pre.shadow@.vop[rr[k] as int] by {
                        pre.lemma_row_member(r, k);
                        assert(mid.gone_ok(&pre, r0, d, rr[k] as int));
                    }
                    if pre.is_free(r) {
                        assert forall|k: int| 0 <= k < rr.len() implies self.shadow@.vop[#[trigger] rr[k] as int]
                            < 0 && self.shadow@.cop[self.col_of(rr[k] as int)] < 0 by {
                            assert(pre.shadow@.vop[rr[k] as int] < 0);
                        }
                    }
                    if self.is_free(r) {
                        assert forall|k: int| 0 <= k < rr.len() implies pre.shadow@.vop[#[trigger] rr[k] as int]
                            < 0 && pre.shadow@.cop[pre.col_of(rr[k] as int)] < 0 by {
                            assert(self.shadow@.vop[rr[k] as int] < 0);
                        }
                    }
                }
            }
            if !pre.is_chosen(row as int) {
                assert forall|s: Set<int>|
                    #[trigger] self.to_come(s) == (pre.to_come(s) && !s.contains(row as int)) by {
                    self.lemma_deselected(&pre, row as int, s);
                }
            }
            self.lemma_removed(&mid, &pre, r0, d);
            assert forall|g: int| 0 <= g < pre@.budgets.len() implies #[trigger] self.hole_count(g)
                == self.empty_columns(g) by {
                assert(self.group_links(g));
            }
        }
    }

    /// The node `n` is linked in the vertical list of its column: the node
    /// above it points down at it.
    pub open(crate) spec fn is_linked(&self, n: int) -> bool {
        0 <= n < self.nn() && self.down@[self.up@[n] as int] == n
    }

    /// Row `r` has a linked cell in column `c`.
    pub open(crate) spec fn holds_linked(&self, r: int, c: int) -> bool {
        exists|n: int|
            #[trigger] self.is_linked(n) && self.is_cell(n) && self.row_of(n) == r && self.col_of(
                n,
            ) == c
    }

    /// A cell is linked exactly if no operation has taken it out.
    pub(crate) proof fn lemma_linked_iff(&self, n: int)
        requires
            self.links(0),
            self.is_cell(n),
        ensures
            self.is_linked(n) == (self.shadow@.vop[n] < 0),
    {
        assert(self.node_shape(n));
        assert(self.vchain().node_ok(n));
        if self.shadow@.vop[n] < 0 {
            lemma_linked_loop(self.vchain(), n);
        }
    }

    /// The `k`-th cell of row `r0` lies in column `c` and is linked.
    pub(crate) open spec fn drop_at(&self, r0: int, k: int, c: int) -> bool {
        let n = self.shadow@.row_nodes[r0][k] as int;
        self.col_of(n) == c && self.shadow@.vop[n] < 0
    }

    /// One of the first `j` cells of row `r0` lies in column `c` and is
    /// linked.
    pub(crate) open spec fn dropped(&self, r0: int, j: int, c: int) -> bool {
        exists|k: int| 0 <= k < j && #[trigger] self.drop_at(r0, k, c)
    }

    /// None of the first `j` cells of row `r0` is linked.
    pub(crate) open spec fn none_dropped(&self, r0: int, j: int) -> bool {
        forall|k: int, c: int| 0 <= k < j ==> !#[trigger] self.drop_at(r0, k, c)
    }

    /// The count of column `c` has fallen by one if one of the first `j`
    /// cells of row `r0` was linked in it in `pre`.
    pub(crate) open spec fn count_after(&self, pre: &PuzzleSolver, r0: int, j: int, c: int) -> bool {
        self.column_list@[c].count == pre.column_list@[c].count - if pre.dropped(r0, j, c) {
            1int
        } else {
            0int
        }
    }

    pub(crate) open spec fn counts_after(&self, pre: &PuzzleSolver, r0: int, j: int) -> bool {
        forall|c: int| 0 <= c < self.nc() ==> #[trigger] self.count_after(pre, r0, j, c)
    }

    /// One more cell of the row has been looked at: taken out if it was
    /// linked, left alone if not.
    proof fn lemma_count_step(&self, before: &PuzzleSolver, pre: &PuzzleSolver, r0: int, j: int)
        requires
            pre.shape(),
            0 <= r0 < pre.nr(),
            0 <= j < pre.shadow@.row_nodes[r0].len(),
            before.nc() == pre.nc(),
            self.nc() == pre.nc(),
            before.counts_after(pre, r0, j),
            pre.none_dropped(r0, j) ==> before.layout() == pre.layout(),
            before.shadow@.vop[pre.shadow@.row_nodes[r0][j] as int]
                == pre.shadow@.vop[pre.shadow@.row_nodes[r0][j] as int],
            before.shadow@.vop[pre.shadow@.row_nodes[r0][j] as int] >= 0 ==> self.layout()
                == before.layout(),
            before.shadow@.vop[pre.shadow@.row_nodes[r0][j] as int] < 0 ==> forall|c: int|
                0 <= c < pre.nc() ==> (#[trigger] self.column_list@[c]).count
                    == before.column_list@[c].count - if c == pre.col_of(
                    pre.shadow@.row_nodes[r0][j] as int,
                ) {
                    1int
                } else {
                    0int
                },
        ensures
            self.counts_after(pre, r0, j + 1),
            pre.none_dropped(r0, j + 1) ==> self.layout() == pre.layout(),
    {
        let rn = pre.shadow@.row_nodes[r0];
        let x = rn[j] as int;
        let cx = pre.col_of(x);
        pre.lemma_row_member(r0, j);
        assert forall|c: int| 0 <= c < self.nc() implies #[trigger] self.count_after(
            pre,
            r0,
            j + 1,
            c,
        ) by {
            assert(before.count_after(pre, r0, j, c));
            if pre.dropped(r0, j, c) {
                let k = choose|k: int| 0 <= k < j && #[trigger] pre.drop_at(r0, k, c);
                assert(pre.drop_at(r0, k, c));
                assert(pre.dropped(r0, j + 1, c));
                if c == cx {
                    pre.lemma_row_member(r0, k);
                    pre.lemma_row_columns_differ(rn[k] as int, x);
                }
            } else if pre.dropped(r0, j + 1, c) {
                let k = choose|k: int| 0 <= k < j + 1 && #[trigger] pre.drop_at(r0, k, c);
                if k < j {
                    assert(pre.drop_at(r0, k, c));
                    assert(false);
                }
                assert(c == cx && pre.shadow@.vop[x] < 0);
            } else {
                assert(!pre.drop_at(r0, j, c));
            }
            if pre.shadow@.vop[x] < 0 && c == cx {
                assert(pre.drop_at(r0, j, c));
            }
        }
        if pre.none_dropped(r0, j + 1) {
            assert(!pre.drop_at(r0, j, cx));
            assert forall|k: int, c: int| 0 <= k < j implies !#[trigger] pre.drop_at(r0, k, c) by {}
        }
    }

    /// What the removal of a row has done to the links and the counts.
    proof fn lemma_removed(&self, mid: &PuzzleSolver, pre: &PuzzleSolver, r0: int, d: int)
        requires
            pre.links(0),
            self.links(0),
            0 <= r0 < pre.nr(),
            self.node_list@ == pre.node_list@,
            self.nc() == pre.nc(),
            self.up@ == mid.up@,
            self.down@ == mid.down@,
            self.left@ == mid.left@,
            self.right@ == mid.right@,
            self.column_list@ == mid.column_list@,
            self.condition_state_list@ == mid.condition_state_list@,
            self.shadow@.vop == mid.shadow@.vop,
            self.shadow@.row_nodes == pre.shadow@.row_nodes,
            mid.shadow@.row_nodes == pre.shadow@.row_nodes,
            mid.node_list@ == pre.node_list@,
            mid.nc() == pre.nc(),
            mid.removing(pre, r0, d, pre.shadow@.row_nodes[r0].len() as int),
            mid.counts_after(pre, r0, pre.shadow@.row_nodes[r0].len() as int),
            pre.none_dropped(r0, pre.shadow@.row_nodes[r0].len() as int) ==> mid.layout()
                == pre.layout(),
            d >= 0,
        ensures
            forall|n: int|
                pre.is_cell(n) ==> #[trigger] self.is_linked(n) == (pre.is_linked(n) && pre.row_of(
                    n,
                ) != r0),
            forall|c: int|
                0 <= c < pre.nc() ==> #[trigger] self.count_of(c) == pre.count_of(c)
                    - if pre.holds_linked(r0, c) {
                    1int
                } else {
                    0int
                },
            (forall|n: int| pre.is_cell(n) && pre.row_of(n) == r0 ==> !#[trigger] pre.is_linked(n))
                ==> self.layout() == pre.layout(),
    {
        let rn = pre.shadow@.row_nodes[r0];
        let len = rn.len() as int;
        assert forall|n: int| pre.is_cell(n) implies #[trigger] self.is_linked(n) == (
        pre.is_linked(n) && pre.row_of(n) != r0) by {
            assert(self.is_cell(n));
            self.lemma_linked_iff(n);
            pre.lemma_linked_iff(n);
            assert(mid.gone_ok(pre, r0, d, n));
            assert(self.shadow@.vop[n] == mid.shadow@.vop[n]);
            if pre.row_of(n) == r0 {
                assert(pre.node_shape(n));
                let k = pre.shadow@.pos[n];
                assert(rn[k] == n);
                assert(mid.shadow@.vop[rn[k] as int] >= 0);
                assert(!self.is_linked(n));
            } else {
                assert(mid.row_of(n) != r0);
                assert(mid.shadow@.vop[n] == pre.shadow@.vop[n]);
            }
        }
        assert forall|c: int| 0 <= c < pre.nc() implies pre.dropped(r0, len, c)
            == pre.holds_linked(r0, c) by {
            if pre.dropped(r0, len, c) {
                let k = choose|k: int| 0 <= k < len && #[trigger] pre.drop_at(r0, k, c);
                pre.lemma_row_member(r0, k);
                pre.lemma_linked_iff(rn[k] as int);
                assert(pre.is_linked(rn[k] as int));
            }
            if pre.holds_linked(r0, c) {
                let n = choose|n: int|
                    #[trigger] pre.is_linked(n) && pre.is_cell(n) && pre.row_of(n) == r0
                        && pre.col_of(n) == c;
                pre.lemma_linked_iff(n);
                assert(pre.node_shape(n));
                let k = pre.shadow@.pos[n];
                assert(rn[k] == n);
                assert(pre.drop_at(r0, k, c));
            }
        }
        assert forall|c: int| 0 <= c < pre.nc() implies #[trigger] self.count_of(c)
            == pre.count_of(c) - if pre.holds_linked(r0, c) {
            1int
        } else {
            0int
        } by {
            assert(mid.count_after(pre, r0, len, c));
        }
        if forall|n: int| pre.is_cell(n) && pre.row_of(n) == r0 ==> !#[trigger] pre.is_linked(n) {
            assert forall|k: int, c: int| 0 <= k < len implies !#[trigger] pre.drop_at(
                r0,
                k,
                c,
            ) by {
                pre.lemma_row_member(r0, k);
                pre.lemma_linked_iff(rn[k] as int);
                assert(!pre.is_linked(rn[k] as int));
            }
            assert(self.layout() == mid.layout());
        }
    }

    /// The stamp of a removal is later than that of every cell that is out
    /// of the column of `x`.
    proof fn lemma_newest_in_removal(&self, pre: &PuzzleSolver, r0: int, d: int, x: int)
        requires
            self.shape(),
            pre.rows_settled(),
            self.nn() == pre.nn(),
            d == pre.shadow@.ops.len(),
            self.is_cell(x),
            self.row_of(x) == r0,
            forall|n: int| 0 <= n < self.nn() ==> #[trigger] self.gone_ok(pre, r0, d, n),
        ensures
            self.vchain().newest(self.shadow@.vhome[x], d, -1, x),
    {
        let s = self.shadow@.vhome[x];
        assert(self.node_shape(x));
        assert forall|m: int|
            0 <= m < self.nn() && #[trigger] self.shadow@.vhome[m] == s && !self.vchain().alive(m)
                && m != x implies self.shadow@.vop[m] < d || (self.shadow@.vop[m] == d
            && self.shadow@.vsub[m] < -1) by {
            assert(self.gone_ok(pre, r0, d, m));
            assert(pre.node_settled(m));
            if self.shadow@.vop[m] == d {
                assert(self.node_shape(m));
                self.lemma_row_columns_differ(m, x);
                assert(self.column_shape(self.col_of(x)));
                assert(self.column_shape(self.col_of(m)));
                assert(false);
            }
        }
    }

    /// Uncovers column `column`, covered by the last operation, and forgets
    /// the cell it was covered for.
    pub(crate) fn uncover_for(
        &mut self,
        column: usize,
        Ghost(pre): Ghost<PuzzleSolver>,
        Ghost(d0): Ghost<int>,
    )
        requires
            old(self).links(0),
            old(self).rows_settled(),
            column < old(self).nc(),
            old(self).shadow@.cop[column as int] == old(self).shadow@.ops.len() - 1,
            old(self).shadow@.cop[column as int] >= old(self).shadow@.floor,
            old(self).shrunk_cover(&pre, d0),
            0 <= d0 <= old(self).shadow@.ops.len() - 1,
        ensures
            final(self).links(0),
            final(self).rows_settled(),
            final(self).shrunk_cover(&pre, d0),
            final(self).same_frame(old(self)),
            final(self).shadow@.ops == old(self).shadow@.ops.drop_last(),
            final(self).shadow@.cop == old(self).shadow@.cop.update(column as int, -1),
            final(self).shadow@.cover_cell == old(self).shadow@.cover_cell.update(
                column as int,
                -1,
            ),
            final(self).shrunk_cover(old(self), old(self).shadow@.ops.len() - 1),
            final(self).budget() == old(self).budget(),
    {
        let ghost before = *self;
        self.resume_column(column);
        proof {
            let ghost after = *self;
            after.lemma_open_flip(&before, column as int, before.nc());
            self.shadow@.cover_cell = self.shadow@.cover_cell.update(column as int, -1);
            self.lemma_open_same(&after, before.nc());
            self.lemma_cover_cell_free(&after);
            self.lemma_same_frame_trans(&after, &before);
            assert forall|n: int| 0 <= n < self.nn() implies (#[trigger] self.shadow@.vop[n]
                == before.shadow@.vop[n] && self.shadow@.vsub[n] == before.shadow@.vsub[n]) || (
            before.shadow@.vop[n] == before.shadow@.ops.len() - 1 && self.shadow@.vop[n] == -1
                && self.shadow@.vsub[n] == -1) by {
                assert((after.shadow@.vop[n] == before.shadow@.vop[n] && after.shadow@.vsub[n]
                    == before.shadow@.vsub[n]) || (before.shadow@.vop[n] == before.shadow@.ops.len()
                    - 1 && after.shadow@.vop[n] == -1 && after.shadow@.vsub[n] == -1));
            }
            assert(self.out_kept(&before)) by {
                assert(after.out_kept(&before));
            }
            assert(self.hchain() == after.hchain());
            self.lemma_shrunk_one(&before, column as int);
            self.lemma_shrunk_trans(&before, &pre, before.shadow@.ops.len() - 1, d0);
        }
    }

    /// One uncover, with the cell it was for forgotten, is a shrinking by
    /// the undoing of covers from its own number on.
    pub(crate) proof fn lemma_shrunk_one(&self, pre: &PuzzleSolver, c: int)
        requires
            pre.links(0),
            pre.rows_settled(),
            0 <= c < pre.nc(),
            self.same_frame(pre),
            pre.shadow@.ops.len() >= 1,
            pre.shadow@.cop[c] == pre.shadow@.ops.len() - 1,
            pre.shadow@.cop[c] >= pre.shadow@.floor,
            self.shadow@ == (Shadow {
                ops: pre.shadow@.ops.drop_last(),
                cop: pre.shadow@.cop.update(c, -1),
                hop: self.shadow@.hop,
                hsub: self.shadow@.hsub,
                vop: self.shadow@.vop,
                vsub: self.shadow@.vsub,
                cover_cell: pre.shadow@.cover_cell.update(c, -1),
                ..pre.shadow@
            }),
            self.shadow@.vop.len() == pre.shadow@.vop.len(),
            self.uncover_delta(pre, pre.shadow@.ops.len() - 1),
            self.out_kept(pre),
            self.hchain() == if pre.kind_of(c) == ColumnType::Constraint {
                pre.hchain()
            } else {
                pre.hchain().relinked(pre.head_of(c))
            },
        ensures
            self.shrunk_cover(pre, pre.shadow@.ops.len() - 1),
    {
        let d = pre.shadow@.ops.len() - 1;
        self.lemma_ptr_uncover(pre, c);
        assert forall|n: int| 0 <= n < self.nn() implies #[trigger] self.revive_ok(pre, d, n) by {
            assert((self.shadow@.vop[n] == pre.shadow@.vop[n] && self.shadow@.vsub[n]
                == pre.shadow@.vsub[n]) || (pre.shadow@.vop[n] == d && self.shadow@.vop[n] == -1
                && self.shadow@.vsub[n] == -1));
            if !(self.shadow@.vop[n] == pre.shadow@.vop[n] && self.shadow@.vsub[n]
                == pre.shadow@.vsub[n]) {
                assert(pre.node_shape(n));
                assert(pre.vchain().node_ok(n));
                assert(pre.node_settled(n));
                assert(pre.node_settled_at(n, -1, -1, 0));
                assert(pre.is_cell(n));
                let cn = pre.col_of(n);
                assert(pre.column_links(cn, 0));
                assert(pre.column_links(c, 0));
                assert(pre.shadow@.vsub[n] >= 0);
                assert(pre.vcop(-1, -1, cn) == pre.shadow@.cop[cn]);
                assert(pre.shadow@.cop[cn] < 0);
            }
        }
        assert forall|c2: int| 0 <= c2 < self.nc() implies #[trigger] self.uncop_ok(pre, d, c2) by {}
    }

    pub(crate) proof fn lemma_shrunk_trans(
        &self,
        mid: &PuzzleSolver,
        pre: &PuzzleSolver,
        d1: int,
        d0: int,
    )
        requires
            self.shrunk_cover(mid, d1),
            mid.shrunk_cover(pre, d0),
            0 <= d0 <= d1,
        ensures
            self.shrunk_cover(pre, d0),
    {
        assert forall|n: int| 0 <= n < self.nn() implies #[trigger] self.revive_ok(pre, d0, n) by {
            assert(self.revive_ok(mid, d1, n));
            assert(mid.revive_ok(pre, d0, n));
            if !(mid.shadow@.vop[n] == pre.shadow@.vop[n] && mid.shadow@.vsub[n]
                == pre.shadow@.vsub[n]) {
                assert(self.uncop_ok(mid, d1, mid.col_of(n)));
            }
        }
        assert forall|c: int| 0 <= c < self.nc() implies #[trigger] self.uncop_ok(pre, d0, c) by {
            assert(self.uncop_ok(mid, d1, c));
            assert(mid.uncop_ok(pre, d0, c));
        }
        assert forall|n: int| 0 <= n < self.nn() implies #[trigger] self.ptr_back(pre, d0, n) by {
            assert(self.ptr_back(mid, d1, n));
            assert(mid.ptr_back(pre, d0, n));
            assert(self.revive_ok(mid, d1, n));
        }
    }

    pub(crate) proof fn lemma_shrunk_refl(&self, d0: int)
        ensures
            self.shrunk_cover(self, d0),
    {
        assert forall|n: int| 0 <= n < self.nn() implies #[trigger] self.revive_ok(self, d0, n) by {}
        assert forall|c: int| 0 <= c < self.nc() implies #[trigger] self.uncop_ok(self, d0, c) by {}
        assert forall|n: int| 0 <= n < self.nn() implies #[trigger] self.ptr_back(self, d0, n) by {}
    }

    /// After the uncover of the last covered column of row `r0`, the
    /// bookkeeping of chosen rows is as before, with one column less done.
    pub(crate) proof fn lemma_uncovering_step(
        &self,
        pre: &PuzzleSolver,
        r0: int,
        p0: int,
        m: int,
        j: int,
        x: int,
    )
        requires
            pre.shape(),
            pre.committed_but(r0),
            pre.covering(r0, p0, m, j),
            0 <= r0 < pre.nr(),
            0 <= p0 < pre.shadow@.row_nodes[r0].len(),
            1 <= j <= pre.shadow@.row_nodes[r0].len(),
            0 <= m,
            x == pre.shadow@.row_nodes[r0][Self::at(
                p0,
                j - 1,
                pre.shadow@.row_nodes[r0].len() as int,
            )],
            self.node_list@ == pre.node_list@,
            self.row_list@ == pre.row_list@,
            self.column_list@.len() == pre.column_list@.len(),
            self.shadow@.row_nodes == pre.shadow@.row_nodes,
            self.shadow@.pos == pre.shadow@.pos,
            self.shadow@.ops == pre.shadow@.ops.drop_last(),
            self.shadow@.cop == pre.shadow@.cop.update(pre.col_of(x), -1),
            self.shadow@.cover_cell == pre.shadow@.cover_cell.update(pre.col_of(x), -1),
            pre.shadow@.cop.len() == pre.nc(),
            pre.shadow@.cover_cell.len() == pre.nc(),
        ensures
            self.committed_but(r0),
            self.covering(r0, p0, m, j - 1),
    {
        let sh = self.shadow@;
        let psh = pre.shadow@;
        let rn = psh.row_nodes[r0];
        let len = rn.len() as int;
        let kx = Self::at(p0, j - 1, len);
        let cx = pre.col_of(x);
        pre.lemma_row_member(r0, kx);
        assert(Self::off(p0, kx, len) == j - 1);
        assert(psh.cover_cell[pre.col_of(rn[kx] as int)] == rn[kx]);
        assert forall|c: int| 0 <= c < self.nc() implies #[trigger] self.column_settled_but(
            c,
            r0,
        ) by {
            assert(pre.column_settled_but(c, r0));
        }
        assert forall|r: int| 0 <= r < self.nr() && r != r0 implies #[trigger] self.row_settled(
            r,
        ) by {
            assert(pre.row_settled(r));
            let rr = psh.row_nodes[r];
            if pre.row_list@[r].chosen {
                assert forall|k: int| 0 <= k < rr.len() implies sh.cover_cell[self.col_of(
                    #[trigger] rr[k] as int,
                )] == rr[k] by {
                    pre.lemma_row_member(r, k);
                    let c = pre.col_of(rr[k] as int);
                    if c == cx {
                        assert(psh.cover_cell[c] == rr[k]);
                    }
                }
            }
        }
        assert forall|k: int| 0 <= k < rn.len() implies if Self::off(p0, k, len) < j - 1 {
            &&& sh.cop[self.col_of(#[trigger] rn[k] as int)] == m + Self::off(p0, k, len)
            &&& sh.cover_cell[self.col_of(rn[k] as int)] == rn[k]
        } else {
            sh.cop[self.col_of(rn[k] as int)] < 0
        } by {
            pre.lemma_row_member(r0, k);
            if k != kx {
                pre.lemma_row_columns_differ(rn[k] as int, x);
                assert(Self::off(p0, k, len) != j - 1);
            }
        }
    }

    /// Tells whether a row can still be chosen.
    pub fn row_is_free(&self, row: usize) -> (free: bool)
        requires
            self.wf(),
            row < self@.rows,
        ensures
            free == self.is_free(row as int),
    {
        let ghost r = row as int;
        let head = self.row_list[row].head;
        proof {
            assert(self.row_shape(r));
            self.lemma_row_member(r, 0);
            assert(self.node_shape(head as int));
            assert(self.vchain().node_ok(head as int));
            if self.shadow@.vop[head as int] < 0 {
                lemma_linked_loop(self.vchain(), head as int);
            }
        }
        if self.down[self.up[head]] != head {
            proof {
                assert(self.shadow@.vop[self.shadow@.row_nodes[r][0] as int] >= 0);
            }
            return false;
        }
        let column = self.node_list[head].column;
        let column_head = self.column_list[column].head;
        proof {
            self.lemma_head_in_list(column as int);
            if self.shadow@.cop[column as int] < 0 {
                self.lemma_row_free(head as int);
            } else {
                assert(self.shadow@.cop[self.col_of(self.shadow@.row_nodes[r][0] as int)] >= 0);
            }
        }
        self.right[self.left[column_head]] == column_head
    }

    /// Commits to the row before the search if it can still be chosen, and
    /// tells whether it did.
    pub fn try_select_row(&mut self, row: usize) -> (done: bool)
        requires
            old(self).wf(),
            !old(self).started(),
            row < old(self)@.rows,
        ensures
            done == old(self).is_free(row as int),
            final(self).wf(),
            !final(self).started(),
            final(self)@ == old(self)@,
            !done ==> *final(self) == *old(self),
            done ==> {
                &&& forall|r: int|
                    0 <= r < old(self)@.rows ==> #[trigger] final(self).is_chosen(r) == (old(
                        self,
                    ).is_chosen(r) || r == row)
                &&& forall|r: int|
                    0 <= r < old(self)@.rows ==> #[trigger] final(self).is_free(r) == (old(
                        self,
                    ).is_free(r) && !old(self)@.clash(row as int, r))
                &&& forall|c: int|
                    0 <= c < old(self)@.columns.len() ==> #[trigger] final(self).is_covered(c) == (
                    old(self).is_covered(c) || old(self)@.hits(c, row as int))
                &&& forall|s: Set<int>|
                    #[trigger] final(self).to_come(s) == (old(self).to_come(s) && s.contains(
                        row as int,
                    ))
            },
    {
        if self.row_is_free(row) {
            self.select_row(row);
            true
        } else {
            false
        }
    }
}

} // verus!
