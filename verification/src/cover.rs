//! Covering a column and uncovering it again, and the two ways of settling a
//! row before the search: selecting it and removing it.

use crate::dancing_links::{ColumnType, PuzzleSolver, Shadow};
use vstd::prelude::*;

verus! {

impl PuzzleSolver {
    /// Two cells of one row lie in different columns.
    pub(crate) proof fn lemma_row_columns_differ(&self, x: int, y: int)
        requires
            self.shape(),
            self.is_cell(x),
            self.is_cell(y),
            self.row_of(x) == self.row_of(y),
            x != y,
        ensures
            self.col_of(x) != self.col_of(y),
    {
        assert(self.node_shape(x));
        assert(self.node_shape(y));
        let c = self.col_of(x);
        if self.col_of(y) == c {
            assert(self.column_shape(c));
            let h = self.head_of(c);
            let i = x - h - 1;
            let j = y - h - 1;
            assert(self.shadow@.col_rows[c][i] == self.row_of(x));
            assert(self.shadow@.col_rows[c][j] == self.row_of(y));
        }
    }

    /// The nodes in the row of a cell are cells of that row.
    pub(crate) proof fn lemma_row_member(&self, r: int, k: int)
        requires
            self.shape(),
            0 <= r < self.nr(),
            0 <= k < self.shadow@.row_nodes[r].len(),
        ensures
            self.is_cell(self.shadow@.row_nodes[r][k] as int),
            self.row_of(self.shadow@.row_nodes[r][k] as int) == r,
            self.shadow@.pos[self.shadow@.row_nodes[r][k] as int] == k,
            0 <= self.col_of(self.shadow@.row_nodes[r][k] as int) < self.nc(),
    {
        assert(self.row_shape(r));
        let x = self.shadow@.row_nodes[r][k] as int;
        assert(self.node_shape(x));
    }

    /// A change that is confined to the stamps of the cells of row `r0`
    /// leaves what is known of all other nodes untouched.
    pub(crate) proof fn lemma_mid_frame(
        &self,
        pre: &PuzzleSolver,
        c0: int,
        d0: int,
        lim: int,
        r0: int,
    )
        requires
            pre.shape(),
            self.same_frame(pre),
            self.same_shadow_but_vstamps(pre),
            self.shadow@.vop.len() == pre.shadow@.vop.len(),
            self.shadow@.vsub.len() == pre.shadow@.vsub.len(),
            forall|m: int|
                0 <= m < pre.nn() ==> (pre.is_cell(m) && pre.row_of(m) == r0) || (
                #[trigger] self.shadow@.vop[m] == pre.shadow@.vop[m] && self.shadow@.vsub[m]
                    == pre.shadow@.vsub[m]),
            pre.rows_mid(c0, d0, lim, r0),
        ensures
            self.rows_mid(c0, d0, lim, r0),
    {
        assert forall|n: int| 0 <= n < self.nn() implies #[trigger] self.node_mid(
            n,
            c0,
            d0,
            lim,
            r0,
        ) by {
            assert(pre.node_mid(n, c0, d0, lim, r0));
            if !(pre.is_cell(n) && pre.row_of(n) == r0) {
                assert(self.shadow@.vop[n] == pre.shadow@.vop[n]);
                if pre.is_cell(n) {
                    assert(pre.node_shape(n));
                    let r = pre.row_of(n);
                    let rn = pre.shadow@.row_nodes[r];
                    assert forall|k: int| 0 <= k < rn.len() implies self.shadow@.vop[#[trigger] rn[k] as int]
                        == pre.shadow@.vop[rn[k] as int] && self.shadow@.vsub[rn[k] as int]
                        == pre.shadow@.vsub[rn[k] as int] by {
                        pre.lemma_row_member(r, k);
                    }
                    let v = pre.shadow@.vsub[n];
                    if pre.shadow@.vop[n] >= 0 && v >= 0 {
                        assert(self.shadow@.vop[v] == pre.shadow@.vop[v]);
                    }
                }
                assert(self.node_settled_at(n, c0, d0, lim));
            }
        }
    }

    /// Right after column `c` has left its header list no row has been
    /// reached through it yet.
    pub(crate) proof fn lemma_cover_begins(&self, pre: &PuzzleSolver, c: int)
        requires
            pre.shape(),
            pre.rows_settled(),
            0 <= c < pre.nc(),
            pre.shadow@.cop[c] < 0,
            self.same_frame(pre),
            self.shadow@ == (Shadow {
                ops: pre.shadow@.ops.push(c),
                cop: pre.shadow@.cop.update(c, pre.shadow@.ops.len() as int),
                hop: self.shadow@.hop,
                hsub: self.shadow@.hsub,
                ..pre.shadow@
            }),
        ensures
            self.rows_mid(c, pre.shadow@.ops.len() as int, 0, -1),
    {
        let d = pre.shadow@.ops.len() as int;
        assert forall|n: int| 0 <= n < self.nn() implies #[trigger] self.node_mid(n, c, d, 0, -1) by {
            assert(pre.node_settled(n));
            assert(pre.node_settled_at(n, -1, -1, 0));
            let sh = self.shadow@;
            let psh = pre.shadow@;
            assert(sh.vop == psh.vop && sh.vsub == psh.vsub && sh.row_nodes == psh.row_nodes
                && sh.pos == psh.pos && sh.floor == psh.floor);
            assert(sh.ops.len() == d + 1);
            if pre.is_cell(n) {
                assert(self.is_cell(n));
                assert(pre.node_shape(n));
                let cn = pre.col_of(n);
                let v = psh.vsub[n];
                let r = pre.row_of(n);
                let rn = psh.row_nodes[r];
                assert(self.vcop(c, d, cn) == if cn == c { d } else { pre.vcop(-1, -1, cn) });
                assert(self.row_of(n) == r);
                assert(self.col_of(n) == cn);
                assert(sh.row_nodes[r] == rn);
                if psh.vop[n] < 0 {
                    if cn != c && pre.vcop(-1, -1, cn) >= 0 {
                        assert(forall|k: int|
                            0 <= k < rn.len() && k != sh.pos[n] ==> self.stamp_is(
                                #[trigger] rn[k] as int,
                                self.vcop(c, d, cn),
                                n,
                            ));
                    } else {
                        assert(forall|k: int| 0 <= k < rn.len() ==> sh.vop[#[trigger] rn[k] as int] < 0);
                    }
                    assert(self.node_settled_at(n, c, d, 0));
                } else if v >= 0 {
                    assert(pre.node_shape(v));
                    let cv = pre.col_of(v);
                    assert(cv != c);
                    assert(self.vcop(c, d, cv) == pre.vcop(-1, -1, cv));
                    assert(self.col_of(v) == cv);
                    assert(self.vcop(c, d, cv) == psh.vop[n]);
                    assert(psh.vop[n] < d);
                    assert(self.vcop(c, d, cn) < 0 || self.vcop(c, d, cn) > psh.vop[n]);
                    assert(self.node_settled_at(n, c, d, 0));
                } else {
                    assert(self.node_settled_at(n, c, d, 0));
                }
            }
            assert(self.node_settled_at(n, c, d, 0));
        }
    }

    /// Once the rows of all linked cells of the covered column have been
    /// reached, every row is settled.
    pub(crate) proof fn lemma_cover_ends(&self, c: int, d: int)
        requires
            self.shape(),
            0 <= c < self.nc(),
            self.shadow@.cop[c] == d,
            0 <= d < self.shadow@.ops.len(),
            self.rows_mid(c, d, self.nn(), -1),
        ensures
            self.rows_settled(),
    {
        assert forall|n: int| 0 <= n < self.nn() implies #[trigger] self.node_settled(n) by {
            assert(self.node_mid(n, c, d, self.nn(), -1));
            assert(self.node_settled_at(n, c, d, self.nn()));
            if self.is_cell(n) {
                assert(self.node_shape(n));
            }
        }
    }

    /// Moving the boundary between reached and whole rows over a stretch of
    /// the column without linked cells changes nothing.
    pub(crate) proof fn lemma_mid_slide(&self, c0: int, d0: int, lim: int, lim2: int)
        requires
            self.shape(),
            self.rows_mid(c0, d0, lim, -1),
            forall|m: int|
                ((lim <= m < lim2) || (lim2 <= m < lim)) && self.is_cell(m) && self.col_of(m) == c0
                    ==> #[trigger] self.shadow@.vop[m] >= 0,
        ensures
            self.rows_mid(c0, d0, lim2, -1),
    {
        assert forall|n: int| 0 <= n < self.nn() implies #[trigger] self.node_mid(
            n,
            c0,
            d0,
            lim2,
            -1,
        ) by {
            assert(self.node_mid(n, c0, d0, lim, -1));
            if self.is_cell(n) {
                assert(self.node_shape(n));
            }
        }
    }

    /// The row of `cur` has been reached through it: all its other cells
    /// carry the stamp `(d, cur)`.
    pub(crate) open spec fn row_reached(&self, cur: int, d: int) -> bool {
        let r = self.row_of(cur);
        let rn = self.shadow@.row_nodes[r];
        &&& self.shadow@.vop[cur] < 0
        &&& forall|k: int|
            0 <= k < rn.len() && k != self.shadow@.pos[cur] ==> self.stamp_is(
                #[trigger] rn[k] as int,
                d,
                cur,
            ) && self.shadow@.cop[self.col_of(rn[k] as int)] < 0
    }

    /// The row of `cur` is whole, and its cells other than `cur` lie in
    /// columns in play.
    pub(crate) open spec fn row_whole(&self, cur: int) -> bool {
        let r = self.row_of(cur);
        let rn = self.shadow@.row_nodes[r];
        forall|k: int|
            0 <= k < rn.len() ==> self.shadow@.vop[#[trigger] rn[k] as int] < 0 && (k
                != self.shadow@.pos[cur] ==> self.shadow@.cop[self.col_of(rn[k] as int)] < 0)
    }

    /// When the row of the linked cell `cur` of column `c` has been reached,
    /// the boundary moves past `cur`.
    pub(crate) proof fn lemma_row_reached(&self, c: int, d: int, cur: int, lim2: int)
        requires
            self.shape(),
            0 <= c < self.nc(),
            self.is_cell(cur),
            self.col_of(cur) == c,
            self.rows_mid(c, d, cur, self.row_of(cur)),
            self.row_reached(cur, d),
            0 <= d,
            d < self.shadow@.ops.len(),
            cur < lim2,
            forall|m: int|
                cur < m < lim2 && self.is_cell(m) && self.col_of(m) == c
                    ==> #[trigger] self.shadow@.vop[m] >= 0,
        ensures
            self.rows_mid(c, d, lim2, -1),
    {
        let r0 = self.row_of(cur);
        assert(self.node_shape(cur));
        assert(self.row_shape(r0));
        assert forall|n: int| 0 <= n < self.nn() implies #[trigger] self.node_mid(
            n,
            c,
            d,
            lim2,
            -1,
        ) by {
            assert(self.node_mid(n, c, d, cur, r0));
            if self.is_cell(n) {
                assert(self.node_shape(n));
                if self.row_of(n) == r0 {
                    let k = self.shadow@.pos[n];
                    if n != cur {
                        self.lemma_row_columns_differ(n, cur);
                        assert(self.stamp_is(self.shadow@.row_nodes[r0][k] as int, d, cur));
                    }
                    assert(self.node_settled_at(n, c, d, lim2));
                }
            }
        }
    }

    /// When the row of the linked cell `cur` of column `c` is whole again,
    /// the boundary moves back before `cur`.
    pub(crate) proof fn lemma_row_restored(&self, c: int, d: int, cur: int, lim2: int)
        requires
            self.shape(),
            0 <= c < self.nc(),
            self.is_cell(cur),
            self.col_of(cur) == c,
            self.rows_mid(c, d, cur + 1, self.row_of(cur)),
            self.row_whole(cur),
            self.shadow@.ops.len() == d,
            self.shadow@.cop[c] < 0,
            lim2 <= cur,
            forall|m: int|
                lim2 <= m < cur && self.is_cell(m) && self.col_of(m) == c
                    ==> #[trigger] self.shadow@.vop[m] >= 0,
        ensures
            self.rows_mid(c, d, lim2, -1),
    {
        let r0 = self.row_of(cur);
        let sh = self.shadow@;
        let rn0 = sh.row_nodes[r0];
        assert(self.node_shape(cur));
        assert(self.row_shape(r0));
        assert forall|n: int| 0 <= n < self.nn() implies #[trigger] self.node_mid(
            n,
            c,
            d,
            lim2,
            -1,
        ) by {
            assert(self.node_mid(n, c, d, cur + 1, r0));
            if self.is_cell(n) {
                assert(self.node_shape(n));
                let cn = self.col_of(n);
                if self.row_of(n) == r0 {
                    let k = sh.pos[n];
                    assert(rn0[k] == n);
                    assert(sh.vop[rn0[k] as int] < 0);
                    assert(sh.vop[n] < 0);
                    assert(forall|k2: int| 0 <= k2 < rn0.len() ==> sh.vop[#[trigger] rn0[k2] as int] < 0);
                    if n != cur {
                        self.lemma_row_columns_differ(n, cur);
                        assert(sh.cop[self.col_of(rn0[k] as int)] < 0);
                        assert(self.vcop(c, d, cn) < 0);
                    } else {
                        assert(cn == c && n >= lim2);
                    }
                    assert(self.node_settled_at(n, c, d, lim2));
                } else {
                    assert(self.node_settled_at(n, c, d, cur + 1));
                    if sh.vop[n] < 0 && cn == c {
                        if lim2 <= n < cur + 1 {
                            assert(n != cur);
                            assert(sh.vop[n] >= 0);
                        }
                    }
                    assert(self.node_settled_at(n, c, d, lim2));
                }
            } else {
                assert(self.node_settled_at(n, c, d, cur + 1));
                assert(self.node_settled_at(n, c, d, lim2));
            }
        }
    }

    /// Right after column `c` has come back into its header list every row
    /// reached through it is still as the cover left it.
    pub(crate) proof fn lemma_uncover_begins(&self, pre: &PuzzleSolver, c: int)
        requires
            pre.shape(),
            pre.rows_settled(),
            0 <= c < pre.nc(),
            pre.shadow@.ops.len() >= 1,
            pre.shadow@.cop[c] == pre.shadow@.ops.len() - 1,
            self.same_frame(pre),
            self.shadow@ == (Shadow {
                ops: pre.shadow@.ops.drop_last(),
                cop: pre.shadow@.cop.update(c, -1),
                hop: self.shadow@.hop,
                hsub: self.shadow@.hsub,
                ..pre.shadow@
            }),
        ensures
            self.rows_mid(c, pre.shadow@.ops.len() - 1, self.nn(), -1),
    {
        let d = pre.shadow@.ops.len() - 1;
        let lim = self.nn();
        assert forall|n: int| 0 <= n < self.nn() implies #[trigger] self.node_mid(
            n,
            c,
            d,
            lim,
            -1,
        ) by {
            assert(pre.node_settled(n));
            assert(pre.node_settled_at(n, -1, -1, 0));
            let sh = self.shadow@;
            let psh = pre.shadow@;
            assert(sh.vop == psh.vop && sh.vsub == psh.vsub && sh.row_nodes == psh.row_nodes
                && sh.pos == psh.pos && sh.floor == psh.floor);
            assert(sh.ops.len() == d);
            if pre.is_cell(n) {
                assert(self.is_cell(n));
                assert(pre.node_shape(n));
                let cn = pre.col_of(n);
                let v = psh.vsub[n];
                let r = pre.row_of(n);
                let rn = psh.row_nodes[r];
                assert(self.vcop(c, d, cn) == pre.vcop(-1, -1, cn));
                assert(self.row_of(n) == r);
                assert(self.col_of(n) == cn);
                assert(sh.row_nodes[r] == rn);
                if psh.vop[n] < 0 {
                    if pre.vcop(-1, -1, cn) >= 0 {
                        assert(forall|k: int|
                            0 <= k < rn.len() && k != sh.pos[n] ==> self.stamp_is(
                                #[trigger] rn[k] as int,
                                self.vcop(c, d, cn),
                                n,
                            ));
                    } else {
                        assert(forall|k: int| 0 <= k < rn.len() ==> sh.vop[#[trigger] rn[k] as int] < 0);
                    }
                    assert(self.node_settled_at(n, c, d, lim));
                } else if v >= 0 {
                    assert(pre.node_shape(v));
                    let cv = pre.col_of(v);
                    assert(self.vcop(c, d, cv) == pre.vcop(-1, -1, cv));
                    assert(self.col_of(v) == cv);
                    assert(self.vcop(c, d, cv) == psh.vop[n]);
                    assert(self.vcop(c, d, cn) < 0 || self.vcop(c, d, cn) > psh.vop[n]);
                    assert(self.node_settled_at(n, c, d, lim));
                } else {
                    assert(self.node_settled_at(n, c, d, lim));
                }
            }
            assert(self.node_settled_at(n, c, d, lim));
        }
    }

    /// Once the rows of all linked cells of the uncovered column are whole
    /// again, every row is settled.
    pub(crate) proof fn lemma_uncover_ends(&self, c: int, d: int, lim: int)
        requires
            self.links(0),
            0 <= c < self.nc(),
            self.shadow@.cop[c] == -1,
            self.shadow@.ops.len() == d,
            lim <= self.head_of(c) + 1,
            self.rows_mid(c, d, lim, -1),
        ensures
            self.rows_settled(),
    {
        let sh = self.shadow@;
        assert forall|n: int| 0 <= n < self.nn() implies #[trigger] self.node_settled(n) by {
            assert(self.node_mid(n, c, d, lim, -1));
            assert(self.node_settled_at(n, c, d, lim));
            let dn = sh.vop[n];
            let v = sh.vsub[n];
            assert(self.node_shape(n));
            if self.is_cell(n) {
                let cn = self.col_of(n);
                let r = self.row_of(n);
                let rn = sh.row_nodes[r];
                assert(self.column_links(cn, 0));
                assert(rn[sh.pos[n]] == n);
                if dn < 0 {
                    if cn == c {
                        assert(n >= lim);
                        assert(forall|k: int| 0 <= k < rn.len() ==> sh.vop[#[trigger] rn[k] as int] < 0);
                    } else {
                        assert(self.vcop(c, d, cn) == self.vcop(-1, -1, cn));
                    }
                    assert(self.node_settled_at(n, -1, -1, 0));
                } else if v >= 0 {
                    assert(self.node_shape(v));
                    assert(self.node_mid(v, c, d, lim, -1));
                    assert(self.node_settled_at(v, c, d, lim));
                    let cv = self.col_of(v);
                    assert(self.column_links(cv, 0));
                    if cv == c {
                        assert(v >= lim);
                        assert(self.is_cell(v));
                        assert(self.row_of(v) == r);
                        if sh.vop[v] < 0 {
                            assert(forall|k: int|
                                0 <= k < rn.len() ==> sh.vop[#[trigger] rn[k] as int] < 0);
                            assert(sh.vop[rn[sh.pos[n]] as int] < 0);
                        }
                        assert(false);
                    }
                    assert(self.vcop(c, d, cv) == self.vcop(-1, -1, cv));
                    assert(dn == sh.cop[cv]);
                    assert(dn < d);
                    assert(self.vcop(-1, -1, cn) < 0 || self.vcop(-1, -1, cn) > dn);
                    assert(self.node_settled_at(n, -1, -1, 0));
                } else {
                    assert(dn < sh.floor);
                    assert(self.node_settled_at(n, -1, -1, 0));
                }
            } else {
                assert(self.vchain().node_ok(n));
                assert(dn < 0);
                assert(self.node_settled_at(n, -1, -1, 0));
            }
        }
    }

    /// While the row of `cur` is being taken out of its other columns, from
    /// `cur` rightwards: the cells less than `j` steps away carry the stamp
    /// `(d, cur)`, the others are linked.
    pub(crate) open spec fn row_partly(&self, cur: int, d: int, j: int) -> bool {
        let r = self.row_of(cur);
        let rn = self.shadow@.row_nodes[r];
        let p = self.shadow@.pos[cur];
        forall|k: int|
            0 <= k < rn.len() ==> if k == p {
                self.shadow@.vop[#[trigger] rn[k] as int] < 0
            } else {
                &&& self.shadow@.cop[self.col_of(rn[k] as int)] < 0
                &&& if Self::off(p, k, rn.len() as int) < j {
                    self.stamp_is(rn[k] as int, d, cur)
                } else {
                    self.shadow@.vop[rn[k] as int] < 0
                }
            }
    }

    /// How the vertical stamps may differ from those of `pre` while column
    /// `c` is being covered by operation `d`.
    pub(crate) open spec fn cover_delta(
        &self,
        pre: &PuzzleSolver,
        d: int,
        lim: int,
        cur: int,
    ) -> bool {
        forall|n: int| 0 <= n < self.nn() ==> #[trigger] self.delta_ok(pre, d, lim, cur, n)
    }

    /// Node `n` has the stamp it had in `pre`, or was linked in `pre` and
    /// has been taken out by operation `d` through a cell below `lim` or
    /// through `cur`.
    pub(crate) open spec fn delta_ok(
        &self,
        pre: &PuzzleSolver,
        d: int,
        lim: int,
        cur: int,
        n: int,
    ) -> bool {
        (self.shadow@.vop[n] == pre.shadow@.vop[n] && self.shadow@.vsub[n] == pre.shadow@.vsub[n])
            || {
            &&& pre.shadow@.vop[n] < 0
            &&& self.is_cell(n)
            &&& self.shadow@.vop[n] == d
            &&& 0 <= self.shadow@.vsub[n] < lim || (cur >= 0 && self.shadow@.vsub[n] == cur)
            &&& pre.shadow@.cop[self.col_of(n)] < 0
        }
    }

    /// The pointers of the nodes that were out of their lists in `pre` are
    /// as they were.
    pub(crate) open spec fn dead_kept(&self, pre: &PuzzleSolver) -> bool {
        forall|n: int|
            0 <= n < self.nn() && #[trigger] pre.shadow@.vop[n] >= 0 ==> self.up@[n] == pre.up@[n]
                && self.down@[n] == pre.down@[n]
    }

    /// A node other than the head in the vertical list of column `c` is a
    /// cell of that column.
    pub(crate) proof fn lemma_member_is_cell(&self, c: int, x: int)
        requires
            self.shape(),
            0 <= c < self.nc(),
            0 <= x < self.nn(),
            self.shadow@.vhome[x] == self.head_of(c),
            x != self.head_of(c),
        ensures
            self.is_cell(x),
            self.col_of(x) == c,
    {
        assert(self.node_shape(x));
        assert(self.column_shape(c));
        if self.node_list@[x].column != usize::MAX {
            let cx = self.col_of(x);
            assert(self.column_shape(cx));
            if cx != c {
                self.lemma_heads_differ(cx, c);
            }
        }
    }

    /// No cell of column `c` below `hi` is linked, when no member of its
    /// vertical list between the head and `hi` is.
    pub(crate) proof fn lemma_slide_gap(&self, c: int, lo: int, hi: int)
        requires
            self.shape(),
            0 <= c < self.nc(),
            lo <= hi,
            forall|m: int|
                lo <= m < hi && 0 <= m < self.nn() && #[trigger] self.shadow@.vhome[m]
                    == self.head_of(c) && m > self.head_of(c) ==> self.shadow@.vop[m] >= 0,
        ensures
            forall|m: int|
                ((lo <= m < hi) || (hi <= m < lo)) && self.is_cell(m) && self.col_of(m) == c
                    ==> #[trigger] self.shadow@.vop[m] >= 0,
    {
        assert forall|m: int|
            ((lo <= m < hi) || (hi <= m < lo)) && self.is_cell(m) && self.col_of(m)
                == c implies #[trigger] self.shadow@.vop[m] >= 0 by {
            assert(self.node_shape(m));
        }
    }

    /// At the linked cell `cur` of the column that is being covered, its row
    /// is still whole, and the other cells of the row lie in columns in play.
    pub(crate) proof fn lemma_row_starts(&self, c: int, d: int, cur: int)
        requires
            self.shape(),
            0 <= c < self.nc(),
            self.is_cell(cur),
            self.col_of(cur) == c,
            self.shadow@.vop[cur] < 0,
            self.shadow@.cop[c] == d,
            d >= 0,
            self.rows_mid(c, d, cur, -1),
        ensures
            self.row_partly(cur, d, 1),
    {
        let r = self.row_of(cur);
        let rn = self.shadow@.row_nodes[r];
        let p = self.shadow@.pos[cur];
        assert(self.node_shape(cur));
        assert(self.node_mid(cur, c, d, cur, -1));
        assert(self.node_settled_at(cur, c, d, cur));
        assert forall|k: int| 0 <= k < rn.len() implies if k == p {
            self.shadow@.vop[#[trigger] rn[k] as int] < 0
        } else {
            &&& self.shadow@.cop[self.col_of(rn[k] as int)] < 0
            &&& if Self::off(p, k, rn.len() as int) < 1 {
                self.stamp_is(rn[k] as int, d, cur)
            } else {
                self.shadow@.vop[rn[k] as int] < 0
            }
        } by {
            self.lemma_row_member(r, k);
            let x = rn[k] as int;
            assert(self.shadow@.vop[x] < 0);
            if k != p {
                self.lemma_row_columns_differ(x, cur);
                assert(self.node_mid(x, c, d, cur, -1));
                assert(self.node_settled_at(x, c, d, cur));
                let cx = self.col_of(x);
                if self.shadow@.cop[cx] >= 0 {
                    assert(self.vcop(c, d, cx) == self.shadow@.cop[cx]);
                    assert(self.stamp_is(rn[p] as int, self.shadow@.cop[cx], x));
                    assert(false);
                }
            }
        }
    }

    /// Setting the row of `cur` aside does not weaken what is known.
    pub(crate) proof fn lemma_slide_row(&self, c: int, d: int, lim: int, cur: int)
        requires
            self.rows_mid(c, d, lim, -1),
        ensures
            self.rows_mid(c, d, lim, self.row_of(cur)),
    {
        assert forall|n: int| 0 <= n < self.nn() implies #[trigger] self.node_mid(
            n,
            c,
            d,
            lim,
            self.row_of(cur),
        ) by {
            assert(self.node_mid(n, c, d, lim, -1));
        }
    }

    /// The stamp `(d, cur)` is later than that of every cell that is out of
    /// the column of `x`.
    pub(crate) proof fn lemma_newest_in_cover(&self, pre: &PuzzleSolver, d: int, cur: int, x: int)
        requires
            self.shape(),
            self.is_cell(cur),
            self.is_cell(x),
            self.row_of(x) == self.row_of(cur),
            x != cur,
            d >= 0,
            self.cover_delta(pre, d, cur, cur),
            self.rows_mid(self.col_of(cur), d, cur, self.row_of(cur)),
            self.shadow@.vop.len() == self.nn(),
            pre.nn() == self.nn(),
            forall|n: int| 0 <= n < pre.nn() ==> #[trigger] pre.shadow@.vop[n] < d,
            self.shadow@.vop[x] < 0,
        ensures
            self.vchain().newest(self.shadow@.vhome[x], d, cur, x),
    {
        let s = self.shadow@.vhome[x];
        assert(self.node_shape(x));
        assert forall|m: int|
            0 <= m < self.nn() && #[trigger] self.shadow@.vhome[m] == s && !self.vchain().alive(m)
                && m != x implies self.shadow@.vop[m] < d || (self.shadow@.vop[m] == d
            && self.shadow@.vsub[m] < cur) by {
            assert(self.delta_ok(pre, d, cur, cur, m));
            assert(self.shadow@.vop[m] == pre.shadow@.vop[m] || self.shadow@.vop[m] == d);
            assert(pre.shadow@.vop[m] < d);
            if self.shadow@.vop[m] == d && self.shadow@.vsub[m] == cur {
                // then `m` is a cell of the row of `cur`, in the column of `x`
                assert(self.node_shape(m));
                assert(self.is_cell(m));
                assert(self.node_mid(m, self.col_of(cur), d, cur, self.row_of(cur)));
                self.lemma_row_columns_differ(m, x);
                assert(self.column_shape(self.col_of(x)));
                assert(self.column_shape(self.col_of(m)));
                assert(false);
            }
        }
    }

    /// Takes the row of the linked cell `row_node` of the column that is
    /// being covered out of all its other columns.
    #[verifier::rlimit(40)]
    fn unlink_row(&mut self, row_node: usize, Ghost(pre): Ghost<PuzzleSolver>, Ghost(d): Ghost<int>)
        requires
            old(self).links(0),
            old(self).is_cell(row_node as int),
            old(self).shadow@.vop[row_node as int] < 0,
            old(self).shadow@.cop[old(self).col_of(row_node as int)] == d,
            d + 1 == old(self).shadow@.ops.len(),
            d >= old(self).shadow@.floor,
            d >= 0,
            old(self).rows_mid(old(self).col_of(row_node as int), d, row_node as int, -1),
            old(self).cover_delta(&pre, d, row_node as int, -1),
            old(self).dead_kept(&pre),
            old(self).shadow@.cop == pre.shadow@.cop.update(old(self).col_of(row_node as int), d),
            pre.nn() == old(self).nn(),
            pre.up@.len() == pre.nn(),
            pre.shadow@.cop.len() == old(self).nc(),
            forall|n: int| 0 <= n < pre.nn() ==> #[trigger] pre.shadow@.vop[n] < d,
        ensures
            final(self).links(0),
            final(self).same_frame(old(self)),
            final(self).left@ == old(self).left@,
            final(self).right@ == old(self).right@,
            final(self).same_shadow_but_vstamps(old(self)),
            final(self).rows_mid(
                old(self).col_of(row_node as int),
                d,
                row_node as int,
                old(self).row_of(row_node as int),
            ),
            final(self).row_reached(row_node as int, d),
            final(self).cover_delta(&pre, d, row_node as int, row_node as int),
            final(self).dead_kept(&pre),
    {
        let ghost start = *self;
        let ghost cur = row_node as int;
        let ghost c = self.col_of(cur);
        let ghost r0 = self.row_of(cur);
        let ghost p = self.shadow@.pos[cur];
        let ghost rn = self.shadow@.row_nodes[r0];
        let ghost len = rn.len() as int;
        proof {
            assert(self.node_shape(cur));
            assert(self.row_shape(r0));
            self.lemma_row_starts(c, d, cur);
            self.lemma_slide_row(c, d, cur, cur);
            assert forall|n: int| 0 <= n < self.nn() implies #[trigger] self.delta_ok(
                &pre,
                d,
                cur,
                cur,
                n,
            ) by {
                assert(self.delta_ok(&pre, d, cur, -1, n));
            }
            assert(Self::after(p, len) == Self::at(p, 1, len));
            assert(self.row_link_ok(r0, p));
        }
        let mut column_node = self.right[row_node];
        let ghost mut j: int = 1;
        while column_node != row_node
            invariant
                self.links(0),
                self.same_frame(&start),
                self.left@ == start.left@,
                self.right@ == start.right@,
                self.same_shadow_but_vstamps(&start),
                start.shape(),
                start.shadow@.cop == pre.shadow@.cop.update(c, d),
                pre.nn() == self.nn(),
                pre.up@.len() == pre.nn(),
                pre.shadow@.cop.len() == self.nc(),
                0 <= c < self.nc(),
                d + 1 == self.shadow@.ops.len(),
                d >= self.shadow@.floor,
                d >= 0,
                cur == row_node,
                self.is_cell(cur),
                self.col_of(cur) == c,
                start.col_of(cur) == c,
                r0 == self.row_of(cur),
                r0 == start.row_of(cur),
                0 <= r0 < self.nr(),
                p == self.shadow@.pos[cur],
                rn == self.shadow@.row_nodes[r0],
                len == rn.len(),
                0 <= p < len,
                rn[p] == cur,
                1 <= j <= len,
                column_node == rn[Self::at(p, j, len)],
                self.rows_mid(c, d, cur, r0),
                self.row_partly(cur, d, j),
                self.cover_delta(&pre, d, cur, cur),
                self.dead_kept(&pre),
                forall|n: int| 0 <= n < pre.nn() ==> #[trigger] pre.shadow@.vop[n] < d,
            decreases len - j,
        {
            let ghost before = *self;
            let ghost x = column_node as int;
            let ghost k = Self::at(p, j, len);
            proof {
                self.lemma_row_member(r0, k);
                self.lemma_row_member(r0, p);
                assert(j < len);
                assert(k != p);
                assert(Self::off(p, k, len) == j);
                assert(self.shadow@.vop[rn[k] as int] < 0);
                self.lemma_row_columns_differ(x, cur);
                self.lemma_newest_in_cover(&pre, d, cur, x);
                assert(x == rn[k] as int);
                assert(self.shadow@.cop[self.col_of(rn[k] as int)] < 0);
                assert(self.shadow@.cop == start.shadow@.cop);
                assert(0 <= self.col_of(x) < self.nc());
                assert(self.col_of(x) != c);
                assert(self.shadow@.cop.len() == self.nc());
                assert(start.shadow@.cop[self.col_of(x)] == pre.shadow@.cop[self.col_of(x)]);
                assert(pre.shadow@.cop[self.col_of(x)] < 0);
            }
            self.unlink_cell(column_node, Ghost(d), Ghost(cur));
            proof {
                self.lemma_same_frame_trans(&before, &start);
                self.lemma_mid_frame(&before, c, d, cur, r0);
                assert(self.shadow@.vop == before.shadow@.vop.update(x, d));
                assert(self.shadow@.vsub == before.shadow@.vsub.update(x, cur));
                assert(self.shadow@.cop == before.shadow@.cop);
                self.lemma_partly_step(&before, cur, d, j, x);
                self.lemma_delta_step(&before, &pre, d, cur, x);
                self.lemma_dead_kept_step(&before, &pre, d, cur, x);
                assert(Self::after(k, len) == Self::at(p, j + 1, len));
                assert(self.row_shape(r0));
                assert(self.row_link_ok(r0, k));
                j = j + 1;
            }
            column_node = self.right[column_node];
        }
        proof {
            self.lemma_went_round(cur, j);
            self.lemma_partly_done(cur, d);
        }
    }

    /// Walking a row from `cur` comes back to `cur` only after a full turn.
    pub(crate) proof fn lemma_went_round(&self, cur: int, j: int)
        requires
            self.shape(),
            self.is_cell(cur),
            1 <= j <= self.shadow@.row_nodes[self.row_of(cur)].len(),
            self.shadow@.row_nodes[self.row_of(cur)][Self::at(
                self.shadow@.pos[cur],
                j,
                self.shadow@.row_nodes[self.row_of(cur)].len() as int,
            )] == cur,
        ensures
            j == self.shadow@.row_nodes[self.row_of(cur)].len(),
    {
        let r0 = self.row_of(cur);
        let len = self.shadow@.row_nodes[r0].len() as int;
        let p = self.shadow@.pos[cur];
        assert(self.node_shape(cur));
        if j < len {
            self.lemma_row_member(r0, Self::at(p, j, len));
            self.lemma_row_member(r0, p);
        }
    }

    /// After a full turn the whole row has been reached.
    proof fn lemma_partly_done(&self, cur: int, d: int)
        requires
            self.shape(),
            self.is_cell(cur),
            self.row_partly(cur, d, self.shadow@.row_nodes[self.row_of(cur)].len() as int),
        ensures
            self.row_reached(cur, d),
    {
        let r0 = self.row_of(cur);
        let rn = self.shadow@.row_nodes[r0];
        let len = rn.len() as int;
        let p = self.shadow@.pos[cur];
        assert(self.node_shape(cur));
        assert forall|k: int| 0 <= k < rn.len() && k != p implies self.stamp_is(
            #[trigger] rn[k] as int,
            d,
            cur,
        ) && self.shadow@.cop[self.col_of(rn[k] as int)] < 0 by {
            assert(Self::off(p, k, len) < len);
        }
        assert(self.shadow@.vop[rn[p] as int] < 0);
    }

    /// One more cell of the row of `cur` carries the stamp `(d, cur)`.
    proof fn lemma_partly_step(&self, before: &PuzzleSolver, cur: int, d: int, j: int, x: int)
        requires
            before.shape(),
            before.is_cell(cur),
            before.row_partly(cur, d, j),
            self.node_list@ == before.node_list@,
            self.shadow@ == (Shadow {
                vop: before.shadow@.vop.update(x, d),
                vsub: before.shadow@.vsub.update(x, cur),
                ..before.shadow@
            }),
            0 <= x < before.nn(),
            before.shadow@.vop.len() == before.nn(),
            before.shadow@.vsub.len() == before.nn(),
            1 <= j < before.shadow@.row_nodes[before.row_of(cur)].len(),
            x == before.shadow@.row_nodes[before.row_of(cur)][Self::at(
                before.shadow@.pos[cur],
                j,
                before.shadow@.row_nodes[before.row_of(cur)].len() as int,
            )],
        ensures
            self.row_partly(cur, d, j + 1),
    {
        let r0 = before.row_of(cur);
        let rn = before.shadow@.row_nodes[r0];
        let len = rn.len() as int;
        let p = before.shadow@.pos[cur];
        assert(before.node_shape(cur));
        let k = Self::at(p, j, len);
        assert forall|k2: int| 0 <= k2 < len implies if k2 == p {
            self.shadow@.vop[#[trigger] rn[k2] as int] < 0
        } else {
            &&& self.shadow@.cop[self.col_of(rn[k2] as int)] < 0
            &&& if Self::off(p, k2, len) < j + 1 {
                self.stamp_is(rn[k2] as int, d, cur)
            } else {
                self.shadow@.vop[rn[k2] as int] < 0
            }
        } by {
            before.lemma_row_member(r0, k2);
            before.lemma_row_member(r0, k);
            if k2 != k {
                assert(rn[k2] != rn[k]);
                assert(self.shadow@.vop[rn[k2] as int] == before.shadow@.vop[rn[k2] as int]);
                assert(self.shadow@.vsub[rn[k2] as int] == before.shadow@.vsub[rn[k2] as int]);
                assert(Self::off(p, k2, len) != j);
            } else {
                assert(Self::off(p, k2, len) == j);
            }
        }
    }

    /// The record of what differs from `pre` takes in the cell `x`, now out
    /// with the stamp `(d, cur)`.
    proof fn lemma_delta_step(
        &self,
        before: &PuzzleSolver,
        pre: &PuzzleSolver,
        d: int,
        cur: int,
        x: int,
    )
        requires
            before.cover_delta(pre, d, cur, cur),
            self.node_list@ == before.node_list@,
            self.shadow@ == (Shadow {
                vop: before.shadow@.vop.update(x, d),
                vsub: before.shadow@.vsub.update(x, cur),
                ..before.shadow@
            }),
            before.is_cell(x),
            before.shadow@.vop.len() == before.nn(),
            before.shadow@.vsub.len() == before.nn(),
            before.shadow@.vop[x] < 0,
            d >= 0,
            cur >= 0,
            pre.shadow@.cop[before.col_of(x)] < 0,
        ensures
            self.cover_delta(pre, d, cur, cur),
    {
        assert forall|n: int| 0 <= n < self.nn() implies #[trigger] self.delta_ok(
            pre,
            d,
            cur,
            cur,
            n,
        ) by {
            assert(before.delta_ok(pre, d, cur, cur, n));
            if n != x {
                assert(self.shadow@.vop[n] == before.shadow@.vop[n]);
                assert(self.shadow@.vsub[n] == before.shadow@.vsub[n]);
            }
        }
    }

    /// Once the row of `cur` is done, its cells count among those reached
    /// below the new boundary.
    proof fn lemma_delta_widen(&self, pre: &PuzzleSolver, d: int, cur: int, lim2: int)
        requires
            self.cover_delta(pre, d, cur, cur),
            0 <= cur < lim2,
        ensures
            self.cover_delta(pre, d, lim2, -1),
    {
        assert forall|n: int| 0 <= n < self.nn() implies #[trigger] self.delta_ok(
            pre,
            d,
            lim2,
            -1,
            n,
        ) by {
            assert(self.delta_ok(pre, d, cur, cur, n));
        }
    }

    /// Taking the linked cell `x` out writes to the pointers of linked nodes
    /// only.
    proof fn lemma_dead_kept_step(
        &self,
        before: &PuzzleSolver,
        pre: &PuzzleSolver,
        d: int,
        cur: int,
        x: int,
    )
        requires
            before.links(0),
            before.dead_kept(pre),
            before.cover_delta(pre, d, cur, cur),
            before.is_cell(x),
            before.shadow@.vop[x] < 0,
            self.nn() == before.nn(),
            self.vchain() == before.vchain().unlinked(x, d, cur),
        ensures
            self.dead_kept(pre),
    {
        assert(before.node_shape(x));
        assert(before.vchain().node_ok(x));
        let s = before.shadow@.vhome[x];
        assert(before.vchain().node_ok(s));
        let a = before.up@[x] as int;
        let b = before.down@[x] as int;
        assert forall|n: int|
            0 <= n < self.nn() && #[trigger] pre.shadow@.vop[n] >= 0 implies self.up@[n]
            == pre.up@[n] && self.down@[n] == pre.down@[n] by {
            assert(before.delta_ok(pre, d, cur, cur, n));
            assert(before.shadow@.vop[n] == pre.shadow@.vop[n] || pre.shadow@.vop[n] < 0);
            assert(before.shadow@.vop[n] >= 0);
            assert(n != a);
            assert(n != b);
        }
    }

    /// Covers a column: takes it out of its header list and takes every row
    /// that has a linked cell in it out of all its other columns.
    pub(crate) fn remove_column(&mut self, column: usize)
        requires
            old(self).links(0),
            old(self).rows_settled(),
            column < old(self).nc(),
            old(self).shadow@.cop[column as int] < 0,
        ensures
            final(self).links(0),
            final(self).rows_settled(),
            final(self).same_frame(old(self)),
            final(self).shadow@ == (Shadow {
                ops: old(self).shadow@.ops.push(column as int),
                cop: old(self).shadow@.cop.update(
                    column as int,
                    old(self).shadow@.ops.len() as int,
                ),
                hop: final(self).shadow@.hop,
                hsub: final(self).shadow@.hsub,
                vop: final(self).shadow@.vop,
                vsub: final(self).shadow@.vsub,
                ..old(self).shadow@
            }),
            final(self).hchain() == if old(self).kind_of(column as int) == ColumnType::Constraint {
                old(self).hchain()
            } else {
                old(self).hchain().unlinked(
                    old(self).head_of(column as int),
                    old(self).shadow@.ops.len() as int,
                    0,
                )
            },
            final(self).cover_delta(
                old(self),
                old(self).shadow@.ops.len() as int,
                old(self).nn(),
                -1,
            ),
            final(self).dead_kept(old(self)),
            final(self).is_cover_of(old(self), column as int),
    {
        let ghost pre = *self;
        let ghost d = pre.shadow@.ops.len() as int;
        let ghost c = column as int;
        self.hide_column(column);
        let ghost mid = *self;
        proof {
            assert(self.column_shape(c));
        }
        let column_head = self.column_list[column].head;
        let mut row_node = self.down[column_head];
        proof {
            self.lemma_cover_begins(&pre, c);
            assert(self.node_shape(column_head as int));
            assert(self.vchain().node_ok(column_head as int));
            assert forall|n: int| 0 <= n < pre.nn() implies #[trigger] pre.shadow@.vop[n] < d by {
                assert(pre.node_settled(n));
            }
            let lim = if row_node != column_head {
                row_node as int
            } else {
                self.nn()
            };
            if row_node != column_head {
                self.lemma_member_is_cell(c, row_node as int);
            }
            self.lemma_slide_gap(c, 0, lim);
            self.lemma_mid_slide(c, d, 0, lim);
            assert forall|n: int| 0 <= n < self.nn() implies #[trigger] self.delta_ok(
                &pre,
                d,
                lim,
                -1,
                n,
            ) by {}
            assert(self.dead_kept(&pre));
        }
        while row_node != column_head
            invariant
                self.links(0),
                self.same_frame(&mid),
                self.left@ == mid.left@,
                self.right@ == mid.right@,
                self.same_shadow_but_vstamps(&mid),
                mid.shadow@.cop == pre.shadow@.cop.update(c, d),
                self.shadow@.cop == pre.shadow@.cop.update(c, d),
                self.shadow@.cop[c] == d,
                pre.nn() == self.nn(),
                pre.up@.len() == pre.nn(),
                pre.shadow@.cop.len() == self.nc(),
                c == column,
                0 <= c < self.nc(),
                column_head == self.head_of(c),
                d + 1 == self.shadow@.ops.len(),
                d >= self.shadow@.floor,
                d >= 0,
                row_node < self.nn(),
                row_node == column_head || (self.is_cell(row_node as int) && self.col_of(
                    row_node as int,
                ) == c && self.shadow@.vop[row_node as int] < 0),
                self.rows_mid(
                    c,
                    d,
                    if row_node == column_head {
                        self.nn()
                    } else {
                        row_node as int
                    },
                    -1,
                ),
                self.cover_delta(
                    &pre,
                    d,
                    if row_node == column_head {
                        self.nn()
                    } else {
                        row_node as int
                    },
                    -1,
                ),
                self.dead_kept(&pre),
                forall|n: int| 0 <= n < pre.nn() ==> #[trigger] pre.shadow@.vop[n] < d,
            decreases
                    (if row_node == column_head {
                        0
                    } else {
                        self.nn() - row_node
                    }),
        {
            let ghost cur = row_node as int;
            let ghost before = *self;
            self.unlink_row(row_node, Ghost(pre), Ghost(d));
            proof {
                self.lemma_same_frame_trans(&before, &mid);
                assert(self.vchain().node_ok(cur));
                assert(self.node_shape(cur));
                assert(self.column_shape(c));
            }
            row_node = self.down[row_node];
            proof {
                let lim2 = if row_node == column_head {
                    self.nn()
                } else {
                    row_node as int
                };
                if row_node != column_head {
                    self.lemma_member_is_cell(c, row_node as int);
                }
                self.lemma_slide_gap(c, cur + 1, lim2);
                self.lemma_row_reached(c, d, cur, lim2);
                self.lemma_delta_widen(&pre, d, cur, lim2);
            }
        }
        proof {
            self.lemma_cover_ends(c, d);
            self.lemma_same_frame_trans(&mid, &pre);
        }
    }

    /// How the vertical stamps may differ from those of `pre` while the
    /// column covered by operation `d` is being uncovered.
    pub(crate) open spec fn uncover_delta(&self, pre: &PuzzleSolver, d: int) -> bool {
        forall|n: int|
            0 <= n < self.nn() ==> (#[trigger] self.shadow@.vop[n] == pre.shadow@.vop[n]
                && self.shadow@.vsub[n] == pre.shadow@.vsub[n]) || (pre.shadow@.vop[n] == d
                && self.shadow@.vop[n] == -1 && self.shadow@.vsub[n] == -1)
    }

    /// The pointers of the nodes that are out of their lists are as they
    /// were in `pre`.
    pub(crate) open spec fn out_kept(&self, pre: &PuzzleSolver) -> bool {
        forall|n: int|
            0 <= n < self.nn() && #[trigger] self.shadow@.vop[n] >= 0 ==> self.up@[n] == pre.up@[n]
                && self.down@[n] == pre.down@[n]
    }

    /// At the linked cell `cur` of the column that is being uncovered, its
    /// row is still as the cover left it, and the other cells of the row lie
    /// in columns in play.
    proof fn lemma_row_ends(&self, c: int, d: int, cur: int)
        requires
            self.links(0),
            0 <= c < self.nc(),
            self.is_cell(cur),
            self.col_of(cur) == c,
            self.shadow@.vop[cur] < 0,
            self.shadow@.cop[c] < 0,
            d == self.shadow@.ops.len(),
            self.rows_mid(c, d, cur + 1, -1),
        ensures
            self.row_partly(cur, d, self.shadow@.row_nodes[self.row_of(cur)].len() as int),
    {
        let r = self.row_of(cur);
        let rn = self.shadow@.row_nodes[r];
        let len = rn.len() as int;
        let p = self.shadow@.pos[cur];
        assert(self.node_shape(cur));
        assert(self.node_mid(cur, c, d, cur + 1, -1));
        assert(self.node_settled_at(cur, c, d, cur + 1));
        assert(self.vcop(c, d, c) == d);
        assert forall|k: int| 0 <= k < rn.len() implies if k == p {
            self.shadow@.vop[#[trigger] rn[k] as int] < 0
        } else {
            &&& self.shadow@.cop[self.col_of(rn[k] as int)] < 0
            &&& if Self::off(p, k, len) < len {
                self.stamp_is(rn[k] as int, d, cur)
            } else {
                self.shadow@.vop[rn[k] as int] < 0
            }
        } by {
            self.lemma_row_member(r, k);
            let x = rn[k] as int;
            if k != p {
                assert(self.stamp_is(rn[k] as int, d, cur));
                self.lemma_row_columns_differ(x, cur);
                assert(self.node_mid(x, c, d, cur + 1, -1));
                assert(self.node_settled_at(x, c, d, cur + 1));
                let cx = self.col_of(x);
                assert(self.column_links(cx, 0));
                assert(self.vcop(c, d, cx) == self.shadow@.cop[cx]);
            }
        }
    }

    /// The stamp `(d, cur)` of `x` is later than that of every other cell
    /// that is out of the column of `x`.
    proof fn lemma_newest_in_uncover(&self, c: int, d: int, cur: int, x: int)
        requires
            self.links(0),
            0 <= c < self.nc(),
            self.is_cell(cur),
            self.col_of(cur) == c,
            self.is_cell(x),
            self.row_of(x) == self.row_of(cur),
            x != cur,
            self.shadow@.cop[c] < 0,
            d == self.shadow@.ops.len(),
            self.stamp_is(x, d, cur),
            self.rows_mid(c, d, cur + 1, self.row_of(cur)),
        ensures
            self.vchain().newest(self.shadow@.vhome[x], d, cur, x),
    {
        let s = self.shadow@.vhome[x];
        let sh = self.shadow@;
        let r0 = self.row_of(cur);
        assert(self.node_shape(x));
        assert forall|m: int|
            0 <= m < self.nn() && #[trigger] sh.vhome[m] == s && !self.vchain().alive(m) && m
                != x implies sh.vop[m] < d || (sh.vop[m] == d && sh.vsub[m] < cur) by {
            assert(self.node_shape(m));
            assert(self.vchain().node_ok(m));
            assert(self.vchain().node_ok(s));
            assert(self.column_shape(self.col_of(x)));
            assert(self.is_cell(m));
            if self.row_of(m) == r0 {
                self.lemma_row_columns_differ(m, x);
                assert(self.column_shape(self.col_of(m)));
                assert(false);
            }
            assert(self.node_mid(m, c, d, cur + 1, r0));
            assert(self.node_settled_at(m, c, d, cur + 1));
            let v = sh.vsub[m];
            if sh.vop[m] == d {
                if v >= 0 {
                    assert(self.node_shape(v));
                    let cv = self.col_of(v);
                    assert(self.column_links(cv, 0));
                    assert(cv == c);
                    assert(self.is_cell(v));
                    assert(self.row_of(v) == self.row_of(m));
                    assert(self.node_mid(v, c, d, cur + 1, r0));
                    assert(self.node_settled_at(v, c, d, cur + 1));
                    assert(sh.vop[v] < 0);
                    if v >= cur + 1 {
                        assert(sh.row_nodes[self.row_of(m)][sh.pos[m]] == m);
                        assert(sh.vop[sh.row_nodes[self.row_of(m)][sh.pos[m]] as int] < 0);
                        assert(false);
                    }
                    assert(v != cur);
                }
            }
        }
    }

    /// One more cell of the row of `cur` is linked again.
    proof fn lemma_partly_back(&self, before: &PuzzleSolver, cur: int, d: int, j: int, x: int)
        requires
            before.shape(),
            before.is_cell(cur),
            before.row_partly(cur, d, j),
            self.node_list@ == before.node_list@,
            self.shadow@ == (Shadow {
                vop: before.shadow@.vop.update(x, -1),
                vsub: before.shadow@.vsub.update(x, -1),
                ..before.shadow@
            }),
            0 <= x < before.nn(),
            before.shadow@.vop.len() == before.nn(),
            before.shadow@.vsub.len() == before.nn(),
            2 <= j <= before.shadow@.row_nodes[before.row_of(cur)].len(),
            x == before.shadow@.row_nodes[before.row_of(cur)][Self::at(
                before.shadow@.pos[cur],
                j - 1,
                before.shadow@.row_nodes[before.row_of(cur)].len() as int,
            )],
        ensures
            self.row_partly(cur, d, j - 1),
    {
        let r0 = before.row_of(cur);
        let rn = before.shadow@.row_nodes[r0];
        let len = rn.len() as int;
        let p = before.shadow@.pos[cur];
        assert(before.node_shape(cur));
        let k = Self::at(p, j - 1, len);
        assert forall|k2: int| 0 <= k2 < len implies if k2 == p {
            self.shadow@.vop[#[trigger] rn[k2] as int] < 0
        } else {
            &&& self.shadow@.cop[self.col_of(rn[k2] as int)] < 0
            &&& if Self::off(p, k2, len) < j - 1 {
                self.stamp_is(rn[k2] as int, d, cur)
            } else {
                self.shadow@.vop[rn[k2] as int] < 0
            }
        } by {
            before.lemma_row_member(r0, k2);
            before.lemma_row_member(r0, k);
            if k2 != k {
                assert(rn[k2] != rn[k]);
                assert(self.shadow@.vop[rn[k2] as int] == before.shadow@.vop[rn[k2] as int]);
                assert(self.shadow@.vsub[rn[k2] as int] == before.shadow@.vsub[rn[k2] as int]);
                assert(Self::off(p, k2, len) != j - 1);
            } else {
                assert(Self::off(p, k2, len) == j - 1);
            }
        }
    }

    /// Putting the cell `x` back writes to the pointers of linked nodes only.
    proof fn lemma_out_kept_step(&self, before: &PuzzleSolver, pre: &PuzzleSolver, x: int)
        requires
            before.links(0),
            before.out_kept(pre),
            before.is_cell(x),
            before.shadow@.vop[x] >= 0,
            before.shadow@.vop[x] >= before.shadow@.floor,
            before.vchain().newest(
                before.shadow@.vhome[x],
                before.shadow@.vop[x],
                before.shadow@.vsub[x],
                x,
            ),
            self.nn() == before.nn(),
            self.vchain() == before.vchain().relinked(x),
        ensures
            self.out_kept(pre),
    {
        assert(before.node_shape(x));
        assert(before.vchain().node_ok(x));
        let s = before.shadow@.vhome[x];
        assert(before.vchain().node_ok(s));
        let a = before.up@[x] as int;
        let b = before.down@[x] as int;
        assert(before.vchain().alive(a));
        assert(before.vchain().alive(b));
        assert forall|n: int|
            0 <= n < self.nn() && #[trigger] self.shadow@.vop[n] >= 0 implies self.up@[n]
            == pre.up@[n] && self.down@[n] == pre.down@[n] by {
            assert(n != x);
            assert(before.shadow@.vop[n] >= 0);
            assert(n != a);
            assert(n != b);
        }
    }

    /// After the row of `cur` has been walked back, it is whole.
    proof fn lemma_partly_whole(&self, cur: int, d: int)
        requires
            self.shape(),
            self.is_cell(cur),
            self.row_partly(cur, d, 1),
        ensures
            self.row_whole(cur),
            self.shadow@.vop[cur] < 0,
    {
        let r0 = self.row_of(cur);
        let rn = self.shadow@.row_nodes[r0];
        let len = rn.len() as int;
        let p = self.shadow@.pos[cur];
        assert(self.node_shape(cur));
        assert forall|k: int| 0 <= k < rn.len() implies self.shadow@.vop[#[trigger] rn[k] as int]
            < 0 && (k != p ==> self.shadow@.cop[self.col_of(rn[k] as int)] < 0) by {
            if k != p {
                assert(Self::off(p, k, len) >= 1);
            }
        }
        assert(self.shadow@.vop[rn[p] as int] < 0);
    }

    /// Puts the row of the linked cell `row_node` of the column that is
    /// being uncovered back into all its other columns.
    #[verifier::rlimit(40)]
    fn relink_row(&mut self, row_node: usize, Ghost(pre): Ghost<PuzzleSolver>, Ghost(d): Ghost<int>)
        requires
            old(self).links(0),
            old(self).is_cell(row_node as int),
            old(self).shadow@.vop[row_node as int] < 0,
            old(self).shadow@.cop[old(self).col_of(row_node as int)] < 0,
            d == old(self).shadow@.ops.len(),
            d >= old(self).shadow@.floor,
            d >= 0,
            old(self).rows_mid(old(self).col_of(row_node as int), d, row_node as int + 1, -1),
            old(self).uncover_delta(&pre, d),
            old(self).out_kept(&pre),
            pre.nn() == old(self).nn(),
        ensures
            final(self).links(0),
            final(self).same_frame(old(self)),
            final(self).left@ == old(self).left@,
            final(self).right@ == old(self).right@,
            final(self).same_shadow_but_vstamps(old(self)),
            final(self).rows_mid(
                old(self).col_of(row_node as int),
                d,
                row_node as int + 1,
                old(self).row_of(row_node as int),
            ),
            final(self).row_whole(row_node as int),
            final(self).shadow@.vop[row_node as int] < 0,
            final(self).uncover_delta(&pre, d),
            final(self).out_kept(&pre),
    {
        let ghost start = *self;
        let ghost cur = row_node as int;
        let ghost c = self.col_of(cur);
        let ghost r0 = self.row_of(cur);
        let ghost p = self.shadow@.pos[cur];
        let ghost rn = self.shadow@.row_nodes[r0];
        let ghost len = rn.len() as int;
        proof {
            assert(self.node_shape(cur));
            assert(self.row_shape(r0));
            self.lemma_row_ends(c, d, cur);
            self.lemma_slide_row(c, d, cur + 1, cur);
            assert(Self::before(p, len) == Self::at(p, len - 1, len));
            assert(self.row_link_ok(r0, p));
        }
        let mut column_node = self.left[row_node];
        let ghost mut j: int = len;
        while column_node != row_node
            invariant
                self.links(0),
                self.same_frame(&start),
                self.left@ == start.left@,
                self.right@ == start.right@,
                self.same_shadow_but_vstamps(&start),
                start.shape(),
                pre.nn() == self.nn(),
                0 <= c < self.nc(),
                d == self.shadow@.ops.len(),
                d >= self.shadow@.floor,
                d >= 0,
                self.shadow@.cop[c] < 0,
                cur == row_node,
                self.is_cell(cur),
                self.col_of(cur) == c,
                start.col_of(cur) == c,
                r0 == self.row_of(cur),
                r0 == start.row_of(cur),
                0 <= r0 < self.nr(),
                p == self.shadow@.pos[cur],
                rn == self.shadow@.row_nodes[r0],
                len == rn.len(),
                0 <= p < len,
                rn[p] == cur,
                1 <= j <= len,
                column_node == rn[Self::at(p, j - 1, len)],
                self.rows_mid(c, d, cur + 1, r0),
                self.row_partly(cur, d, j),
                self.uncover_delta(&pre, d),
                self.out_kept(&pre),
            decreases j,
        {
            let ghost before = *self;
            let ghost x = column_node as int;
            let ghost k = Self::at(p, j - 1, len);
            proof {
                self.lemma_row_member(r0, k);
                self.lemma_row_member(r0, p);
                assert(j > 1) by {
                    if j == 1 {
                        assert(k == p);
                    }
                }
                assert(k != p);
                assert(Self::off(p, k, len) == j - 1);
                assert(x == rn[k] as int);
                assert(self.stamp_is(rn[k] as int, d, cur));
                assert(self.shadow@.cop[self.col_of(rn[k] as int)] < 0);
                self.lemma_row_columns_differ(x, cur);
                self.lemma_newest_in_uncover(c, d, cur, x);
            }
            self.relink_cell(column_node);
            proof {
                self.lemma_same_frame_trans(&before, &start);
                self.lemma_mid_frame(&before, c, d, cur + 1, r0);
                assert(self.shadow@.vop == before.shadow@.vop.update(x, -1));
                assert(self.shadow@.vsub == before.shadow@.vsub.update(x, -1));
                assert(self.shadow@.cop == before.shadow@.cop);
                self.lemma_partly_back(&before, cur, d, j, x);
                assert(self.uncover_delta(&pre, d)) by {
                    assert forall|n: int| 0 <= n < self.nn() implies (
                    #[trigger] self.shadow@.vop[n] == pre.shadow@.vop[n] && self.shadow@.vsub[n]
                        == pre.shadow@.vsub[n]) || (pre.shadow@.vop[n] == d
                        && self.shadow@.vop[n] == -1 && self.shadow@.vsub[n] == -1) by {
                        assert((before.shadow@.vop[n] == pre.shadow@.vop[n]
                            && before.shadow@.vsub[n] == pre.shadow@.vsub[n]) || (
                        pre.shadow@.vop[n] == d && before.shadow@.vop[n] == -1
                            && before.shadow@.vsub[n] == -1));
                    }
                }
                self.lemma_out_kept_step(&before, &pre, x);
                if j >= 3 {
                    assert(Self::before(k, len) == Self::at(p, j - 2, len));
                } else {
                    assert(Self::before(k, len) == p);
                    assert(Self::at(p, 0, len) == p);
                }
                assert(self.row_shape(r0));
                assert(self.row_link_ok(r0, k));
                j = j - 1;
            }
            column_node = self.left[column_node];
        }
        proof {
            assert(j == 1) by {
                if j > 1 {
                    self.lemma_row_member(r0, Self::at(p, j - 1, len));
                    self.lemma_row_member(r0, p);
                }
            }
            self.lemma_partly_whole(cur, d);
        }
    }

    /// Uncovers the column that was covered last: puts it back into its
    /// header list and puts every row that has a linked cell in it back into
    /// all its other columns.
    pub(crate) fn resume_column(&mut self, column: usize)
        requires
            old(self).links(0),
            old(self).rows_settled(),
            column < old(self).nc(),
            old(self).shadow@.cop[column as int] == old(self).shadow@.ops.len() - 1,
            old(self).shadow@.cop[column as int] >= old(self).shadow@.floor,
        ensures
            final(self).links(0),
            final(self).rows_settled(),
            final(self).same_frame(old(self)),
            final(self).shadow@ == (Shadow {
                ops: old(self).shadow@.ops.drop_last(),
                cop: old(self).shadow@.cop.update(column as int, -1),
                hop: final(self).shadow@.hop,
                hsub: final(self).shadow@.hsub,
                vop: final(self).shadow@.vop,
                vsub: final(self).shadow@.vsub,
                ..old(self).shadow@
            }),
            final(self).hchain() == if old(self).kind_of(column as int) == ColumnType::Constraint {
                old(self).hchain()
            } else {
                old(self).hchain().relinked(old(self).head_of(column as int))
            },
            final(self).uncover_delta(old(self), old(self).shadow@.ops.len() - 1),
            final(self).out_kept(old(self)),
            final(self).is_uncover_of(old(self), column as int),
    {
        let ghost pre = *self;
        let ghost d = pre.shadow@.ops.len() - 1;
        let ghost c = column as int;
        self.show_column(column);
        let ghost mid = *self;
        proof {
            assert(self.column_shape(c));
        }
        let column_head = self.column_list[column].head;
        let mut row_node = self.up[column_head];
        proof {
            self.lemma_uncover_begins(&pre, c);
            assert(self.node_shape(column_head as int));
            assert(self.vchain().node_ok(column_head as int));
            if row_node != column_head {
                self.lemma_member_is_cell(c, row_node as int);
            }
            self.lemma_slide_gap(c, row_node as int + 1, self.nn());
            self.lemma_mid_slide(c, d, self.nn(), row_node as int + 1);
            assert(self.uncover_delta(&pre, d));
            assert(self.out_kept(&pre));
        }
        while row_node != column_head
            invariant
                self.links(0),
                self.same_frame(&mid),
                self.left@ == mid.left@,
                self.right@ == mid.right@,
                self.same_shadow_but_vstamps(&mid),
                self.shadow@.cop[c] == -1,
                pre.nn() == self.nn(),
                c == column,
                0 <= c < self.nc(),
                column_head == self.head_of(c),
                d == self.shadow@.ops.len(),
                d >= self.shadow@.floor,
                d >= 0,
                row_node < self.nn(),
                row_node == column_head || (self.is_cell(row_node as int) && self.col_of(
                    row_node as int,
                ) == c && self.shadow@.vop[row_node as int] < 0),
                self.rows_mid(c, d, row_node as int + 1, -1),
                self.uncover_delta(&pre, d),
                self.out_kept(&pre),
            decreases row_node,
        {
            let ghost cur = row_node as int;
            let ghost before = *self;
            self.relink_row(row_node, Ghost(pre), Ghost(d));
            proof {
                self.lemma_same_frame_trans(&before, &mid);
                assert(self.vchain().node_ok(cur));
                assert(self.node_shape(cur));
                assert(self.column_shape(c));
            }
            row_node = self.up[row_node];
            proof {
                if row_node != column_head {
                    self.lemma_member_is_cell(c, row_node as int);
                }
                self.lemma_slide_gap(c, row_node as int + 1, cur);
                self.lemma_row_restored(c, d, cur, row_node as int + 1);
            }
        }
        proof {
            self.lemma_uncover_ends(c, d, column_head as int + 1);
            self.lemma_same_frame_trans(&mid, &pre);
        }
    }
}

} // verus!
