//! The four elementary moves on the link arrays: taking a cell out of its
//! column and putting it back, taking a column out of its header list and
//! putting it back. Each keeps the counters in step with the lists.

use crate::chain::{
    lemma_linked_below_bounds, lemma_linked_below_witness, lemma_linked_loop, lemma_relink,
    lemma_unlink,
};
use crate::dancing_links::{ColumnType, Node, PuzzleSolver, Shadow};
use vstd::prelude::*;

verus! {

pub(crate) proof fn lemma_holes_bounds(s: &PuzzleSolver, g: int, k: int)
    requires
        0 <= k,
    ensures
        0 <= s.holes_below(g, k) <= k,
    decreases k,
{
    if k > 0 {
        lemma_holes_bounds(s, g, k - 1);
    }
}

pub(crate) proof fn lemma_holes_same(a: &PuzzleSolver, b: &PuzzleSolver, g: int, k: int)
    requires
        0 <= k,
        forall|c: int| 0 <= c < k ==> a.is_hole(g, c) == b.is_hole(g, c),
    ensures
        a.holes_below(g, k) == b.holes_below(g, k),
    decreases k,
{
    if k > 0 {
        lemma_holes_same(a, b, g, k - 1);
    }
}

pub(crate) proof fn lemma_holes_flip(a: &PuzzleSolver, b: &PuzzleSolver, g: int, c0: int, k: int)
    requires
        0 <= k,
        0 <= c0,
        a.is_hole(g, c0) != b.is_hole(g, c0),
        forall|c: int| 0 <= c < k && c != c0 ==> a.is_hole(g, c) == b.is_hole(g, c),
    ensures
        b.holes_below(g, k) == a.holes_below(g, k) + if k <= c0 {
            0int
        } else if b.is_hole(g, c0) {
            1int
        } else {
            -1int
        },
    decreases k,
{
    if k > 0 {
        lemma_holes_flip(a, b, g, c0, k - 1);
    }
}

pub(crate) proof fn lemma_holes_witness(s: &PuzzleSolver, g: int, c0: int, k: int)
    requires
        0 <= c0 < k,
        s.is_hole(g, c0),
    ensures
        s.holes_below(g, k) >= 1,
    decreases k,
{
    if k - 1 > c0 {
        lemma_holes_witness(s, g, c0, k - 1);
    } else {
        lemma_holes_bounds(s, g, k - 1);
    }
}

impl PuzzleSolver {
    /// Everything but the vertical links, the counters and the vertical
    /// stamps is as in `pre`.
    pub open(crate) spec fn same_frame(&self, pre: &PuzzleSolver) -> bool {
        &&& self.node_list@ == pre.node_list@
        &&& self.row_list@ == pre.row_list@
        &&& self.state_stack@ == pre.state_stack@
        &&& self.column_list@.len() == pre.column_list@.len()
        &&& self.condition_state_list@.len() == pre.condition_state_list@.len()
        &&& (forall|c: int|
            0 <= c < self.nc() ==> (#[trigger] self.column_list@[c]).head == pre.column_list@[c].head
                && self.column_list@[c].column_type == pre.column_list@[c].column_type)
        &&& (forall|g: int|
            0 <= g < self.ng() ==> (#[trigger] self.condition_state_list@[g]).head
                == pre.condition_state_list@[g].head && self.condition_state_list@[g].holes
                == pre.condition_state_list@[g].holes && self.condition_state_list@[g].chaining
                == pre.condition_state_list@[g].chaining)
    }

    pub(crate) proof fn lemma_same_frame_trans(&self, mid: &PuzzleSolver, pre: &PuzzleSolver)
        requires
            self.same_frame(mid),
            mid.same_frame(pre),
        ensures
            self.same_frame(pre),
    {
        assert forall|c: int| 0 <= c < self.nc() implies (#[trigger] self.column_list@[c]).head
            == pre.column_list@[c].head && self.column_list@[c].column_type
            == pre.column_list@[c].column_type by {
            assert(mid.column_list@[c].head == pre.column_list@[c].head);
        }
        assert forall|g: int| 0 <= g < self.ng() implies (#[trigger] self.condition_state_list@[g]).head
            == pre.condition_state_list@[g].head && self.condition_state_list@[g].holes
            == pre.condition_state_list@[g].holes && self.condition_state_list@[g].chaining
            == pre.condition_state_list@[g].chaining by {
            assert(mid.condition_state_list@[g].head == pre.condition_state_list@[g].head);
        }
    }

    /// The whole ghost record of `self` is that of `pre` but for the vertical
    /// stamps.
    pub open(crate) spec fn same_shadow_but_vstamps(&self, pre: &PuzzleSolver) -> bool {
        self.shadow@ == (Shadow { vop: self.shadow@.vop, vsub: self.shadow@.vsub, ..pre.shadow@ })
    }

    pub(crate) proof fn lemma_shape_kept(&self, pre: &PuzzleSolver)
        requires
            pre.shape(),
            self.same_frame(pre),
            self.left@ == pre.left@,
            self.right@ == pre.right@,
            self.up@.len() == pre.up@.len(),
            self.down@.len() == pre.down@.len(),
            self.shadow@.vhome == pre.shadow@.vhome,
            self.shadow@.hhome == pre.shadow@.hhome,
            self.shadow@.pos == pre.shadow@.pos,
            self.shadow@.row_nodes == pre.shadow@.row_nodes,
            self.shadow@.col_rows == pre.shadow@.col_rows,
            self.shadow@.vop.len() == pre.shadow@.vop.len(),
            self.shadow@.vsub.len() == pre.shadow@.vsub.len(),
            self.shadow@.hop.len() == pre.shadow@.hop.len(),
            self.shadow@.hsub.len() == pre.shadow@.hsub.len(),
            self.shadow@.cop.len() == pre.shadow@.cop.len(),
            self.shadow@.cover_cell.len() == pre.shadow@.cover_cell.len(),
            self.shadow@.marks.len() == pre.shadow@.marks.len(),
        ensures
            self.shape(),
    {
        assert forall|n: int| 0 <= n < self.nn() implies #[trigger] self.node_shape(n) by {
            assert(pre.node_shape(n));
            let c = pre.node_list@[n].column as int;
            if pre.node_list@[n].column != usize::MAX {
                assert(self.column_list@[c].head == pre.column_list@[c].head);
                match pre.kind_of(c) {
                    ColumnType::ConditionalUnique(g) => {
                        assert(pre.column_shape(c));
                        assert(self.condition_state_list@[g as int].head
                            == pre.condition_state_list@[g as int].head);
                    },
                    _ => {},
                }
            }
        }
        assert forall|c: int| 0 <= c < self.nc() implies #[trigger] self.column_shape(c) by {
            assert(pre.column_shape(c));
            assert(self.column_list@[c].head == pre.column_list@[c].head);
            assert(self.kind_of(c) == pre.kind_of(c));
            assert(self.head_of(c) == pre.head_of(c));
            match pre.kind_of(c) {
                ColumnType::ConditionalUnique(g) => {
                    assert(self.condition_state_list@[g as int].head
                        == pre.condition_state_list@[g as int].head);
                },
                _ => {},
            }
            assert(self.shadow@.col_rows[c] == pre.shadow@.col_rows[c]);
            assert forall|i: int| 0 <= i < self.shadow@.col_rows[c].len() implies #[trigger] self.cell_at(
                c,
                i,
            ) == (Node { row: self.shadow@.col_rows[c][i], column: c as usize }) by {
                assert(pre.cell_at(c, i) == self.cell_at(c, i));
            }
        }
        assert forall|g: int| 0 <= g < self.ng() implies #[trigger] self.group_shape(g) by {
            assert(pre.group_shape(g));
            assert(self.condition_state_list@[g].head == pre.condition_state_list@[g].head);
        }
        assert forall|r: int| 0 <= r < self.nr() implies #[trigger] self.row_shape(r) by {
            assert(pre.row_shape(r));
            let x = pre.shadow@.row_nodes[r][0] as int;
            assert(pre.node_shape(x));
            let c = pre.col_of(x);
            assert(self.column_list@[c].head == pre.column_list@[c].head);
            assert forall|i: int|
                0 <= i < self.shadow@.row_nodes[r].len() implies #[trigger] self.row_link_ok(r, i) by {
                assert(pre.row_link_ok(r, i));
            }
        }
    }

    /// Distinct columns have distinct heads.
    pub(crate) proof fn lemma_heads_differ(&self, c1: int, c2: int)
        requires
            self.shape(),
            0 <= c1 < self.nc(),
            0 <= c2 < self.nc(),
            c1 != c2,
        ensures
            self.head_of(c1) != self.head_of(c2),
    {
        assert(self.column_shape(c1));
        assert(self.column_shape(c2));
    }

    /// A column head is in its header list exactly when the column is not
    /// covered; this is what the links around the head show.
    pub(crate) proof fn lemma_head_in_list(&self, c: int)
        requires
            self.links(0),
            0 <= c < self.nc(),
            self.kind_of(c) != ColumnType::Constraint,
        ensures
            self.left@[self.head_of(c)] < self.nn(),
            (self.right@[self.left@[self.head_of(c)] as int] == self.head_of(c)) == (
            self.shadow@.cop[c] < 0),
    {
        let h = self.head_of(c);
        assert(self.column_shape(c));
        assert(self.column_links(c, 0));
        assert(self.node_shape(h));
        assert(self.hchain().node_ok(h));
        match self.kind_of(c) {
            ColumnType::ConditionalUnique(g) => {
                assert(self.group_shape(g as int));
                assert(self.node_shape(self.condition_state_list@[g as int].head as int));
            },
            _ => {
                assert(self.node_shape(0));
            },
        }
        if self.shadow@.cop[c] < 0 {
            lemma_linked_loop(self.hchain(), h);
        }
    }

    /// Takes the linked cell `x` out of the vertical list of its column, with
    /// the stamp `(op, sub)`.
    pub(crate) fn unlink_cell(&mut self, x: usize, Ghost(op): Ghost<int>, Ghost(sub): Ghost<int>)
        requires
            old(self).links(0),
            old(self).is_cell(x as int),
            old(self).shadow@.vop[x as int] < 0,
            op >= 0,
            op >= old(self).shadow@.floor,
            old(self).vchain().newest(old(self).shadow@.vhome[x as int], op, sub, x as int),
        ensures
            final(self).links(0),
            final(self).same_frame(old(self)),
            final(self).left@ == old(self).left@,
            final(self).right@ == old(self).right@,
            final(self).vchain() == old(self).vchain().unlinked(x as int, op, sub),
            final(self).same_shadow_but_vstamps(old(self)),
            forall|c: int|
                0 <= c < old(self).nc() ==> (#[trigger] final(self).column_list@[c]).count == old(
                    self,
                ).column_list@[c].count - if c == old(self).col_of(x as int) {
                    1int
                } else {
                    0int
                },
    {
        let ghost pre = *self;
        let c = self.node_list[x].column;
        proof {
            assert(pre.node_shape(x as int));
            assert(pre.column_shape(c as int));
            assert(pre.column_links(c as int, 0));
            assert(pre.vchain().node_ok(x as int));
            lemma_linked_below_witness(pre.vchain(), pre.head_of(c as int), x as int, pre.nn());
            lemma_unlink(pre.vchain(), x as int, op, sub);
        }
        self.column_list[c].count -= 1;
        let column_item = self.column_list[c];
        let ghost mid = *self;
        if column_item.count == 0 {
            if let Some(index) = column_item.conditional_index() {
                let head = column_item.head;
                proof {
                    pre.lemma_head_in_list(c as int);
                    assert(pre.group_links(index as int));
                }
                if self.right[self.left[head]] == head {
                    proof {
                        assert(mid.is_hole(index as int, c as int));
                        assert(!pre.is_hole(index as int, c as int));
                        assert forall|c2: int| 0 <= c2 < pre.nc() && c2 != c implies mid.is_hole(
                            index as int,
                            c2,
                        ) == pre.is_hole(index as int, c2) by {}
                        lemma_holes_flip(&pre, &mid, index as int, c as int, pre.nc());
                        lemma_holes_bounds(&mid, index as int, pre.nc());
                    }
                    self.condition_state_list[index].current_holes += 1;
                }
            }
        }
        let above = self.up[x];
        let below = self.down[x];
        self.down[above] = below;
        self.up[below] = above;
        proof {
            self.shadow@.vop = self.shadow@.vop.update(x as int, op);
            self.shadow@.vsub = self.shadow@.vsub.update(x as int, sub);
            assert(self.vchain() == pre.vchain().unlinked(x as int, op, sub));
            assert(self.hchain() == pre.hchain());
            self.lemma_shape_kept(&pre);
            self.lemma_counters_after_cell(&pre, x as int);
        }
    }

    /// After the liveness of cell `x` alone has changed, with the count of
    /// its column and the hole count of its group moved accordingly, the
    /// counters are again in step.
    proof fn lemma_counters_after_cell(&self, pre: &PuzzleSolver, x: int)
        requires
            pre.links(0),
            pre.is_cell(x),
            self.shape(),
            self.same_frame(pre),
            self.same_shadow_but_vstamps(pre),
            self.vchain().ok(),
            self.hchain() == pre.hchain(),
            self.vchain().linked(pre.shadow@.vhome[x]) == pre.vchain().linked(pre.shadow@.vhome[x])
                + self.column_list@[pre.col_of(x)].count - pre.column_list@[pre.col_of(x)].count,
            forall|t: int|
                t != pre.shadow@.vhome[x] ==> self.vchain().linked(t) == pre.vchain().linked(t),
            forall|c: int|
                0 <= c < pre.nc() && c != pre.col_of(x) ==> (#[trigger] self.column_list@[c]).count
                    == pre.column_list@[c].count,
            forall|g: int|
                0 <= g < pre.ng() ==> (#[trigger] self.condition_state_list@[g]).current_holes
                    == pre.condition_state_list@[g].current_holes + (if self.is_hole(
                    g,
                    pre.col_of(x),
                ) {
                    1int
                } else {
                    0int
                }) - (if pre.is_hole(g, pre.col_of(x)) {
                    1int
                } else {
                    0int
                }),
        ensures
            self.links(0),
    {
        let cx = pre.col_of(x);
        assert(pre.node_shape(x));
        assert forall|n: int| 0 <= n < self.nn() implies #[trigger] self.hop_ok(n) by {
            assert(pre.hop_ok(n));
            assert(pre.node_shape(n));
            if pre.node_list@[n].column != usize::MAX {
                assert(self.column_list@[pre.col_of(n)].column_type
                    == pre.column_list@[pre.col_of(n)].column_type);
            }
        }
        assert forall|c: int| 0 <= c < self.nc() implies #[trigger] self.column_links(c, 0) by {
            assert(pre.column_links(c, 0));
            assert(self.column_list@[c].head == pre.column_list@[c].head);
            if c != cx {
                pre.lemma_heads_differ(c, cx);
                assert(self.column_list@[c].count == pre.column_list@[c].count);
            }
        }
        assert forall|g: int| 0 <= g < self.ng() implies #[trigger] self.group_links(g) by {
            assert(pre.group_links(g));
            assert(self.condition_state_list@[g].current_holes
                == pre.condition_state_list@[g].current_holes + (if self.is_hole(g, cx) {
                1int
            } else {
                0int
            }) - (if pre.is_hole(g, cx) {
                1int
            } else {
                0int
            }));
            assert forall|c: int| 0 <= c < pre.nc() && c != cx implies self.is_hole(g, c)
                == pre.is_hole(g, c) by {
                assert(self.column_list@[c].count == pre.column_list@[c].count);
                assert(self.column_list@[c].column_type == pre.column_list@[c].column_type);
            }
            if self.is_hole(g, cx) == pre.is_hole(g, cx) {
                lemma_holes_same(pre, self, g, pre.nc());
            } else {
                lemma_holes_flip(pre, self, g, cx, pre.nc());
            }
        }
    }

    /// Puts the most recently removed cell `x` back into the vertical list of
    /// its column.
    pub(crate) fn relink_cell(&mut self, x: usize)
        requires
            old(self).links(0),
            old(self).is_cell(x as int),
            old(self).shadow@.vop[x as int] >= 0,
            old(self).shadow@.vop[x as int] >= old(self).shadow@.floor,
            old(self).shadow@.cop[old(self).col_of(x as int)] < 0,
            old(self).vchain().newest(
                old(self).shadow@.vhome[x as int],
                old(self).shadow@.vop[x as int],
                old(self).shadow@.vsub[x as int],
                x as int,
            ),
        ensures
            final(self).links(0),
            final(self).same_frame(old(self)),
            final(self).left@ == old(self).left@,
            final(self).right@ == old(self).right@,
            final(self).vchain() == old(self).vchain().relinked(x as int),
            final(self).same_shadow_but_vstamps(old(self)),
            forall|c: int|
                0 <= c < old(self).nc() ==> (#[trigger] final(self).column_list@[c]).count == old(
                    self,
                ).column_list@[c].count + if c == old(self).col_of(x as int) {
                    1int
                } else {
                    0int
                },
    {
        let ghost pre = *self;
        let c = self.node_list[x].column;
        proof {
            assert(pre.node_shape(x as int));
            assert(pre.column_shape(c as int));
            assert(pre.column_links(c as int, 0));
            assert(pre.vchain().node_ok(x as int));
            lemma_relink(pre.vchain(), x as int);
            lemma_linked_below_bounds(
                pre.vchain().relinked(x as int),
                pre.head_of(c as int),
                pre.nn(),
            );
        }
        self.column_list[c].count += 1;
        let column_item = self.column_list[c];
        let ghost mid = *self;
        if column_item.count == 1 {
            if let Some(index) = column_item.conditional_index() {
                proof {
                    assert(pre.group_links(index as int));
                    assert(pre.is_hole(index as int, c as int));
                    lemma_holes_witness(&pre, index as int, c as int, pre.nc());
                }
                self.condition_state_list[index].current_holes -= 1;
            }
        }
        let above = self.up[x];
        let below = self.down[x];
        self.down[above] = x;
        self.up[below] = x;
        proof {
            self.shadow@.vop = self.shadow@.vop.update(x as int, -1);
            self.shadow@.vsub = self.shadow@.vsub.update(x as int, -1);
            assert(self.vchain() == pre.vchain().relinked(x as int));
            assert(self.hchain() == pre.hchain());
            self.lemma_shape_kept(&pre);
            self.lemma_counters_after_cell(&pre, x as int);
        }
    }

    /// The head of a constraint column is alone in its header list.
    pub(crate) proof fn lemma_constraint_alone(&self, c: int)
        requires
            self.links(0),
            0 <= c < self.nc(),
            self.kind_of(c) == ColumnType::Constraint,
        ensures
            self.left@[self.head_of(c)] == self.head_of(c),
            self.right@[self.head_of(c)] == self.head_of(c),
    {
        let h = self.head_of(c);
        assert(self.column_shape(c));
        assert(self.node_shape(h));
        assert(self.hchain().node_ok(h));
        let x = self.right@[h] as int;
        let p = self.left@[h] as int;
        self.lemma_not_in_constraint_list(c, x);
        self.lemma_not_in_constraint_list(c, p);
    }

    proof fn lemma_not_in_constraint_list(&self, c: int, x: int)
        requires
            self.links(0),
            0 <= c < self.nc(),
            self.kind_of(c) == ColumnType::Constraint,
            0 <= x < self.nn(),
            self.shadow@.hhome[x] == self.head_of(c),
        ensures
            x == self.head_of(c),
    {
        let h = self.head_of(c);
        assert(self.column_shape(c));
        assert(self.node_shape(x));
        if self.node_list@[x].column != usize::MAX && self.node_list@[x].row == usize::MAX {
            let cx = self.col_of(x);
            assert(self.column_shape(cx));
            match self.kind_of(cx) {
                ColumnType::ConditionalUnique(g) => {
                    assert(self.group_shape(g as int));
                },
                _ => {},
            }
        }
    }

    /// Every member of a header list that is out of the list left it before
    /// operation `d`, when all covers in effect are below `d`.
    proof fn lemma_header_newest(&self, c: int, d: int, skip: int)
        requires
            self.links(0),
            0 <= c < self.nc(),
            self.kind_of(c) != ColumnType::Constraint,
            forall|c2: int|
                0 <= c2 < self.nc() && self.head_of(c2) != skip ==> #[trigger] self.shadow@.cop[c2]
                    < d,
        ensures
            self.hchain().newest(self.list_anchor(c), d, 0, skip),
    {
        let a = self.list_anchor(c);
        assert(self.column_shape(c));
        assert forall|m: int|
            0 <= m < self.nn() && #[trigger] self.shadow@.hhome[m] == a && !self.hchain().alive(m)
                && m != skip implies self.shadow@.hop[m] < d by {
            assert(self.node_shape(m));
            assert(self.hchain().node_ok(m));
            assert(self.hchain().node_ok(a));
            if self.node_list@[m].column != usize::MAX && self.node_list@[m].row == usize::MAX {
                let cm = self.col_of(m);
                assert(self.column_links(cm, 0));
                assert(self.column_shape(cm));
                if self.kind_of(cm) == ColumnType::Constraint {
                    assert(self.shadow@.hhome[m] == m);
                }
            }
        }
    }

    /// Takes column `c` out of its header list, as operation number
    /// `ops.len()`.
    pub(crate) fn hide_column(&mut self, c: usize)
        requires
            old(self).links(0),
            c < old(self).nc(),
            old(self).shadow@.cop[c as int] < 0,
        ensures
            final(self).links(0),
            final(self).same_frame(old(self)),
            final(self).column_list@ == old(self).column_list@,
            final(self).up@ == old(self).up@,
            final(self).down@ == old(self).down@,
            final(self).shadow@ == (Shadow {
                ops: old(self).shadow@.ops.push(c as int),
                cop: old(self).shadow@.cop.update(c as int, old(self).shadow@.ops.len() as int),
                hop: final(self).shadow@.hop,
                hsub: final(self).shadow@.hsub,
                ..old(self).shadow@
            }),
            final(self).hchain() == if old(self).kind_of(c as int) == ColumnType::Constraint {
                old(self).hchain()
            } else {
                old(self).hchain().unlinked(
                    old(self).head_of(c as int),
                    old(self).shadow@.ops.len() as int,
                    0,
                )
            },
    {
        let ghost pre = *self;
        let ghost d = pre.shadow@.ops.len() as int;
        let column_item = self.column_list[c];
        proof {
            assert(pre.column_shape(c as int));
            assert(pre.column_links(c as int, 0));
        }
        if column_item.count == 0 {
            if let Some(index) = column_item.conditional_index() {
                proof {
                    assert(pre.group_links(index as int));
                    assert(pre.is_hole(index as int, c as int));
                    lemma_holes_witness(&pre, index as int, c as int, pre.nc());
                }
                self.condition_state_list[index].current_holes -= 1;
            }
        }
        let head = column_item.head;
        proof {
            assert(pre.node_shape(head as int));
            assert(pre.hchain().node_ok(head as int));
            if pre.kind_of(c as int) == ColumnType::Constraint {
                pre.lemma_constraint_alone(c as int);
            } else {
                assert forall|c2: int| 0 <= c2 < pre.nc() implies #[trigger] pre.shadow@.cop[c2]
                    < d by {
                    assert(pre.column_links(c2, 0));
                }
                pre.lemma_header_newest(c as int, d, head as int);
                lemma_unlink(pre.hchain(), head as int, d, 0);
            }
        }
        let before = self.left[head];
        let after = self.right[head];
        self.right[before] = after;
        self.left[after] = before;
        proof {
            self.shadow@.ops = self.shadow@.ops.push(c as int);
            self.shadow@.cop = self.shadow@.cop.update(c as int, d);
            if pre.kind_of(c as int) != ColumnType::Constraint {
                self.shadow@.hop = self.shadow@.hop.update(head as int, d);
                self.shadow@.hsub = self.shadow@.hsub.update(head as int, 0);
                assert(self.hchain() == pre.hchain().unlinked(head as int, d, 0));
            } else {
                assert(self.right@ == pre.right@);
                assert(self.left@ == pre.left@);
                assert(self.hchain() == pre.hchain());
            }
            assert(self.vchain() == pre.vchain());
            self.lemma_shape_kept_header(&pre);
            assert(self.shadow@.hop =~= pre.shadow@.hop.update(
                head as int,
                self.shadow@.hop[head as int],
            ));
            assert(self.shadow@.hsub =~= pre.shadow@.hsub.update(
                head as int,
                self.shadow@.hsub[head as int],
            ));
            self.lemma_counters_after_column(&pre, c as int);
        }
    }

    /// Puts column `c`, covered by the last operation, back into its header
    /// list.
    pub(crate) fn show_column(&mut self, c: usize)
        requires
            old(self).links(0),
            c < old(self).nc(),
            old(self).shadow@.cop[c as int] == old(self).shadow@.ops.len() - 1,
            old(self).shadow@.cop[c as int] >= old(self).shadow@.floor,
        ensures
            final(self).links(0),
            final(self).same_frame(old(self)),
            final(self).column_list@ == old(self).column_list@,
            final(self).up@ == old(self).up@,
            final(self).down@ == old(self).down@,
            final(self).shadow@ == (Shadow {
                ops: old(self).shadow@.ops.drop_last(),
                cop: old(self).shadow@.cop.update(c as int, -1),
                hop: final(self).shadow@.hop,
                hsub: final(self).shadow@.hsub,
                ..old(self).shadow@
            }),
            final(self).hchain() == if old(self).kind_of(c as int) == ColumnType::Constraint {
                old(self).hchain()
            } else {
                old(self).hchain().relinked(old(self).head_of(c as int))
            },
    {
        let ghost pre = *self;
        let ghost d = pre.shadow@.ops.len() - 1;
        let column_item = self.column_list[c];
        proof {
            assert(pre.column_shape(c as int));
            assert(pre.column_links(c as int, 0));
        }
        let head = column_item.head;
        proof {
            assert(pre.node_shape(head as int));
            assert(pre.hchain().node_ok(head as int));
            if pre.kind_of(c as int) == ColumnType::Constraint {
                pre.lemma_constraint_alone(c as int);
            } else {
                assert forall|c2: int|
                    0 <= c2 < pre.nc() && pre.head_of(c2) != head implies #[trigger] pre.shadow@.cop[c2]
                    < d by {
                    assert(pre.column_links(c2, 0));
                }
                pre.lemma_header_newest(c as int, d, head as int);
                lemma_relink(pre.hchain(), head as int);
            }
        }
        if column_item.count == 0 {
            if let Some(index) = column_item.conditional_index() {
                proof {
                    assert(pre.group_links(index as int));
                    let ghost post = PuzzleSolver {
                        shadow: Ghost(
                            Shadow { cop: pre.shadow@.cop.update(c as int, -1), ..pre.shadow@ },
                        ),
                        ..pre
                    };
                    assert(post.is_hole(index as int, c as int));
                    assert(!pre.is_hole(index as int, c as int));
                    assert forall|c2: int| 0 <= c2 < pre.nc() && c2 != c implies post.is_hole(
                        index as int,
                        c2,
                    ) == pre.is_hole(index as int, c2) by {}
                    lemma_holes_flip(&pre, &post, index as int, c as int, pre.nc());
                    lemma_holes_bounds(&post, index as int, pre.nc());
                }
                self.condition_state_list[index].current_holes += 1;
            }
        }
        let before = self.left[head];
        let after = self.right[head];
        self.right[before] = head;
        self.left[after] = head;
        proof {
            self.shadow@.ops = self.shadow@.ops.drop_last();
            self.shadow@.cop = self.shadow@.cop.update(c as int, -1);
            if pre.kind_of(c as int) != ColumnType::Constraint {
                self.shadow@.hop = self.shadow@.hop.update(head as int, -1);
                self.shadow@.hsub = self.shadow@.hsub.update(head as int, -1);
                assert(self.hchain() == pre.hchain().relinked(head as int));
            } else {
                assert(self.right@ == pre.right@);
                assert(self.left@ == pre.left@);
                assert(self.hchain() == pre.hchain());
            }
            assert(self.vchain() == pre.vchain());
            self.lemma_shape_kept_header(&pre);
            assert(self.shadow@.hop =~= pre.shadow@.hop.update(
                head as int,
                self.shadow@.hop[head as int],
            ));
            assert(self.shadow@.hsub =~= pre.shadow@.hsub.update(
                head as int,
                self.shadow@.hsub[head as int],
            ));
            self.lemma_counters_after_column(&pre, c as int);
        }
    }

    /// The shape survives a change of the header links of column heads.
    proof fn lemma_shape_kept_header(&self, pre: &PuzzleSolver)
        requires
            pre.shape(),
            pre.hchain().ok(),
            self.same_frame(pre),
            self.left@.len() == pre.left@.len(),
            self.right@.len() == pre.right@.len(),
            forall|n: int|
                0 <= n < pre.nn() && pre.shadow@.hhome[n] < 0 ==> self.left@[n] == pre.left@[n]
                    && self.right@[n] == pre.right@[n],
            self.up@.len() == pre.up@.len(),
            self.down@.len() == pre.down@.len(),
            self.shadow@.vhome == pre.shadow@.vhome,
            self.shadow@.hhome == pre.shadow@.hhome,
            self.shadow@.pos == pre.shadow@.pos,
            self.shadow@.row_nodes == pre.shadow@.row_nodes,
            self.shadow@.col_rows == pre.shadow@.col_rows,
            self.shadow@.vop.len() == pre.shadow@.vop.len(),
            self.shadow@.vsub.len() == pre.shadow@.vsub.len(),
            self.shadow@.hop.len() == pre.shadow@.hop.len(),
            self.shadow@.hsub.len() == pre.shadow@.hsub.len(),
            self.shadow@.cop.len() == pre.shadow@.cop.len(),
            self.shadow@.cover_cell.len() == pre.shadow@.cover_cell.len(),
            self.shadow@.marks.len() == pre.shadow@.marks.len(),
        ensures
            self.shape(),
    {
        let mid = PuzzleSolver { left: pre.left, right: pre.right, ..*self };
        mid.lemma_shape_kept(pre);
        assert forall|n: int| 0 <= n < self.nn() implies #[trigger] self.node_shape(n) by {
            assert(mid.node_shape(n));
        }
        assert forall|c: int| 0 <= c < self.nc() implies #[trigger] self.column_shape(c) by {
            assert(mid.column_shape(c));
            assert forall|i: int| 0 <= i < self.shadow@.col_rows[c].len() implies #[trigger] self.cell_at(
                c,
                i,
            ) == (Node { row: self.shadow@.col_rows[c][i], column: c as usize }) by {
                assert(mid.cell_at(c, i) == self.cell_at(c, i));
            }
        }
        assert forall|g: int| 0 <= g < self.ng() implies #[trigger] self.group_shape(g) by {
            assert(mid.group_shape(g));
        }
        assert forall|r: int| 0 <= r < self.nr() implies #[trigger] self.row_shape(r) by {
            assert(mid.row_shape(r));
            let rn = self.shadow@.row_nodes[r];
            assert forall|i: int| 0 <= i < rn.len() implies #[trigger] self.row_link_ok(r, i) by {
                assert(mid.row_link_ok(r, i));
                assert(mid.node_shape(rn[i] as int));
            }
        }
    }

    /// After column `c` alone has entered or left the set of covered columns,
    /// with the hole count of its group moved accordingly, the counters are
    /// again in step.
    proof fn lemma_counters_after_column(&self, pre: &PuzzleSolver, c: int)
        requires
            pre.links(0),
            0 <= c < pre.nc(),
            self.shape(),
            self.same_frame(pre),
            self.column_list@ == pre.column_list@,
            self.vchain() == pre.vchain(),
            self.hchain().ok(),
            0 <= self.shadow@.floor <= self.shadow@.ops.len(),
            self.shadow@.cop == pre.shadow@.cop.update(c, self.shadow@.cop[c]),
            self.shadow@.hop == pre.shadow@.hop.update(
                pre.head_of(c),
                self.shadow@.hop[pre.head_of(c)],
            ),
            self.shadow@.hsub == pre.shadow@.hsub.update(
                pre.head_of(c),
                self.shadow@.hsub[pre.head_of(c)],
            ),
            self.shadow@.ops == pre.shadow@.ops.push(c) || (self.shadow@.ops
                == pre.shadow@.ops.drop_last() && pre.shadow@.cop[c] == pre.shadow@.ops.len() - 1),
            self.column_links(c, 0),
            pre.kind_of(c) == ColumnType::Constraint ==> self.shadow@.hop == pre.shadow@.hop,
            forall|g: int|
                0 <= g < pre.ng() ==> (#[trigger] self.condition_state_list@[g]).current_holes
                    == pre.condition_state_list@[g].current_holes + (if self.is_hole(g, c) {
                    1int
                } else {
                    0int
                }) - (if pre.is_hole(g, c) {
                    1int
                } else {
                    0int
                }),
        ensures
            self.links(0),
    {
        assert forall|n: int| 0 <= n < self.nn() implies #[trigger] self.hop_ok(n) by {
            assert(pre.hop_ok(n));
            assert(pre.column_shape(c));
        }
        assert forall|c2: int| 0 <= c2 < self.nc() implies #[trigger] self.column_links(c2, 0) by {
            assert(pre.column_links(c2, 0));
            assert(pre.column_links(c, 0));
            assert(pre.column_shape(c2));
            assert(pre.column_shape(c));
            if c2 != c {
                pre.lemma_heads_differ(c2, c);
                assert(self.shadow@.cop[c2] == pre.shadow@.cop[c2]);
                assert(self.shadow@.hop[pre.head_of(c2)] == pre.shadow@.hop[pre.head_of(c2)]);
                assert(self.shadow@.hsub[pre.head_of(c2)] == pre.shadow@.hsub[pre.head_of(c2)]);
                if pre.shadow@.cop[c2] >= 0 {
                    assert(self.shadow@.ops[pre.shadow@.cop[c2]] == pre.shadow@.ops[pre.shadow@.cop[c2]]);
                }
            }
        }
        assert forall|g: int| 0 <= g < self.ng() implies #[trigger] self.group_links(g) by {
            assert(pre.group_links(g));
            assert(self.condition_state_list@[g].current_holes
                == pre.condition_state_list@[g].current_holes + (if self.is_hole(g, c) {
                1int
            } else {
                0int
            }) - (if pre.is_hole(g, c) {
                1int
            } else {
                0int
            }));
            assert forall|c2: int| 0 <= c2 < pre.nc() && c2 != c implies self.is_hole(g, c2)
                == pre.is_hole(g, c2) by {
                assert(self.shadow@.cop[c2] == pre.shadow@.cop[c2]);
            }
            if self.is_hole(g, c) == pre.is_hole(g, c) {
                lemma_holes_same(pre, self, g, pre.nc());
            } else {
                lemma_holes_flip(pre, self, g, c, pre.nc());
            }
        }
    }
}

} // verus!
