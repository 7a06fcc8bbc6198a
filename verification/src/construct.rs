//! Building the matrix: groups, rows and columns.

use crate::chain::{
    lemma_linked_below_same, lemma_raise_floor, lemma_same_members, lemma_with_member,
    lemma_with_sentinel, lemma_with_stranger,
};
use crate::splice::{lemma_holes_bounds, lemma_holes_flip, lemma_holes_same};
use crate::chain::Chain;
use crate::dancing_links::{
    Column, ColumnSpec, ColumnType, ConditionState, Matrix, Node, PuzzleSolver, Row, Shadow, State,
};
use vstd::prelude::*;

verus! {

impl PuzzleSolver {
    /// Appends a node to the arena. With a row head given, the node is
    /// spliced into that row before the head, at the end of the horizontal
    /// list; without, it is alone in a list of its own. Likewise for the
    /// column head and the vertical list.
    pub(crate) fn new_node(
        &mut self,
        row: usize,
        column: usize,
        row_head: usize,
        column_head: usize,
    ) -> (node_index: usize)
        requires
            old(self).up@.len() == old(self).node_list@.len(),
            old(self).down@.len() == old(self).node_list@.len(),
            old(self).left@.len() == old(self).node_list@.len(),
            old(self).right@.len() == old(self).node_list@.len(),
            row_head == usize::MAX || (row_head < old(self).node_list@.len() && old(
                self,
            ).left@[row_head as int] < old(self).node_list@.len()),
            column_head == usize::MAX || (column_head < old(self).node_list@.len() && old(
                self,
            ).up@[column_head as int] < old(self).node_list@.len()),
        ensures
            node_index == old(self).node_list@.len(),
            final(self).node_list@.len() <= usize::MAX,
            final(self).node_list@ == old(self).node_list@.push(Node { row, column }),
            final(self).left@ == if row_head == usize::MAX {
                old(self).left@.push(node_index)
            } else {
                old(self).left@.push(old(self).left@[row_head as int]).update(
                    row_head as int,
                    node_index,
                )
            },
            final(self).right@ == if row_head == usize::MAX {
                old(self).right@.push(node_index)
            } else {
                old(self).right@.push(row_head).update(
                    old(self).left@[row_head as int] as int,
                    node_index,
                )
            },
            final(self).up@ == if column_head == usize::MAX {
                old(self).up@.push(node_index)
            } else {
                old(self).up@.push(old(self).up@[column_head as int]).update(
                    column_head as int,
                    node_index,
                )
            },
            final(self).down@ == if column_head == usize::MAX {
                old(self).down@.push(node_index)
            } else {
                old(self).down@.push(column_head).update(
                    old(self).up@[column_head as int] as int,
                    node_index,
                )
            },
            final(self).row_list@ == old(self).row_list@,
            final(self).column_list@ == old(self).column_list@,
            final(self).condition_state_list@ == old(self).condition_state_list@,
            final(self).state_stack@ == old(self).state_stack@,
            final(self).shadow@ == old(self).shadow@,
    {
        let node_index = self.node_list.len();
        self.node_list.push(Node { row, column });
        self.up.push(usize::MAX);
        self.down.push(usize::MAX);
        self.left.push(usize::MAX);
        self.right.push(usize::MAX);
        let ghost len_now = self.node_list.len();
        if row_head == usize::MAX {
            self.left[node_index] = node_index;
            self.right[node_index] = node_index;
        } else {
            let last = self.left[row_head];
            self.left[node_index] = last;
            self.right[node_index] = row_head;
            self.right[last] = node_index;
            self.left[row_head] = node_index;
        }
        if column_head == usize::MAX {
            self.up[node_index] = node_index;
            self.down[node_index] = node_index;
        } else {
            let last = self.up[column_head];
            self.up[node_index] = last;
            self.down[node_index] = column_head;
            self.down[last] = node_index;
            self.up[column_head] = node_index;
        }
        proof {
            let n = node_index as int;
            if row_head == usize::MAX {
                assert(self.left@ =~= old(self).left@.push(node_index));
                assert(self.right@ =~= old(self).right@.push(node_index));
            } else {
                assert(self.left@ =~= old(self).left@.push(old(self).left@[row_head as int]).update(
                    row_head as int,
                    node_index,
                ));
                assert(self.right@ =~= old(self).right@.push(row_head).update(
                    old(self).left@[row_head as int] as int,
                    node_index,
                ));
            }
            if column_head == usize::MAX {
                assert(self.up@ =~= old(self).up@.push(node_index));
                assert(self.down@ =~= old(self).down@.push(node_index));
            } else {
                assert(self.up@ =~= old(self).up@.push(old(self).up@[column_head as int]).update(
                    column_head as int,
                    node_index,
                ));
                assert(self.down@ =~= old(self).down@.push(column_head).update(
                    old(self).up@[column_head as int] as int,
                    node_index,
                ));
            }
        }
        node_index
    }

    /// A solver for the matrix without rows and columns.
    pub fn new() -> (board: Self)
        ensures
            board.wf(),
            !board.started(),
            board@ == (Matrix { rows: 0, columns: Seq::empty(), budgets: Seq::empty() }),
    {
        let mut board = PuzzleSolver {
            node_list: Vec::new(),
            row_list: Vec::new(),
            column_list: Vec::new(),
            condition_state_list: Vec::new(),
            up: Vec::new(),
            down: Vec::new(),
            left: Vec::new(),
            right: Vec::new(),
            state_stack: Vec::new(),
            shadow: Ghost(
                Shadow {
                    vhome: seq![0int],
                    vop: seq![-1int],
                    vsub: seq![-1int],
                    hhome: seq![0int],
                    hop: seq![-1int],
                    hsub: seq![-1int],
                    floor: 0,
                    ops: Seq::empty(),
                    cop: Seq::empty(),
                    cover_cell: Seq::empty(),
                    row_nodes: Seq::empty(),
                    pos: seq![-1int],
                    col_rows: Seq::empty(),
                    marks: seq![0int],
                },
            ),
        };
        board.state_stack.push(State::New);
        board.new_node(usize::MAX, usize::MAX, usize::MAX, usize::MAX);
        proof {
            assert(board.node_shape(0));
            assert(board.vchain().node_ok(0));
            assert(board.hchain().node_ok(0));
            assert(board.node_settled(0));
            assert(board.frame_ok(0));
            assert(board.state_stack@ =~= seq![State::New]);
            assert(board@.columns =~= Seq::empty());
            assert(board@.budgets =~= Seq::empty());
        }
        board
    }
}

impl PuzzleSolver {
    /// Before the first request for a solution the stack holds one frame.
    pub(crate) proof fn lemma_ready(&self)
        requires
            self.wf(),
            !self.started(),
        ensures
            self.ready(0),
    {
        assert(self.frame_ok(0));
        assert(self.shadow@.marks =~= seq![self.shadow@.ops.len() as int]);
        assert forall|g: int| 0 <= g < self.ng() implies !(
        #[trigger] self.condition_state_list@[g]).chaining by {
            assert(self.flag_framed(g));
            if self.condition_state_list@[g].chaining {
                let i = choose|i: int|
                    0 <= i < self.state_stack@.len() && #[trigger] self.state_stack@[i]
                        == State::TriggerChaining(g as usize);
                assert(self.state_stack@[0] == State::New);
            }
        }
    }

    pub(crate) proof fn lemma_ready_wf(&self)
        requires
            self.ready(0),
        ensures
            self.wf(),
            !self.started(),
    {
        assert forall|i: int| 0 <= i < self.state_stack@.len() implies #[trigger] self.frame_ok(
            i,
        ) by {}
        self.lemma_chains_first();
        self.lemma_leads_first();
    }

    /// `self` is `pre` with one node appended to the arena. Row `rt`, if it
    /// is a row of `pre`, may have gained the new node, and column `ct` the
    /// row `rt`.
    pub(crate) open spec fn extends(&self, pre: &PuzzleSolver, rt: int, ct: int) -> bool {
        let sh = self.shadow@;
        let psh = pre.shadow@;
        &&& self.nn() == pre.nn() + 1
        &&& self.nc() >= pre.nc()
        &&& self.nr() >= pre.nr()
        &&& self.ng() >= pre.ng()
        &&& (forall|n: int|
            0 <= n < pre.nn() ==> {
                &&& #[trigger] self.node_list@[n] == pre.node_list@[n]
                &&& sh.vhome[n] == psh.vhome[n]
                &&& sh.hhome[n] == psh.hhome[n]
                &&& sh.pos[n] == psh.pos[n]
                &&& sh.vop[n] == psh.vop[n]
                &&& sh.vsub[n] == psh.vsub[n]
                &&& sh.hop[n] == psh.hop[n]
                &&& sh.hsub[n] == psh.hsub[n]
            })
        &&& (forall|c: int|
            0 <= c < pre.nc() ==> {
                &&& #[trigger] self.column_list@[c] == pre.column_list@[c]
                &&& sh.cop[c] == psh.cop[c]
                &&& sh.cover_cell[c] == psh.cover_cell[c]
                &&& sh.col_rows[c] == psh.col_rows[c] || (c == ct && sh.col_rows[c]
                    == psh.col_rows[c].push(rt as usize))
            })
        &&& (forall|g: int|
            0 <= g < pre.ng() ==> #[trigger] self.condition_state_list@[g]
                == pre.condition_state_list@[g])
        &&& (forall|r: int|
            0 <= r < pre.nr() ==> {
                &&& #[trigger] self.row_list@[r] == pre.row_list@[r]
                &&& sh.row_nodes[r] == psh.row_nodes[r] || (r == rt && sh.row_nodes[r]
                    == psh.row_nodes[r].push(pre.nn() as usize))
            })
        &&& sh.floor >= psh.floor
        &&& sh.ops == psh.ops
        &&& sh.marks == psh.marks
        &&& self.state_stack@ == pre.state_stack@
    }

    /// What is known of the nodes, rows and columns between operations does
    /// not depend on the link arrays, the counters and the groups.
    pub(crate) proof fn lemma_settled_same(&self, pre: &PuzzleSolver)
        requires
            pre.rows_settled(),
            pre.committed(),
            self.node_list@ == pre.node_list@,
            self.row_list@ == pre.row_list@,
            self.column_list@.len() == pre.column_list@.len(),
            self.shadow@.vop == pre.shadow@.vop,
            self.shadow@.vsub == pre.shadow@.vsub,
            self.shadow@.row_nodes == pre.shadow@.row_nodes,
            self.shadow@.pos == pre.shadow@.pos,
            self.shadow@.cop == pre.shadow@.cop,
            self.shadow@.ops == pre.shadow@.ops,
            self.shadow@.cover_cell == pre.shadow@.cover_cell,
            self.shadow@.floor >= pre.shadow@.floor,
        ensures
            self.rows_settled(),
            self.committed(),
    {
        self.lemma_rows_same(pre);
        assert forall|c: int| 0 <= c < self.nc() implies #[trigger] self.column_settled(c) by {
            assert(pre.column_settled(c));
        }
        assert forall|r: int| 0 <= r < self.nr() implies #[trigger] self.row_settled(r) by {
            assert(pre.row_settled(r));
        }
    }

    /// What is known of the nodes between operations depends on the stamps
    /// and the covered columns alone.
    pub(crate) proof fn lemma_rows_same(&self, pre: &PuzzleSolver)
        requires
            pre.rows_settled(),
            self.node_list@ == pre.node_list@,
            self.shadow@.vop == pre.shadow@.vop,
            self.shadow@.vsub == pre.shadow@.vsub,
            self.shadow@.row_nodes == pre.shadow@.row_nodes,
            self.shadow@.pos == pre.shadow@.pos,
            self.shadow@.cop == pre.shadow@.cop,
            self.shadow@.ops.len() >= pre.shadow@.ops.len(),
            self.shadow@.floor >= pre.shadow@.floor,
        ensures
            self.rows_settled(),
    {
        assert forall|n: int| 0 <= n < self.nn() implies #[trigger] self.node_settled(n) by {
            assert(pre.node_settled(n));
            self.lemma_node_same(pre, n);
        }
    }

    /// What is known of one node between operations depends on the stamps
    /// and the covered columns alone.
    pub(crate) proof fn lemma_node_same(&self, pre: &PuzzleSolver, n: int)
        requires
            pre.node_settled_at(n, -1, -1, 0),
            self.node_list@ == pre.node_list@,
            self.shadow@.vop == pre.shadow@.vop,
            self.shadow@.vsub == pre.shadow@.vsub,
            self.shadow@.row_nodes == pre.shadow@.row_nodes,
            self.shadow@.pos == pre.shadow@.pos,
            self.shadow@.cop == pre.shadow@.cop,
            self.shadow@.ops.len() >= pre.shadow@.ops.len(),
            self.shadow@.floor >= pre.shadow@.floor,
        ensures
            self.node_settled_at(n, -1, -1, 0),
    {
        let sh = self.shadow@;
        let psh = pre.shadow@;
        if pre.is_cell(n) {
            let cn = pre.col_of(n);
            let r = pre.row_of(n);
            let rn = psh.row_nodes[r];
            let v = psh.vsub[n];
            assert(self.is_cell(n));
            assert(self.row_of(n) == r);
            assert(self.col_of(n) == cn);
            assert(self.vcop(-1, -1, cn) == pre.vcop(-1, -1, cn));
            if psh.vop[n] < 0 {
                if pre.vcop(-1, -1, cn) >= 0 {
                    assert(forall|k: int|
                        0 <= k < rn.len() && k != sh.pos[n] ==> self.stamp_is(
                            #[trigger] rn[k] as int,
                            self.vcop(-1, -1, cn),
                            n,
                        ));
                } else {
                    assert(forall|k: int| 0 <= k < rn.len() ==> sh.vop[#[trigger] rn[k] as int] < 0);
                }
            } else if v >= 0 {
                let cv = pre.col_of(v);
                assert(self.col_of(v) == cv);
                assert(self.vcop(-1, -1, cv) == pre.vcop(-1, -1, cv));
            } else {
                assert(forall|k: int| 0 <= k < rn.len() ==> sh.vop[#[trigger] rn[k] as int] >= 0);
            }
        }
    }

    /// What was known of the shape of the nodes, columns, groups and rows of
    /// `pre` still holds, the touched row and column set aside.
    pub(crate) proof fn lemma_grown_shape(&self, pre: &PuzzleSolver, rt: int, ct: int)
        requires
            pre.shape(),
            self.extends(pre, rt, ct),
            forall|n: int|
                0 <= n < pre.nn() && pre.is_cell(n) && pre.row_of(n) != rt ==> #[trigger] self.right@[n]
                    == pre.right@[n] && self.left@[n] == pre.left@[n],
        ensures
            forall|n: int| 0 <= n < pre.nn() ==> #[trigger] self.node_shape(n),
            forall|c: int| 0 <= c < pre.nc() && c != ct ==> #[trigger] self.column_shape(c),
            forall|g: int| 0 <= g < pre.ng() ==> #[trigger] self.group_shape(g),
            forall|r: int| 0 <= r < pre.nr() && r != rt ==> #[trigger] self.row_shape(r),
    {
        assert forall|n: int| 0 <= n < pre.nn() implies #[trigger] self.node_shape(n) by {
            assert(pre.node_shape(n));
            assert(self.node_list@[n] == pre.node_list@[n]);
            let nd = pre.node_list@[n];
            if nd.column != usize::MAX {
                let c = nd.column as int;
                assert(self.column_list@[c] == pre.column_list@[c]);
                assert(pre.column_shape(c));
                match pre.kind_of(c) {
                    ColumnType::ConditionalUnique(g) => {
                        assert(self.condition_state_list@[g as int]
                            == pre.condition_state_list@[g as int]);
                    },
                    _ => {},
                }
                if nd.row != usize::MAX {
                    assert(self.row_list@[nd.row as int] == pre.row_list@[nd.row as int]);
                }
            }
        }
        assert forall|c: int| 0 <= c < pre.nc() && c != ct implies #[trigger] self.column_shape(
            c,
        ) by {
            assert(pre.column_shape(c));
            assert(self.column_list@[c] == pre.column_list@[c]);
            let h = pre.head_of(c);
            assert(self.node_list@[h] == pre.node_list@[h]);
            match pre.kind_of(c) {
                ColumnType::ConditionalUnique(g) => {
                    assert(self.condition_state_list@[g as int]
                        == pre.condition_state_list@[g as int]);
                },
                _ => {},
            }
            assert forall|i: int| 0 <= i < self.shadow@.col_rows[c].len() implies #[trigger] self.cell_at(
                c,
                i,
            ) == (Node { row: self.shadow@.col_rows[c][i], column: c as usize }) by {
                assert(pre.cell_at(c, i) == (Node {
                    row: pre.shadow@.col_rows[c][i],
                    column: c as usize,
                }));
                assert(self.node_list@[h + 1 + i] == pre.node_list@[h + 1 + i]);
            }
        }
        assert forall|g: int| 0 <= g < pre.ng() implies #[trigger] self.group_shape(g) by {
            assert(pre.group_shape(g));
            assert(self.condition_state_list@[g] == pre.condition_state_list@[g]);
            let a = pre.condition_state_list@[g].head as int;
            assert(self.node_list@[a] == pre.node_list@[a]);
        }
        assert forall|r: int| 0 <= r < pre.nr() && r != rt implies #[trigger] self.row_shape(r) by {
            assert(pre.row_shape(r));
            assert(self.row_list@[r] == pre.row_list@[r]);
            let rn = pre.shadow@.row_nodes[r];
            let x = rn[0] as int;
            assert(self.node_list@[x] == pre.node_list@[x]);
            assert(pre.node_shape(x));
            assert(self.column_list@[pre.col_of(x)] == pre.column_list@[pre.col_of(x)]);
            assert forall|i: int| 0 <= i < rn.len() implies {
                &&& (#[trigger] rn[i]) < self.nn()
                &&& self.node_list@[rn[i] as int].row == r
                &&& self.shadow@.pos[rn[i] as int] == i
            } by {
                assert(self.node_list@[rn[i] as int] == pre.node_list@[rn[i] as int]);
            }
            assert forall|i: int| 0 <= i < rn.len() implies #[trigger] self.row_link_ok(r, i) by {
                assert(pre.row_link_ok(r, i));
                let y = rn[i] as int;
                assert(self.node_list@[y] == pre.node_list@[y]);
                assert(pre.is_cell(y));
                assert(self.right@[y] == pre.right@[y]);
            }
        }
    }

    /// What was known of the nodes of `pre` between operations still holds,
    /// the touched row set aside.
    pub(crate) proof fn lemma_grown_settled(&self, pre: &PuzzleSolver, rt: int, ct: int)
        requires
            pre.shape(),
            pre.rows_settled(),
            pre.committed(),
            self.extends(pre, rt, ct),
        ensures
            forall|n: int|
                0 <= n < pre.nn() && !(pre.is_cell(n) && pre.row_of(n) == rt)
                    ==> #[trigger] self.node_settled(n),
            forall|c: int| 0 <= c < pre.nc() ==> #[trigger] self.column_settled(c),
            forall|r: int| 0 <= r < pre.nr() && r != rt ==> #[trigger] self.row_settled(r),
    {
        let sh = self.shadow@;
        let psh = pre.shadow@;
        assert forall|n: int|
            0 <= n < pre.nn() && !(pre.is_cell(n) && pre.row_of(n) == rt) implies #[trigger] self.node_settled(
            n,
        ) by {
            assert(pre.node_settled(n));
            assert(pre.node_settled_at(n, -1, -1, 0));
            assert(self.node_list@[n] == pre.node_list@[n]);
            if pre.is_cell(n) {
                assert(pre.node_shape(n));
                let r = pre.row_of(n);
                let c = pre.col_of(n);
                let rn = psh.row_nodes[r];
                assert(self.row_list@[r] == pre.row_list@[r]);
                assert(sh.row_nodes[r] == rn);
                assert(self.column_list@[c] == pre.column_list@[c]);
                assert(self.vcop(-1, -1, c) == pre.vcop(-1, -1, c));
                assert forall|k: int| 0 <= k < rn.len() implies sh.vop[#[trigger] rn[k] as int]
                    == psh.vop[rn[k] as int] && sh.vsub[rn[k] as int] == psh.vsub[rn[k] as int] by {
                    pre.lemma_row_member(r, k);
                    assert(self.node_list@[rn[k] as int] == pre.node_list@[rn[k] as int]);
                }
                let v = psh.vsub[n];
                if psh.vop[n] >= 0 && v >= 0 {
                    assert(self.node_list@[v] == pre.node_list@[v]);
                    assert(pre.node_shape(v));
                    let cv = pre.col_of(v);
                    assert(self.column_list@[cv] == pre.column_list@[cv]);
                    assert(self.vcop(-1, -1, cv) == pre.vcop(-1, -1, cv));
                }
            }
            assert(self.node_settled_at(n, -1, -1, 0));
        }
        assert forall|c: int| 0 <= c < pre.nc() implies #[trigger] self.column_settled(c) by {
            assert(pre.column_settled(c));
            assert(self.column_list@[c] == pre.column_list@[c]);
            let x = psh.cover_cell[c];
            if psh.cop[c] >= 0 {
                assert(self.node_list@[x] == pre.node_list@[x]);
                assert(pre.node_shape(x));
                assert(self.row_list@[pre.row_of(x)] == pre.row_list@[pre.row_of(x)]);
            }
        }
        assert forall|r: int| 0 <= r < pre.nr() && r != rt implies #[trigger] self.row_settled(
            r,
        ) by {
            assert(pre.row_settled(r));
            assert(self.row_list@[r] == pre.row_list@[r]);
            let rn = psh.row_nodes[r];
            assert forall|k: int| 0 <= k < rn.len() implies self.col_of(#[trigger] rn[k] as int)
                == pre.col_of(rn[k] as int) && 0 <= pre.col_of(rn[k] as int) < pre.nc() by {
                pre.lemma_row_member(r, k);
                assert(self.node_list@[rn[k] as int] == pre.node_list@[rn[k] as int]);
            }
            if pre.row_list@[r].chosen {
                assert forall|k: int| 0 <= k < rn.len() implies sh.cover_cell[self.col_of(
                    #[trigger] rn[k] as int,
                )] == rn[k] by {
                    let c = pre.col_of(rn[k] as int);
                    assert(self.column_list@[c] == pre.column_list@[c]);
                }
            }
        }
    }

    /// The counters of the columns and groups of `pre` are still in step,
    /// the touched column set aside.
    pub(crate) proof fn lemma_grown_links(&self, pre: &PuzzleSolver, rt: int, ct: int, pp: int)
        requires
            pre.links(pp),
            pp == 0 || ct == pre.nc() - 1,
            self.extends(pre, rt, ct),
            self.vchain().shaped(),
            forall|t: int|
                0 <= t < pre.nn() && t != (if 0 <= ct < pre.nc() {
                    pre.head_of(ct)
                } else {
                    -1
                }) ==> self.vchain().linked(t) == pre.vchain().linked(t),
        ensures
            forall|c: int| 0 <= c < pre.nc() && c != ct ==> #[trigger] self.column_links(c, 0),
            forall|n: int| 0 <= n < pre.nn() ==> #[trigger] self.hop_ok(n),
            forall|g: int, k: int|
                0 <= k <= pre.nc() ==> #[trigger] self.holes_below(g, k) == pre.holes_below(g, k),
    {
        assert forall|c: int| 0 <= c < pre.nc() && c != ct implies #[trigger] self.column_links(
            c,
            0,
        ) by {
            assert(pre.column_links(c, pp));
            assert(pre.column_shape(c));
            assert(self.column_list@[c] == pre.column_list@[c]);
            let h = pre.head_of(c);
            assert(self.node_list@[h] == pre.node_list@[h]);
            if 0 <= ct < pre.nc() {
                pre.lemma_heads_differ(c, ct);
            }
        }
        assert forall|n: int| 0 <= n < pre.nn() implies #[trigger] self.hop_ok(n) by {
            assert(pre.hop_ok(n));
            assert(self.node_list@[n] == pre.node_list@[n]);
            assert(pre.node_shape(n));
            if pre.node_list@[n].column != usize::MAX {
                assert(self.column_list@[pre.col_of(n)] == pre.column_list@[pre.col_of(n)]);
            }
        }
        assert forall|g: int, k: int| 0 <= k <= pre.nc() implies #[trigger] self.holes_below(g, k)
            == pre.holes_below(g, k) by {
            assert forall|c: int| 0 <= c < k implies pre.is_hole(g, c) == self.is_hole(g, c) by {
                assert(self.column_list@[c] == pre.column_list@[c]);
            }
            lemma_holes_same(pre, self, g, k);
        }
    }

    /// The floor may rise to the number of operations in effect: nothing
    /// that is out then can come back.
    pub(crate) proof fn lemma_floor_raised(&self, pre: &PuzzleSolver, pending: int)
        requires
            pre.ready(pending),
            *self == (PuzzleSolver {
                shadow: Ghost(Shadow { floor: pre.shadow@.ops.len() as int, ..pre.shadow@ }),
                ..*pre
            }),
        ensures
            self.ready(pending),
            self.vchain().settled(),
            self.hchain().settled(),
            self.shadow@.floor == self.shadow@.ops.len(),
    {
        let f = pre.shadow@.ops.len() as int;
        lemma_raise_floor(pre.vchain(), f);
        lemma_raise_floor(pre.hchain(), f);
        assert(self.vchain() == Chain { floor: f, ..pre.vchain() });
        assert(self.hchain() == Chain { floor: f, ..pre.hchain() });
        assert forall|n: int| 0 <= n < self.nn() implies #[trigger] self.node_shape(n) by {
            assert(pre.node_shape(n));
        }
        assert forall|c: int| 0 <= c < self.nc() implies #[trigger] self.column_shape(c) by {
            assert(pre.column_shape(c));
            assert forall|i: int| 0 <= i < self.shadow@.col_rows[c].len() implies #[trigger] self.cell_at(
                c,
                i,
            ) == (Node { row: self.shadow@.col_rows[c][i], column: c as usize }) by {
                assert(pre.cell_at(c, i) == self.cell_at(c, i));
            }
        }
        assert forall|g: int| 0 <= g < self.ng() implies #[trigger] self.group_shape(g) by {
            assert(pre.group_shape(g));
        }
        assert forall|r: int| 0 <= r < self.nr() implies #[trigger] self.row_shape(r) by {
            assert(pre.row_shape(r));
            assert forall|i: int|
                0 <= i < self.shadow@.row_nodes[r].len() implies #[trigger] self.row_link_ok(r, i) by {
                assert(pre.row_link_ok(r, i));
            }
        }
        assert forall|c: int| 0 <= c < self.nc() implies #[trigger] self.column_links(
            c,
            pending,
        ) by {
            assert(pre.column_links(c, pending));
            lemma_linked_below_same(pre.vchain(), self.vchain(), pre.head_of(c), pre.nn());
        }
        assert forall|g: int| 0 <= g < self.ng() implies #[trigger] self.group_links(g) by {
            assert(pre.group_links(g));
            lemma_holes_same(pre, self, g, pre.nc());
        }
        assert forall|n: int| 0 <= n < self.nn() implies #[trigger] self.hop_ok(n) by {
            assert(pre.hop_ok(n));
        }
        self.lemma_settled_same(pre);
        assert forall|m: int|
            0 <= m < self.nn() && !self.vchain().alive(m) implies #[trigger] self.shadow@.vop[m]
            < f by {
            assert(pre.node_settled(m));
        }
        assert forall|m: int|
            0 <= m < self.nn() && !self.hchain().alive(m) implies #[trigger] self.shadow@.hop[m]
            < f by {
            assert(pre.hop_ok(m));
            assert(pre.node_shape(m));
            assert(pre.column_links(pre.col_of(m), pending));
        }
    }
}

impl PuzzleSolver {
    /// The rows and columns of `pre` are in the state they had in `pre`.
    pub open(crate) spec fn same_state(&self, pre: &PuzzleSolver) -> bool {
        &&& (forall|r: int| 0 <= r < pre.nr() ==> #[trigger] self.same_row_state(pre, r))
        &&& (forall|c: int| 0 <= c < pre.nc() ==> #[trigger] self.is_covered(c) == pre.is_covered(c))
    }

    /// Row `r` is free, and chosen, in `self` exactly when it is in `pre`.
    pub open(crate) spec fn same_row_state(&self, pre: &PuzzleSolver, r: int) -> bool {
        self.is_free(r) == pre.is_free(r) && self.is_chosen(r) == pre.is_chosen(r)
    }

    /// An appended node leaves the rows and columns of `pre` in their state.
    proof fn lemma_grown_state(&self, pre: &PuzzleSolver, rt: int, ct: int)
        requires
            pre.shape(),
            self.extends(pre, rt, ct),
            self.shadow@.vop.len() == self.nn(),
            self.shadow@.cop.len() == self.nc(),
            0 <= rt < pre.nr() ==> self.shadow@.vop[pre.nn()] < 0 && self.col_of(pre.nn()) == ct
                && 0 <= ct < self.nc() && self.shadow@.cop[ct] < 0,
        ensures
            self.same_state(pre),
    {
        assert forall|r: int| 0 <= r < pre.nr() implies #[trigger] self.same_row_state(pre, r) by {
            assert(self.row_list@[r] == pre.row_list@[r]);
            let rn = pre.shadow@.row_nodes[r];
            let rn2 = self.shadow@.row_nodes[r];
            assert forall|k: int| 0 <= k < rn.len() implies self.shadow@.vop[#[trigger] rn[k] as int]
                == pre.shadow@.vop[rn[k] as int] && self.shadow@.cop[self.col_of(rn[k] as int)]
                == pre.shadow@.cop[pre.col_of(rn[k] as int)] by {
                pre.lemma_row_member(r, k);
                assert(self.node_list@[rn[k] as int] == pre.node_list@[rn[k] as int]);
                assert(self.column_list@[pre.col_of(rn[k] as int)] == pre.column_list@[pre.col_of(
                    rn[k] as int,
                )]);
            }
            if pre.is_free(r) {
                assert forall|k: int| 0 <= k < rn2.len() implies self.shadow@.vop[#[trigger] rn2[k] as int]
                    < 0 && self.shadow@.cop[self.col_of(rn2[k] as int)] < 0 by {
                    if k < rn.len() {
                        assert(rn2[k] == rn[k]);
                        assert(pre.shadow@.vop[rn[k] as int] < 0);
                    }
                }
            }
            if self.is_free(r) {
                assert forall|k: int| 0 <= k < rn.len() implies pre.shadow@.vop[#[trigger] rn[k] as int]
                    < 0 && pre.shadow@.cop[pre.col_of(rn[k] as int)] < 0 by {
                    assert(rn2[k] == rn[k]);
                    assert(self.shadow@.vop[rn2[k] as int] < 0);
                }
            }
        }
        assert forall|c: int| 0 <= c < pre.nc() implies #[trigger] self.is_covered(c)
            == pre.is_covered(c) by {
            assert(self.column_list@[c] == pre.column_list@[c]);
        }
    }

    /// Appends a sentinel for a header list.
    pub(crate) fn new_head_node(&mut self) -> (head: usize)
        requires
            old(self).ready(0),
        ensures
            final(self).ready(0),
            head == old(self).nn(),
            final(self).extends(old(self), -1, -1),
            final(self).node_list@ == old(self).node_list@.push(
                Node { row: usize::MAX, column: usize::MAX },
            ),
            final(self).row_list@ == old(self).row_list@,
            final(self).column_list@ == old(self).column_list@,
            final(self).condition_state_list@ == old(self).condition_state_list@,
            final(self).shadow@.col_rows == old(self).shadow@.col_rows,
            final(self).shadow@.hhome[head as int] == head,
            final(self).same_state(old(self)),
            final(self).hchain().settled(),
            final(self).vchain().settled(),
    {
        let ghost pre0 = *self;
        proof {
            self.shadow@.floor = self.shadow@.ops.len() as int;
            self.lemma_floor_raised(&pre0, 0);
        }
        let ghost pre = *self;
        let head = self.new_node(usize::MAX, usize::MAX, usize::MAX, usize::MAX);
        proof {
            let n = head as int;
            let psh = pre.shadow@;
            self.shadow@ = Shadow {
                vhome: psh.vhome.push(n),
                vop: psh.vop.push(-1),
                vsub: psh.vsub.push(-1),
                hhome: psh.hhome.push(n),
                hop: psh.hop.push(-1),
                hsub: psh.hsub.push(-1),
                pos: psh.pos.push(-1),
                ..psh
            };
            self.lemma_after_anchor(&pre);
            self.lemma_extends_floor(&pre, &pre0, -1, -1);
            self.lemma_grown_state(&pre0, -1, -1);
        }
        head
    }

    /// Raising the floor first does not show in what `extends` says.
    pub(crate) proof fn lemma_extends_floor(
        &self,
        pre: &PuzzleSolver,
        pre0: &PuzzleSolver,
        rt: int,
        ct: int,
    )
        requires
            self.extends(pre, rt, ct),
            pre0.shadow@.floor <= pre0.shadow@.ops.len(),
            *pre == (PuzzleSolver {
                shadow: Ghost(Shadow { floor: pre0.shadow@.ops.len() as int, ..pre0.shadow@ }),
                ..*pre0
            }),
        ensures
            self.extends(pre0, rt, ct),
    {
        assert forall|n: int| 0 <= n < pre0.nn() implies #[trigger] self.node_list@[n]
            == pre0.node_list@[n] by {
            assert(self.node_list@[n] == pre.node_list@[n]);
        }
        assert forall|c: int| 0 <= c < pre0.nc() implies #[trigger] self.column_list@[c]
            == pre0.column_list@[c] by {
            assert(self.column_list@[c] == pre.column_list@[c]);
        }
        assert forall|g: int| 0 <= g < pre0.ng() implies #[trigger] self.condition_state_list@[g]
            == pre0.condition_state_list@[g] by {
            assert(self.condition_state_list@[g] == pre.condition_state_list@[g]);
        }
        assert forall|r: int| 0 <= r < pre0.nr() implies #[trigger] self.row_list@[r]
            == pre0.row_list@[r] by {
            assert(self.row_list@[r] == pre.row_list@[r]);
        }
    }

    proof fn lemma_after_anchor(&self, pre: &PuzzleSolver)
        requires
            pre.ready(0),
            pre.vchain().settled(),
            pre.hchain().settled(),
            self.node_list@ == pre.node_list@.push(Node { row: usize::MAX, column: usize::MAX }),
            self.node_list@.len() <= usize::MAX,
            self.up@ == pre.up@.push(pre.nn() as usize),
            self.down@ == pre.down@.push(pre.nn() as usize),
            self.left@ == pre.left@.push(pre.nn() as usize),
            self.right@ == pre.right@.push(pre.nn() as usize),
            self.row_list@ == pre.row_list@,
            self.column_list@ == pre.column_list@,
            self.condition_state_list@ == pre.condition_state_list@,
            self.state_stack@ == pre.state_stack@,
            self.shadow@ == (Shadow {
                vhome: pre.shadow@.vhome.push(pre.nn()),
                vop: pre.shadow@.vop.push(-1),
                vsub: pre.shadow@.vsub.push(-1),
                hhome: pre.shadow@.hhome.push(pre.nn()),
                hop: pre.shadow@.hop.push(-1),
                hsub: pre.shadow@.hsub.push(-1),
                pos: pre.shadow@.pos.push(-1),
                ..pre.shadow@
            }),
        ensures
            self.ready(0),
            self.extends(pre, -1, -1),
            self.vchain().settled(),
            self.hchain().settled(),
    {
        let n = pre.nn();
        assert(self.extends(pre, -1, -1));
        self.lemma_grown_shape(pre, -1, -1);
        self.lemma_grown_settled(pre, -1, -1);
        assert(self.vchain() == pre.vchain().with_sentinel());
        assert(self.hchain() == pre.hchain().with_sentinel());
        lemma_with_sentinel(pre.vchain());
        lemma_with_sentinel(pre.hchain());
        self.lemma_grown_links(pre, -1, -1, 0);
        assert(self.node_shape(n));
        assert forall|k: int| 0 <= k < self.nn() implies #[trigger] self.node_shape(k) by {}
        assert forall|k: int| 0 <= k < self.nn() implies #[trigger] self.hop_ok(k) by {}
        assert forall|c: int| 0 <= c < self.nc() implies #[trigger] self.column_links(c, 0) by {}
        assert forall|g: int| 0 <= g < self.ng() implies #[trigger] self.group_links(g) by {
            assert(pre.group_links(g));
            assert(self.holes_below(g, pre.nc()) == pre.holes_below(g, pre.nc()));
        }
        assert forall|k: int| 0 <= k < self.nn() implies #[trigger] self.node_settled(k) by {
            if k == n {
                assert(self.node_settled_at(n, -1, -1, 0));
            }
        }
        assert(self.shape());
        assert(self.links(0));
    }

    /// A group without columns has no holes.
    proof fn lemma_no_holes(&self, g: int, k: int)
        requires
            0 <= k <= self.nc(),
            forall|c: int|
                0 <= c < k ==> #[trigger] self.kind_of(c) != ColumnType::ConditionalUnique(
                    g as usize,
                ),
        ensures
            self.holes_below(g, k) == 0,
        decreases k,
    {
        if k > 0 {
            self.lemma_no_holes(g, k - 1);
            assert(self.kind_of(k - 1) != ColumnType::ConditionalUnique(g as usize));
        }
    }

    /// Opens a conditional group: the columns that will be added to it may
    /// be left without a chosen row, `holes` of them at most.
    pub fn new_conditional_constraint(&mut self, holes: usize) -> (index: usize)
        requires
            old(self).wf(),
            !old(self).started(),
        ensures
            final(self).wf(),
            !final(self).started(),
            index == old(self)@.budgets.len(),
            final(self)@ == (Matrix { budgets: old(self)@.budgets.push(holes), ..old(self)@ }),
            final(self).same_state(old(self)),
    {
        proof {
            self.lemma_ready();
        }
        let ghost pre = *self;
        let index = self.condition_state_list.len();
        let head = self.new_head_node();
        let ghost mid = *self;
        self.condition_state_list.push(
            ConditionState { head, holes, current_holes: 0, chaining: false },
        );
        let group_count = self.condition_state_list.len();
        proof {
            assert forall|g: int| 0 <= g < mid.ng() implies (#[trigger] mid.condition_state_list@[g]).head
                < mid.nn() - 1 by {
                assert(pre.group_shape(g));
            }
            self.lemma_after_group(&mid);
            self.lemma_ready_wf();
            assert(self@.budgets =~= pre@.budgets.push(holes));
            assert(self@.columns =~= pre@.columns);
            assert forall|r: int| 0 <= r < pre.nr() implies #[trigger] self.same_row_state(
                &pre,
                r,
            ) by {
                assert(mid.same_row_state(&pre, r));
            }
            assert forall|c: int| 0 <= c < pre.nc() implies #[trigger] self.is_covered(c)
                == pre.is_covered(c) by {
                assert(mid.is_covered(c) == pre.is_covered(c));
            }
        }
        index
    }

    proof fn lemma_after_group(&self, pre: &PuzzleSolver)
        requires
            pre.ready(0),
            pre.nn() >= 2,
            pre.node_list@[pre.nn() - 1] == (Node { row: usize::MAX, column: usize::MAX }),
            forall|g: int|
                0 <= g < pre.ng() ==> (#[trigger] pre.condition_state_list@[g]).head < pre.nn() - 1,
            self.node_list@ == pre.node_list@,
            self.up@ == pre.up@,
            self.down@ == pre.down@,
            self.left@ == pre.left@,
            self.right@ == pre.right@,
            self.row_list@ == pre.row_list@,
            self.column_list@ == pre.column_list@,
            self.condition_state_list@.len() <= usize::MAX,
            self.condition_state_list@ == pre.condition_state_list@.push(
                ConditionState {
                    head: (pre.nn() - 1) as usize,
                    holes: self.condition_state_list@[pre.ng()].holes,
                    current_holes: 0,
                    chaining: false,
                },
            ),
            self.state_stack@ == pre.state_stack@,
            self.shadow@ == pre.shadow@,
        ensures
            self.ready(0),
    {
        let g0 = pre.ng();
        assert forall|n: int| 0 <= n < self.nn() implies #[trigger] self.node_shape(n) by {
            assert(pre.node_shape(n));
            if pre.node_list@[n].column != usize::MAX {
                assert(pre.column_shape(pre.col_of(n)));
            }
        }
        assert forall|c: int| 0 <= c < self.nc() implies #[trigger] self.column_shape(c) by {
            assert(pre.column_shape(c));
            assert forall|i: int| 0 <= i < self.shadow@.col_rows[c].len() implies #[trigger] self.cell_at(
                c,
                i,
            ) == (Node { row: self.shadow@.col_rows[c][i], column: c as usize }) by {
                assert(pre.cell_at(c, i) == self.cell_at(c, i));
            }
        }
        assert forall|g: int| 0 <= g < self.ng() implies #[trigger] self.group_shape(g) by {
            if g < g0 {
                assert(pre.group_shape(g));
            } else if g >= 1 {
                assert(pre.group_shape(g - 1));
            }
        }
        assert forall|r: int| 0 <= r < self.nr() implies #[trigger] self.row_shape(r) by {
            assert(pre.row_shape(r));
            assert forall|i: int|
                0 <= i < self.shadow@.row_nodes[r].len() implies #[trigger] self.row_link_ok(r, i) by {
                assert(pre.row_link_ok(r, i));
            }
        }
        assert(self.vchain() == pre.vchain());
        assert(self.hchain() == pre.hchain());
        assert forall|c: int| 0 <= c < self.nc() implies #[trigger] self.column_links(c, 0) by {
            assert(pre.column_links(c, 0));
        }
        assert forall|g: int| 0 <= g < self.ng() implies #[trigger] self.group_links(g) by {
            if g < g0 {
                assert(pre.group_links(g));
                lemma_holes_same(pre, self, g, pre.nc());
            } else {
                assert forall|c: int| 0 <= c < self.nc() implies #[trigger] self.kind_of(c)
                    != ColumnType::ConditionalUnique(g as usize) by {
                    assert(pre.column_shape(c));
                }
                self.lemma_no_holes(g, self.nc());
            }
        }
        assert forall|n: int| 0 <= n < self.nn() implies #[trigger] self.hop_ok(n) by {
            assert(pre.hop_ok(n));
        }
        self.lemma_settled_same(pre);
    }
}

impl PuzzleSolver {
    /// The last column is being filled: its cells so far end the arena.
    pub open(crate) spec fn filling(&self, pending: int) -> bool {
        let c = self.nc() - 1;
        &&& self.ready(pending)
        &&& self.nc() >= 1
        &&& self.shadow@.cop[c] < 0
        &&& self.head_of(c) + self.shadow@.col_rows[c].len() + 1 == self.nn()
        &&& self.vchain().settled()
        &&& self.hchain().settled()
    }

    /// Appends a column without cells, whose counter announces `count`
    /// cells to come.
    pub(crate) fn new_column(&mut self, column_type: ColumnType, count: usize) -> (head: usize)
        requires
            old(self).ready(0),
            match column_type {
                ColumnType::ConditionalUnique(g) => g < old(self).ng() && count > 0,
                _ => true,
            },
        ensures
            final(self).filling(count as int),
            head == old(self).nn(),
            final(self).extends(old(self), -1, -1),
            final(self).row_list@ == old(self).row_list@,
            final(self).column_list@ == old(self).column_list@.push(
                Column { column_type, head, count },
            ),
            final(self).condition_state_list@ == old(self).condition_state_list@,
            final(self).shadow@.col_rows == old(self).shadow@.col_rows.push(Seq::empty()),
            final(self).same_state(old(self)),
            final(self).shadow@.row_nodes == old(self).shadow@.row_nodes,
            column_type == ColumnType::Constraint ==> final(self).left@ == old(self).left@.push(head)
                && final(self).right@ == old(self).right@.push(head),
    {
        let ghost pre0 = *self;
        proof {
            self.shadow@.floor = self.shadow@.ops.len() as int;
            self.lemma_floor_raised(&pre0, 0);
        }
        let ghost pre = *self;
        let column_index = self.column_list.len();
        let anchor = match column_type {
            ColumnType::Unique => 0,
            ColumnType::ConditionalUnique(index) => {
                proof {
                    assert(pre.group_shape(index as int));
                }
                self.condition_state_list[index].head
            },
            ColumnType::Constraint => usize::MAX,
        };
        proof {
            if anchor != usize::MAX {
                assert(pre.node_shape(anchor as int));
                assert(pre.hchain().node_ok(anchor as int));
            }
        }
        let head = self.new_node(usize::MAX, column_index, anchor, usize::MAX);
        self.column_list.push(Column { column_type, head, count });
        let column_count = self.column_list.len();
        proof {
            let n = head as int;
            let psh = pre.shadow@;
            self.shadow@ = Shadow {
                vhome: psh.vhome.push(n),
                vop: psh.vop.push(-1),
                vsub: psh.vsub.push(-1),
                hhome: psh.hhome.push(
                    if anchor == usize::MAX {
                        n
                    } else {
                        anchor as int
                    },
                ),
                hop: psh.hop.push(-1),
                hsub: psh.hsub.push(-1),
                pos: psh.pos.push(-1),
                cop: psh.cop.push(-1),
                cover_cell: psh.cover_cell.push(-1),
                col_rows: psh.col_rows.push(Seq::empty()),
                ..psh
            };
            self.lemma_after_column(&pre, column_type, count);
            self.lemma_extends_floor(&pre, &pre0, -1, -1);
            self.lemma_grown_state(&pre0, -1, -1);
        }
        head
    }

    #[verifier::rlimit(60)]
    proof fn lemma_after_column(&self, pre: &PuzzleSolver, kind: ColumnType, count: usize)
        requires
            pre.ready(0),
            pre.vchain().settled(),
            pre.hchain().settled(),
            match kind {
                ColumnType::ConditionalUnique(g) => g < pre.ng() && count > 0,
                _ => true,
            },
            self.node_list@ == pre.node_list@.push(
                Node { row: usize::MAX, column: pre.nc() as usize },
            ),
            self.node_list@.len() <= usize::MAX,
            self.column_list@.len() <= usize::MAX,
            self.up@ == pre.up@.push(pre.nn() as usize),
            self.down@ == pre.down@.push(pre.nn() as usize),
            self.hchain() == (match kind {
                ColumnType::Unique => pre.hchain().with_member(0),
                ColumnType::ConditionalUnique(g) => pre.hchain().with_member(
                    pre.condition_state_list@[g as int].head as int,
                ),
                ColumnType::Constraint => pre.hchain().with_sentinel(),
            }),
            self.row_list@ == pre.row_list@,
            self.column_list@ == pre.column_list@.push(
                Column { column_type: kind, head: pre.nn() as usize, count },
            ),
            self.condition_state_list@ == pre.condition_state_list@,
            self.state_stack@ == pre.state_stack@,
            self.shadow@ == (Shadow {
                vhome: pre.shadow@.vhome.push(pre.nn()),
                vop: pre.shadow@.vop.push(-1),
                vsub: pre.shadow@.vsub.push(-1),
                hhome: self.shadow@.hhome,
                hop: pre.shadow@.hop.push(-1),
                hsub: pre.shadow@.hsub.push(-1),
                pos: pre.shadow@.pos.push(-1),
                cop: pre.shadow@.cop.push(-1),
                cover_cell: pre.shadow@.cover_cell.push(-1),
                col_rows: pre.shadow@.col_rows.push(Seq::empty()),
                ..pre.shadow@
            }),
        ensures
            self.filling(count as int),
            self.extends(pre, -1, -1),
    {
        let n = pre.nn();
        let c0 = pre.nc();
        let a = match kind {
            ColumnType::Unique => 0,
            ColumnType::ConditionalUnique(g) => pre.condition_state_list@[g as int].head as int,
            ColumnType::Constraint => n,
        };
        assert(pre.node_shape(0));
        match kind {
            ColumnType::ConditionalUnique(g) => {
                assert(pre.group_shape(g as int));
                assert(pre.node_shape(a));
            },
            _ => {},
        }
        if a != n {
            assert(pre.hchain().node_ok(a));
            lemma_with_member(pre.hchain(), a);
        } else {
            lemma_with_sentinel(pre.hchain());
        }
        assert(self.shadow@.hhome == pre.shadow@.hhome.push(a));
        assert(self.extends(pre, -1, -1));
        assert forall|k: int|
            0 <= k < pre.nn() && pre.is_cell(k) implies #[trigger] self.right@[k] == pre.right@[k]
            && self.left@[k] == pre.left@[k] by {
            assert(pre.node_shape(k));
            if a != n {
                let last = pre.left@[a] as int;
                assert(pre.shadow@.hhome[last] == a);
            }
        }
        self.lemma_grown_shape(pre, -1, -1);
        self.lemma_grown_settled(pre, -1, -1);
        assert(self.vchain() == pre.vchain().with_sentinel());
        lemma_with_sentinel(pre.vchain());
        self.lemma_grown_links(pre, -1, -1, 0);
        assert(self.node_shape(n));
        assert(self.column_shape(c0)) by {
            assert(self.cell_at(c0, 0) == self.cell_at(c0, 0));
            if c0 >= 1 {
                assert(pre.column_shape(c0 - 1));
                assert(self.column_list@[c0 - 1] == pre.column_list@[c0 - 1]);
            }
        }
        assert forall|k: int| 0 <= k < self.nn() implies #[trigger] self.node_shape(k) by {}
        assert forall|c: int| 0 <= c < self.nc() implies #[trigger] self.column_shape(c) by {}
        assert forall|k: int| 0 <= k < self.nn() implies #[trigger] self.hop_ok(k) by {}
        assert forall|c: int| 0 <= c < self.nc() implies #[trigger] self.column_links(
            c,
            count as int,
        ) by {
            if c < c0 {
                assert(self.column_links(c, 0));
            }
        }
        assert forall|g: int| 0 <= g < self.ng() implies #[trigger] self.group_links(g) by {
            assert(pre.group_links(g));
            assert(self.holes_below(g, c0) == pre.holes_below(g, c0));
            assert(!self.is_hole(g, c0));
        }
        assert forall|k: int| 0 <= k < self.nn() implies #[trigger] self.node_settled(k) by {
            if k == n {
                assert(self.node_settled_at(n, -1, -1, 0));
            }
        }
        assert forall|c: int| 0 <= c < self.nc() implies #[trigger] self.column_settled(c) by {}
        assert(self.shape());
        assert(self.links(count as int));
        assert forall|m: int|
            0 <= m < self.nn() && !self.vchain().alive(m) implies #[trigger] self.shadow@.vop[m]
            < self.shadow@.floor by {
            assert(pre.shadow@.vop[m] < pre.shadow@.floor);
        }
        assert forall|m: int|
            0 <= m < self.nn() && !self.hchain().alive(m) implies #[trigger] self.shadow@.hop[m]
            < self.shadow@.floor by {
            assert(pre.shadow@.hop[m] < pre.shadow@.floor);
        }
    }
}

impl PuzzleSolver {
    /// The rows listed in a column are rows of the matrix.
    proof fn lemma_column_rows_known(&self, c: int, i: int)
        requires
            self.shape(),
            0 <= c < self.nc(),
            0 <= i < self.shadow@.col_rows[c].len(),
        ensures
            self.shadow@.col_rows[c][i] < self.nr(),
    {
        assert(self.column_shape(c));
        let x = self.head_of(c) + 1 + i;
        assert(self.cell_at(c, i) == (Node {
            row: self.shadow@.col_rows[c][i],
            column: c as usize,
        }));
        assert(self.node_shape(x));
        assert(self.node_shape(self.head_of(c)));
    }

    /// A free row is not chosen.
    pub(crate) proof fn lemma_free_not_chosen(&self, r: int)
        requires
            self.shape(),
            self.committed(),
            self.is_free(r),
        ensures
            !self.row_list@[r].chosen,
    {
        assert(self.row_shape(r));
        assert(self.row_settled(r));
        let x = self.shadow@.row_nodes[r][0] as int;
        self.lemma_row_member(r, 0);
        assert(self.column_settled(self.col_of(x)));
        if self.row_list@[r].chosen {
            assert(self.shadow@.cover_cell[self.col_of(x)] == x);
            assert(self.shadow@.cop[self.col_of(x)] < 0);
        }
    }

    /// Appends a new row whose head is the next cell of the column that is
    /// being filled.
    fn add_row_head(&mut self, column_index: usize, column_head: usize, Ghost(pending): Ghost<int>)
        requires
            old(self).filling(pending),
            pending > 0,
            column_index == old(self).nc() - 1,
            column_head == old(self).head_of(column_index as int),
            old(self).kind_of(column_index as int) == ColumnType::Unique,
        ensures
            final(self).filling(pending - 1),
            final(self).extends(old(self), old(self).nr(), column_index as int),
            final(self).row_list@ == old(self).row_list@.push(
                Row { head: old(self).nn() as usize, chosen: false },
            ),
            final(self).column_list@ == old(self).column_list@,
            final(self).condition_state_list@ == old(self).condition_state_list@,
            final(self).shadow@.col_rows == old(self).shadow@.col_rows.update(
                column_index as int,
                old(self).shadow@.col_rows[column_index as int].push(old(self).nr() as usize),
            ),
            final(self).shadow@.floor == old(self).shadow@.floor,
            final(self).same_state(old(self)),
            final(self).is_free(old(self).nr()),
            !final(self).is_chosen(old(self).nr()),
            final(self).shadow@.row_nodes == old(self).shadow@.row_nodes.push(
                seq![old(self).nn() as usize],
            ),
    {
        let ghost pre = *self;
        let ghost c = column_index as int;
        proof {
            assert(pre.column_shape(c));
            assert(pre.node_shape(column_head as int));
            assert(pre.vchain().node_ok(column_head as int));
        }
        let row_index = self.row_list.len();
        let head = self.new_node(row_index, column_index, usize::MAX, column_head);
        self.row_list.push(Row { head, chosen: false });
        let row_count = self.row_list.len();
        proof {
            let n = head as int;
            let psh = pre.shadow@;
            self.shadow@ = Shadow {
                vhome: psh.vhome.push(column_head as int),
                vop: psh.vop.push(-1),
                vsub: psh.vsub.push(-1),
                hhome: psh.hhome.push(-1),
                hop: psh.hop.push(-1),
                hsub: psh.hsub.push(-1),
                pos: psh.pos.push(0),
                row_nodes: psh.row_nodes.push(seq![head]),
                col_rows: psh.col_rows.update(c, psh.col_rows[c].push(row_index)),
                ..psh
            };
            self.lemma_after_cell(&pre, row_index as int, pending);
            self.lemma_grown_state(&pre, row_index as int, c);
            assert(self.shadow@.row_nodes[row_index as int] =~= seq![head]);
        }
    }

    /// Appends a cell of the existing row `row` as the next cell of the
    /// column that is being filled.
    fn add_cell(
        &mut self,
        row: usize,
        column_index: usize,
        column_head: usize,
        Ghost(pending): Ghost<int>,
    )
        requires
            old(self).filling(pending),
            pending > 0,
            column_index == old(self).nc() - 1,
            column_head == old(self).head_of(column_index as int),
            row < old(self).nr(),
            old(self).is_free(row as int),
            !old(self).shadow@.col_rows[column_index as int].contains(row),
        ensures
            final(self).filling(pending - 1),
            final(self).extends(old(self), row as int, column_index as int),
            final(self).row_list@ == old(self).row_list@,
            final(self).column_list@ == old(self).column_list@,
            final(self).condition_state_list@ == old(self).condition_state_list@,
            final(self).shadow@.col_rows == old(self).shadow@.col_rows.update(
                column_index as int,
                old(self).shadow@.col_rows[column_index as int].push(row),
            ),
            final(self).shadow@.floor == old(self).shadow@.floor,
            final(self).same_state(old(self)),
            final(self).shadow@.row_nodes == old(self).shadow@.row_nodes.update(
                row as int,
                old(self).shadow@.row_nodes[row as int].push(old(self).nn() as usize),
            ),
            final(self).headers_kept(old(self)),
    {
        let ghost pre = *self;
        let ghost c = column_index as int;
        let ghost r = row as int;
        proof {
            assert(pre.column_shape(c));
            assert(pre.node_shape(column_head as int));
            assert(pre.vchain().node_ok(column_head as int));
            assert(pre.row_shape(r));
            assert(pre.row_link_ok(r, 0));
            pre.lemma_row_member(r, 0);
            pre.lemma_row_member(r, Self::before(0, pre.shadow@.row_nodes[r].len() as int));
        }
        let row_head = self.row_list[row].head;
        let head = self.new_node(row, column_index, row_head, column_head);
        proof {
            let n = head as int;
            let psh = pre.shadow@;
            self.shadow@ = Shadow {
                vhome: psh.vhome.push(column_head as int),
                vop: psh.vop.push(-1),
                vsub: psh.vsub.push(-1),
                hhome: psh.hhome.push(-1),
                hop: psh.hop.push(-1),
                hsub: psh.hsub.push(-1),
                pos: psh.pos.push(psh.row_nodes[r].len() as int),
                row_nodes: psh.row_nodes.update(r, psh.row_nodes[r].push(head)),
                col_rows: psh.col_rows.update(c, psh.col_rows[c].push(row)),
                ..psh
            };
            self.lemma_after_cell(&pre, r, pending);
            self.lemma_grown_state(&pre, r, c);
            assert forall|k: int|
                0 <= k < pre.nn() && !pre.is_cell(k) implies #[trigger] self.header_same(
                &pre,
                k,
            ) by {}
        }
    }

    /// The state after a cell of row `r` has been appended to the last
    /// column; `r` is a free row of `pre`, or the row after its last.
    #[verifier::rlimit(80)]
    proof fn lemma_after_cell(&self, pre: &PuzzleSolver, r: int, pending: int)
        requires
            pre.filling(pending),
            pending > 0,
            0 <= r <= pre.nr(),
            r < pre.nr() ==> pre.is_free(r) && !pre.shadow@.col_rows[pre.nc() - 1].contains(
                r as usize,
            ),
            r == pre.nr() ==> pre.kind_of(pre.nc() - 1) == ColumnType::Unique,
            self.node_list@ == pre.node_list@.push(
                Node { row: r as usize, column: (pre.nc() - 1) as usize },
            ),
            self.node_list@.len() <= usize::MAX,
            self.row_list@.len() <= usize::MAX,
            self.vchain() == pre.vchain().with_member(pre.head_of(pre.nc() - 1)),
            r < pre.nr() ==> self.left@ == pre.left@.push(
                pre.left@[pre.row_list@[r].head as int],
            ).update(pre.row_list@[r].head as int, pre.nn() as usize) && self.right@
                == pre.right@.push(pre.row_list@[r].head).update(
                pre.left@[pre.row_list@[r].head as int] as int,
                pre.nn() as usize,
            ),
            r == pre.nr() ==> self.left@ == pre.left@.push(pre.nn() as usize) && self.right@
                == pre.right@.push(pre.nn() as usize),
            self.row_list@ == if r < pre.nr() {
                pre.row_list@
            } else {
                pre.row_list@.push(Row { head: pre.nn() as usize, chosen: false })
            },
            self.column_list@ == pre.column_list@,
            self.condition_state_list@ == pre.condition_state_list@,
            self.state_stack@ == pre.state_stack@,
            self.shadow@ == (Shadow {
                vhome: self.shadow@.vhome,
                vop: self.shadow@.vop,
                vsub: self.shadow@.vsub,
                hhome: pre.shadow@.hhome.push(-1),
                hop: pre.shadow@.hop.push(-1),
                hsub: pre.shadow@.hsub.push(-1),
                pos: pre.shadow@.pos.push(
                    if r < pre.nr() {
                        pre.shadow@.row_nodes[r].len() as int
                    } else {
                        0
                    },
                ),
                row_nodes: if r < pre.nr() {
                    pre.shadow@.row_nodes.update(
                        r,
                        pre.shadow@.row_nodes[r].push(pre.nn() as usize),
                    )
                } else {
                    pre.shadow@.row_nodes.push(seq![pre.nn() as usize])
                },
                col_rows: pre.shadow@.col_rows.update(
                    pre.nc() - 1,
                    pre.shadow@.col_rows[pre.nc() - 1].push(r as usize),
                ),
                ..pre.shadow@
            }),
        ensures
            self.filling(pending - 1),
            self.extends(pre, r, pre.nc() - 1),
    {
        let n = pre.nn();
        let c = pre.nc() - 1;
        let h = pre.head_of(c);
        let sh = self.shadow@;
        let psh = pre.shadow@;
        assert(pre.column_shape(c));
        assert(pre.node_shape(h));
        assert(pre.vchain().node_ok(h));
        lemma_with_member(pre.vchain(), h);
        assert(sh.vhome == psh.vhome.push(h));
        assert(sh.vop == psh.vop.push(-1));
        assert(sh.vsub == psh.vsub.push(-1));
        assert(self.extends(pre, r, c));
        // the header lists: cells take no part in them
        let hmid = pre.hchain().with_stranger(self.left@[n], self.right@[n]);
        lemma_with_stranger(pre.hchain(), self.left@[n], self.right@[n]);
        if r < pre.nr() {
            assert(pre.row_shape(r));
            assert(pre.row_link_ok(r, 0));
            pre.lemma_row_member(r, 0);
            pre.lemma_row_member(r, Self::before(0, psh.row_nodes[r].len() as int));
            let rh = pre.row_list@[r].head as int;
            let last = pre.left@[rh] as int;
            assert(pre.node_shape(rh));
            assert(pre.node_shape(last));
            assert forall|k: int|
                0 <= k < hmid.len() && #[trigger] hmid.home[k] >= 0 implies hmid.prev[k]
                == self.hchain().prev[k] && hmid.next[k] == self.hchain().next[k] by {
                assert(k != rh && k != last && k != n);
            }
        }
        lemma_same_members(hmid, self.hchain());
        assert forall|k: int|
            0 <= k < pre.nn() && pre.is_cell(k) && pre.row_of(k) != r implies #[trigger] self.right@[k]
            == pre.right@[k] && self.left@[k] == pre.left@[k] by {
            if r < pre.nr() {
                let rh = pre.row_list@[r].head as int;
                let last = pre.left@[rh] as int;
                pre.lemma_row_member(r, 0);
                pre.lemma_row_member(r, Self::before(0, psh.row_nodes[r].len() as int));
                assert(pre.row_link_ok(r, 0));
            }
        }
        self.lemma_grown_shape(pre, r, c);
        self.lemma_grown_settled(pre, r, c);
        assert forall|t: int| 0 <= t < pre.nn() && t != h implies self.vchain().linked(t)
            == pre.vchain().linked(t) by {}
        self.lemma_grown_links(pre, r, c, pending);
        // shape of the new cell, and of the touched row and column
        assert(sh.row_nodes[r][sh.pos[n]] == n);
        assert(self.node_shape(n));
        assert forall|k: int| 0 <= k < self.nn() implies #[trigger] self.node_shape(k) by {}
        assert(self.column_shape(c)) by {
            let cr = psh.col_rows[c];
            assert(sh.col_rows[c] == cr.push(r as usize));
            assert forall|i: int| 0 <= i < sh.col_rows[c].len() implies #[trigger] self.cell_at(c, i)
                == (Node { row: sh.col_rows[c][i], column: c as usize }) by {
                if i < cr.len() {
                    assert(pre.cell_at(c, i) == (Node { row: cr[i], column: c as usize }));
                    assert(self.node_list@[h + 1 + i] == pre.node_list@[h + 1 + i]);
                }
            }
            assert forall|i: int, j: int| 0 <= i < j < sh.col_rows[c].len() implies #[trigger] sh.col_rows[c][i]
                != #[trigger] sh.col_rows[c][j] by {
                if j < cr.len() {
                    assert(cr[i] != cr[j]);
                } else {
                    pre.lemma_column_rows_known(c, i);
                    if r < pre.nr() {
                        assert(cr.contains(cr[i]));
                    }
                }
            }
        }
        assert forall|c2: int| 0 <= c2 < self.nc() implies #[trigger] self.column_shape(c2) by {}
        assert(self.row_shape(r)) by {
            let rn2 = sh.row_nodes[r];
            assert(self.column_list@[c] == pre.column_list@[c]);
            if r < pre.nr() {
                let rn = psh.row_nodes[r];
                let len = rn.len() as int;
                assert(pre.row_shape(r));
                assert(rn2 == rn.push(n as usize));
                let rh = rn[0] as int;
                let last = rn[len - 1] as int;
                pre.lemma_row_member(r, 0);
                pre.lemma_row_member(r, len - 1);
                assert(pre.row_link_ok(r, 0));
                assert(pre.node_shape(rh));
                assert(self.node_list@[rh] == pre.node_list@[rh]);
                assert(self.column_list@[pre.col_of(rh)] == pre.column_list@[pre.col_of(rh)]);
                assert forall|i: int| 0 <= i < rn2.len() implies {
                    &&& (#[trigger] rn2[i]) < self.nn()
                    &&& self.node_list@[rn2[i] as int].row == r
                    &&& sh.pos[rn2[i] as int] == i
                } by {
                    if i < len {
                        pre.lemma_row_member(r, i);
                        assert(self.node_list@[rn[i] as int] == pre.node_list@[rn[i] as int]);
                    }
                }
                assert forall|i: int| 0 <= i < rn2.len() implies #[trigger] self.row_link_ok(
                    r,
                    i,
                ) by {
                    if i < len {
                        pre.lemma_row_member(r, i);
                        pre.lemma_row_member(r, Self::after(i, len));
                        pre.lemma_row_member(r, Self::before(i, len));
                        assert(pre.row_link_ok(r, i));
                        assert(pre.row_link_ok(r, len - 1));
                        let y = rn[i] as int;
                        if i != 0 {
                            assert(y != rh);
                        }
                        if i != len - 1 {
                            assert(y != last);
                        }
                    }
                }
            } else {
                assert(rn2 == seq![n as usize]);
                assert(self.row_link_ok(r, 0));
            }
        }
        assert forall|r2: int| 0 <= r2 < self.nr() implies #[trigger] self.row_shape(r2) by {}
        assert forall|g: int| 0 <= g < self.ng() implies #[trigger] self.group_shape(g) by {}
        assert(self.shape());
        // counters
        assert forall|k: int| 0 <= k < self.nn() implies #[trigger] self.hop_ok(k) by {}
        assert forall|c2: int| 0 <= c2 < self.nc() implies #[trigger] self.column_links(
            c2,
            pending - 1,
        ) by {
            if c2 == c {
                assert(pre.column_links(c, pending));
            } else {
                assert(self.column_links(c2, 0));
            }
        }
        assert forall|g: int| 0 <= g < self.ng() implies #[trigger] self.group_links(g) by {
            assert(pre.group_links(g));
            assert(self.holes_below(g, pre.nc()) == pre.holes_below(g, pre.nc()));
        }
        assert(self.links(pending - 1));
        // rows between operations
        assert forall|k: int| 0 <= k < self.nn() implies #[trigger] self.node_settled(k) by {
            if k == n || (pre.is_cell(k) && pre.row_of(k) == r) {
                let rn2 = sh.row_nodes[r];
                assert(self.node_shape(k));
                assert(self.is_cell(k));
                assert(self.row_of(k) == r);
                assert forall|i: int| 0 <= i < rn2.len() implies sh.vop[#[trigger] rn2[i] as int]
                    < 0 by {
                    if r < pre.nr() && i < psh.row_nodes[r].len() {
                        assert(psh.vop[psh.row_nodes[r][i] as int] < 0);
                        pre.lemma_row_member(r, i);
                    }
                }
                let ck = self.col_of(k);
                if k != n {
                    assert(pre.node_shape(k));
                    assert(psh.row_nodes[r][psh.pos[k]] == k);
                    assert(psh.cop[pre.col_of(psh.row_nodes[r][psh.pos[k]] as int)] < 0);
                    assert(self.column_list@[pre.col_of(k)] == pre.column_list@[pre.col_of(k)]);
                    assert(self.node_list@[k] == pre.node_list@[k]);
                }
                assert(self.vcop(-1, -1, ck) < 0);
                assert(sh.vop[k] < 0);
                assert(self.node_settled_at(k, -1, -1, 0));
            }
        }
        assert forall|c2: int| 0 <= c2 < self.nc() implies #[trigger] self.column_settled(c2) by {}
        assert forall|r2: int| 0 <= r2 < self.nr() implies #[trigger] self.row_settled(r2) by {
            if r2 == r {
                if r < pre.nr() {
                    pre.lemma_free_not_chosen(r);
                }
            }
        }
        assert forall|m: int|
            0 <= m < self.nn() && !self.vchain().alive(m) implies #[trigger] sh.vop[m]
            < sh.floor by {
            assert(psh.vop[m] < psh.floor);
        }
        assert forall|m: int|
            0 <= m < self.nn() && !self.hchain().alive(m) implies #[trigger] sh.hop[m]
            < sh.floor by {
            assert(psh.hop[m] < psh.floor);
        }
    }
}

impl PuzzleSolver {
    pub(crate) proof fn lemma_same_state_trans(&self, mid: &PuzzleSolver, pre: &PuzzleSolver)
        requires
            self.same_state(mid),
            mid.same_state(pre),
            mid.nr() >= pre.nr(),
            mid.nc() >= pre.nc(),
        ensures
            self.same_state(pre),
    {
        assert forall|r: int| 0 <= r < pre.nr() implies #[trigger] self.same_row_state(pre, r) by {
            assert(self.same_row_state(mid, r));
            assert(mid.same_row_state(pre, r));
        }
        assert forall|c: int| 0 <= c < pre.nc() implies #[trigger] self.is_covered(c)
            == pre.is_covered(c) by {
            assert(mid.is_covered(c) == pre.is_covered(c));
        }
    }

    /// Adds `row_count` rows, and a column that holds one cell of each of
    /// them and asks for exactly one of them to be chosen. Gives the index of
    /// the first new row.
    pub fn add_rows(&mut self, row_count: usize) -> (row_index: usize)
        requires
            old(self).wf(),
            !old(self).started(),
        ensures
            final(self).wf(),
            !final(self).started(),
            row_index == old(self)@.rows,
            final(self)@ == (Matrix {
                rows: old(self)@.rows + row_count as nat,
                columns: old(self)@.columns.push(
                    ColumnSpec {
                        kind: ColumnType::Unique,
                        rows: Seq::new(row_count as nat, |i: int| (row_index + i) as usize),
                    },
                ),
                budgets: old(self)@.budgets,
            }),
            final(self).same_state(old(self)),
            forall|r: int|
                old(self)@.rows <= r < final(self)@.rows ==> #[trigger] final(self).is_fresh(r),
            !final(self).is_covered(old(self)@.columns.len() as int),
            final(self).grown_rows(old(self), row_count as int),
    {
        proof {
            self.lemma_ready();
        }
        let ghost pre = *self;
        let column_index = self.column_list.len();
        let column_head = self.new_column(ColumnType::Unique, row_count);
        let row_index = self.row_list.len();
        let mut i: usize = 0;
        while i < row_count
            invariant
                self.filling(row_count - i),
                i <= row_count,
                column_index == self.nc() - 1,
                self.nc() == pre.nc() + 1,
                column_head == self.head_of(column_index as int),
                self.kind_of(column_index as int) == ColumnType::Unique,
                self.nr() == row_index + i,
                row_index == pre.nr(),
                self.shadow@.col_rows.len() == self.nc(),
                self.shadow@.col_rows[column_index as int] == Seq::new(
                    i as nat,
                    |j: int| (row_index + j) as usize,
                ),
                forall|c: int|
                    0 <= c < pre.nc() ==> #[trigger] self.column_list@[c] == pre.column_list@[c]
                        && self.shadow@.col_rows[c] == pre.shadow@.col_rows[c],
                self.condition_state_list@ == pre.condition_state_list@,
                self.same_state(&pre),
                forall|r: int| row_index <= r < self.nr() ==> #[trigger] self.is_fresh(r),
                self.nn() == pre.nn() + 1 + i,
                column_head == pre.nn(),
                self.column_list@[column_index as int].count == row_count,
                self.shadow@.row_nodes.len() == self.nr(),
                forall|j: int|
                    0 <= j < i ==> #[trigger] self.cells_of(row_index + j) == seq![
                        (pre.nn() + 1 + j) as usize,
                    ],
                forall|r: int| 0 <= r < row_index ==> #[trigger] self.cells_of(r) == pre.cells_of(r),
            decreases row_count - i,
        {
            let ghost before = *self;
            self.add_row_head(column_index, column_head, Ghost(row_count - i));
            proof {
                self.lemma_same_state_trans(&before, &pre);
                assert(self.shadow@.col_rows[column_index as int] =~= Seq::new(
                    (i + 1) as nat,
                    |j: int| (row_index + j) as usize,
                ));
                assert forall|c: int| 0 <= c < pre.nc() implies #[trigger] self.column_list@[c]
                    == pre.column_list@[c] && self.shadow@.col_rows[c]
                    == pre.shadow@.col_rows[c] by {
                    assert(before.column_list@[c] == pre.column_list@[c]);
                }
                assert forall|r: int| row_index <= r < self.nr() implies #[trigger] self.is_fresh(
                    r,
                ) by {
                    if r < before.nr() {
                        assert(before.is_fresh(r));
                        assert(self.same_row_state(&before, r));
                    }
                }
                assert forall|j: int| 0 <= j < i + 1 implies #[trigger] self.cells_of(
                    row_index + j,
                ) == seq![(pre.nn() + 1 + j) as usize] by {
                    if j < i {
                        assert(before.cells_of(row_index + j) == seq![(pre.nn() + 1 + j) as usize]);
                    }
                }
                assert forall|r: int| 0 <= r < row_index implies #[trigger] self.cells_of(r)
                    == pre.cells_of(r) by {
                    assert(before.cells_of(r) == pre.cells_of(r));
                }
            }
            i += 1;
        }
        proof {
            self.lemma_ready_wf();
            let cols = pre@.columns.push(
                ColumnSpec {
                    kind: ColumnType::Unique,
                    rows: Seq::new(row_count as nat, |i: int| (row_index + i) as usize),
                },
            );
            assert(self@.columns =~= cols) by {
                assert forall|c: int| 0 <= c < cols.len() implies self@.columns[c] == cols[c] by {
                    if c < pre.nc() {
                        assert(self.column_list@[c] == pre.column_list@[c]);
                    }
                }
            }
            assert(self@.budgets =~= pre@.budgets);
        }
        row_index
    }

    /// Adds a column of the given kind with one cell in each of the listed
    /// rows.
    fn add_typed_column(&mut self, rows: &Vec<usize>, column_type: ColumnType)
        requires
            old(self).wf(),
            !old(self).started(),
            rows@.no_duplicates(),
            forall|i: int| 0 <= i < rows@.len() ==> old(self).is_free(#[trigger] rows@[i] as int),
            match column_type {
                ColumnType::ConditionalUnique(g) => g < old(self)@.budgets.len(),
                _ => true,
            },
        ensures
            final(self).wf(),
            !final(self).started(),
            final(self)@ == (Matrix {
                columns: old(self)@.columns.push(ColumnSpec { kind: column_type, rows: rows@ }),
                ..old(self)@
            }),
            final(self).same_state(old(self)),
            !final(self).is_covered(old(self)@.columns.len() as int),
            final(self).grown_by(old(self), rows@),
    {
        if rows.len() == 0 {
            if let ColumnType::ConditionalUnique(group) = column_type {
                proof {
                    assert(rows@ =~= Seq::empty());
                }
                self.add_hole_column(group);
                return ;
            }
        }
        proof {
            self.lemma_ready();
        }
        let ghost pre = *self;
        let column_index = self.column_list.len();
        let column_head = self.new_column(column_type, rows.len());
        let ghost made = *self;
        proof {
            if column_type == ColumnType::Constraint {
                assert forall|k: int|
                    0 <= k < pre.nn() && !pre.is_cell(k) implies #[trigger] self.header_same(
                    &pre,
                    k,
                ) by {}
            }
            assert(made.column_shape(column_index as int));
            assert forall|k: int| 0 <= k < pre.nn() implies #[trigger] made.is_cell(k)
                == pre.is_cell(k) by {
                assert(made.node_list@[k] == pre.node_list@[k]);
            }
            assert forall|k: int|
                0 <= k < made.nn() && !made.is_cell(k) implies #[trigger] self.header_same(
                &made,
                k,
            ) by {}
        }
        let mut i: usize = 0;
        while i < rows.len()
            invariant
                self.filling(rows@.len() - i),
                pre.shape(),
                made.shape(),
                made.nn() == pre.nn() + 1,
                forall|k: int| 0 <= k < pre.nn() ==> #[trigger] made.is_cell(k) == pre.is_cell(k),
                !made.is_cell(pre.nn() as int),
                self.nn() == pre.nn() + 1 + i,
                column_head == pre.nn(),
                self.column_list@[column_index as int].count == rows@.len(),
                forall|j: int| 0 <= j < i ==> #[trigger] self.got_cell(&pre, rows@, j),
                forall|r: int|
                    0 <= r < pre.nr() ==> #[trigger] self.kept_cells(
                        &pre,
                        rows@.subrange(0, i as int),
                        r,
                    ),
                self.headers_kept(&made),
                self.nn() >= made.nn(),
                forall|k: int| 0 <= k < made.nn() ==> #[trigger] self.is_cell(k) == made.is_cell(k),
                column_type == ColumnType::Constraint ==> made.left@[pre.nn()] == pre.nn()
                    && made.right@[pre.nn()] == pre.nn() && made.headers_kept(&pre),
                i <= rows@.len(),
                rows@.no_duplicates(),
                column_index == self.nc() - 1,
                self.nc() == pre.nc() + 1,
                column_head == self.head_of(column_index as int),
                self.kind_of(column_index as int) == column_type,
                self.nr() == pre.nr(),
                self.shadow@.col_rows.len() == self.nc(),
                self.shadow@.col_rows[column_index as int] == rows@.subrange(0, i as int),
                forall|c: int|
                    0 <= c < pre.nc() ==> #[trigger] self.column_list@[c] == pre.column_list@[c]
                        && self.shadow@.col_rows[c] == pre.shadow@.col_rows[c],
                self.condition_state_list@ == pre.condition_state_list@,
                self.same_state(&pre),
                forall|j: int| 0 <= j < rows@.len() ==> pre.is_free(#[trigger] rows@[j] as int),
            decreases rows@.len() - i,
        {
            let ghost before = *self;
            let row = rows[i];
            proof {
                assert(pre.is_free(rows@[i as int] as int));
                assert(self.same_row_state(&pre, row as int));
                let done = rows@.subrange(0, i as int);
                if done.contains(row) {
                    let j = choose|j: int| 0 <= j < done.len() && done[j] == row;
                    assert(rows@[j] == rows@[i as int]);
                }
            }
            self.add_cell(row, column_index, column_head, Ghost(rows@.len() - i));
            proof {
                assert forall|k: int| 0 <= k < made.nn() implies #[trigger] self.is_cell(k)
                    == made.is_cell(k) by {
                    assert(before.is_cell(k) == made.is_cell(k));
                    assert(self.node_list@[k] == before.node_list@[k]);
                }
                assert forall|j: int| 0 <= j < rows@.len() implies #[trigger] rows@[j]
                    < pre.nr() by {
                    assert(pre.is_free(rows@[j] as int));
                }
                self.lemma_cells_grown(&before, &made, &pre, rows@, i as int);
                self.lemma_same_state_trans(&before, &pre);
                assert(self.shadow@.col_rows[column_index as int] =~= rows@.subrange(
                    0,
                    i as int + 1,
                ));
                assert forall|c: int| 0 <= c < pre.nc() implies #[trigger] self.column_list@[c]
                    == pre.column_list@[c] && self.shadow@.col_rows[c]
                    == pre.shadow@.col_rows[c] by {
                    assert(before.column_list@[c] == pre.column_list@[c]);
                }
            }
            i += 1;
        }
        proof {
            self.lemma_ready_wf();
            assert(rows@.subrange(0, rows@.len() as int) =~= rows@);
            let cols = pre@.columns.push(ColumnSpec { kind: column_type, rows: rows@ });
            assert(self@.columns =~= cols) by {
                assert forall|c: int| 0 <= c < cols.len() implies self@.columns[c] == cols[c] by {
                    if c < pre.nc() {
                        assert(self.column_list@[c] == pre.column_list@[c]);
                    }
                }
            }
            assert(self@.budgets =~= pre@.budgets);
            assert forall|r: int| 0 <= r < pre.nr() implies #[trigger] self.kept_cells(
                &pre,
                rows@,
                r,
            ) by {
                assert(self.kept_cells(&pre, rows@.subrange(0, rows@.len() as int), r));
            }
            assert forall|g: int| 0 <= g < pre.ng() implies #[trigger] self.holes_grown(&pre, g) by {}
            if column_type == ColumnType::Constraint {
                assert forall|k: int|
                    0 <= k < pre.nn() && !pre.is_cell(k) implies #[trigger] self.header_same(
                    &pre,
                    k,
                ) by {
                    assert(self.header_same(&made, k));
                    assert(made.header_same(&pre, k));
                }
                assert(self.header_same(&made, pre.nn() as int));
            }
        }
    }

    /// One more of the listed rows has gained its cell.
    proof fn lemma_cells_grown(
        &self,
        before: &PuzzleSolver,
        made: &PuzzleSolver,
        pre: &PuzzleSolver,
        rows: Seq<usize>,
        i: int,
    )
        requires
            0 <= i < rows.len(),
            rows.no_duplicates(),
            forall|j: int| 0 <= j < rows.len() ==> #[trigger] rows[j] < pre.nr(),
            before.nn() == pre.nn() + 1 + i,
            before.nr() == pre.nr(),
            self.shadow@.row_nodes == before.shadow@.row_nodes.update(
                rows[i] as int,
                before.shadow@.row_nodes[rows[i] as int].push(before.nn() as usize),
            ),
            before.shadow@.row_nodes.len() == pre.nr(),
            forall|j: int| 0 <= j < i ==> #[trigger] before.got_cell(pre, rows, j),
            forall|r: int|
                0 <= r < pre.nr() ==> #[trigger] before.kept_cells(pre, rows.subrange(0, i), r),
            self.headers_kept(before),
            before.headers_kept(made),
            forall|k: int| 0 <= k < made.nn() ==> #[trigger] before.is_cell(k) == made.is_cell(k),
            before.nn() >= made.nn(),
        ensures
            forall|j: int| 0 <= j < i + 1 ==> #[trigger] self.got_cell(pre, rows, j),
            forall|r: int|
                0 <= r < pre.nr() ==> #[trigger] self.kept_cells(pre, rows.subrange(0, i + 1), r),
            self.headers_kept(made),
    {
        let x = rows[i] as int;
        assert forall|j: int| 0 <= j < i + 1 implies #[trigger] self.got_cell(pre, rows, j) by {
            if j < i {
                assert(before.got_cell(pre, rows, j));
                assert(rows[j] != rows[i]);
            } else {
                assert(before.kept_cells(pre, rows.subrange(0, i), x));
                if rows.subrange(0, i).contains(rows[i]) {
                    let k = choose|k: int|
                        0 <= k < rows.subrange(0, i).len() && rows.subrange(0, i)[k] == rows[i];
                    assert(rows[k] == rows[i]);
                }
            }
        }
        assert forall|r: int| 0 <= r < pre.nr() implies #[trigger] self.kept_cells(
            pre,
            rows.subrange(0, i + 1),
            r,
        ) by {
            assert(before.kept_cells(pre, rows.subrange(0, i), r));
            if r == x {
                assert(rows.subrange(0, i + 1)[i] == rows[i]);
            } else if rows.subrange(0, i).contains(r as usize) {
                let k = choose|k: int|
                    0 <= k < rows.subrange(0, i).len() && rows.subrange(0, i)[k] == r as usize;
                assert(rows.subrange(0, i + 1)[k] == r as usize);
            }
        }
        assert forall|k: int| 0 <= k < made.nn() && !made.is_cell(k) implies #[trigger] self.header_same(
            made,
            k,
        ) by {
            assert(before.header_same(made, k));
            assert(self.header_same(before, k));
        }
    }

    /// The cells of row `r`, from its first cell rightwards along its
    /// horizontal list.
    pub open(crate) spec fn cells_of(&self, r: int) -> Seq<usize> {
        self.shadow@.row_nodes[r]
    }

    /// The horizontal links of node `n` are as in `pre`.
    pub open(crate) spec fn header_same(&self, pre: &PuzzleSolver, n: int) -> bool {
        self.left@[n] == pre.left@[n] && self.right@[n] == pre.right@[n]
    }

    /// The horizontal links of the nodes of `pre` that are no cells, the
    /// heads of its columns and the sentinels of its header lists, are as in
    /// `pre`: the header lists are those of `pre`.
    pub open(crate) spec fn headers_kept(&self, pre: &PuzzleSolver) -> bool {
        forall|n: int| 0 <= n < pre.nn() && !pre.is_cell(n) ==> #[trigger] self.header_same(pre, n)
    }

    /// The `i`-th of the listed rows has gained the `i`-th cell after the
    /// head of the new column, at the end of its horizontal list.
    pub open(crate) spec fn got_cell(&self, pre: &PuzzleSolver, rows: Seq<usize>, i: int) -> bool {
        self.cells_of(rows[i] as int) == pre.cells_of(rows[i] as int).push(
            (pre.nn() + 1 + i) as usize,
        )
    }

    /// Row `r` is no listed row and has the cells it had.
    pub open(crate) spec fn kept_cells(&self, pre: &PuzzleSolver, rows: Seq<usize>, r: int) -> bool {
        rows.contains(r as usize) || self.cells_of(r) == pre.cells_of(r)
    }

    /// The hole count of group `g` is that of `pre`, and one more if the
    /// new column is a column of the group without a cell.
    pub open(crate) spec fn holes_grown(&self, pre: &PuzzleSolver, g: int) -> bool {
        self.hole_count(g) == pre.hole_count(g) + if self@.columns[pre@.columns.len() as int].rows.len() == 0
            && self@.columns[pre@.columns.len() as int].kind == ColumnType::ConditionalUnique(g as usize) {
            1int
        } else {
            0int
        }
    }

    /// `self` is `pre` with one more column, whose head is the node after
    /// the nodes of `pre` and whose cells follow it, one in each of the
    /// listed rows, at the end of the list of the row. The count of the new
    /// column is the number of the rows; the columns of `pre` are as they
    /// were; the hole counts are as they were, but for a new column of a
    /// group without a cell, which is one hole more; the head of a
    /// constraint column is in no header list.
    pub open(crate) spec fn grown_by(&self, pre: &PuzzleSolver, rows: Seq<usize>) -> bool {
        let c = pre@.columns.len() as int;
        &&& self.nn() == pre.nn() + 1 + rows.len()
        &&& self.nr() == pre.nr()
        &&& self.nc() == c + 1
        &&& self.ng() == pre.ng()
        &&& self.head_of(c) == pre.nn()
        &&& self.count_of(c) == rows.len()
        &&& (forall|i: int| 0 <= i < rows.len() ==> #[trigger] self.got_cell(pre, rows, i))
        &&& (forall|r: int| 0 <= r < pre@.rows ==> #[trigger] self.kept_cells(pre, rows, r))
        &&& (forall|c2: int| 0 <= c2 < c ==> #[trigger] self.column_list@[c2] == pre.column_list@[c2])
        &&& (forall|g: int| 0 <= g < pre@.budgets.len() ==> #[trigger] self.holes_grown(pre, g))
        &&& self@.columns[c].kind == ColumnType::Constraint ==> self.headers_kept(pre)
            && self.left@[pre.nn()] == pre.nn() && self.right@[pre.nn()] == pre.nn()
    }

    /// `self` is `pre` with `count` more rows and one more column, whose
    /// head is the node after the nodes of `pre` and whose cells follow it:
    /// each is the one cell of a new row. The columns, the rows and the
    /// hole counts of `pre` are as they were.
    pub open(crate) spec fn grown_rows(&self, pre: &PuzzleSolver, count: int) -> bool {
        let c = pre@.columns.len() as int;
        &&& self.nn() == pre.nn() + 1 + count
        &&& self.nr() == pre.nr() + count
        &&& self.nc() == c + 1
        &&& self.head_of(c) == pre.nn()
        &&& self.count_of(c) == count
        &&& (forall|i: int|
            0 <= i < count ==> #[trigger] self.cells_of(pre@.rows + i) == seq![
                (pre.nn() + 1 + i) as usize,
            ])
        &&& (forall|r: int| 0 <= r < pre@.rows ==> #[trigger] self.cells_of(r) == pre.cells_of(r))
        &&& (forall|c2: int| 0 <= c2 < c ==> #[trigger] self.column_list@[c2] == pre.column_list@[c2])
        &&& (forall|g: int|
            0 <= g < pre@.budgets.len() ==> #[trigger] self.hole_count(g) == pre.hole_count(g))
    }

    /// The cells of a row are linked in a ring, in their order.
    pub proof fn lemma_cells_linked(&self, r: int, i: int)
        requires
            self.wf(),
            0 <= r < self@.rows,
            0 <= i < self.cells_of(r).len(),
        ensures
            self.is_cell(self.cells_of(r)[i] as int),
            self.row_of(self.cells_of(r)[i] as int) == r,
            self.layout().right[self.cells_of(r)[i] as int] == self.cells_of(r)[Self::after(
                i,
                self.cells_of(r).len() as int,
            )],
            self.layout().left[self.cells_of(r)[i] as int] == self.cells_of(r)[Self::before(
                i,
                self.cells_of(r).len() as int,
            )],
    {
        assert(self.row_shape(r));
        assert(self.row_link_ok(r, i));
        self.lemma_row_member(r, i);
    }

    /// After a column of a group without a cell has been added.
    proof fn lemma_grown_hole(&self, mid: &PuzzleSolver, pre: &PuzzleSolver, g: int)
        requires
            pre.shape(),
            0 <= g < pre.ng(),
            mid.extends(pre, -1, -1),
            mid.nc() == pre.nc() + 1,
            mid.nr() == pre.nr(),
            mid.ng() == pre.ng(),
            mid.head_of(pre.nc()) == pre.nn(),
            mid.kind_of(pre.nc()) == ColumnType::ConditionalUnique(g as usize),
            mid.shadow@.row_nodes == pre.shadow@.row_nodes,
            mid.shadow@.col_rows == pre.shadow@.col_rows.push(Seq::empty()),
            mid.condition_state_list@ == pre.condition_state_list@,
            self.node_list@ == mid.node_list@,
            self.row_list@ == mid.row_list@,
            self.shadow@ == mid.shadow@,
            self.column_list@ == mid.column_list@.update(
                mid.nc() - 1,
                Column { count: 0, ..mid.column_list@[mid.nc() - 1] },
            ),
            self.condition_state_list@ == mid.condition_state_list@.update(
                g,
                ConditionState {
                    current_holes: (mid.condition_state_list@[g].current_holes + 1) as usize,
                    ..mid.condition_state_list@[g]
                },
            ),
            mid.condition_state_list@[g].current_holes < usize::MAX,
        ensures
            self.grown_by(pre, Seq::empty()),
    {
        let rows = Seq::<usize>::empty();
        assert forall|r: int| 0 <= r < pre.nr() implies #[trigger] self.kept_cells(pre, rows, r) by {}
        assert forall|c2: int| 0 <= c2 < pre.nc() implies #[trigger] self.column_list@[c2]
            == pre.column_list@[c2] by {
            assert(mid.column_list@[c2] == pre.column_list@[c2]);
        }
        let c = pre.nc();
        assert(self@.columns[c].rows == self.shadow@.col_rows[c]);
        assert(self@.columns[c].kind == self.column_list@[c].column_type);
        assert forall|k: int| 0 <= k < pre.ng() implies #[trigger] self.holes_grown(pre, k) by {}
    }

    /// A column of a group that was made for one cell and gets none is a
    /// hole of its group.
    proof fn lemma_hole_column(&self, mid: &PuzzleSolver, g: int)
        requires
            mid.filling(1),
            0 <= g < mid.ng(),
            mid.kind_of(mid.nc() - 1) == ColumnType::ConditionalUnique(g as usize),
            mid.column_list@[mid.nc() - 1].count == 1,
            self.node_list@ == mid.node_list@,
            self.row_list@ == mid.row_list@,
            self.up@ == mid.up@,
            self.down@ == mid.down@,
            self.left@ == mid.left@,
            self.right@ == mid.right@,
            self.state_stack@ == mid.state_stack@,
            self.shadow@ == mid.shadow@,
            self.column_list@ == mid.column_list@.update(
                mid.nc() - 1,
                Column { count: 0, ..mid.column_list@[mid.nc() - 1] },
            ),
            self.condition_state_list@ == mid.condition_state_list@.update(
                g,
                ConditionState {
                    current_holes: (mid.condition_state_list@[g].current_holes + 1) as usize,
                    ..mid.condition_state_list@[g]
                },
            ),
            mid.condition_state_list@[g].current_holes < usize::MAX,
        ensures
            self.ready(0),
            self.same_state(mid),
            self@.columns == mid@.columns,
            self@.budgets == mid@.budgets,
            self@.rows == mid@.rows,
    {
        let c0 = mid.nc() - 1;
        assert forall|c: int| 0 <= c < self.nc() implies (#[trigger] self.column_list@[c]).head
            == mid.column_list@[c].head && self.column_list@[c].column_type
            == mid.column_list@[c].column_type by {}
        assert forall|k: int| 0 <= k < self.ng() implies (
        #[trigger] self.condition_state_list@[k]).head == mid.condition_state_list@[k].head
            && self.condition_state_list@[k].holes == mid.condition_state_list@[k].holes
            && self.condition_state_list@[k].chaining == mid.condition_state_list@[k].chaining by {}
        assert(self.same_frame(mid));
        self.lemma_shape_kept(mid);
        assert(self.vchain() == mid.vchain());
        assert(self.hchain() == mid.hchain());
        assert forall|c: int| 0 <= c < self.nc() implies #[trigger] self.column_links(c, 0) by {
            assert(mid.column_links(c, 1));
        }
        assert forall|k: int| 0 <= k < self.ng() implies #[trigger] self.group_links(k) by {
            assert(mid.group_links(k));
            assert forall|c: int| 0 <= c < self.nc() && c != c0 implies self.is_hole(k, c)
                == mid.is_hole(k, c) by {}
            if k == g {
                assert(self.is_hole(g, c0));
                assert(!mid.is_hole(g, c0));
                lemma_holes_flip(mid, self, g, c0, mid.nc());
            } else {
                assert(self.is_hole(k, c0) == mid.is_hole(k, c0));
                lemma_holes_same(mid, self, k, mid.nc());
            }
        }
        assert forall|n: int| 0 <= n < self.nn() implies #[trigger] self.hop_ok(n) by {
            assert(mid.hop_ok(n));
            assert(mid.node_shape(n));
            if mid.node_list@[n].column != usize::MAX {
                let c = mid.node_list@[n].column as int;
                assert(self.column_list@[c].column_type == mid.column_list@[c].column_type);
            }
        }
        self.lemma_settled_same(mid);
        assert forall|r: int| 0 <= r < mid.nr() implies #[trigger] self.same_row_state(mid, r) by {}
        assert(self@.columns =~= mid@.columns) by {
            assert forall|c: int| 0 <= c < mid.nc() implies self@.columns[c] == mid@.columns[c] by {
                assert(self.column_list@[c].column_type == mid.column_list@[c].column_type);
            }
        }
        assert(self@.budgets =~= mid@.budgets) by {
            assert forall|k: int| 0 <= k < mid.ng() implies self@.budgets[k] == mid@.budgets[k] by {
                assert(self.condition_state_list@[k].holes == mid.condition_state_list@[k].holes);
            }
        }
    }

    /// Adds a column of group `group` without a cell: a hole of the group
    /// from the start. The column is made as for one cell to come, and the
    /// cell that does not come is taken off its count.
    fn add_hole_column(&mut self, group: usize)
        requires
            old(self).wf(),
            !old(self).started(),
            group < old(self)@.budgets.len(),
        ensures
            final(self).wf(),
            !final(self).started(),
            final(self)@ == (Matrix {
                columns: old(self)@.columns.push(
                    ColumnSpec { kind: ColumnType::ConditionalUnique(group), rows: Seq::empty() },
                ),
                ..old(self)@
            }),
            final(self).same_state(old(self)),
            !final(self).is_covered(old(self)@.columns.len() as int),
            final(self).grown_by(old(self), Seq::empty()),
    {
        proof {
            self.lemma_ready();
        }
        let ghost pre = *self;
        let column_index = self.column_list.len();
        self.new_column(ColumnType::ConditionalUnique(group), 1);
        let ghost mid = *self;
        proof {
            assert(mid.group_links(group as int));
            assert(!mid.is_hole(group as int, column_index as int));
            lemma_holes_bounds(&mid, group as int, column_index as int);
        }
        self.column_list[column_index].count = 0;
        self.condition_state_list[group].current_holes += 1;
        proof {
            self.lemma_hole_column(&mid, group as int);
            self.lemma_same_state_trans(&mid, &pre);
            self.lemma_ready_wf();
            let cols = pre@.columns.push(
                ColumnSpec { kind: ColumnType::ConditionalUnique(group), rows: Seq::empty() },
            );
            assert(mid@.columns =~= cols) by {
                assert forall|c: int| 0 <= c < cols.len() implies mid@.columns[c] == cols[c] by {
                    if c < pre.nc() {
                        assert(mid.column_list@[c] == pre.column_list@[c]);
                    }
                }
            }
            assert(mid@.budgets =~= pre@.budgets);
            self.lemma_grown_hole(&mid, &pre, group as int);
        }
    }

    /// Adds a column that asks for exactly one chosen row among the listed
    /// rows.
    pub fn add_column(&mut self, rows: Vec<usize>)
        requires
            old(self).wf(),
            !old(self).started(),
            rows@.no_duplicates(),
            forall|i: int| 0 <= i < rows@.len() ==> old(self).is_free(#[trigger] rows@[i] as int),
        ensures
            final(self).wf(),
            !final(self).started(),
            final(self)@ == (Matrix {
                columns: old(self)@.columns.push(
                    ColumnSpec { kind: ColumnType::Unique, rows: rows@ },
                ),
                ..old(self)@
            }),
            final(self).same_state(old(self)),
            !final(self).is_covered(old(self)@.columns.len() as int),
            final(self).grown_by(old(self), rows@),
    {
        self.add_typed_column(&rows, ColumnType::Unique);
    }

    /// Adds a column of group `conditional_index` that allows at most one
    /// chosen row among the listed rows, and counts as a hole of its group
    /// when none of them is chosen. A column without rows is a hole from the
    /// start.
    pub fn add_conditional_column(&mut self, rows: Vec<usize>, conditional_index: usize)
        requires
            old(self).wf(),
            !old(self).started(),
            rows@.no_duplicates(),
            conditional_index < old(self)@.budgets.len(),
            forall|i: int| 0 <= i < rows@.len() ==> old(self).is_free(#[trigger] rows@[i] as int),
        ensures
            final(self).wf(),
            !final(self).started(),
            final(self)@ == (Matrix {
                columns: old(self)@.columns.push(
                    ColumnSpec {
                        kind: ColumnType::ConditionalUnique(conditional_index),
                        rows: rows@,
                    },
                ),
                ..old(self)@
            }),
            final(self).same_state(old(self)),
            !final(self).is_covered(old(self)@.columns.len() as int),
            final(self).grown_by(old(self), rows@),
    {
        self.add_typed_column(&rows, ColumnType::ConditionalUnique(conditional_index));
    }

    /// Adds a column that allows at most one chosen row among the listed
    /// rows and asks for none.
    pub fn add_constraint(&mut self, rows: Vec<usize>)
        requires
            old(self).wf(),
            !old(self).started(),
            rows@.no_duplicates(),
            forall|i: int| 0 <= i < rows@.len() ==> old(self).is_free(#[trigger] rows@[i] as int),
        ensures
            final(self).wf(),
            !final(self).started(),
            final(self)@ == (Matrix {
                columns: old(self)@.columns.push(
                    ColumnSpec { kind: ColumnType::Constraint, rows: rows@ },
                ),
                ..old(self)@
            }),
            final(self).same_state(old(self)),
            !final(self).is_covered(old(self)@.columns.len() as int),
            final(self).grown_by(old(self), rows@),
    {
        self.add_typed_column(&rows, ColumnType::Constraint);
    }
}

impl Default for PuzzleSolver {
    fn default() -> (board: Self)
        ensures
            board.wf(),
            !board.started(),
            board@ == (Matrix { rows: 0, columns: Seq::empty(), budgets: Seq::empty() }),
    {
        PuzzleSolver::new()
    }
}

} // verus!
