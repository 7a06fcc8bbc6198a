//! The exact-cover matrix: its data, the ghost bookkeeping that explains the
//! link arrays, and the invariants that every operation keeps.

use crate::chain::Chain;
use vstd::prelude::*;

verus! {

/// A cell of the sparse matrix, or a sentinel when `row` is `usize::MAX`.
#[derive(Clone, Copy, Debug, PartialEq, Eq, Structural)]
pub struct Node {
    pub row: usize,
    pub column: usize,
}

/// A choice that the solver may commit to.
#[derive(Clone, Copy, Debug, PartialEq, Eq, Structural)]
pub struct Row {
    pub head: usize,
    pub chosen: bool,
}

/// What a column asks of a solution.
#[derive(Clone, Copy, Debug, PartialEq, Eq, Structural)]
pub enum ColumnType {
    /// Exactly one chosen row has a cell in the column.
    Unique,
    /// At most one chosen row has a cell in the column; a column of the group
    /// that no chosen row touches is a hole of the group.
    ConditionalUnique(usize),
    /// At most one chosen row has a cell in the column.
    Constraint,
}

#[derive(Clone, Copy, Debug, PartialEq, Eq, Structural)]
pub struct Column {
    pub column_type: ColumnType,
    pub head: usize,
    pub count: usize,
}

impl Column {
    /// The group of a conditional column.
    pub fn conditional_index(&self) -> (r: Option<usize>)
        ensures
            r == match self.column_type {
                ColumnType::ConditionalUnique(index) => Some(index),
                _ => None,
            },
    {
        match self.column_type {
            ColumnType::ConditionalUnique(index) => Some(index),
            _ => None,
        }
    }
}

#[derive(Clone, Copy, Debug, PartialEq, Eq, Structural)]
pub struct ConditionState {
    pub head: usize,
    pub holes: usize,
    pub current_holes: usize,
    pub chaining: bool,
}

/// A frame of the backtracking stack.
#[derive(Clone, Copy, Debug, PartialEq, Eq, Structural)]
pub enum State {
    /// Try another level from the matrix as it stands.
    New,
    /// The column that was branched on and the cell whose row is on trial.
    CurrentState(usize, usize),
    /// Chaining was switched on for the group when this frame was pushed.
    TriggerChaining(usize),
}

/// One column of the mathematical matrix: its kind and the rows that have a
/// cell in it, in the order in which they were listed.
pub struct ColumnSpec {
    pub kind: ColumnType,
    pub rows: Seq<usize>,
}

/// The mathematical matrix that a solver holds.
pub struct Matrix {
    pub rows: nat,
    pub columns: Seq<ColumnSpec>,
    /// The hole budget of each conditional group.
    pub budgets: Seq<usize>,
}

impl Matrix {
    /// Row `r` has a cell in column `c`.
    pub open spec fn hits(self, c: int, r: int) -> bool {
        0 <= c < self.columns.len() && 0 <= r < self.rows && self.columns[c].rows.contains(
            r as usize,
        )
    }

    /// Rows `r1` and `r2` have a cell in one and the same column; every row
    /// that has a cell clashes with itself.
    pub open spec fn clash(self, r1: int, r2: int) -> bool {
        exists|c: int| #[trigger] self.hits(c, r1) && self.hits(c, r2)
    }

    /// No row of the set `s` has a cell in column `c`.
    pub open spec fn untouched(self, s: Set<int>, c: int) -> bool {
        forall|i: int|
            0 <= i < self.columns[c].rows.len() ==> !s.contains(
                #[trigger] self.columns[c].rows[i] as int,
            )
    }

    /// At most one row of the set `s` has a cell in column `c`.
    pub open spec fn at_most_once(self, s: Set<int>, c: int) -> bool {
        forall|i: int, j: int|
            0 <= i < self.columns[c].rows.len() && 0 <= j < self.columns[c].rows.len()
                && s.contains(#[trigger] self.columns[c].rows[i] as int) && s.contains(
                #[trigger] self.columns[c].rows[j] as int,
            ) ==> i == j
    }

    /// Exactly one row of the set `s` has a cell in column `c`.
    pub open spec fn exactly_once(self, s: Set<int>, c: int) -> bool {
        !self.untouched(s, c) && self.at_most_once(s, c)
    }

    /// Number of columns of group `g` among the first `k` columns in which
    /// no row of the set `s` has a cell.
    pub open spec fn holes(self, s: Set<int>, g: int, k: int) -> int
        decreases k,
    {
        if k <= 0 {
            0
        } else {
            self.holes(s, g, k - 1) + if self.columns[k - 1].kind == ColumnType::ConditionalUnique(
                g as usize,
            ) && self.untouched(s, k - 1) {
                1int
            } else {
                0int
            }
        }
    }

    /// The set `s` of rows is an exact cover: every unique column holds
    /// exactly one of its rows, every other column at most one, and no group
    /// has more columns without any than its budget allows.
    pub open spec fn is_solution(self, s: Set<int>) -> bool {
        &&& forall|r: int| s.contains(r) ==> 0 <= r < self.rows
        &&& forall|c: int|
            0 <= c < self.columns.len() ==> if (#[trigger] self.columns[c]).kind
                == ColumnType::Unique {
                self.exactly_once(s, c)
            } else {
                self.at_most_once(s, c)
            }
        &&& forall|g: int|
            0 <= g < self.budgets.len() ==> self.holes(s, g, self.columns.len() as int)
                <= #[trigger] self.budgets[g]
    }
}

/// Ghost bookkeeping: what the link arrays mean.
pub struct Shadow {
    /// For each node, the column head (or the node itself, for a sentinel of
    /// a header list) whose vertical list it belongs to.
    pub vhome: Seq<int>,
    /// For each node, the operation that took it out of its vertical list.
    pub vop: Seq<int>,
    /// For each node taken out by a cover, the cell through which its row was
    /// reached.
    pub vsub: Seq<int>,
    /// For each column head, the sentinel of its header list.
    pub hhome: Seq<int>,
    pub hop: Seq<int>,
    pub hsub: Seq<int>,
    /// Operations below this number can no longer be undone.
    pub floor: int,
    /// The column covered by each operation that is in effect; `-1` for the
    /// removal of a row.
    pub ops: Seq<int>,
    /// For each column, the operation that covered it, or `-1`.
    pub cop: Seq<int>,
    /// For each covered column, the cell of the chosen row in it.
    pub cover_cell: Seq<int>,
    /// The nodes of each row, from its head rightwards.
    pub row_nodes: Seq<Seq<usize>>,
    /// For each cell, its position in its row.
    pub pos: Seq<int>,
    /// The rows of each column, in the order of its cells.
    pub col_rows: Seq<Seq<usize>>,
    /// For each stack frame, the number of operations in effect below it.
    pub marks: Seq<int>,
}

pub struct PuzzleSolver {
    pub(crate) node_list: Vec<Node>,
    pub(crate) row_list: Vec<Row>,
    pub(crate) column_list: Vec<Column>,
    pub(crate) condition_state_list: Vec<ConditionState>,
    pub(crate) up: Vec<usize>,
    pub(crate) down: Vec<usize>,
    pub(crate) left: Vec<usize>,
    pub(crate) right: Vec<usize>,
    pub(crate) state_stack: Vec<State>,
    pub(crate) shadow: Ghost<Shadow>,
}

/// The link arrays, counts and hole counts of a solver: everything that
/// covering and uncovering write.
pub struct Layout {
    pub up: Seq<usize>,
    pub down: Seq<usize>,
    pub left: Seq<usize>,
    pub right: Seq<usize>,
    pub columns: Seq<Column>,
    pub groups: Seq<ConditionState>,
}

impl PuzzleSolver {
    // ----- plain names for the pieces ------------------------------------

    pub open(crate) spec fn nn(&self) -> int {
        self.node_list@.len() as int
    }

    pub open(crate) spec fn nc(&self) -> int {
        self.column_list@.len() as int
    }

    pub open(crate) spec fn nr(&self) -> int {
        self.row_list@.len() as int
    }

    pub open(crate) spec fn ng(&self) -> int {
        self.condition_state_list@.len() as int
    }

    pub open(crate) spec fn head_of(&self, c: int) -> int {
        self.column_list@[c].head as int
    }

    pub open(crate) spec fn kind_of(&self, c: int) -> ColumnType {
        self.column_list@[c].column_type
    }

    /// The `i`-th cell of column `c`: the cells of a column follow its head
    /// in the arena.
    pub open(crate) spec fn cell_at(&self, c: int, i: int) -> Node {
        self.node_list@[self.head_of(c) + 1 + i]
    }

    pub open(crate) spec fn is_cell(&self, n: int) -> bool {
        0 <= n < self.nn() && self.node_list@[n].row != usize::MAX
    }

    pub open(crate) spec fn row_of(&self, n: int) -> int {
        self.node_list@[n].row as int
    }

    pub open(crate) spec fn col_of(&self, n: int) -> int {
        self.node_list@[n].column as int
    }

    /// The vertical lists: one per column, with the column head as sentinel.
    pub open(crate) spec fn vchain(&self) -> Chain {
        Chain {
            prev: self.up@,
            next: self.down@,
            home: self.shadow@.vhome,
            op: self.shadow@.vop,
            sub: self.shadow@.vsub,
            floor: self.shadow@.floor,
        }
    }

    /// The header lists: the primary list and one per conditional group.
    pub open(crate) spec fn hchain(&self) -> Chain {
        Chain {
            prev: self.left@,
            next: self.right@,
            home: self.shadow@.hhome,
            op: self.shadow@.hop,
            sub: self.shadow@.hsub,
            floor: self.shadow@.floor,
        }
    }

    /// The sentinel of the header list that column `c` belongs to. A
    /// constraint column is alone in a list of its own.
    pub open(crate) spec fn list_anchor(&self, c: int) -> int {
        match self.kind_of(c) {
            ColumnType::Unique => 0,
            ColumnType::ConditionalUnique(g) => self.condition_state_list@[g as int].head as int,
            ColumnType::Constraint => self.head_of(c),
        }
    }

    // ----- the static shape ------------------------------------------------

    pub open(crate) spec fn sizes_ok(&self) -> bool {
        let n = self.node_list@.len();
        let sh = self.shadow@;
        &&& n >= 1
        &&& self.up@.len() == n
        &&& self.down@.len() == n
        &&& self.left@.len() == n
        &&& self.right@.len() == n
        &&& sh.vhome.len() == n
        &&& sh.vop.len() == n
        &&& sh.vsub.len() == n
        &&& sh.hhome.len() == n
        &&& sh.hop.len() == n
        &&& sh.hsub.len() == n
        &&& sh.pos.len() == n
        &&& sh.cop.len() == self.column_list@.len()
        &&& sh.cover_cell.len() == self.column_list@.len()
        &&& sh.col_rows.len() == self.column_list@.len()
        &&& sh.row_nodes.len() == self.row_list@.len()
        &&& sh.marks.len() == self.state_stack@.len()
        &&& n <= usize::MAX
        &&& self.column_list@.len() <= usize::MAX
        &&& self.row_list@.len() <= usize::MAX
        &&& self.condition_state_list@.len() <= usize::MAX
        &&& self.node_list@[0] == (Node { row: usize::MAX, column: usize::MAX })
    }

    pub open(crate) spec fn node_shape(&self, n: int) -> bool {
        let nd = self.node_list@[n];
        let sh = self.shadow@;
        if nd.column == usize::MAX {
            &&& nd.row == usize::MAX
            &&& sh.vhome[n] == n
            &&& sh.hhome[n] == n
            &&& sh.pos[n] == -1
        } else {
            let c = nd.column as int;
            let h = self.head_of(c);
            &&& c < self.nc()
            &&& sh.vhome[n] == h
            &&& h <= n
            &&& if nd.row == usize::MAX {
                &&& n == h
                &&& sh.pos[n] == -1
                &&& sh.hhome[n] == self.list_anchor(c)
            } else {
                let r = nd.row as int;
                &&& h < n
                &&& r < self.nr()
                &&& sh.hhome[n] == -1
                &&& 0 <= sh.pos[n] < sh.row_nodes[r].len()
                &&& sh.row_nodes[r][sh.pos[n]] == n
                &&& n - h - 1 < sh.col_rows[c].len()
                &&& sh.col_rows[c][n - h - 1] == r
            }
        }
    }

    pub open(crate) spec fn column_shape(&self, c: int) -> bool {
        let h = self.head_of(c);
        let sh = self.shadow@;
        &&& 0 < h < self.nn()
        &&& self.node_list@[h] == (Node { row: usize::MAX, column: c as usize })
        &&& match self.kind_of(c) {
            ColumnType::ConditionalUnique(g) => g < self.ng()
                && self.condition_state_list@[g as int].head < h,
            _ => true,
        }
        &&& h + sh.col_rows[c].len() < self.nn()
        &&& c >= 1 ==> self.head_of(c - 1) < h
        &&& (forall|i: int|
            0 <= i < sh.col_rows[c].len() ==> #[trigger] self.cell_at(c, i) == (Node {
                row: sh.col_rows[c][i],
                column: c as usize,
            }))
        &&& (forall|i: int, j: int|
            0 <= i < j < sh.col_rows[c].len() ==> #[trigger] sh.col_rows[c][i]
                != #[trigger] sh.col_rows[c][j])
    }

    pub open(crate) spec fn group_shape(&self, g: int) -> bool {
        let a = self.condition_state_list@[g].head as int;
        &&& 0 < a < self.nn()
        &&& self.node_list@[a] == (Node { row: usize::MAX, column: usize::MAX })
        &&& g >= 1 ==> self.condition_state_list@[g - 1].head < a
    }

    /// The position that follows `i` in a circular row of `len` nodes.
    pub open spec fn after(i: int, len: int) -> int {
        if i + 1 < len {
            i + 1
        } else {
            0
        }
    }

    /// The position that precedes `i` in a circular row of `len` nodes.
    pub open spec fn before(i: int, len: int) -> int {
        if i == 0 {
            len - 1
        } else {
            i - 1
        }
    }

    pub open(crate) spec fn row_shape(&self, r: int) -> bool {
        let rn = self.shadow@.row_nodes[r];
        let len = rn.len() as int;
        &&& len >= 1
        &&& rn[0] == self.row_list@[r].head
        &&& self.kind_of(self.col_of(rn[0] as int)) == ColumnType::Unique
        &&& (forall|i: int|
            0 <= i < len ==> {
                &&& (#[trigger] rn[i]) < self.nn()
                &&& self.node_list@[rn[i] as int].row == r
                &&& self.shadow@.pos[rn[i] as int] == i
            })
        &&& (forall|i: int| 0 <= i < len ==> #[trigger] self.row_link_ok(r, i))
    }

    /// The horizontal links of the `i`-th node of row `r` lead to its
    /// neighbours in the row.
    pub open(crate) spec fn row_link_ok(&self, r: int, i: int) -> bool {
        let rn = self.shadow@.row_nodes[r];
        let len = rn.len() as int;
        &&& self.right@[rn[i] as int] == rn[Self::after(i, len)]
        &&& self.left@[rn[i] as int] == rn[Self::before(i, len)]
    }

    pub open(crate) spec fn shape(&self) -> bool {
        &&& self.sizes_ok()
        &&& (forall|n: int| 0 <= n < self.nn() ==> #[trigger] self.node_shape(n))
        &&& (forall|c: int| 0 <= c < self.nc() ==> #[trigger] self.column_shape(c))
        &&& (forall|g: int| 0 <= g < self.ng() ==> #[trigger] self.group_shape(g))
        &&& (forall|r: int| 0 <= r < self.nr() ==> #[trigger] self.row_shape(r))
    }

    // ----- counts and links ------------------------------------------------

    /// Column `c` is in its header list and has no linked cell: a hole of
    /// group `g`, if it belongs to it.
    pub open(crate) spec fn is_hole(&self, g: int, c: int) -> bool {
        &&& self.kind_of(c) == ColumnType::ConditionalUnique(g as usize)
        &&& self.shadow@.cop[c] < 0
        &&& self.column_list@[c].count == 0
    }

    /// Number of holes of group `g` among the first `k` columns.
    pub open(crate) spec fn holes_below(&self, g: int, k: int) -> int
        decreases k,
    {
        if k <= 0 {
            0
        } else {
            self.holes_below(g, k - 1) + if self.is_hole(g, k - 1) {
                1int
            } else {
                0int
            }
        }
    }

    pub open(crate) spec fn column_links(&self, c: int, pending: int) -> bool {
        let h = self.head_of(c);
        let sh = self.shadow@;
        &&& self.column_list@[c].count == self.vchain().linked(h) + if c == self.nc() - 1 {
            pending
        } else {
            0
        }
        &&& sh.cop[c] >= -1
        &&& sh.cop[c] >= 0 ==> sh.cop[c] < sh.ops.len() && sh.ops[sh.cop[c]] == c
        &&& self.kind_of(c) != ColumnType::Constraint ==> sh.hop[h] == sh.cop[c] && sh.hsub[h] == if sh.cop[c]
            >= 0 {
            0int
        } else {
            -1int
        }
    }

    pub open(crate) spec fn group_links(&self, g: int) -> bool {
        self.condition_state_list@[g].current_holes == self.holes_below(g, self.nc())
    }

    /// The link arrays form the lists that the ghost bookkeeping describes,
    /// and the counters count what they claim to count. While a column is
    /// being filled, `pending` cells of the last column are yet to come.
    pub open(crate) spec fn links(&self, pending: int) -> bool {
        &&& self.shape()
        &&& self.vchain().ok()
        &&& self.hchain().ok()
        &&& 0 <= self.shadow@.floor <= self.shadow@.ops.len()
        &&& (forall|c: int| 0 <= c < self.nc() ==> #[trigger] self.column_links(c, pending))
        &&& (forall|g: int| 0 <= g < self.ng() ==> #[trigger] self.group_links(g))
        &&& (forall|n: int| 0 <= n < self.nn() ==> #[trigger] self.hop_ok(n))
    }

    /// Only the head of a column that has a header list can be out of one.
    pub open(crate) spec fn hop_ok(&self, n: int) -> bool {
        let nd = self.node_list@[n];
        self.shadow@.hop[n] == -1 || (nd.row == usize::MAX && nd.column != usize::MAX
            && self.kind_of(nd.column as int) != ColumnType::Constraint)
    }

    // ----- rows at rest ----------------------------------------------------

    pub open(crate) spec fn stamp_is(&self, n: int, op: int, sub: int) -> bool {
        self.shadow@.vop[n] == op && self.shadow@.vsub[n] == sub
    }

    /// The operation that covered column `c`, with column `c0` taken as
    /// covered by operation `d0`.
    pub open(crate) spec fn vcop(&self, c0: int, d0: int, c: int) -> int {
        if c == c0 {
            d0
        } else {
            self.shadow@.cop[c]
        }
    }

    /// What holds of node `n` while column `c0` is being covered or
    /// uncovered by operation `d0`: the rows of its linked cells below `lim`
    /// have been reached through them, those from `lim` on are whole.
    pub open(crate) spec fn node_settled_at(&self, n: int, c0: int, d0: int, lim: int) -> bool {
        let sh = self.shadow@;
        let d = sh.vop[n];
        let v = sh.vsub[n];
        &&& d < sh.ops.len() || (c0 >= 0 && d == d0)
        &&& self.is_cell(n) ==> {
            let r = self.row_of(n);
            let c = self.col_of(n);
            let rn = sh.row_nodes[r];
            if d < 0 {
                if self.vcop(c0, d0, c) >= 0 && !(c == c0 && n >= lim) {
                    // a linked cell of a covered column: its row was reached
                    // through it
                    forall|k: int|
                        0 <= k < rn.len() && k != sh.pos[n] ==> self.stamp_is(
                            #[trigger] rn[k] as int,
                            self.vcop(c0, d0, c),
                            n,
                        )
                } else {
                    // a linked cell of a column in play: its row is whole
                    forall|k: int| 0 <= k < rn.len() ==> sh.vop[#[trigger] rn[k] as int] < 0
                }
            } else if v >= 0 {
                // taken out by the cover of the column of `v`
                &&& v < self.nn()
                &&& v != n
                &&& self.node_list@[v].row == r
                &&& self.vcop(c0, d0, self.col_of(v)) == d
                &&& sh.vop[v] < 0 || (sh.vsub[v] == -1 && sh.vop[v] > d)
                &&& self.vcop(c0, d0, c) < 0 || self.vcop(c0, d0, c) > d
            } else {
                // taken out with its whole row, for good
                &&& d < sh.floor
                &&& forall|k: int| 0 <= k < rn.len() ==> sh.vop[#[trigger] rn[k] as int] >= 0
            }
        }
    }

    /// What holds of node `n` between operations.
    pub open(crate) spec fn node_settled(&self, n: int) -> bool {
        self.node_settled_at(n, -1, -1, 0)
    }

    /// As `node_settled_at`, with nothing said of the cells of row `r0`.
    pub open(crate) spec fn node_mid(&self, n: int, c0: int, d0: int, lim: int, r0: int) -> bool {
        (self.is_cell(n) && self.row_of(n) == r0) || self.node_settled_at(n, c0, d0, lim)
    }

    pub open(crate) spec fn rows_mid(&self, c0: int, d0: int, lim: int, r0: int) -> bool {
        forall|n: int| 0 <= n < self.nn() ==> #[trigger] self.node_mid(n, c0, d0, lim, r0)
    }

    /// Every row is whole, or reached through one cell by one cover, or gone
    /// for good.
    pub open(crate) spec fn rows_settled(&self) -> bool {
        forall|n: int| 0 <= n < self.nn() ==> #[trigger] self.node_settled(n)
    }

    pub open(crate) spec fn column_settled(&self, c: int) -> bool {
        let sh = self.shadow@;
        let x = sh.cover_cell[c];
        if sh.cop[c] >= 0 {
            &&& self.is_cell(x)
            &&& self.col_of(x) == c
            &&& self.row_list@[self.row_of(x)].chosen
        } else {
            x == -1
        }
    }

    pub open(crate) spec fn row_settled(&self, r: int) -> bool {
        let sh = self.shadow@;
        let rn = sh.row_nodes[r];
        self.row_list@[r].chosen ==> forall|k: int|
            0 <= k < rn.len() ==> sh.cover_cell[self.col_of(#[trigger] rn[k] as int)] == rn[k]
    }

    /// Every covered column is covered for a chosen row, and every column of
    /// a chosen row is covered for it.
    /// As `column_settled`, with row `r0` counted as chosen.
    pub open(crate) spec fn column_settled_but(&self, c: int, r0: int) -> bool {
        let sh = self.shadow@;
        let x = sh.cover_cell[c];
        if sh.cop[c] >= 0 {
            &&& self.is_cell(x)
            &&& self.col_of(x) == c
            &&& self.row_list@[self.row_of(x)].chosen || self.row_of(x) == r0
        } else {
            x == -1
        }
    }

    /// The state of the chosen rows and covered columns while the columns
    /// of row `r0` are being covered for it.
    pub open(crate) spec fn committed_but(&self, r0: int) -> bool {
        &&& (forall|c: int| 0 <= c < self.nc() ==> #[trigger] self.column_settled_but(c, r0))
        &&& (forall|r: int| 0 <= r < self.nr() && r != r0 ==> #[trigger] self.row_settled(r))
    }

    /// The columns of row `r0` are being covered from position `p0`
    /// rightwards: `j` of them are covered, by the operations from `m` on.
    pub open(crate) spec fn covering(&self, r0: int, p0: int, m: int, j: int) -> bool {
        let sh = self.shadow@;
        let rn = sh.row_nodes[r0];
        &&& sh.ops.len() == m + j
        &&& forall|k: int|
            0 <= k < rn.len() ==> if Self::off(p0, k, rn.len() as int) < j {
                &&& sh.cop[self.col_of(#[trigger] rn[k] as int)] == m + Self::off(
                    p0,
                    k,
                    rn.len() as int,
                )
                &&& sh.cover_cell[self.col_of(rn[k] as int)] == rn[k]
            } else {
                sh.cop[self.col_of(rn[k] as int)] < 0
            }
    }

    pub open(crate) spec fn committed(&self) -> bool {
        &&& (forall|c: int| 0 <= c < self.nc() ==> #[trigger] self.column_settled(c))
        &&& (forall|r: int| 0 <= r < self.nr() ==> #[trigger] self.row_settled(r))
    }

    // ----- the backtracking stack -------------------------------------------

    /// The number of steps to the right that lead from position `p` to
    /// position `k` in a circular row of `len` nodes.
    pub open spec fn off(p: int, k: int, len: int) -> int {
        if k >= p {
            k - p
        } else {
            k - p + len
        }
    }

    /// The position `j` steps to the right of position `p` in a circular row
    /// of `len` nodes.
    pub open spec fn at(p: int, j: int, len: int) -> int {
        if p + j < len {
            p + j
        } else {
            p + j - len
        }
    }

    /// Frame `i` of a stack of `k` frames, worked off when `top` operations
    /// are in effect. A choice frame stands for the covers of the column that
    /// was branched on and of the other columns of the row on trial, from the
    /// cell rightwards.
    pub open(crate) spec fn frame_ok_in(&self, i: int, k: int, top: int) -> bool {
        let sh = self.shadow@;
        let m = sh.marks[i];
        let m2 = if i + 1 < k {
            sh.marks[i + 1]
        } else {
            top
        };
        &&& sh.floor <= m
        &&& match self.state_stack@[i] {
            State::New => i == k - 1 && m2 == m,
            State::TriggerChaining(g) => g < self.ng() && m2 == m,
            State::CurrentState(c, n) => {
                let r = self.row_of(n as int);
                let rn = sh.row_nodes[r];
                let p = sh.pos[n as int];
                &&& c < self.nc()
                &&& self.is_cell(n as int)
                &&& self.col_of(n as int) == c
                &&& sh.vop[n as int] < 0
                &&& m2 == m + rn.len()
                &&& self.row_list@[r].chosen
                &&& forall|j: int|
                    0 <= j < rn.len() ==> sh.cop[self.col_of(#[trigger] rn[j] as int)] == m
                        + Self::off(p, j, rn.len() as int)
            },
        }
    }

    pub open(crate) spec fn frame_ok(&self, i: int) -> bool {
        self.frame_ok_in(i, self.state_stack@.len() as int, self.shadow@.ops.len() as int)
    }

    /// The first `k` frames are in order, the last of them worked off when
    /// `top` operations are in effect.
    pub open(crate) spec fn frames_below(&self, k: int, top: int) -> bool {
        forall|i: int| 0 <= i < k ==> #[trigger] self.frame_ok_in(i, k, top)
    }

    pub open(crate) spec fn frames_ok(&self) -> bool {
        forall|i: int| 0 <= i < self.state_stack@.len() ==> #[trigger] self.frame_ok(i)
    }

    /// The state before the first request for a solution.
    pub open(crate) spec fn ready(&self, pending: int) -> bool {
        &&& self.links(pending)
        &&& self.rows_settled()
        &&& self.committed()
        &&& self.state_stack@ == seq![State::New]
        &&& self.shadow@.marks == seq![self.shadow@.ops.len() as int]
        &&& self.calm()
    }

    // ----- what callers see -------------------------------------------------

    /// The solver is consistent: the link arrays form the lists of the
    /// matrix, every counter counts what it names, the stack matches the
    /// covers in effect, chaining is on only for groups whose budget of holes
    /// is used up, and every frame of the stack stands for the column that
    /// the order of the search branches on.
    pub open(crate) spec fn wf(&self) -> bool {
        self.sound() && self.chains_ok() && self.leads_ok()
    }

    /// The link arrays form the lists of the matrix, every counter counts
    /// what it names, and the stack matches the covers in effect.
    pub open(crate) spec fn sound(&self) -> bool {
        &&& self.links(0)
        &&& self.rows_settled()
        &&& self.committed()
        &&& self.frames_ok()
    }

    /// The matrix that was built.
    pub open(crate) spec fn view(&self) -> Matrix {
        Matrix {
            rows: self.row_list@.len(),
            columns: Seq::new(
                self.column_list@.len(),
                |c: int|
                    ColumnSpec {
                        kind: self.column_list@[c].column_type,
                        rows: self.shadow@.col_rows[c],
                    },
            ),
            budgets: Seq::new(
                self.condition_state_list@.len(),
                |g: int| self.condition_state_list@[g].holes,
            ),
        }
    }

    /// A solution has been asked for.
    pub open(crate) spec fn started(&self) -> bool {
        self.state_stack@ != seq![State::New]
    }

    /// The search is over: no further solution will come.
    pub open(crate) spec fn exhausted(&self) -> bool {
        self.state_stack@.len() == 0
    }

    /// Row `r` is part of the solution under construction.
    pub open(crate) spec fn is_chosen(&self, r: int) -> bool {
        0 <= r < self.row_list@.len() && self.row_list@[r].chosen
    }

    /// Row `r` can still be chosen: none of its cells has been taken out and
    /// none of its columns is covered.
    pub open(crate) spec fn is_free(&self, r: int) -> bool {
        &&& 0 <= r < self.row_list@.len()
        &&& forall|k: int|
            0 <= k < self.shadow@.row_nodes[r].len() ==> self.shadow@.vop[
            #[trigger] self.shadow@.row_nodes[r][k] as int] < 0 && self.shadow@.cop[self.col_of(
                self.shadow@.row_nodes[r][k] as int,
            )] < 0
    }

    /// The rows that are part of the solution under construction.
    pub open(crate) spec fn chosen_set(&self) -> Set<int> {
        Set::new(|r: int| self.is_chosen(r))
    }

    /// The sequence `v` lists the chosen rows in ascending order.
    pub open(crate) spec fn lists_chosen(&self, v: Seq<usize>) -> bool {
        &&& forall|i: int, j: int| 0 <= i < j < v.len() ==> v[i] < v[j]
        &&& forall|i: int| 0 <= i < v.len() ==> self.is_chosen(#[trigger] v[i] as int)
        &&& forall|r: int| self.is_chosen(r) ==> v.contains(r as usize)
    }

    /// Every unique column is covered.
    pub open(crate) spec fn complete(&self) -> bool {
        forall|c: int|
            0 <= c < self.nc() && #[trigger] self.kind_of(c) == ColumnType::Unique
                ==> self.shadow@.cop[c] >= 0
    }

    /// No group counts more holes than its budget allows.
    pub open(crate) spec fn within_budget(&self) -> bool {
        forall|g: int|
            0 <= g < self.ng() ==> (#[trigger] self.condition_state_list@[g]).current_holes
                <= self.condition_state_list@[g].holes
    }

    /// Column `c` is a unique column in play all of whose cells were out
    /// before operation `m0`: no row can cover it.
    pub open(crate) spec fn dead_end(&self, c: int, m0: int) -> bool {
        &&& 0 <= c < self.nc()
        &&& self.kind_of(c) == ColumnType::Unique
        &&& self.shadow@.cop[c] < 0
        &&& forall|x: int|
            self.is_cell(x) && self.col_of(x) == c ==> 0 <= #[trigger] self.shadow@.vop[x] < m0
    }

    /// The search cannot find a solution: some unique column had no linked
    /// cell when it began.
    pub open(crate) spec fn doomed(&self) -> bool {
        self.state_stack@.len() >= 1 && exists|c: int|
            #[trigger] self.dead_end(c, self.shadow@.marks[0])
    }

    /// Number of linked cells of column `c`.
    pub open(crate) spec fn count_of(&self, c: int) -> int {
        self.column_list@[c].count as int
    }

    /// Row `r` is free and not chosen: nothing has been decided about it.
    pub open(crate) spec fn is_fresh(&self, r: int) -> bool {
        self.is_free(r) && !self.is_chosen(r)
    }

    /// Column `c` is covered.
    pub open(crate) spec fn is_covered(&self, c: int) -> bool {
        0 <= c < self.column_list@.len() && self.shadow@.cop[c] >= 0
    }

    /// The link arrays and counters.
    pub open(crate) spec fn layout(&self) -> Layout {
        Layout {
            up: self.up@,
            down: self.down@,
            left: self.left@,
            right: self.right@,
            columns: self.column_list@,
            groups: self.condition_state_list@,
        }
    }
}

impl View for PuzzleSolver {
    type V = Matrix;

    open(crate) spec fn view(&self) -> Matrix {
        PuzzleSolver::view(self)
    }
}

} // verus!
