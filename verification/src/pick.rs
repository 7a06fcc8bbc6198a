//! The choice of the column to branch on.

use crate::dancing_links::{ColumnType, PuzzleSolver};
use vstd::prelude::*;

verus! {

impl PuzzleSolver {
    /// Column `c` can be branched on: it is in play, has a linked cell, and
    /// is a primary column or a column of a group that is chaining.
    pub open(crate) spec fn candidate(&self, c: int) -> bool {
        &&& 0 <= c < self.nc()
        &&& self.shadow@.cop[c] < 0
        &&& self.column_list@[c].count >= 1
        &&& match self.kind_of(c) {
            ColumnType::Unique => true,
            ColumnType::ConditionalUnique(g) => self.condition_state_list@[g as int].chaining,
            ColumnType::Constraint => false,
        }
    }

    /// The walk over the header lists meets column `c1` before column `c2`:
    /// primary columns come first, then the groups in their order, and
    /// within one list the columns in the order in which they were added.
    pub open(crate) spec fn earlier(&self, c1: int, c2: int) -> bool {
        match (self.kind_of(c1), self.kind_of(c2)) {
            (ColumnType::Unique, ColumnType::Unique) => c1 < c2,
            (ColumnType::Unique, ColumnType::ConditionalUnique(_)) => true,
            (ColumnType::ConditionalUnique(g1), ColumnType::ConditionalUnique(g2)) => g1 < g2 || (g1
                == g2 && c1 < c2),
            _ => false,
        }
    }

    /// Column `c` is the first on the walk among the candidates with the
    /// fewest linked cells.
    pub open(crate) spec fn best(&self, c: int) -> bool {
        &&& self.candidate(c)
        &&& forall|c2: int| #[trigger]
            self.candidate(c2) ==> self.column_list@[c2].count > self.column_list@[c].count || (
            self.column_list@[c2].count == self.column_list@[c].count && !self.earlier(c2, c))
    }

    /// Column `c` is a primary column in play.
    pub open(crate) spec fn primary(&self, c: int) -> bool {
        0 <= c < self.nc() && self.kind_of(c) == ColumnType::Unique && self.shadow@.cop[c] < 0
    }

    /// A primary column in play without a linked cell comes before every
    /// primary column in play with exactly one: the branch is dead.
    pub open(crate) spec fn blocked(&self) -> bool {
        exists|c0: int|
            #[trigger] self.primary(c0) && self.column_list@[c0].count == 0 && forall|c1: int|
                #[trigger] self.primary(c1) && c1 < c0 ==> self.column_list@[c1].count != 1
    }

    /// The walk has met column `c`, when it stands in the list of group `g`
    /// (or, with `g` negative, in the primary list) before the node `lim`.
    pub open(crate) spec fn seen(&self, c: int, g: int, lim: int) -> bool {
        &&& 0 <= c < self.nc()
        &&& self.shadow@.cop[c] < 0
        &&& match self.kind_of(c) {
            ColumnType::Unique => g >= 0 || self.head_of(c) < lim,
            ColumnType::ConditionalUnique(g1) => self.condition_state_list@[g1 as int].chaining && (
            g1 < g || (g1 == g && self.head_of(c) < lim)),
            ColumnType::Constraint => false,
        }
    }

    /// What the walk knows after the columns it has seen.
    pub open(crate) spec fn walked(
        &self,
        g: int,
        lim: int,
        min_count: usize,
        min_column: usize,
    ) -> bool {
        &&& forall|c: int| #[trigger]
            self.seen(c, g, lim) ==> self.column_list@[c].count != 1 && (self.kind_of(c)
                == ColumnType::Unique ==> self.column_list@[c].count >= 2)
        &&& if min_column == usize::MAX {
            &&& min_count == usize::MAX
            &&& forall|c: int| #[trigger] self.seen(c, g, lim) ==> self.column_list@[c].count == 0
        } else {
            &&& self.seen(min_column as int, g, lim)
            &&& self.column_list@[min_column as int].count == min_count
            &&& min_count >= 2
            &&& forall|c: int| #[trigger]
                self.seen(c, g, lim) && self.column_list@[c].count >= 1
                    ==> self.column_list@[c].count > min_count || (self.column_list@[c].count
                    == min_count && !self.earlier(c, min_column as int))
        }
    }

    /// Heads follow the order of the columns.
    pub(crate) proof fn lemma_heads_ordered(&self, c1: int, c2: int)
        requires
            self.shape(),
            0 <= c1 < c2 < self.nc(),
        ensures
            self.head_of(c1) < self.head_of(c2),
        decreases c2 - c1,
    {
        assert(self.column_shape(c2));
        if c1 < c2 - 1 {
            self.lemma_heads_ordered(c1, c2 - 1);
        }
    }

    /// Sentinels follow the order of the groups.
    pub(crate) proof fn lemma_anchors_ordered(&self, g1: int, g2: int)
        requires
            self.shape(),
            0 <= g1 < g2 < self.ng(),
        ensures
            self.condition_state_list@[g1].head < self.condition_state_list@[g2].head,
        decreases g2 - g1,
    {
        assert(self.group_shape(g2));
        if g1 < g2 - 1 {
            self.lemma_anchors_ordered(g1, g2 - 1);
        }
    }

    pub(crate) proof fn lemma_anchors_differ(&self, g1: int, g2: int)
        requires
            self.shape(),
            0 <= g1 < self.ng(),
            0 <= g2 < self.ng(),
            g1 != g2,
        ensures
            self.condition_state_list@[g1].head != self.condition_state_list@[g2].head,
    {
        if g1 < g2 {
            self.lemma_anchors_ordered(g1, g2);
        } else {
            self.lemma_anchors_ordered(g2, g1);
        }
    }

    /// A linked member of a header list is the head of a column in play of
    /// that list.
    pub(crate) proof fn lemma_header_member(&self, a: int, x: int)
        requires
            self.links(0),
            0 <= x < self.nn(),
            0 <= a,
            self.shadow@.hhome[x] == a,
            x != a,
            self.shadow@.hop[x] < 0,
        ensures
            0 <= self.col_of(x) < self.nc(),
            self.head_of(self.col_of(x)) == x,
            self.shadow@.cop[self.col_of(x)] < 0,
            self.list_anchor(self.col_of(x)) == a,
            self.kind_of(self.col_of(x)) != ColumnType::Constraint,
    {
        assert(self.node_shape(x));
        assert(self.hchain().node_ok(x));
        let c = self.col_of(x);
        assert(self.column_links(c, 0));
        assert(self.column_shape(c));
    }

    /// One more column has been met: `x`, the next linked member of the list
    /// that is being walked.
    pub(crate) proof fn lemma_walk_on(
        &self,
        g: int,
        a: int,
        cur: int,
        lim2: int,
        min_count: usize,
        min_column: usize,
        new_count: usize,
        new_column: usize,
    )
        requires
            self.links(0),
            -1 <= g < self.ng(),
            a == (if g < 0 {
                0
            } else {
                self.condition_state_list@[g].head as int
            }),
            g >= 0 ==> self.condition_state_list@[g].chaining,
            0 <= cur < self.nn(),
            self.shadow@.hhome[cur] == a,
            cur != a,
            self.shadow@.hop[cur] < 0,
            cur < lim2,
            forall|m: int|
                cur < m < lim2 && 0 <= m < self.nn() && #[trigger] self.shadow@.hhome[m] == a
                    ==> self.shadow@.hop[m] >= 0,
            self.walked(g, cur, min_count, min_column),
            self.column_list@[self.col_of(cur)].count != 1,
            g < 0 ==> self.column_list@[self.col_of(cur)].count != 0,
            new_column == (if self.column_list@[self.col_of(cur)].count < min_count
                && self.column_list@[self.col_of(cur)].count != 0 {
                self.col_of(cur) as usize
            } else {
                min_column
            }),
            new_count == (if self.column_list@[self.col_of(cur)].count < min_count
                && self.column_list@[self.col_of(cur)].count != 0 {
                self.column_list@[self.col_of(cur)].count
            } else {
                min_count
            }),
        ensures
            self.walked(g, lim2, new_count, new_column),
    {
        let cx = self.col_of(cur);
        let k = self.column_list@[cx].count;
        if g >= 0 {
            assert(self.group_shape(g));
        }
        self.lemma_header_member(a, cur);
        self.lemma_anchor_kind(g, cx);
        assert(self.seen(cx, g, lim2));
        assert(!self.seen(cx, g, cur));
        // every column met so far comes before `cx`, and only `cx` is new
        assert forall|c: int| #[trigger] self.seen(c, g, lim2) implies c == cx || (self.seen(
            c,
            g,
            cur,
        ) && self.earlier(c, cx)) by {
            assert(self.column_shape(c));
            assert(self.column_links(c, 0));
            let h = self.head_of(c);
            assert(self.node_shape(h));
            if !self.seen(c, g, cur) {
                self.lemma_anchor_kind(g, c);
                assert(self.shadow@.hhome[h] == a);
                assert(h >= cur);
                if h > cur {
                    assert(self.shadow@.hop[h] >= 0);
                }
                assert(h == cur);
            } else {
                match self.kind_of(c) {
                    ColumnType::Unique => {
                        if g < 0 {
                            if c >= cx {
                                if c > cx {
                                    self.lemma_heads_ordered(cx, c);
                                }
                            }
                        }
                    },
                    ColumnType::ConditionalUnique(g1) => {
                        if g1 == g {
                            if c > cx {
                                self.lemma_heads_ordered(cx, c);
                            }
                        }
                    },
                    ColumnType::Constraint => {},
                }
            }
        }
        assert forall|c: int| #[trigger] self.seen(c, g, lim2) implies self.column_list@[c].count
            != 1 && (self.kind_of(c) == ColumnType::Unique ==> self.column_list@[c].count >= 2) by {
            if c != cx {
                assert(self.seen(c, g, cur));
            }
        }
        if new_column != usize::MAX {
            if min_column != usize::MAX {
                assert(self.seen(min_column as int, g, cur));
                assert(self.seen(min_column as int, g, lim2));
                assert(self.earlier(min_column as int, cx));
            }
            assert(self.seen(new_column as int, g, lim2));
            assert forall|c: int| #[trigger]
                self.seen(c, g, lim2) && self.column_list@[c].count
                    >= 1 implies self.column_list@[c].count > new_count || (
            self.column_list@[c].count == new_count && !self.earlier(c, new_column as int)) by {
                if c != cx {
                    assert(self.seen(c, g, cur) && self.earlier(c, cx));
                    if new_column == cx {
                        self.lemma_earlier_asym(c, cx);
                    }
                } else {
                    if new_column != cx {
                        self.lemma_earlier_asym(min_column as int, cx);
                    } else {
                        self.lemma_earlier_irrefl(cx);
                    }
                }
            }
        } else {
            assert(self.column_links(cx, 0));
            crate::chain::lemma_linked_below_strict(self.vchain(), self.head_of(cx), self.nn());
            assert(k == 0);
            assert forall|c: int| #[trigger] self.seen(c, g, lim2) implies self.column_list@[c].count
                == 0 by {
                if c != cx {
                    assert(self.seen(c, g, cur));
                }
            }
        }
    }

    pub(crate) proof fn lemma_earlier_asym(&self, c1: int, c2: int)
        requires
            self.earlier(c1, c2),
        ensures
            !self.earlier(c2, c1),
    {
    }

    pub(crate) proof fn lemma_earlier_irrefl(&self, c: int)
        ensures
            !self.earlier(c, c),
    {
    }

    /// The columns of the list that is being walked are the primary columns,
    /// or those of the group.
    pub(crate) proof fn lemma_anchor_kind(&self, g: int, c: int)
        requires
            self.shape(),
            -1 <= g < self.ng(),
            0 <= c < self.nc(),
        ensures
            (self.kind_of(c) != ColumnType::Constraint && self.list_anchor(c) == (if g < 0 {
                0
            } else {
                self.condition_state_list@[g].head as int
            })) <==> (if g < 0 {
                self.kind_of(c) == ColumnType::Unique
            } else {
                self.kind_of(c) == ColumnType::ConditionalUnique(g as usize)
            }),
    {
        assert(self.column_shape(c));
        assert(self.node_shape(0));
        match self.kind_of(c) {
            ColumnType::ConditionalUnique(g1) => {
                assert(self.group_shape(g1 as int));
                let a1 = self.condition_state_list@[g1 as int].head as int;
                assert(self.node_shape(a1));
                if g >= 0 && g1 != g {
                    self.lemma_anchors_differ(g1 as int, g);
                }
            },
            _ => {
                if g >= 0 {
                    assert(self.group_shape(g));
                }
            },
        }
    }

    /// What the walk knows does not change while it meets no column.
    pub(crate) proof fn lemma_walk_same(
        &self,
        g1: int,
        lim1: int,
        g2: int,
        lim2: int,
        min_count: usize,
        min_column: usize,
    )
        requires
            self.walked(g1, lim1, min_count, min_column),
            forall|c: int| #[trigger] self.seen(c, g2, lim2) ==> self.seen(c, g1, lim1),
            min_column != usize::MAX ==> self.seen(min_column as int, g2, lim2),
        ensures
            self.walked(g2, lim2, min_count, min_column),
    {
        assert forall|c: int| #[trigger] self.seen(c, g2, lim2) implies self.column_list@[c].count
            != 1 && (self.kind_of(c) == ColumnType::Unique ==> self.column_list@[c].count >= 2) by {
            assert(self.seen(c, g1, lim1));
        }
        if min_column == usize::MAX {
            assert forall|c: int| #[trigger] self.seen(c, g2, lim2) implies self.column_list@[c].count
                == 0 by {
                assert(self.seen(c, g1, lim1));
            }
        } else {
            assert forall|c: int| #[trigger]
                self.seen(c, g2, lim2) && self.column_list@[c].count
                    >= 1 implies self.column_list@[c].count > min_count || (
            self.column_list@[c].count == min_count && !self.earlier(c, min_column as int)) by {
                assert(self.seen(c, g1, lim1));
            }
        }
    }

    /// No column of the list of `a` has its head in a stretch of the arena
    /// without linked members of the list.
    pub(crate) proof fn lemma_walk_skip(
        &self,
        g: int,
        a: int,
        lim1: int,
        lim2: int,
        min_count: usize,
        min_column: usize,
    )
        requires
            self.links(0),
            -1 <= g < self.ng(),
            a == (if g < 0 {
                0
            } else {
                self.condition_state_list@[g].head as int
            }),
            lim1 <= lim2,
            forall|m: int|
                lim1 <= m < lim2 && 0 <= m < self.nn() && #[trigger] self.shadow@.hhome[m] == a && m
                    != a ==> self.shadow@.hop[m] >= 0,
            self.walked(g, lim1, min_count, min_column),
        ensures
            self.walked(g, lim2, min_count, min_column),
    {
        assert forall|c: int| #[trigger] self.seen(c, g, lim2) implies self.seen(c, g, lim1) by {
            if !self.seen(c, g, lim1) {
                assert(self.column_shape(c));
                assert(self.column_links(c, 0));
                let h = self.head_of(c);
                assert(self.node_shape(h));
                self.lemma_anchor_kind(g, c);
                assert(self.shadow@.hhome[h] == a);
                if g >= 0 {
                    assert(self.group_shape(g));
                }
                assert(false);
            }
        }
        self.lemma_walk_same(g, lim1, g, lim2, min_count, min_column);
    }

    /// Who may be seen at all is a candidate, if it has a linked cell.
    pub(crate) proof fn lemma_seen_all(&self, c: int)
        requires
            self.shape(),
        ensures
            self.seen(c, self.ng(), 0) <==> (0 <= c < self.nc() && self.shadow@.cop[c] < 0
                && match self.kind_of(c) {
                ColumnType::Unique => true,
                ColumnType::ConditionalUnique(g) => self.condition_state_list@[g as int].chaining,
                ColumnType::Constraint => false,
            }),
    {
        if 0 <= c < self.nc() {
            assert(self.column_shape(c));
        }
    }

    /// The walk may stop at the first column with exactly one linked cell.
    pub(crate) proof fn lemma_pick_one(&self, g: int, cur: int, min_count: usize, min_column: usize)
        requires
            self.links(0),
            -1 <= g < self.ng(),
            g >= 0 ==> self.condition_state_list@[g].chaining,
            0 <= cur < self.nn(),
            self.shadow@.hhome[cur] == (if g < 0 {
                0
            } else {
                self.condition_state_list@[g].head as int
            }),
            cur != self.shadow@.hhome[cur],
            self.shadow@.hop[cur] < 0,
            self.walked(g, cur, min_count, min_column),
            self.column_list@[self.col_of(cur)].count == 1,
        ensures
            self.best(self.col_of(cur)),
            !self.blocked(),
    {
        let a = self.shadow@.hhome[cur];
        let cx = self.col_of(cur);
        if g >= 0 {
            assert(self.group_shape(g));
        }
        self.lemma_header_member(a, cur);
        self.lemma_anchor_kind(g, cx);
        assert forall|c2: int| #[trigger] self.candidate(c2) implies self.column_list@[c2].count
            > self.column_list@[cx].count || (self.column_list@[c2].count
            == self.column_list@[cx].count && !self.earlier(c2, cx)) by {
            if self.column_list@[c2].count == 1 && self.earlier(c2, cx) {
                assert(self.column_shape(c2));
                if c2 < cx {
                    self.lemma_heads_ordered(c2, cx);
                }
                assert(self.seen(c2, g, cur));
                assert(false);
            }
        }
        if self.blocked() {
            let c0 = choose|c0: int|
                #[trigger] self.primary(c0) && self.column_list@[c0].count == 0 && forall|c1: int|
                    #[trigger] self.primary(c1) && c1 < c0 ==> self.column_list@[c1].count != 1;
            if g >= 0 {
                assert(self.seen(c0, g, cur));
            } else {
                if c0 < cx {
                    self.lemma_heads_ordered(c0, cx);
                    assert(self.seen(c0, g, cur));
                } else {
                    assert(self.primary(cx));
                }
            }
            assert(false);
        }
    }

    /// The walk gives up at a primary column without linked cell.
    pub(crate) proof fn lemma_pick_blocked(&self, cur: int, min_count: usize, min_column: usize)
        requires
            self.links(0),
            0 < cur < self.nn(),
            self.shadow@.hhome[cur] == 0,
            self.shadow@.hop[cur] < 0,
            self.walked(-1, cur, min_count, min_column),
            self.column_list@[self.col_of(cur)].count == 0,
        ensures
            self.blocked(),
    {
        let cx = self.col_of(cur);
        self.lemma_header_member(0, cur);
        self.lemma_anchor_kind(-1, cx);
        assert(self.primary(cx));
        assert forall|c1: int| #[trigger] self.primary(c1) && c1 < cx implies self.column_list@[c1].count
            != 1 by {
            self.lemma_heads_ordered(c1, cx);
            assert(self.seen(c1, -1, cur));
        }
    }

    /// At the end of the walk the first of the smallest candidates is known.
    pub(crate) proof fn lemma_pick_done(&self, min_count: usize, min_column: usize)
        requires
            self.links(0),
            self.walked(self.ng(), 0, min_count, min_column),
        ensures
            !self.blocked(),
            min_column != usize::MAX ==> self.best(min_column as int),
            min_column == usize::MAX ==> forall|c: int| !self.candidate(c),
    {
        assert forall|c: int| self.candidate(c) implies self.seen(c, self.ng(), 0) by {
            self.lemma_seen_all(c);
        }
        if self.blocked() {
            let c0 = choose|c0: int|
                #[trigger] self.primary(c0) && self.column_list@[c0].count == 0 && forall|c1: int|
                    #[trigger] self.primary(c1) && c1 < c0 ==> self.column_list@[c1].count != 1;
            self.lemma_seen_all(c0);
            assert(self.seen(c0, self.ng(), 0));
            assert(false);
        }
        if min_column != usize::MAX {
            self.lemma_seen_all(min_column as int);
            assert forall|c2: int| #[trigger] self.candidate(c2) implies self.column_list@[c2].count
                > self.column_list@[min_column as int].count || (self.column_list@[c2].count
                == self.column_list@[min_column as int].count && !self.earlier(
                c2,
                min_column as int,
            )) by {
                assert(self.seen(c2, self.ng(), 0));
            }
        } else {
            assert forall|c: int| !self.candidate(c) by {
                if self.candidate(c) {
                    assert(self.seen(c, self.ng(), 0));
                }
            }
        }
    }

    /// Picks the column to branch on: the first on the walk over the primary
    /// list and the lists of the chaining groups among the columns with the
    /// fewest linked cells, none if the branch is dead.
    pub(crate) fn pick_best_column(&self) -> (r: Option<usize>)
        requires
            self.links(0),
        ensures
            match r {
                Some(c) => self.best(c as int) && !self.blocked(),
                None => self.blocked() || forall|c: int| !self.candidate(c),
            },
    {
        let mut min_count = usize::MAX;
        let mut min_column = usize::MAX;
        proof {
            assert(self.node_shape(0));
            assert(self.hchain().node_ok(0));
            assert(self.walked(-1, 0, min_count, min_column)) by {
                assert forall|c: int| #[trigger] self.seen(c, -1, 0) implies false by {
                    assert(self.column_shape(c));
                }
            }
        }
        let mut column_head = self.right[0];
        proof {
            let lim = if column_head == 0 {
                self.nn()
            } else {
                column_head as int
            };
            self.lemma_walk_skip(-1, 0, 0, lim, min_count, min_column);
        }
        while column_head != 0
            invariant
                self.links(0),
                column_head < self.nn(),
                self.shadow@.hhome[column_head as int] == 0,
                self.shadow@.hop[column_head as int] < 0,
                self.walked(
                    -1,
                    if column_head == 0 {
                        self.nn()
                    } else {
                        column_head as int
                    },
                    min_count,
                    min_column,
                ),
            decreases
                    (if column_head == 0 {
                        0
                    } else {
                        self.nn() - column_head
                    }),
        {
            proof {
                self.lemma_header_member(0, column_head as int);
                assert(self.hchain().node_ok(column_head as int));
            }
            let column = self.node_list[column_head].column;
            let count = self.column_list[column].count;
            let ghost old_count = min_count;
            let ghost old_column = min_column;
            if count < min_count {
                if count == 1 {
                    proof {
                        self.lemma_pick_one(-1, column_head as int, min_count, min_column);
                    }
                    return Some(column);
                } else if count == 0 {
                    proof {
                        self.lemma_pick_blocked(column_head as int, min_count, min_column);
                    }
                    return None;
                }
                min_count = count;
                min_column = column;
            }
            let next = self.right[column_head];
            proof {
                let lim2 = if next == 0 {
                    self.nn()
                } else {
                    next as int
                };
                self.lemma_walk_on(
                    -1,
                    0,
                    column_head as int,
                    lim2,
                    old_count,
                    old_column,
                    min_count,
                    min_column,
                );
            }
            column_head = next;
        }
        proof {
            assert forall|c: int| #[trigger] self.seen(c, 0, 0) implies self.seen(
                c,
                -1,
                self.nn(),
            ) by {
                assert(self.column_shape(c));
            }
            if min_column != usize::MAX {
                assert(self.seen(min_column as int, 0, 0));
            }
            self.lemma_walk_same(-1, self.nn(), 0, 0, min_count, min_column);
        }
        let mut index: usize = 0;
        while index < self.condition_state_list.len()
            invariant
                self.links(0),
                index <= self.ng(),
                self.walked(index as int, 0, min_count, min_column),
            decreases self.ng() - index,
        {
            let state = self.condition_state_list[index];
            let ghost g = index as int;
            if state.chaining {
                proof {
                    assert(self.group_shape(g));
                    assert(self.node_shape(state.head as int));
                    assert(self.hchain().node_ok(state.head as int));
                }
                let mut column_head = self.right[state.head];
                proof {
                    let lim = if column_head == state.head {
                        self.nn()
                    } else {
                        column_head as int
                    };
                    assert forall|m: int|
                        0 <= m < lim && 0 <= m < self.nn() && #[trigger] self.shadow@.hhome[m]
                            == state.head && m != state.head implies self.shadow@.hop[m] >= 0 by {
                        assert(self.hchain().node_ok(m));
                    }
                    self.lemma_walk_skip(g, state.head as int, 0, lim, min_count, min_column);
                }
                while column_head != state.head
                    invariant
                        self.links(0),
                        g == index,
                        0 <= g < self.ng(),
                        state == self.condition_state_list@[g],
                        state.chaining,
                        0 < state.head < self.nn(),
                        column_head < self.nn(),
                        self.shadow@.hhome[column_head as int] == state.head,
                        self.shadow@.hop[column_head as int] < 0,
                        self.walked(
                            g,
                            if column_head == state.head {
                                self.nn()
                            } else {
                                column_head as int
                            },
                            min_count,
                            min_column,
                        ),
                    decreases
                            (if column_head == state.head {
                                0
                            } else {
                                self.nn() - column_head
                            }),
                {
                    proof {
                        self.lemma_header_member(state.head as int, column_head as int);
                        assert(self.hchain().node_ok(column_head as int));
                    }
                    let column = self.node_list[column_head].column;
                    let count = self.column_list[column].count;
                    let ghost old_count = min_count;
                    let ghost old_column = min_column;
                    if count < min_count {
                        if count == 1 {
                            proof {
                                self.lemma_pick_one(g, column_head as int, min_count, min_column);
                            }
                            return Some(column);
                        } else if count > 0 {
                            min_count = count;
                            min_column = column;
                        }
                    }
                    let next = self.right[column_head];
                    proof {
                        let lim2 = if next == state.head {
                            self.nn()
                        } else {
                            next as int
                        };
                        self.lemma_walk_on(
                            g,
                            state.head as int,
                            column_head as int,
                            lim2,
                            old_count,
                            old_column,
                            min_count,
                            min_column,
                        );
                    }
                    column_head = next;
                }
            }
            proof {
                let lim1 = if state.chaining {
                    self.nn()
                } else {
                    0
                };
                assert forall|c: int| #[trigger] self.seen(c, g + 1, 0) implies self.seen(
                    c,
                    g,
                    lim1,
                ) by {
                    assert(self.column_shape(c));
                }
                if min_column != usize::MAX {
                    assert(self.seen(min_column as int, g + 1, 0));
                }
                self.lemma_walk_same(g, lim1, g + 1, 0, min_count, min_column);
            }
            index += 1;
        }
        proof {
            self.lemma_pick_done(min_count, min_column);
        }
        if min_column == usize::MAX {
            None
        } else {
            Some(min_column)
        }
    }
}

} // verus!
