//! The order in which a search finds the exact covers of a matrix, told of
//! the matrix alone: at every level the column with the fewest rows that
//! are still free is branched on, the first of them on the walk over the
//! columns, and its rows are tried from the first to the last.

use crate::dancing_links::{ColumnType, Matrix};
use vstd::prelude::*;

verus! {

/// What a search begins with: the rows that are free and the columns that
/// are covered.
pub struct Start {
    pub open: Set<int>,
    pub shut: Set<int>,
}

impl Matrix {
    /// Row `x` is still free after the rows of `path` have been chosen.
    pub open spec fn row_free(self, start: Start, path: Seq<int>, x: int) -> bool {
        &&& start.open.contains(x)
        &&& forall|j: int| 0 <= j < path.len() ==> !self.clash(#[trigger] path[j], x)
    }

    /// Column `c` is covered after the rows of `path` have been chosen.
    pub open spec fn col_shut(self, start: Start, path: Seq<int>, c: int) -> bool {
        start.shut.contains(c) || exists|j: int|
            0 <= j < path.len() && self.hits(c, #[trigger] path[j])
    }

    /// Number of rows among the first `k` of column `c` that are still
    /// free.
    pub open spec fn live(self, start: Start, path: Seq<int>, c: int, k: int) -> int
        decreases k,
    {
        if k <= 0 {
            0
        } else {
            self.live(start, path, c, k - 1) + if self.row_free(
                start,
                path,
                self.columns[c].rows[k - 1] as int,
            ) {
                1int
            } else {
                0int
            }
        }
    }

    /// Number of rows of column `c` that are still free.
    pub open spec fn live_all(self, start: Start, path: Seq<int>, c: int) -> int {
        self.live(start, path, c, self.columns[c].rows.len() as int)
    }

    /// Column `c` is a hole of group `g`: it is not covered, and none of
    /// its rows is free.
    pub open spec fn dry(self, start: Start, path: Seq<int>, g: int, c: int) -> bool {
        &&& self.columns[c].kind == ColumnType::ConditionalUnique(g as usize)
        &&& !self.col_shut(start, path, c)
        &&& self.live_all(start, path, c) == 0
    }

    /// Number of holes of group `g` among the first `k` columns.
    pub open spec fn dries(self, start: Start, path: Seq<int>, g: int, k: int) -> int
        decreases k,
    {
        if k <= 0 {
            0
        } else {
            self.dries(start, path, g, k - 1) + if self.dry(start, path, g, k - 1) {
                1int
            } else {
                0int
            }
        }
    }

    /// Column `c` can be branched on: it is not covered, one of its rows
    /// is free, and it is a unique column or a column of a group whose
    /// budget of holes is used up.
    pub open spec fn may_lead(self, start: Start, path: Seq<int>, c: int) -> bool {
        &&& 0 <= c < self.columns.len()
        &&& !self.col_shut(start, path, c)
        &&& self.live_all(start, path, c) >= 1
        &&& match self.columns[c].kind {
            ColumnType::Unique => true,
            ColumnType::ConditionalUnique(g) => g < self.budgets.len() && self.dries(
                start,
                path,
                g as int,
                self.columns.len() as int,
            ) == self.budgets[g as int],
            ColumnType::Constraint => false,
        }
    }

    /// The walk over the columns meets column `c1` before column `c2`:
    /// the unique columns come first, then the groups in their order, and
    /// of one kind the columns in the order in which they were added.
    pub open spec fn comes_first(self, c1: int, c2: int) -> bool {
        match (self.columns[c1].kind, self.columns[c2].kind) {
            (ColumnType::Unique, ColumnType::Unique) => c1 < c2,
            (ColumnType::Unique, ColumnType::ConditionalUnique(_)) => true,
            (ColumnType::ConditionalUnique(g1), ColumnType::ConditionalUnique(g2)) => g1 < g2 || (g1
                == g2 && c1 < c2),
            _ => false,
        }
    }

    /// Column `c` is the one that is branched on: of the columns that can
    /// be, it has the fewest free rows and is the first such on the walk.
    pub open spec fn leads(self, start: Start, path: Seq<int>, c: int) -> bool {
        &&& self.may_lead(start, path, c)
        &&& forall|c2: int| #[trigger]
            self.may_lead(start, path, c2) ==> self.live_all(start, path, c2) > self.live_all(
                start,
                path,
                c,
            ) || (self.live_all(start, path, c2) == self.live_all(start, path, c)
                && !self.comes_first(c2, c))
    }

    /// The `i`-th row of column `c` is a row of the set `s`.
    pub open spec fn holds_at(self, s: Set<int>, c: int, i: int) -> bool {
        0 <= i < self.columns[c].rows.len() && s.contains(self.columns[c].rows[i] as int)
    }

    /// Within `fuel` levels below the rows of `path`, which both sets
    /// hold, the search comes to a level at which the row of `s1` is
    /// tried before the row of `s2`.
    pub open spec fn sooner(
        self,
        start: Start,
        path: Seq<int>,
        s1: Set<int>,
        s2: Set<int>,
        fuel: nat,
    ) -> bool
        decreases fuel,
    {
        if fuel == 0 {
            false
        } else {
            exists|c: int, i1: int, i2: int|
                #![trigger self.holds_at(s1, c, i1), self.holds_at(s2, c, i2)]
                self.leads(start, path, c) && self.holds_at(s1, c, i1) && self.holds_at(s2, c, i2)
                    && (i1 < i2 || (i1 == i2 && self.sooner(
                    start,
                    path.push(self.columns[c].rows[i1] as int),
                    s1,
                    s2,
                    (fuel - 1) as nat,
                )))
        }
    }

    /// The search finds the exact cover `s1` before the exact cover `s2`.
    pub open spec fn before(self, start: Start, s1: Set<int>, s2: Set<int>) -> bool {
        exists|fuel: nat| self.sooner(start, Seq::empty(), s1, s2, fuel)
    }

    /// Of two columns that can be branched on, one comes first on the
    /// walk.
    pub proof fn lemma_one_comes_first(self, start: Start, path: Seq<int>, c1: int, c2: int)
        requires
            self.may_lead(start, path, c1),
            self.may_lead(start, path, c2),
            c1 != c2,
        ensures
            self.comes_first(c1, c2) || self.comes_first(c2, c1),
    {
    }

    /// Only one column is branched on.
    pub proof fn lemma_one_leads(self, start: Start, path: Seq<int>, c1: int, c2: int)
        requires
            self.leads(start, path, c1),
            self.leads(start, path, c2),
        ensures
            c1 == c2,
    {
        if c1 != c2 {
            self.lemma_one_comes_first(start, path, c1, c2);
        }
    }

    /// An exact cover holds one row at most of a column.
    pub proof fn lemma_holds_once(self, s: Set<int>, c: int, i: int, j: int)
        requires
            self.is_solution(s),
            0 <= c < self.columns.len(),
            self.holds_at(s, c, i),
            self.holds_at(s, c, j),
        ensures
            i == j,
    {
        let column = self.columns[c];
        if column.kind == ColumnType::Unique {
            assert(self.exactly_once(s, c));
        }
        assert(self.at_most_once(s, c));
    }

    /// If one exact cover is found before another, the other is not found
    /// before the one.
    pub proof fn lemma_sooner_one_way(
        self,
        start: Start,
        path: Seq<int>,
        s1: Set<int>,
        s2: Set<int>,
        fuel1: nat,
        fuel2: nat,
    )
        requires
            self.is_solution(s1),
            self.is_solution(s2),
            self.sooner(start, path, s1, s2, fuel1),
        ensures
            !self.sooner(start, path, s2, s1, fuel2),
        decreases fuel1,
    {
        if self.sooner(start, path, s2, s1, fuel2) {
            let (c, i1, i2) = choose|c: int, i1: int, i2: int|
                #![trigger self.holds_at(s1, c, i1), self.holds_at(s2, c, i2)]
                self.leads(start, path, c) && self.holds_at(s1, c, i1) && self.holds_at(s2, c, i2)
                    && (i1 < i2 || (i1 == i2 && self.sooner(
                    start,
                    path.push(self.columns[c].rows[i1] as int),
                    s1,
                    s2,
                    (fuel1 - 1) as nat,
                )));
            let (d, j2, j1) = choose|d: int, j2: int, j1: int|
                #![trigger self.holds_at(s2, d, j2), self.holds_at(s1, d, j1)]
                self.leads(start, path, d) && self.holds_at(s2, d, j2) && self.holds_at(s1, d, j1)
                    && (j2 < j1 || (j2 == j1 && self.sooner(
                    start,
                    path.push(self.columns[d].rows[j2] as int),
                    s2,
                    s1,
                    (fuel2 - 1) as nat,
                )));
            self.lemma_one_leads(start, path, c, d);
            self.lemma_holds_once(s1, c, i1, j1);
            self.lemma_holds_once(s2, c, i2, j2);
            if i1 == i2 {
                self.lemma_sooner_one_way(
                    start,
                    path.push(self.columns[c].rows[i1] as int),
                    s1,
                    s2,
                    (fuel1 - 1) as nat,
                    (fuel2 - 1) as nat,
                );
            }
        }
    }

    /// The order in which exact covers are found goes one way only.
    pub proof fn lemma_before_one_way(self, start: Start, s1: Set<int>, s2: Set<int>)
        requires
            self.is_solution(s1),
            self.is_solution(s2),
            self.before(start, s1, s2),
        ensures
            !self.before(start, s2, s1),
    {
        let fuel1 = choose|fuel: nat| self.sooner(start, Seq::empty(), s1, s2, fuel);
        if self.before(start, s2, s1) {
            let fuel2 = choose|fuel: nat| self.sooner(start, Seq::empty(), s2, s1, fuel);
            self.lemma_sooner_one_way(start, Seq::empty(), s1, s2, fuel1, fuel2);
        }
    }

    /// What is found sooner within some levels is found sooner within
    /// more.
    pub proof fn lemma_sooner_more(
        self,
        start: Start,
        path: Seq<int>,
        s1: Set<int>,
        s2: Set<int>,
        fuel: nat,
    )
        requires
            self.sooner(start, path, s1, s2, fuel),
        ensures
            self.sooner(start, path, s1, s2, fuel + 1),
        decreases fuel,
    {
        let (c, i1, i2) = choose|c: int, i1: int, i2: int|
            #![trigger self.holds_at(s1, c, i1), self.holds_at(s2, c, i2)]
            self.leads(start, path, c) && self.holds_at(s1, c, i1) && self.holds_at(s2, c, i2) && (
            i1 < i2 || (i1 == i2 && self.sooner(
                start,
                path.push(self.columns[c].rows[i1] as int),
                s1,
                s2,
                (fuel - 1) as nat,
            )));
        if i1 == i2 {
            self.lemma_sooner_more(
                start,
                path.push(self.columns[c].rows[i1] as int),
                s1,
                s2,
                (fuel - 1) as nat,
            );
        }
        assert(self.holds_at(s1, c, i1) && self.holds_at(s2, c, i2));
    }
}

} // verus!
