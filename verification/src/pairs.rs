//! A matrix whose exact covers can be counted: pairs of rows, of each of
//! which one is chosen, and for each pair a column of one group that holds
//! the first row of the pair. With a budget of as many holes as there are
//! pairs, each of these columns may be taken or skipped.

use crate::dancing_links::{ColumnSpec, ColumnType, Matrix, PuzzleSolver};
use vstd::prelude::*;

verus! {

/// Column `i` of the matrix of pairs: the unique column of pair `i / 2`
/// with both of its rows, or the column of the group with its first row.
pub open spec fn pairs_column(i: int) -> ColumnSpec {
    if i % 2 == 0 {
        ColumnSpec { kind: ColumnType::Unique, rows: seq![i as usize, (i + 1) as usize] }
    } else {
        ColumnSpec { kind: ColumnType::ConditionalUnique(0), rows: seq![(i - 1) as usize] }
    }
}

/// The matrix of `k` pairs of rows: rows `2 i` and `2 i + 1` share a unique
/// column, row `2 i` alone has a cell in a column of the one group, and the
/// group may leave `k` holes.
pub open spec fn pairs_matrix(k: nat) -> Matrix {
    Matrix {
        rows: 2 * k,
        columns: Seq::new(2 * k, |i: int| pairs_column(i)),
        budgets: seq![k as usize],
    }
}

/// The rows that a choice takes: of pair `i` the first row if `bits[i]`,
/// else the second.
pub open spec fn choice(bits: Seq<bool>) -> Set<int> {
    Set::new(|r: int| 0 <= r < 2 * bits.len() && (r % 2 == 0) == bits[r / 2])
}

/// Two to the power of `k`.
pub open spec fn two_to(k: nat) -> nat
    decreases k,
{
    if k == 0 {
        1
    } else {
        2 * two_to((k - 1) as nat)
    }
}

/// All choices for `k` pairs: those for one pair less, with the first row
/// of the last pair, and then with the second.
pub open spec fn all_choices(k: nat) -> Seq<Seq<bool>>
    decreases k,
{
    if k == 0 {
        seq![Seq::empty()]
    } else {
        all_choices((k - 1) as nat).map_values(|b: Seq<bool>| b.push(true)) + all_choices(
            (k - 1) as nat,
        ).map_values(|b: Seq<bool>| b.push(false))
    }
}

/// There are two to the power of `k` choices for `k` pairs, each of them
/// one for `k` pairs.
pub proof fn lemma_choices_count(k: nat)
    ensures
        all_choices(k).len() == two_to(k),
        forall|j: int| 0 <= j < all_choices(k).len() ==> (#[trigger] all_choices(k)[j]).len() == k,
    decreases k,
{
    if k > 0 {
        lemma_choices_count((k - 1) as nat);
    }
}

/// Every choice for `k` pairs is one of them.
pub proof fn lemma_choices_all(k: nat, bits: Seq<bool>) -> (j: int)
    requires
        bits.len() == k,
    ensures
        0 <= j < all_choices(k).len(),
        all_choices(k)[j] == bits,
    decreases k,
{
    if k == 0 {
        assert(bits =~= Seq::empty());
        0
    } else {
        let rest = bits.drop_last();
        let i = lemma_choices_all((k - 1) as nat, rest);
        let less = all_choices((k - 1) as nat);
        if bits[k - 1] {
            assert(rest.push(true) =~= bits);
            i
        } else {
            assert(rest.push(false) =~= bits);
            i + less.len()
        }
    }
}

/// No choice is listed twice.
pub proof fn lemma_choices_differ(k: nat, i: int, j: int)
    requires
        0 <= i < j < all_choices(k).len(),
    ensures
        all_choices(k)[i] != all_choices(k)[j],
    decreases k,
{
    if k > 0 {
        let less = all_choices((k - 1) as nat);
        lemma_choices_count((k - 1) as nat);
        let n = less.len() as int;
        let a = all_choices(k)[i];
        let b = all_choices(k)[j];
        if j < n {
            lemma_choices_differ((k - 1) as nat, i, j);
            assert(a == less[i].push(true));
            assert(b == less[j].push(true));
            assert(a.drop_last() =~= less[i]);
            assert(b.drop_last() =~= less[j]);
        } else if i >= n {
            lemma_choices_differ((k - 1) as nat, i - n, j - n);
            assert(a == less[i - n].push(false));
            assert(b == less[j - n].push(false));
            assert(a.drop_last() =~= less[i - n]);
            assert(b.drop_last() =~= less[j - n]);
        } else {
            assert(a == less[i].push(true));
            assert(b == less[j - n].push(false));
            assert(a[k - 1]);
            assert(!b[k - 1]);
        }
    }
}

/// Different choices take different rows.
pub proof fn lemma_choice_tells(a: Seq<bool>, b: Seq<bool>)
    requires
        a.len() == b.len(),
        choice(a) == choice(b),
    ensures
        a == b,
{
    assert forall|i: int| 0 <= i < a.len() implies a[i] == b[i] by {
        assert(choice(a).contains(2 * i) == a[i]);
        assert(choice(b).contains(2 * i) == b[i]);
    }
    assert(a =~= b);
}

/// Among the first `n` columns of the matrix of pairs, a set of rows
/// leaves no more holes than there are columns of the group.
proof fn lemma_pairs_holes(k: nat, s: Set<int>, n: int)
    requires
        0 <= n <= 2 * k,
    ensures
        0 <= pairs_matrix(k).holes(s, 0, n) <= n / 2,
    decreases n,
{
    if n > 0 {
        lemma_pairs_holes(k, s, n - 1);
        assert(pairs_matrix(k).columns[n - 1] == pairs_column(n - 1));
    }
}

/// The exact covers of the matrix of pairs are the choices: of every pair
/// one row.
pub proof fn lemma_pairs_covers(k: nat, s: Set<int>)
    requires
        2 * k <= usize::MAX,
    ensures
        pairs_matrix(k).is_solution(s) == exists|bits: Seq<bool>|
            bits.len() == k && s == #[trigger] choice(bits),
{
    let m = pairs_matrix(k);
    if m.is_solution(s) {
        let bits = Seq::new(k, |i: int| s.contains(2 * i));
        assert forall|r: int| s.contains(r) == choice(bits).contains(r) by {
            if 0 <= r < 2 * k {
                let i = r / 2;
                let c = 2 * i;
                let column = m.columns[c];
                assert(column == pairs_column(c));
                assert(m.exactly_once(s, c));
                assert(column.rows[0] as int == 2 * i);
                assert(column.rows[1] as int == 2 * i + 1);
                if s.contains(2 * i) && s.contains(2 * i + 1) {
                    assert(s.contains(column.rows[0] as int) && s.contains(column.rows[1] as int));
                    assert(false);
                }
                if !s.contains(2 * i) && !s.contains(2 * i + 1) {
                    assert forall|x: int| 0 <= x < column.rows.len() implies !s.contains(
                        #[trigger] column.rows[x] as int,
                    ) by {}
                    assert(m.untouched(s, c));
                    assert(false);
                }
            }
        }
        assert(s =~= choice(bits));
    }
    if exists|bits: Seq<bool>| bits.len() == k && s == #[trigger] choice(bits) {
        let bits = choose|bits: Seq<bool>| bits.len() == k && s == #[trigger] choice(bits);
        assert forall|c: int| 0 <= c < m.columns.len() implies if (#[trigger] m.columns[c]).kind
            == ColumnType::Unique {
            m.exactly_once(s, c)
        } else {
            m.at_most_once(s, c)
        } by {
            let column = m.columns[c];
            assert(column == pairs_column(c));
            if c % 2 == 0 {
                let i = c / 2;
                assert(column.rows[0] as int == c);
                assert(column.rows[1] as int == c + 1);
                if bits[i] {
                    assert(s.contains(column.rows[0] as int));
                } else {
                    assert(s.contains(column.rows[1] as int));
                }
                assert(!m.untouched(s, c));
            }
        }
        assert forall|g: int| 0 <= g < m.budgets.len() implies m.holes(
            s,
            g,
            m.columns.len() as int,
        ) <= #[trigger] m.budgets[g] by {
            lemma_pairs_holes(k, s, 2 * k as int);
        }
    }
}

/// A group that may leave a hole for every one of `k` single-row columns
/// has two to the power of `k` exact covers: the exact covers of the matrix
/// of pairs are the rows of the choices, of which there are so many, each
/// with rows of its own. A search of the matrix finds each of them once.
pub proof fn lemma_two_to_the_k(k: nat)
    requires
        2 * k <= usize::MAX,
    ensures
        all_choices(k).len() == two_to(k),
        forall|s: Set<int>|
            pairs_matrix(k).is_solution(s) == exists|j: int|
                0 <= j < two_to(k) && s == #[trigger] choice(all_choices(k)[j]),
        forall|i: int, j: int|
            0 <= i < j < two_to(k) ==> choice(all_choices(k)[i]) != choice(all_choices(k)[j]),
{
    lemma_choices_count(k);
    assert forall|s: Set<int>|
        pairs_matrix(k).is_solution(s) == exists|j: int|
            0 <= j < two_to(k) && s == #[trigger] choice(all_choices(k)[j]) by {
        lemma_pairs_covers(k, s);
        if pairs_matrix(k).is_solution(s) {
            let bits = choose|bits: Seq<bool>| bits.len() == k && s == #[trigger] choice(bits);
            let j = lemma_choices_all(k, bits);
            assert(s == choice(all_choices(k)[j]));
        }
        if exists|j: int| 0 <= j < two_to(k) && s == #[trigger] choice(all_choices(k)[j]) {
            let j = choose|j: int| 0 <= j < two_to(k) && s == #[trigger] choice(all_choices(k)[j]);
            assert(all_choices(k)[j].len() == k);
            assert(s == choice(all_choices(k)[j]));
        }
    }
    assert forall|i: int, j: int| 0 <= i < j < two_to(k) implies choice(all_choices(k)[i])
        != choice(all_choices(k)[j]) by {
        lemma_choices_differ(k, i, j);
        if choice(all_choices(k)[i]) == choice(all_choices(k)[j]) {
            lemma_choice_tells(all_choices(k)[i], all_choices(k)[j]);
        }
    }
}

/// A solver that holds the matrix of `k` pairs, with nothing decided about
/// any row, has the two to the power of `k` choices to come, and no other
/// set of rows.
pub proof fn lemma_pairs_to_come(solver: PuzzleSolver, k: nat, s: Set<int>)
    requires
        2 * k <= usize::MAX,
        solver.wf(),
        !solver.started(),
        solver@ == pairs_matrix(k),
        forall|r: int| 0 <= r < 2 * k ==> #[trigger] solver.is_fresh(r),
    ensures
        solver.to_come(s) == exists|j: int|
            0 <= j < two_to(k) && s == #[trigger] choice(all_choices(k)[j]),
{
    lemma_two_to_the_k(k);
    crate::laws::lemma_all_are_to_come(solver, s);
    if pairs_matrix(k).is_solution(s) {
        assert forall|r: int| solver.is_chosen(r) implies s.contains(r) by {
            if 0 <= r < 2 * k {
                assert(solver.is_fresh(r));
            }
        }
        assert forall|r: int| s.contains(r) implies solver.is_chosen(r) || solver.is_free(r) by {
            assert(solver.is_fresh(r));
        }
    }
}

/// The solver holds the first `i` pairs of the matrix of `k` pairs, and
/// nothing is decided about any row.
pub open spec fn pairs_so_far(solver: &PuzzleSolver, k: nat, i: int) -> bool {
    &&& solver.wf()
    &&& !solver.started()
    &&& solver@.rows == 2 * i
    &&& solver@.columns == Seq::new((2 * i) as nat, |c: int| pairs_column(c))
    &&& solver@.budgets == seq![k as usize]
    &&& forall|r: int| 0 <= r < 2 * i ==> #[trigger] solver.is_fresh(r)
}

/// Builds the solver for the matrix of `k` pairs: one group with a budget
/// of `k` holes, and for every pair two rows, of which one is to be chosen,
/// and a column of the group that holds the first of them.
pub fn pairs_puzzle(k: usize) -> (solver: PuzzleSolver)
    requires
        2 * k <= usize::MAX,
    ensures
        solver.wf(),
        !solver.started(),
        solver@ == pairs_matrix(k as nat),
        forall|r: int| 0 <= r < 2 * k ==> #[trigger] solver.is_fresh(r),
{
    let mut solver = PuzzleSolver::new();
    let group = solver.new_conditional_constraint(k);
    proof {
        assert(solver@.columns =~= Seq::new(0, |c: int| pairs_column(c)));
        assert(solver@.budgets =~= seq![k]);
    }
    let mut i: usize = 0;
    while i < k
        invariant
            i <= k,
            2 * k <= usize::MAX,
            group == 0,
            pairs_so_far(&solver, k as nat, i as int),
        decreases k - i,
    {
        let ghost before = solver;
        let first = solver.add_rows(2);
        let ghost mid = solver;
        proof {
            assert(mid.is_fresh(first as int));
            assert forall|r: int| 0 <= r < 2 * i + 2 implies #[trigger] mid.is_fresh(r) by {
                if r < 2 * i {
                    assert(before.is_fresh(r));
                    assert(mid.same_row_state(&before, r));
                }
            }
        }
        let mut rows: Vec<usize> = Vec::new();
        rows.push(first);
        proof {
            assert(rows@ =~= seq![first]);
        }
        solver.add_conditional_column(rows, group);
        proof {
            assert forall|r: int| 0 <= r < 2 * i + 2 implies #[trigger] solver.is_fresh(r) by {
                assert(mid.is_fresh(r));
                assert(solver.same_row_state(&mid, r));
            }
            let n = 2 * i as int;
            assert(Seq::new(2, |j: int| (first + j) as usize) =~= seq![
                n as usize,
                (n + 1) as usize,
            ]);
            assert(seq![first] =~= seq![n as usize]);
            assert(solver@.columns =~= Seq::new((n + 2) as nat, |c: int| pairs_column(c))) by {
                assert forall|c: int| 0 <= c < n + 2 implies solver@.columns[c] == pairs_column(
                    c,
                ) by {
                    if c < n {
                        assert(before@.columns[c] == pairs_column(c));
                    }
                }
            }
        }
        i += 1;
    }
    proof {
        assert(solver@.columns =~= pairs_matrix(k as nat).columns);
    }
    solver
}

} // verus!
