use puzzle_solver::pairs::pairs_puzzle;
use puzzle_solver::{Column, ColumnType, PuzzleSolver};

fn all_solutions(solver: &mut PuzzleSolver) -> Vec<Vec<usize>> {
    let mut found = vec![];
    while let Some(solution) = solver.solve_next() {
        found.push(solution);
    }
    found
}

#[test]
fn empty_matrix_yields_one_empty_solution() {
    let mut solver = PuzzleSolver::new();
    assert_eq!(solver.solve_next(), Some(vec![]));
    assert_eq!(solver.solve_next(), None);
    assert_eq!(solver.solve_next(), None);
}

#[test]
fn default_is_the_empty_matrix() {
    let mut solver = PuzzleSolver::default();
    assert_eq!(all_solutions(&mut solver), vec![Vec::<usize>::new()]);
}

#[test]
fn iterator_hands_out_the_solutions() {
    let mut solver = PuzzleSolver::new();
    let first = solver.add_rows(2);
    assert_eq!(first, 0);
    let mut stream = solver.solve();
    assert_eq!(stream.next(), Some(vec![0]));
    assert_eq!(stream.next(), Some(vec![1]));
    assert_eq!(stream.next(), None);
}

#[test]
fn knuth_example_has_one_cover() {
    // Knuth's example: seven columns, six rows.
    let sets: Vec<Vec<usize>> = vec![
        vec![2, 4, 5],
        vec![0, 3, 6],
        vec![1, 2, 5],
        vec![0, 3],
        vec![1, 6],
        vec![3, 4, 6],
    ];
    let mut solver = PuzzleSolver::new();
    // every row is free to stay out: one identity column per row would
    // force it in, so each row shares its identity column with a "leave
    // out" row
    let mut ids = vec![];
    for _ in 0..sets.len() {
        ids.push(solver.add_rows(2));
    }
    for column in 0..7 {
        let rows: Vec<usize> =
            (0..sets.len()).filter(|&r| sets[r].contains(&column)).map(|r| ids[r]).collect();
        solver.add_column(rows);
    }
    let found = all_solutions(&mut solver);
    assert_eq!(found.len(), 1);
    let taken: Vec<usize> =
        (0..sets.len()).filter(|&r| found[0].contains(&ids[r])).collect();
    assert_eq!(taken, vec![0, 3, 4]);
}

#[test]
fn unique_column_without_rows_yields_nothing() {
    let mut solver = PuzzleSolver::new();
    solver.add_rows(2);
    solver.add_column(vec![]);
    assert_eq!(solver.solve_next(), None);
    assert_eq!(solver.solve_next(), None);
}

#[test]
fn empty_identity_column_yields_nothing() {
    let mut solver = PuzzleSolver::new();
    solver.add_rows(0);
    assert_eq!(solver.solve_next(), None);
}

#[test]
fn column_emptied_by_removal_yields_nothing() {
    let mut solver = PuzzleSolver::new();
    let a = solver.add_rows(2);
    let b = solver.add_rows(2);
    solver.add_column(vec![a]);
    // the count-one column comes first on the walk, the empty one later
    solver.add_column(vec![b]);
    solver.deselect_row(b);
    assert_eq!(all_solutions(&mut solver), Vec::<Vec<usize>>::new());
}

fn holes_puzzle(k: usize, budget: usize) -> PuzzleSolver {
    let mut solver = PuzzleSolver::new();
    let group = solver.new_conditional_constraint(budget);
    assert_eq!(group, 0);
    for _ in 0..k {
        let take = solver.add_rows(2);
        solver.add_conditional_column(vec![take], group);
    }
    solver
}

#[test]
fn isolated_conditional_columns_may_each_be_skipped_or_taken() {
    for k in 0..6usize {
        let mut solver = holes_puzzle(k, k);
        let found = all_solutions(&mut solver);
        assert_eq!(found.len(), 1 << k);
        let mut sorted = found.clone();
        sorted.sort();
        sorted.dedup();
        assert_eq!(sorted.len(), found.len());
    }
}

#[test]
fn hole_budget_limits_the_skipped_columns() {
    // three columns, at most one hole: all taken, or one skipped
    let mut solver = holes_puzzle(3, 1);
    let found = all_solutions(&mut solver);
    assert_eq!(found.len(), 4);
    for solution in found.iter() {
        let skipped = solution.iter().filter(|&&r| r % 2 == 1).count();
        assert!(skipped <= 1);
    }
    // no hole allowed: every column taken
    let mut solver = holes_puzzle(3, 0);
    assert_eq!(all_solutions(&mut solver), vec![vec![0, 2, 4]]);
}

#[test]
fn constraint_column_forbids_two_rows_together() {
    let mut solver = PuzzleSolver::new();
    let a = solver.add_rows(2);
    let b = solver.add_rows(2);
    solver.add_constraint(vec![a, b]);
    let found = all_solutions(&mut solver);
    assert_eq!(found.len(), 3);
    assert!(!found.contains(&vec![a, b]));
}

#[test]
fn selected_row_is_part_of_every_solution() {
    let mut solver = PuzzleSolver::new();
    let a = solver.add_rows(3);
    let b = solver.add_rows(3);
    solver.add_column(vec![a, b + 1]);
    solver.select_row(a);
    let found = all_solutions(&mut solver);
    assert_eq!(found, vec![vec![a, b], vec![a, b + 2]]);
}

#[test]
fn select_row_gives_the_solutions_that_hold_the_row() {
    let build = || {
        let mut solver = PuzzleSolver::new();
        let a = solver.add_rows(3);
        let b = solver.add_rows(3);
        let c = solver.add_rows(2);
        solver.add_column(vec![a, b + 1, c]);
        solver.add_column(vec![a + 1, b, c + 1]);
        solver
    };
    let mut plain = build();
    let all = all_solutions(&mut plain);
    for row in 0..8usize {
        let mut chosen = build();
        chosen.select_row(row);
        let with_row = all_solutions(&mut chosen);
        let expected: Vec<Vec<usize>> =
            all.iter().filter(|s| s.contains(&row)).cloned().collect();
        let mut got = with_row.clone();
        got.sort();
        let mut want = expected.clone();
        want.sort();
        assert_eq!(got, want);
    }
}

#[test]
fn deselected_row_is_part_of_no_solution() {
    let mut solver = PuzzleSolver::new();
    let a = solver.add_rows(3);
    solver.deselect_row(a + 1);
    assert_eq!(all_solutions(&mut solver), vec![vec![a], vec![a + 2]]);
}

#[test]
fn try_select_row_refuses_a_row_that_is_out() {
    let mut solver = PuzzleSolver::new();
    let a = solver.add_rows(2);
    assert!(solver.row_is_free(a));
    assert!(solver.try_select_row(a));
    assert!(!solver.row_is_free(a));
    assert!(!solver.row_is_free(a + 1));
    assert!(!solver.try_select_row(a + 1));
    assert_eq!(all_solutions(&mut solver), vec![vec![a]]);
}

#[test]
fn two_runs_yield_the_same_sequence() {
    let build = || {
        let mut solver = PuzzleSolver::new();
        let group = solver.new_conditional_constraint(1);
        let a = solver.add_rows(3);
        let b = solver.add_rows(3);
        let c = solver.add_rows(3);
        solver.add_column(vec![a, b, c]);
        solver.add_conditional_column(vec![a + 1, b + 1], group);
        solver.add_conditional_column(vec![b + 2, c + 2], group);
        solver.add_constraint(vec![a + 2, c + 1]);
        solver
    };
    let first = all_solutions(&mut build());
    let second = all_solutions(&mut build());
    assert!(!first.is_empty());
    assert_eq!(first, second);
}

#[test]
fn conditional_index_names_the_group() {
    let unique = Column { column_type: ColumnType::Unique, head: 1, count: 0 };
    let grouped = Column { column_type: ColumnType::ConditionalUnique(7), head: 2, count: 3 };
    let loose = Column { column_type: ColumnType::Constraint, head: 3, count: 1 };
    assert_eq!(unique.conditional_index(), None);
    assert_eq!(grouped.conditional_index(), Some(7));
    assert_eq!(loose.conditional_index(), None);
}

#[test]
fn a_solver_tells_of_its_rows_and_groups() {
    let mut solver = PuzzleSolver::new();
    assert_eq!(solver.row_count(), 0);
    assert_eq!(solver.group_count(), 0);
    assert!(!solver.has_started());
    solver.add_rows(3);
    solver.new_conditional_constraint(1);
    assert_eq!(solver.row_count(), 3);
    assert_eq!(solver.group_count(), 1);
    assert!(!solver.has_started());
    let _ = solver.solve_next();
    assert!(solver.has_started());
    while solver.solve_next().is_some() {}
    assert!(solver.has_started());
}

#[test]
fn rows_of_a_column_are_free_and_named_once() {
    let mut solver = PuzzleSolver::new();
    solver.add_rows(1);
    solver.add_rows(1);
    solver.add_rows(1);
    assert!(solver.rows_can_join(&vec![]));
    assert!(solver.rows_can_join(&vec![2, 0, 1]));
    assert!(!solver.rows_can_join(&vec![0, 1, 0]));
    assert!(!solver.rows_can_join(&vec![0, 3]));
    solver.add_column(vec![0, 1]);
    solver.select_row(0);
    assert!(!solver.rows_can_join(&vec![0]));
    assert!(!solver.rows_can_join(&vec![1]));
    assert!(solver.rows_can_join(&vec![2]));
}

#[test]
fn an_empty_conditional_column_is_a_hole_from_the_start() {
    // no hole allowed: the empty column is one too many
    let mut solver = PuzzleSolver::new();
    let group = solver.new_conditional_constraint(0);
    solver.add_conditional_column(vec![], group);
    assert_eq!(solver.solve_next(), None);

    // one hole allowed: the empty column uses it up
    let mut solver = PuzzleSolver::new();
    let group = solver.new_conditional_constraint(1);
    let row = solver.add_rows(2);
    solver.add_conditional_column(vec![], group);
    solver.add_conditional_column(vec![row], group);
    assert_eq!(all_solutions(&mut solver), vec![vec![row]]);

    // two empty columns are two holes
    let mut solver = PuzzleSolver::new();
    let group = solver.new_conditional_constraint(1);
    solver.add_rows(1);
    solver.add_conditional_column(vec![], group);
    solver.add_conditional_column(vec![], group);
    assert_eq!(all_solutions(&mut solver), Vec::<Vec<usize>>::new());

    // with a budget of two both may stay empty
    let mut solver = PuzzleSolver::new();
    let group = solver.new_conditional_constraint(2);
    solver.add_rows(1);
    solver.add_conditional_column(vec![], group);
    solver.add_conditional_column(vec![], group);
    assert_eq!(all_solutions(&mut solver), vec![vec![0]]);
}

#[test]
fn empty_unique_and_constraint_columns_are_admitted() {
    let mut solver = PuzzleSolver::new();
    solver.add_rows(2);
    solver.add_constraint(vec![]);
    assert_eq!(all_solutions(&mut solver), vec![vec![0], vec![1]]);
    let mut solver = PuzzleSolver::new();
    solver.add_rows(2);
    solver.add_column(vec![]);
    assert_eq!(all_solutions(&mut solver), Vec::<Vec<usize>>::new());
}

#[test]
fn taking_a_row_away_twice_is_taking_it_away_once() {
    let build = || {
        let mut solver = PuzzleSolver::new();
        let group = solver.new_conditional_constraint(1);
        let a = solver.add_rows(3);
        let b = solver.add_rows(2);
        solver.add_column(vec![a, b]);
        solver.add_conditional_column(vec![a + 1], group);
        solver.add_constraint(vec![a + 2, b + 1]);
        solver
    };
    for row in 0..5 {
        let mut once = build();
        once.deselect_row(row);
        let mut twice = build();
        twice.deselect_row(row);
        twice.deselect_row(row);
        assert!(!twice.row_is_free(row));
        assert_eq!(all_solutions(&mut once), all_solutions(&mut twice));
    }
}

#[test]
fn taking_the_only_row_of_a_conditional_column_away_makes_it_a_hole() {
    let mut solver = PuzzleSolver::new();
    let group = solver.new_conditional_constraint(0);
    let row = solver.add_rows(2);
    solver.add_conditional_column(vec![row], group);
    // with the row the column can be covered
    let mut other = PuzzleSolver::new();
    let g = other.new_conditional_constraint(0);
    let r = other.add_rows(2);
    other.add_conditional_column(vec![r], g);
    assert_eq!(all_solutions(&mut other), vec![vec![r]]);
    // without it the column is a hole, and none is allowed
    solver.deselect_row(row);
    assert_eq!(all_solutions(&mut solver), Vec::<Vec<usize>>::new());
}

#[test]
fn k_pairs_have_two_to_the_k_covers() {
    for k in 0..9usize {
        let mut solver = pairs_puzzle(k);
        let found = all_solutions(&mut solver);
        assert_eq!(found.len(), 1 << k);
        let mut sorted = found.clone();
        sorted.sort();
        sorted.dedup();
        assert_eq!(sorted.len(), found.len());
        for cover in found.iter() {
            assert_eq!(cover.len(), k);
            for (pair, &row) in cover.iter().enumerate() {
                assert!(row == 2 * pair || row == 2 * pair + 1);
            }
        }
    }
}
