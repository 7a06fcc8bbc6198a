use puzzle_solver::PuzzleSolver;

#[derive(Clone, Copy)]
enum Kind {
    Unique,
    Conditional(usize),
    Constraint,
}

struct Model {
    /// How many rows each call of `add_rows` added.
    blocks: Vec<usize>,
    /// The columns that were added by themselves.
    columns: Vec<(Kind, Vec<usize>)>,
    budgets: Vec<usize>,
}

impl Model {
    fn rows(&self) -> usize {
        self.blocks.iter().sum()
    }

    /// All columns: first, in this model, those of the blocks of rows.
    fn all_columns(&self) -> Vec<(Kind, Vec<usize>)> {
        let mut all = vec![];
        let mut first = 0;
        for &count in self.blocks.iter() {
            all.push((Kind::Unique, (first..first + count).collect()));
            first += count;
        }
        all.extend(self.columns.iter().cloned());
        all
    }

    fn build(&self) -> PuzzleSolver {
        let mut solver = PuzzleSolver::new();
        for (group, &budget) in self.budgets.iter().enumerate() {
            assert_eq!(solver.new_conditional_constraint(budget), group);
        }
        let mut first = 0;
        for &count in self.blocks.iter() {
            assert_eq!(solver.add_rows(count), first);
            first += count;
        }
        for (kind, rows) in self.columns.iter() {
            match kind {
                Kind::Unique => solver.add_column(rows.clone()),
                Kind::Constraint => solver.add_constraint(rows.clone()),
                Kind::Conditional(group) => solver.add_conditional_column(rows.clone(), *group),
            }
        }
        solver
    }
}

struct Dice(u64);

impl Dice {
    fn roll(&mut self, sides: usize) -> usize {
        self.0 = self.0.wrapping_mul(6364136223846793005).wrapping_add(1442695040888963407);
        ((self.0 >> 33) as usize) % sides
    }
}

fn is_exact_cover(model: &Model, chosen: &[bool]) -> bool {
    let mut holes = vec![0usize; model.budgets.len()];
    for (kind, rows) in model.all_columns().iter() {
        let hits = rows.iter().filter(|&&r| chosen[r]).count();
        match kind {
            Kind::Unique => {
                if hits != 1 {
                    return false;
                }
            }
            Kind::Conditional(group) => {
                if hits > 1 {
                    return false;
                }
                if hits == 0 {
                    holes[*group] += 1;
                }
            }
            Kind::Constraint => {
                if hits > 1 {
                    return false;
                }
            }
        }
    }
    holes.iter().zip(model.budgets.iter()).all(|(h, b)| h <= b)
}

fn exact_covers(model: &Model) -> Vec<Vec<usize>> {
    let mut found = vec![];
    let rows = model.rows();
    for mask in 0u32..(1u32 << rows) {
        let chosen: Vec<bool> = (0..rows).map(|r| mask & (1 << r) != 0).collect();
        if is_exact_cover(model, &chosen) {
            found.push((0..rows).filter(|&r| chosen[r]).collect());
        }
    }
    found.sort();
    found
}

fn random_model(dice: &mut Dice, with_groups: bool) -> Model {
    let mut model = Model { blocks: vec![], columns: vec![], budgets: vec![] };
    if with_groups {
        for _ in 0..1 + dice.roll(2) {
            model.budgets.push(dice.roll(3));
        }
    }
    for _ in 0..2 + dice.roll(3) {
        model.blocks.push(1 + dice.roll(3));
    }
    let rows = model.rows();
    for _ in 0..dice.roll(5) {
        let mut listed: Vec<usize> = (0..rows).filter(|_| dice.roll(3) == 0).collect();
        let pick = dice.roll(if with_groups { 4 } else { 3 });
        if pick == 0 {
            model.columns.push((Kind::Unique, listed));
        } else if pick == 1 || pick == 2 {
            model.columns.push((Kind::Constraint, listed));
        } else {
            let group = dice.roll(model.budgets.len());
            model.columns.push((Kind::Conditional(group), listed));
        }
    }
    model
}

fn found_by(solver: &mut PuzzleSolver) -> Vec<Vec<usize>> {
    let mut found = vec![];
    while let Some(solution) = solver.solve_next() {
        found.push(solution);
    }
    found
}

#[test]
fn the_search_finds_the_exact_covers_and_nothing_else() {
    let mut dice = Dice(2024);
    for _ in 0..300 {
        let model = random_model(&mut dice, false);
        let mut found = found_by(&mut model.build());
        let count = found.len();
        found.sort();
        found.dedup();
        assert_eq!(found.len(), count);
        assert_eq!(found, exact_covers(&model));
    }
}

#[test]
fn the_search_keeps_to_the_budgets_of_holes() {
    let mut dice = Dice(7);
    for _ in 0..300 {
        let model = random_model(&mut dice, true);
        let mut found = found_by(&mut model.build());
        let count = found.len();
        found.sort();
        found.dedup();
        assert_eq!(found.len(), count);
        assert_eq!(found, exact_covers(&model));
    }
}

#[test]
fn a_chosen_row_leaves_the_covers_that_hold_it() {
    let mut dice = Dice(99);
    for _ in 0..200 {
        let model = random_model(&mut dice, false);
        let row = dice.roll(model.rows());
        let mut solver = model.build();
        assert!(solver.try_select_row(row));
        let mut found = found_by(&mut solver);
        found.sort();
        let expected: Vec<Vec<usize>> =
            exact_covers(&model).into_iter().filter(|cover| cover.contains(&row)).collect();
        assert_eq!(found, expected);
    }
}

#[test]
fn a_row_taken_away_leaves_the_covers_without_it() {
    let mut dice = Dice(5);
    for _ in 0..200 {
        let model = random_model(&mut dice, false);
        let row = dice.roll(model.rows());
        let mut solver = model.build();
        solver.deselect_row(row);
        let mut found = found_by(&mut solver);
        found.sort();
        let expected: Vec<Vec<usize>> =
            exact_covers(&model).into_iter().filter(|cover| !cover.contains(&row)).collect();
        assert_eq!(found, expected);
    }
}

#[test]
fn choosing_and_taking_away_split_the_covers() {
    let mut dice = Dice(31);
    for _ in 0..200 {
        let model = random_model(&mut dice, true);
        let row = dice.roll(model.rows());
        let mut with = model.build();
        let mut without = model.build();
        assert!(with.try_select_row(row));
        without.deselect_row(row);
        let mut found = found_by(&mut with);
        found.extend(found_by(&mut without));
        found.sort();
        assert_eq!(found, exact_covers(&model));
    }
}

#[test]
fn two_searches_of_one_matrix_hand_out_the_same() {
    let mut dice = Dice(1);
    for _ in 0..100 {
        let model = random_model(&mut dice, true);
        assert_eq!(found_by(&mut model.build()), found_by(&mut model.build()));
    }
}

/// The exact covers in the order in which a search is to find them: at
/// every level the column with the fewest free rows is branched on, the
/// first such on the walk over the columns, and its free rows are tried
/// from the first to the last.
fn covers_in_order(model: &Model) -> Vec<Vec<usize>> {
    let columns = model.all_columns();
    let mut found = vec![];
    let mut path = vec![];
    walk(model, &columns, &mut path, &mut found);
    found
}

fn walk(
    model: &Model,
    columns: &[(Kind, Vec<usize>)],
    path: &mut Vec<usize>,
    found: &mut Vec<Vec<usize>>,
) {
    let clash = |a: usize, b: usize| {
        columns.iter().any(|(_, rows)| rows.contains(&a) && rows.contains(&b))
    };
    let free = |row: usize| path.iter().all(|&chosen| !clash(chosen, row));
    let shut = |rows: &Vec<usize>| path.iter().any(|chosen| rows.contains(chosen));
    let live = |rows: &Vec<usize>| rows.iter().filter(|&&row| free(row)).count();
    let mut holes = vec![0usize; model.budgets.len()];
    for (kind, rows) in columns.iter() {
        if let Kind::Conditional(group) = kind {
            if !shut(rows) && live(rows) == 0 {
                holes[*group] += 1;
            }
        }
    }
    if holes.iter().zip(model.budgets.iter()).any(|(h, b)| h > b) {
        return;
    }
    let all_unique_shut =
        columns.iter().all(|(kind, rows)| !matches!(kind, Kind::Unique) || shut(rows));
    if all_unique_shut {
        let mut cover = path.clone();
        cover.sort();
        found.push(cover);
        return;
    }
    // the walk: unique columns first, then the groups in their order
    let rank = |kind: &Kind, index: usize| match kind {
        Kind::Unique => (0, 0, index),
        Kind::Conditional(group) => (1, *group, index),
        Kind::Constraint => (2, 0, index),
    };
    let mut leader: Option<(usize, (usize, usize, usize), usize)> = None;
    for (index, (kind, rows)) in columns.iter().enumerate() {
        let may_lead = !shut(rows)
            && live(rows) >= 1
            && match kind {
                Kind::Unique => true,
                Kind::Conditional(group) => holes[*group] == model.budgets[*group],
                Kind::Constraint => false,
            };
        if may_lead {
            let key = (live(rows), rank(kind, index), index);
            if leader.map_or(true, |best| (key.0, key.1) < (best.0, best.1)) {
                leader = Some(key);
            }
        }
    }
    let Some((_, _, column)) = leader else {
        return;
    };
    let rows: Vec<usize> = columns[column].1.iter().cloned().filter(|&row| free(row)).collect();
    for row in rows {
        path.push(row);
        walk(model, columns, path, found);
        path.pop();
    }
}

#[test]
fn the_search_finds_the_covers_in_the_order_of_the_columns() {
    let mut dice = Dice(11);
    for _ in 0..300 {
        let model = random_model(&mut dice, false);
        assert_eq!(found_by(&mut model.build()), covers_in_order(&model));
    }
}

#[test]
fn the_search_keeps_the_order_with_groups() {
    let mut dice = Dice(12);
    for _ in 0..300 {
        let model = random_model(&mut dice, true);
        assert_eq!(found_by(&mut model.build()), covers_in_order(&model));
    }
}

#[test]
fn a_cover_that_was_found_can_be_replayed() {
    let mut dice = Dice(77);
    for _ in 0..100 {
        let model = random_model(&mut dice, true);
        for cover in found_by(&mut model.build()) {
            let mut solver = model.build();
            for &row in cover.iter() {
                assert!(solver.row_is_free(row));
                solver.select_row(row);
            }
            assert_eq!(solver.solve_next(), Some(cover.clone()));
            assert_eq!(solver.solve_next(), None);
            assert!(is_exact_cover(
                &model,
                &(0..model.rows()).map(|r| cover.contains(&r)).collect::<Vec<bool>>()
            ));
        }
    }
}
