use puzzle_solver::calendar::{build_calendar, date_holes, draw_calendar, paint_board, DayOfWeek};
use puzzle_solver::sudoku::{draw_sudoku, start_sudoku, SudokuArgs, SudokuFault};

fn as_text(lines: &[Vec<char>]) -> Vec<String> {
    lines.iter().map(|line| line.iter().collect::<String>()).collect()
}

fn asked(size: Option<(usize, usize)>, alphabet: Option<&str>) -> SudokuArgs {
    SudokuArgs {
        size,
        alphabet: alphabet.map(|a| a.to_string()),
        all: false,
        count: false,
    }
}

#[test]
fn a_small_sudoku_is_solved_and_drawn() {
    let mut puzzle = start_sudoku(&asked(Some((2, 2)), None), "1000020000304000").unwrap();
    let drawing = puzzle.next_drawing().unwrap().unwrap();
    assert_eq!(
        as_text(&drawing),
        vec![
            "┌─────┬─────┐",
            "│ 1 4 │ 2 3 │",
            "│ 3 2 │ 4 1 │",
            "├─────┼─────┤",
            "│ 2 1 │ 3 4 │",
            "│ 4 3 │ 1 2 │",
            "└─────┴─────┘",
        ]
    );
    assert!(puzzle.next_drawing().is_none());
}

#[test]
fn the_board_is_nine_by_nine_unless_asked_otherwise() {
    let board = "53..7....6..195....98....6.8...6...34..8.3..17...2...6.6....28....419..5....8..79";
    let mut puzzle = start_sudoku(&asked(None, None), board).unwrap();
    assert_eq!((puzzle.box_rows, puzzle.box_columns), (3, 3));
    let drawing = puzzle.next_drawing().unwrap().unwrap();
    assert_eq!(
        as_text(&drawing),
        vec![
            "┌───────┬───────┬───────┐",
            "│ 5 3 4 │ 6 7 8 │ 9 1 2 │",
            "│ 6 7 2 │ 1 9 5 │ 3 4 8 │",
            "│ 1 9 8 │ 3 4 2 │ 5 6 7 │",
            "├───────┼───────┼───────┤",
            "│ 8 5 9 │ 7 6 1 │ 4 2 3 │",
            "│ 4 2 6 │ 8 5 3 │ 7 9 1 │",
            "│ 7 1 3 │ 9 2 4 │ 8 5 6 │",
            "├───────┼───────┼───────┤",
            "│ 9 6 1 │ 5 3 7 │ 2 8 4 │",
            "│ 2 8 7 │ 4 1 9 │ 6 3 5 │",
            "│ 3 4 5 │ 2 8 6 │ 1 7 9 │",
            "└───────┴───────┴───────┘",
        ]
    );
    assert!(puzzle.next_drawing().is_none());
}

#[test]
fn glyphs_of_the_alphabet_are_read_and_drawn() {
    let mut puzzle = start_sudoku(&asked(Some((2, 2)), Some("abcd")), "a....b....c.d...").unwrap();
    let drawing = puzzle.next_drawing().unwrap().unwrap();
    assert_eq!(as_text(&drawing)[1], "│ a d │ b c │");
    assert_eq!(as_text(&drawing)[5], "│ d c │ a b │");
}

#[test]
fn a_board_of_the_wrong_length_is_refused() {
    assert_eq!(
        start_sudoku(&asked(Some((2, 2)), None), "100002000030400").err(),
        Some(SudokuFault::BoardLength)
    );
    assert_eq!(
        start_sudoku(&asked(None, None), "1000020000304000").err(),
        Some(SudokuFault::BoardLength)
    );
    assert_eq!(
        start_sudoku(&asked(Some((2, 2)), None), "").err(),
        Some(SudokuFault::BoardLength)
    );
}

#[test]
fn givens_that_exclude_each_other_are_refused() {
    assert_eq!(
        start_sudoku(&asked(Some((2, 2)), None), "1100000000000000").err(),
        Some(SudokuFault::Clash)
    );
}

#[test]
fn a_board_too_large_to_count_is_refused() {
    assert_eq!(
        start_sudoku(&asked(Some((usize::MAX, 2)), None), "").err(),
        Some(SudokuFault::TooLarge)
    );
    assert_eq!(
        start_sudoku(&asked(Some((1 << 11, 1 << 11)), None), "").err(),
        Some(SudokuFault::TooLarge)
    );
}

#[test]
fn a_solution_without_a_glyph_is_not_drawn() {
    let mut puzzle = start_sudoku(&asked(Some((2, 2)), Some("ab")), "a...............").unwrap();
    assert_eq!(puzzle.next_drawing(), Some(None));
}

#[test]
fn rows_that_leave_a_cell_open_are_not_drawn() {
    let alphabet: Vec<char> = "1234".chars().collect();
    assert_eq!(draw_sudoku(&vec![0, 5], 2, 2, &alphabet), None);
    assert_eq!(draw_sudoku(&vec![64], 2, 2, &alphabet), None);
    let full: Vec<usize> = (0..16).map(|cell| cell * 4).collect();
    let drawing = draw_sudoku(&full, 2, 2, &alphabet).unwrap();
    assert_eq!(as_text(&drawing)[1], "│ 1 1 │ 1 1 │");
}

#[test]
fn a_solution_of_the_calendar_is_painted_and_drawn() {
    let holes = date_holes(1, 1, DayOfWeek::Mon);
    let mut puzzle = build_calendar(&holes, true);
    let solution = puzzle.solver.solve_next().unwrap();
    let board = paint_board(&puzzle.placements, &solution);
    assert_eq!(board.len(), 9);
    let mut sizes = [0usize; 10];
    for row in board.iter() {
        assert_eq!(row.len(), 6);
        for &color in row.iter() {
            assert!(color <= 9);
            sizes[color] += 1;
        }
    }
    assert_eq!(sizes, [3, 5, 5, 5, 6, 6, 6, 6, 6, 6]);
    assert_eq!(board[0][0], 0);
    assert_eq!(board[2][0], 0);
    assert_eq!(board[7][3], 0);

    let drawing = as_text(&draw_calendar(&puzzle.placements, &solution));
    assert_eq!(drawing.len(), 19);
    for line in drawing.iter() {
        assert_eq!(line.chars().count(), 25);
    }
    let marks: usize = drawing
        .iter()
        .map(|line| line.chars().filter(|&c| c == 'x').count())
        .sum();
    assert_eq!(marks, 3);
    assert!(drawing[1].starts_with("│ x │"));
    assert!(drawing[0].starts_with("┌───┬"));
    assert!(drawing[18].starts_with("└"));
    assert!(drawing[18].ends_with("┘"));
}

#[test]
fn drawings_come_one_after_the_other() {
    let holes = date_holes(2, 29, DayOfWeek::Thu);
    let mut puzzle = build_calendar(&holes, true);
    let mut other = build_calendar(&holes, true);
    let mut count = 0;
    while let Some(drawing) = puzzle.next_drawing() {
        let solution = other.solver.solve_next().unwrap();
        assert_eq!(drawing, draw_calendar(&other.placements, &solution));
        count += 1;
    }
    assert!(other.solver.solve_next().is_none());
    assert_eq!(count, 14);
}

#[test]
fn nothing_is_painted_without_placements() {
    let holes = date_holes(1, 1, DayOfWeek::Mon);
    let puzzle = build_calendar(&holes, true);
    let board = paint_board(&puzzle.placements, &vec![]);
    assert_eq!(board, vec![vec![0usize; 6]; 9]);
    let board = paint_board(&puzzle.placements, &vec![0]);
    let painted: usize = board.iter().map(|row| row.iter().filter(|&&c| c == 1).count()).sum();
    assert_eq!(painted, 5);
}
