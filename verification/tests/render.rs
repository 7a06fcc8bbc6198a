use puzzle_solver::render::{draw_digits_board, draw_pieces};

fn text_of(lines: Vec<Vec<char>>) -> Vec<String> {
    lines.iter().map(|line| line.iter().collect::<String>()).collect()
}

#[test]
fn pieces_are_drawn_with_merged_edges() {
    let board = vec![vec![1, 1], vec![0, 2]];
    assert_eq!(
        text_of(draw_pieces(&board)),
        vec!["┌───────┐", "│       │", "├───┬───┤", "│ x │   │", "└───┴───┘"]
    );
}

#[test]
fn pieces_that_run_down_leave_the_line_open() {
    let board = vec![vec![1, 2], vec![1, 2]];
    assert_eq!(
        text_of(draw_pieces(&board)),
        vec!["┌───┬───┐", "│   │   │", "│   │   │", "│   │   │", "└───┴───┘"]
    );
}

#[test]
fn a_single_piece_has_no_lines_inside() {
    let board = vec![vec![3, 3], vec![3, 3]];
    assert_eq!(
        text_of(draw_pieces(&board)),
        vec!["┌───────┐", "│       │", "│       │", "│       │", "└───────┘"]
    );
}

#[test]
fn open_cells_are_never_merged() {
    let board = vec![vec![0, 0], vec![0, 0]];
    assert_eq!(
        text_of(draw_pieces(&board)),
        vec!["┌───┬───┐", "│ x │ x │", "├───┼───┤", "│ x │ x │", "└───┴───┘"]
    );
}

#[test]
fn corners_follow_the_piece() {
    // The piece 1 bends round the cell of piece 2.
    let board = vec![vec![1, 1], vec![1, 2]];
    assert_eq!(
        text_of(draw_pieces(&board)),
        vec!["┌───────┐", "│       │", "│   ┌───┤", "│   │   │", "└───┴───┘"]
    );
    let board = vec![vec![1, 1], vec![2, 1]];
    assert_eq!(
        text_of(draw_pieces(&board)),
        vec!["┌───────┐", "│       │", "├───┐   │", "│   │   │", "└───┴───┘"]
    );
    let board = vec![vec![1, 2], vec![1, 1]];
    assert_eq!(
        text_of(draw_pieces(&board)),
        vec!["┌───┬───┐", "│   │   │", "│   └───┤", "│       │", "└───────┘"]
    );
    let board = vec![vec![2, 1], vec![1, 1]];
    assert_eq!(
        text_of(draw_pieces(&board)),
        vec!["┌───┬───┐", "│   │   │", "├───┘   │", "│       │", "└───────┘"]
    );
}

#[test]
fn tees_and_crossings_are_drawn() {
    let board = vec![vec![1, 1], vec![2, 2]];
    assert_eq!(text_of(draw_pieces(&board))[2], "├───────┤");
    let board = vec![vec![1, 2], vec![3, 3]];
    assert_eq!(text_of(draw_pieces(&board))[2], "├───┴───┤");
    let board = vec![vec![1, 2], vec![1, 3]];
    assert_eq!(text_of(draw_pieces(&board))[2], "│   ├───┤");
    let board = vec![vec![1, 2], vec![3, 2]];
    assert_eq!(text_of(draw_pieces(&board))[2], "├───┤   │");
    let board = vec![vec![1, 2], vec![3, 4]];
    assert_eq!(text_of(draw_pieces(&board))[2], "├───┼───┤");
}

#[test]
fn a_sudoku_is_drawn_with_its_boxes() {
    let board = vec![
        vec![1, 2, 3, 4],
        vec![3, 4, 1, 2],
        vec![2, 1, 4, 3],
        vec![4, 3, 2, 1],
    ];
    let alphabet: Vec<char> = "1234".chars().collect();
    assert_eq!(
        text_of(draw_digits_board(&board, &alphabet, 2, 2)),
        vec![
            "┌─────┬─────┐",
            "│ 1 2 │ 3 4 │",
            "│ 3 4 │ 1 2 │",
            "├─────┼─────┤",
            "│ 2 1 │ 4 3 │",
            "│ 4 3 │ 2 1 │",
            "└─────┴─────┘",
        ]
    );
}

#[test]
fn oblong_boxes_are_framed() {
    let board = vec![
        vec![1, 2, 3, 4, 5, 6],
        vec![4, 5, 6, 1, 2, 3],
        vec![2, 3, 1, 5, 6, 4],
        vec![5, 6, 4, 2, 3, 1],
        vec![3, 1, 2, 6, 4, 5],
        vec![6, 4, 5, 3, 1, 2],
    ];
    let alphabet: Vec<char> = "abcdef".chars().collect();
    assert_eq!(
        text_of(draw_digits_board(&board, &alphabet, 2, 3)),
        vec![
            "┌───────┬───────┐",
            "│ a b c │ d e f │",
            "│ d e f │ a b c │",
            "├───────┼───────┤",
            "│ b c a │ e f d │",
            "│ e f d │ b c a │",
            "├───────┼───────┤",
            "│ c a b │ f d e │",
            "│ f d e │ c a b │",
            "└───────┴───────┘",
        ]
    );
}

#[test]
fn a_board_without_cells_is_a_frame() {
    let board: Vec<Vec<usize>> = vec![];
    let alphabet: Vec<char> = vec![];
    assert_eq!(
        text_of(draw_digits_board(&board, &alphabet, 0, 5)),
        vec!["┌──┐", "└──┘"]
    );
}
