use puzzle_solver::sudoku::{
    build_sudoku, decode_solution, default_alphabet, parse_size, read_board,
};
use puzzle_solver::text::chars_of;

fn solve_all(size: (usize, usize), text: &str, limit: usize) -> Vec<String> {
    let n = size.0 * size.1;
    let alphabet = default_alphabet(n);
    let cells = read_board(&chars_of(text), &alphabet, n).unwrap();
    let mut found = vec![];
    if let Some(mut solver) = build_sudoku(size.0, size.1, &cells) {
        while found.len() < limit {
            match solver.solve_next() {
                Some(solution) => {
                    let board = decode_solution(&solution, n);
                    let mut line = String::new();
                    for row in board.iter() {
                        for &digit in row.iter() {
                            line.push(alphabet[digit - 1]);
                        }
                    }
                    found.push(line);
                }
                None => break,
            }
        }
    }
    found
}

#[test]
fn classic_puzzle_has_its_one_solution() {
    let found = solve_all(
        (3, 3),
        "530070000600195000098000060800060003400803001700020006060000280000419005000080079",
        10,
    );
    assert_eq!(
        found,
        vec![
            "534678912672195348198342567859761423426853791713924856961537284287419635345286179"
                .to_string()
        ]
    );
}

#[test]
fn small_puzzle_has_exactly_one_solution() {
    let found = solve_all((2, 2), "1000020000304000", 10);
    assert_eq!(found.len(), 1);
}

fn is_valid(board: &str, size: (usize, usize)) -> bool {
    let n = size.0 * size.1;
    let cells: Vec<char> = board.chars().collect();
    let full = |group: Vec<char>| {
        let mut seen = group.clone();
        seen.sort();
        seen.dedup();
        seen.len() == n
    };
    for i in 0..n {
        if !full((0..n).map(|j| cells[i * n + j]).collect()) {
            return false;
        }
        if !full((0..n).map(|j| cells[j * n + i]).collect()) {
            return false;
        }
        let (br, bc) = (i / size.0 * size.0, i % size.0 * size.1);
        if !full((0..n).map(|j| cells[(br + j / size.1) * n + bc + j % size.1]).collect()) {
            return false;
        }
    }
    true
}

#[test]
fn first_solutions_of_the_blank_board_are_valid_and_distinct() {
    let blank = ".".repeat(81);
    let found = solve_all((3, 3), &blank, 1000);
    assert_eq!(found.len(), 1000);
    for board in found.iter() {
        assert!(is_valid(board, (3, 3)));
    }
    let mut distinct = found.clone();
    distinct.sort();
    distinct.dedup();
    assert_eq!(distinct.len(), 1000);
}

#[test]
fn blank_small_board_has_288_solutions() {
    let found = solve_all((2, 2), "................", 1000);
    assert_eq!(found.len(), 288);
    for board in found.iter() {
        assert!(is_valid(board, (2, 2)));
    }
}

#[test]
fn oblong_boxes_are_solved() {
    let found = solve_all((2, 3), &".".repeat(36), 50);
    assert_eq!(found.len(), 50);
    for board in found.iter() {
        assert!(is_valid(board, (2, 3)));
    }
}

#[test]
fn clashing_givens_leave_no_solver() {
    let n = 4;
    let alphabet = default_alphabet(n);
    let cells = read_board(&chars_of("1100000000000000"), &alphabet, n).unwrap();
    assert!(build_sudoku(2, 2, &cells).is_none());
}

#[test]
fn sizes_are_read() {
    assert_eq!(parse_size("4"), Ok((2, 2)));
    assert_eq!(parse_size("9"), Ok((3, 3)));
    assert_eq!(parse_size("16"), Ok((4, 4)));
    assert_eq!(parse_size("25"), Ok((5, 5)));
    assert_eq!(parse_size("2x3"), Ok((2, 3)));
    assert_eq!(parse_size("+2x03"), Ok((2, 3)));
    assert_eq!(parse_size("3x3x9"), Ok((3, 3)));
    assert_eq!(parse_size("7"), Err("Invalid box size: 7".to_string()));
    assert_eq!(parse_size("ax3"), Err("Invalid box size: ax3".to_string()));
    assert_eq!(parse_size("3x"), Err("Invalid box size: 3x".to_string()));
    assert_eq!(parse_size("x3"), Err("Invalid box size: x3".to_string()));
    assert_eq!(parse_size("-1x3"), Err("Invalid box size: -1x3".to_string()));
    assert_eq!(parse_size(""), Err("Invalid box size: ".to_string()));
    assert_eq!(
        parse_size("99999999999999999999999x1"),
        Err("Invalid box size: 99999999999999999999999x1".to_string())
    );
}

#[test]
fn default_alphabets_follow_the_board_size() {
    let digits: String = default_alphabet(9).into_iter().collect();
    assert_eq!(digits, "123456789");
    let digits: String = default_alphabet(4).into_iter().collect();
    assert_eq!(digits, "123456789");
    let letters: String = default_alphabet(16).into_iter().collect();
    assert_eq!(letters, "ABCDEFGHIJKLMNOP");
    let letters: String = default_alphabet(30).into_iter().collect();
    assert_eq!(letters, "ABCDEFGHIJKLMNOPQRSTUVWXYZ");
}

#[test]
fn boards_are_read_glyph_by_glyph() {
    let alphabet = default_alphabet(4);
    let cells = read_board(&chars_of("1.3 2049xxxxxxxx"), &alphabet, 4).unwrap();
    assert_eq!(cells, vec![1, 0, 3, 0, 2, 0, 4, 0, 0, 0, 0, 0, 0, 0, 0, 0]);
    assert_eq!(read_board(&chars_of("123"), &alphabet, 4), None);
}

#[test]
fn solution_rows_are_decoded() {
    // cell (1, 0) of a board of size 2 gets digit 2, cell (0, 1) digit 1
    let board = decode_solution(&vec![(1 * 2 + 0) * 2 + 1, (0 * 2 + 1) * 2 + 0], 2);
    assert_eq!(board, vec![vec![0, 1], vec![2, 0]]);
}
