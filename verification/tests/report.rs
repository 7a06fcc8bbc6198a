use puzzle_solver::report::{
    calendar_heading, closing, next_step, sudoku_heading, total_line, Closing,
};
use puzzle_solver::text::{append_decimal, words};

#[test]
fn all_solutions_are_shown_under_their_numbers() {
    let first = next_step(true, false, 0);
    assert!(!first.blank_line);
    assert_eq!(first.number, Some(1));
    assert!(first.draw);
    assert!(first.go_on);
    let later = next_step(true, true, 41);
    assert!(later.blank_line);
    assert_eq!(later.number, Some(42));
    assert!(later.draw);
    assert!(later.go_on);
}

#[test]
fn one_solution_is_shown_and_the_search_ends() {
    let step = next_step(false, false, 0);
    assert!(!step.blank_line);
    assert_eq!(step.number, None);
    assert!(step.draw);
    assert!(!step.go_on);
}

#[test]
fn counting_shows_the_first_and_goes_on() {
    let first = next_step(false, true, 0);
    assert!(first.draw);
    assert!(first.go_on);
    assert_eq!(first.number, None);
    let second = next_step(false, true, 1);
    assert!(!second.draw);
    assert!(!second.blank_line);
    assert!(second.go_on);
}

#[test]
fn the_end_tells_of_no_solution_or_of_the_total() {
    assert_eq!(closing(0, false), Closing::NoSolution);
    assert_eq!(closing(0, true), Closing::NoSolution);
    assert_eq!(closing(3, true), Closing::Total(3));
    assert_eq!(closing(3, false), Closing::Silent);
}

#[test]
fn totals_are_worded() {
    assert_eq!(total_line(1), "Total 1 solution.");
    assert_eq!(total_line(2), "Total 2 solutions.");
    assert_eq!(total_line(46), "Total 46 solutions.");
    assert_eq!(total_line(0), "Total 0 solutions.");
    assert_eq!(total_line(1000), "Total 1000 solutions.");
}

#[test]
fn headings_are_worded() {
    assert_eq!(calendar_heading(1), "1:");
    assert_eq!(calendar_heading(120), "120:");
    assert_eq!(sudoku_heading(7), "7: ");
}

#[test]
fn numbers_are_written_in_decimal() {
    let mut text = String::from("n=");
    append_decimal(&mut text, 0);
    assert_eq!(text, "n=0");
    let mut text = String::new();
    append_decimal(&mut text, 9);
    append_decimal(&mut text, 10);
    append_decimal(&mut text, 907);
    assert_eq!(text, "910907");
    let mut text = String::new();
    append_decimal(&mut text, usize::MAX);
    assert_eq!(text, usize::MAX.to_string());
}

#[test]
fn words_are_put_together() {
    assert_eq!(words("Invalid date: ", "x"), "Invalid date: x");
    assert_eq!(words("", ""), "");
}
