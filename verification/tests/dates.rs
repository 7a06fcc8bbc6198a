use puzzle_solver::calendar::DayOfWeek;
use puzzle_solver::dates::{
    calendar_of_date, date_or_complaint, holes_of_date, parse_date, start_calendar, CalendarArgs,
    CalendarDate,
};
use puzzle_solver::tile::Point;

fn day(year: i32, month: u32, day: u32, weekday: DayOfWeek) -> CalendarDate {
    CalendarDate { year, month, day, weekday }
}

fn cell(x: i32, y: i32) -> Point {
    Point { x, y }
}

#[test]
fn dates_are_read() {
    assert_eq!(parse_date("2024-01-01"), Ok(day(2024, 1, 1, DayOfWeek::Mon)));
    assert_eq!(parse_date("2024-02-29"), Ok(day(2024, 2, 29, DayOfWeek::Thu)));
    assert_eq!(parse_date("1999-12-31"), Ok(day(1999, 12, 31, DayOfWeek::Fri)));
    assert_eq!(parse_date("2023-07-09"), Ok(day(2023, 7, 9, DayOfWeek::Sun)));
}

#[test]
fn every_day_of_the_week_is_read() {
    // 2024-01-01 was a Monday.
    let week = [
        DayOfWeek::Mon,
        DayOfWeek::Tue,
        DayOfWeek::Wed,
        DayOfWeek::Thu,
        DayOfWeek::Fri,
        DayOfWeek::Sat,
        DayOfWeek::Sun,
    ];
    for (offset, weekday) in week.iter().enumerate() {
        let text = format!("2024-01-{:02}", 1 + offset);
        assert_eq!(parse_date(&text), Ok(day(2024, 1, 1 + offset as u32, *weekday)));
    }
}

#[test]
fn what_is_no_date_is_answered_with_a_complaint() {
    assert_eq!(
        parse_date("2023-02-29"),
        Err("Invalid date: 2023-02-29".to_string())
    );
    assert_eq!(parse_date("today"), Err("Invalid date: today".to_string()));
    assert_eq!(parse_date(""), Err("Invalid date: ".to_string()));
    assert_eq!(
        parse_date("2024/01/01"),
        Err("Invalid date: 2024/01/01".to_string())
    );
    assert_eq!(
        parse_date("2024-13-01"),
        Err("Invalid date: 2024-13-01".to_string())
    );
}

#[test]
fn a_date_that_was_read_is_handed_on() {
    let date = day(2024, 5, 6, DayOfWeek::Mon);
    assert_eq!(date_or_complaint(Some(date), "whatever"), Ok(date));
    assert_eq!(
        date_or_complaint(None, "x"),
        Err("Invalid date: x".to_string())
    );
}

#[test]
fn new_year_2024_leaves_its_three_cells_open() {
    assert_eq!(
        holes_of_date(&parse_date("2024-01-01").unwrap()),
        vec![cell(0, 0), cell(0, 2), cell(3, 7)]
    );
}

#[test]
fn leap_day_2024_leaves_its_three_cells_open() {
    assert_eq!(
        holes_of_date(&parse_date("2024-02-29").unwrap()),
        vec![cell(1, 0), cell(4, 6), cell(2, 8)]
    );
}

#[test]
fn every_day_of_the_week_has_its_cell() {
    let cells = [
        cell(3, 7),
        cell(4, 7),
        cell(5, 7),
        cell(2, 8),
        cell(3, 8),
        cell(4, 8),
        cell(5, 8),
    ];
    for (offset, expected) in cells.iter().enumerate() {
        let text = format!("2024-01-{:02}", 1 + offset);
        let holes = holes_of_date(&parse_date(&text).unwrap());
        assert_eq!(holes[2], *expected);
    }
}

#[test]
fn months_and_days_have_their_cells() {
    let holes = holes_of_date(&parse_date("2023-12-31").unwrap());
    assert_eq!(holes[0], cell(5, 1));
    assert_eq!(holes[1], cell(0, 7));
    let holes = holes_of_date(&parse_date("2023-07-06").unwrap());
    assert_eq!(holes[0], cell(0, 1));
    assert_eq!(holes[1], cell(5, 2));
    let holes = holes_of_date(&parse_date("2023-06-07").unwrap());
    assert_eq!(holes[0], cell(5, 0));
    assert_eq!(holes[1], cell(0, 3));
}

#[test]
fn the_puzzle_of_a_date_is_solved() {
    let mut puzzle = calendar_of_date(&day(2024, 1, 1, DayOfWeek::Mon), true);
    let mut count = 0;
    while puzzle.solver.solve_next().is_some() {
        count += 1;
    }
    assert_eq!(count, 46);
}

#[test]
fn the_date_that_is_asked_for_is_taken() {
    let args = CalendarArgs {
        date: Some(day(2024, 2, 29, DayOfWeek::Thu)),
        no_gravity: false,
        all: false,
        count: true,
    };
    let mut puzzle = start_calendar(&args, &day(2024, 1, 1, DayOfWeek::Mon));
    let mut count = 0;
    while puzzle.solver.solve_next().is_some() {
        count += 1;
    }
    assert_eq!(count, 14);
}

#[test]
fn without_a_date_today_is_taken() {
    let args = CalendarArgs {
        date: None,
        no_gravity: true,
        all: false,
        count: false,
    };
    let today = day(2024, 1, 1, DayOfWeek::Mon);
    let mut puzzle = start_calendar(&args, &today);
    let mut other = calendar_of_date(&today, false);
    loop {
        let left = puzzle.solver.solve_next();
        let right = other.solver.solve_next();
        assert_eq!(left, right);
        if left.is_none() {
            break;
        }
    }
}
