//! Dates of the calendar, read with `chrono`: what the puzzle takes from a
//! date is its month, its day and its day of the week.

use crate::calendar::{
    all_stands, build_calendar, calendar_matrix, date_cells, date_holes, sound, stands,
    CalendarPuzzle, DayOfWeek, PIECES,
};
use crate::text::words;
use crate::tile::Point;
use chrono::Datelike;
use vstd::prelude::*;

verus! {

/// A date: its year, its month from 1 to 12, its day from 1 to 31, and its
/// day of the week.
#[derive(Clone, Copy, Debug, PartialEq, Eq)]
pub struct CalendarDate {
    pub year: i32,
    pub month: u32,
    pub day: u32,
    pub weekday: DayOfWeek,
}

impl CalendarDate {
    /// Month and day are in their ranges.
    pub open spec fn valid(&self) -> bool {
        1 <= self.month <= 12 && 1 <= self.day <= 31
    }
}

/// What the command for the calendar is asked.
pub struct CalendarArgs {
    /// The date to solve; without one, today.
    pub date: Option<CalendarDate>,
    /// Pieces need nothing to rest on.
    pub no_gravity: bool,
    /// Show all solutions.
    pub all: bool,
    /// Count the solutions.
    pub count: bool,
}

/// The date that `chrono` reads in a text written as year, month and day
/// with `-` between them, if it reads one.
pub uninterp spec fn date_in_text(text: Seq<char>) -> Option<CalendarDate>;

/// Reads a date by `NaiveDate::parse_from_str` of `chrono` with the format
/// `%Y-%m-%d`, and takes year, month, day and day of the week from it by
/// `Datelike::year`, `month`, `day` and `weekday`. The text decides the
/// outcome; of a date that was read, the month is one from 1 to 12 and the
/// day one from 1 to 31.
#[verifier::external_body]
fn read_date(s: &str) -> (date: Option<CalendarDate>)
    ensures
        date == date_in_text(s@),
        date matches Some(d) ==> d.valid(),
{
    match chrono::NaiveDate::parse_from_str(s, "%Y-%m-%d") {
        Ok(date) => Some(CalendarDate {
            year: date.year(), month: date.month(), day: date.day(),
            weekday: match date.weekday() {
                chrono::Weekday::Mon => DayOfWeek::Mon,
                chrono::Weekday::Tue => DayOfWeek::Tue,
                chrono::Weekday::Wed => DayOfWeek::Wed,
                chrono::Weekday::Thu => DayOfWeek::Thu,
                chrono::Weekday::Fri => DayOfWeek::Fri,
                chrono::Weekday::Sat => DayOfWeek::Sat,
                chrono::Weekday::Sun => DayOfWeek::Sun,
            },
        }),
        Err(_) => None,
    }
}

/// What is said of a text that is no date.
pub open spec fn date_complaint(s: Seq<char>) -> Seq<char> {
    "Invalid date: "@ + s
}

/// The date that was read, or the complaint about the text.
pub fn date_or_complaint(outcome: Option<CalendarDate>, s: &str) -> (r: Result<
    CalendarDate,
    String,
>)
    ensures
        match outcome {
            Some(date) => r == Ok::<CalendarDate, String>(date),
            None => r is Err && r->Err_0@ == date_complaint(s@),
        },
{
    match outcome {
        Some(date) => Ok(date),
        None => Err(words("Invalid date: ", s)),
    }
}

/// Reads a date. A text that is none is answered with the complaint about
/// it.
pub fn parse_date(s: &str) -> (r: Result<CalendarDate, String>)
    ensures
        match date_in_text(s@) {
            Some(date) => r == Ok::<CalendarDate, String>(date) && date.valid(),
            None => r is Err && r->Err_0@ == date_complaint(s@),
        },
{
    date_or_complaint(read_date(s), s)
}

/// The cells that stay open for a date.
pub open spec fn cells_of_date(date: CalendarDate) -> Seq<Point> {
    date_cells(date.month as int, date.day as int, date.weekday)
}

/// The three cells that stay open for the date: that of its month, that of
/// its day and that of its day of the week.
pub fn holes_of_date(date: &CalendarDate) -> (holes: Vec<Point>)
    requires
        date.valid(),
    ensures
        holes@ == cells_of_date(*date),
{
    date_holes(date.month, date.day, date.weekday)
}

/// The puzzle is that of a board with the given open cells: its matrix is
/// that of the board, its placements are all the places at which a piece
/// may stand, in their order, each of them one that fits, and nothing is
/// decided about any of its rows.
pub open spec fn is_calendar_of(puzzle: CalendarPuzzle, holes: Seq<Point>, gravity: bool) -> bool {
    &&& puzzle.solver@ == calendar_matrix(holes, gravity)
    &&& stands(puzzle.placements@) == all_stands(holes, gravity, PIECES as int)
    &&& forall|i: int|
        0 <= i < puzzle.placements@.len() ==> sound(#[trigger] puzzle.placements@[i]@, holes)
    &&& forall|i: int|
        0 <= i < puzzle.placements@.len() ==> (#[trigger] puzzle.placements@[i]).piece < PIECES
    &&& forall|r: int| 0 <= r < puzzle.placements@.len() ==> #[trigger] puzzle.solver.is_fresh(r)
}

/// Builds the puzzle for a date.
pub fn calendar_of_date(date: &CalendarDate, has_gravity: bool) -> (puzzle: CalendarPuzzle)
    requires
        date.valid(),
    ensures
        puzzle.wf(),
        !puzzle.solver.started(),
        is_calendar_of(puzzle, cells_of_date(*date), has_gravity),
{
    let holes = holes_of_date(date);
    build_calendar(&holes, has_gravity)
}

/// The date that is asked for: without one, today.
pub open spec fn date_asked(args: &CalendarArgs, today: CalendarDate) -> CalendarDate {
    match args.date {
        Some(date) => date,
        None => today,
    }
}

/// Builds the puzzle that is asked for: that of the date, or without one
/// that of today, with gravity unless it is switched off.
pub fn start_calendar(args: &CalendarArgs, today: &CalendarDate) -> (puzzle: CalendarPuzzle)
    requires
        date_asked(args, *today).valid(),
    ensures
        puzzle.wf(),
        !puzzle.solver.started(),
        is_calendar_of(puzzle, cells_of_date(date_asked(args, *today)), !args.no_gravity),
{
    match &args.date {
        Some(date) => calendar_of_date(date, !args.no_gravity),
        None => calendar_of_date(today, !args.no_gravity),
    }
}

} // verus!
