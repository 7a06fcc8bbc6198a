//! What a command says of the solutions it finds: which of them it shows,
//! whether it goes on looking, and how it ends.

use crate::text::{append_decimal, decimal};
use vstd::prelude::*;
use vstd::string::StringExecFns;

verus! {

/// What is done with a solution that was found.
pub struct Step {
    /// An empty line comes first.
    pub blank_line: bool,
    /// The solution is shown under its number, counted from 1.
    pub number: Option<usize>,
    /// The solution is drawn.
    pub draw: bool,
    /// The search goes on after it.
    pub go_on: bool,
}

/// What is done with the solution that was found after `index` others:
/// where all are shown, each is drawn under its number, an empty line
/// between two of them; otherwise the first is drawn, and the search goes
/// on only to count.
pub open spec fn step_for(show_all: bool, count_solutions: bool, index: usize) -> Step {
    if show_all {
        Step {
            blank_line: index != 0,
            number: Some((index + 1) as usize),
            draw: true,
            go_on: true,
        }
    } else {
        Step { blank_line: false, number: None, draw: index == 0, go_on: count_solutions }
    }
}

/// Decides what is done with the solution that was found after `index`
/// others.
pub fn next_step(show_all: bool, count_solutions: bool, index: usize) -> (step: Step)
    requires
        index < usize::MAX,
    ensures
        step == step_for(show_all, count_solutions, index),
{
    if show_all {
        Step { blank_line: index != 0, number: Some(index + 1), draw: true, go_on: true }
    } else {
        Step { blank_line: false, number: None, draw: index == 0, go_on: count_solutions }
    }
}

/// How a command ends.
#[derive(Debug, PartialEq, Eq)]
pub enum Closing {
    /// Nothing was found, and that is said.
    NoSolution,
    /// The number of solutions is said.
    Total(usize),
    /// Nothing more is said.
    Silent,
}

/// How a command ends after it found `solution_count` solutions.
pub open spec fn closing_for(solution_count: usize, count_solutions: bool) -> Closing {
    if solution_count == 0 {
        Closing::NoSolution
    } else if count_solutions {
        Closing::Total(solution_count)
    } else {
        Closing::Silent
    }
}

/// Decides how a command ends.
pub fn closing(solution_count: usize, count_solutions: bool) -> (end: Closing)
    ensures
        end == closing_for(solution_count, count_solutions),
{
    if solution_count == 0 {
        Closing::NoSolution
    } else if count_solutions {
        Closing::Total(solution_count)
    } else {
        Closing::Silent
    }
}

/// The words for a number of solutions.
pub open spec fn total_words(count: usize, ending: Seq<char>) -> Seq<char> {
    "Total "@ + decimal(count as nat) + " solution"@ + ending + "."@
}

/// The line that says how many solutions were found: of one `solution`,
/// of any other number `solutions`.
pub fn total_line(count: usize) -> (line: String)
    ensures
        line@ == total_words(
            count,
            if count == 1 {
                ""@
            } else {
                "s"@
            },
        ),
{
    let mut line = String::from_str("Total ");
    append_decimal(&mut line, count);
    line.append(" solution");
    if count == 1 {
        line.append("");
    } else {
        line.append("s");
    }
    line.append(".");
    line
}

/// The words over a solution that is shown under its number.
pub open spec fn heading_words(number: usize, ending: Seq<char>) -> Seq<char> {
    decimal(number as nat) + ending
}

/// The heading of a solution of the calendar: its number and a colon.
pub fn calendar_heading(number: usize) -> (line: String)
    ensures
        line@ == heading_words(number, ":"@),
{
    let mut line = String::from_str("");
    append_decimal(&mut line, number);
    line.append(":");
    proof {
        reveal_strlit("");
        assert(line@ =~= heading_words(number, ":"@));
    }
    line
}

/// The heading of a solution of a Sudoku: its number, a colon and a
/// space.
pub fn sudoku_heading(number: usize) -> (line: String)
    ensures
        line@ == heading_words(number, ": "@),
{
    let mut line = String::from_str("");
    append_decimal(&mut line, number);
    line.append(": ");
    proof {
        reveal_strlit("");
        assert(line@ =~= heading_words(number, ": "@));
    }
    line
}

} // verus!
