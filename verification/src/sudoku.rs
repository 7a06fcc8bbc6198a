//! Sudoku as an exact cover: boards of any box size.

use crate::dancing_links::{ColumnSpec, ColumnType, Matrix, PuzzleSolver};
use crate::text::{
    chars_of, find_glyph, find_mark, first_mark, glyph_index, number, parse_number, words,
};
use vstd::arithmetic::div_mod::lemma_fundamental_div_mod_converse;
use crate::render::{digits_drawing, draw_digits_board, grid_of, lines_of};
use vstd::prelude::*;

verus! {

/// What a caller asks of the Sudoku solver.
pub struct SudokuArgs {
    /// Rows and columns of a box.
    pub size: Option<(usize, usize)>,
    /// The glyphs that stand for the digits.
    pub alphabet: Option<String>,
    /// Show all solutions.
    pub all: bool,
    /// Count the solutions.
    pub count: bool,
}

/// The box size that a text names: one of the board sizes 4, 9, 16 and 25
/// with square boxes, or rows and columns of a box with an `x` between.
pub open spec fn size_of_text(s: Seq<char>) -> Option<(usize, usize)> {
    if s == seq!['4'] {
        Some((2usize, 2usize))
    } else if s == seq!['9'] {
        Some((3usize, 3usize))
    } else if s == seq!['1', '6'] {
        Some((4usize, 4usize))
    } else if s == seq!['2', '5'] {
        Some((5usize, 5usize))
    } else {
        let first = first_mark(s, 'x', 0);
        if first >= s.len() {
            None
        } else {
            let second = first_mark(s, 'x', first + 1);
            match (number(s.subrange(0, first)), number(s.subrange(first + 1, second))) {
                (Some(rows), Some(columns)) => Some((rows, columns)),
                _ => None,
            }
        }
    }
}

/// What is said of a text that names no box size.
pub open spec fn size_complaint(s: Seq<char>) -> Seq<char> {
    "Invalid box size: "@ + s
}

/// Reads a box size.
pub fn parse_size(s: &str) -> (r: Result<(usize, usize), String>)
    ensures
        match size_of_text(s@) {
            Some(size) => r == Ok::<(usize, usize), String>(size),
            None => r is Err && r->Err_0@ == size_complaint(s@),
        },
{
    let chars = chars_of(s);
    proof {
        assert(chars@.len() == 1 ==> chars@ =~= seq![chars@[0]]);
        assert(chars@.len() == 2 ==> chars@ =~= seq![chars@[0], chars@[1]]);
        assert(seq!['4'].len() == 1 && seq!['9'].len() == 1);
        assert(seq!['1', '6'].len() == 2 && seq!['2', '5'].len() == 2);
        assert(seq!['4'][0] == '4' && seq!['9'][0] == '9');
        assert(seq!['1', '6'][0] == '1' && seq!['1', '6'][1] == '6');
        assert(seq!['2', '5'][0] == '2' && seq!['2', '5'][1] == '5');
    }
    if chars.len() == 1 && chars[0] == '4' {
        return Ok((2, 2));
    }
    if chars.len() == 1 && chars[0] == '9' {
        return Ok((3, 3));
    }
    if chars.len() == 2 && chars[0] == '1' && chars[1] == '6' {
        return Ok((4, 4));
    }
    if chars.len() == 2 && chars[0] == '2' && chars[1] == '5' {
        return Ok((5, 5));
    }
    let first = find_mark(&chars, 'x', 0);
    if first >= chars.len() {
        return Err(words("Invalid box size: ", s));
    }
    let second = find_mark(&chars, 'x', first + 1);
    match (parse_number(&chars, 0, first), parse_number(&chars, first + 1, second)) {
        (Some(rows), Some(columns)) => Ok((rows, columns)),
        _ => Err(words("Invalid box size: ", s)),
    }
}

/// The digits 1 to 9.
pub open spec fn digit_glyphs() -> Seq<char> {
    seq!['1', '2', '3', '4', '5', '6', '7', '8', '9']
}

/// The capital letters.
pub open spec fn letter_glyphs() -> Seq<char> {
    seq![
        'A',
        'B',
        'C',
        'D',
        'E',
        'F',
        'G',
        'H',
        'I',
        'J',
        'K',
        'L',
        'M',
        'N',
        'O',
        'P',
        'Q',
        'R',
        'S',
        'T',
        'U',
        'V',
        'W',
        'X',
        'Y',
        'Z',
    ]
}

/// The glyphs for a board of the given size when none are named: the
/// digits for boards up to 9, else the first letters, as many as the board
/// has digits and the alphabet letters.
pub open spec fn default_glyphs(board_size: usize) -> Seq<char> {
    if board_size <= 9 {
        digit_glyphs()
    } else if board_size < 26 {
        letter_glyphs().subrange(0, board_size as int)
    } else {
        letter_glyphs()
    }
}

pub fn default_alphabet(board_size: usize) -> (glyphs: Vec<char>)
    ensures
        glyphs@ == default_glyphs(board_size),
{
    if board_size <= 9 {
        let glyphs = vec!['1', '2', '3', '4', '5', '6', '7', '8', '9'];
        proof {
            assert(glyphs@ =~= digit_glyphs());
        }
        glyphs
    } else {
        let letters = vec![
            'A',
            'B',
            'C',
            'D',
            'E',
            'F',
            'G',
            'H',
            'I',
            'J',
            'K',
            'L',
            'M',
            'N',
            'O',
            'P',
            'Q',
            'R',
            'S',
            'T',
            'U',
            'V',
            'W',
            'X',
            'Y',
            'Z',
        ];
        proof {
            assert(letters@ =~= letter_glyphs());
        }
        let mut glyphs: Vec<char> = Vec::new();
        let mut index: usize = 0;
        while index < letters.len() && index < board_size
            invariant
                index <= letters@.len(),
                index <= board_size,
                letters@ == letter_glyphs(),
                glyphs@ == letters@.subrange(0, index as int),
            decreases letters@.len() - index,
        {
            glyphs.push(letters[index]);
            proof {
                assert(glyphs@ =~= letters@.subrange(0, index as int + 1));
            }
            index += 1;
        }
        proof {
            assert(letters@.len() == 26);
            if board_size >= 26 {
                assert(glyphs@ =~= letter_glyphs());
            }
        }
        glyphs
    }
}

/// What a glyph of the board says of its cell: the digit, counted from 1,
/// that the glyph stands for in the alphabet, if it is one of the first
/// `board_size` glyphs of it; else 0, for a blank.
pub open spec fn cell_of_glyph(alphabet: Seq<char>, board_size: usize, c: char) -> usize {
    match glyph_index(alphabet, c) {
        Some(offset) => if offset < board_size {
            (offset + 1) as usize
        } else {
            0
        },
        None => 0,
    }
}

/// Reads a board, cell by cell and row by row; none if the number of
/// glyphs is not that of the cells.
pub fn read_board(board: &Vec<char>, alphabet: &Vec<char>, board_size: usize) -> (cells: Option<
    Vec<usize>,
>)
    ensures
        cells is Some == (board@.len() == board_size * board_size),
        cells is Some ==> cells->0@ == board@.map_values(
            |c: char| cell_of_glyph(alphabet@, board_size, c),
        ),
{
    let glyph_count = board.len();
    match board_size.checked_mul(board_size) {
        None => {
            return None;
        },
        Some(count) => {
            if glyph_count != count {
                return None;
            }
        },
    }
    let mut cells: Vec<usize> = Vec::new();
    let mut index: usize = 0;
    while index < board.len()
        invariant
            index <= board@.len(),
            cells@.len() == index,
            forall|i: int|
                0 <= i < index ==> cells@[i] == cell_of_glyph(alphabet@, board_size, board@[i]),
        decreases board@.len() - index,
    {
        let cell = match find_glyph(alphabet, board[index]) {
            Some(offset) => if offset < board_size {
                offset + 1
            } else {
                0
            },
            None => 0,
        };
        cells.push(cell);
        index += 1;
    }
    proof {
        assert(cells@ =~= board@.map_values(|c: char| cell_of_glyph(alphabet@, board_size, c)));
    }
    Some(cells)
}

/// The row of the matrix that puts the digit, counted from 0, into the
/// cell in the given row and column of a board of size `n`.
pub open spec fn row_id(n: int, row: int, column: int, digit: int) -> int {
    (row * n + column) * n + digit
}

/// The rows of column `i` of the matrix of a Sudoku whose boxes have the
/// given numbers of rows and columns. The columns come in four blocks: one
/// column for every cell, then one for every row and digit, one for every
/// column and digit, and one for every box and digit.
pub open spec fn sudoku_column(box_rows: int, box_columns: int, i: int) -> Seq<usize> {
    let n = box_rows * box_columns;
    let a = (i % (n * n)) / n;
    let digit = i % n;
    if i < n * n {
        Seq::new(n as nat, |d: int| (i * n + d) as usize)
    } else if i < 2 * n * n {
        Seq::new(n as nat, |column: int| row_id(n, a, column, digit) as usize)
    } else if i < 3 * n * n {
        Seq::new(n as nat, |row: int| row_id(n, row, a, digit) as usize)
    } else {
        Seq::new(
            n as nat,
            |j: int|
                row_id(
                    n,
                    a / box_rows * box_rows + j / box_columns,
                    a % box_rows * box_columns + j % box_columns,
                    digit,
                ) as usize,
        )
    }
}

/// The matrix of a Sudoku whose boxes have the given numbers of rows and
/// columns: a row for every cell and digit, and the four blocks of unique
/// columns.
pub open spec fn sudoku_matrix(box_rows: int, box_columns: int) -> Matrix {
    let n = box_rows * box_columns;
    Matrix {
        rows: (n * n * n) as nat,
        columns: Seq::new(
            (4 * n * n) as nat,
            |i: int|
                ColumnSpec {
                    kind: ColumnType::Unique,
                    rows: sudoku_column(box_rows, box_columns, i),
                },
        ),
        budgets: Seq::empty(),
    }
}

/// Row `q` of the matrix is given by the board: its cell holds its digit.
pub open spec fn is_given(cells: Seq<usize>, n: int, q: int) -> bool {
    n > 0 && 0 <= q < n * n * n && cells[q / n] == q % n + 1
}

/// Two givens of the board cannot stand together.
pub open spec fn givens_clash(m: Matrix, cells: Seq<usize>, n: int) -> bool {
    exists|p: int, q: int| #[trigger]
        is_given(cells, n, p) && #[trigger] is_given(cells, n, q) && p < q && m.clash(p, q)
}

pub proof fn lemma_row_id_bound(n: int, row: int, column: int, digit: int)
    requires
        0 <= row < n,
        0 <= column < n,
        0 <= digit < n,
    ensures
        0 <= row * n <= (n - 1) * n,
        0 <= row * n + column < n * n,
        0 <= (row * n + column) * n <= (n * n - 1) * n,
        0 <= row_id(n, row, column, digit) < n * n * n,
        (n * n - 1) * n == n * n * n - n,
        (n - 1) * n == n * n - n,
        n <= n * n <= n * n * n,
{
    assert(n <= n * n <= n * n * n) by (nonlinear_arith)
        requires
            n > 0,
    ;
    assert(0 <= row * n <= (n - 1) * n) by (nonlinear_arith)
        requires
            0 <= row < n,
    ;
    assert((n - 1) * n == n * n - n) by (nonlinear_arith);
    assert(0 <= (row * n + column) * n <= (n * n - 1) * n) by (nonlinear_arith)
        requires
            0 <= row * n + column < n * n,
            n > 0,
    ;
    assert((n * n - 1) * n == n * n * n - n) by (nonlinear_arith);
}

pub proof fn lemma_row_id_parts(n: int, row: int, column: int, digit: int)
    requires
        0 <= row < n,
        0 <= column < n,
        0 <= digit < n,
    ensures
        row_id(n, row, column, digit) % n == digit,
        row_id(n, row, column, digit) / n == row * n + column,
        (row * n + column) % n == column,
        (row * n + column) / n == row,
{
    lemma_fundamental_div_mod_converse(row_id(n, row, column, digit), n, row * n + column, digit);
    lemma_fundamental_div_mod_converse(row * n + column, n, row, column);
}

pub proof fn lemma_split(n: int, a: int, digit: int)
    requires
        0 <= a,
        0 <= digit < n,
    ensures
        (a * n + digit) / n == a,
        (a * n + digit) % n == digit,
{
    lemma_fundamental_div_mod_converse(a * n + digit, n, a, digit);
}

/// The list of the rows of one column of the matrix, built cell by cell.
fn unit_rows(
    box_rows: usize,
    box_columns: usize,
    block: usize,
    a: usize,
    digit: usize,
) -> (rows: Vec<usize>)
    requires
        1 <= block <= 3,
        a < box_rows * box_columns,
        digit < box_rows * box_columns,
        (box_rows * box_columns) * (box_rows * box_columns) * (box_rows * box_columns)
            <= usize::MAX,
    ensures
        rows@ == sudoku_column(
            box_rows as int,
            box_columns as int,
            block * ((box_rows * box_columns) * (box_rows * box_columns)) + a * (box_rows
                * box_columns) + digit,
        ),
        rows@.no_duplicates(),
        forall|j: int|
            0 <= j < rows@.len() ==> (#[trigger] rows@[j]) < (box_rows * box_columns) * (box_rows
                * box_columns) * (box_rows * box_columns),
{
    let ghost r = box_rows as int;
    let ghost c = box_columns as int;
    let ghost n = r * c;
    let ghost ai = a as int;
    proof {
        assert(n > 0);
        assert(r > 0 && c > 0) by (nonlinear_arith)
            requires
                r * c > 0,
                r >= 0,
                c >= 0,
        ;
        assert(n <= n * n <= n * n * n) by (nonlinear_arith)
            requires
                n > 0,
        ;
    }
    let board_size = box_rows * box_columns;
    let ghost i = block * (n * n) + a * n + digit;
    proof {
        assert(0 <= a * n + digit < n * n) by {
            lemma_row_id_bound(n, a as int, 0, digit as int);
        }
        lemma_fundamental_div_mod_converse(i, n * n, block as int, a * n + digit);
        lemma_split(n, a as int, digit as int);
        assert(i % n == digit) by {
            assert(i == (block * n + a) * n + digit) by (nonlinear_arith)
                requires
                    i == block * (n * n) + a * n + digit,
            ;
            lemma_split(n, block * n + a, digit as int);
        }
        assert(block * (n * n) == block * n * n) by (nonlinear_arith);
        assert(2 * n * n == 2 * (n * n)) by (nonlinear_arith);
        assert(3 * n * n == 3 * (n * n)) by (nonlinear_arith);
        assert(i % (n * n) / n == a);
    }
    let mut rows: Vec<usize> = Vec::new();
    let mut j: usize = 0;
    while j < board_size
        invariant
            j <= board_size,
            board_size == n,
            n == r * c,
            r == box_rows,
            c == box_columns,
            r > 0,
            c > 0,
            1 <= block <= 3,
            a < n,
            ai == a,
            digit < n,
            n * n * n <= usize::MAX,
            rows@.len() == j,
            i == block * (n * n) + a * n + digit,
            i % (n * n) / n == a,
            i % n == digit,
            forall|k: int|
                0 <= k < j ==> (#[trigger] rows@[k]) == (if block == 1 {
                    row_id(n, a as int, k, digit as int)
                } else if block == 2 {
                    row_id(n, k, a as int, digit as int)
                } else {
                    row_id(n, ai / r * r + k / c, ai % r * c + k % c, digit as int)
                }),
        decreases board_size - j,
    {
        let ghost jj = j as int;
        let (row, column) = if block == 1 {
            (a, j)
        } else if block == 2 {
            (j, a)
        } else {
            proof {
                lemma_box_cell(r, c, a as int, jj);
            }
            (a / box_rows * box_rows + j / box_columns, a % box_rows * box_columns + j % box_columns)
        };
        proof {
            lemma_row_id_bound(n, row as int, column as int, digit as int);
        }
        rows.push((row * board_size + column) * board_size + digit);
        j += 1;
    }
    proof {
        assert(block * (n * n) == block * n * n) by (nonlinear_arith);
        assert(2 * n * n == 2 * (n * n)) by (nonlinear_arith);
        assert(3 * n * n == 3 * (n * n)) by (nonlinear_arith);
        assert(0 <= a * n + digit < n * n) by {
            lemma_row_id_bound(n, a as int, 0, digit as int);
        }
        assert(rows@ =~= sudoku_column(r, c, i));
        assert forall|k1: int, k2: int| 0 <= k1 < rows@.len() && 0 <= k2 < rows@.len() && k1
            != k2 implies rows@[k1] != rows@[k2] by {
            if block == 1 {
                lemma_row_id_parts(n, a as int, k1, digit as int);
                lemma_row_id_parts(n, a as int, k2, digit as int);
            } else if block == 2 {
                lemma_row_id_parts(n, k1, a as int, digit as int);
                lemma_row_id_parts(n, k2, a as int, digit as int);
            } else {
                lemma_box_cell(r, c, a as int, k1);
                lemma_box_cell(r, c, a as int, k2);
                let r1 = ai / r * r + k1 / c;
                let c1 = ai % r * c + k1 % c;
                let r2 = ai / r * r + k2 / c;
                let c2 = ai % r * c + k2 % c;
                lemma_row_id_parts(n, r1, c1, digit as int);
                lemma_row_id_parts(n, r2, c2, digit as int);
                if r1 == r2 && c1 == c2 {
                    assert(k1 / c == k2 / c);
                    assert(k1 % c == k2 % c);
                    vstd::arithmetic::div_mod::lemma_fundamental_div_mod(k1, c);
                    vstd::arithmetic::div_mod::lemma_fundamental_div_mod(k2, c);
                }
            }
        }
        assert forall|k: int| 0 <= k < rows@.len() implies (#[trigger] rows@[k]) < n * n * n by {
            if block == 1 {
                lemma_row_id_bound(n, a as int, k, digit as int);
            } else if block == 2 {
                lemma_row_id_bound(n, k, a as int, digit as int);
            } else {
                lemma_box_cell(r, c, a as int, k);
                lemma_row_id_bound(n, ai / r * r + k / c, ai % r * c + k % c, digit as int);
            }
        }
    }
    rows
}

/// The `j`-th cell of box `b` lies on the board.
pub proof fn lemma_box_cell(r: int, c: int, b: int, j: int)
    requires
        r > 0,
        c > 0,
        0 <= b < r * c,
        0 <= j < r * c,
    ensures
        0 <= b / r * r + j / c < r * c,
        0 <= b % r * c + j % c < r * c,
        0 <= b / r < c,
        0 <= j / c < r,
        0 <= b / r * r <= (c - 1) * r,
        0 <= b % r * c <= (r - 1) * c,
{
    vstd::arithmetic::div_mod::lemma_fundamental_div_mod(b, r);
    vstd::arithmetic::div_mod::lemma_fundamental_div_mod(j, c);
    let bq = b / r;
    let jq = j / c;
    assert(0 <= b % r < r);
    assert(0 <= j % c < c);
    assert(0 <= bq < c) by (nonlinear_arith)
        requires
            b == r * bq + b % r,
            0 <= b % r < r,
            0 <= b < r * c,
            r > 0,
    ;
    assert(0 <= jq < r) by (nonlinear_arith)
        requires
            j == c * jq + j % c,
            0 <= j % c < c,
            0 <= j < r * c,
            c > 0,
    ;
    assert(0 <= bq * r <= (c - 1) * r) by (nonlinear_arith)
        requires
            0 <= bq < c,
            r > 0,
    ;
    assert(0 <= (b % r) * c <= (r - 1) * c) by (nonlinear_arith)
        requires
            0 <= b % r < r,
            c > 0,
    ;
    assert((c - 1) * r + r == r * c) by (nonlinear_arith);
    assert((r - 1) * c + c == r * c) by (nonlinear_arith);
}

/// The solver holds the first `k` columns of the matrix of the Sudoku and
/// `rows` rows, all of them free: nothing is chosen or covered yet.
pub open spec fn sudoku_so_far(
    s: &PuzzleSolver,
    box_rows: int,
    box_columns: int,
    rows: int,
    k: int,
) -> bool {
    &&& s.wf()
    &&& !s.started()
    &&& s@.rows == rows
    &&& s@.columns.len() == k
    &&& s@.budgets.len() == 0
    &&& forall|i: int|
        0 <= i < k ==> #[trigger] s@.columns[i] == (ColumnSpec {
            kind: ColumnType::Unique,
            rows: sudoku_column(box_rows, box_columns, i),
        })
    &&& forall|q: int| 0 <= q < rows ==> #[trigger] s.is_fresh(q)
}

/// Adds one of the three blocks of columns that say that a row, a column or
/// a box of the board holds every digit once.
fn add_block(solver: &mut PuzzleSolver, box_rows: usize, box_columns: usize, block: usize)
    requires
        1 <= block <= 3,
        (box_rows * box_columns) * (box_rows * box_columns) * (box_rows * box_columns)
            <= usize::MAX,
        sudoku_so_far(
            old(solver),
            box_rows as int,
            box_columns as int,
            (box_rows * box_columns) * (box_rows * box_columns) * (box_rows * box_columns),
            block * ((box_rows * box_columns) * (box_rows * box_columns)),
        ),
    ensures
        sudoku_so_far(
            final(solver),
            box_rows as int,
            box_columns as int,
            (box_rows * box_columns) * (box_rows * box_columns) * (box_rows * box_columns),
            (block + 1) * ((box_rows * box_columns) * (box_rows * box_columns)),
        ),
{
    let ghost r = box_rows as int;
    let ghost c = box_columns as int;
    let ghost n = r * c;
    let ghost rows = n * n * n;
    proof {
        assert(n * n * n >= n * n >= n >= 0) by (nonlinear_arith)
            requires
                n >= 0,
        ;
        assert(n * n * n <= usize::MAX ==> n <= usize::MAX);
    }
    let board_size = box_rows * box_columns;
    let mut a: usize = 0;
    while a < board_size
        invariant
            a <= board_size,
            board_size == n,
            n == r * c,
            r == box_rows,
            c == box_columns,
            rows == n * n * n,
            rows <= usize::MAX,
            1 <= block <= 3,
            sudoku_so_far(solver, r, c, rows, block * (n * n) + a * n),
        decreases board_size - a,
    {
        let mut digit: usize = 0;
        while digit < board_size
            invariant
                a < board_size,
                digit <= board_size,
                board_size == n,
                n == r * c,
                r == box_rows,
                c == box_columns,
                rows == n * n * n,
                rows <= usize::MAX,
                1 <= block <= 3,
                sudoku_so_far(solver, r, c, rows, block * (n * n) + a * n + digit),
            decreases board_size - digit,
        {
            let ghost before = *solver;
            let ghost i = block * (n * n) + a * n + digit;
            let list = unit_rows(box_rows, box_columns, block, a, digit);
            proof {
                assert forall|j: int| 0 <= j < list@.len() implies before.is_free(
                    #[trigger] list@[j] as int,
                ) by {
                    assert(before.is_fresh(list@[j] as int));
                }
            }
            solver.add_column(list);
            proof {
                assert forall|q: int| 0 <= q < rows implies #[trigger] solver.is_fresh(q) by {
                    assert(before.is_fresh(q));
                    assert(solver.same_row_state(&before, q));
                }
                assert forall|k: int| 0 <= k < i + 1 implies #[trigger] solver@.columns[k]
                    == (ColumnSpec {
                    kind: ColumnType::Unique,
                    rows: sudoku_column(r, c, k),
                }) by {
                    if k < i {
                        assert(before@.columns[k] == (ColumnSpec {
                            kind: ColumnType::Unique,
                            rows: sudoku_column(r, c, k),
                        }));
                    }
                }
            }
            digit += 1;
        }
        proof {
            assert(a * n + n == (a + 1) * n) by (nonlinear_arith);
        }
        a += 1;
    }
    proof {
        assert(block * (n * n) + n * n == (block + 1) * (n * n)) by (nonlinear_arith);
    }
}

/// A given clashes with row `q`: its row and row `q` have a cell in one
/// and the same column.
pub open spec fn clashes_with_given(m: Matrix, cells: Seq<usize>, n: int, q: int) -> bool {
    exists|p: int| #[trigger] is_given(cells, n, p) && m.clash(p, q)
}

/// The row of a given has a cell in column `c`.
pub open spec fn holds_given(m: Matrix, cells: Seq<usize>, n: int, c: int) -> bool {
    exists|p: int| #[trigger] is_given(cells, n, p) && m.hits(c, p)
}

/// The solver stands where the givens put it: chosen are the rows of the
/// givens, free the rows that no given clashes with, and covered the
/// columns in which the row of a given has a cell.
pub open spec fn at_givens(s: &PuzzleSolver, cells: Seq<usize>, n: int) -> bool {
    &&& forall|q: int| 0 <= q < s@.rows ==> #[trigger] s.is_chosen(q) == is_given(cells, n, q)
    &&& forall|q: int|
        0 <= q < s@.rows ==> #[trigger] s.is_free(q) == !clashes_with_given(s@, cells, n, q)
    &&& forall|c: int|
        0 <= c < s@.columns.len() ==> #[trigger] s.is_covered(c) == holds_given(s@, cells, n, c)
}

/// A given of an earlier cell than cell `i` clashes with row `q`.
pub open spec fn hit_by_given(m: Matrix, cells: Seq<usize>, n: int, i: int, q: int) -> bool {
    exists|p: int| #[trigger] is_given(cells, n, p) && p / n < i && m.clash(p, q)
}

/// The solver for a Sudoku: the matrix of the board size, with the rows of
/// the givens chosen; none if two givens cannot stand together. The cells
/// come row by row, 0 for a blank, else the digit counted from 1.
pub fn build_sudoku(box_rows: usize, box_columns: usize, cells: &Vec<usize>) -> (solver: Option<
    PuzzleSolver,
>)
    requires
        (box_rows * box_columns) * (box_rows * box_columns) * (box_rows * box_columns)
            <= usize::MAX,
        cells@.len() == (box_rows * box_columns) * (box_rows * box_columns),
        forall|i: int| 0 <= i < cells@.len() ==> #[trigger] cells@[i] <= box_rows * box_columns,
    ensures
        match solver {
            Some(s) => {
                &&& s.wf()
                &&& !s.started()
                &&& s@ == sudoku_matrix(box_rows as int, box_columns as int)
                &&& forall|q: int|
                    0 <= q < s@.rows ==> #[trigger] s.is_chosen(q) == is_given(
                        cells@,
                        box_rows * box_columns,
                        q,
                    )
                &&& !givens_clash(
                    sudoku_matrix(box_rows as int, box_columns as int),
                    cells@,
                    box_rows * box_columns,
                )
                &&& at_givens(&s, cells@, box_rows * box_columns)
            },
            None => givens_clash(
                sudoku_matrix(box_rows as int, box_columns as int),
                cells@,
                box_rows * box_columns,
            ),
        },
{
    let ghost r = box_rows as int;
    let ghost c = box_columns as int;
    let ghost n = r * c;
    let ghost rows = n * n * n;
    let ghost m = sudoku_matrix(r, c);
    proof {
        assert(n * n * n >= n * n >= n >= 0) by (nonlinear_arith)
            requires
                n >= 0,
        ;
    }
    let board_size = box_rows * box_columns;
    let cell_count = board_size * board_size;
    let mut solver = PuzzleSolver::new();
    let mut k: usize = 0;
    while k < cell_count
        invariant
            k <= cell_count,
            cell_count == n * n,
            board_size == n,
            n == r * c,
            rows == n * n * n,
            rows <= usize::MAX,
            sudoku_so_far(&solver, r, c, k * n, k as int),
        decreases cell_count - k,
    {
        let ghost before = solver;
        let first = solver.add_rows(board_size);
        proof {
            assert(k * n + n == (k + 1) * n) by (nonlinear_arith);
            assert(solver@.columns[k as int].rows =~= sudoku_column(r, c, k as int)) by {
                assert(k < n * n);
            }
            assert forall|q: int| 0 <= q < (k + 1) * n implies #[trigger] solver.is_fresh(q) by {
                if q < k * n {
                    assert(before.is_fresh(q));
                    assert(solver.same_row_state(&before, q));
                } else {
                    assert(solver.is_fresh(q));
                }
            }
            assert forall|i: int| 0 <= i < k + 1 implies #[trigger] solver@.columns[i]
                == (ColumnSpec { kind: ColumnType::Unique, rows: sudoku_column(r, c, i) }) by {
                if i < k {
                    assert(before@.columns[i] == (ColumnSpec {
                        kind: ColumnType::Unique,
                        rows: sudoku_column(r, c, i),
                    }));
                }
            }
        }
        k += 1;
    }
    proof {
        assert(n * n * n == (n * n) * n) by (nonlinear_arith);
        assert(1 * (n * n) == n * n);
    }
    add_block(&mut solver, box_rows, box_columns, 1);
    add_block(&mut solver, box_rows, box_columns, 2);
    add_block(&mut solver, box_rows, box_columns, 3);
    proof {
        assert(4 * (n * n) == 4 * n * n) by (nonlinear_arith);
        assert(solver@.columns =~= m.columns);
        assert(solver@.budgets =~= m.budgets);
        assert(solver@ == m);
    }
    proof {
        assert forall|q: int| 0 <= q < rows implies #[trigger] solver.is_chosen(q) == (is_given(
            cells@,
            n,
            q,
        ) && q / n < 0) by {
            assert(solver.is_fresh(q));
            lemma_row_cell(n, q);
        }
        assert forall|q: int| 0 <= q < rows implies #[trigger] solver.is_free(q) == !hit_by_given(
            m,
            cells@,
            n,
            0,
            q,
        ) by {
            assert(solver.is_fresh(q));
            if hit_by_given(m, cells@, n, 0, q) {
                let p = choose|p: int| #[trigger]
                    is_given(cells@, n, p) && p / n < 0 && m.clash(p, q);
                lemma_row_cell(n, p);
            }
        }
        assert forall|p: int, q: int| #[trigger]
            is_given(cells@, n, p) && #[trigger] is_given(cells@, n, q) && p < q && q / n
                < 0 implies !m.clash(p, q) by {
            lemma_row_cell(n, q);
        }
    }
    let mut index: usize = 0;
    while index < cell_count
        invariant
            index <= cell_count,
            cell_count == n * n,
            cells@.len() == n * n,
            board_size == n,
            n == r * c,
            rows == n * n * n,
            rows <= usize::MAX,
            m == sudoku_matrix(r, c),
            r == box_rows,
            c == box_columns,
            forall|i: int| 0 <= i < cells@.len() ==> #[trigger] cells@[i] <= n,
            solver.wf(),
            !solver.started(),
            solver@ == m,
            forall|q: int|
                0 <= q < rows ==> #[trigger] solver.is_chosen(q) == (is_given(cells@, n, q) && q / n
                    < index),
            forall|q: int|
                0 <= q < rows ==> #[trigger] solver.is_free(q) == !hit_by_given(
                    m,
                    cells@,
                    n,
                    index as int,
                    q,
                ),
            forall|p: int, q: int| #[trigger]
                is_given(cells@, n, p) && #[trigger] is_given(cells@, n, q) && p < q && q / n
                    < index ==> !m.clash(p, q),
        decreases cell_count - index,
    {
        let cell = cells[index];
        let ghost before = solver;
        let ghost ii = index as int;
        proof {
            assert(n > 0);
            lemma_cell_rows(n, ii);
        }
        if cell != 0 {
            let row = index * board_size + (cell - 1);
            proof {
                lemma_split(n, ii, cell - 1);
                assert(is_given(cells@, n, row as int));
            }
            if !solver.row_is_free(row) {
                proof {
                    let p = choose|p: int| #[trigger]
                        is_given(cells@, n, p) && p / n < ii && m.clash(p, row as int);
                    lemma_earlier_cell(n, p, row as int);
                    assert(is_given(cells@, n, p) && is_given(cells@, n, row as int) && p < row
                        && m.clash(p, row as int));
                    assert(givens_clash(m, cells@, n));
                }
                return None;
            }
            solver.select_row(row);
            proof {
                assert forall|q: int| 0 <= q < rows implies #[trigger] solver.is_chosen(q) == (
                is_given(cells@, n, q) && q / n < index + 1) by {
                    assert(before.is_chosen(q) == (is_given(cells@, n, q) && q / n < index));
                    if q / n == ii && is_given(cells@, n, q) {
                        vstd::arithmetic::div_mod::lemma_fundamental_div_mod(q, n);
                        assert(n * ii == ii * n) by (nonlinear_arith);
                        assert(q == row);
                    }
                }
                assert forall|q: int| 0 <= q < rows implies #[trigger] solver.is_free(q)
                    == !hit_by_given(m, cells@, n, index + 1, q) by {
                    assert(before.is_free(q) == !hit_by_given(m, cells@, n, ii, q));
                    if hit_by_given(m, cells@, n, ii + 1, q) {
                        let p = choose|p: int| #[trigger]
                            is_given(cells@, n, p) && p / n < ii + 1 && m.clash(p, q);
                        if p / n == ii {
                            vstd::arithmetic::div_mod::lemma_fundamental_div_mod(p, n);
                            assert(n * ii == ii * n) by (nonlinear_arith);
                            assert(p == row);
                        } else {
                            assert(is_given(cells@, n, p) && p / n < ii && m.clash(p, q));
                        }
                    }
                    if hit_by_given(m, cells@, n, ii, q) {
                        let p = choose|p: int| #[trigger]
                            is_given(cells@, n, p) && p / n < ii && m.clash(p, q);
                        assert(is_given(cells@, n, p) && p / n < ii + 1 && m.clash(p, q));
                    }
                    if m.clash(row as int, q) {
                        assert(is_given(cells@, n, row as int) && (row as int) / n < ii + 1 && m.clash(
                            row as int,
                            q,
                        ));
                    }
                }
                assert forall|p: int, q: int| #[trigger]
                    is_given(cells@, n, p) && #[trigger] is_given(cells@, n, q) && p < q && q / n
                        < index + 1 implies !m.clash(p, q) by {
                    if q / n == ii {
                        vstd::arithmetic::div_mod::lemma_fundamental_div_mod(q, n);
                        assert(n * ii == ii * n) by (nonlinear_arith);
                        assert(q == row);
                        lemma_earlier_cell_conv(n, p, q);
                        if p / n == ii {
                            vstd::arithmetic::div_mod::lemma_fundamental_div_mod(p, n);
                            assert(p == row);
                        }
                        if m.clash(p, q) {
                            assert(is_given(cells@, n, p) && p / n < ii && m.clash(p, row as int));
                            assert(hit_by_given(m, cells@, n, ii, row as int));
                        }
                    }
                }
            }
        } else {
            proof {
                assert forall|q: int| 0 <= q < rows implies #[trigger] solver.is_chosen(q) == (
                is_given(cells@, n, q) && q / n < index + 1) by {}
                assert forall|q: int| 0 <= q < rows implies #[trigger] solver.is_free(q)
                    == !hit_by_given(m, cells@, n, index + 1, q) by {
                    if hit_by_given(m, cells@, n, ii + 1, q) {
                        let p = choose|p: int| #[trigger]
                            is_given(cells@, n, p) && p / n < ii + 1 && m.clash(p, q);
                        assert(is_given(cells@, n, p) && p / n < ii && m.clash(p, q));
                    }
                    if hit_by_given(m, cells@, n, ii, q) {
                        let p = choose|p: int| #[trigger]
                            is_given(cells@, n, p) && p / n < ii && m.clash(p, q);
                        assert(is_given(cells@, n, p) && p / n < ii + 1 && m.clash(p, q));
                    }
                }
            }
        }
        index += 1;
    }
    proof {
        assert forall|q: int| 0 <= q < solver@.rows implies #[trigger] solver.is_chosen(q)
            == is_given(cells@, n, q) by {
            if n > 0 {
                lemma_row_cell(n, q);
            }
        }
        assert forall|q: int| 0 <= q < solver@.rows implies #[trigger] solver.is_free(q)
            == !clashes_with_given(m, cells@, n, q) by {
            assert(solver.is_free(q) == !hit_by_given(m, cells@, n, n * n, q));
            if clashes_with_given(m, cells@, n, q) {
                let p = choose|p: int| #[trigger] is_given(cells@, n, p) && m.clash(p, q);
                lemma_row_cell(n, p);
                assert(is_given(cells@, n, p) && p / n < n * n && m.clash(p, q));
            }
            if hit_by_given(m, cells@, n, n * n, q) {
                let p = choose|p: int| #[trigger]
                    is_given(cells@, n, p) && p / n < n * n && m.clash(p, q);
                assert(is_given(cells@, n, p) && m.clash(p, q));
            }
        }
        assert forall|c: int| 0 <= c < solver@.columns.len() implies #[trigger] solver.is_covered(
            c,
        ) == holds_given(m, cells@, n, c) by {
            solver.lemma_covered_by_chosen(c);
            if solver.is_covered(c) {
                let x = choose|x: int| #[trigger] solver.is_chosen(x) && m.hits(c, x);
                assert(is_given(cells@, n, x) && m.hits(c, x));
            }
            if holds_given(m, cells@, n, c) {
                let p = choose|p: int| #[trigger] is_given(cells@, n, p) && m.hits(c, p);
                assert(solver.is_chosen(p) && m.hits(c, p));
            }
        }
        if givens_clash(m, cells@, n) {
            let (p, q) = choose|p: int, q: int| #[trigger]
                is_given(cells@, n, p) && #[trigger] is_given(cells@, n, q) && p < q && m.clash(
                    p,
                    q,
                );
            lemma_row_cell(n, q);
            assert(false);
        }
    }
    Some(solver)
}

/// The rows of cell `i` are rows of the matrix.
pub proof fn lemma_cell_rows(n: int, i: int)
    requires
        n > 0,
        0 <= i < n * n,
    ensures
        0 <= i * n,
        i * n + n <= n * n * n,
{
    assert(0 <= i * n && i * n + n <= n * n * n) by (nonlinear_arith)
        requires
            n > 0,
            0 <= i < n * n,
    ;
}

/// Every row of the matrix belongs to a cell of the board.
pub proof fn lemma_row_cell(n: int, q: int)
    requires
        n > 0,
        0 <= q < n * n * n,
    ensures
        0 <= q / n < n * n,
{
    vstd::arithmetic::div_mod::lemma_fundamental_div_mod(q, n);
    let d = q / n;
    assert(0 <= d < n * n) by (nonlinear_arith)
        requires
            q == n * d + q % n,
            0 <= q % n < n,
            0 <= q < n * n * n,
            n > 0,
    ;
}

/// A row of an earlier cell has a smaller number.
pub proof fn lemma_earlier_cell(n: int, p: int, q: int)
    requires
        n > 0,
        0 <= p,
        0 <= q,
        p / n < q / n,
    ensures
        p < q,
{
    vstd::arithmetic::div_mod::lemma_fundamental_div_mod(p, n);
    vstd::arithmetic::div_mod::lemma_fundamental_div_mod(q, n);
    let a = p / n;
    let b = q / n;
    assert(p < q) by (nonlinear_arith)
        requires
            p == n * a + p % n,
            q == n * b + q % n,
            0 <= p % n < n,
            0 <= q % n < n,
            a < b,
            n > 0,
    ;
}

/// A row with a smaller number belongs to the same cell or to an earlier
/// one.
pub proof fn lemma_earlier_cell_conv(n: int, p: int, q: int)
    requires
        n > 0,
        0 <= p < q,
    ensures
        p / n <= q / n,
{
    if p / n > q / n {
        lemma_earlier_cell(n, q, p);
    }
}

/// The digit, counted from 1, that the first `k` rows of a solution put
/// into the cell in the given row and column of the board; 0 if they put
/// none there. A later row overrules an earlier one.
pub open spec fn digit_after(solution: Seq<usize>, n: int, row: int, column: int, k: int) -> int
    decreases k,
{
    if k <= 0 {
        0
    } else if (solution[k - 1] as int) / n == row * n + column {
        (solution[k - 1] as int) % n + 1
    } else {
        digit_after(solution, n, row, column, k - 1)
    }
}

/// A board of the given size without digits.
pub fn blank_board(board_size: usize) -> (board: Vec<Vec<usize>>)
    ensures
        board@.len() == board_size,
        forall|r: int| 0 <= r < board_size ==> (#[trigger] board@[r])@.len() == board_size,
        forall|r: int, c: int|
            0 <= r < board_size && 0 <= c < board_size ==> (#[trigger] board@[r]@[c]) == 0,
{
    let mut board: Vec<Vec<usize>> = Vec::new();
    let mut r: usize = 0;
    while r < board_size
        invariant
            r <= board_size,
            board@.len() == r,
            forall|i: int| 0 <= i < r ==> (#[trigger] board@[i])@.len() == board_size,
            forall|i: int, c: int|
                0 <= i < r && 0 <= c < board_size ==> (#[trigger] board@[i]@[c]) == 0,
        decreases board_size - r,
    {
        let mut line: Vec<usize> = Vec::new();
        let mut c: usize = 0;
        while c < board_size
            invariant
                c <= board_size,
                line@.len() == c,
                forall|j: int| 0 <= j < c ==> (#[trigger] line@[j]) == 0,
            decreases board_size - c,
        {
            line.push(0);
            c += 1;
        }
        board.push(line);
        r += 1;
    }
    board
}

/// The board that a solution fills: every row of the solution puts its
/// digit into its cell.
pub fn decode_solution(solution: &Vec<usize>, board_size: usize) -> (board: Vec<Vec<usize>>)
    requires
        board_size * board_size * board_size <= usize::MAX,
        forall|i: int|
            0 <= i < solution@.len() ==> (#[trigger] solution@[i]) < board_size * board_size
                * board_size,
    ensures
        board@.len() == board_size,
        forall|r: int| 0 <= r < board_size ==> (#[trigger] board@[r])@.len() == board_size,
        forall|r: int, c: int|
            0 <= r < board_size && 0 <= c < board_size ==> (#[trigger] board@[r]@[c])
                == digit_after(solution@, board_size as int, r, c, solution@.len() as int),
{
    let ghost n = board_size as int;
    let mut board = blank_board(board_size);
    let mut index: usize = 0;
    while index < solution.len()
        invariant
            index <= solution@.len(),
            n == board_size,
            n * n * n <= usize::MAX,
            forall|i: int| 0 <= i < solution@.len() ==> (#[trigger] solution@[i]) < n * n * n,
            board@.len() == board_size,
            forall|r: int| 0 <= r < board_size ==> (#[trigger] board@[r])@.len() == board_size,
            forall|r: int, c: int|
                0 <= r < board_size && 0 <= c < board_size ==> (#[trigger] board@[r]@[c])
                    == digit_after(solution@, n, r, c, index as int),
        decreases solution@.len() - index,
    {
        let row = solution[index];
        proof {
            assert(n > 0) by (nonlinear_arith)
                requires
                    0 <= row < n * n * n,
            ;
            lemma_row_cell(n, row as int);
            let cell = row as int / n;
            vstd::arithmetic::div_mod::lemma_fundamental_div_mod(cell, n);
            let rr = cell / n;
            assert(0 <= rr < n) by (nonlinear_arith)
                requires
                    cell == n * rr + cell % n,
                    0 <= cell % n < n,
                    0 <= cell < n * n,
                    n > 0,
            ;
            assert(rr * n + cell % n == cell) by (nonlinear_arith)
                requires
                    cell == n * rr + cell % n,
            ;
        }
        let r = row / board_size / board_size;
        let c = row / board_size % board_size;
        let digit = row % board_size + 1;
        let ghost before = board@;
        let mut line = Vec::new();
        let mut j: usize = 0;
        while j < board_size
            invariant
                j <= board_size,
                r < board_size,
                board@ == before,
                before.len() == board_size,
                before[r as int]@.len() == board_size,
                line@.len() == j,
                forall|k: int|
                    0 <= k < j ==> (#[trigger] line@[k]) == if k == c {
                        digit
                    } else {
                        before[r as int]@[k]
                    },
            decreases board_size - j,
        {
            if j == c {
                line.push(digit);
            } else {
                line.push(board[r][j]);
            }
            j += 1;
        }
        board[r] = line;
        proof {
            assert forall|r2: int, c2: int|
                0 <= r2 < board_size && 0 <= c2 < board_size implies (#[trigger] board@[r2]@[c2])
                == digit_after(solution@, n, r2, c2, index + 1) by {
                assert(before[r2]@[c2] == digit_after(solution@, n, r2, c2, index as int));
                if r2 * n + c2 == row as int / n {
                    lemma_split(n, r2, c2);
                    assert(r2 == r && c2 == c);
                } else {
                    if r2 == r && c2 == c {
                        assert(false);
                    }
                }
            }
        }
        index += 1;
    }
    board
}

/// A Sudoku that is ready to be solved.
pub struct SudokuPuzzle {
    pub solver: PuzzleSolver,
    /// Rows and columns of a box.
    pub box_rows: usize,
    pub box_columns: usize,
    /// The glyphs that stand for the digits.
    pub alphabet: Vec<char>,
}

/// Why a Sudoku cannot be solved as it was given.
#[derive(Debug, PartialEq, Eq)]
pub enum SudokuFault {
    /// The board has more candidates than can be counted.
    TooLarge,
    /// The number of glyphs is not that of the cells.
    BoardLength,
    /// Two of the given digits exclude each other.
    Clash,
}

/// The candidates of a board with such boxes can be counted.
pub open spec fn countable(box_rows: usize, box_columns: usize) -> bool {
    (box_rows * box_columns) * (box_rows * box_columns) * (box_rows * box_columns) <= usize::MAX
}

/// The size of the board with such boxes, if its candidates can be
/// counted.
pub fn board_size_of(box_rows: usize, box_columns: usize) -> (size: Option<usize>)
    ensures
        size is Some == countable(box_rows, box_columns),
        size is Some ==> size->0 == box_rows * box_columns,
{
    match box_rows.checked_mul(box_columns) {
        None => {
            proof {
                let n = box_rows * box_columns;
                assert(n * n * n > usize::MAX) by (nonlinear_arith)
                    requires
                        n > usize::MAX,
                ;
            }
            None
        },
        Some(n) => {
            match n.checked_mul(n) {
                None => {
                    proof {
                        assert(n * n * n > usize::MAX) by (nonlinear_arith)
                            requires
                                n * n > usize::MAX,
                                n >= 0,
                        ;
                    }
                    None
                },
                Some(cells) => {
                    match cells.checked_mul(n) {
                        None => None,
                        Some(_) => Some(n),
                    }
                },
            }
        },
    }
}

/// The box size that is asked for: without one, three rows and three
/// columns.
pub open spec fn box_of(args: &SudokuArgs) -> (usize, usize) {
    match args.size {
        Some(size) => size,
        None => (3usize, 3usize),
    }
}

/// The glyphs that are asked for: without any, those that a board of the
/// size has of itself.
pub open spec fn alphabet_of(args: &SudokuArgs, board_size: usize) -> Seq<char> {
    match args.alphabet {
        Some(glyphs) => glyphs@,
        None => default_glyphs(board_size),
    }
}

/// What the glyphs of a board say of its cells.
pub open spec fn cells_of_text(text: Seq<char>, alphabet: Seq<char>, board_size: usize) -> Seq<
    usize,
> {
    text.map_values(|c: char| cell_of_glyph(alphabet, board_size, c))
}

/// The puzzle is the Sudoku with the given boxes and glyphs and with the
/// digits that the text gives.
pub open spec fn is_sudoku_of(
    puzzle: SudokuPuzzle,
    box_rows: usize,
    box_columns: usize,
    alphabet: Seq<char>,
    text: Seq<char>,
) -> bool {
    let n = (box_rows * box_columns) as usize;
    &&& puzzle.box_rows == box_rows
    &&& puzzle.box_columns == box_columns
    &&& puzzle.alphabet@ == alphabet
    &&& puzzle.solver.wf()
    &&& !puzzle.solver.started()
    &&& puzzle.solver@ == sudoku_matrix(box_rows as int, box_columns as int)
    &&& forall|q: int|
        0 <= q < puzzle.solver@.rows ==> #[trigger] puzzle.solver.is_chosen(q) == is_given(
            cells_of_text(text, alphabet, n),
            n as int,
            q,
        )
    &&& at_givens(&puzzle.solver, cells_of_text(text, alphabet, n), n as int)
}

/// What becomes of a board that is given as a text.
pub open spec fn start_outcome(
    r: Result<SudokuPuzzle, SudokuFault>,
    box_rows: usize,
    box_columns: usize,
    alphabet: Seq<char>,
    text: Seq<char>,
) -> bool {
    let n = (box_rows * box_columns) as usize;
    if !countable(box_rows, box_columns) {
        r == Err::<SudokuPuzzle, SudokuFault>(SudokuFault::TooLarge)
    } else if text.len() != n * n {
        r == Err::<SudokuPuzzle, SudokuFault>(SudokuFault::BoardLength)
    } else if givens_clash(
        sudoku_matrix(box_rows as int, box_columns as int),
        cells_of_text(text, alphabet, n),
        n as int,
    ) {
        r == Err::<SudokuPuzzle, SudokuFault>(SudokuFault::Clash)
    } else {
        r is Ok && is_sudoku_of(r->Ok_0, box_rows, box_columns, alphabet, text)
    }
}

/// Sets up the Sudoku that is asked for, with the digits that the text of
/// the board gives.
pub fn start_sudoku(args: &SudokuArgs, board: &str) -> (r: Result<SudokuPuzzle, SudokuFault>)
    ensures
        start_outcome(
            r,
            box_of(args).0,
            box_of(args).1,
            alphabet_of(args, (box_of(args).0 * box_of(args).1) as usize),
            board@,
        ),
{
    let (box_rows, box_columns) = match args.size {
        Some(size) => size,
        None => (3, 3),
    };
    let n = match board_size_of(box_rows, box_columns) {
        Some(n) => n,
        None => {
            return Err(SudokuFault::TooLarge);
        },
    };
    let alphabet = match &args.alphabet {
        Some(glyphs) => chars_of(glyphs.as_str()),
        None => default_alphabet(n),
    };
    let glyphs = chars_of(board);
    let cells = match read_board(&glyphs, &alphabet, n) {
        Some(cells) => cells,
        None => {
            return Err(SudokuFault::BoardLength);
        },
    };
    proof {
        assert(cells@ == cells_of_text(board@, alphabet@, n));
        assert forall|i: int| 0 <= i < cells@.len() implies #[trigger] cells@[i] <= box_rows
            * box_columns by {
            assert(cells@[i] == cell_of_glyph(alphabet@, n, board@[i]));
        }
    }
    match build_sudoku(box_rows, box_columns, &cells) {
        Some(solver) => Ok(SudokuPuzzle { solver, box_rows, box_columns, alphabet }),
        None => Err(SudokuFault::Clash),
    }
}

/// The board that a solution fills, row by row.
pub open spec fn decoded(solution: Seq<usize>, n: int) -> Seq<Seq<usize>> {
    Seq::new(
        n as nat,
        |r: int|
            Seq::new(
                n as nat,
                |c: int| digit_after(solution, n, r, c, solution.len() as int) as usize,
            ),
    )
}

/// The row of the solution is a candidate of the board.
pub open spec fn row_known(solution: Seq<usize>, n: int, i: int) -> bool {
    solution[i] < n * n * n
}

/// The solution puts a digit into the cell for which there is a glyph.
pub open spec fn cell_drawn(solution: Seq<usize>, n: int, glyphs: int, r: int, c: int) -> bool {
    1 <= digit_after(solution, n, r, c, solution.len() as int) <= glyphs
}

/// The solution can be drawn: its rows are candidates of the board, and it
/// puts into every cell a digit for which there is a glyph.
pub open spec fn drawable(solution: Seq<usize>, n: int, glyphs: int) -> bool {
    &&& forall|i: int| 0 <= i < solution.len() ==> #[trigger] row_known(solution, n, i)
    &&& forall|r: int, c: int|
        0 <= r < n && 0 <= c < n ==> #[trigger] cell_drawn(solution, n, glyphs, r, c)
}

/// Tells whether the rows of the solution are candidates of the board.
fn rows_known(solution: &Vec<usize>, rows: usize, Ghost(n): Ghost<int>) -> (known: bool)
    requires
        rows == n * n * n,
    ensures
        known == forall|i: int| 0 <= i < solution@.len() ==> #[trigger] row_known(solution@, n, i),
{
    let mut index: usize = 0;
    while index < solution.len()
        invariant
            index <= solution@.len(),
            rows == n * n * n,
            forall|i: int| 0 <= i < index ==> #[trigger] row_known(solution@, n, i),
        decreases solution@.len() - index,
    {
        if solution[index] >= rows {
            proof {
                assert(!row_known(solution@, n, index as int));
            }
            return false;
        }
        index += 1;
    }
    true
}

/// Tells whether every cell of the board holds a digit for which there is
/// a glyph.
fn cells_drawn(
    board: &Vec<Vec<usize>>,
    glyphs: usize,
    Ghost(solution): Ghost<Seq<usize>>,
) -> (drawn: bool)
    requires
        grid_of(board@) == decoded(solution, board@.len() as int),
    ensures
        drawn == forall|r: int, c: int|
            0 <= r < board@.len() && 0 <= c < board@.len() ==> #[trigger] cell_drawn(
                solution,
                board@.len() as int,
                glyphs as int,
                r,
                c,
            ),
{
    let n = board.len();
    let ghost grid = grid_of(board@);
    let mut r: usize = 0;
    while r < n
        invariant
            r <= n,
            n == board@.len(),
            grid == grid_of(board@),
            grid == decoded(solution, n as int),
            forall|i: int, c: int|
                0 <= i < r && 0 <= c < n ==> #[trigger] cell_drawn(
                    solution,
                    n as int,
                    glyphs as int,
                    i,
                    c,
                ),
        decreases n - r,
    {
        proof {
            assert(grid[r as int] == board@[r as int]@);
            assert(grid[r as int].len() == n);
        }
        let mut c: usize = 0;
        while c < n
            invariant
                c <= n,
                r < n,
                n == board@.len(),
                grid == grid_of(board@),
                grid == decoded(solution, n as int),
                board@[r as int]@.len() == n,
                forall|j: int|
                    0 <= j < c ==> #[trigger] cell_drawn(
                        solution,
                        n as int,
                        glyphs as int,
                        r as int,
                        j,
                    ),
            decreases n - c,
        {
            let digit = board[r][c];
            proof {
                assert(grid[r as int][c as int] == digit);
                assert(digit == digit_after(
                    solution,
                    n as int,
                    r as int,
                    c as int,
                    solution.len() as int,
                ) as usize);
                lemma_digit_bound(solution, n as int, r as int, c as int, solution.len() as int);
            }
            if digit < 1 || digit > glyphs {
                proof {
                    assert(!cell_drawn(solution, n as int, glyphs as int, r as int, c as int));
                }
                return false;
            }
            c += 1;
        }
        r += 1;
    }
    true
}

/// A digit that rows of a solution put into a cell is at most the size of
/// the board.
pub proof fn lemma_digit_bound(solution: Seq<usize>, n: int, r: int, c: int, k: int)
    requires
        n > 0,
        0 <= k <= solution.len(),
    ensures
        0 <= digit_after(solution, n, r, c, k) <= n,
    decreases k,
{
    if k > 0 {
        lemma_digit_bound(solution, n, r, c, k - 1);
    }
}

/// Draws the board that a solution fills, line by line: none if the
/// solution cannot be drawn.
pub fn draw_sudoku(
    solution: &Vec<usize>,
    box_rows: usize,
    box_columns: usize,
    alphabet: &Vec<char>,
) -> (lines: Option<Vec<Vec<char>>>)
    requires
        countable(box_rows, box_columns),
    ensures
        lines is Some == drawable(
            solution@,
            box_rows * box_columns,
            alphabet@.len() as int,
        ),
        lines is Some ==> lines_of(lines->0@) == digits_drawing(
            decoded(solution@, box_rows * box_columns),
            alphabet@,
            box_rows as int,
            box_columns as int,
        ),
{
    let n = match board_size_of(box_rows, box_columns) {
        Some(n) => n,
        None => {
            return None;
        },
    };
    let ghost ni = n as int;
    proof {
        assert(ni * ni <= ni * ni * ni) by (nonlinear_arith)
            requires
                ni >= 0,
        ;
    }
    if !rows_known(solution, n * n * n, Ghost(ni)) {
        return None;
    }
    proof {
        assert forall|i: int| 0 <= i < solution@.len() implies (#[trigger] solution@[i]) < n * n
            * n by {
            assert(row_known(solution@, ni, i));
        }
    }
    let board = decode_solution(solution, n);
    proof {
        let grid = grid_of(board@);
        let goal = decoded(solution@, ni);
        assert forall|r: int| 0 <= r < n implies grid[r] == goal[r] by {
            assert(board@[r]@.len() == n);
            assert forall|c: int| 0 <= c < n implies grid[r][c] == goal[r][c] by {
                assert(board@[r]@[c] == digit_after(solution@, ni, r, c, solution@.len() as int));
            }
            assert(grid[r] =~= goal[r]);
        }
        assert(grid =~= goal);
    }
    if !cells_drawn(&board, alphabet.len(), Ghost(solution@)) {
        return None;
    }
    proof {
        assert forall|r: int, c: int|
            0 <= r < board@.len() && 0 <= c < board@[r]@.len() implies 1 <= (
            #[trigger] board@[r]@[c]) <= alphabet@.len() by {
            assert(board@[r]@.len() == n);
            assert(cell_drawn(solution@, ni, alphabet@.len() as int, r, c));
            assert(board@[r]@[c] == digit_after(solution@, ni, r, c, solution@.len() as int));
        }
    }
    Some(draw_digits_board(&board, alphabet, box_rows, box_columns))
}

/// The rows that a list names.
pub open spec fn rows_of(solution: Seq<usize>) -> Set<int> {
    Set::new(|q: int| 0 <= q <= usize::MAX && solution.contains(q as usize))
}

/// A row of the list that lies in a cell puts a digit there.
proof fn lemma_digit_found(solution: Seq<usize>, n: int, r: int, c: int, k: int, j: int)
    requires
        n > 0,
        0 <= j < k <= solution.len(),
        (solution[j] as int) / n == r * n + c,
    ensures
        1 <= digit_after(solution, n, r, c, k),
    decreases k,
{
    if (solution[k - 1] as int) / n == r * n + c {
        assert(0 <= (solution[k - 1] as int) % n);
    } else {
        lemma_digit_found(solution, n, r, c, k - 1, j);
    }
}

/// A solution of a Sudoku fills the board: it puts a digit into every
/// cell, and with a glyph for each digit of the board it can be drawn.
pub proof fn lemma_solution_fills_board(
    box_rows: usize,
    box_columns: usize,
    solution: Seq<usize>,
    glyphs: int,
)
    requires
        countable(box_rows, box_columns),
        sudoku_matrix(box_rows as int, box_columns as int).is_solution(rows_of(solution)),
        glyphs >= box_rows * box_columns,
    ensures
        drawable(solution, box_rows * box_columns, glyphs),
{
    let n = box_rows * box_columns;
    let m = sudoku_matrix(box_rows as int, box_columns as int);
    let s = rows_of(solution);
    assert forall|i: int| 0 <= i < solution.len() implies #[trigger] row_known(
        solution,
        n,
        i,
    ) by {
        assert(s.contains(solution[i] as int));
    }
    assert forall|r: int, c: int| 0 <= r < n && 0 <= c < n implies #[trigger] cell_drawn(
        solution,
        n,
        glyphs,
        r,
        c,
    ) by {
        let i = r * n + c;
        assert(0 <= i < n * n) by (nonlinear_arith)
            requires
                i == r * n + c,
                0 <= r < n,
                0 <= c < n,
        ;
        assert(n * n <= 4 * n * n) by (nonlinear_arith);
        assert(m.columns[i].kind == ColumnType::Unique);
        assert(m.exactly_once(s, i));
        assert(!m.untouched(s, i));
        let d = choose|d: int|
            0 <= d < m.columns[i].rows.len() && s.contains(#[trigger] m.columns[i].rows[d] as int);
        let q = m.columns[i].rows[d];
        assert(m.columns[i].rows.len() == n);
        assert(0 <= i * n + d < n * n * n) by (nonlinear_arith)
            requires
                0 <= i < n * n,
                0 <= d < n,
        ;
        assert(q == i * n + d);
        assert(solution.contains(q));
        let j = choose|j: int| 0 <= j < solution.len() && solution[j] == q;
        lemma_fundamental_div_mod_converse(q as int, n, i, d);
        lemma_digit_found(solution, n, r, c, solution.len() as int, j);
        lemma_digit_bound(solution, n, r, c, solution.len() as int);
    }
}

impl SudokuPuzzle {
    /// The solver holds the matrix of the Sudoku with the boxes of the
    /// puzzle.
    pub open spec fn wf(&self) -> bool {
        &&& countable(self.box_rows, self.box_columns)
        &&& self.solver.wf()
        &&& self.solver@ == sudoku_matrix(self.box_rows as int, self.box_columns as int)
    }

    /// What was found is the board that the solver has chosen: drawn,
    /// or not drawn where the puzzle lacks a glyph for one of its digits.
    pub open spec fn shows(&self, drawing: Option<Vec<Vec<char>>>) -> bool {
        exists|solution: Seq<usize>| #[trigger]
            self.solver.lists_chosen(solution) && (drawing is Some <==> drawable(
                solution,
                self.box_rows * self.box_columns,
                self.alphabet@.len() as int,
            )) && (drawing is Some ==> lines_of(drawing->0@) == digits_drawing(
                decoded(solution, self.box_rows * self.box_columns),
                self.alphabet@,
                self.box_rows as int,
                self.box_columns as int,
            ))
    }

    /// Looks for the next solution and draws it; none when the search is
    /// over. A solution is drawn if the puzzle has a glyph for every
    /// digit.
    pub fn next_drawing(&mut self) -> (found: Option<Option<Vec<Vec<char>>>>)
        requires
            old(self).wf(),
        ensures
            final(self).wf(),
            final(self).box_rows == old(self).box_rows,
            final(self).box_columns == old(self).box_columns,
            final(self).alphabet@ == old(self).alphabet@,
            match found {
                Some(drawing) => final(self).solver@.is_solution(final(self).solver.chosen_set())
                    && final(self).shows(drawing) && (final(self).alphabet@.len()
                    >= final(self).box_rows * final(self).box_columns ==> drawing is Some),
                None => final(self).solver.exhausted(),
            },
            exists|rows: Option<Seq<usize>>|
                (rows is Some) == (found is Some) && #[trigger] final(self).solver.is_next_of(
                    &old(self).solver,
                    rows,
                ),
    {
        let ghost before = self.solver;
        match self.solver.solve_next() {
            Some(solution) => {
                let drawing = draw_sudoku(
                    &solution,
                    self.box_rows,
                    self.box_columns,
                    &self.alphabet,
                );
                proof {
                    assert(self.solver.lists_chosen(solution@));
                    if self.alphabet@.len() >= self.box_rows * self.box_columns {
                        assert(rows_of(solution@) =~= self.solver.chosen_set()) by {
                            assert forall|q: int| self.solver.is_chosen(q) implies rows_of(
                                solution@,
                            ).contains(q) by {
                                assert(solution@.contains(q as usize));
                            }
                            assert forall|q: int| rows_of(solution@).contains(
                                q,
                            ) implies self.solver.is_chosen(q) by {
                                let j = choose|j: int|
                                    0 <= j < solution@.len() && solution@[j] == q as usize;
                                assert(self.solver.is_chosen(solution@[j] as int));
                            }
                        }
                        lemma_solution_fills_board(
                            self.box_rows,
                            self.box_columns,
                            solution@,
                            self.alphabet@.len() as int,
                        );
                    }
                    assert(self.solver.is_next_of(&before, Some(solution@)));
                }
                Some(drawing)
            },
            None => {
                proof {
                    assert(self.solver.is_next_of(&before, None));
                }
                None
            },
        }
    }
}

} // verus!
