//! Drawing boards with lines: the frame of the board, and between the cells
//! a line wherever two neighbours do not belong together.

use vstd::prelude::*;

verus! {

/// A grid of `height` rows of `width` cells each.
pub open spec fn is_grid(board: Seq<Vec<usize>>, height: int, width: int) -> bool {
    &&& board.len() == height
    &&& forall|r: int| 0 <= r < height ==> (#[trigger] board[r])@.len() == width
}

/// Two neighbouring cells belong together: they hold the same piece.
pub open spec fn joined(a: usize, b: usize) -> bool {
    a == b && a > 0
}

fn is_joined(a: usize, b: usize) -> (j: bool)
    ensures
        j == joined(a, b),
{
    a == b && a > 0
}

/// The glyph where four cells meet, from the pieces in the cells above
/// left, above right, below left and below right.
pub open spec fn junction(tl: usize, tr: usize, bl: usize, br: usize) -> char {
    if joined(tl, tr) {
        if joined(bl, br) {
            if tl == bl {
                ' '
            } else {
                '─'
            }
        } else if tl == bl {
            '┌'
        } else if tr == br {
            '┐'
        } else {
            '┬'
        }
    } else if joined(bl, br) {
        if tl == bl {
            '└'
        } else if tr == br {
            '┘'
        } else {
            '┴'
        }
    } else if joined(tl, bl) {
        if joined(tr, br) {
            '│'
        } else {
            '├'
        }
    } else if joined(tr, br) {
        '┤'
    } else {
        '┼'
    }
}

fn junction_glyph(tl: usize, tr: usize, bl: usize, br: usize) -> (glyph: char)
    ensures
        glyph == junction(tl, tr, bl, br),
{
    if is_joined(tl, tr) {
        if is_joined(bl, br) {
            if tl == bl {
                ' '
            } else {
                '─'
            }
        } else if tl == bl {
            '┌'
        } else if tr == br {
            '┐'
        } else {
            '┬'
        }
    } else if is_joined(bl, br) {
        if tl == bl {
            '└'
        } else if tr == br {
            '┘'
        } else {
            '┴'
        }
    } else if is_joined(tl, bl) {
        if is_joined(tr, br) {
            '│'
        } else {
            '├'
        }
    } else if is_joined(tr, br) {
        '┤'
    } else {
        '┼'
    }
}

/// Three glyphs of a horizontal line.
pub open spec fn dashes() -> Seq<char> {
    seq!['─', '─', '─']
}

/// The inside of the first or last line of the drawing over the first `k`
/// cells of the row next to it: a tee between two cells that do not belong
/// together.
pub open spec fn edge_cells(row: Seq<usize>, tee: char, k: int) -> Seq<char>
    decreases k,
{
    if k <= 0 {
        Seq::empty()
    } else if k == 1 {
        dashes()
    } else {
        edge_cells(row, tee, k - 1) + seq![
            if joined(row[k - 2], row[k - 1]) {
                '─'
            } else {
                tee
            },
        ] + dashes()
    }
}

/// The first or last line of the drawing.
pub open spec fn edge_line(row: Seq<usize>, left: char, tee: char, right: char) -> Seq<char> {
    seq![left] + edge_cells(row, tee, row.len() as int) + seq![right]
}

/// The inside of the line between two rows over their first `k` cells.
pub open spec fn rule_cells(upper: Seq<usize>, lower: Seq<usize>, k: int) -> Seq<char>
    decreases k,
{
    if k <= 0 {
        Seq::empty()
    } else {
        let segment = if joined(upper[k - 1], lower[k - 1]) {
            seq![' ', ' ', ' ']
        } else {
            dashes()
        };
        if k == 1 {
            segment
        } else {
            rule_cells(upper, lower, k - 1) + seq![
                junction(upper[k - 2], upper[k - 1], lower[k - 2], lower[k - 1]),
            ] + segment
        }
    }
}

/// The line between two rows.
pub open spec fn rule_line(upper: Seq<usize>, lower: Seq<usize>) -> Seq<char> {
    seq![
        if joined(upper[0], lower[0]) {
            '│'
        } else {
            '├'
        },
    ] + rule_cells(upper, lower, upper.len() as int) + seq![
        if joined(upper[upper.len() - 1], lower[upper.len() - 1]) {
            '│'
        } else {
            '┤'
        },
    ]
}

/// The inside of the line of a row over its first `k` cells: an open cell
/// is marked.
pub open spec fn cell_cells(row: Seq<usize>, k: int) -> Seq<char>
    decreases k,
{
    if k <= 0 {
        Seq::empty()
    } else {
        let cell = seq![
            ' ',
            if row[k - 1] == 0 {
                'x'
            } else {
                ' '
            },
            ' ',
        ];
        if k == 1 {
            cell
        } else {
            cell_cells(row, k - 1) + seq![
                if joined(row[k - 2], row[k - 1]) {
                    ' '
                } else {
                    '│'
                },
            ] + cell
        }
    }
}

/// The line of a row.
pub open spec fn cell_line(row: Seq<usize>) -> Seq<char> {
    seq!['│'] + cell_cells(row, row.len() as int) + seq!['│']
}

/// The lines of the first `k` rows, with the lines between them.
pub open spec fn body_lines(board: Seq<Seq<usize>>, k: int) -> Seq<Seq<char>>
    decreases k,
{
    if k <= 0 {
        Seq::empty()
    } else if k == 1 {
        seq![cell_line(board[0])]
    } else {
        body_lines(board, k - 1).push(rule_line(board[k - 2], board[k - 1])).push(
            cell_line(board[k - 1]),
        )
    }
}

/// The drawing of a board of pieces: cell by cell the number of the piece
/// that covers it, 0 for an open cell.
pub open spec fn pieces_drawing(board: Seq<Seq<usize>>) -> Seq<Seq<char>> {
    seq![edge_line(board[0], '┌', '┬', '┐')] + body_lines(board, board.len() as int) + seq![
        edge_line(board[board.len() - 1], '└', '┴', '┘'),
    ]
}

/// The lines as they are, glyph by glyph.
pub open spec fn lines_of(lines: Seq<Vec<char>>) -> Seq<Seq<char>> {
    lines.map_values(|l: Vec<char>| l@)
}

/// The board as it is, cell by cell.
pub open spec fn grid_of(board: Seq<Vec<usize>>) -> Seq<Seq<usize>> {
    board.map_values(|row: Vec<usize>| row@)
}

fn draw_edge(row: &Vec<usize>, left: char, tee: char, right: char) -> (line: Vec<char>)
    requires
        row@.len() >= 1,
    ensures
        line@ == edge_line(row@, left, tee, right),
{
    let mut line: Vec<char> = Vec::new();
    line.push(left);
    let mut column: usize = 0;
    while column < row.len()
        invariant
            column <= row@.len(),
            line@ == seq![left] + edge_cells(row@, tee, column as int),
        decreases row@.len() - column,
    {
        let ghost before = line@;
        if column > 0 {
            if is_joined(row[column - 1], row[column]) {
                line.push('─');
            } else {
                line.push(tee);
            }
        }
        line.push('─');
        line.push('─');
        line.push('─');
        proof {
            assert(line@ =~= seq![left] + edge_cells(row@, tee, column + 1));
        }
        column += 1;
    }
    line.push(right);
    line
}

fn draw_rule(upper: &Vec<usize>, lower: &Vec<usize>) -> (line: Vec<char>)
    requires
        upper@.len() >= 1,
        lower@.len() == upper@.len(),
    ensures
        line@ == rule_line(upper@, lower@),
{
    let width = upper.len();
    let mut line: Vec<char> = Vec::new();
    if is_joined(upper[0], lower[0]) {
        line.push('│');
    } else {
        line.push('├');
    }
    let ghost start = line@;
    let mut column: usize = 0;
    while column < width
        invariant
            column <= width,
            width == upper@.len(),
            lower@.len() == upper@.len(),
            line@ == start + rule_cells(upper@, lower@, column as int),
        decreases width - column,
    {
        let top_right = upper[column];
        let bottom_right = lower[column];
        if column > 0 {
            line.push(junction_glyph(upper[column - 1], top_right, lower[column - 1], bottom_right));
        }
        if is_joined(top_right, bottom_right) {
            line.push(' ');
            line.push(' ');
            line.push(' ');
        } else {
            line.push('─');
            line.push('─');
            line.push('─');
        }
        proof {
            assert(line@ =~= start + rule_cells(upper@, lower@, column + 1));
        }
        column += 1;
    }
    if is_joined(upper[width - 1], lower[width - 1]) {
        line.push('│');
    } else {
        line.push('┤');
    }
    line
}

fn draw_cells(row: &Vec<usize>) -> (line: Vec<char>)
    requires
        row@.len() >= 1,
    ensures
        line@ == cell_line(row@),
{
    let mut line: Vec<char> = Vec::new();
    line.push('│');
    let mut column: usize = 0;
    while column < row.len()
        invariant
            column <= row@.len(),
            line@ == seq!['│'] + cell_cells(row@, column as int),
        decreases row@.len() - column,
    {
        let color = row[column];
        if column != 0 {
            if is_joined(row[column - 1], color) {
                line.push(' ');
            } else {
                line.push('│');
            }
        }
        line.push(' ');
        if color == 0 {
            line.push('x');
        } else {
            line.push(' ');
        }
        line.push(' ');
        proof {
            assert(line@ =~= seq!['│'] + cell_cells(row@, column + 1));
        }
        column += 1;
    }
    line.push('│');
    line
}

/// Draws a board of pieces, line by line.
pub fn draw_pieces(board: &Vec<Vec<usize>>) -> (lines: Vec<Vec<char>>)
    requires
        board@.len() >= 1,
        board@[0]@.len() >= 1,
        is_grid(board@, board@.len() as int, board@[0]@.len() as int),
    ensures
        lines_of(lines@) == pieces_drawing(grid_of(board@)),
{
    let height = board.len();
    let ghost grid = grid_of(board@);
    let mut lines: Vec<Vec<char>> = Vec::new();
    lines.push(draw_edge(&board[0], '┌', '┬', '┐'));
    let ghost top = lines_of(lines@);
    proof {
        assert(top =~= seq![edge_line(board@[0]@, '┌', '┬', '┐')]);
        assert(lines_of(lines@) =~= top + body_lines(grid, 0));
    }
    let mut row_index: usize = 0;
    while row_index < height
        invariant
            row_index <= height,
            height == board@.len(),
            height >= 1,
            board@[0]@.len() >= 1,
            is_grid(board@, board@.len() as int, board@[0]@.len() as int),
            grid == grid_of(board@),
            lines_of(lines@) == top + body_lines(grid, row_index as int),
        decreases height - row_index,
    {
        let ghost before = lines_of(lines@);
        if row_index > 0 {
            lines.push(draw_rule(&board[row_index - 1], &board[row_index]));
            proof {
                assert(lines_of(lines@) =~= before.push(
                    rule_line(board@[row_index - 1]@, board@[row_index as int]@),
                ));
            }
        }
        let ghost middle = lines_of(lines@);
        lines.push(draw_cells(&board[row_index]));
        proof {
            assert(lines_of(lines@) =~= middle.push(cell_line(board@[row_index as int]@)));
            assert(lines_of(lines@) =~= top + body_lines(grid, row_index + 1));
        }
        row_index += 1;
    }
    let ghost body = lines_of(lines@);
    lines.push(draw_edge(&board[height - 1], '└', '┴', '┘'));
    proof {
        assert(lines_of(lines@) =~= body.push(edge_line(board@[height - 1]@, '└', '┴', '┘')));
        assert(lines_of(lines@) =~= pieces_drawing(grid));
    }
    lines
}

/// A vertical line of the drawing of a Sudoku lies before column
/// `column`: a box begins there.
pub open spec fn box_begins(index: int, box_size: int) -> bool {
    index > 0 && box_size > 0 && index % box_size == 0
}

/// The inside of a line of the frame of a Sudoku over the first `k`
/// columns, with the glyph `tee` where a box begins.
pub open spec fn frame_cells(tee: char, box_columns: int, k: int) -> Seq<char>
    decreases k,
{
    if k <= 0 {
        Seq::empty()
    } else if k == 1 {
        seq!['─']
    } else if box_begins(k - 1, box_columns) {
        frame_cells(tee, box_columns, k - 1) + seq!['─', tee, '─', '─']
    } else {
        frame_cells(tee, box_columns, k - 1) + seq!['─', '─']
    }
}

/// A line of the frame of a Sudoku of `n` columns.
pub open spec fn frame_line(left: char, tee: char, right: char, box_columns: int, n: int) -> Seq<
    char,
> {
    seq![left, '─'] + frame_cells(tee, box_columns, n) + seq!['─', right]
}

/// The glyph of a digit, counted from 1.
pub open spec fn digit_glyph(alphabet: Seq<char>, digit: usize) -> char {
    alphabet[digit - 1]
}

/// The inside of the line of a row of a Sudoku over its first `k` cells.
pub open spec fn digit_cells(row: Seq<usize>, alphabet: Seq<char>, box_columns: int, k: int) -> Seq<
    char,
>
    decreases k,
{
    if k <= 0 {
        Seq::empty()
    } else if k == 1 {
        seq![digit_glyph(alphabet, row[0])]
    } else if box_begins(k - 1, box_columns) {
        digit_cells(row, alphabet, box_columns, k - 1) + seq![
            ' ',
            '│',
            ' ',
            digit_glyph(alphabet, row[k - 1]),
        ]
    } else {
        digit_cells(row, alphabet, box_columns, k - 1) + seq![
            ' ',
            digit_glyph(alphabet, row[k - 1]),
        ]
    }
}

/// The line of a row of a Sudoku.
pub open spec fn digit_line(row: Seq<usize>, alphabet: Seq<char>, box_columns: int) -> Seq<char> {
    seq!['│', ' '] + digit_cells(row, alphabet, box_columns, row.len() as int) + seq![' ', '│']
}

/// The lines of the first `k` rows of a Sudoku, with a line of the frame
/// where a box begins.
pub open spec fn digit_lines(
    board: Seq<Seq<usize>>,
    alphabet: Seq<char>,
    box_rows: int,
    box_columns: int,
    k: int,
) -> Seq<Seq<char>>
    decreases k,
{
    if k <= 0 {
        Seq::empty()
    } else if box_begins(k - 1, box_rows) {
        digit_lines(board, alphabet, box_rows, box_columns, k - 1).push(
            frame_line('├', '┼', '┤', box_columns, board.len() as int),
        ).push(digit_line(board[k - 1], alphabet, box_columns))
    } else {
        digit_lines(board, alphabet, box_rows, box_columns, k - 1).push(
            digit_line(board[k - 1], alphabet, box_columns),
        )
    }
}

/// The drawing of a Sudoku: the digits in their cells, the boxes framed.
pub open spec fn digits_drawing(
    board: Seq<Seq<usize>>,
    alphabet: Seq<char>,
    box_rows: int,
    box_columns: int,
) -> Seq<Seq<char>> {
    seq![frame_line('┌', '┬', '┐', box_columns, board.len() as int)] + digit_lines(
        board,
        alphabet,
        box_rows,
        box_columns,
        board.len() as int,
    ) + seq![frame_line('└', '┴', '┘', box_columns, board.len() as int)]
}

fn draw_frame(left: char, tee: char, right: char, box_columns: usize, n: usize) -> (line: Vec<char>)
    ensures
        line@ == frame_line(left, tee, right, box_columns as int, n as int),
{
    let mut line: Vec<char> = Vec::new();
    line.push(left);
    line.push('─');
    let ghost start = line@;
    proof {
        assert(line@ =~= start + frame_cells(tee, box_columns as int, 0));
    }
    let mut column: usize = 0;
    while column < n
        invariant
            column <= n,
            start == seq![left, '─'],
            line@ == start + frame_cells(tee, box_columns as int, column as int),
        decreases n - column,
    {
        if column > 0 {
            line.push('─');
            if box_columns > 0 && column % box_columns == 0 {
                line.push(tee);
                line.push('─');
            }
        }
        line.push('─');
        proof {
            assert(line@ =~= start + frame_cells(tee, box_columns as int, column + 1));
        }
        column += 1;
    }
    line.push('─');
    line.push(right);
    proof {
        assert(line@ =~= frame_line(left, tee, right, box_columns as int, n as int));
    }
    line
}

fn draw_digits(row: &Vec<usize>, alphabet: &Vec<char>, box_columns: usize) -> (line: Vec<char>)
    requires
        forall|c: int| 0 <= c < row@.len() ==> 1 <= (#[trigger] row@[c]) <= alphabet@.len(),
    ensures
        line@ == digit_line(row@, alphabet@, box_columns as int),
{
    let mut line: Vec<char> = Vec::new();
    line.push('│');
    line.push(' ');
    let ghost start = line@;
    proof {
        assert(line@ =~= start + digit_cells(row@, alphabet@, box_columns as int, 0));
    }
    let mut column: usize = 0;
    while column < row.len()
        invariant
            column <= row@.len(),
            start == seq!['│', ' '],
            forall|c: int| 0 <= c < row@.len() ==> 1 <= (#[trigger] row@[c]) <= alphabet@.len(),
            line@ == start + digit_cells(row@, alphabet@, box_columns as int, column as int),
        decreases row@.len() - column,
    {
        if column > 0 {
            line.push(' ');
            if box_columns > 0 && column % box_columns == 0 {
                line.push('│');
                line.push(' ');
            }
        }
        let digit = row[column];
        line.push(alphabet[digit - 1]);
        proof {
            assert(line@ =~= start + digit_cells(row@, alphabet@, box_columns as int, column + 1));
        }
        column += 1;
    }
    line.push(' ');
    line.push('│');
    proof {
        assert(line@ =~= digit_line(row@, alphabet@, box_columns as int));
    }
    line
}

/// Draws a Sudoku, line by line. Every cell holds a digit, counted from 1,
/// for which the alphabet has a glyph.
pub fn draw_digits_board(
    board: &Vec<Vec<usize>>,
    alphabet: &Vec<char>,
    box_rows: usize,
    box_columns: usize,
) -> (lines: Vec<Vec<char>>)
    requires
        forall|r: int, c: int|
            0 <= r < board@.len() && 0 <= c < board@[r]@.len() ==> 1 <= (#[trigger] board@[r]@[c])
                <= alphabet@.len(),
    ensures
        lines_of(lines@) == digits_drawing(
            grid_of(board@),
            alphabet@,
            box_rows as int,
            box_columns as int,
        ),
{
    let n = board.len();
    let ghost grid = grid_of(board@);
    let mut lines: Vec<Vec<char>> = Vec::new();
    lines.push(draw_frame('┌', '┬', '┐', box_columns, n));
    let ghost top = lines_of(lines@);
    proof {
        assert(top =~= seq![frame_line('┌', '┬', '┐', box_columns as int, n as int)]);
        assert(lines_of(lines@) =~= top + digit_lines(
            grid,
            alphabet@,
            box_rows as int,
            box_columns as int,
            0,
        ));
    }
    let mut row: usize = 0;
    while row < n
        invariant
            row <= n,
            n == board@.len(),
            grid == grid_of(board@),
            forall|r: int, c: int|
                0 <= r < board@.len() && 0 <= c < board@[r]@.len() ==> 1 <= (
                #[trigger] board@[r]@[c]) <= alphabet@.len(),
            lines_of(lines@) == top + digit_lines(
                grid,
                alphabet@,
                box_rows as int,
                box_columns as int,
                row as int,
            ),
        decreases n - row,
    {
        let ghost before = lines_of(lines@);
        if row > 0 && box_rows > 0 && row % box_rows == 0 {
            lines.push(draw_frame('├', '┼', '┤', box_columns, n));
            proof {
                assert(lines_of(lines@) =~= before.push(
                    frame_line('├', '┼', '┤', box_columns as int, n as int),
                ));
            }
        }
        let ghost middle = lines_of(lines@);
        proof {
            assert forall|c: int| 0 <= c < board@[row as int]@.len() implies 1 <= (
            #[trigger] board@[row as int]@[c]) <= alphabet@.len() by {}
        }
        lines.push(draw_digits(&board[row], alphabet, box_columns));
        proof {
            assert(lines_of(lines@) =~= middle.push(
                digit_line(board@[row as int]@, alphabet@, box_columns as int),
            ));
            assert(lines_of(lines@) =~= top + digit_lines(
                grid,
                alphabet@,
                box_rows as int,
                box_columns as int,
                row + 1,
            ));
        }
        row += 1;
    }
    let ghost body = lines_of(lines@);
    lines.push(draw_frame('└', '┴', '┘', box_columns, n));
    proof {
        assert(lines_of(lines@) =~= body.push(
            frame_line('└', '┴', '┘', box_columns as int, n as int),
        ));
        assert(lines_of(lines@) =~= digits_drawing(
            grid,
            alphabet@,
            box_rows as int,
            box_columns as int,
        ));
    }
    lines
}

} // verus!
