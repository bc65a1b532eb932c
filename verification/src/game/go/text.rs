//! The text form of a board: one line for each row, one character for each
//! point, `x` for a black stone, `o` for a white stone and `.` for an empty
//! point. White space around a line and blank lines do not count.

use crate::game::go::board::{Board, BoardError};
use crate::game::go::position::Position;
use crate::game::go::types::{Color, Point};
use crate::zobrist::lemma_cell_index_bounds;
use vstd::prelude::*;
use vstd::string::StringExecFns;

verus! {

/// Whether `c` is white space.
pub open spec fn is_space(c: char) -> bool {
    let code = c as u32;
    ||| 0x09 <= code <= 0x0D
    ||| code == 0x20
    ||| code == 0x85
    ||| code == 0xA0
    ||| code == 0x1680
    ||| 0x2000 <= code <= 0x200A
    ||| code == 0x2028
    ||| code == 0x2029
    ||| code == 0x202F
    ||| code == 0x205F
    ||| code == 0x3000
}

/// Whether `c` is white space.
pub fn is_whitespace(c: char) -> (space: bool)
    ensures
        space == is_space(c),
{
    let code = c as u32;
    (0x09 <= code && code <= 0x0D) || code == 0x20 || code == 0x85 || code == 0xA0 || code == 0x1680
        || (0x2000 <= code && code <= 0x200A) || code == 0x2028 || code == 0x2029 || code == 0x202F
        || code == 0x205F || code == 0x3000
}

/// What a character of the text form stands for: a cell with a stone or
/// without one, or nothing.
pub open spec fn stone_of(c: char) -> Option<Option<Color>> {
    if c == 'o' {
        Some(Some(Color::White))
    } else if c == 'x' {
        Some(Some(Color::Black))
    } else if c == '.' {
        Some(None)
    } else {
        None
    }
}

/// The character that stands for a cell.
pub open spec fn glyph(cell: Option<Color>) -> char {
    match cell {
        None => '.',
        Some(Color::Black) => 'x',
        Some(Color::White) => 'o',
    }
}

/// What a character of the text form stands for.
pub fn decode(c: char) -> (cell: Option<Option<Color>>)
    ensures
        cell == stone_of(c),
{
    if c == 'o' {
        Some(Some(Color::White))
    } else if c == 'x' {
        Some(Some(Color::Black))
    } else if c == '.' {
        Some(None)
    } else {
        None
    }
}

/// Where the line that holds the position `from` ends: at the next line feed,
/// or at the end of the text.
pub open spec fn line_end(text: Seq<char>, from: int) -> int
    decreases text.len() - from,
{
    if from < 0 || from >= text.len() {
        text.len() as int
    } else if text[from] == '\n' {
        from
    } else {
        line_end(text, from + 1)
    }
}

/// The first position from `from` on that holds no white space, or `to`.
pub open spec fn trim_start(text: Seq<char>, from: int, to: int) -> int
    decreases to - from,
{
    if from < to && is_space(text[from]) {
        trim_start(text, from + 1, to)
    } else {
        from
    }
}

/// The position behind the last character before `to` that is no white
/// space, or `from`.
pub open spec fn trim_end(text: Seq<char>, from: int, to: int) -> int
    decreases to - from,
{
    if from < to && is_space(text[to - 1]) {
        trim_end(text, from, to - 1)
    } else {
        to
    }
}

/// The rows of the text from the position `from` on, which begins a line:
/// for each line that is not blank, where it begins and ends without the
/// white space around it.
pub open spec fn row_spans(text: Seq<char>, from: int) -> Seq<(int, int)>
    decreases text.len() - from,
    via row_spans_decreases
{
    if from < 0 || from >= text.len() {
        Seq::empty()
    } else {
        let end = line_end(text, from);
        let start = trim_start(text, from, end);
        let stop = trim_end(text, start, end);
        let rest = if end < text.len() {
            row_spans(text, end + 1)
        } else {
            Seq::empty()
        };
        if start < stop {
            seq![(start, stop)] + rest
        } else {
            rest
        }
    }
}

#[via_fn]
proof fn row_spans_decreases(text: Seq<char>, from: int) {
    if 0 <= from < text.len() {
        lemma_line_end(text, from);
    }
}

/// A line ends at or behind each of its positions, within the text.
pub proof fn lemma_line_end(text: Seq<char>, from: int)
    requires
        0 <= from <= text.len(),
    ensures
        from <= line_end(text, from) <= text.len(),
    decreases text.len() - from,
{
    if from < text.len() && text[from] != '\n' {
        lemma_line_end(text, from + 1);
    }
}

/// Trimming stays within the part that is trimmed.
pub proof fn lemma_trim(text: Seq<char>, from: int, to: int)
    requires
        from <= to,
    ensures
        from <= trim_start(text, from, to) <= to,
        from <= trim_end(text, from, to) <= to,
    decreases to - from,
{
    if from < to {
        lemma_trim(text, from + 1, to);
        lemma_trim(text, from, to - 1);
    }
}

/// The number of characters in the given rows.
pub open spec fn span_total(spans: Seq<(int, int)>) -> int
    decreases spans.len(),
{
    if spans.len() == 0 {
        0
    } else {
        span_total(spans.drop_last()) + (spans.last().1 - spans.last().0)
    }
}

/// The number of characters in some rows and some more rows.
proof fn lemma_span_total_add(a: Seq<(int, int)>, b: Seq<(int, int)>)
    ensures
        span_total(a + b) == span_total(a) + span_total(b),
    decreases b.len(),
{
    if b.len() == 0 {
        assert(a + b =~= a);
    } else {
        lemma_span_total_add(a, b.drop_last());
        assert((a + b).drop_last() =~= a + b.drop_last());
    }
}

/// Rows lie within the text behind `from`, none is empty, and together they
/// hold no more characters than the text has from there on.
pub proof fn lemma_row_spans(text: Seq<char>, from: int)
    requires
        0 <= from,
    ensures
        forall|i: int|
            0 <= i < row_spans(text, from).len() ==> from <= (#[trigger] row_spans(
                text,
                from,
            )[i]).0 < row_spans(text, from)[i].1 <= text.len(),
        from <= text.len() ==> span_total(row_spans(text, from)) <= text.len() - from,
    decreases text.len() - from,
{
    if from < text.len() {
        lemma_line_end(text, from);
        let end = line_end(text, from);
        lemma_trim(text, from, end);
        let start = trim_start(text, from, end);
        lemma_trim(text, start, end);
        let stop = trim_end(text, start, end);
        let rest = if end < text.len() {
            row_spans(text, end + 1)
        } else {
            Seq::empty()
        };
        if end < text.len() {
            lemma_row_spans(text, end + 1);
        }
        if start < stop {
            let first = seq![(start, stop)];
            lemma_span_total_add(first, rest);
            assert(first.drop_last() =~= Seq::<(int, int)>::empty());
            assert(first.last() == (start, stop));
            assert(span_total(first.drop_last()) == 0);
            assert(span_total(first) == stop - start);
        }
    }
}

/// Rows of one length hold that length times their number of characters.
pub proof fn lemma_span_total_even(spans: Seq<(int, int)>, width: int)
    requires
        forall|i: int| 0 <= i < spans.len() ==> (#[trigger] spans[i]).1 - spans[i].0 == width,
    ensures
        span_total(spans) == spans.len() * width,
    decreases spans.len(),
{
    if spans.len() > 0 {
        lemma_span_total_even(spans.drop_last(), width);
        assert(spans.len() * width == (spans.len() - 1) * width + width) by (nonlinear_arith);
    }
}

/// The character that the text holds for the cell in the given row and
/// column, both counted from 0.
pub open spec fn cell_char(text: Seq<char>, row: int, col: int) -> char {
    text[row_spans(text, 0)[row].0 + col]
}

/// Whether the text holds a square: at least one row, and as many characters
/// in each row as there are rows.
pub open spec fn is_square(text: Seq<char>) -> bool {
    let spans = row_spans(text, 0);
    &&& spans.len() > 0
    &&& forall|i: int| 0 <= i < spans.len() ==> (#[trigger] spans[i]).1 - spans[i].0 == spans.len()
}

/// Whether the cell (`row`, `col`) is read before the cell (`r`, `c`).
pub open spec fn precedes(row: int, col: int, r: int, c: int) -> bool {
    row < r || (row == r && col < c)
}

/// Whether the cell (`row`, `col`) of a square text is the first in reading
/// order whose character stands for nothing.
pub open spec fn first_invalid(text: Seq<char>, row: int, col: int) -> bool {
    let side = row_spans(text, 0).len();
    &&& 0 <= row < side
    &&& 0 <= col < side
    &&& stone_of(cell_char(text, row, col)) is None
    &&& forall|r: int, c: int|
        0 <= r < side && 0 <= c < side && precedes(r, c, row, col) ==> stone_of(
            #[trigger] cell_char(text, r, c),
        ) is Some
}

/// Whether `outcome` is what the text says. A text that holds no square is
/// `NotSquare`. A square with a character that stands for nothing is
/// `InvalidCharacter` with the first such character. Every other text is a
/// position: its side is the number of rows, and each cell holds what its
/// character stands for.
pub open spec fn reads_as(text: Seq<char>, outcome: Result<Position, BoardError>) -> bool {
    match outcome {
        Ok(position) => {
            &&& is_square(text)
            &&& position.size == row_spans(text, 0).len()
            &&& position.wf()
            &&& forall|point: Point|
                position.on_grid(point) ==> stone_of(
                    cell_char(text, point.row - 1, point.col - 1),
                ) == Some(#[trigger] position.at(point))
        },
        Err(BoardError::NotSquare) => !is_square(text),
        Err(BoardError::InvalidCharacter(c)) => {
            &&& is_square(text)
            &&& exists|row: int, col: int|
                first_invalid(text, row, col) && #[trigger] cell_char(text, row, col) == c
        },
        Err(BoardError::Occupied(_)) => false,
    }
}

/// The characters of the row with the given number, counted from 0, up to
/// the column `upto`.
pub open spec fn row_text(position: Position, row: int, upto: nat) -> Seq<char>
    decreases upto,
{
    if upto == 0 {
        Seq::empty()
    } else {
        row_text(position, row, (upto - 1) as nat).push(
            glyph(position.at(Point { row: (row + 1) as usize, col: upto as usize })),
        )
    }
}

/// The text of the first `upto` rows: the characters of each row and a line
/// feed behind them.
pub open spec fn rows_text(position: Position, upto: nat) -> Seq<char>
    decreases upto,
{
    if upto == 0 {
        Seq::empty()
    } else {
        rows_text(position, (upto - 1) as nat) + row_text(position, upto - 1, position.size).push(
            '\n',
        )
    }
}

/// The text form of a position.
pub open spec fn text_of(position: Position) -> Seq<char> {
    rows_text(position, position.size)
}

/// The characters of a row in the text form are those of its cells.
proof fn lemma_row_text(position: Position, row: int, upto: nat)
    ensures
        row_text(position, row, upto).len() == upto,
        forall|col: int|
            0 <= col < upto ==> #[trigger] row_text(position, row, upto)[col] == glyph(
                position.at(Point { row: (row + 1) as usize, col: (col + 1) as usize }),
            ),
    decreases upto,
{
    if upto > 0 {
        lemma_row_text(position, row, (upto - 1) as nat);
    }
}

/// The text form holds a line of `size` characters and a line feed for each
/// row.
proof fn lemma_rows_text(position: Position, upto: nat)
    ensures
        rows_text(position, upto).len() == upto * (position.size + 1),
        forall|row: int, col: int|
            0 <= row < upto && 0 <= col <= position.size ==> #[trigger] rows_text(
                position,
                upto,
            )[row * (position.size + 1) + col] == if col < position.size {
                glyph(position.at(Point { row: (row + 1) as usize, col: (col + 1) as usize }))
            } else {
                '\n'
            },
    decreases upto,
{
    let width = position.size + 1;
    if upto > 0 {
        let above = rows_text(position, (upto - 1) as nat);
        let line = row_text(position, upto - 1, position.size).push('\n');
        lemma_rows_text(position, (upto - 1) as nat);
        lemma_row_text(position, upto - 1, position.size);
        assert(upto * width == (upto - 1) * width + width) by (nonlinear_arith);
        assert forall|row: int, col: int|
            0 <= row < upto && 0 <= col <= position.size implies #[trigger] rows_text(
            position,
            upto,
        )[row * width + col] == if col < position.size {
            glyph(position.at(Point { row: (row + 1) as usize, col: (col + 1) as usize }))
        } else {
            '\n'
        } by {
            if row < upto - 1 {
                assert(0 <= row * width + col < (upto - 1) * width) by (nonlinear_arith)
                    requires
                        0 <= row < upto - 1,
                        0 <= col < width,
                ;
                assert((above + line)[row * width + col] == above[row * width + col]);
            } else {
                assert((above + line)[row * width + col] == line[col]);
                if col < position.size {
                    assert(line[col] == row_text(position, upto - 1, position.size)[col]);
                }
            }
        }
    } else {
        assert(0 * width == 0) by (nonlinear_arith);
    }
}

/// In the text form of a position, the line of a row ends behind its last
/// cell.
proof fn lemma_line_end_of_text(position: Position, row: int, col: int)
    requires
        0 <= row < position.size,
        0 <= col <= position.size,
    ensures
        line_end(text_of(position), row * (position.size + 1) + col) == row * (position.size + 1)
            + position.size,
    decreases position.size - col,
{
    let text = text_of(position);
    let width = position.size + 1;
    lemma_rows_text(position, position.size);
    assert(0 <= row * width && row * width + width <= position.size * width) by (nonlinear_arith)
        requires
            0 <= row < position.size,
            width >= 1,
    ;
    assert(text[row * width + col] == rows_text(position, position.size)[row * width + col]);
    if col < position.size {
        lemma_line_end_of_text(position, row, col + 1);
    }
}

/// The rows that are found in the text form of a position: one for each row
/// of the grid from `row` on, as wide as the grid.
proof fn lemma_row_spans_of_text(position: Position, row: int)
    requires
        position.size >= 1,
        0 <= row <= position.size,
    ensures
        row_spans(text_of(position), row * (position.size + 1)) == Seq::new(
            (position.size - row) as nat,
            |k: int|
                (
                    (row + k) * (position.size + 1),
                    (row + k) * (position.size + 1) + position.size,
                ),
        ),
    decreases position.size - row,
{
    let text = text_of(position);
    let side = position.size as int;
    let width = side + 1;
    let from = row * width;
    let expected = Seq::new(
        (side - row) as nat,
        |k: int| ((row + k) * width, (row + k) * width + side),
    );
    lemma_rows_text(position, position.size);
    assert(0 <= from && from + width * (side - row) == side * width) by (nonlinear_arith)
        requires
            0 <= row <= side,
            width >= 1,
            from == row * width,
    ;
    if row < side {
        assert(from + width <= side * width) by (nonlinear_arith)
            requires
                from + width * (side - row) == side * width,
                side - row >= 1,
                width >= 1,
        ;
        lemma_line_end_of_text(position, row, 0);
        let end = from + side;
        assert(text[from] == rows_text(position, position.size)[row * width + 0]);
        assert(text[end - 1] == rows_text(position, position.size)[row * width + (side - 1)]);
        assert(!is_space(text[from]));
        assert(!is_space(text[end - 1]));
        assert(trim_start(text, from, end) == from);
        assert(trim_end(text, from, end) == end);
        lemma_row_spans_of_text(position, row + 1);
        assert((row + 1) * width == end + 1) by (nonlinear_arith)
            requires
                end == row * width + width - 1,
        ;
        let rest = Seq::new(
            (side - row - 1) as nat,
            |k: int| ((row + 1 + k) * width, (row + 1 + k) * width + side),
        );
        if end < text.len() {
            assert(row_spans(text, end + 1) == rest);
        } else {
            assert(row + 1 == side) by (nonlinear_arith)
                requires
                    end + 1 >= side * width,
                    end + 1 == (row + 1) * width,
                    row + 1 <= side,
                    width >= 1,
            ;
            assert(rest =~= Seq::<(int, int)>::empty());
        }
        assert(seq![(from, end)] + rest =~= expected) by {
            assert forall|k: int| 0 <= k < expected.len() implies (seq![(from, end)] + rest)[k]
                == expected[k] by {
                if k > 0 {
                    assert(rest[k - 1] == ((row + 1 + (k - 1)) * width, (row + 1 + (k - 1)) * width
                        + side));
                }
            }
        }
    } else {
        assert(expected =~= Seq::<(int, int)>::empty());
    }
}

/// The text form of a position reads as that position.
pub proof fn lemma_text_reads_back(position: Position)
    requires
        position.wf(),
        1 <= position.size <= usize::MAX,
    ensures
        reads_as(text_of(position), Ok(position)),
{
    let text = text_of(position);
    let side = position.size as int;
    let width = side + 1;
    lemma_row_spans_of_text(position, 0);
    lemma_rows_text(position, position.size);
    assert(0 * width == 0) by (nonlinear_arith);
    let spans = row_spans(text, 0);
    assert(spans.len() == side);
    assert forall|i: int| 0 <= i < spans.len() implies (#[trigger] spans[i]).1 - spans[i].0
        == spans.len() by {
        assert(spans[i] == ((0 + i) * width, (0 + i) * width + side));
    }
    assert forall|point: Point| position.on_grid(point) implies stone_of(
        cell_char(text, point.row - 1, point.col - 1),
    ) == Some(#[trigger] position.at(point)) by {
        let row = point.row - 1;
        let col = point.col - 1;
        assert(spans[row] == ((0 + row) * width, (0 + row) * width + side));
        assert(text[row * width + col] == rows_text(position, position.size)[row * width + col]);
        assert(point == Point { row: (row + 1) as usize, col: (col + 1) as usize });
    }
}

/// The character of a decimal digit.
pub open spec fn digit(value: int) -> char {
    (48 + value) as char
}

/// A number in decimal digits.
pub open spec fn decimal(number: nat) -> Seq<char>
    decreases number,
{
    if number < 10 {
        seq![digit(number as int)]
    } else {
        decimal(number / 10).push(digit((number % 10) as int))
    }
}

/// A number in decimal digits, with a blank in front of a single digit.
pub open spec fn padded(number: nat) -> Seq<char> {
    if number < 10 {
        seq![' '] + decimal(number)
    } else {
        decimal(number)
    }
}

/// The first line of the grid form up to the column `upto`: two blanks, and
/// for each column a blank and its number.
pub open spec fn grid_header(upto: nat) -> Seq<char>
    decreases upto,
{
    if upto == 0 {
        seq![' ', ' ']
    } else {
        grid_header((upto - 1) as nat) + seq![' '] + padded(upto)
    }
}

/// A row of the grid form up to the column `upto`: the number of the row and
/// a blank, and for each column its character between two blanks.
pub open spec fn grid_row(position: Position, row: nat, upto: nat) -> Seq<char>
    decreases upto,
{
    if upto == 0 {
        padded(row).push(' ')
    } else {
        grid_row(position, row, (upto - 1) as nat) + seq![
            ' ',
            glyph(position.at(Point { row: row as usize, col: upto as usize })),
            ' ',
        ]
    }
}

/// The rows of the grid form up to the row `upto`, a line feed behind each.
pub open spec fn grid_rows(position: Position, upto: nat) -> Seq<char>
    decreases upto,
{
    if upto == 0 {
        Seq::empty()
    } else {
        grid_rows(position, (upto - 1) as nat) + grid_row(position, upto, position.size).push('\n')
    }
}

/// The grid form of a position: a line with the numbers of the columns, and
/// a line for each row that begins with its number.
pub open spec fn grid_of(position: Position) -> Seq<char> {
    grid_header(position.size).push('\n') + grid_rows(position, position.size)
}

/// The text of one cell.
pub fn glyph_text(cell: Option<Color>) -> (text: &'static str)
    ensures
        text@ == seq![glyph(cell)],
{
    proof {
        reveal_strlit(".");
        reveal_strlit("x");
        reveal_strlit("o");
    }
    let text = match cell {
        None => ".",
        Some(Color::Black) => "x",
        Some(Color::White) => "o",
    };
    assert(text@ =~= seq![glyph(cell)]);
    text
}

/// The text of one decimal digit.
fn digit_text(value: usize) -> (text: &'static str)
    requires
        value < 10,
    ensures
        text@ == seq![digit(value as int)],
{
    proof {
        reveal_strlit("0");
        reveal_strlit("1");
        reveal_strlit("2");
        reveal_strlit("3");
        reveal_strlit("4");
        reveal_strlit("5");
        reveal_strlit("6");
        reveal_strlit("7");
        reveal_strlit("8");
        reveal_strlit("9");
    }
    let text = if value == 0 {
        "0"
    } else if value == 1 {
        "1"
    } else if value == 2 {
        "2"
    } else if value == 3 {
        "3"
    } else if value == 4 {
        "4"
    } else if value == 5 {
        "5"
    } else if value == 6 {
        "6"
    } else if value == 7 {
        "7"
    } else if value == 8 {
        "8"
    } else {
        "9"
    };
    assert(text@ =~= seq![digit(value as int)]);
    text
}

/// Appends `number` in decimal digits.
pub fn append_decimal(text: &mut String, number: usize)
    ensures
        final(text)@ == old(text)@ + decimal(number as nat),
    decreases number,
{
    if number >= 10 {
        append_decimal(text, number / 10);
    }
    let ghost before = text@;
    text.append(digit_text(number % 10));
    proof {
        if number >= 10 {
            assert(before + seq![digit((number % 10) as int)] =~= old(text)@ + decimal(
                number as nat,
            ));
        }
    }
}

/// Appends `number` in decimal digits, with a blank in front of a single
/// digit.
pub fn append_padded(text: &mut String, number: usize)
    ensures
        final(text)@ == old(text)@ + padded(number as nat),
{
    if number < 10 {
        proof {
            reveal_strlit(" ");
        }
        text.append(" ");
    }
    append_decimal(text, number);
    assert(text@ =~= old(text)@ + padded(number as nat));
}

/// The rows as mathematical values.
pub open spec fn as_spans(rows: Seq<(usize, usize)>) -> Seq<(int, int)> {
    Seq::new(rows.len(), |i: int| (rows[i].0 as int, rows[i].1 as int))
}

/// The characters of `text`, one by one.
pub fn chars_of(text: &str) -> (chars: Vec<char>)
    ensures
        chars@ == text@,
{
    let mut chars: Vec<char> = Vec::new();
    for c in it: text.chars()
        invariant
            it.seq() == text@,
            chars@ == it.seq().take(it.index() as int),
    {
        chars.push(c);
        assert(it.seq().take(it.index() + 1) =~= it.seq().take(it.index() as int).push(c));
    }
    assert(chars@ =~= text@);
    chars
}

/// The rows of `text`: for each line that is not blank, where it begins and
/// ends without the white space around it.
pub fn rows_of(text: &Vec<char>) -> (rows: Vec<(usize, usize)>)
    requires
        text@.len() < usize::MAX,
    ensures
        as_spans(rows@) == row_spans(text@, 0),
{
    let mut rows: Vec<(usize, usize)> = Vec::new();
    let mut from: usize = 0;
    assert(as_spans(rows@) + row_spans(text@, 0) =~= row_spans(text@, 0));
    while from < text.len()
        invariant
            text@.len() < usize::MAX,
            from <= text@.len() + 1,
            as_spans(rows@) + row_spans(text@, from as int) == row_spans(text@, 0),
        decreases text@.len() + 1 - from,
    {
        let mut end: usize = from;
        while end < text.len() && text[end] != '\n'
            invariant
                from <= end <= text@.len(),
                line_end(text@, end as int) == line_end(text@, from as int),
            decreases text@.len() - end,
        {
            end += 1;
        }
        let mut start: usize = from;
        while start < end && is_whitespace(text[start])
            invariant
                from <= start <= end <= text@.len(),
                trim_start(text@, start as int, end as int) == trim_start(
                    text@,
                    from as int,
                    end as int,
                ),
            decreases end - start,
        {
            start += 1;
        }
        let mut stop: usize = end;
        while start < stop && is_whitespace(text[stop - 1])
            invariant
                start <= stop <= end <= text@.len(),
                trim_end(text@, start as int, stop as int) == trim_end(
                    text@,
                    start as int,
                    end as int,
                ),
            decreases stop - start,
        {
            stop -= 1;
        }
        let ghost before = rows@;
        if start < stop {
            rows.push((start, stop));
            assert(as_spans(rows@) =~= as_spans(before) + seq![(start as int, stop as int)]);
        }
        assert(as_spans(rows@) + row_spans(text@, end + 1) =~= as_spans(before) + row_spans(
            text@,
            from as int,
        )) by {
            if end >= text@.len() {
                assert(row_spans(text@, end + 1) =~= Seq::<(int, int)>::empty());
            }
        }
        from = end + 1;
    }
    assert(as_spans(rows@) + row_spans(text@, from as int) =~= as_spans(rows@));
    rows
}

impl Board {
    /// Reads a board from its text form: one line for each row, `x` for a
    /// black stone, `o` for a white one, `.` for an empty point. White space
    /// around a line and blank lines are passed over. The text must hold as
    /// many rows as each row holds characters, else the outcome is
    /// `NotSquare`; a character that stands for nothing gives
    /// `InvalidCharacter`.
    pub fn from_str(s: &str) -> (outcome: Result<Board, BoardError>)
        requires
            2 * s@.len() <= usize::MAX,
        ensures
            match outcome {
                Ok(board) => board.wf() && reads_as(s@, Ok(board@)),
                Err(error) => reads_as(s@, Err(error)),
            },
    {
        let text = chars_of(s);
        let lines = rows_of(&text);
        let rows = lines.len();
        let ghost spans = row_spans(text@, 0);
        proof {
            lemma_row_spans(text@, 0);
            assert(forall|i: int| 0 <= i < spans.len() ==> spans[i] == as_spans(lines@)[i]);
        }
        if rows == 0 {
            return Err(BoardError::NotSquare);
        }
        let mut i: usize = 0;
        while i < rows
            invariant
                i <= rows,
                rows == lines@.len(),
                text@ == s@,
                spans == row_spans(text@, 0),
                as_spans(lines@) == spans,
                forall|j: int|
                    0 <= j < spans.len() ==> 0 <= (#[trigger] spans[j]).0 < spans[j].1
                        <= text@.len(),
                forall|j: int| 0 <= j < i ==> (#[trigger] spans[j]).1 - spans[j].0 == rows,
            decreases rows - i,
        {
            assert(spans[i as int] == as_spans(lines@)[i as int]);
            if lines[i].1 - lines[i].0 != rows {
                assert(spans[i as int].1 - spans[i as int].0 != spans.len());
                return Err(BoardError::NotSquare);
            }
            i += 1;
        }
        proof {
            lemma_span_total_even(spans, rows as int);
        }
        let mut board = Board::new(rows);
        proof {
            assert forall|point: Point| board@.on_grid(point) implies board@.at(point) is None by {
                lemma_cell_index_bounds(board@.size, point);
            }
        }
        let mut row_idx: usize = 0;
        while row_idx < rows
            invariant
                row_idx <= rows,
                rows == lines@.len(),
                rows < usize::MAX,
                text@ == s@,
                spans == row_spans(text@, 0),
                as_spans(lines@) == spans,
                is_square(text@),
                forall|j: int|
                    0 <= j < spans.len() ==> 0 <= (#[trigger] spans[j]).0 < spans[j].1
                        <= text@.len(),
                board.wf(),
                board@.size == rows,
                forall|point: Point|
                    board@.on_grid(point) ==> if point.row - 1 < row_idx {
                        stone_of(cell_char(text@, point.row - 1, point.col - 1)) == Some(
                            #[trigger] board@.at(point),
                        )
                    } else {
                        board@.at(point) is None
                    },
            decreases rows - row_idx,
        {
            let mut col_idx: usize = 0;
            while col_idx < rows
                invariant
                    row_idx < rows,
                    col_idx <= rows,
                    rows == lines@.len(),
                    rows < usize::MAX,
                    text@ == s@,
                    spans == row_spans(text@, 0),
                    as_spans(lines@) == spans,
                    is_square(text@),
                    forall|j: int|
                        0 <= j < spans.len() ==> 0 <= (#[trigger] spans[j]).0 < spans[j].1
                            <= text@.len(),
                    board.wf(),
                    board@.size == rows,
                    forall|point: Point|
                        board@.on_grid(point) ==> if precedes(
                            point.row - 1,
                            point.col - 1,
                            row_idx as int,
                            col_idx as int,
                        ) {
                            stone_of(cell_char(text@, point.row - 1, point.col - 1)) == Some(
                                #[trigger] board@.at(point),
                            )
                        } else {
                            board@.at(point) is None
                        },
                decreases rows - col_idx,
            {
                assert(spans[row_idx as int] == as_spans(lines@)[row_idx as int]);
                let c = text[lines[row_idx].0 + col_idx];
                let point = Point::new(row_idx + 1, col_idx + 1);
                let ghost before = board@;
                assert(c == cell_char(text@, row_idx as int, col_idx as int));
                let contents = match decode(c) {
                    Some(cell) => cell,
                    None => {
                        proof {
                            assert forall|r: int, k: int|
                                0 <= r < rows && 0 <= k < rows && precedes(
                                    r,
                                    k,
                                    row_idx as int,
                                    col_idx as int,
                                ) implies stone_of(#[trigger] cell_char(text@, r, k)) is Some by {
                                let seen = Point { row: (r + 1) as usize, col: (k + 1) as usize };
                                assert(stone_of(cell_char(text@, seen.row - 1, seen.col - 1))
                                    == Some(board@.at(seen)));
                            }
                            assert(first_invalid(text@, row_idx as int, col_idx as int));
                        }
                        return Err(BoardError::InvalidCharacter(c));
                    },
                };
                assert(before.at(point) is None);
                match contents {
                    Some(player) => {
                        board.put(player, &point);
                    },
                    None => {},
                }
                proof {
                    if contents is None {
                        lemma_cell_index_bounds(before.size, point);
                        assert(before.with_cell(point, None).cells =~= before.cells);
                    }
                    assert forall|x: Point| board@.on_grid(x) implies if precedes(
                        x.row - 1,
                        x.col - 1,
                        row_idx as int,
                        col_idx + 1,
                    ) {
                        stone_of(cell_char(text@, x.row - 1, x.col - 1)) == Some(
                            #[trigger] board@.at(x),
                        )
                    } else {
                        board@.at(x) is None
                    } by {
                        before.lemma_with_cell_at(point, contents, x);
                    }
                }
                col_idx += 1;
            }
            row_idx += 1;
        }
        Ok(board)
    }

    /// The text form of the board: a line for each row, a character for each
    /// point.
    pub fn to_string(&self) -> (text: String)
        requires
            self.wf(),
        ensures
            text@ == text_of(self@),
    {
        let mut text = String::new();
        let side = self.size();
        let ghost pos = self@;
        proof {
            self.lemma_table_fits();
            reveal_strlit("\n");
        }
        let mut row: usize = 1;
        while row <= side
            invariant
                self.wf(),
                pos == self@,
                pos.size == side,
                                pos.size >= 1 ==> pos.size < usize::MAX,
                1 <= row <= side + 1,
                text@ == rows_text(pos, (row - 1) as nat),
                "\n"@ == seq!['\n'],
            decreases side + 1 - row,
        {
            let ghost above = text@;
            let mut col: usize = 1;
            while col <= side
                invariant
                    self.wf(),
                    pos == self@,
                    pos.size == side,
                                        pos.size < usize::MAX,
                    1 <= row <= side,
                    1 <= col <= side + 1,
                    text@ == above + row_text(pos, row - 1, (col - 1) as nat),
                decreases side + 1 - col,
            {
                let contents = self.get(&Point::new(row, col));
                text.append(glyph_text(contents));
                assert(text@ =~= above + row_text(pos, row - 1, col as nat));
                col += 1;
            }
            text.append("\n");
            assert(text@ =~= rows_text(pos, row as nat));
            row += 1;
        }
        text
    }

    /// The grid form of the board: a line with the numbers of the columns,
    /// and a line for each row that begins with its number.
    pub fn to_grid_string(&self) -> (text: String)
        requires
            self.wf(),
        ensures
            text@ == grid_of(self@),
    {
        let ghost pos = self@;
        proof {
            self.lemma_table_fits();
            reveal_strlit("\n");
            reveal_strlit(" ");
            reveal_strlit("  ");
        }
        let side = self.size();
        let mut text = String::new();
        text.append("  ");
        assert(text@ =~= grid_header(0));
        let mut i: usize = 1;
        while i <= side
            invariant
                pos == self@,
                pos.size == side,
                pos.size >= 1 ==> pos.size < usize::MAX,
                1 <= i <= side + 1,
                text@ == grid_header((i - 1) as nat),
                " "@ == seq![' '],
            decreases side + 1 - i,
        {
            text.append(" ");
            append_padded(&mut text, i);
            assert(text@ =~= grid_header(i as nat));
            i += 1;
        }
        text.append("\n");
        let ghost head = text@;
        assert(head =~= head + grid_rows(pos, 0));
        let mut row: usize = 1;
        while row <= side
            invariant
                self.wf(),
                pos == self@,
                pos.size == side,
                                pos.size >= 1 ==> pos.size < usize::MAX,
                1 <= row <= side + 1,
                text@ == head + grid_rows(pos, (row - 1) as nat),
                " "@ == seq![' '],
                "\n"@ == seq!['\n'],
            decreases side + 1 - row,
        {
            let ghost above = text@;
            append_padded(&mut text, row);
            text.append(" ");
            assert(text@ =~= above + grid_row(pos, row as nat, 0));
            let mut col: usize = 1;
            while col <= side
                invariant
                    self.wf(),
                    pos == self@,
                    pos.size == side,
                                        pos.size < usize::MAX,
                    1 <= row <= side,
                    1 <= col <= side + 1,
                    text@ == above + grid_row(pos, row as nat, (col - 1) as nat),
                    " "@ == seq![' '],
                decreases side + 1 - col,
            {
                let contents = self.get(&Point::new(row, col));
                text.append(" ");
                text.append(glyph_text(contents));
                text.append(" ");
                assert(text@ =~= above + grid_row(pos, row as nat, col as nat));
                col += 1;
            }
            text.append("\n");
            assert(text@ =~= head + grid_rows(pos, row as nat));
            row += 1;
        }
        text
    }
}

} // verus!
