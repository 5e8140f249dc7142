//! The VGA text screen: 25 rows of 80 characters, and the writer that puts
//! bytes on it, wraps and scrolls lines, and deletes characters back to a
//! boundary. The screen here is a model of the text buffer; the kernel
//! copies it to video memory and moves the hardware cursor.
use vstd::prelude::*;
use vstd::string::StringSliceAdditionalSpecFns;

verus! {

pub const BUFFER_HEIGHT: usize = 25;

pub const BUFFER_WIDTH: usize = 80;

/// The sixteen text colors.
#[derive(PartialEq, Eq, Structural, Clone, Copy, Debug)]
pub enum Color {
    Black,
    Blue,
    Green,
    Cyan,
    Red,
    Magenta,
    Brown,
    LightGray,
    DarkGray,
    LightBlue,
    LightGreen,
    LightCyan,
    LightRed,
    Pink,
    Yellow,
    White,
}

/// The code of a color.
pub open spec fn color_value(c: Color) -> u8 {
    match c {
        Color::Black => 0,
        Color::Blue => 1,
        Color::Green => 2,
        Color::Cyan => 3,
        Color::Red => 4,
        Color::Magenta => 5,
        Color::Brown => 6,
        Color::LightGray => 7,
        Color::DarkGray => 8,
        Color::LightBlue => 9,
        Color::LightGreen => 10,
        Color::LightCyan => 11,
        Color::LightRed => 12,
        Color::Pink => 13,
        Color::Yellow => 14,
        Color::White => 15,
    }
}

impl Color {
    /// The code of this color.
    pub fn value(&self) -> (v: u8)
        ensures
            v == color_value(*self),
            v < 16,
    {
        match self {
            Color::Black => 0,
            Color::Blue => 1,
            Color::Green => 2,
            Color::Cyan => 3,
            Color::Red => 4,
            Color::Magenta => 5,
            Color::Brown => 6,
            Color::LightGray => 7,
            Color::DarkGray => 8,
            Color::LightBlue => 9,
            Color::LightGreen => 10,
            Color::LightCyan => 11,
            Color::LightRed => 12,
            Color::Pink => 13,
            Color::Yellow => 14,
            Color::White => 15,
        }
    }
}

/// A foreground and a background color in one byte: the background in the
/// high four bits, the foreground in the low four.
#[derive(PartialEq, Eq, Structural, Clone, Copy, Debug)]
pub struct ColorCode(pub u8);

impl ColorCode {
    pub fn new(foreground: Color, background: Color) -> (c: ColorCode)
        ensures
            c.0 == (color_value(background) << 4u8) | color_value(foreground),
            c.0 & 0x0f == color_value(foreground),
            c.0 >> 4u8 == color_value(background),
    {
        let f = foreground.value();
        let b = background.value();
        proof {
            assert(((b << 4u8) | f) & 0x0f == f && ((b << 4u8) | f) >> 4u8 == b) by (bit_vector)
                requires f < 16, b < 16;
        }
        ColorCode((b << 4u8) | f)
    }
}

/// One cell of the screen.
#[derive(PartialEq, Eq, Structural, Clone, Copy, Debug)]
pub struct ScreenChar {
    pub ascii_character: u8,
    pub color_code: ColorCode,
}

/// The writer as a value: cursor, color, boundary and the 2000 cells, row
/// after row.
pub struct WriterView {
    pub column: int,
    pub row: int,
    pub color: ColorCode,
    pub boundary_column: int,
    pub boundary_row: int,
    pub cells: Seq<ScreenChar>,
}

/// The position of a cell in the row-major cell sequence.
pub open spec fn cell(row: int, col: int) -> int {
    row * 80 + col
}

/// The cells after every row moves up by one and the last row is cleared to
/// NUL characters of `color`.
pub open spec fn scrolled(cells: Seq<ScreenChar>, color: ColorCode) -> Seq<ScreenChar> {
    Seq::new(
        2000,
        |i: int|
            if i < 1920 {
                cells[i + 80]
            } else {
                ScreenChar { ascii_character: 0, color_code: color }
            },
    )
}

/// The writer after a line break: on the last row the screen scrolls; the
/// cursor moves to the start of the next row, or stays on the last one.
pub open spec fn after_new_line(s: WriterView) -> WriterView {
    WriterView {
        cells: if s.row == 24 {
            scrolled(s.cells, s.color)
        } else {
            s.cells
        },
        row: if s.row + 1 < 24 {
            s.row + 1
        } else {
            24
        },
        column: 0,
        ..s
    }
}

/// A line break on the last row scrolls the screen: every row but the last
/// takes what the row below it held (the top row included), the last row
/// is cleared to NULs of the current color, and the cursor goes to the
/// start of the last row. On any other row the cells stay and the cursor
/// goes to the start of the next row.
pub proof fn new_line_scrolls_at_the_bottom(s: WriterView)
    requires
        writer_wf(s),
    ensures
        s.row == 24 ==> {
            &&& forall|r: int, c: int|
                0 <= r < 24 && 0 <= c < 80 ==> #[trigger] after_new_line(s).cells[cell(r, c)] == s.cells[cell(
                    r + 1,
                    c,
                )]
            &&& forall|c: int|
                0 <= c < 80 ==> #[trigger] after_new_line(s).cells[cell(24, c)] == (ScreenChar {
                    ascii_character: 0,
                    color_code: s.color,
                })
            &&& after_new_line(s).cells.len() == 2000
            &&& after_new_line(s).row == 24
        },
        s.row < 24 ==> after_new_line(s).cells == s.cells && after_new_line(s).row == s.row + 1,
        after_new_line(s).column == 0,
{
    if s.row == 24 {
        assert forall|r: int, c: int| 0 <= r < 24 && 0 <= c < 80 implies #[trigger] after_new_line(s).cells[cell(
            r,
            c,
        )] == s.cells[cell(r + 1, c)] by {
            assert(cell(r, c) < 1920) by (nonlinear_arith)
                requires 0 <= r < 24, 0 <= c < 80, cell(r, c) == r * 80 + c;
            assert(cell(r, c) + 80 == cell(r + 1, c)) by (nonlinear_arith)
                requires cell(r, c) == r * 80 + c, cell(r + 1, c) == (r + 1) * 80 + c;
            assert(0 <= cell(r, c)) by (nonlinear_arith)
                requires 0 <= r, 0 <= c, cell(r, c) == r * 80 + c;
        }
    }
}

/// The writer after a character is put at the cursor: a full row wraps
/// first.
pub open spec fn after_put(s: WriterView, byte: u8) -> WriterView {
    let t = if s.column >= 80 {
        after_new_line(s)
    } else {
        s
    };
    WriterView {
        cells: t.cells.update(
            cell(t.row, t.column),
            ScreenChar { ascii_character: byte, color_code: t.color },
        ),
        column: t.column + 1,
        ..t
    }
}

/// Where a deletion on row `r` ends when it comes from the start of the next
/// row, scanning `i` cells in from the right: one past the last cell that is
/// not a space, or 0.
pub open spec fn end_of_row_from(cells: Seq<ScreenChar>, r: int, i: int) -> int
    decreases 80 - i,
{
    if i >= 80 || i < 0 {
        0
    } else if cells[cell(r, 79 - i)].ascii_character != 0x20 {
        80 - i
    } else {
        end_of_row_from(cells, r, i + 1)
    }
}

/// Whether deleting a character leaves the screen: at the start of a row
/// the cursor goes to the end of the text on the row above, and it cannot
/// go above the first row nor past the last column.
pub open spec fn delete_stays_on_screen(s: WriterView) -> bool {
    (s.row == s.boundary_row && s.column == s.boundary_column) || s.column > 0 || (s.row > 0
        && end_of_row_from(s.cells, s.row - 1, 0) < 80)
}

/// The writer after a character is deleted: nothing happens at the
/// boundary; otherwise the cursor moves back one cell (or to the end of the
/// text on the row above) and that cell becomes a space.
pub open spec fn after_delete(s: WriterView) -> WriterView {
    if s.row == s.boundary_row && s.column == s.boundary_column {
        s
    } else {
        let (r, c) = if s.column == 0 {
            (s.row - 1, end_of_row_from(s.cells, s.row - 1, 0))
        } else {
            (s.row, s.column - 1)
        };
        WriterView {
            column: c,
            row: r,
            cells: s.cells.update(cell(r, c), ScreenChar { ascii_character: 0x20, color_code: s.color }),
            ..s
        }
    }
}

/// The writer after one byte: a tab is four spaces, a newline breaks the
/// line, a backspace deletes, anything else is put on the screen.
pub open spec fn after_byte(s: WriterView, byte: u8) -> WriterView {
    if byte == 0x09 {
        after_put(after_put(after_put(after_put(s, 0x20), 0x20), 0x20), 0x20)
    } else if byte == 0x0a {
        after_new_line(s)
    } else if byte == 0x08 {
        after_delete(s)
    } else {
        after_put(s, byte)
    }
}

/// Whether the writer can take `byte` without leaving the screen.
pub open spec fn byte_ok(s: WriterView, byte: u8) -> bool {
    byte == 0x08 ==> delete_stays_on_screen(s)
}

/// The writer after the bytes of `bytes`, in order.
pub open spec fn after_bytes(s: WriterView, bytes: Seq<u8>) -> WriterView
    decreases bytes.len(),
{
    if bytes.len() == 0 {
        s
    } else {
        after_byte(after_bytes(s, bytes.drop_last()), bytes.last())
    }
}

/// Whether the writer can take every byte of `bytes` in turn.
pub open spec fn bytes_ok(s: WriterView, bytes: Seq<u8>) -> bool
    decreases bytes.len(),
{
    if bytes.len() == 0 {
        true
    } else {
        bytes_ok(s, bytes.drop_last()) && byte_ok(after_bytes(s, bytes.drop_last()), bytes.last())
    }
}

/// Whether a writer's cursor and boundary are on the screen.
pub open spec fn writer_wf(s: WriterView) -> bool {
    &&& 0 <= s.row < 25
    &&& 0 <= s.column <= 80
    &&& 0 <= s.boundary_row < 25
    &&& 0 <= s.boundary_column <= 80
    &&& s.cells.len() == 2000
}

/// The text writer.
pub struct Writer {
    column_position: usize,
    row_position: usize,
    color_code: ColorCode,
    column_boundery: usize,
    row_boundery: usize,
    screen: Vec<ScreenChar>,
}

impl View for Writer {
    type V = WriterView;

    closed spec fn view(&self) -> WriterView {
        WriterView {
            column: self.column_position as int,
            row: self.row_position as int,
            color: self.color_code,
            boundary_column: self.column_boundery as int,
            boundary_row: self.row_boundery as int,
            cells: self.screen@,
        }
    }
}

proof fn lemma_end_of_row_bound(cells: Seq<ScreenChar>, r: int, i: int)
    ensures
        0 <= end_of_row_from(cells, r, i) <= 80,
    decreases 80 - i,
{
    if 0 <= i < 80 && cells[cell(r, 79 - i)].ascii_character == 0x20 {
        lemma_end_of_row_bound(cells, r, i + 1);
    }
}

impl Writer {
    /// A writer at the top left of a screen of `color` spaces, with its
    /// boundary there.
    pub fn new(color_code: ColorCode) -> (w: Writer)
        ensures
            writer_wf(w@),
            w@.row == 0 && w@.column == 0,
            w@.boundary_row == 0 && w@.boundary_column == 0,
            w@.color == color_code,
            w@.cells == Seq::new(2000, |i: int| ScreenChar { ascii_character: 0x20, color_code }),
    {
        let mut screen: Vec<ScreenChar> = Vec::new();
        let mut i: usize = 0;
        while i < BUFFER_HEIGHT * BUFFER_WIDTH
            invariant
                i <= 2000,
                screen@ == Seq::new(i as nat, |j: int| ScreenChar { ascii_character: 0x20, color_code }),
            decreases 2000 - i,
        {
            screen.push(ScreenChar { ascii_character: 0x20u8, color_code });
            proof {
                assert(screen@ =~= Seq::new((i + 1) as nat, |j: int| ScreenChar { ascii_character: 0x20, color_code }));
            }
            i += 1;
        }
        Writer {
            column_position: 0,
            row_position: 0,
            color_code,
            column_boundery: 0,
            row_boundery: 0,
            screen,
        }
    }

    /// The cell at `row`, `col`.
    pub fn char_at(&self, row: usize, col: usize) -> (c: ScreenChar)
        requires
            writer_wf(self@),
            row < 25,
            col < 80,
        ensures
            c == self@.cells[cell(row as int, col as int)],
    {
        self.screen[row * BUFFER_WIDTH + col]
    }

    /// The cursor as the hardware takes it: `row * 80 + column`.
    pub fn cursor_position(&self) -> (pos: usize)
        requires
            writer_wf(self@),
        ensures
            pos == cell(self@.row, self@.column),
    {
        self.row_position * BUFFER_WIDTH + self.column_position
    }

    /// Makes the cursor the point that deletions stop at.
    pub fn set_boundery(&mut self)
        requires
            writer_wf(old(self)@),
        ensures
            final(self)@ == (WriterView {
                boundary_column: old(self)@.column,
                boundary_row: old(self)@.row,
                ..old(self)@
            }),
            writer_wf(final(self)@),
    {
        self.column_boundery = self.column_position;
        self.row_boundery = self.row_position;
    }

    /// Fills row `row` with NUL characters of the writer's color.
    pub fn clear_row(&mut self, row: usize)
        requires
            writer_wf(old(self)@),
            row < 25,
        ensures
            final(self)@ == (WriterView {
                cells: Seq::new(
                    2000,
                    |i: int|
                        if cell(row as int, 0) <= i < cell(row as int, 80) {
                            ScreenChar { ascii_character: 0, color_code: old(self)@.color }
                        } else {
                            old(self)@.cells[i]
                        },
                ),
                ..old(self)@
            }),
            writer_wf(final(self)@),
    {
        let blank = ScreenChar { ascii_character: 0, color_code: self.color_code };
        let ghost before = self.screen@;
        let mut col: usize = 0;
        while col < BUFFER_WIDTH
            invariant
                col <= 80,
                row < 25,
                self.screen@.len() == 2000,
                before.len() == 2000,
                before == old(self)@.cells,
                writer_wf(old(self)@),
                self@ == (WriterView { cells: self.screen@, ..old(self)@ }),
                blank == (ScreenChar { ascii_character: 0, color_code: self.color_code }),
                forall|i: int|
                    0 <= i < 2000 ==> #[trigger] self.screen@[i] == if row * 80 <= i < row * 80 + col {
                        blank
                    } else {
                        before[i]
                    },
            decreases 80 - col,
        {
            self.screen.set(row * BUFFER_WIDTH + col, blank);
            col += 1;
        }
        proof {
            assert(self.screen@ =~= Seq::new(
                2000,
                |i: int|
                    if cell(row as int, 0) <= i < cell(row as int, 80) {
                        ScreenChar { ascii_character: 0, color_code: old(self)@.color }
                    } else {
                        old(self)@.cells[i]
                    },
            ));
        }
    }

    /// Breaks the line: on the last row every row moves up by one and the
    /// last row is cleared; the cursor goes to the start of the next row.
    pub fn new_line(&mut self)
        requires
            writer_wf(old(self)@),
        ensures
            final(self)@ == after_new_line(old(self)@),
            writer_wf(final(self)@),
    {
        if self.row_position == BUFFER_HEIGHT - 1 {
            let ghost before = self.screen@;
            let mut i: usize = 0;
            while i < (BUFFER_HEIGHT - 1) * BUFFER_WIDTH
                invariant
                    i <= 1920,
                    self.screen@.len() == 2000,
                    before.len() == 2000,
                    self@ == (WriterView { cells: self.screen@, ..old(self)@ }),
                    forall|j: int|
                        0 <= j < 2000 ==> #[trigger] self.screen@[j] == if j < i {
                            before[j + 80]
                        } else {
                            before[j]
                        },
                decreases 1920 - i,
            {
                let character = self.screen[i + BUFFER_WIDTH];
                self.screen.set(i, character);
                i += 1;
            }
            self.clear_row(BUFFER_HEIGHT - 1);
            proof {
                assert(self.screen@ =~= scrolled(before, self.color_code));
            }
        }
        self.row_position = if self.row_position + 1 < BUFFER_HEIGHT - 1 {
            self.row_position + 1
        } else {
            BUFFER_HEIGHT - 1
        };
        self.column_position = 0;
    }

    /// Puts `byte` at the cursor, wrapping a full row first, and moves the
    /// cursor right.
    fn put_byte(&mut self, byte: u8)
        requires
            writer_wf(old(self)@),
        ensures
            final(self)@ == after_put(old(self)@, byte),
            writer_wf(final(self)@),
    {
        if self.column_position >= BUFFER_WIDTH {
            self.new_line();
        }
        let row = self.row_position;
        let col = self.column_position;
        let color_code = self.color_code;
        self.screen.set(row * BUFFER_WIDTH + col, ScreenChar { ascii_character: byte, color_code });
        self.column_position += 1;
    }

    /// One past the last cell of row `row` that is not a space, or 0.
    fn end_of_row(&self, row: usize) -> (end: usize)
        requires
            writer_wf(self@),
            row < 25,
        ensures
            end == end_of_row_from(self@.cells, row as int, 0),
            end <= 80,
    {
        let mut i: usize = 0;
        while i < BUFFER_WIDTH
            invariant
                i <= 80,
                row < 25,
                writer_wf(self@),
                end_of_row_from(self@.cells, row as int, 0) == end_of_row_from(
                    self@.cells,
                    row as int,
                    i as int,
                ),
            decreases 80 - i,
        {
            let character = self.screen[row * BUFFER_WIDTH + (BUFFER_WIDTH - i - 1)];
            if character.ascii_character != 0x20u8 {
                return BUFFER_WIDTH - i;
            }
            i += 1;
        }
        0
    }

    /// Moves the cursor back one character and blanks it, up to the
    /// boundary; from the start of a row it goes to the end of the text on
    /// the row above.
    pub fn delete_char(&mut self)
        requires
            writer_wf(old(self)@),
            delete_stays_on_screen(old(self)@),
        ensures
            final(self)@ == after_delete(old(self)@),
            writer_wf(final(self)@),
    {
        let blank = ScreenChar { ascii_character: 0x20u8, color_code: self.color_code };
        let mut col = self.column_position;
        let mut row = self.row_position;
        if row == self.row_boundery && col == self.column_boundery {
            return;
        }
        if col == 0 {
            row -= 1;
            let end_col = self.end_of_row(row);
            col = end_col;
        } else {
            col -= 1;
        }
        self.column_position = col;
        self.row_position = row;
        self.screen.set(row * BUFFER_WIDTH + col, blank);
    }

    /// Whether the writer can take `byte` without leaving the screen: only
    /// a backspace at the start of a row can, when the row above is full to
    /// its last column or there is no row above.
    pub fn accepts(&self, byte: u8) -> (ok: bool)
        requires
            writer_wf(self@),
        ensures
            ok == byte_ok(self@, byte),
    {
        if byte != 0x08 {
            return true;
        }
        if self.row_position == self.row_boundery && self.column_position == self.column_boundery {
            return true;
        }
        if self.column_position > 0 {
            return true;
        }
        self.row_position > 0 && self.end_of_row(self.row_position - 1) < BUFFER_WIDTH
    }

    /// Writes one byte: a tab as four spaces, a newline as a line break, a
    /// backspace as a deletion, anything else as a character.
    pub fn write_byte(&mut self, byte: u8)
        requires
            writer_wf(old(self)@),
            byte_ok(old(self)@, byte),
        ensures
            final(self)@ == after_byte(old(self)@, byte),
            writer_wf(final(self)@),
    {
        if byte == 0x09 {
            self.put_byte(0x20u8);
            self.put_byte(0x20u8);
            self.put_byte(0x20u8);
            self.put_byte(0x20u8);
        } else if byte == 0x0a {
            self.new_line();
        } else if byte == 0x08 {
            self.delete_char();
        } else {
            self.put_byte(byte);
        }
    }

    /// Writes the bytes of `s` in order.
    pub fn write_str(&mut self, s: &str)
        requires
            writer_wf(old(self)@),
            bytes_ok(old(self)@, s.spec_bytes()),
        ensures
            final(self)@ == after_bytes(old(self)@, s.spec_bytes()),
            writer_wf(final(self)@),
    {
        let bytes = s.as_bytes();
        let mut i: usize = 0;
        while i < bytes.len()
            invariant
                i <= bytes@.len(),
                bytes@ == s.spec_bytes(),
                writer_wf(self@),
                bytes_ok(old(self)@, bytes@),
                self@ == after_bytes(old(self)@, bytes@.take(i as int)),
            decreases bytes@.len() - i,
        {
            proof {
                lemma_bytes_ok_prefix(old(self)@, bytes@, i as int + 1);
                assert(bytes@.take(i + 1).drop_last() =~= bytes@.take(i as int));
            }
            self.write_byte(bytes[i]);
            i += 1;
        }
        proof {
            assert(bytes@.take(bytes@.len() as int) =~= bytes@);
        }
    }

    /// Clears every row and puts the cursor at the top left.
    pub fn clear_screen(&mut self)
        requires
            writer_wf(old(self)@),
        ensures
            final(self)@ == (WriterView {
                cells: Seq::new(2000, |i: int| ScreenChar { ascii_character: 0, color_code: old(self)@.color }),
                column: 0,
                row: 0,
                ..old(self)@
            }),
            writer_wf(final(self)@),
    {
        let mut row: usize = 0;
        while row < BUFFER_HEIGHT
            invariant
                row <= 25,
                writer_wf(self@),
                self@ == (WriterView { cells: self@.cells, ..old(self)@ }),
                forall|i: int|
                    0 <= i < 2000 ==> #[trigger] self@.cells[i] == if i < row * 80 {
                        ScreenChar { ascii_character: 0, color_code: old(self)@.color }
                    } else {
                        old(self)@.cells[i]
                    },
            decreases 25 - row,
        {
            self.clear_row(row);
            row += 1;
        }
        self.column_position = 0;
        self.row_position = 0;
        proof {
            assert(self@.cells =~= Seq::new(2000, |i: int| ScreenChar { ascii_character: 0, color_code: old(self)@.color }));
        }
    }
}

proof fn lemma_bytes_ok_prefix(s: WriterView, bytes: Seq<u8>, n: int)
    requires
        bytes_ok(s, bytes),
        0 < n <= bytes.len(),
    ensures
        byte_ok(after_bytes(s, bytes.take(n - 1)), bytes[n - 1]),
        bytes.take(n).drop_last() == bytes.take(n - 1),
    decreases bytes.len(),
{
    assert(bytes.take(n).drop_last() =~= bytes.take(n - 1));
    if n == bytes.len() {
        assert(bytes.drop_last() =~= bytes.take(n - 1));
    } else {
        lemma_bytes_ok_prefix(s, bytes.drop_last(), n);
        assert(bytes.drop_last().take(n - 1) =~= bytes.take(n - 1));
        assert(bytes.drop_last()[n - 1] == bytes[n - 1]);
    }
}

/// Deleting right after putting a character, away from the boundary and
/// without a wrap, brings the cursor back to where it was and leaves a space
/// where the character went.
pub proof fn delete_undoes_put(s: WriterView, byte: u8)
    requires
        writer_wf(s),
        s.column < 80,
        !(s.row == s.boundary_row && s.column + 1 == s.boundary_column),
    ensures
        after_delete(after_put(s, byte)).row == s.row,
        after_delete(after_put(s, byte)).column == s.column,
        after_delete(after_put(s, byte)).cells == s.cells.update(
            cell(s.row, s.column),
            ScreenChar { ascii_character: 0x20, color_code: s.color },
        ),
{
    let t = after_put(s, byte);
    assert(t.cells.update(cell(s.row, s.column), ScreenChar { ascii_character: 0x20, color_code: s.color })
        =~= s.cells.update(cell(s.row, s.column), ScreenChar { ascii_character: 0x20, color_code: s.color }));
}

} // verus!
