//! The text-mode grid: a 25 x 80 array of coloured characters in which text is
//! always written to the bottom row and a newline scrolls the grid up by one.
use vstd::prelude::*;
use vstd::string::StringSliceAdditionalSpecFns;

verus! {

pub const BUFFER_HEIGHT: usize = 25;
pub const BUFFER_WIDTH: usize = 80;
/// Number of cells in the grid (`BUFFER_HEIGHT * BUFFER_WIDTH`).
pub const BUFFER_CELLS: usize = 2000;
/// Index of the first cell of the bottom row.
pub const LAST_ROW_START: usize = 1920;
/// Glyph written in place of a byte that is neither printable ASCII nor a newline.
pub const PLACEHOLDER: u8 = 0xfe;
pub const NEWLINE: u8 = 0x0a;

#[derive(Debug, Clone, Copy, PartialEq, Eq, Structural)]
pub enum Color {
    Black,
    Blue,
    Green,
    Cyan,
    Red,
    Magenta,
    Brown,
    LightGray,
    DarkGray,
    LightBlue,
    LightGreen,
    LightCyan,
    LightRed,
    Pink,
    Yellow,
    White,
}

impl Color {
    /// The 4-bit hardware value of the colour.
    pub open spec fn spec_value(self) -> u8 {
        match self {
            Color::Black => 0,
            Color::Blue => 1,
            Color::Green => 2,
            Color::Cyan => 3,
            Color::Red => 4,
            Color::Magenta => 5,
            Color::Brown => 6,
            Color::LightGray => 7,
            Color::DarkGray => 8,
            Color::LightBlue => 9,
            Color::LightGreen => 10,
            Color::LightCyan => 11,
            Color::LightRed => 12,
            Color::Pink => 13,
            Color::Yellow => 14,
            Color::White => 15,
        }
    }

    pub fn value(self) -> (r: u8)
        ensures
            r == self.spec_value(),
            r < 16,
    {
        match self {
            Color::Black => 0,
            Color::Blue => 1,
            Color::Green => 2,
            Color::Cyan => 3,
            Color::Red => 4,
            Color::Magenta => 5,
            Color::Brown => 6,
            Color::LightGray => 7,
            Color::DarkGray => 8,
            Color::LightBlue => 9,
            Color::LightGreen => 10,
            Color::LightCyan => 11,
            Color::LightRed => 12,
            Color::Pink => 13,
            Color::Yellow => 14,
            Color::White => 15,
        }
    }
}

/// Attribute byte of a cell: background colour in the high nibble, foreground
/// colour in the low nibble.
#[derive(Debug, Clone, Copy, PartialEq, Eq, Structural)]
pub struct ColorCode(pub u8);

impl ColorCode {
    pub fn new(foreground: Color, background: Color) -> (r: ColorCode)
        ensures
            r.0 == background.spec_value() * 16 + foreground.spec_value(),
    {
        let b = background.value();
        let f = foreground.value();
        assert(b < 16 && f < 16 ==> (b << 4u8) | f == b * 16 + f) by (bit_vector);
        ColorCode((b << 4u8) | f)
    }
}

/// One cell of the grid.
#[derive(Debug, Clone, Copy, PartialEq, Eq, Structural)]
pub struct ScreenChar {
    pub ascii_character: u8,
    pub color_code: ColorCode,
}

/// The abstract state of a writer: the cells in row-major order, the column
/// at which the next byte of the bottom row goes, and the current colour.
pub struct WriterModel {
    pub cells: Seq<ScreenChar>,
    pub column: int,
    pub color: ColorCode,
}

pub open spec fn blank_of(color: ColorCode) -> ScreenChar {
    ScreenChar { ascii_character: 0x20, color_code: color }
}

/// The grid after one scroll: every row moves up by one and the bottom row is blank.
pub open spec fn scrolled(cells: Seq<ScreenChar>, color: ColorCode) -> Seq<ScreenChar> {
    cells.subrange(BUFFER_WIDTH as int, BUFFER_CELLS as int) + Seq::new(
        BUFFER_WIDTH as nat,
        |i: int| blank_of(color),
    )
}

/// The state after a newline.
pub open spec fn new_line_model(m: WriterModel) -> WriterModel {
    WriterModel { cells: scrolled(m.cells, m.color), column: 0, color: m.color }
}

/// The state after one byte is written: a newline scrolls; any other byte is
/// placed at the current column of the bottom row, after a scroll if that row is full.
pub open spec fn put_byte(m: WriterModel, byte: u8) -> WriterModel {
    if byte == 10 {
        new_line_model(m)
    } else {
        let m2 = if m.column >= BUFFER_WIDTH {
            new_line_model(m)
        } else {
            m
        };
        WriterModel {
            cells: m2.cells.update(
                LAST_ROW_START + m2.column,
                ScreenChar { ascii_character: byte, color_code: m2.color },
            ),
            column: m2.column + 1,
            color: m2.color,
        }
    }
}

/// The byte that `write_string` shows for `b`: printable ASCII and newline
/// stand for themselves, everything else becomes the placeholder glyph.
pub open spec fn shown_byte(b: u8) -> u8 {
    if (0x20 <= b && b <= 0x7e) || b == 10 {
        b
    } else {
        PLACEHOLDER
    }
}

/// The state after the bytes of a string are written in order.
pub open spec fn put_str(m: WriterModel, bytes: Seq<u8>) -> WriterModel
    decreases bytes.len(),
{
    if bytes.len() == 0 {
        m
    } else {
        put_byte(put_str(m, bytes.drop_last()), shown_byte(bytes.last()))
    }
}

/// A text grid held in memory. Copying `chars()` to the hardware buffer is
/// the caller's business.
pub struct Writer {
    column_position: usize,
    color_code: ColorCode,
    buffer: Vec<ScreenChar>,
}

impl View for Writer {
    type V = WriterModel;

    closed spec fn view(&self) -> WriterModel {
        WriterModel {
            cells: self.buffer@,
            column: self.column_position as int,
            color: self.color_code,
        }
    }
}

pub open spec fn model_wf(m: WriterModel) -> bool {
    &&& m.cells.len() == BUFFER_CELLS
    &&& 0 <= m.column <= BUFFER_WIDTH
}

impl Writer {
    pub open spec fn wf(&self) -> bool {
        model_wf(self@)
    }

    /// A writer over a blank grid, positioned at the start of the bottom row.
    pub fn new(color_code: ColorCode) -> (r: Writer)
        ensures
            r.wf(),
            r@.cells == Seq::new(BUFFER_CELLS as nat, |i: int| blank_of(color_code)),
            r@.column == 0,
            r@.color == color_code,
    {
        let blank = ScreenChar { ascii_character: 0x20u8, color_code };
        let mut buffer: Vec<ScreenChar> = Vec::new();
        let mut i: usize = 0;
        while i < BUFFER_CELLS
            invariant
                i <= BUFFER_CELLS,
                buffer@ == Seq::new(i as nat, |j: int| blank_of(color_code)),
                blank == blank_of(color_code),
            decreases BUFFER_CELLS - i,
        {
            buffer.push(blank);
            i = i + 1;
            assert(buffer@ =~= Seq::new(i as nat, |j: int| blank_of(color_code)));
        }
        Writer { column_position: 0, color_code, buffer }
    }

    pub fn column_position(&self) -> (r: usize)
        ensures
            r == self@.column,
    {
        self.column_position
    }

    pub fn color_code(&self) -> (r: ColorCode)
        ensures
            r == self@.color,
    {
        self.color_code
    }

    /// All cells, row by row from the top.
    pub fn chars(&self) -> (r: &Vec<ScreenChar>)
        ensures
            r@ == self@.cells,
    {
        &self.buffer
    }

    /// The cell at `row`, `col`.
    pub fn char_at(&self, row: usize, col: usize) -> (r: ScreenChar)
        requires
            self.wf(),
            row < BUFFER_HEIGHT,
            col < BUFFER_WIDTH,
        ensures
            r == self@.cells[row * BUFFER_WIDTH + col],
    {
        self.buffer[row * BUFFER_WIDTH + col]
    }

    /// Writes every byte of `s`, showing bytes outside printable ASCII (other
    /// than newline) as the placeholder glyph.
    pub fn write_string(&mut self, s: &str)
        requires
            old(self).wf(),
        ensures
            final(self).wf(),
            final(self)@ == put_str(old(self)@, s.spec_bytes()),
    {
        let bytes = s.as_bytes();
        let mut i: usize = 0;
        while i < bytes.len()
            invariant
                i <= bytes@.len(),
                bytes@ == s.spec_bytes(),
                self.wf(),
                self@ == put_str(old(self)@, bytes@.subrange(0, i as int)),
            decreases bytes@.len() - i,
        {
            let byte = bytes[i];
            let shown = if (0x20 <= byte && byte <= 0x7e) || byte == NEWLINE {
                byte
            } else {
                PLACEHOLDER
            };
            self.write_byte(shown);
            assert(bytes@.subrange(0, i + 1).drop_last() =~= bytes@.subrange(0, i as int));
            i = i + 1;
        }
        assert(bytes@.subrange(0, i as int) =~= bytes@);
    }

    /// Writes one byte: a newline scrolls the grid; any other byte goes to the
    /// bottom row, wrapping to a fresh line when the row is full.
    pub fn write_byte(&mut self, byte: u8)
        requires
            old(self).wf(),
        ensures
            final(self).wf(),
            final(self)@ == put_byte(old(self)@, byte),
    {
        if byte == NEWLINE {
            self.new_line();
        } else {
            if self.column_position >= BUFFER_WIDTH {
                self.new_line();
            }
            let col = self.column_position;
            let color_code = self.color_code;
            self.buffer.set(LAST_ROW_START + col, ScreenChar { ascii_character: byte, color_code });
            self.column_position = col + 1;
        }
    }

    /// Scrolls every row up by one, blanks the bottom row and returns to its start.
    fn new_line(&mut self)
        requires
            old(self).wf(),
        ensures
            final(self).wf(),
            final(self)@ == new_line_model(old(self)@),
    {
        let mut i: usize = BUFFER_WIDTH;
        while i < BUFFER_CELLS
            invariant
                BUFFER_WIDTH <= i <= BUFFER_CELLS,
                self.buffer@.len() == BUFFER_CELLS,
                self.color_code == old(self).color_code,
                forall|j: int|
                    0 <= j < i - BUFFER_WIDTH ==> self.buffer@[j] == old(self).buffer@[j
                        + BUFFER_WIDTH],
                forall|j: int| i - BUFFER_WIDTH <= j < BUFFER_CELLS ==> self.buffer@[j] == old(self).buffer@[j],
            decreases BUFFER_CELLS - i,
        {
            let c = self.buffer[i];
            self.buffer.set(i - BUFFER_WIDTH, c);
            i = i + 1;
        }
        self.clear_row(BUFFER_HEIGHT - 1);
        self.column_position = 0;
        assert(self.buffer@ =~= scrolled(old(self).buffer@, self.color_code));
    }

    /// Overwrites every cell of `row` with a blank in the current colour.
    fn clear_row(&mut self, row: usize)
        requires
            old(self).buffer@.len() == BUFFER_CELLS,
            row < BUFFER_HEIGHT,
        ensures
            final(self).buffer@.len() == BUFFER_CELLS,
            final(self).column_position == old(self).column_position,
            final(self).color_code == old(self).color_code,
            forall|j: int|
                0 <= j < BUFFER_CELLS ==> final(self).buffer@[j] == if row * BUFFER_WIDTH <= j < row
                    * BUFFER_WIDTH + BUFFER_WIDTH {
                    blank_of(old(self).color_code)
                } else {
                    old(self).buffer@[j]
                },
    {
        let blank = ScreenChar { ascii_character: 0x20u8, color_code: self.color_code };
        let start = row * BUFFER_WIDTH;
        let mut col: usize = 0;
        while col < BUFFER_WIDTH
            invariant
                col <= BUFFER_WIDTH,
                start == row * BUFFER_WIDTH,
                row < BUFFER_HEIGHT,
                self.buffer@.len() == BUFFER_CELLS,
                self.column_position == old(self).column_position,
                self.color_code == old(self).color_code,
                blank == blank_of(old(self).color_code),
                forall|j: int|
                    0 <= j < BUFFER_CELLS ==> self.buffer@[j] == if start <= j < start + col {
                        blank
                    } else {
                        old(self).buffer@[j]
                    },
            decreases BUFFER_WIDTH - col,
        {
            self.buffer.set(start + col, blank);
            col = col + 1;
        }
    }
}

} // verus!
