//! The text-mode screen writer: a grid of 25 rows of 80 characters, each with
//! a colour; text goes to the bottom row and older rows scroll up.
use vstd::prelude::*;
use vstd::string::StringSliceAdditionalSpecFns;

verus! {

pub const BUFFER_HEIGHT: usize = 25;

pub const BUFFER_WIDTH: usize = 80;

/// Number of character cells on the screen.
pub const BUFFER_CELLS: usize = 2000;

/// The byte that starts a new line.
pub const NEWLINE: u8 = 0x0a;

/// Shown in place of a byte that is not printable ASCII.
pub const REPLACEMENT_BYTE: u8 = 0xfe;

/// The sixteen text-mode colours.
#[derive(Debug, Clone, Copy, PartialEq, Eq, Structural)]
pub enum Color {
    Black,
    Blue,
    Green,
    Cyan,
    Red,
    Magenta,
    Brown,
    LightGray,
    DarkGray,
    LighBlue,
    LightGreen,
    LightCyan,
    LightRed,
    Pink,
    Yellow,
    White,
}

impl Color {
    pub open spec fn code(self) -> u8 {
        match self {
            Color::Black => 0,
            Color::Blue => 1,
            Color::Green => 2,
            Color::Cyan => 3,
            Color::Red => 4,
            Color::Magenta => 5,
            Color::Brown => 6,
            Color::LightGray => 7,
            Color::DarkGray => 8,
            Color::LighBlue => 9,
            Color::LightGreen => 10,
            Color::LightCyan => 11,
            Color::LightRed => 12,
            Color::Pink => 13,
            Color::Yellow => 14,
            Color::White => 15,
        }
    }

    /// The colour's number in the text-mode palette.
    pub fn as_u8(self) -> (r: u8)
        ensures
            r == self.code(),
            r < 16,
    {
        match self {
            Color::Black => 0,
            Color::Blue => 1,
            Color::Green => 2,
            Color::Cyan => 3,
            Color::Red => 4,
            Color::Magenta => 5,
            Color::Brown => 6,
            Color::LightGray => 7,
            Color::DarkGray => 8,
            Color::LighBlue => 9,
            Color::LightGreen => 10,
            Color::LightCyan => 11,
            Color::LightRed => 12,
            Color::Pink => 13,
            Color::Yellow => 14,
            Color::White => 15,
        }
    }
}

/// A foreground and a background colour in one byte: background in the high
/// four bits, foreground in the low four.
#[derive(Debug, Clone, Copy, PartialEq, Eq, Structural)]
pub struct ColorCode(pub u8);

impl ColorCode {
    pub fn new(foreground: Color, background: Color) -> (r: ColorCode)
        ensures
            r.0 == background.code() * 16 + foreground.code(),
    {
        let f = foreground.as_u8();
        let b = background.as_u8();
        proof {
            assert(f < 16 && b < 16 ==> (b << 4u8) | f == b * 16 + f) by (bit_vector);
        }
        ColorCode((b << 4u8) | f)
    }
}

/// One cell of the screen.
#[derive(Debug, Clone, Copy, PartialEq, Eq, Structural)]
pub struct ScreenChar {
    pub ascii_character: u8,
    pub color_code: ColorCode,
}

pub open spec fn blank(color: ColorCode) -> ScreenChar {
    ScreenChar { ascii_character: 0x20, color_code: color }
}

/// The screen after every row moved up by one and the bottom row was
/// cleared.
pub open spec fn scrolled(cells: Seq<ScreenChar>, color: ColorCode) -> Seq<ScreenChar> {
    Seq::new(
        BUFFER_CELLS as nat,
        |i: int|
            if i < (BUFFER_HEIGHT - 1) * BUFFER_WIDTH {
                cells[i + BUFFER_WIDTH]
            } else {
                blank(color)
            },
    )
}

/// The screen and column after writing byte `b`: a newline scrolls; any
/// other byte goes to the bottom row at the column, after a scroll where the
/// row is full.
pub open spec fn after_byte(cells: Seq<ScreenChar>, column: nat, color: ColorCode, b: u8) -> (Seq<ScreenChar>, nat) {
    if b == 10 {
        (scrolled(cells, color), 0)
    } else {
        let (c0, k) = if column >= BUFFER_WIDTH {
            (scrolled(cells, color), 0nat)
        } else {
            (cells, column)
        };
        (c0.update((BUFFER_HEIGHT - 1) * BUFFER_WIDTH + k, ScreenChar { ascii_character: b, color_code: color }), k + 1)
    }
}

/// The byte shown for `b`: printable ASCII and newline as they are, anything
/// else as the replacement byte.
pub open spec fn shown_byte(b: u8) -> u8 {
    if (0x20 <= b && b <= 0x7e) || b == 10 {
        b
    } else {
        REPLACEMENT_BYTE
    }
}

/// The screen and column after writing `bytes`, one shown byte after another.
pub open spec fn after_bytes(cells: Seq<ScreenChar>, column: nat, color: ColorCode, bytes: Seq<u8>) -> (Seq<
    ScreenChar,
>, nat)
    decreases bytes.len(),
{
    if bytes.len() == 0 {
        (cells, column)
    } else {
        let (c, k) = after_bytes(cells, column, color, bytes.drop_last());
        after_byte(c, k, color, shown_byte(bytes.last()))
    }
}

/// Writes text to the bottom row of the screen.
pub struct Writer {
    column_position: usize,
    color_code: ColorCode,
    buffer: Vec<ScreenChar>,
}

impl Writer {
    pub closed spec fn cells(&self) -> Seq<ScreenChar> {
        self.buffer@
    }

    pub closed spec fn column(&self) -> nat {
        self.column_position as nat
    }

    pub closed spec fn color(&self) -> ColorCode {
        self.color_code
    }

    pub open spec fn wf(&self) -> bool {
        self.cells().len() == BUFFER_CELLS && self.column() <= BUFFER_WIDTH
    }

    /// A writer in `color_code` on a blank screen.
    pub fn new(color_code: ColorCode) -> (r: Writer)
        ensures
            r.wf(),
            r.column() == 0,
            r.color() == color_code,
            r.cells() == Seq::new(BUFFER_CELLS as nat, |i: int| blank(color_code)),
    {
        let mut buffer: Vec<ScreenChar> = Vec::new();
        let mut i: usize = 0;
        while i < BUFFER_CELLS
            invariant
                i <= BUFFER_CELLS,
                buffer@ == Seq::new(i as nat, |j: int| blank(color_code)),
            decreases BUFFER_CELLS - i,
        {
            buffer.push(ScreenChar { ascii_character: 0x20, color_code });
            i += 1;
            assert(buffer@ =~= Seq::new(i as nat, |j: int| blank(color_code)));
        }
        Writer { column_position: 0, color_code, buffer }
    }

    pub fn column_position(&self) -> (r: usize)
        ensures
            r == self.column(),
    {
        self.column_position
    }

    /// The cell at `row` and `col`.
    pub fn char_at(&self, row: usize, col: usize) -> (r: ScreenChar)
        requires
            self.wf(),
            row < BUFFER_HEIGHT,
            col < BUFFER_WIDTH,
        ensures
            r == self.cells()[row * BUFFER_WIDTH + col],
    {
        self.buffer[row * BUFFER_WIDTH + col]
    }

    /// Writes one byte: a newline starts a new line, any other byte is put
    /// on the bottom row, after starting a new line where the row is full.
    pub fn write_byte(&mut self, byte: u8)
        requires
            old(self).wf(),
        ensures
            final(self).wf(),
            final(self).color() == old(self).color(),
            (final(self).cells(), final(self).column()) == after_byte(
                old(self).cells(),
                old(self).column(),
                old(self).color(),
                byte,
            ),
    {
        if byte == NEWLINE {
            self.new_line();
        } else {
            if self.column_position >= BUFFER_WIDTH {
                self.new_line();
            }
            let row = BUFFER_HEIGHT - 1;
            let col = self.column_position;
            let color_code = self.color_code;
            self.buffer.set(row * BUFFER_WIDTH + col, ScreenChar { ascii_character: byte, color_code });
            self.column_position += 1;
        }
    }

    /// Writes the bytes of `s`, showing each byte that is not printable
    /// ASCII or a newline as the replacement byte.
    pub fn write_string(&mut self, s: &str)
        requires
            old(self).wf(),
        ensures
            final(self).wf(),
            final(self).color() == old(self).color(),
            (final(self).cells(), final(self).column()) == after_bytes(
                old(self).cells(),
                old(self).column(),
                old(self).color(),
                s.spec_bytes(),
            ),
    {
        let bytes = s.as_bytes();
        let ghost start = (old(self).cells(), old(self).column());
        let mut i: usize = 0;
        while i < bytes.len()
            invariant
                self.wf(),
                self.color() == old(self).color(),
                bytes@ == s.spec_bytes(),
                i <= bytes@.len(),
                (self.cells(), self.column()) == after_bytes(
                    start.0,
                    start.1,
                    self.color(),
                    bytes@.take(i as int),
                ),
            decreases bytes@.len() - i,
        {
            let byte = bytes[i];
            proof {
                assert(bytes@.take(i + 1).drop_last() =~= bytes@.take(i as int));
                assert(bytes@.take(i + 1).last() == byte);
            }
            if (0x20 <= byte && byte <= 0x7e) || byte == NEWLINE {
                self.write_byte(byte);
            } else {
                self.write_byte(REPLACEMENT_BYTE);
            }
            i += 1;
        }
        proof {
            assert(bytes@.take(i as int) =~= bytes@);
        }
    }

    /// Moves every row up by one, clears the bottom row and returns to its
    /// first column.
    fn new_line(&mut self)
        requires
            old(self).wf(),
        ensures
            final(self).wf(),
            final(self).color() == old(self).color(),
            final(self).cells() == scrolled(old(self).cells(), old(self).color()),
            final(self).column() == 0,
    {
        let mut i: usize = BUFFER_WIDTH;
        while i < BUFFER_CELLS
            invariant
                BUFFER_WIDTH <= i <= BUFFER_CELLS,
                self.cells().len() == BUFFER_CELLS,
                self.color() == old(self).color(),
                self.column() == old(self).column(),
                forall|j: int| 0 <= j < i - BUFFER_WIDTH ==> #[trigger] self.cells()[j] == old(self).cells()[j + BUFFER_WIDTH],
                forall|j: int| i - BUFFER_WIDTH <= j < BUFFER_CELLS ==> #[trigger] self.cells()[j] == old(self).cells()[j],
            decreases BUFFER_CELLS - i,
        {
            let c = self.buffer[i];
            self.buffer.set(i - BUFFER_WIDTH, c);
            i += 1;
        }
        self.clear_row(BUFFER_HEIGHT - 1);
        self.column_position = 0;
        proof {
            assert(self.cells() =~= scrolled(old(self).cells(), old(self).color()));
        }
    }

    /// Fills `row` with blanks in the writer's colour.
    fn clear_row(&mut self, row: usize)
        requires
            old(self).cells().len() == BUFFER_CELLS,
            row < BUFFER_HEIGHT,
        ensures
            final(self).cells().len() == BUFFER_CELLS,
            final(self).color() == old(self).color(),
            final(self).column() == old(self).column(),
            forall|j: int|
                0 <= j < BUFFER_CELLS ==> #[trigger] final(self).cells()[j] == if row * BUFFER_WIDTH <= j < (row
                    + 1) * BUFFER_WIDTH {
                    blank(old(self).color())
                } else {
                    old(self).cells()[j]
                },
    {
        let blank_char = ScreenChar { ascii_character: 0x20, color_code: self.color_code };
        let mut col: usize = 0;
        while col < BUFFER_WIDTH
            invariant
                col <= BUFFER_WIDTH,
                row < BUFFER_HEIGHT,
                blank_char == blank(old(self).color()),
                self.cells().len() == BUFFER_CELLS,
                self.color() == old(self).color(),
                self.column() == old(self).column(),
                forall|j: int|
                    0 <= j < BUFFER_CELLS ==> #[trigger] self.cells()[j] == if row * BUFFER_WIDTH <= j < row
                        * BUFFER_WIDTH + col {
                        blank(old(self).color())
                    } else {
                        old(self).cells()[j]
                    },
            decreases BUFFER_WIDTH - col,
        {
            self.buffer.set(row * BUFFER_WIDTH + col, blank_char);
            col += 1;
        }
    }
}

} // verus!
