//! The character-cell display writer: an always-write-to-the-last-line
//! terminal over a fixed height-by-width cell grid.
//!
//! The writer owns a model of the cell grid as one flat row-major vector;
//! the hardware buffer the cells are blitted to, and the volatile accesses
//! that reach it, are the display shell's concern. Printable bytes fill
//! the last row left to right; a newline, or running past the right edge,
//! scrolls every row up by one and blanks the last row.

use vstd::prelude::*;
use vstd::string::StringSliceAdditionalSpecFns;

verus! {

/// Rows of the cell grid.
pub const BUFFER_HEIGHT: usize = 25;

/// Columns of the cell grid.
pub const BUFFER_WIDTH: usize = 80;

/// The sixteen standard display colors.
#[derive(Debug, Clone, Copy, PartialEq, Eq, Structural)]
pub enum Color {
    Black,
    Blue,
    Green,
    Cyan,
    Red,
    Magenta,
    Brown,
    LightGray,
    DarkGray,
    LightBlue,
    LightGreen,
    LightCyan,
    LightRed,
    Pink,
    Yellow,
    White,
}

/// The hardware palette index of a color.
pub open spec fn color_byte(c: Color) -> u8 {
    match c {
        Color::Black => 0,
        Color::Blue => 1,
        Color::Green => 2,
        Color::Cyan => 3,
        Color::Red => 4,
        Color::Magenta => 5,
        Color::Brown => 6,
        Color::LightGray => 7,
        Color::DarkGray => 8,
        Color::LightBlue => 9,
        Color::LightGreen => 10,
        Color::LightCyan => 11,
        Color::LightRed => 12,
        Color::Pink => 13,
        Color::Yellow => 14,
        Color::White => 15,
    }
}

/// A foreground and background color packed the way the display cell
/// expects them: background in the high half, foreground in the low half.
#[derive(Debug, Clone, Copy, PartialEq, Eq, Structural)]
pub struct ColorCode(pub u8);

impl ColorCode {
    /// Packs the two colors into one attribute byte.
    pub fn new(foreground: Color, background: Color) -> (c: ColorCode)
        ensures
            c.0 == color_byte(background) * 16 + color_byte(foreground),
    {
        ColorCode(Self::palette_index(background) * 16 + Self::palette_index(foreground))
    }

    /// The palette index of a color, as the hardware numbers them.
    fn palette_index(c: Color) -> (b: u8)
        ensures
            b == color_byte(c),
    {
        match c {
            Color::Black => 0,
            Color::Blue => 1,
            Color::Green => 2,
            Color::Cyan => 3,
            Color::Red => 4,
            Color::Magenta => 5,
            Color::Brown => 6,
            Color::LightGray => 7,
            Color::DarkGray => 8,
            Color::LightBlue => 9,
            Color::LightGreen => 10,
            Color::LightCyan => 11,
            Color::LightRed => 12,
            Color::Pink => 13,
            Color::Yellow => 14,
            Color::White => 15,
        }
    }
}

/// One display cell: a byte of text and its color attribute.
#[derive(Debug, Clone, Copy, PartialEq, Eq, Structural)]
pub struct ScreenChar {
    pub ascii_character: u8,
    pub color_code: ColorCode,
}

/// A blank cell in the given color: what clearing a row leaves behind.
pub open spec fn blank_char(color: ColorCode) -> ScreenChar {
    ScreenChar { ascii_character: 32, color_code: color }
}

/// The grid with one row replaced by blanks.
pub open spec fn clear_row_model(s: Seq<ScreenChar>, row: int, color: ColorCode) -> Seq<
    ScreenChar,
> {
    Seq::new(
        s.len(),
        |i: int|
            if row * 80 <= i < row * 80 + 80 {
                blank_char(color)
            } else {
                s[i]
            },
    )
}

/// The grid scrolled up one row: each row takes the one below it, and the
/// last row is blanked.
pub open spec fn scroll_model(s: Seq<ScreenChar>, color: ColorCode) -> Seq<ScreenChar> {
    Seq::new(
        s.len(),
        |i: int|
            if i < 1920 {
                s[i + 80]
            } else {
                blank_char(color)
            },
    )
}

/// What one byte does to the grid and the cursor column: a newline
/// scrolls; anything else lands on the last row at the cursor, scrolling
/// first if the row is full.
pub open spec fn write_byte_model(s: Seq<ScreenChar>, col: int, color: ColorCode, byte: u8) -> (
    Seq<ScreenChar>,
    int,
) {
    if byte == 10 {
        (scroll_model(s, color), 0int)
    } else {
        let (s1, c1): (Seq<ScreenChar>, int) = if col >= 80 {
            (scroll_model(s, color), 0int)
        } else {
            (s, col)
        };
        (s1.update(1920 + c1, ScreenChar { ascii_character: byte, color_code: color }), c1 + 1)
    }
}

/// How a byte of text appears on screen: printable bytes and the newline
/// pass through, anything else shows the replacement block.
pub open spec fn printable_byte(b: u8) -> u8 {
    if (0x20 <= b <= 0x7e) || b == 10 {
        b
    } else {
        0xfe
    }
}

/// A whole string of bytes written in order, each first made printable.
pub open spec fn write_bytes_model(s: Seq<ScreenChar>, col: int, color: ColorCode, bytes: Seq<u8>) -> (
    Seq<ScreenChar>,
    int,
)
    decreases bytes.len(),
{
    if bytes.len() == 0 {
        (s, col)
    } else {
        let one = write_byte_model(s, col, color, printable_byte(bytes[0]));
        write_bytes_model(one.0, one.1, color, bytes.drop_first())
    }
}

/// The display writer: the cell grid model, the cursor column on the last
/// row, and the color every written cell takes.
pub struct Writer {
    pub column_position: usize,
    pub color_code: ColorCode,
    pub buffer: Vec<ScreenChar>,
}

impl Writer {
    /// The grid has exactly height-times-width cells and the cursor is on
    /// the last row or just past its right edge.
    pub open spec fn wf(self) -> bool {
        &&& self.buffer@.len() == 2000
        &&& self.column_position <= 80
    }

    /// A writer over a blank grid, with the cursor at the left edge.
    pub fn new(color_code: ColorCode) -> (w: Writer)
        ensures
            w.wf(),
            w.column_position == 0,
            w.color_code == color_code,
            forall|i: int| 0 <= i < 2000 ==> w.buffer@[i] == blank_char(color_code),
    {
        let mut buffer: Vec<ScreenChar> = Vec::new();
        let mut i: usize = 0;
        while i < BUFFER_HEIGHT * BUFFER_WIDTH
            invariant
                i <= 2000,
                buffer@.len() == i,
                forall|m: int| 0 <= m < i ==> buffer@[m] == blank_char(color_code),
            decreases 2000 - i,
        {
            buffer.push(ScreenChar { ascii_character: 32, color_code });
            i = i + 1;
        }
        Writer { column_position: 0, color_code, buffer }
    }

    /// The cell at a row and column of the grid.
    pub fn char_at(&self, row: usize, col: usize) -> (c: ScreenChar)
        requires
            self.wf(),
            row < 25,
            col < 80,
        ensures
            c == self.buffer@[row * 80 + col],
    {
        self.buffer[row * 80 + col]
    }

    /// Blanks one row of the grid in the writer's color.
    pub fn clear_row(&mut self, row: usize)
        requires
            old(self).wf(),
            row < 25,
        ensures
            final(self).wf(),
            final(self).column_position == old(self).column_position,
            final(self).color_code == old(self).color_code,
            final(self).buffer@ == clear_row_model(old(self).buffer@, row as int, old(
                self,
            ).color_code),
    {
        let base = row * 80;
        let mut col: usize = 0;
        while col < BUFFER_WIDTH
            invariant
                old(self).wf(),
                self.wf(),
                self.column_position == old(self).column_position,
                self.color_code == old(self).color_code,
                row < 25,
                base == row * 80,
                col <= 80,
                forall|i: int| base <= i < base + col ==> self.buffer@[i] == blank_char(
                    old(self).color_code,
                ),
                forall|i: int|
                    0 <= i < 2000 && !(base <= i < base + col) ==> self.buffer@[i] == old(
                        self,
                    ).buffer@[i],
            decreases 80 - col,
        {
            let blank = ScreenChar { ascii_character: 32, color_code: self.color_code };
            self.buffer[base + col] = blank;
            col = col + 1;
        }
        proof {
            assert(self.buffer@ =~= clear_row_model(old(self).buffer@, row as int, old(
                self,
            ).color_code));
        }
    }

    /// Scrolls the grid: every row takes the contents of the row below,
    /// the last row is blanked, and the cursor returns to the left edge.
    pub fn new_line(&mut self)
        requires
            old(self).wf(),
        ensures
            final(self).wf(),
            final(self).color_code == old(self).color_code,
            final(self).column_position == 0,
            final(self).buffer@ == scroll_model(old(self).buffer@, old(self).color_code),
    {
        let ghost orig = old(self).buffer@;
        let mut row: usize = 1;
        while row < BUFFER_HEIGHT
            invariant
                old(self).wf(),
                self.wf(),
                self.column_position == old(self).column_position,
                self.color_code == old(self).color_code,
                orig == old(self).buffer@,
                1 <= row <= 25,
                forall|i: int| 0 <= i < (row - 1) * 80 ==> self.buffer@[i] == orig[i + 80],
                forall|i: int| (row - 1) * 80 <= i < 2000 ==> self.buffer@[i] == orig[i],
            decreases 25 - row,
        {
            let mut col: usize = 0;
            while col < BUFFER_WIDTH
                invariant
                    old(self).wf(),
                    self.wf(),
                    self.column_position == old(self).column_position,
                    self.color_code == old(self).color_code,
                    orig == old(self).buffer@,
                    1 <= row < 25,
                    col <= 80,
                    forall|i: int| 0 <= i < (row - 1) * 80 + col ==> self.buffer@[i] == orig[i
                        + 80],
                    forall|i: int| (row - 1) * 80 + col <= i < 2000 ==> self.buffer@[i] == orig[i],
                decreases 80 - col,
            {
                let character = self.buffer[row * 80 + col];
                self.buffer[(row - 1) * 80 + col] = character;
                col = col + 1;
            }
            row = row + 1;
        }
        self.clear_row(BUFFER_HEIGHT - 1);
        self.column_position = 0;
        proof {
            assert(self.buffer@ =~= scroll_model(orig, old(self).color_code));
        }
    }

    /// Writes one byte: a newline scrolls; any other byte lands at the
    /// cursor on the last row — after a scroll if the row was full — and
    /// advances the cursor.
    pub fn write_byte(&mut self, byte: u8)
        requires
            old(self).wf(),
        ensures
            final(self).wf(),
            final(self).color_code == old(self).color_code,
            final(self).buffer@ == write_byte_model(
                old(self).buffer@,
                old(self).column_position as int,
                old(self).color_code,
                byte,
            ).0,
            final(self).column_position as int == write_byte_model(
                old(self).buffer@,
                old(self).column_position as int,
                old(self).color_code,
                byte,
            ).1,
    {
        if byte == 0x0a {
            self.new_line();
        } else {
            if self.column_position >= BUFFER_WIDTH {
                self.new_line();
            }
            let col = self.column_position;
            let color_code = self.color_code;
            self.buffer[1920 + col] = ScreenChar { ascii_character: byte, color_code };
            self.column_position = col + 1;
        }
    }

    /// Writes a whole string: printable bytes and newlines as they are,
    /// anything else as the replacement block.
    pub fn write_string(&mut self, s: &str)
        requires
            old(self).wf(),
        ensures
            final(self).wf(),
            final(self).color_code == old(self).color_code,
            final(self).buffer@ == write_bytes_model(
                old(self).buffer@,
                old(self).column_position as int,
                old(self).color_code,
                s.spec_bytes(),
            ).0,
            final(self).column_position as int == write_bytes_model(
                old(self).buffer@,
                old(self).column_position as int,
                old(self).color_code,
                s.spec_bytes(),
            ).1,
    {
        let bytes = s.as_bytes();
        let ghost bs = s.spec_bytes();
        let mut i: usize = 0;
        while i < bytes.len()
            invariant
                old(self).wf(),
                self.wf(),
                self.color_code == old(self).color_code,
                bytes@ == bs,
                i <= bs.len(),
                self.buffer@ == write_bytes_model(
                    old(self).buffer@,
                    old(self).column_position as int,
                    old(self).color_code,
                    bs.take(i as int),
                ).0,
                self.column_position as int == write_bytes_model(
                    old(self).buffer@,
                    old(self).column_position as int,
                    old(self).color_code,
                    bs.take(i as int),
                ).1,
            decreases bs.len() - i,
        {
            let byte = bytes[i];
            let printable = if (0x20 <= byte && byte <= 0x7e) || byte == 0x0a {
                byte
            } else {
                0xfe
            };
            self.write_byte(printable);
            proof {
                assert(bs.take(i + 1) =~= bs.take(i as int).push(bs[i as int]));
                lemma_write_bytes_snoc(
                    old(self).buffer@,
                    old(self).column_position as int,
                    old(self).color_code,
                    bs.take(i as int),
                    bs[i as int],
                );
            }
            i = i + 1;
        }
        proof {
            assert(bs.take(bs.len() as int) =~= bs);
        }
    }
}

/// Writing one more byte after a sequence is the sequence's effect
/// followed by that byte's effect.
proof fn lemma_write_bytes_snoc(s: Seq<ScreenChar>, col: int, color: ColorCode, q: Seq<u8>, x: u8)
    ensures
        write_bytes_model(s, col, color, q.push(x)) == ({
            let st = write_bytes_model(s, col, color, q);
            write_byte_model(st.0, st.1, color, printable_byte(x))
        }),
    decreases q.len(),
{
    if q.len() == 0 {
        assert(q.push(x).drop_first() =~= Seq::<u8>::empty());
        assert(q.push(x)[0] == x);
        assert(write_bytes_model(s, col, color, q) == (s, col));
        let one = write_byte_model(s, col, color, printable_byte(x));
        assert(write_bytes_model(s, col, color, q.push(x)) == write_bytes_model(
            one.0,
            one.1,
            color,
            q.push(x).drop_first(),
        ));
        assert(write_bytes_model(one.0, one.1, color, Seq::<u8>::empty()) == one);
    } else {
        assert(q.push(x).drop_first() =~= q.drop_first().push(x));
        assert(q.push(x)[0] == q[0]);
        let one = write_byte_model(s, col, color, printable_byte(q[0]));
        assert(write_bytes_model(s, col, color, q.push(x)) == write_bytes_model(
            one.0,
            one.1,
            color,
            q.drop_first().push(x),
        ));
        assert(write_bytes_model(s, col, color, q) == write_bytes_model(
            one.0,
            one.1,
            color,
            q.drop_first(),
        ));
        lemma_write_bytes_snoc(one.0, one.1, color, q.drop_first(), x);
    }
}

} // verus!
