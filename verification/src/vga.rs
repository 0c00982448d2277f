//! The VGA text screen as a value: a 25-by-80 grid of 16-bit character
//! cells, a cursor column on the bottom row, and a paint color. A
//! bare-metal build writes the same cells into the memory-mapped text
//! buffer; the cell layout, scrolling and cursor movement verified here
//! are what it would write.
use vstd::prelude::*;

verus! {

use vstd::string::StringSliceAdditionalSpecFns;

/// Rows of the text screen.
pub const BUFFER_HEIGHT: usize = 25;

/// Columns of the text screen.
pub const BUFFER_WIDTH: usize = 80;

/// The sixteen VGA colors.
#[derive(Clone, Copy, Debug, PartialEq, Eq, Structural)]
#[allow(dead_code)]
pub enum Color {
    Black,
    Blue,
    Green,
    Cyan,
    Red,
    Magenta,
    Brown,
    LightGray,
    DarkGray,
    LightBlue,
    LightGreen,
    LightCyan,
    LightRed,
    Pink,
    Yellow,
    White,
}

impl Color {
    /// The color's 4-bit hardware number.
    pub open spec fn spec_code(self) -> u8 {
        match self {
            Color::Black => 0,
            Color::Blue => 1,
            Color::Green => 2,
            Color::Cyan => 3,
            Color::Red => 4,
            Color::Magenta => 5,
            Color::Brown => 6,
            Color::LightGray => 7,
            Color::DarkGray => 8,
            Color::LightBlue => 9,
            Color::LightGreen => 10,
            Color::LightCyan => 11,
            Color::LightRed => 12,
            Color::Pink => 13,
            Color::Yellow => 14,
            Color::White => 15,
        }
    }

    /// The color's 4-bit hardware number.
    pub fn code(self) -> (r: u8)
        ensures
            r == self.spec_code(),
            r < 16,
    {
        match self {
            Color::Black => 0,
            Color::Blue => 1,
            Color::Green => 2,
            Color::Cyan => 3,
            Color::Red => 4,
            Color::Magenta => 5,
            Color::Brown => 6,
            Color::LightGray => 7,
            Color::DarkGray => 8,
            Color::LightBlue => 9,
            Color::LightGreen => 10,
            Color::LightCyan => 11,
            Color::LightRed => 12,
            Color::Pink => 13,
            Color::Yellow => 14,
            Color::White => 15,
        }
    }
}

/// Foreground and background color packed into one byte: background in
/// the high nibble, foreground in the low one.
#[derive(Clone, Copy, Debug, PartialEq, Eq, Structural)]
pub struct ColorCode(pub u8);

impl ColorCode {
    /// Pack a foreground and a background color.
    pub fn new(fg: Color, bg: Color) -> (r: ColorCode)
        ensures
            r.0 == bg.spec_code() * 16 + fg.spec_code(),
    {
        let f = fg.code();
        let b = bg.code();
        proof {
            assert((b << 4) | f == b * 16 + f) by (bit_vector)
                requires
                    f < 16,
                    b < 16,
            ;
        }
        ColorCode((b << 4) | f)
    }

    /// The raw color byte.
    pub fn to_u8(self) -> (r: u8)
        ensures
            r == self.0,
    {
        self.0
    }
}

/// One character cell: an ASCII byte and its color.
#[derive(Clone, Copy, Debug, PartialEq, Eq, Structural)]
pub struct Char {
    pub ascii: u8,
    pub color: ColorCode,
}

/// The 16-bit value the hardware holds for one cell: the color byte high,
/// the ASCII byte low.
pub open spec fn spec_cell(color: u8, ascii: u8) -> u16 {
    (color * 256 + ascii) as u16
}

impl Char {
    /// The cell as the hardware's 16-bit value.
    pub fn to_u16(self) -> (r: u16)
        ensures
            r == spec_cell(self.color.0, self.ascii),
    {
        let c = self.color.to_u8();
        let a = self.ascii;
        proof {
            assert(((c as u16) << 8) | (a as u16) == c * 256 + a) by (bit_vector);
        }
        ((c as u16) << 8) | (a as u16)
    }

    /// The cell read back from the hardware's 16-bit value.
    pub fn from_u16(u: u16) -> (r: Char)
        ensures
            r.ascii == u as int % 256,
            r.color.0 == u as int / 256,
            spec_cell(r.color.0, r.ascii) == u,
    {
        proof {
            assert((u & 0x00FF) == u as int % 256 && (u >> 8) == u as int / 256 && (u >> 8) < 256)
                by (bit_vector);
        }
        Char { ascii: (u & 0x00FF) as u8, color: ColorCode((u >> 8) as u8) }
    }
}

/// The screen as mathematics: cursor column, paint color, and the cell
/// grid in row-major order.
#[verifier::ext_equal]
pub struct Screen {
    pub column: usize,
    pub color: u8,
    pub cells: Seq<u16>,
}

/// A blank cell: a space in the given color.
pub open spec fn spec_blank(color: u8) -> u16 {
    spec_cell(color, 32)
}

/// Scrolling: every row moves up by one, the bottom row clears.
pub open spec fn spec_scroll(cells: Seq<u16>, color: u8) -> Seq<u16> {
    Seq::new(
        (BUFFER_HEIGHT * BUFFER_WIDTH) as nat,
        |o: int|
            if o < (BUFFER_HEIGHT - 1) * BUFFER_WIDTH {
                cells[o + BUFFER_WIDTH]
            } else {
                spec_blank(color)
            },
    )
}

/// What printing one byte does: a line feed scrolls; a full bottom row
/// scrolls before the byte lands; otherwise the byte lands at the cursor
/// on the bottom row and the cursor advances.
pub open spec fn spec_put_byte(s: Screen, byte: u8) -> Screen {
    if byte == 0x0A {
        Screen { column: 0, color: s.color, cells: spec_scroll(s.cells, s.color) }
    } else {
        let base = if s.column >= BUFFER_WIDTH {
            Screen { column: 0, color: s.color, cells: spec_scroll(s.cells, s.color) }
        } else {
            s
        };
        Screen {
            column: (base.column + 1) as usize,
            color: s.color,
            cells: base.cells.update(
                (BUFFER_HEIGHT - 1) * BUFFER_WIDTH + base.column,
                spec_cell(s.color, byte),
            ),
        }
    }
}

/// What a byte looks like on screen: printable ASCII and the line feed
/// stand for themselves, everything else becomes a placeholder.
pub open spec fn spec_printed_byte(byte: u8) -> u8 {
    if (0x20 <= byte && byte <= 0x7E) || byte == 0x0A {
        byte
    } else {
        0xFE
    }
}

/// What printing a byte string does, byte after byte.
pub open spec fn spec_put_bytes(s: Screen, bytes: Seq<u8>) -> Screen
    decreases bytes.len(),
{
    if bytes.len() == 0 {
        s
    } else {
        spec_put_bytes(
            spec_put_byte(s, spec_printed_byte(bytes[0])),
            bytes.subrange(1, bytes.len() as int),
        )
    }
}

/// Appending one byte to the printed string is one more printing step.
proof fn lemma_put_bytes_snoc(s: Screen, bytes: Seq<u8>, b: u8)
    ensures
        spec_put_bytes(s, bytes.push(b)) == spec_put_byte(
            spec_put_bytes(s, bytes),
            spec_printed_byte(b),
        ),
    decreases bytes.len(),
{
    let g = bytes.push(b);
    if bytes.len() == 0 {
        assert(g[0] == b);
        assert(g.subrange(1, g.len() as int) =~= Seq::<u8>::empty());
        assert(spec_put_bytes(s, g) == spec_put_bytes(spec_put_byte(s, spec_printed_byte(b)), Seq::<u8>::empty())) by {
            reveal_with_fuel(spec_put_bytes, 2);
        }
        assert(spec_put_bytes(s, bytes) == s);
    } else {
        assert(g[0] == bytes[0]);
        assert(g.subrange(1, g.len() as int) =~= bytes.subrange(1, bytes.len() as int).push(b));
        lemma_put_bytes_snoc(
            spec_put_byte(s, spec_printed_byte(bytes[0])),
            bytes.subrange(1, bytes.len() as int),
            b,
        );
    }
}

/// The screen writer: cursor column, paint color, and the cell grid.
pub struct Writer {
    pub column_position: usize,
    pub color: ColorCode,
    pub buffer: Vec<u16>,
}

impl View for Writer {
    type V = Screen;

    open spec fn view(&self) -> Screen {
        Screen { column: self.column_position, color: self.color.0, cells: self.buffer@ }
    }
}

impl Writer {
    /// The grid has its full size and the cursor is on the bottom row.
    pub open spec fn wf(&self) -> bool {
        &&& self.buffer@.len() == BUFFER_HEIGHT * BUFFER_WIDTH
        &&& self.column_position <= BUFFER_WIDTH
    }

    /// A writer over a blank screen, painting yellow on black.
    pub fn new() -> (r: Self)
        ensures
            r.wf(),
            r@.column == 0,
            r@.color == 14,
            forall|o: int| 0 <= o < BUFFER_HEIGHT * BUFFER_WIDTH ==> r@.cells[o] == spec_blank(14),
    {
        let color = ColorCode::new(Color::Yellow, Color::Black);
        let blank = Char { ascii: 32, color }.to_u16();
        let mut buffer: Vec<u16> = Vec::new();
        while buffer.len() < BUFFER_HEIGHT * BUFFER_WIDTH
            invariant
                blank == spec_blank(14),
                forall|o: int| 0 <= o < buffer@.len() ==> buffer@[o] == spec_blank(14),
                buffer@.len() <= BUFFER_HEIGHT * BUFFER_WIDTH,
            decreases BUFFER_HEIGHT * BUFFER_WIDTH - buffer.len(),
        {
            buffer.push(blank);
        }
        Writer { column_position: 0, color, buffer }
    }

    /// Paint one whole row blank in the current color.
    fn clear_row(&mut self, row: usize)
        requires
            old(self).wf(),
            row < BUFFER_HEIGHT,
        ensures
            final(self).wf(),
            final(self).column_position == old(self).column_position,
            final(self).color == old(self).color,
            final(self).buffer@.len() == old(self).buffer@.len(),
            forall|o: int|
                row * BUFFER_WIDTH <= o < row * BUFFER_WIDTH + BUFFER_WIDTH
                    ==> final(self).buffer@[o] == spec_blank(old(self).color.0),
            forall|o: int|
                0 <= o < BUFFER_HEIGHT * BUFFER_WIDTH && !(row * BUFFER_WIDTH <= o < row
                    * BUFFER_WIDTH + BUFFER_WIDTH)
                    ==> final(self).buffer@[o] == old(self).buffer@[o],
    {
        let blank = Char { ascii: 32, color: self.color }.to_u16();
        let row_offset = row * BUFFER_WIDTH;
        let mut col: usize = 0;
        while col < BUFFER_WIDTH
            invariant
                old(self).wf(),
                row < BUFFER_HEIGHT,
                row_offset == row * BUFFER_WIDTH,
                col <= BUFFER_WIDTH,
                blank == spec_blank(old(self).color.0),
                self.column_position == old(self).column_position,
                self.color == old(self).color,
                self.buffer@.len() == old(self).buffer@.len(),
                forall|o: int|
                    row * BUFFER_WIDTH <= o < row * BUFFER_WIDTH + col ==> self.buffer@[o]
                        == spec_blank(old(self).color.0),
                forall|o: int|
                    0 <= o < BUFFER_HEIGHT * BUFFER_WIDTH && !(row * BUFFER_WIDTH <= o < row
                        * BUFFER_WIDTH + col) ==> self.buffer@[o] == old(self).buffer@[o],
            decreases BUFFER_WIDTH - col,
        {
            self.buffer[row_offset + col] = blank;
            col = col + 1;
        }
    }

    /// Scroll: copy every row one row up, clear the bottom row, and send
    /// the cursor to the left edge.
    fn new_line(&mut self)
        requires
            old(self).wf(),
        ensures
            final(self).wf(),
            final(self).color == old(self).color,
            final(self)@.cells == spec_scroll(old(self)@.cells, old(self)@.color),
            final(self)@.column == 0,
    {
        let mut row: usize = 1;
        while row < BUFFER_HEIGHT
            invariant
                old(self).wf(),
                1 <= row <= BUFFER_HEIGHT,
                self.column_position == old(self).column_position,
                self.color == old(self).color,
                self.buffer@.len() == old(self).buffer@.len(),
                forall|o: int|
                    0 <= o < (row - 1) * BUFFER_WIDTH ==> self.buffer@[o] == old(self).buffer@[o
                        + BUFFER_WIDTH],
                forall|o: int|
                    (row - 1) * BUFFER_WIDTH <= o < BUFFER_HEIGHT * BUFFER_WIDTH ==> self.buffer@[o]
                        == old(self).buffer@[o],
            decreases BUFFER_HEIGHT - row,
        {
            let mut col: usize = 0;
            while col < BUFFER_WIDTH
                invariant
                    old(self).wf(),
                    1 <= row < BUFFER_HEIGHT,
                    col <= BUFFER_WIDTH,
                    self.column_position == old(self).column_position,
                    self.color == old(self).color,
                    self.buffer@.len() == old(self).buffer@.len(),
                    forall|o: int|
                        0 <= o < (row - 1) * BUFFER_WIDTH + col ==> self.buffer@[o] == old(
                            self,
                        ).buffer@[o + BUFFER_WIDTH],
                    forall|o: int|
                        (row - 1) * BUFFER_WIDTH + col <= o < BUFFER_HEIGHT * BUFFER_WIDTH
                            ==> self.buffer@[o] == old(self).buffer@[o],
                decreases BUFFER_WIDTH - col,
            {
                let ch = self.buffer[row * BUFFER_WIDTH + col];
                self.buffer[(row - 1) * BUFFER_WIDTH + col] = ch;
                col = col + 1;
            }
            row = row + 1;
        }
        self.clear_row(BUFFER_HEIGHT - 1);
        self.column_position = 0;
        proof {
            assert(self@.cells =~= spec_scroll(old(self)@.cells, old(self)@.color));
        }
    }

    /// Print one byte: a line feed scrolls, a full bottom row scrolls
    /// first, anything else lands at the cursor.
    pub fn write_byte(&mut self, byte: u8)
        requires
            old(self).wf(),
        ensures
            final(self).wf(),
            final(self)@ == spec_put_byte(old(self)@, byte),
    {
        if byte == 0x0A {
            self.new_line();
            proof {
                assert(self@ =~~= spec_put_byte(old(self)@, byte));
            }
        } else {
            if self.column_position >= BUFFER_WIDTH {
                self.new_line();
            }
            let row = BUFFER_HEIGHT - 1;
            let col = self.column_position;
            let cell = Char { ascii: byte, color: self.color }.to_u16();
            self.buffer[row * BUFFER_WIDTH + col] = cell;
            self.column_position = col + 1;
            proof {
                assert(self@ =~~= spec_put_byte(old(self)@, byte));
            }
        }
    }

    /// Print a string: printable ASCII and line feeds as they are, any
    /// other byte as a placeholder.
    pub fn write_string(&mut self, s: &str)
        requires
            old(self).wf(),
        ensures
            final(self).wf(),
            final(self)@ == spec_put_bytes(old(self)@, s.spec_bytes()),
    {
        let bytes = s.as_bytes();
        let ghost s0 = self@;
        let mut k: usize = 0;
        while k < bytes.len()
            invariant
                self.wf(),
                k <= bytes@.len(),
                bytes@ == s.spec_bytes(),
                self@ == spec_put_bytes(s0, bytes@.take(k as int)),
            decreases bytes.len() - k,
        {
            let byte = bytes[k];
            proof {
                lemma_put_bytes_snoc(s0, bytes@.take(k as int), byte);
                assert(bytes@.take(k as int).push(byte) =~= bytes@.take(k as int + 1));
            }
            if (0x20 <= byte && byte <= 0x7E) || byte == 0x0A {
                // Printable range, or a line feed.
                self.write_byte(byte);
            } else {
                self.write_byte(0xFE);
            }
            k = k + 1;
        }
        proof {
            assert(bytes@.take(bytes@.len() as int) =~= bytes@);
        }
    }
}

} // verus!
