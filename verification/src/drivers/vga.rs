//! The framebuffer console: text drawn in 16x32 glyphs, with a cursor that
//! moves as bytes are written and a screen that scrolls up by a text row.
//!
//! The console decides what to draw; drawing the pixels is left to the caller
//! (see `DrawOp`).
use vstd::prelude::*;

verus! {

/// The width of a glyph in pixels.
pub const GLYPH_WIDTH: u32 = 16;

/// The height of a glyph in pixels.
pub const GLYPH_HEIGHT: u32 = 32;

/// The bytes of one glyph in the font: two bytes per pixel row.
pub const GLYPH_BYTES: usize = 64;

/// The number of text columns of a screen `width` pixels wide.
pub fn get_buffer_width(width: u32) -> (r: usize)
    ensures
        r == width / 16,
{
    (width / 16) as usize
}

/// The number of text rows of a screen `height` pixels high.
pub fn get_buffer_height(height: u32) -> (r: usize)
    ensures
        r == height / 32,
{
    (height / 32) as usize
}

/// The sixteen colors of the console palette.
#[derive(Debug, Clone, Copy)]
pub enum Color {
    Black,
    Blue,
    Green,
    Cyan,
    Red,
    Magenta,
    Brown,
    LightGrey,
    DarkGrey,
    LightBlue,
    LightGreen,
    LightCyan,
    LightRed,
    LightMagenta,
    Yellow,
    White,
}

/// The 0xRRGGBB value of a color.
pub open spec fn rgb(c: Color) -> u32 {
    match c {
        Color::Black => 0x00000000,
        Color::Blue => 0x000000AA,
        Color::Green => 0x0000AA00,
        Color::Cyan => 0x0000AAAA,
        Color::Red => 0x00AA0000,
        Color::Magenta => 0x00AA00AA,
        Color::Brown => 0x00AA5500,
        Color::LightGrey => 0x00AAAAAA,
        Color::DarkGrey => 0x00555555,
        Color::LightBlue => 0x005555FF,
        Color::LightGreen => 0x0055FF55,
        Color::LightCyan => 0x0055FFFF,
        Color::LightRed => 0x00FF5555,
        Color::LightMagenta => 0x00FF55FF,
        Color::Yellow => 0x00FFFF55,
        Color::White => 0x00FFFFFF,
    }
}

impl Color {
    /// The 0xRRGGBB value of the color.
    pub fn value(self) -> (r: u32)
        ensures
            r == rgb(self),
    {
        match self {
            Color::Black => 0x00000000,
            Color::Blue => 0x000000AA,
            Color::Green => 0x0000AA00,
            Color::Cyan => 0x0000AAAA,
            Color::Red => 0x00AA0000,
            Color::Magenta => 0x00AA00AA,
            Color::Brown => 0x00AA5500,
            Color::LightGrey => 0x00AAAAAA,
            Color::DarkGrey => 0x00555555,
            Color::LightBlue => 0x005555FF,
            Color::LightGreen => 0x0055FF55,
            Color::LightCyan => 0x0055FFFF,
            Color::LightRed => 0x00FF5555,
            Color::LightMagenta => 0x00FF55FF,
            Color::Yellow => 0x00FFFF55,
            Color::White => 0x00FFFFFF,
        }
    }
}

/// The colors of text and of the background behind it.
#[derive(Clone, Copy)]
pub struct ColorCode {
    pub fg: u32,
    pub bg: u32,
}

impl ColorCode {
    pub fn new(foreground: Color, background: Color) -> (c: ColorCode)
        ensures
            c.fg == rgb(foreground),
            c.bg == rgb(background),
    {
        ColorCode { fg: foreground.value(), bg: background.value() }
    }
}

/// What the console asks to be drawn.
#[derive(Clone, Copy)]
pub enum DrawOp {
    /// Draw glyph `c` with its top left corner at pixel `(x, y)`.
    Glyph { c: u8, x: u32, y: u32, fg: u32, bg: u32 },
    /// Move the screen up by one text row and fill the bottom row with `bg`.
    ScrollUp { bg: u32 },
}

pub struct Writer {
    column: usize,
    row: usize,
    color: ColorCode,
}

/// The cursor and colors of the console.
pub struct WriterView {
    pub column: int,
    pub row: int,
    pub fg: u32,
    pub bg: u32,
}

/// The glyph for `c` at the text cell `(column, row)`.
pub open spec fn glyph_at(w: WriterView, c: u8, column: int, row: int) -> DrawOp {
    DrawOp::Glyph { c, x: (column * 16) as u32, y: (row * 32) as u32, fg: w.fg, bg: w.bg }
}

/// After the cursor moved to `row`: past the last of the `rows` text rows the
/// screen scrolls and the cursor goes to the start of the last row.
pub open spec fn settle(w: WriterView, column: int, row: int, rows: int, ops: Seq<DrawOp>) -> (WriterView, Seq<DrawOp>) {
    if row >= rows {
        (WriterView { column: 0, row: rows - 1, ..w }, ops.push(DrawOp::ScrollUp { bg: w.bg }))
    } else {
        (WriterView { column, row, ..w }, ops)
    }
}

/// The console after one byte on a screen of `cols` by `rows` text cells, and
/// what is drawn. A backspace erases the cell left of the cursor and moves
/// there (nothing at the start of a row); a newline goes to the start of the
/// next row; any other byte is drawn under the cursor, which moves right, and
/// to the next row past the last column.
pub open spec fn after_byte(w: WriterView, byte: u8, cols: int, rows: int) -> (WriterView, Seq<DrawOp>) {
    if byte == 8 {
        if w.column > 0 {
            (
                WriterView { column: w.column - 1, ..w },
                seq![glyph_at(w, 32, w.column - 1, w.row)],
            )
        } else {
            (w, Seq::empty())
        }
    } else if byte == 10 {
        settle(w, 0, w.row + 1, rows, Seq::empty())
    } else {
        let ops = seq![glyph_at(w, byte, w.column, w.row)];
        if w.column + 1 >= cols {
            settle(w, 0, w.row + 1, rows, ops)
        } else {
            settle(w, w.column + 1, w.row, rows, ops)
        }
    }
}

impl Writer {
    pub closed spec fn view(&self) -> WriterView {
        WriterView { column: self.column as int, row: self.row as int, fg: self.color.fg, bg: self.color.bg }
    }

    /// A console with the cursor at the top left, writing white on black.
    pub fn new() -> (w: Writer)
        ensures
            w@ == (WriterView { column: 0, row: 0, fg: rgb(Color::White), bg: rgb(Color::Black) }),
    {
        Writer { column: 0, row: 0, color: ColorCode::new(Color::White, Color::Black) }
    }

    /// Writes one byte on a screen of `cols` by `rows` text cells (see
    /// `after_byte`) and returns what is to be drawn, in order.
    pub fn write_byte(&mut self, byte: u8, cols: usize, rows: usize) -> (ops: Vec<DrawOp>)
        requires
            rows > 0,
            old(self)@.column < usize::MAX / 16,
            old(self)@.row < usize::MAX / 32,
        ensures
            (final(self)@, ops@) == after_byte(old(self)@, byte, cols as int, rows as int),
    {
        let mut ops: Vec<DrawOp> = Vec::new();
        if byte == 8 {
            if self.column > 0 {
                self.column = self.column - 1;
                let x = (self.column * 16) as u32;
                let y = (self.row * 32) as u32;
                ops.push(DrawOp::Glyph { c: 32, x, y, fg: self.color.fg, bg: self.color.bg });
            }
            assert(ops@ =~= after_byte(old(self)@, byte, cols as int, rows as int).1);
            return ops;
        }
        if byte == 10 {
            self.column = 0;
            self.row = self.row + 1;
            self.check_scroll(rows, &mut ops);
            return ops;
        }
        let x = (self.column * 16) as u32;
        let y = (self.row * 32) as u32;
        ops.push(DrawOp::Glyph { c: byte, x, y, fg: self.color.fg, bg: self.color.bg });
        self.column = self.column + 1;
        if self.column >= cols {
            self.column = 0;
            self.row = self.row + 1;
        }
        self.check_scroll(rows, &mut ops);
        ops
    }

    /// Scrolls when the cursor has gone past the last row.
    fn check_scroll(&mut self, rows: usize, ops: &mut Vec<DrawOp>)
        requires
            rows > 0,
        ensures
            (final(self)@, final(ops)@) == settle(old(self)@, old(self)@.column, old(self)@.row, rows as int, old(ops)@),
    {
        if self.row >= rows {
            ops.push(DrawOp::ScrollUp { bg: self.color.bg });
            self.row = rows - 1;
            self.column = 0;
        }
    }

    /// Moves the cursor to the top left, as after the screen is cleared to the
    /// background color.
    pub fn clear_screen(&mut self) -> (bg: u32)
        ensures
            final(self)@ == (WriterView { column: 0, row: 0, ..old(self)@ }),
            bg == old(self)@.bg,
    {
        self.column = 0;
        self.row = 0;
        self.color.bg
    }
}

/// Whether pixel `col` of row `row` of glyph `c` is set: the rows are two
/// bytes each, the leftmost pixel in the top bit of the first byte.
pub open spec fn glyph_bit(font: Seq<u8>, c: u8, row: int, col: int) -> bool {
    (font[c * 64 + 2 * row + col / 8] >> ((7 - col % 8) as u8)) & 1 == 1
}

proof fn lemma_row_bit(b1: u8, b2: u8, col: u32)
    requires
        col < 16,
    ensures
        ((((b1 as u32) << 8u32) | (b2 as u32)) >> ((15 - col) as u32)) & 1 == 1 <==> (if col < 8 {
            (b1 >> ((7 - col) as u8)) & 1 == 1
        } else {
            (b2 >> ((15 - col) as u8)) & 1 == 1
        }),
{
    assert(((((b1 as u32) << 8u32) | (b2 as u32)) >> ((15 - col) as u32)) & 1 == 1 <==> (if col < 8 {
        (b1 >> ((7 - col) as u8)) & 1 == 1
    } else {
        (b2 >> ((15 - col) as u8)) & 1 == 1
    })) by (bit_vector)
        requires
            col < 16,
    ;
}

/// The pixels of glyph `c` of `font` drawn with its top left corner at
/// `(x, y)`: row by row, `(x + col, y + row, color)`, in `fg` where the glyph
/// is set and `bg` elsewhere.
pub fn glyph_pixels(font: &[u8], c: u8, x: u32, y: u32, fg: u32, bg: u32) -> (r: Vec<(u32, u32, u32)>)
    requires
        font@.len() >= (c + 1) * GLYPH_BYTES,
        x + (GLYPH_WIDTH - 1) <= u32::MAX,
        y + (GLYPH_HEIGHT - 1) <= u32::MAX,
    ensures
        r@.len() == 512,
        forall|row: int, col: int|
            0 <= row < 32 && 0 <= col < 16 ==> #[trigger] r@[row * 16 + col] == (
                (x + col) as u32,
                (y + row) as u32,
                if glyph_bit(font@, c, row, col) {
                    fg
                } else {
                    bg
                },
            ),
{
    let offset = (c as usize) * 64;
    let mut out: Vec<(u32, u32, u32)> = Vec::new();
    let mut row: usize = 0;
    while row < 32
        invariant
            font@.len() >= (c + 1) * GLYPH_BYTES,
            offset == c * 64,
            x + (GLYPH_WIDTH - 1) <= u32::MAX,
            y + (GLYPH_HEIGHT - 1) <= u32::MAX,
            row <= 32,
            out@.len() == row * 16,
            forall|r: int, k: int|
                0 <= r < row && 0 <= k < 16 ==> #[trigger] out@[r * 16 + k] == (
                    (x + k) as u32,
                    (y + r) as u32,
                    if glyph_bit(font@, c, r, k) {
                        fg
                    } else {
                        bg
                    },
                ),
        decreases 32 - row,
    {
        let byte1 = font[offset + row * 2];
        let byte2 = font[offset + row * 2 + 1];
        let row_data = ((byte1 as u32) << 8) | (byte2 as u32);
        let mut col: u32 = 0;
        while col < 16
            invariant
                font@.len() >= (c + 1) * GLYPH_BYTES,
                offset == c * 64,
                x + (GLYPH_WIDTH - 1) <= u32::MAX,
                y + (GLYPH_HEIGHT - 1) <= u32::MAX,
                row < 32,
                col <= 16,
                byte1 == font@[c * 64 + 2 * row],
                byte2 == font@[c * 64 + 2 * row + 1],
                row_data == ((byte1 as u32) << 8u32) | (byte2 as u32),
                out@.len() == row * 16 + col,
                forall|r: int, k: int|
                    (0 <= r < row && 0 <= k < 16) || (r == row && 0 <= k < col) ==> #[trigger] out@[r * 16 + k] == (
                        (x + k) as u32,
                        (y + r) as u32,
                        if glyph_bit(font@, c, r, k) {
                            fg
                        } else {
                            bg
                        },
                    ),
            decreases 16 - col,
        {
            let bit = (row_data >> (15 - col)) & 1;
            let color = if bit == 1 {
                fg
            } else {
                bg
            };
            proof {
                lemma_row_bit(byte1, byte2, col);
                if col < 8 {
                    assert((col as int) / 8 == 0 && (col as int) % 8 == col);
                } else {
                    assert((col as int) / 8 == 1 && (col as int) % 8 == col - 8);
                }
                assert(color == if glyph_bit(font@, c, row as int, col as int) { fg } else { bg });
            }
            let ghost before = out@;
            out.push((x + col, y + row as u32, color));
            proof {
                assert forall|r: int, k: int|
                    (0 <= r < row && 0 <= k < 16) || (r == row && 0 <= k < col + 1) implies #[trigger] out@[r * 16 + k] == (
                        (x + k) as u32,
                        (y + r) as u32,
                        if glyph_bit(font@, c, r, k) {
                            fg
                        } else {
                            bg
                        },
                    ) by {
                    if r < row || k < col {
                        assert(r * 16 + k < row * 16 + col) by (nonlinear_arith)
                            requires
                                (0 <= r < row && 0 <= k < 16) || (r == row && 0 <= k < col),
                        ;
                        assert(out@[r * 16 + k] == before[r * 16 + k]);
                    }
                }
            }
            col = col + 1;
        }
        row = row + 1;
    }
    out
}

/// Where pixel `(x, y)` lies in a framebuffer `width` by `height` pixels with
/// `pitch` bytes per row: its byte offset, or `None` off screen.
pub fn pixel_offset(x: u32, y: u32, width: u32, height: u32, pitch: u32) -> (r: Option<usize>)
    requires
        y < height && x < width ==> y * pitch + x * 4 <= u32::MAX,
    ensures
        r == if x < width && y < height {
            Some((y * pitch + x * 4) as usize)
        } else {
            None::<usize>
        },
{
    if x >= width || y >= height {
        return None;
    }
    assert(y * pitch <= u32::MAX) by (nonlinear_arith)
        requires
            y * pitch + x * 4 <= u32::MAX,
            x >= 0,
    ;
    Some((y * pitch + x * 4) as usize)
}

/// Law: the cursor stays on the screen: from a cell of a screen of `cols` by
/// `rows` text cells, any byte leaves the cursor on a cell of that screen.
pub proof fn law_console_cursor_on_screen(w: WriterView, byte: u8, cols: int, rows: int)
    requires
        0 <= w.column < cols,
        0 <= w.row < rows,
    ensures
        0 <= after_byte(w, byte, cols, rows).0.column < cols,
        0 <= after_byte(w, byte, cols, rows).0.row < rows,
        after_byte(w, byte, cols, rows).0.fg == w.fg,
        after_byte(w, byte, cols, rows).0.bg == w.bg,
{
}

/// Law: what a byte draws. A byte other than a backspace or a newline is
/// drawn first, as a glyph of that byte at the cursor's cell (16 by 32 pixels
/// a cell) in the console's foreground color on its background color, and
/// nothing else is drawn but a scroll. A backspace away from the start of a
/// row draws only a space in those colors on the cell left of the cursor; at
/// the start of a row, and for a newline, no glyph is drawn.
pub proof fn law_glyph_in_console_colors(w: WriterView, byte: u8, cols: int, rows: int)
    ensures
        byte != 8 && byte != 10 ==> ({
            let ops = after_byte(w, byte, cols, rows).1;
            &&& ops.len() >= 1
            &&& ops[0] == (DrawOp::Glyph {
                c: byte,
                x: (w.column * 16) as u32,
                y: (w.row * 32) as u32,
                fg: w.fg,
                bg: w.bg,
            })
            &&& forall|k: int| 1 <= k < ops.len() ==> ops[k] == (DrawOp::ScrollUp { bg: w.bg })
        }),
        byte == 8 && w.column > 0 ==> after_byte(w, byte, cols, rows).1 == seq![
            DrawOp::Glyph {
                c: 32,
                x: ((w.column - 1) * 16) as u32,
                y: (w.row * 32) as u32,
                fg: w.fg,
                bg: w.bg,
            },
        ],
        (byte == 8 && w.column <= 0) || byte == 10 ==> forall|k: int|
            0 <= k < after_byte(w, byte, cols, rows).1.len() ==> after_byte(w, byte, cols, rows).1[k]
                == (DrawOp::ScrollUp { bg: w.bg }),
{
}

} // verus!
