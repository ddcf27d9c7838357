//! The VGA text console: 25 rows of 80 character cells, each a byte and a
//! color code, and a cursor that moves as bytes are written.
//!
//! The cells are kept here; what is shown on screen is a copy of them.
use vstd::prelude::*;
use vstd::string::*;

verus! {

pub const BUFFER_HEIGHT: usize = 25;
pub const BUFFER_WIDTH: usize = 80;
pub const BUFFER_CELLS: usize = 2000;

/// The sixteen colors of the text mode palette.
#[derive(Debug, Clone, Copy)]
pub enum Color {
    Black,
    Blue,
    Green,
    Cyan,
    Red,
    Magenta,
    Brown,
    LightGrey,
    DarkGrey,
    LightBlue,
    LightGreen,
    LightCyan,
    LightRed,
    LightMagenta,
    Yellow,
    White,
}

/// The palette index of a color.
pub open spec fn color_index(c: Color) -> u8 {
    match c {
        Color::Black => 0x00,
        Color::Blue => 0x01,
        Color::Green => 0x02,
        Color::Cyan => 0x03,
        Color::Red => 0x04,
        Color::Magenta => 0x05,
        Color::Brown => 0x06,
        Color::LightGrey => 0x07,
        Color::DarkGrey => 0x08,
        Color::LightBlue => 0x09,
        Color::LightGreen => 0x0A,
        Color::LightCyan => 0x0B,
        Color::LightRed => 0x0C,
        Color::LightMagenta => 0x0D,
        Color::Yellow => 0x0E,
        Color::White => 0x0F,
    }
}

impl Color {
    /// The palette index of the color.
    pub fn index(self) -> (r: u8)
        ensures
            r == color_index(self),
    {
        match self {
            Color::Black => 0x00,
            Color::Blue => 0x01,
            Color::Green => 0x02,
            Color::Cyan => 0x03,
            Color::Red => 0x04,
            Color::Magenta => 0x05,
            Color::Brown => 0x06,
            Color::LightGrey => 0x07,
            Color::DarkGrey => 0x08,
            Color::LightBlue => 0x09,
            Color::LightGreen => 0x0A,
            Color::LightCyan => 0x0B,
            Color::LightRed => 0x0C,
            Color::LightMagenta => 0x0D,
            Color::Yellow => 0x0E,
            Color::White => 0x0F,
        }
    }
}

/// A foreground and a background color in one attribute byte.
#[derive(Clone, Copy)]
pub struct ColorCode(u8);

impl ColorCode {
    /// The attribute byte.
    pub closed spec fn view(&self) -> u8 {
        self.0
    }

    /// The attribute byte: background in the high nibble, foreground in the
    /// low one.
    pub fn new(foreground: Color, background: Color) -> (c: ColorCode)
        ensures
            c@ == color_index(background) * 16 + color_index(foreground),
    {
        let bg = background.index();
        let fg = foreground.index();
        let color = (bg << 4) | (fg & 0x0F);
        assert(color == bg * 16 + fg) by (bit_vector)
            requires
                bg < 16,
                fg < 16,
                color == (bg << 4u8) | (fg & 0x0Fu8),
        ;
        ColorCode(color)
    }

    /// The attribute byte.
    pub fn value(&self) -> (r: u8)
        ensures
            r == self@,
    {
        self.0
    }
}

/// A character cell: the byte shown and its attribute byte.
#[derive(Clone, Copy)]
pub struct ScreenChar {
    ascii_code: u8,
    color_code: ColorCode,
}

impl ScreenChar {
    /// The byte and the attribute byte.
    pub closed spec fn view(&self) -> (u8, u8) {
        (self.ascii_code, self.color_code@)
    }

    /// The byte shown.
    pub fn ascii_code(&self) -> (r: u8)
        ensures
            r == self@.0,
    {
        self.ascii_code
    }

    /// The attribute byte.
    pub fn color_code(&self) -> (r: u8)
        ensures
            r == self@.1,
    {
        self.color_code.0
    }
}

/// A blank cell: a space, white on black.
pub open spec fn blank() -> (u8, u8) {
    (32u8, 0x0Fu8)
}

/// The console: the cursor, the color of what is written, and the cells.
pub struct Writer {
    column: usize,
    row: usize,
    color: ColorCode,
    cells: Vec<ScreenChar>,
}

/// The mathematical value of the console.
pub struct WriterView {
    pub column: int,
    pub row: int,
    pub color: u8,
    pub cells: Seq<(u8, u8)>,
}

/// The cursor column is on screen and there are as many cells as the screen
/// has.
pub open spec fn shape_ok(w: WriterView) -> bool {
    0 <= w.column < BUFFER_WIDTH && 0 <= w.row && w.cells.len() == BUFFER_CELLS
}

/// The cells moved up one row, with a blank bottom row.
pub open spec fn scrolled(cells: Seq<(u8, u8)>) -> Seq<(u8, u8)> {
    Seq::new(
        BUFFER_CELLS as nat,
        |k: int|
            if k < BUFFER_CELLS - BUFFER_WIDTH {
                cells[k + BUFFER_WIDTH]
            } else {
                blank()
            },
    )
}

/// The console after one byte is written. A newline moves the cursor to the
/// start of the next row. Any other byte goes into the cell under the cursor
/// (a cursor below the last row, after newlines, points past the cells: that
/// write is `stray_write`), and the cursor moves right, to the next row past
/// the last column; past the last row the cells scroll up one row and the
/// cursor goes to the start of the last row.
pub open spec fn after_byte(w: WriterView, byte: u8) -> WriterView {
    if byte == 10 {
        WriterView { column: 0, row: w.row + 1, ..w }
    } else {
        let offset = w.row * BUFFER_WIDTH + w.column;
        let cells = if offset < BUFFER_CELLS {
            w.cells.update(offset, (byte, w.color))
        } else {
            w.cells
        };
        let (column, row) = if w.column + 1 >= BUFFER_WIDTH {
            (0, w.row + 1)
        } else {
            (w.column + 1, w.row)
        };
        if row >= BUFFER_HEIGHT {
            WriterView { column: 0, row: BUFFER_HEIGHT - 1, color: w.color, cells: scrolled(cells) }
        } else {
            WriterView { column, row, color: w.color, cells }
        }
    }
}

/// The write of one byte that falls past the cells: its offset from the
/// start of the buffer, the byte and the attribute byte. Only a byte other
/// than a newline, with the cursor below the last row, makes one.
pub open spec fn stray_write(w: WriterView, byte: u8) -> Option<(int, u8, u8)> {
    let offset = w.row * BUFFER_WIDTH + w.column;
    if byte != 10 && offset >= BUFFER_CELLS {
        Some((offset, byte, w.color))
    } else {
        None
    }
}

/// The writes past the cells that `bytes`, written in order, make.
pub open spec fn stray_writes(w: WriterView, bytes: Seq<u8>) -> Seq<(int, u8, u8)>
    decreases bytes.len(),
{
    if bytes.len() == 0 {
        Seq::empty()
    } else {
        let first = match stray_write(w, bytes[0]) {
            Some(t) => seq![t],
            None => Seq::empty(),
        };
        first + stray_writes(after_byte(w, bytes[0]), bytes.drop_first())
    }
}

/// A stray write as the caller gets it.
pub open spec fn stray_view(t: (usize, u8, u8)) -> (int, u8, u8) {
    (t.0 as int, t.1, t.2)
}

/// The console after `bytes` are written in order.
pub open spec fn after_bytes(w: WriterView, bytes: Seq<u8>) -> WriterView
    decreases bytes.len(),
{
    if bytes.len() == 0 {
        w
    } else {
        after_bytes(after_byte(w, bytes[0]), bytes.drop_first())
    }
}

impl Writer {
    pub closed spec fn view(&self) -> WriterView {
        WriterView {
            column: self.column as int,
            row: self.row as int,
            color: self.color@,
            cells: self.cells@.map_values(|c: ScreenChar| c@),
        }
    }

    /// A blank screen with the cursor at the top left, writing white on
    /// black.
    pub fn new() -> (w: Writer)
        ensures
            shape_ok(w@),
            w@.column == 0,
            w@.row == 0,
            w@.color == 0x0F,
            w@.cells == Seq::new(BUFFER_CELLS as nat, |k: int| blank()),
    {
        let color = ColorCode::new(Color::White, Color::Black);
        let cell = ScreenChar { ascii_code: 32u8, color_code: color };
        let cells = vec![cell; BUFFER_CELLS];
        let w = Writer { column: 0, row: 0, color, cells };
        assert(w@.cells =~= Seq::new(BUFFER_CELLS as nat, |k: int| blank()));
        w
    }

    /// The byte and attribute byte of cell `i`, counted row by row.
    pub fn cell(&self, i: usize) -> (r: (u8, u8))
        requires
            shape_ok(self@),
            i < BUFFER_CELLS,
        ensures
            r == self@.cells[i as int],
    {
        let c = &self.cells[i];
        (c.ascii_code, c.color_code.0)
    }

    /// Writes one byte at the cursor (see `after_byte`), and returns the write
    /// that falls past the cells, if any (see `stray_write`), for a caller
    /// that keeps the buffer in memory.
    pub fn write_byte(&mut self, byte: u8) -> (stray: Option<(usize, u8, u8)>)
        requires
            shape_ok(old(self)@),
            old(self)@.row < usize::MAX / 80,
        ensures
            shape_ok(final(self)@),
            final(self)@ == after_byte(old(self)@, byte),
            stray_write(old(self)@, byte) == match stray {
                Some(t) => Some(stray_view(t)),
                None => None::<(int, u8, u8)>,
            },
    {
        let offset = self.row * BUFFER_WIDTH + self.column;
        if byte == 10u8 {
            self.column = 0;
            self.row = self.row + 1;
            return None;
        }
        let stray = if offset < BUFFER_CELLS {
            None
        } else {
            Some((offset, byte, self.color.0))
        };
        let mut cells = Vec::new();
        std::mem::swap(&mut cells, &mut self.cells);
        let ghost before = cells@;
        if offset < BUFFER_CELLS {
            cells.set(offset, ScreenChar { ascii_code: byte, color_code: self.color });
        }
        let ghost written = cells@.map_values(|c: ScreenChar| c@);
        assert(written =~= (if offset < BUFFER_CELLS {
            old(self)@.cells.update(offset as int, (byte, old(self)@.color))
        } else {
            old(self)@.cells
        }));
        let mut column = self.column + 1;
        let mut row = self.row;
        if column >= BUFFER_WIDTH {
            column = 0;
            row = row + 1;
        }
        if row >= BUFFER_HEIGHT {
            let mut i: usize = 0;
            while i < BUFFER_CELLS - BUFFER_WIDTH
                invariant
                    cells@.len() == BUFFER_CELLS,
                    written.len() == BUFFER_CELLS,
                    i <= BUFFER_CELLS - BUFFER_WIDTH,
                    forall|k: int| 0 <= k < i ==> (#[trigger] cells@[k])@ == written[k + BUFFER_WIDTH],
                    forall|k: int| i <= k < BUFFER_CELLS ==> (#[trigger] cells@[k])@ == written[k],
                decreases BUFFER_CELLS - BUFFER_WIDTH - i,
            {
                let current = cells[i + BUFFER_WIDTH];
                cells.set(i, current);
                i = i + 1;
            }
            let blank_cell = ScreenChar {
                ascii_code: 32u8,
                color_code: ColorCode::new(Color::White, Color::Black),
            };
            let mut k: usize = BUFFER_CELLS - BUFFER_WIDTH;
            while k < BUFFER_CELLS
                invariant
                    cells@.len() == BUFFER_CELLS,
                    written.len() == BUFFER_CELLS,
                    BUFFER_CELLS - BUFFER_WIDTH <= k <= BUFFER_CELLS,
                    blank_cell@ == blank(),
                    forall|j: int| 0 <= j < BUFFER_CELLS - BUFFER_WIDTH ==> (#[trigger] cells@[j])@
                        == written[j + BUFFER_WIDTH],
                    forall|j: int| BUFFER_CELLS - BUFFER_WIDTH <= j < k ==> (#[trigger] cells@[j])@
                        == blank(),
                decreases BUFFER_CELLS - k,
            {
                cells.set(k, blank_cell);
                k = k + 1;
            }
            assert(cells@.map_values(|c: ScreenChar| c@) =~= scrolled(written));
            self.cells = cells;
            self.row = BUFFER_HEIGHT - 1;
            self.column = 0;
        } else {
            self.cells = cells;
            self.row = row;
            self.column = column;
        }
        stray
    }

    /// Writes the bytes of `s` in order, and returns the writes that fall
    /// past the cells, in order (see `stray_writes`).
    pub fn write_str(&mut self, s: &str) -> (strays: Vec<(usize, u8, u8)>)
        requires
            shape_ok(old(self)@),
            old(self)@.row + s.spec_bytes().len() < usize::MAX / 80,
        ensures
            shape_ok(final(self)@),
            final(self)@ == after_bytes(old(self)@, s.spec_bytes()),
            strays@.map_values(|t: (usize, u8, u8)| stray_view(t)) == stray_writes(old(self)@, s.spec_bytes()),
    {
        let bytes = s.as_bytes();
        let mut out: Vec<(usize, u8, u8)> = Vec::new();
        let mut i: usize = 0;
        assert(bytes@.skip(0) =~= bytes@);
        assert(out@.map_values(|t: (usize, u8, u8)| stray_view(t)) =~= Seq::<(int, u8, u8)>::empty());
        while i < bytes.len()
            invariant
                bytes@ == s.spec_bytes(),
                shape_ok(self@),
                i <= bytes@.len(),
                self@.row <= old(self)@.row + i,
                old(self)@.row + bytes@.len() < usize::MAX / 80,
                after_bytes(old(self)@, bytes@) == after_bytes(self@, bytes@.skip(i as int)),
                stray_writes(old(self)@, bytes@) == out@.map_values(|t: (usize, u8, u8)| stray_view(t))
                    + stray_writes(self@, bytes@.skip(i as int)),
            decreases bytes@.len() - i,
        {
            proof {
                assert(bytes@.skip(i as int).drop_first() =~= bytes@.skip(i + 1));
            }
            let ghost before = out@.map_values(|t: (usize, u8, u8)| stray_view(t));
            let ghost w0 = self@;
            let b = bytes[i];
            match self.write_byte(b) {
                Some(t) => {
                    out.push(t);
                    assert(out@.map_values(|t: (usize, u8, u8)| stray_view(t)) =~= before.push(stray_view(t)));
                    assert(before + stray_writes(w0, bytes@.skip(i as int)) =~= out@.map_values(
                        |t: (usize, u8, u8)| stray_view(t),
                    ) + stray_writes(self@, bytes@.skip(i + 1)));
                },
                None => {
                    assert(before + stray_writes(w0, bytes@.skip(i as int)) =~= before + stray_writes(
                        self@,
                        bytes@.skip(i + 1),
                    ));
                },
            }
            i = i + 1;
        }
        assert(bytes@.skip(i as int) =~= Seq::<u8>::empty());
        assert(out@.map_values(|t: (usize, u8, u8)| stray_view(t)) + Seq::<(int, u8, u8)>::empty() =~= out@.map_values(
            |t: (usize, u8, u8)| stray_view(t),
        ));
        out
    }

    /// Blanks every cell and moves the cursor to the top left.
    pub fn clear_screen(&mut self)
        ensures
            shape_ok(final(self)@),
            final(self)@.column == 0,
            final(self)@.row == 0,
            final(self)@.color == old(self)@.color,
            final(self)@.cells == Seq::new(BUFFER_CELLS as nat, |k: int| blank()),
    {
        let blank_cell = ScreenChar {
            ascii_code: 32u8,
            color_code: ColorCode::new(Color::White, Color::Black),
        };
        self.cells = vec![blank_cell; BUFFER_CELLS];
        self.column = 0;
        self.row = 0;
        assert(self@.cells =~= Seq::new(BUFFER_CELLS as nat, |k: int| blank()));
    }
}

/// Law: writing any byte but a newline leaves the cursor on screen.
pub proof fn law_cursor_on_screen(w: WriterView, byte: u8)
    requires
        0 <= w.column < BUFFER_WIDTH,
        0 <= w.row,
        byte != 10,
    ensures
        0 <= after_byte(w, byte).column < BUFFER_WIDTH,
        0 <= after_byte(w, byte).row < BUFFER_HEIGHT || after_byte(w, byte).row == w.row,
{
}

/// Law: a byte written with the cursor on screen and away from the bottom
/// right corner lands in the cell under the cursor.
pub proof fn law_byte_lands_under_cursor(w: WriterView, byte: u8)
    requires
        0 <= w.column < BUFFER_WIDTH,
        0 <= w.row < BUFFER_HEIGHT,
        w.cells.len() == BUFFER_CELLS,
        byte != 10,
        !(w.row == BUFFER_HEIGHT - 1 && w.column == BUFFER_WIDTH - 1),
    ensures
        after_byte(w, byte).cells[w.row * BUFFER_WIDTH + w.column] == (byte, w.color),
{
}

/// Law: what a byte does to the cells. The byte (other than a newline) is
/// written with the console's color into the cell under the cursor when that
/// cell is on screen. If the cursor then passes the last row, every row moves
/// up by one: the new cell `k` is the cell `k + 80` of the screen just
/// written, the bottom row is blank, and the cursor goes to the start of the
/// bottom row; otherwise the cells are those just written. A newline changes
/// no cell.
pub proof fn law_write_then_scroll(w: WriterView, byte: u8)
    requires
        shape_ok(w),
    ensures
        byte == 10 ==> after_byte(w, byte).cells == w.cells,
        byte != 10 ==> ({
            let offset = w.row * 80 + w.column;
            let written = if offset < 2000 {
                w.cells.update(offset, (byte, w.color))
            } else {
                w.cells
            };
            let next_row = if w.column + 1 >= 80 {
                w.row + 1
            } else {
                w.row
            };
            let a = after_byte(w, byte);
            &&& a.cells.len() == 2000
            &&& a.color == w.color
            &&& next_row >= 25 ==> {
                &&& forall|k: int| 0 <= k < 1920 ==> a.cells[k] == written[k + 80]
                &&& forall|k: int| 1920 <= k < 2000 ==> a.cells[k] == (32u8, 0x0Fu8)
                &&& a.row == 24
                &&& a.column == 0
            }
            &&& next_row < 25 ==> a.cells == written
        }),
{
}

} // verus!
