use kernel::drivers::vga::{
    get_buffer_height, get_buffer_width, glyph_pixels, pixel_offset, Color as FbColor,
    ColorCode as FbColorCode, DrawOp, Writer as FbWriter,
};
use kernel::vga::{Color, ColorCode, Writer};

#[test]
fn text_color_code_packs_nibbles() {
    assert_eq!(ColorCode::new(Color::White, Color::Black).value(), 0x0F);
    assert_eq!(ColorCode::new(Color::Yellow, Color::Blue).value(), 0x1E);
    assert_eq!(ColorCode::new(Color::Black, Color::White).value(), 0xF0);
}

#[test]
fn text_writer_starts_blank() {
    let w = Writer::new();
    for i in [0usize, 1999] {
        assert_eq!(w.cell(i), (b' ', 0x0F));
    }
}

#[test]
fn text_writer_writes_under_cursor() {
    let mut w = Writer::new();
    w.write_byte(b'A');
    w.write_byte(b'B');
    assert_eq!(w.cell(0), (b'A', 0x0F));
    assert_eq!(w.cell(1), (b'B', 0x0F));
    w.write_byte(b'\n');
    w.write_byte(b'C');
    assert_eq!(w.cell(80), (b'C', 0x0F));
}

#[test]
fn text_writer_wraps_and_scrolls() {
    let mut w = Writer::new();
    w.write_byte(b'T');
    for _ in 0..24 {
        w.write_byte(b'\n');
    }
    for _ in 0..80 {
        w.write_byte(b'x');
    }
    assert_eq!(w.cell(0), (b' ', 0x0F));
    assert_eq!(w.cell(23 * 80), (b'x', 0x0F));
    assert_eq!(w.cell(24 * 80), (b' ', 0x0F));
}

#[test]
fn text_writer_write_str_and_clear() {
    let mut w = Writer::new();
    w.write_str("hi");
    assert_eq!(w.cell(0), (b'h', 0x0F));
    assert_eq!(w.cell(1), (b'i', 0x0F));
    w.clear_screen();
    assert_eq!(w.cell(0), (b' ', 0x0F));
    w.write_byte(b'z');
    assert_eq!(w.cell(0), (b'z', 0x0F));
}

#[test]
fn framebuffer_colors() {
    assert_eq!(FbColor::Brown.value(), 0x00AA5500);
    let c = FbColorCode::new(FbColor::Yellow, FbColor::Black);
    assert_eq!((c.fg, c.bg), (0x00FFFF55, 0));
}

#[test]
fn framebuffer_grid_size() {
    assert_eq!(get_buffer_width(1920), 120);
    assert_eq!(get_buffer_height(1080), 33);
}

fn glyph(op: &DrawOp) -> (u8, u32, u32) {
    match op {
        DrawOp::Glyph { c, x, y, .. } => (*c, *x, *y),
        DrawOp::ScrollUp { .. } => panic!("expected a glyph"),
    }
}

#[test]
fn framebuffer_writer_draws_and_moves() {
    let mut w = FbWriter::new();
    let ops = w.write_byte(b'A', 120, 33);
    assert_eq!(ops.len(), 1);
    assert_eq!(glyph(&ops[0]), (b'A', 0, 0));
    let ops = w.write_byte(b'B', 120, 33);
    assert_eq!(glyph(&ops[0]), (b'B', 16, 0));
    assert!(w.write_byte(b'\n', 120, 33).is_empty());
    let ops = w.write_byte(b'C', 120, 33);
    assert_eq!(glyph(&ops[0]), (b'C', 0, 32));
}

#[test]
fn framebuffer_backspace() {
    let mut w = FbWriter::new();
    assert!(w.write_byte(8, 120, 33).is_empty());
    w.write_byte(b'A', 120, 33);
    let ops = w.write_byte(8, 120, 33);
    assert_eq!(glyph(&ops[0]), (b' ', 0, 0));
    let ops = w.write_byte(b'B', 120, 33);
    assert_eq!(glyph(&ops[0]), (b'B', 0, 0));
}

#[test]
fn framebuffer_scrolls_past_last_row() {
    let mut w = FbWriter::new();
    let ops = w.write_byte(b'\n', 120, 1);
    assert_eq!(ops.len(), 1);
    assert!(matches!(ops[0], DrawOp::ScrollUp { bg: 0 }));
    let ops = w.write_byte(b'a', 1, 2);
    assert_eq!(glyph(&ops[0]), (b'a', 0, 0));
    assert_eq!(ops.len(), 1);
    let ops = w.write_byte(b'b', 1, 2);
    assert_eq!(glyph(&ops[0]), (b'b', 0, 32));
    assert!(matches!(ops[1], DrawOp::ScrollUp { .. }));
}

#[test]
fn glyph_pixels_follow_font_bits() {
    let mut font = vec![0u8; 64 * 3];
    font[2 * 64] = 0b1000_0000;
    font[2 * 64 + 1] = 0b0000_0001;
    font[2 * 64 + 62] = 0xFF;
    let px = glyph_pixels(&font, 2, 100, 200, 0xFFFFFF, 0x111111);
    assert_eq!(px.len(), 512);
    assert_eq!(px[0], (100, 200, 0xFFFFFF));
    assert_eq!(px[1], (101, 200, 0x111111));
    assert_eq!(px[15], (115, 200, 0xFFFFFF));
    assert_eq!(px[31 * 16 + 7], (107, 231, 0xFFFFFF));
    assert_eq!(px[31 * 16 + 8], (108, 231, 0x111111));
}

#[test]
fn pixel_offsets() {
    assert_eq!(pixel_offset(3, 2, 1920, 1080, 7680), Some(2 * 7680 + 12));
    assert_eq!(pixel_offset(1920, 0, 1920, 1080, 7680), None);
    assert_eq!(pixel_offset(0, 1080, 1920, 1080, 7680), None);
}

#[test]
fn framebuffer_cursor_stays_on_screen() {
    let mut w = FbWriter::new();
    let text = b"hello\nworld\x08\x08 and more text\n\n\x08xyz";
    for _ in 0..5 {
        for &b in text.iter() {
            for op in w.write_byte(b, 3, 2) {
                if let DrawOp::Glyph { x, y, .. } = op {
                    assert!(x < 3 * 16);
                    assert!(y < 2 * 32);
                }
            }
        }
    }
}

#[test]
fn glyph_pixels_at_the_edge_of_the_coordinates() {
    let font = vec![0xFFu8; 64];
    let x = u32::MAX - 15;
    let y = u32::MAX - 31;
    let px = glyph_pixels(&font, 0, x, y, 7, 9);
    assert_eq!(px.len(), 512);
    assert_eq!(px[0], (x, y, 7));
    assert_eq!(px[31 * 16 + 15], (u32::MAX, u32::MAX, 7));
}

#[test]
fn text_writer_reports_writes_below_the_screen() {
    let mut w = Writer::new();
    assert_eq!(w.write_byte(b'T'), None);
    for _ in 0..25 {
        assert_eq!(w.write_byte(b'\n'), None);
    }
    // The cursor is on row 25, past the 25 rows of cells.
    assert_eq!(w.write_byte(b'x'), Some((25 * 80, b'x', 0x0F)));
    // The cells scrolled up one row; the stray byte is not among them.
    assert_eq!(w.cell(24 * 80), (b' ', 0x0F));
    assert_eq!(w.write_byte(b'y'), None);
    assert_eq!(w.cell(24 * 80), (b'y', 0x0F));
    let mut w = Writer::new();
    for _ in 0..26 {
        w.write_byte(b'\n');
    }
    assert_eq!(w.write_str("ab"), vec![(26 * 80, b'a', 0x0F)]);
    assert_eq!(w.cell(24 * 80), (b'b', 0x0F));
}
