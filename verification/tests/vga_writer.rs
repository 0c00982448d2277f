use firstos::vga::Char;
use firstos::vga::Color;
use firstos::vga::ColorCode;
use firstos::vga::Writer;
use firstos::vga::BUFFER_HEIGHT;
use firstos::vga::BUFFER_WIDTH;

fn cell_at(w: &Writer, row: usize, col: usize) -> Char {
    Char::from_u16(w.buffer[row * BUFFER_WIDTH + col])
}

#[test]
fn test_char_from_to_u16() {
    let c = Char { ascii: b'!', color: ColorCode::new(Color::Red, Color::Blue) };
    let c16: u16 = c.to_u16();
    assert_eq!(c, Char::from_u16(c16));
}

#[test]
fn color_codes_pack_nibbles() {
    assert_eq!(ColorCode::new(Color::Yellow, Color::Black).to_u8(), 0x0E);
    assert_eq!(ColorCode::new(Color::White, Color::Red).to_u8(), 0x4F);
    assert_eq!(ColorCode::new(Color::Black, Color::White).to_u8(), 0xF0);
}

#[test]
fn new_writer_is_blank() {
    let w = Writer::new();
    for row in 0..BUFFER_HEIGHT {
        for col in 0..BUFFER_WIDTH {
            assert_eq!(cell_at(&w, row, col).ascii, b' ');
        }
    }
}

#[test]
fn writes_land_on_the_bottom_row() {
    let mut w = Writer::new();
    w.write_string("Hi");
    assert_eq!(cell_at(&w, BUFFER_HEIGHT - 1, 0).ascii, b'H');
    assert_eq!(cell_at(&w, BUFFER_HEIGHT - 1, 1).ascii, b'i');
    assert_eq!(cell_at(&w, BUFFER_HEIGHT - 1, 2).ascii, b' ');
}

#[test]
fn unprintable_bytes_become_placeholder() {
    let mut w = Writer::new();
    w.write_string("\u{7f}");
    assert_eq!(cell_at(&w, BUFFER_HEIGHT - 1, 0).ascii, 0xFE);
}

#[test]
fn newline_scrolls_text_upward() {
    let mut w = Writer::new();
    w.write_string("first\nsecond");
    assert_eq!(cell_at(&w, BUFFER_HEIGHT - 2, 0).ascii, b'f');
    assert_eq!(cell_at(&w, BUFFER_HEIGHT - 2, 4).ascii, b't');
    assert_eq!(cell_at(&w, BUFFER_HEIGHT - 1, 0).ascii, b's');
}

#[test]
fn test_scrolling() {
    let mut w = Writer::new();
    for _ in 0..200 {
        w.write_string("test_scrolling output\n");
    }
    // Every visible row above the cursor line now shows the same text.
    assert_eq!(cell_at(&w, 0, 0).ascii, b't');
    assert_eq!(cell_at(&w, BUFFER_HEIGHT - 2, 20).ascii, b't');
    // The bottom row is clear again after the final line feed.
    assert_eq!(cell_at(&w, BUFFER_HEIGHT - 1, 0).ascii, b' ');
}

#[test]
fn test_println_output() {
    let mut w = Writer::new();
    let s = "sentinel value";
    w.write_string("\n");
    w.write_string(s);
    w.write_string("\n");
    for (i, c) in s.chars().enumerate() {
        let screen_char = cell_at(&w, BUFFER_HEIGHT - 2, i).ascii;
        assert_eq!(char::from(screen_char), c);
    }
}

#[test]
fn long_lines_wrap_by_scrolling() {
    let mut w = Writer::new();
    let mut long = String::new();
    for _ in 0..(BUFFER_WIDTH + 3) {
        long.push('x');
    }
    w.write_string(&long);
    // The first 80 marks scrolled up one row; the overflow starts the
    // bottom row afresh.
    assert_eq!(cell_at(&w, BUFFER_HEIGHT - 2, BUFFER_WIDTH - 1).ascii, b'x');
    assert_eq!(cell_at(&w, BUFFER_HEIGHT - 1, 0).ascii, b'x');
    assert_eq!(cell_at(&w, BUFFER_HEIGHT - 1, 2).ascii, b'x');
    assert_eq!(cell_at(&w, BUFFER_HEIGHT - 1, 3).ascii, b' ');
}
