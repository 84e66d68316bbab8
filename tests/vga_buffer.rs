use blog_kernel::vga_buffer::{
    Color, ColorCode, ScreenChar, Writer, BUFFER_HEIGHT, BUFFER_WIDTH, REPLACEMENT_BYTE,
};

fn row_text(w: &Writer, row: usize) -> String {
    (0..BUFFER_WIDTH).map(|c| char::from(w.char_at(row, c).ascii_character)).collect()
}

#[test]
fn color_code_packs_background_high() {
    assert_eq!(ColorCode::new(Color::Yellow, Color::Black), ColorCode(0x0e));
    assert_eq!(ColorCode::new(Color::White, Color::Blue), ColorCode(0x1f));
    assert_eq!(Color::LightRed.as_u8(), 12);
}

#[test]
fn test_println_output() {
    let color = ColorCode::new(Color::Yellow, Color::Black);
    let mut w = Writer::new(color);
    let s = "Some test string that fits on a single line";
    w.write_string("\n");
    w.write_string(s);
    w.write_string("\n");
    let line = row_text(&w, BUFFER_HEIGHT - 2);
    assert_eq!(&line[..s.len()], s);
    assert_eq!(w.column_position(), 0);
    assert_eq!(w.char_at(BUFFER_HEIGHT - 2, 0), ScreenChar { ascii_character: b'S', color_code: color });
}

#[test]
fn non_printable_bytes_are_replaced() {
    let mut w = Writer::new(ColorCode::new(Color::White, Color::Black));
    w.write_string("a\u{e9}b");
    let row = BUFFER_HEIGHT - 1;
    assert_eq!(w.char_at(row, 0).ascii_character, b'a');
    // The two bytes of the accented letter each become the replacement.
    assert_eq!(w.char_at(row, 1).ascii_character, REPLACEMENT_BYTE);
    assert_eq!(w.char_at(row, 2).ascii_character, REPLACEMENT_BYTE);
    assert_eq!(w.char_at(row, 3).ascii_character, b'b');
    assert_eq!(w.column_position(), 4);
}

#[test]
fn full_row_wraps_to_new_line() {
    let mut w = Writer::new(ColorCode::new(Color::White, Color::Black));
    for _ in 0..BUFFER_WIDTH {
        w.write_byte(b'x');
    }
    assert_eq!(w.column_position(), BUFFER_WIDTH);
    w.write_byte(b'y');
    assert_eq!(w.column_position(), 1);
    assert_eq!(row_text(&w, BUFFER_HEIGHT - 2), "x".repeat(BUFFER_WIDTH));
    assert_eq!(w.char_at(BUFFER_HEIGHT - 1, 0).ascii_character, b'y');
    assert_eq!(w.char_at(BUFFER_HEIGHT - 1, 1).ascii_character, b' ');
}

#[test]
fn test_println_many() {
    let mut w = Writer::new(ColorCode::new(Color::White, Color::Black));
    for i in 0..200 {
        w.write_string(&format!("line {}\n", i));
    }
    assert!(row_text(&w, BUFFER_HEIGHT - 2).starts_with("line 199"));
    assert!(row_text(&w, 0).starts_with("line 176"));
    assert_eq!(row_text(&w, BUFFER_HEIGHT - 1), " ".repeat(BUFFER_WIDTH));
}
