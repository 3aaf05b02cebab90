use blog_os::vga_buffer::{Color, ColorCode, ScreenChar, Writer, BUFFER_HEIGHT, BUFFER_WIDTH};

fn bottom_row_text(writer: &Writer, row: usize, len: usize) -> Vec<u8> {
    (0..len).map(|col| writer.char_at(row, col).ascii_character).collect()
}

#[test]
fn color_code_packs_background_in_high_nibble() {
    assert_eq!(ColorCode::new(Color::Yellow, Color::Black).0, 0x0e);
    assert_eq!(ColorCode::new(Color::White, Color::Blue).0, 0x1f);
    assert_eq!(ColorCode::new(Color::Black, Color::White).0, 0xf0);
    assert_eq!(Color::LightGreen.value(), 10);
}

#[test]
fn new_writer_is_blank() {
    let cc = ColorCode::new(Color::Yellow, Color::Black);
    let w = Writer::new(cc);
    assert_eq!(w.chars().len(), BUFFER_WIDTH * BUFFER_HEIGHT);
    assert!(w.chars().iter().all(|c| *c == ScreenChar { ascii_character: b' ', color_code: cc }));
    assert_eq!(w.column_position(), 0);
}

#[test]
fn test_println_simple() {
    let mut w = Writer::new(ColorCode::new(Color::Yellow, Color::Black));
    w.write_string("test_println_simple output\n");
    assert_eq!(w.column_position(), 0);
}

#[test]
fn test_println_many() {
    let mut w = Writer::new(ColorCode::new(Color::Yellow, Color::Black));
    for _ in 0..200 {
        w.write_string("test_println_many output\n");
    }
    assert_eq!(bottom_row_text(&w, BUFFER_HEIGHT - 2, 24), b"test_println_many output".to_vec());
}

#[test]
fn test_println_output() {
    let s = "Some test string the fits on a single line";
    let mut w = Writer::new(ColorCode::new(Color::Yellow, Color::Black));
    w.write_string("\n");
    w.write_string(s);
    w.write_string("\n");
    for (i, c) in s.chars().enumerate() {
        let screen_char = w.char_at(BUFFER_HEIGHT - 2, i);
        assert_eq!(char::from(screen_char.ascii_character), c);
    }
}

#[test]
fn text_goes_to_bottom_row_in_current_colour() {
    let cc = ColorCode::new(Color::Green, Color::Black);
    let mut w = Writer::new(cc);
    w.write_string("hi");
    assert_eq!(w.char_at(BUFFER_HEIGHT - 1, 0), ScreenChar { ascii_character: b'h', color_code: cc });
    assert_eq!(w.char_at(BUFFER_HEIGHT - 1, 1).ascii_character, b'i');
    assert_eq!(w.column_position(), 2);
}

#[test]
fn non_printable_bytes_show_placeholder() {
    let mut w = Writer::new(ColorCode::new(Color::Yellow, Color::Black));
    w.write_string("a\u{e9}\tb");
    assert_eq!(bottom_row_text(&w, BUFFER_HEIGHT - 1, 5), vec![b'a', 0xfe, 0xfe, 0xfe, b'b']);
}

#[test]
fn write_byte_keeps_raw_byte() {
    let mut w = Writer::new(ColorCode::new(Color::Yellow, Color::Black));
    w.write_byte(0x01);
    assert_eq!(w.char_at(BUFFER_HEIGHT - 1, 0).ascii_character, 0x01);
}

#[test]
fn full_row_wraps_to_new_line() {
    let mut w = Writer::new(ColorCode::new(Color::Yellow, Color::Black));
    let line: String = std::iter::repeat('x').take(BUFFER_WIDTH).collect();
    w.write_string(&line);
    assert_eq!(w.column_position(), BUFFER_WIDTH);
    w.write_string("y");
    assert_eq!(bottom_row_text(&w, BUFFER_HEIGHT - 2, BUFFER_WIDTH), line.into_bytes());
    assert_eq!(w.char_at(BUFFER_HEIGHT - 1, 0).ascii_character, b'y');
    assert_eq!(w.char_at(BUFFER_HEIGHT - 1, 1).ascii_character, b' ');
    assert_eq!(w.column_position(), 1);
}

#[test]
fn newline_scrolls_top_row_away() {
    let mut w = Writer::new(ColorCode::new(Color::Yellow, Color::Black));
    w.write_string("first");
    for _ in 0..BUFFER_HEIGHT - 1 {
        w.write_string("\n");
    }
    assert_eq!(bottom_row_text(&w, 0, 5), b"first".to_vec());
    w.write_string("\n");
    assert!((0..BUFFER_HEIGHT).all(|r| w.char_at(r, 0).ascii_character == b' '));
}
