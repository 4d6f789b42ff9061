use ryzc::device::vga::{Color, ColorCode, DisplayBuffer, ScreenChar, Writer, SCREEN_HEIGHT, SCREEN_WIDTH};

fn gray() -> ColorCode {
    ColorCode::new(Color::LightGray, Color::Black)
}

fn cell(w: &Writer, row: usize, col: usize) -> u8 {
    w.screen()[row * SCREEN_WIDTH + col].ascii_character
}

fn line(w: &Writer, row: usize) -> String {
    (0..SCREEN_WIDTH).map(|c| cell(w, row, c) as char).collect::<String>().trim_end().to_string()
}

#[test]
fn color_codes_pack_background_high() {
    assert_eq!(ColorCode::new(Color::LightGray, Color::Black), ColorCode(0x07));
    assert_eq!(ColorCode::new(Color::White, Color::Blue), ColorCode(0x1F));
    assert_eq!(ColorCode::new(Color::Black, Color::White), ColorCode(0xF0));
    assert_eq!(Color::Yellow.value(), 14);
}

#[test]
fn new_buffers_are_blank() {
    let d = DisplayBuffer::new();
    assert_eq!(d.chars.len(), 100 * SCREEN_WIDTH);
    assert_eq!(d.origin, 0);
    assert!(d.chars.iter().all(|c| *c == ScreenChar { ascii_character: b' ', color_code: ColorCode(0) }));
    let w = Writer::new();
    assert_eq!(w.screen().len(), SCREEN_HEIGHT * SCREEN_WIDTH);
    assert!(w.screen().iter().all(|c| c.ascii_character == b' '));
}

#[test]
fn characters_appear_at_the_cursor() {
    let mut w = Writer::new();
    w.write_string("hi");
    assert_eq!(w.screen()[0], ScreenChar { ascii_character: b'h', color_code: gray() });
    assert_eq!(cell(&w, 0, 1), b'i');
    w.write_string("\nyo");
    assert_eq!(line(&w, 0), "hi");
    assert_eq!(line(&w, 1), "yo");
}

#[test]
fn unprintable_bytes_show_as_a_block() {
    let mut w = Writer::new();
    w.write_string("a\u{1}b\u{e9}");
    // 0xe9 is two UTF-8 bytes, each shown as 0xfe.
    let expected = [b'a', 0xfe, b'b', 0xfe, 0xfe];
    for (i, e) in expected.iter().enumerate() {
        assert_eq!(cell(&w, 0, i), *e);
    }
}

#[test]
fn backspace_erases_the_previous_character() {
    let mut w = Writer::new();
    w.write_string("abc\u{8}");
    assert_eq!(line(&w, 0), "ab");
    w.write_string("d");
    assert_eq!(line(&w, 0), "abd");
}

#[test]
fn full_lines_wrap() {
    let mut w = Writer::new();
    w.write_string(&"x".repeat(SCREEN_WIDTH + 3));
    assert_eq!(line(&w, 0), "x".repeat(SCREEN_WIDTH));
    assert_eq!(line(&w, 1), "xxx");
    // A backspace at the start of a line goes back to the previous line's end.
    let mut w = Writer::new();
    w.write_string(&"y".repeat(SCREEN_WIDTH));
    w.write_string("\n\u{8}");
    assert_eq!(line(&w, 0), "y".repeat(SCREEN_WIDTH - 1));
}

#[test]
fn screen_follows_the_cursor_and_scrolls_back() {
    let mut w = Writer::new();
    for i in 0..30 {
        w.write_string(&format!("line {}\n", i));
    }
    // The cursor is on line 30; the screen shows lines 6 to 30.
    assert_eq!(line(&w, 0), "line 6");
    assert_eq!(line(&w, 23), "line 29");
    assert_eq!(line(&w, 24), "");
    w.write_string("\u{4}");
    assert_eq!(line(&w, 0), "line 5");
    w.write_string("\u{4}\u{4}");
    assert_eq!(line(&w, 0), "line 3");
    w.write_string("\u{5}");
    assert_eq!(line(&w, 0), "line 4");
    // Typing brings the screen back to the cursor.
    w.write_string("z");
    assert_eq!(line(&w, 0), "line 6");
    assert_eq!(line(&w, 24), "z");
}

#[test]
fn scrolling_stops_at_the_buffer_ends() {
    let mut w = Writer::new();
    w.write_string("top\u{4}");
    assert_eq!(line(&w, 0), "top");
    for _ in 0..80 {
        w.write_string("\u{5}");
    }
    // The screen shows the last 25 buffer lines, all blank.
    assert!(w.screen().iter().all(|c| c.ascii_character == b' '));
}

#[test]
fn the_oldest_line_drops_off_after_a_hundred() {
    let mut w = Writer::new();
    for i in 0..105 {
        w.write_string(&format!("l{}\n", i));
    }
    assert_eq!(line(&w, 24), "");
    assert_eq!(line(&w, 23), "l104");
    assert_eq!(line(&w, 0), "l81");
}

#[test]
fn clearing_blanks_the_screen() {
    let mut w = Writer::new();
    w.write_string("hello\nworld");
    w.clear_screen();
    assert!(w.screen().iter().all(|c| *c == ScreenChar { ascii_character: b' ', color_code: gray() }));
    // The cursor stays where it was.
    w.write_string("!");
    assert_eq!(line(&w, 1), "     !");
}

#[test]
fn accepts_reports_bytes_that_would_leave_the_screen() {
    let mut w = Writer::new();
    assert!(!w.accepts(8));
    assert!(w.accepts(b'a'));
    assert!(w.accepts(4));
    w.write_string("a");
    assert!(w.accepts(8));
    for _ in 0..30 {
        w.write_string("\n");
    }
    for _ in 0..3 {
        w.write_string("\u{4}");
    }
    assert!(w.accepts(b'a'));
    for _ in 0..30 {
        w.write_string("\u{4}");
    }
    // Scrolled to the top with the cursor far below: a character would land off the screen.
    assert!(!w.accepts(b'a'));
    assert!(w.accepts(b'\n'));
}

#[test]
fn scrolling_up_and_down_comes_back() {
    let mut w = Writer::new();
    for i in 0..40 {
        w.write_string(&format!("r{}\n", i));
    }
    let before = w.screen().clone();
    w.write_string("\u{4}\u{5}");
    assert_eq!(*w.screen(), before);
    w.write_string("\u{4}\u{4}");
    let up = w.screen().clone();
    w.write_string("\u{5}\u{4}");
    assert_eq!(*w.screen(), up);
}

#[test]
fn put_byte_dispatches_like_write_string() {
    let mut a = Writer::new();
    let mut b = Writer::new();
    for byte in "ok\u{7}\n\u{4}x".bytes() {
        a.put_byte(byte);
    }
    b.write_string("ok\u{7}\n\u{4}x");
    assert_eq!(a.screen(), b.screen());
    assert_eq!(cell(&a, 0, 2), 0xfe);
}

#[test]
fn writing_in_two_parts_is_writing_once() {
    let mut a = Writer::new();
    let mut b = Writer::new();
    a.write_string("first line\nsecond\u{8}d");
    b.write_string("first li");
    b.write_string("ne\nsecond\u{8}d");
    assert_eq!(a.screen(), b.screen());
}
