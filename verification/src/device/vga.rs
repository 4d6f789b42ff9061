//! A VGA text-mode writer with a scroll-back buffer.
//!
//! The writer keeps `MAX_HEIGHT` lines of `SCREEN_WIDTH` characters and shows
//! `SCREEN_HEIGHT` of them, starting at line `origin`, on the screen. The
//! screen is held here as a plain array of characters; copying it to the VGA
//! memory is the caller's business.

use vstd::prelude::*;
use vstd::utf8::encode_utf8;

verus! {

/// Lines kept in the scroll-back buffer.
pub const MAX_HEIGHT: usize = 100;
/// Lines shown on the screen.
pub const SCREEN_HEIGHT: usize = 25;
/// Characters per line.
pub const SCREEN_WIDTH: usize = 80;

/// The sixteen VGA colors.
#[derive(Clone, Copy, Debug, PartialEq, Eq, Structural)]
pub enum Color {
    Black,
    Blue,
    Green,
    Cyan,
    Red,
    Magenta,
    Brown,
    LightGray,
    DarkGray,
    LightBlue,
    LightGreen,
    LightCyan,
    LightRed,
    Pink,
    Yellow,
    White,
}

/// The 4-bit VGA number of a color.
pub open spec fn color_value(c: Color) -> u8 {
    match c {
        Color::Black => 0,
        Color::Blue => 1,
        Color::Green => 2,
        Color::Cyan => 3,
        Color::Red => 4,
        Color::Magenta => 5,
        Color::Brown => 6,
        Color::LightGray => 7,
        Color::DarkGray => 8,
        Color::LightBlue => 9,
        Color::LightGreen => 10,
        Color::LightCyan => 11,
        Color::LightRed => 12,
        Color::Pink => 13,
        Color::Yellow => 14,
        Color::White => 15,
    }
}

impl Color {
    /// The 4-bit VGA number of the color.
    pub fn value(self) -> (r: u8)
        ensures
            r == color_value(self),
    {
        match self {
            Color::Black => 0,
            Color::Blue => 1,
            Color::Green => 2,
            Color::Cyan => 3,
            Color::Red => 4,
            Color::Magenta => 5,
            Color::Brown => 6,
            Color::LightGray => 7,
            Color::DarkGray => 8,
            Color::LightBlue => 9,
            Color::LightGreen => 10,
            Color::LightCyan => 11,
            Color::LightRed => 12,
            Color::Pink => 13,
            Color::Yellow => 14,
            Color::White => 15,
        }
    }
}

/// A VGA attribute byte: background color in the high nibble, foreground in
/// the low one.
#[derive(Clone, Copy, Debug, PartialEq, Eq, Structural)]
pub struct ColorCode(pub u8);

impl View for ColorCode {
    type V = u8;

    open spec fn view(&self) -> u8 {
        self.0
    }
}

impl ColorCode {
    pub fn new(foreground: Color, background: Color) -> (r: ColorCode)
        ensures
            r@ == color_value(background) * 16 + color_value(foreground),
    {
        let b = background.value();
        let f = foreground.value();
        assert(((b << 4u8) | f) == b * 16 + f) by (bit_vector)
            requires
                b < 16,
                f < 16,
        ;
        ColorCode((b << 4u8) | f)
    }
}

/// One character cell: the character and its attribute byte.
#[derive(Clone, Copy, Debug, PartialEq, Eq, Structural)]
pub struct ScreenChar {
    pub ascii_character: u8,
    pub color_code: ColorCode,
}

/// The scroll-back buffer: `MAX_HEIGHT` lines of `SCREEN_WIDTH` cells, line
/// `r` column `c` at index `r * SCREEN_WIDTH + c`, and the first line shown.
pub struct DisplayBuffer {
    pub chars: Vec<ScreenChar>,
    pub origin: usize,
}

impl DisplayBuffer {
    /// All cells blank (a space, black on black), showing from the first line.
    pub fn new() -> (r: DisplayBuffer)
        ensures
            r.chars@ == Seq::new(8000, |i: int| blank_cell(0)),
            r.origin == 0,
    {
        let blank = ScreenChar { ascii_character: 32, color_code: ColorCode(0) };
        let chars = vec![blank; MAX_HEIGHT * SCREEN_WIDTH];
        assert(chars@ =~= Seq::new(8000, |i: int| blank_cell(0)));
        DisplayBuffer { chars, origin: 0 }
    }
}

/// A space in the given attribute.
pub open spec fn blank_cell(color: u8) -> ScreenChar {
    ScreenChar { ascii_character: 32, color_code: ColorCode(color) }
}

/// The writer's state as mathematical values.
pub struct WriterView {
    pub row: int,
    pub col: int,
    pub color: u8,
    pub origin: int,
    pub lines: Seq<ScreenChar>,
    pub screen: Seq<ScreenChar>,
}

/// The screen's worth of cells starting at line `origin`.
pub open spec fn window(lines: Seq<ScreenChar>, origin: int) -> Seq<ScreenChar> {
    Seq::new(2000, |i: int| lines[origin * 80 + i])
}

impl WriterView {
    /// Cursor, scroll position and buffers within their bounds.
    pub open spec fn wf(self) -> bool {
        &&& 0 <= self.row < 100
        &&& 0 <= self.col <= 80
        &&& 0 <= self.origin <= 75
        &&& self.lines.len() == 8000
        &&& self.screen.len() == 2000
    }

    /// The screen shows exactly the lines from `origin` on.
    pub open spec fn shows_window(self) -> bool {
        self.screen == window(self.lines, self.origin)
    }

    /// The state after the screen has been redrawn from the buffer.
    pub open spec fn refreshed(self) -> WriterView {
        WriterView { screen: window(self.lines, self.origin), ..self }
    }

    /// The state after line `row` of the buffer has been blanked.
    pub open spec fn row_cleared(self, row: int) -> WriterView {
        WriterView {
            lines: Seq::new(
                self.lines.len(),
                |i: int|
                    if row * 80 <= i < row * 80 + 80 {
                        blank_cell(self.color)
                    } else {
                        self.lines[i]
                    },
            ),
            ..self
        }
    }

    /// The state after a line break: the cursor moves to the start of the
    /// next line, scrolling the screen with it once it is past the first
    /// screenful; on the last buffer line the buffer's lines move up by one
    /// instead, the last one blank, and the screen shows the buffer's end.
    pub open spec fn new_line(self) -> WriterView {
        if self.row == 99 {
            WriterView {
                lines: Seq::new(
                    8000,
                    |i: int|
                        if i < 7920 {
                            self.lines[i + 80]
                        } else {
                            blank_cell(self.color)
                        },
                ),
                col: 0,
                origin: 75,
                ..self
            }.refreshed()
        } else {
            WriterView {
                row: self.row + 1,
                col: 0,
                origin: if self.row + 1 >= 25 {
                    self.origin + 1
                } else {
                    self.origin
                },
                ..self
            }.refreshed()
        }
    }

    /// The state after scrolling the screen one line up (towards older lines)
    /// or down; nothing happens at either end of the buffer.
    pub open spec fn scrolled(self, up: bool) -> WriterView {
        if up && self.origin > 0 {
            WriterView { origin: self.origin - 1, ..self }.refreshed()
        } else if !up && self.origin < 75 {
            WriterView { origin: self.origin + 1, ..self }.refreshed()
        } else {
            self
        }
    }

    /// Whether the buffer cell at `row`, `col` lies on the screen when it shows
    /// the lines from `origin` on.
    pub open spec fn on_screen(row: int, col: int, origin: int) -> bool {
        origin <= row && row - origin < 25 && 0 <= col < 80
    }

    /// The state after the cell at `row`, `col` of the buffer, and the matching
    /// cell of a screen showing the lines from `origin` on, have been set to `c`.
    pub open spec fn put_cell(self, row: int, col: int, origin: int, c: ScreenChar) -> WriterView {
        WriterView {
            lines: self.lines.update(row * 80 + col, c),
            screen: self.screen.update((row - origin) * 80 + col, c),
            ..self
        }
    }

    /// Before each character: when the screen has been scrolled (it neither
    /// shows the first lines nor has the cursor on its last line), it is
    /// brought back so that it shows the lines from the cursor's line less 24
    /// (from the first line when the cursor is on one of the first 26 lines).
    pub open spec fn recentered(self) -> WriterView {
        if self.row - self.origin != 24 && self.origin != 0 {
            WriterView {
                origin: if self.row < 26 {
                    0
                } else {
                    self.row - 24
                },
                ..self
            }.refreshed()
        } else {
            self
        }
    }

    /// A backspace: the cell before the cursor (the last cell of the previous
    /// line at the start of a line, scrolling the screen up with it unless it
    /// shows the first lines) becomes blank and the cursor moves onto it.
    pub open spec fn backspaced(self) -> WriterView {
        if self.col == 0 {
            let moved = WriterView {
                row: self.row - 1,
                col: 79,
                origin: if self.origin != 0 {
                    self.origin - 1
                } else {
                    self.origin
                },
                ..self
            }.put_cell(self.row - 1, 79, self.origin, blank_cell(self.color));
            if self.origin != 0 {
                moved.refreshed()
            } else {
                moved
            }
        } else {
            WriterView { col: self.col - 1, ..self }.put_cell(
                self.row,
                self.col - 1,
                self.origin,
                blank_cell(self.color),
            )
        }
    }

    /// An ordinary character: after a line break if the line is full, it is
    /// put at the cursor, which moves one cell right.
    pub open spec fn typed(self, b: u8) -> WriterView {
        let s = if self.col >= 80 {
            self.new_line()
        } else {
            self
        };
        WriterView { col: s.col + 1, ..s }.put_cell(
            s.row,
            s.col,
            s.origin,
            ScreenChar { ascii_character: b, color_code: ColorCode(self.color) },
        )
    }

    /// The state after writing byte `b`: a line break for `\n`, a backspace
    /// for 8, the character itself otherwise.
    pub open spec fn wrote_byte(self, b: u8) -> WriterView {
        let s = self.recentered();
        if b == 10 {
            s.new_line()
        } else if b == 8 {
            s.backspaced()
        } else {
            s.typed(b)
        }
    }

    /// Writing byte `b` stays within the buffers: the cursor is not above the
    /// screen, and the cell a backspace or a character writes lies on the
    /// screen (a backspace needs a cell before the cursor).
    pub open spec fn byte_ok(self, b: u8) -> bool {
        let s = self.recentered();
        &&& self.origin <= self.row
        &&& b == 8 ==> if s.col == 0 {
            s.row >= 1 && WriterView::on_screen(s.row - 1, 79, s.origin)
        } else {
            WriterView::on_screen(s.row, s.col - 1, s.origin)
        }
        &&& b != 10 && b != 8 ==> {
            let t = if s.col >= 80 {
                s.new_line()
            } else {
                s
            };
            WriterView::on_screen(t.row, t.col, t.origin)
        }
    }

    /// Whether byte `b` of a string is shown as it is: printable ASCII, a line
    /// break or a backspace.
    pub open spec fn shown_as_is(b: u8) -> bool {
        (0x20 <= b <= 0x7e) || b == 10 || b == 8
    }

    /// The state after byte `b` of a string: shown bytes are written, 4 and 5
    /// scroll the screen up and down, anything else is written as 0xfe.
    pub open spec fn put_byte(self, b: u8) -> WriterView {
        if WriterView::shown_as_is(b) {
            self.wrote_byte(b)
        } else if b == 4 {
            self.scrolled(true)
        } else if b == 5 {
            self.scrolled(false)
        } else {
            self.wrote_byte(0xfe)
        }
    }

    /// Putting byte `b` of a string stays within the buffers.
    pub open spec fn put_byte_ok(self, b: u8) -> bool {
        if WriterView::shown_as_is(b) {
            self.byte_ok(b)
        } else if b == 4 || b == 5 {
            true
        } else {
            self.byte_ok(0xfe)
        }
    }

    /// The state after the bytes `bs` of a string, one after the other.
    pub open spec fn put_bytes(self, bs: Seq<u8>) -> WriterView
        decreases bs.len(),
    {
        if bs.len() == 0 {
            self
        } else {
            self.put_bytes(bs.drop_last()).put_byte(bs.last())
        }
    }

    /// Each byte of `bs`, in the state the bytes before it leave, stays
    /// within the buffers.
    pub open spec fn bytes_ok(self, bs: Seq<u8>) -> bool
        decreases bs.len(),
    {
        bs.len() == 0 || (self.bytes_ok(bs.drop_last()) && self.put_bytes(bs.drop_last()).put_byte_ok(
            bs.last(),
        ))
    }

    /// The state after clearing: every buffer line blank, the screen showing
    /// the first lines; the cursor stays where it was.
    pub open spec fn cleared(self) -> WriterView {
        WriterView { lines: Seq::new(8000, |i: int| blank_cell(self.color)), origin: 0, ..self }.refreshed()
    }
}

/// The state with the first `n` screen cells redrawn.
spec fn partly_refreshed(s: WriterView, n: int) -> WriterView {
    WriterView {
        screen: Seq::new(
            2000,
            |k: int|
                if k < n {
                    s.lines[s.origin * 80 + k]
                } else {
                    s.screen[k]
                },
        ),
        ..s
    }
}

/// The state with cells `[from, to)` of the buffer blanked.
spec fn partly_blanked(s: WriterView, from: int, to: int) -> WriterView {
    WriterView {
        lines: Seq::new(
            8000,
            |i: int|
                if from <= i < to {
                    blank_cell(s.color)
                } else {
                    s.lines[i]
                },
        ),
        ..s
    }
}

/// The state with the buffer cells before `n` taken from one line further down.
spec fn partly_shifted(s: WriterView, n: int) -> WriterView {
    WriterView {
        lines: Seq::new(
            8000,
            |p: int|
                if p < n {
                    s.lines[p + 80]
                } else {
                    s.lines[p]
                },
        ),
        ..s
    }
}

/// A prefix of bytes that stay within the buffers stays within them.
proof fn lemma_bytes_ok_prefix(s: WriterView, bs: Seq<u8>, k: int)
    requires
        0 <= k <= bs.len(),
        s.bytes_ok(bs),
    ensures
        s.bytes_ok(bs.take(k)),
    decreases bs.len(),
{
    if k == bs.len() {
        assert(bs.take(k) =~= bs);
    } else {
        assert(bs.drop_last().take(k) =~= bs.take(k));
        lemma_bytes_ok_prefix(s, bs.drop_last(), k);
    }
}

/// Writes characters to the screen, keeping a scroll-back buffer.
pub struct Writer {
    row_position: usize,
    column_position: usize,
    color_code: ColorCode,
    screen: Vec<ScreenChar>,
    display_buffer: DisplayBuffer,
}

impl View for Writer {
    type V = WriterView;

    closed spec fn view(&self) -> WriterView {
        WriterView {
            row: self.row_position as int,
            col: self.column_position as int,
            color: self.color_code.0,
            origin: self.display_buffer.origin as int,
            lines: self.display_buffer.chars@,
            screen: self.screen@,
        }
    }
}

impl Writer {
    /// The cursor, scroll position and buffers always stay within their bounds.
    #[verifier::type_invariant]
    spec fn within_bounds(&self) -> bool {
        self@.wf()
    }

    /// A writer at the top left, light gray on black, with a blank buffer
    /// and a blank screen.
    pub fn new() -> (w: Writer)
        ensures
            w@.wf(),
            w@.shows_window(),
            w@.row == 0,
            w@.col == 0,
            w@.origin == 0,
            w@.color == color_value(Color::Black) * 16 + color_value(Color::LightGray),
            w@.lines == Seq::new(8000, |i: int| blank_cell(0)),
    {
        let blank = ScreenChar { ascii_character: 32, color_code: ColorCode(0) };
        let screen = vec![blank; SCREEN_HEIGHT * SCREEN_WIDTH];
        let w = Writer {
            row_position: 0,
            column_position: 0,
            color_code: ColorCode::new(Color::LightGray, Color::Black),
            screen,
            display_buffer: DisplayBuffer::new(),
        };
        assert(w@.screen =~= window(w@.lines, 0));
        w
    }

    /// The cells currently on the screen, line by line.
    pub fn screen(&self) -> (r: &Vec<ScreenChar>)
        ensures
            r@ == self@.screen,
    {
        &self.screen
    }

    /// Blanks every buffer line and shows the first screenful.
    pub fn clear_screen(&mut self)
        ensures
            final(self)@ == old(self)@.cleared(),
    {
        proof {
            use_type_invariant(&*self);
        }
        assert(old(self)@.lines =~= partly_blanked(old(self)@, 0, 0).lines);
        for row in 0..MAX_HEIGHT
            invariant
                self@ == partly_blanked(old(self)@, 0, row * 80),
                old(self)@.wf(),
        {
            self.clear_row(row);
            assert(self@.lines =~= partly_blanked(old(self)@, 0, (row + 1) * 80).lines);
        }
        self.display_buffer.origin = 0;
        self.refresh();
        assert(self@.lines =~= old(self)@.cleared().lines);
    }

    /// Blanks buffer line `row`.
    fn clear_row(&mut self, row: usize)
        requires
            row < MAX_HEIGHT,
        ensures
            final(self)@ == old(self)@.row_cleared(row as int),
    {
        proof {
            use_type_invariant(&*self);
        }
        let blank = ScreenChar { ascii_character: 32, color_code: self.color_code };
        assert(old(self)@.lines =~= partly_blanked(old(self)@, row * 80, row * 80).lines);
        for col in 0..SCREEN_WIDTH
            invariant
                row < 100,
                blank == blank_cell(old(self)@.color),
                self@ == partly_blanked(old(self)@, row * 80, row * 80 + col),
                old(self)@.wf(),
        {
            self.display_buffer.chars[row * SCREEN_WIDTH + col] = blank;
            assert(self@.lines =~= partly_blanked(old(self)@, row * 80, row * 80 + col + 1).lines);
        }
        assert(self@.lines =~= old(self)@.row_cleared(row as int).lines);
    }

    /// Redraws the screen from the buffer lines starting at `origin`.
    fn refresh(&mut self)
        ensures
            final(self)@ == old(self)@.refreshed(),
    {
        proof {
            use_type_invariant(&*self);
        }
        let origin = self.display_buffer.origin;
        assert(old(self)@.screen =~= partly_refreshed(old(self)@, 0).screen);
        for i in 0..SCREEN_HEIGHT * SCREEN_WIDTH
            invariant
                origin == old(self)@.origin,
                self@ == partly_refreshed(old(self)@, i as int),
                old(self)@.wf(),
        {
            let screen_char = self.display_buffer.chars[origin * SCREEN_WIDTH + i];
            self.screen[i] = screen_char;
            assert(self@.screen =~= partly_refreshed(old(self)@, i + 1).screen);
        }
        assert(self@.screen =~= window(old(self)@.lines, old(self)@.origin));
    }

    /// Scrolls the screen one line up (towards older lines) or down.
    fn scroll(&mut self, up: bool)
        ensures
            final(self)@ == old(self)@.scrolled(up),
    {
        proof {
            use_type_invariant(&*self);
        }
        if up && self.display_buffer.origin > 0 {
            self.display_buffer.origin -= 1;
            self.refresh();
        } else if !up && self.display_buffer.origin < (MAX_HEIGHT - SCREEN_HEIGHT) {
            self.display_buffer.origin += 1;
            self.refresh();
        }
    }

    /// Writes one byte; see [`WriterView::wrote_byte`].
    pub fn write_byte(&mut self, byte: u8)
        requires
            old(self)@.byte_ok(byte),
        ensures
            final(self)@ == old(self)@.wrote_byte(byte),
    {
        proof {
            use_type_invariant(&*self);
        }
        if self.row_position - self.display_buffer.origin != SCREEN_HEIGHT - 1
            && self.display_buffer.origin != 0 {
            if self.row_position < SCREEN_HEIGHT + 1 {
                self.display_buffer.origin = 0;
            } else {
                self.display_buffer.origin = self.row_position - SCREEN_HEIGHT + 1;
            }
            self.refresh();
        }
        let ghost s1 = self@;
        assert(s1 == old(self)@.recentered());
        match byte {
            10u8 => self.new_line(),
            8u8 => {
                let row;
                let col;
                let origin = self.display_buffer.origin;
                let mut refresh = false;
                if self.row_position - origin != SCREEN_HEIGHT - 1 && origin != 0 {
                    refresh = true;
                    self.display_buffer.origin = self.row_position - SCREEN_HEIGHT;
                }
                if self.column_position == 0 {
                    self.row_position -= 1;
                    self.column_position = SCREEN_WIDTH - 1;
                    row = self.row_position;
                    col = self.column_position;
                    if origin != 0 {
                        refresh = true;
                        self.display_buffer.origin -= 1;
                    }
                } else {
                    row = self.row_position;
                    col = self.column_position - 1;
                    self.column_position -= 1;
                }
                let color_code = self.color_code;
                let screen_char = ScreenChar { ascii_character: 32, color_code: color_code };
                self.screen[((row as u64 - origin as u64) as usize) * SCREEN_WIDTH + col] = screen_char;
                self.display_buffer.chars[row * SCREEN_WIDTH + col] = screen_char;
                if refresh {
                    self.refresh();
                }
            },
            byte => {
                if self.column_position >= SCREEN_WIDTH {
                    self.new_line();
                }
                let row = self.row_position;
                let col = self.column_position;
                let color_code = self.color_code;
                let screen_char = ScreenChar { ascii_character: byte, color_code: color_code };
                let origin = self.display_buffer.origin;
                self.screen[((row as u64 - origin as u64) as usize) * SCREEN_WIDTH + col] = screen_char;
                self.display_buffer.chars[row * SCREEN_WIDTH + col] = screen_char;
                self.column_position += 1;
            },
        }
    }

    /// Writes the bytes of `s`; see [`WriterView::put_byte`].
    pub fn write_string(&mut self, s: &str)
        requires
            old(self)@.bytes_ok(encode_utf8(s@)),
        ensures
            final(self)@ == old(self)@.put_bytes(encode_utf8(s@)),
    {
        proof {
            use_type_invariant(&*self);
        }
        let bytes = s.as_bytes();
        let ghost bs = bytes@;
        proof {
            assert(bs.take(0) =~= Seq::<u8>::empty());
        }
        for i in 0..bytes.len()
            invariant
                bs == bytes@,
                bs == encode_utf8(s@),
                old(self)@.bytes_ok(bs),
                self@ == old(self)@.put_bytes(bs.take(i as int)),
        {
            let byte = bytes[i];
            proof {
                use_type_invariant(&*self);
                lemma_bytes_ok_prefix(old(self)@, bs, i + 1);
                assert(bs.take(i + 1).drop_last() =~= bs.take(i as int));
            }
            self.put_byte(byte);
        }
        assert(bs.take(bs.len() as int) =~= bs);
    }

    /// Puts one byte of a string; see [`WriterView::put_byte`].
    pub fn put_byte(&mut self, byte: u8)
        requires
            old(self)@.put_byte_ok(byte),
        ensures
            final(self)@ == old(self)@.put_byte(byte),
    {
        match byte {
            0x20u8..=0x7eu8 | 10u8 | 8u8 => self.write_byte(byte),
            4u8 => self.scroll(true),
            5u8 => self.scroll(false),
            _ => self.write_byte(0xfe),
        }
    }

    /// Whether byte `b`, next in a string, stays within the buffers: see
    /// [`WriterView::put_byte_ok`].
    pub fn accepts(&self, b: u8) -> (r: bool)
        ensures
            r == self@.put_byte_ok(b),
    {
        proof {
            use_type_invariant(self);
        }
        if b == 4 || b == 5 {
            return true;
        }
        let byte = if (0x20 <= b && b <= 0x7e) || b == 10 || b == 8 {
            b
        } else {
            0xfe
        };
        let row = self.row_position;
        let col = self.column_position;
        if row < self.display_buffer.origin {
            return false;
        }
        let origin = if row - self.display_buffer.origin != SCREEN_HEIGHT - 1
            && self.display_buffer.origin != 0 {
            if row < SCREEN_HEIGHT + 1 {
                0
            } else {
                row - SCREEN_HEIGHT + 1
            }
        } else {
            self.display_buffer.origin
        };
        if byte == 10 {
            true
        } else if byte == 8 {
            if col == 0 {
                row >= 1 && origin <= row - 1 && row - 1 - origin < SCREEN_HEIGHT
            } else {
                origin <= row && row - origin < SCREEN_HEIGHT
            }
        } else if col >= SCREEN_WIDTH {
            let (r2, o2) = if row == MAX_HEIGHT - 1 {
                (row, MAX_HEIGHT - SCREEN_HEIGHT)
            } else if row + 1 >= SCREEN_HEIGHT {
                (row + 1, origin + 1)
            } else {
                (row + 1, origin)
            };
            o2 <= r2 && r2 - o2 < SCREEN_HEIGHT
        } else {
            origin <= row && row - origin < SCREEN_HEIGHT
        }
    }

    /// Moves the cursor to the start of the next line; see [`WriterView::new_line`].
    fn new_line(&mut self)
        requires
            old(self)@.row < 99 && old(self)@.row + 1 >= 25 ==> old(self)@.origin < 75,
        ensures
            final(self)@ == old(self)@.new_line(),
    {
        proof {
            use_type_invariant(&*self);
        }
        if self.row_position == MAX_HEIGHT - 1 {
            assert(old(self)@.lines =~= partly_shifted(old(self)@, 0).lines);
            for i in SCREEN_WIDTH..MAX_HEIGHT * SCREEN_WIDTH
                invariant
                    self@ == partly_shifted(old(self)@, i - 80),
                    old(self)@.wf(),
                    80 <= i <= 8000,
            {
                let character = self.display_buffer.chars[i];
                self.display_buffer.chars[i - SCREEN_WIDTH] = character;
                assert(self@.lines =~= partly_shifted(old(self)@, i + 1 - 80).lines);
            }
            self.clear_row(MAX_HEIGHT - 1);
            self.column_position = 0;
            self.display_buffer.origin = MAX_HEIGHT - SCREEN_HEIGHT;
            assert(self@.lines =~= old(self)@.new_line().lines);
        } else {
            self.row_position += 1;
            self.column_position = 0;
            if self.row_position >= SCREEN_HEIGHT {
                self.display_buffer.origin += 1;
            }
        }
        self.refresh();
    }
}


/// Setting a cell that lies on the screen in both the buffer and the screen
/// keeps the screen showing its window.
proof fn lemma_put_cell_keeps_window(s: WriterView, row: int, col: int, c: ScreenChar)
    requires
        s.wf(),
        s.shows_window(),
        WriterView::on_screen(row, col, s.origin),
    ensures
        s.put_cell(row, col, s.origin, c).shows_window(),
{
    let t = s.put_cell(row, col, s.origin, c);
    assert(t.screen =~= window(t.lines, t.origin));
}

/// Law: writing a byte keeps the screen showing exactly the buffer lines from
/// `origin` on.
pub proof fn writing_keeps_screen_in_step(s: WriterView, b: u8)
    requires
        s.wf(),
        s.shows_window(),
        s.byte_ok(b),
    ensures
        s.wrote_byte(b).wf(),
        s.wrote_byte(b).shows_window(),
{
    let s1 = s.recentered();
    assert(s1.shows_window()) by {
        if s1 != s {
            assert(s1.screen =~= window(s1.lines, s1.origin));
        }
    }
    if b == 10 {
    } else if b == 8 {
        if s1.col == 0 {
            let moved = WriterView {
                row: s1.row - 1,
                col: 79,
                origin: if s1.origin != 0 {
                    s1.origin - 1
                } else {
                    s1.origin
                },
                ..s1
            };
            if s1.origin == 0 {
                lemma_put_cell_keeps_window(moved, s1.row - 1, 79, blank_cell(s1.color));
            }
        } else {
            lemma_put_cell_keeps_window(
                WriterView { col: s1.col - 1, ..s1 },
                s1.row,
                s1.col - 1,
                blank_cell(s1.color),
            );
        }
    } else {
        let t = if s1.col >= 80 {
            s1.new_line()
        } else {
            s1
        };
        lemma_put_cell_keeps_window(
            WriterView { col: t.col + 1, ..t },
            t.row,
            t.col,
            ScreenChar { ascii_character: b, color_code: ColorCode(s1.color) },
        );
    }
}

/// Law: writing a string keeps the screen showing exactly the buffer lines
/// from `origin` on.
pub proof fn writing_keeps_screen_in_sync(s: WriterView, bs: Seq<u8>)
    requires
        s.wf(),
        s.shows_window(),
        s.bytes_ok(bs),
    ensures
        s.put_bytes(bs).wf(),
        s.put_bytes(bs).shows_window(),
    decreases bs.len(),
{
    if bs.len() > 0 {
        writing_keeps_screen_in_sync(s, bs.drop_last());
        let t = s.put_bytes(bs.drop_last());
        let b = bs.last();
        if WriterView::shown_as_is(b) {
            writing_keeps_screen_in_step(t, b);
        } else if b == 4 || b == 5 {
        } else {
            writing_keeps_screen_in_step(t, 0xfe);
        }
    }
}

/// Law: scrolling up and then down again, away from the first lines, comes
/// back to the same state.
pub proof fn scroll_up_then_down(s: WriterView)
    requires
        s.wf(),
        s.shows_window(),
        s.origin > 0,
    ensures
        s.scrolled(true).scrolled(false) == s,
{
    assert(s.scrolled(true).scrolled(false).screen =~= s.screen);
}

/// Law: scrolling down and then up again, away from the buffer's end, comes
/// back to the same state.
pub proof fn scroll_down_then_up(s: WriterView)
    requires
        s.wf(),
        s.shows_window(),
        s.origin < 75,
    ensures
        s.scrolled(false).scrolled(true) == s,
{
    assert(s.scrolled(false).scrolled(true).screen =~= s.screen);
}

/// Law: a character written before the end of a line lands in the buffer at
/// the cursor, which moves one cell right on the same line.
pub proof fn typed_character_lands_at_cursor(s: WriterView, b: u8)
    requires
        s.wf(),
        s.byte_ok(b),
        b != 10 && b != 8,
        s.col < 80,
    ensures
        s.wrote_byte(b).row == s.row,
        s.wrote_byte(b).col == s.col + 1,
        s.wrote_byte(b).lines == s.lines.update(
            s.row * 80 + s.col,
            (ScreenChar { ascii_character: b, color_code: ColorCode(s.color) }),
        ),
{
}

/// Law: a backspace right after a character typed before the end of a line
/// puts the cursor back and leaves a blank where the character was.
pub proof fn backspace_erases_typed_character(s: WriterView, b: u8)
    requires
        s.wf(),
        s.byte_ok(b),
        b != 10 && b != 8,
        s.col < 80,
        s.wrote_byte(b).byte_ok(8),
    ensures
        s.wrote_byte(b).wrote_byte(8).row == s.row,
        s.wrote_byte(b).wrote_byte(8).col == s.col,
        s.wrote_byte(b).wrote_byte(8).lines == s.lines.update(
            s.row * 80 + s.col,
            blank_cell(s.color),
        ),
{
    assert(s.wrote_byte(b).wrote_byte(8).lines =~= s.lines.update(
        s.row * 80 + s.col,
        blank_cell(s.color),
    ));
}

/// Law: after clearing, every buffer line and the whole screen are blank and
/// the screen shows the first lines.
pub proof fn clearing_blanks_everything(s: WriterView)
    requires
        s.wf(),
    ensures
        s.cleared().origin == 0,
        s.cleared().shows_window(),
        forall|i: int| 0 <= i < 8000 ==> #[trigger] s.cleared().lines[i] == blank_cell(s.color),
        forall|i: int| 0 <= i < 2000 ==> #[trigger] s.cleared().screen[i] == blank_cell(s.color),
{
}

/// Law: writing the bytes `a` and then `b` is writing `a + b`, and stays
/// within the buffers exactly when each part does in its turn.
pub proof fn writing_in_two_parts(s: WriterView, a: Seq<u8>, b: Seq<u8>)
    ensures
        s.put_bytes(a + b) == s.put_bytes(a).put_bytes(b),
        s.bytes_ok(a + b) == (s.bytes_ok(a) && s.put_bytes(a).bytes_ok(b)),
    decreases b.len(),
{
    if b.len() == 0 {
        assert(a + b =~= a);
    } else {
        writing_in_two_parts(s, a, b.drop_last());
        assert((a + b).drop_last() =~= a + b.drop_last());
        assert((a + b).last() == b.last());
    }
}

/// The UTF-8 encoding of two strings one after the other is the encodings one
/// after the other.
proof fn lemma_encode_concat(x: Seq<char>, y: Seq<char>)
    ensures
        encode_utf8(x + y) == encode_utf8(x) + encode_utf8(y),
    decreases x.len(),
{
    if x.len() == 0 {
        assert(x + y =~= y);
        assert(encode_utf8(x) + encode_utf8(y) =~= encode_utf8(y));
    } else {
        lemma_encode_concat(x.drop_first(), y);
        assert((x + y).drop_first() =~= x.drop_first() + y);
        assert((x + y)[0] == x[0]);
        assert(encode_utf8(x + y) =~= encode_utf8(x) + encode_utf8(y));
    }
}

/// Law: `write_string` of `x` followed by `y` writes what `write_string(x)`
/// and then `write_string(y)` write, and stays within the buffers exactly when
/// both do in turn.
pub proof fn writing_strings_in_two_parts(s: WriterView, x: Seq<char>, y: Seq<char>)
    ensures
        s.put_bytes(encode_utf8(x + y)) == s.put_bytes(encode_utf8(x)).put_bytes(encode_utf8(y)),
        s.bytes_ok(encode_utf8(x + y)) == (s.bytes_ok(encode_utf8(x)) && s.put_bytes(
            encode_utf8(x),
        ).bytes_ok(encode_utf8(y))),
{
    lemma_encode_concat(x, y);
    writing_in_two_parts(s, encode_utf8(x), encode_utf8(y));
}

/// Law: a printable ASCII byte (0x20 to 0x7e) of a string, put before the
/// end of the cursor's line, is stored as itself at the cursor, in the buffer
/// and on the screen, and the cursor moves one cell right on the same line.
pub proof fn printable_byte_lands_at_cursor(s: WriterView, b: u8)
    requires
        s.wf(),
        0x20 <= b <= 0x7e,
        s.col < 80,
        s.put_byte_ok(b),
    ensures
        s.put_byte(b).row == s.row,
        s.put_byte(b).col == s.col + 1,
        s.put_byte(b).lines == s.lines.update(
            s.row * 80 + s.col,
            (ScreenChar { ascii_character: b, color_code: ColorCode(s.color) }),
        ),
        s.row - s.put_byte(b).origin >= 0,
        s.row - s.put_byte(b).origin < 25,
        s.put_byte(b).screen[(s.row - s.put_byte(b).origin) * 80 + s.col] == (ScreenChar {
            ascii_character: b,
            color_code: ColorCode(s.color),
        }),
{
}

/// Law: a byte of a string that is neither printable ASCII nor a line break,
/// a backspace or one of the scroll keys 4 and 5, put before the end of the
/// cursor's line, is stored at the cursor as the block character 0xfe.
pub proof fn other_byte_lands_as_block(s: WriterView, b: u8)
    requires
        s.wf(),
        !(0x20 <= b <= 0x7e),
        b != 10 && b != 8 && b != 4 && b != 5,
        s.col < 80,
        s.put_byte_ok(b),
    ensures
        s.put_byte(b).row == s.row,
        s.put_byte(b).col == s.col + 1,
        s.put_byte(b).lines == s.lines.update(
            s.row * 80 + s.col,
            (ScreenChar { ascii_character: 0xfe, color_code: ColorCode(s.color) }),
        ),
{
}

/// Law: a line break of a string moves the cursor to the start of the next
/// buffer line (the last line stays last, the buffer moving up instead).
pub proof fn line_break_moves_to_next_line(s: WriterView)
    requires
        s.wf(),
        s.put_byte_ok(10),
    ensures
        s.put_byte(10).col == 0,
        s.row < 99 ==> s.put_byte(10).row == s.row + 1,
        s.row == 99 ==> s.put_byte(10).row == 99,
        s.row < 99 ==> s.put_byte(10).lines == s.lines,
{
}

/// Law: the scroll keys 4 and 5 of a string move the screen one line up or
/// down within the buffer, leaving the cursor and the buffer as they were.
pub proof fn scroll_keys_move_the_screen(s: WriterView, b: u8)
    requires
        s.wf(),
        b == 4 || b == 5,
    ensures
        s.put_byte(b).row == s.row,
        s.put_byte(b).col == s.col,
        s.put_byte(b).lines == s.lines,
        (b == 4 && s.origin > 0) ==> s.put_byte(b).origin == s.origin - 1,
        (b == 4 && s.origin == 0) ==> s.put_byte(b).origin == 0,
        (b == 5 && s.origin < 75) ==> s.put_byte(b).origin == s.origin + 1,
        (b == 5 && s.origin >= 75) ==> s.put_byte(b).origin == s.origin,
{
}

} // verus!
