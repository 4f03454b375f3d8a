//! The text terminal on the framebuffer: 8x16 character cells, line wrap and
//! scrolling, and the ANSI "select graphic rendition" escape sequences that
//! set the foreground and background colours (3/4-bit, 256-colour and
//! 24-bit forms).
use vstd::prelude::*;
use crate::time::{decimal_digits, digit_char};
use crate::vga::{Rgb, Vga, copy_rect_spec, draw_glyph_spec, fill_rect_spec, GLYPH_HEIGHT};

verus! {

/// Width of a character cell in pixels.
pub const CHAR_WIDTH: u64 = 8;

/// Height of a character cell in pixels.
pub const CHAR_HEIGHT: u64 = 16;

/// Longest parameter text of an escape sequence the terminal can hold.
pub const SEQUENCE_BUFFER_LEN: usize = 16;

/// Number of numeric parameters of an escape sequence the terminal reads.
pub const SEQUENCE_PARAMS: usize = 6;

/// Number of glyphs in a font: one per ASCII code.
pub const FONT_GLYPHS: usize = 128;

/// The escape character that starts a sequence.
pub const ESCAPE: char = '\x1b';

// ---------------------------------------------------------------------
// Character classes, as `char`'s methods define them.

/// `char::is_whitespace`: the Unicode White_Space characters.
pub open spec fn spec_is_whitespace(c: char) -> bool {
    let v = c as u32;
    ||| 0x9 <= v <= 0xD
    ||| v == 0x20
    ||| v == 0x85
    ||| v == 0xA0
    ||| v == 0x1680
    ||| 0x2000 <= v <= 0x200A
    ||| v == 0x2028
    ||| v == 0x2029
    ||| v == 0x202F
    ||| v == 0x205F
    ||| v == 0x3000
}

/// `char::is_ascii_whitespace`: space, tab, line feed, form feed, carriage
/// return.
pub open spec fn spec_is_ascii_whitespace(c: char) -> bool {
    let v = c as u32;
    v == 0x20 || v == 0x9 || v == 0xA || v == 0xC || v == 0xD
}

/// `char::is_ascii_control`.
pub open spec fn spec_is_ascii_control(c: char) -> bool {
    let v = c as u32;
    v <= 0x1F || v == 0x7F
}

/// `char::is_ascii_graphic`: `'!'` to `'~'`.
pub open spec fn spec_is_ascii_graphic(c: char) -> bool {
    let v = c as u32;
    0x21 <= v <= 0x7E
}

/// `char::is_ascii_digit`.
pub open spec fn spec_is_ascii_digit(c: char) -> bool {
    let v = c as u32;
    0x30 <= v <= 0x39
}

fn is_whitespace(c: char) -> (b: bool)
    ensures
        b == spec_is_whitespace(c),
{
    let v = c as u32;
    (0x9 <= v && v <= 0xD) || v == 0x20 || v == 0x85 || v == 0xA0 || v == 0x1680 || (0x2000 <= v && v
        <= 0x200A) || v == 0x2028 || v == 0x2029 || v == 0x202F || v == 0x205F || v == 0x3000
}

fn is_ascii_whitespace(c: char) -> (b: bool)
    ensures
        b == spec_is_ascii_whitespace(c),
{
    let v = c as u32;
    v == 0x20 || v == 0x9 || v == 0xA || v == 0xC || v == 0xD
}

fn is_ascii_control(c: char) -> (b: bool)
    ensures
        b == spec_is_ascii_control(c),
{
    let v = c as u32;
    v <= 0x1F || v == 0x7F
}

fn is_ascii_graphic(c: char) -> (b: bool)
    ensures
        b == spec_is_ascii_graphic(c),
{
    let v = c as u32;
    0x21 <= v && v <= 0x7E
}

fn is_ascii_digit(c: char) -> (b: bool)
    ensures
        b == spec_is_ascii_digit(c),
{
    let v = c as u32;
    0x30 <= v && v <= 0x39
}

// ---------------------------------------------------------------------
// Colours.

/// The colour value of the components `r`, `g`, `b`.
pub open spec fn rgb(r: int, g: int, b: int) -> u32 {
    (r * 0x1_0000 + g * 0x100 + b) as u32
}

/// The 3-bit palette: black, red, green, yellow, blue, magenta, cyan, white.
pub open spec fn palette(i: int) -> u32 {
    if i == 0 {
        rgb(1, 1, 1)
    } else if i == 1 {
        rgb(222, 56, 42)
    } else if i == 2 {
        rgb(57, 181, 74)
    } else if i == 3 {
        rgb(255, 199, 6)
    } else if i == 4 {
        rgb(0, 111, 184)
    } else if i == 5 {
        rgb(118, 38, 113)
    } else if i == 6 {
        rgb(44, 181, 233)
    } else {
        rgb(204, 204, 204)
    }
}

/// The bright 3-bit palette.
pub open spec fn bright_palette(i: int) -> u32 {
    if i == 0 {
        rgb(85, 85, 85)
    } else if i == 1 {
        rgb(255, 85, 85)
    } else if i == 2 {
        rgb(85, 255, 85)
    } else if i == 3 {
        rgb(255, 255, 85)
    } else if i == 4 {
        rgb(85, 85, 255)
    } else if i == 5 {
        rgb(255, 85, 255)
    } else if i == 6 {
        rgb(85, 255, 255)
    } else {
        rgb(255, 255, 255)
    }
}

/// Colour `code` (16 to 231) of the 6x6x6 cube of the 256-colour palette.
pub open spec fn cube_color(code: int) -> u32 {
    let idx = code - 16;
    rgb((idx / 36) * 51, ((idx % 36) / 6) * 51, (idx % 6) * 51)
}

/// Colour `code` (232 to 255) of the grey ramp of the 256-colour palette.
pub open spec fn gray_color(code: int) -> u32 {
    let gray = (code - 232) * 10 + 8;
    rgb(gray, gray, gray)
}

fn three_bit_color(i: u8) -> (c: Rgb)
    requires
        i < 8,
    ensures
        c.0 == palette(i as int),
{
    match i {
        0 => Rgb::new(1, 1, 1),
        1 => Rgb::new(222, 56, 42),
        2 => Rgb::new(57, 181, 74),
        3 => Rgb::new(255, 199, 6),
        4 => Rgb::new(0, 111, 184),
        5 => Rgb::new(118, 38, 113),
        6 => Rgb::new(44, 181, 233),
        _ => Rgb::new(204, 204, 204),
    }
}

fn three_bit_bright_color(i: u8) -> (c: Rgb)
    requires
        i < 8,
    ensures
        c.0 == bright_palette(i as int),
{
    match i {
        0 => Rgb::new(85, 85, 85),
        1 => Rgb::new(255, 85, 85),
        2 => Rgb::new(85, 255, 85),
        3 => Rgb::new(255, 255, 85),
        4 => Rgb::new(85, 85, 255),
        5 => Rgb::new(255, 85, 255),
        6 => Rgb::new(85, 255, 255),
        _ => Rgb::new(255, 255, 255),
    }
}

// ---------------------------------------------------------------------
// Escape sequence parameters.

/// The parameters read so far from the text of a sequence.
pub struct SgrParse {
    /// The numeric parameters.
    pub values: Seq<int>,
    /// The parameter being read.
    pub index: int,
    /// Whether a whitespace character ended the reading.
    pub stopped: bool,
    /// Whether the text fits: a digit lands in one of the parameters and
    /// every parameter stays below 256.
    pub ok: bool,
}

/// The parameters of the sequence text `b`: decimal numbers separated by
/// `;`, up to the first ASCII whitespace.
pub open spec fn sgr_parse(b: Seq<char>) -> SgrParse
    decreases b.len(),
{
    if b.len() == 0 {
        SgrParse { values: seq![0int, 0, 0, 0, 0, 0], index: 0, stopped: false, ok: true }
    } else {
        sgr_parse_step(sgr_parse(b.drop_last()), b.last())
    }
}

/// Reading one more character of the sequence text.
pub open spec fn sgr_parse_step(p: SgrParse, c: char) -> SgrParse {
    if p.stopped || !p.ok {
        p
    } else if spec_is_ascii_whitespace(c) {
        SgrParse { stopped: true, ..p }
    } else if spec_is_ascii_digit(c) {
        if p.index >= SEQUENCE_PARAMS {
            SgrParse { ok: false, ..p }
        } else {
            let v = p.values[p.index] * 10 + (c as u32 - 0x30);
            if v > 255 {
                SgrParse { ok: false, ..p }
            } else {
                SgrParse { values: p.values.update(p.index, v), ..p }
            }
        }
    } else if c == ';' {
        SgrParse { index: p.index + 1, ..p }
    } else {
        p
    }
}

/// Whether parameters `v` select a colour the palettes hold: the 256-colour
/// forms do not take codes 0 to 15.
pub open spec fn sgr_apply_ok(v: Seq<int>) -> bool {
    !((v[0] == 38 || v[0] == 48) && v[1] == 5 && v[2] <= 15)
}

/// The foreground and background colours after parameters `v`.
pub open spec fn sgr_apply(fg: u32, bg: u32, v: Seq<int>) -> (u32, u32) {
    let code = v[0];
    if 30 <= code <= 37 {
        (palette(code - 30), bg)
    } else if 40 <= code <= 47 {
        (fg, palette(code - 40))
    } else if 90 <= code <= 97 {
        (bright_palette(code - 90), bg)
    } else if 100 <= code <= 107 {
        (fg, bright_palette(code - 100))
    } else if code == 38 && v[1] == 5 {
        if v[2] <= 231 {
            (cube_color(v[2]), bg)
        } else {
            (gray_color(v[2]), bg)
        }
    } else if code == 48 && v[1] == 5 {
        if v[2] <= 231 {
            (fg, cube_color(v[2]))
        } else {
            (fg, gray_color(v[2]))
        }
    } else if code == 38 && v[1] == 2 {
        (rgb(v[2], v[3], v[4]), bg)
    } else if code == 48 && v[1] == 2 {
        (fg, rgb(v[2], v[3], v[4]))
    } else {
        (fg, bg)
    }
}

/// Whether every character of `b` is a space.
pub open spec fn all_spaces(b: Seq<char>) -> bool {
    forall|i: int| 0 <= i < b.len() ==> b[i] == ' '
}

// ---------------------------------------------------------------------
// The terminal as a state machine.

/// The state of a terminal: cursor, widest line drawn, colours and pixels.
pub struct TermView {
    pub x: int,
    pub y: int,
    pub max_width: int,
    pub fg: u32,
    pub bg: u32,
    pub pixels: Seq<Seq<u32>>,
}

/// The state of the escape sequence reader.
pub struct AnsiView {
    pub in_escape: bool,
    pub in_control: bool,
    pub buffer: Seq<char>,
}

/// Moving to the next line; at the bottom the screen scrolls up by one line
/// (the `max_width` leftmost columns) and the new line is cleared over
/// `fill_width` columns.
pub open spec fn line_feed(t: TermView, height: int, fill_width: int) -> TermView {
    if t.y + 2 * CHAR_HEIGHT >= height {
        TermView {
            x: 0,
            pixels: fill_rect_spec(
                copy_rect_spec(t.pixels, (0, CHAR_HEIGHT as int), (0, 0), t.max_width, height - CHAR_HEIGHT),
                0,
                t.y,
                fill_width,
                CHAR_HEIGHT as int,
                t.bg,
            ),
            ..t
        }
    } else {
        TermView { x: 0, y: t.y + CHAR_HEIGHT, ..t }
    }
}

/// Printing character `c` (outside an escape sequence).
pub open spec fn char_step(t: TermView, c: char, width: int, height: int, font: Seq<Seq<u8>>) -> TermView {
    if spec_is_ascii_control(c) && !spec_is_whitespace(c) && c != '\n' {
        t
    } else if c == '\n' {
        line_feed(t, height, t.max_width)
    } else {
        let pixels = if spec_is_ascii_graphic(c) {
            draw_glyph_spec(t.pixels, t.x, t.y, 1, font[c as int], t.fg, t.bg)
        } else if !spec_is_whitespace(c) {
            draw_glyph_spec(t.pixels, t.x, t.y, 1, font['.' as int], t.fg, t.bg)
        } else {
            t.pixels
        };
        let x = t.x + CHAR_WIDTH;
        let max_width = if x > t.max_width {
            x
        } else {
            t.max_width
        };
        let t2 = TermView { x, max_width, pixels, ..t };
        if x + CHAR_WIDTH > width {
            line_feed(t2, height, width)
        } else {
            t2
        }
    }
}

/// Feeding character `c` to the terminal.
pub open spec fn ansi_step(t: TermView, a: AnsiView, c: char, width: int, height: int, font: Seq<Seq<u8>>) -> (TermView, AnsiView) {
    if c == ESCAPE {
        (t, AnsiView { in_escape: true, ..a })
    } else if a.in_escape && c == '[' {
        (t, AnsiView { in_control: true, ..a })
    } else if a.in_escape && a.in_control && c != 'm' {
        (t, AnsiView { buffer: a.buffer.push(c), ..a })
    } else if a.in_escape && a.in_control {
        if all_spaces(a.buffer) {
            (t, AnsiView { in_escape: false, in_control: false, buffer: a.buffer })
        } else {
            let colors = sgr_apply(t.fg, t.bg, sgr_parse(a.buffer).values);
            (
                TermView { fg: colors.0, bg: colors.1, ..t },
                AnsiView { in_escape: false, in_control: false, buffer: Seq::empty() },
            )
        }
    } else {
        (char_step(t, c, width, height, font), a)
    }
}

/// Whether feeding `c` stays within what the terminal can hold: the
/// sequence text fits its buffer, its parameters fit, and the colour it
/// selects exists.
pub open spec fn ansi_step_ok(a: AnsiView, c: char) -> bool {
    if c == ESCAPE {
        true
    } else if a.in_escape && c == '[' {
        true
    } else if a.in_escape && a.in_control && c != 'm' {
        a.buffer.len() < SEQUENCE_BUFFER_LEN
    } else if a.in_escape && a.in_control {
        all_spaces(a.buffer) || (sgr_parse(a.buffer).ok && sgr_apply_ok(sgr_parse(a.buffer).values))
    } else {
        true
    }
}

/// Feeding the characters of `s` in turn.
pub open spec fn run(t: TermView, a: AnsiView, s: Seq<char>, width: int, height: int, font: Seq<Seq<u8>>) -> (TermView, AnsiView)
    decreases s.len(),
{
    if s.len() == 0 {
        (t, a)
    } else {
        let prev = run(t, a, s.drop_last(), width, height, font);
        ansi_step(prev.0, prev.1, s.last(), width, height, font)
    }
}

/// Whether every character of `s` can be fed in turn.
pub open spec fn run_ok(t: TermView, a: AnsiView, s: Seq<char>, width: int, height: int, font: Seq<Seq<u8>>) -> bool
    decreases s.len(),
{
    if s.len() == 0 {
        true
    } else {
        run_ok(t, a, s.drop_last(), width, height, font) && ansi_step_ok(
            run(t, a, s.drop_last(), width, height, font).1,
            s.last(),
        )
    }
}

/// The escape sequence reader's state at the start of a string.
pub open spec fn fresh_ansi() -> AnsiView {
    AnsiView { in_escape: false, in_control: false, buffer: Seq::empty() }
}

// ---------------------------------------------------------------------
// Fonts.

/// A bitmap font: for each ASCII code, 16 rows of 8 pixels, the most
/// significant bit leftmost.
pub struct Font {
    glyphs: Vec<Vec<u8>>,
}

impl Font {
    pub closed spec fn wf(&self) -> bool {
        &&& self.glyphs@.len() == FONT_GLYPHS
        &&& forall|i: int| 0 <= i < FONT_GLYPHS ==> (#[trigger] self.glyphs@[i])@.len() == GLYPH_HEIGHT
    }

    /// The glyphs.
    pub closed spec fn spec_glyphs(&self) -> Seq<Seq<u8>> {
        Seq::new(self.glyphs@.len(), |i: int| self.glyphs@[i]@)
    }

    /// The font with the given glyphs, when there are 128 of 16 rows each.
    pub fn new(glyphs: Vec<Vec<u8>>) -> (f: Option<Font>)
        ensures
            (glyphs@.len() == FONT_GLYPHS && forall|i: int| 0 <= i < FONT_GLYPHS ==> (#[trigger] glyphs@[i])@.len() == GLYPH_HEIGHT)
                <==> f is Some,
            f matches Some(font) ==> font.wf() && font.spec_glyphs() == Seq::new(
                glyphs@.len(),
                |i: int| glyphs@[i]@,
            ),
    {
        if glyphs.len() != FONT_GLYPHS {
            return None;
        }
        let mut i: usize = 0;
        while i < glyphs.len()
            invariant
                glyphs@.len() == FONT_GLYPHS,
                i <= glyphs@.len(),
                forall|j: int| 0 <= j < i ==> (#[trigger] glyphs@[j])@.len() == GLYPH_HEIGHT,
            decreases glyphs.len() - i,
        {
            if glyphs[i].len() != 16 {
                return None;
            }
            i = i + 1;
        }
        Some(Font { glyphs })
    }

    /// The glyph of ASCII code `code`.
    pub fn glyph(&self, code: u32) -> (g: &[u8])
        requires
            self.wf(),
            code < 128,
        ensures
            g@ == self.spec_glyphs()[code as int],
            g@.len() == GLYPH_HEIGHT,
    {
        self.glyphs[code as usize].as_slice()
    }
}

// ---------------------------------------------------------------------
// The terminal.

/// The escape sequence reader's state while a string is printed.
pub struct AnsiState {
    in_ansi_sequence: bool,
    in_control_sequence: bool,
    buffer: Vec<char>,
}

impl View for AnsiState {
    type V = AnsiView;

    closed spec fn view(&self) -> AnsiView {
        AnsiView { in_escape: self.in_ansi_sequence, in_control: self.in_control_sequence, buffer: self.buffer@ }
    }
}

impl AnsiState {
    /// The state at the start of a string.
    pub fn new() -> (s: Self)
        ensures
            s@ == fresh_ansi(),
    {
        AnsiState { in_ansi_sequence: false, in_control_sequence: false, buffer: Vec::new() }
    }
}

/// A text terminal drawing on a framebuffer.
pub struct Terminal {
    vga: Vga,
    font: Font,
    current_max_width: u64,
    x: u64,
    y: u64,
    foreground_color: Rgb,
    background_color: Rgb,
}

impl View for Terminal {
    type V = TermView;

    closed spec fn view(&self) -> TermView {
        TermView {
            x: self.x as int,
            y: self.y as int,
            max_width: self.current_max_width as int,
            fg: self.foreground_color.0,
            bg: self.background_color.0,
            pixels: self.vga@,
        }
    }
}

/// The foreground colour of a new terminal.
pub open spec fn default_foreground() -> u32 {
    rgb(190, 190, 190)
}

proof fn lemma_digit_step(v: u8, d: u32)
    requires
        d <= 9,
    ensures
        v * 10 + d > 255 || (v * 10 <= 255 && v * 10 + d <= 255),
{
}

impl Terminal {
    /// The cursor stays in a cell inside the framebuffer, one line above the
    /// bottom at most.
    pub closed spec fn wf(&self) -> bool {
        &&& self.vga.wf()
        &&& self.font.wf()
        &&& CHAR_WIDTH <= self.vga.spec_width()
        &&& self.y + CHAR_HEIGHT < self.vga.spec_height()
        &&& self.x + CHAR_WIDTH <= self.vga.spec_width()
        &&& self.current_max_width <= self.vga.spec_width()
    }

    /// Width of the framebuffer.
    pub closed spec fn spec_width(&self) -> int {
        self.vga.spec_width() as int
    }

    /// Height of the framebuffer.
    pub closed spec fn spec_height(&self) -> int {
        self.vga.spec_height() as int
    }

    /// The glyphs of the font.
    pub closed spec fn spec_font(&self) -> Seq<Seq<u8>> {
        self.font.spec_glyphs()
    }

    /// A terminal at the top left of `vga`, grey on black, drawing with
    /// `font`; nothing is drawn. It can print once the framebuffer holds a
    /// character cell and more than one line.
    pub fn new(vga: Vga, font: Font) -> (t: Self)
        requires
            vga.wf(),
            font.wf(),
        ensures
            t.wf() <==> (vga.spec_width() >= CHAR_WIDTH && vga.spec_height() > CHAR_HEIGHT),
            t@.x == 0,
            t@.y == 0,
            t@.max_width == 0,
            t@.fg == default_foreground(),
            t@.bg == rgb(0, 0, 0),
            t@.pixels == vga@,
            t.spec_width() == vga.spec_width(),
            t.spec_height() == vga.spec_height(),
            t.spec_font() == font.spec_glyphs(),
    {
        Terminal {
            vga,
            font,
            current_max_width: 0,
            x: 0,
            y: 0,
            foreground_color: Rgb::new(190, 190, 190),
            background_color: Rgb::new(0, 0, 0),
        }
    }

    /// The framebuffer.
    pub fn vga(&self) -> (v: &Vga)
        ensures
            v@ == self@.pixels,
            v.spec_width() == self.spec_width(),
            v.spec_height() == self.spec_height(),
    {
        &self.vga
    }

    /// Moves to the next line, scrolling at the bottom.
    fn line_feed(&mut self, fill_width: u64)
        requires
            old(self).vga.wf(),
            old(self).font.wf(),
            CHAR_WIDTH <= old(self).vga.spec_width(),
            old(self).y + CHAR_HEIGHT < old(self).vga.spec_height(),
            old(self).current_max_width <= old(self).vga.spec_width(),
            fill_width <= old(self).vga.spec_width(),
        ensures
            final(self).wf(),
            final(self)@ == line_feed(old(self)@, old(self).spec_height(), fill_width as int),
            final(self).vga.spec_width() == old(self).vga.spec_width(),
            final(self).vga.spec_height() == old(self).vga.spec_height(),
            final(self).font == old(self).font,
    {
        proof {
            self.vga.lemma_dimensions();
        }
        self.x = 0;
        self.y = self.y + CHAR_HEIGHT;
        if self.y >= self.vga.height() - CHAR_HEIGHT {
            self.x = 0;
            self.y = self.y - CHAR_HEIGHT;
            let h = self.vga.height();
            self.vga.copy((0, CHAR_HEIGHT), (0, 0), self.current_max_width, h - CHAR_HEIGHT);
            let bg = self.background_color;
            self.vga.fill_rectangle(self.x, self.y, fill_width, CHAR_HEIGHT, bg);
        }
    }

    /// Prints character `c`, which is not part of an escape sequence.
    fn print_char(&mut self, c: char)
        requires
            old(self).wf(),
        ensures
            final(self).wf(),
            final(self)@ == char_step(old(self)@, c, old(self).spec_width(), old(self).spec_height(), old(self).spec_font()),
            final(self).spec_width() == old(self).spec_width(),
            final(self).spec_height() == old(self).spec_height(),
            final(self).spec_font() == old(self).spec_font(),
    {
        if is_ascii_control(c) && !is_whitespace(c) && c != '\n' {
            return;
        }
        if c == '\n' {
            let w = self.current_max_width;
            self.line_feed(w);
            return;
        }
        let fg = self.foreground_color;
        let bg = self.background_color;
        if is_ascii_graphic(c) {
            self.vga.draw_character(self.x, self.y, 1, c, &self.font, fg, bg);
        } else if !is_whitespace(c) {
            self.vga.draw_character(self.x, self.y, 1, '.', &self.font, fg, bg);
        }
        proof {
            self.vga.lemma_dimensions();
        }
        self.x = self.x + CHAR_WIDTH;
        if self.x > self.current_max_width {
            self.current_max_width = self.x;
        }
        if self.x > self.vga.width() - CHAR_WIDTH {
            let w = self.vga.width();
            self.line_feed(w);
        }
    }

    /// Applies the colour parameters `values` of a sequence.
    fn apply_sgr(&mut self, values: &Vec<u8>)
        requires
            old(self).wf(),
            values@.len() == SEQUENCE_PARAMS,
            sgr_apply_ok(values@.map_values(|v: u8| v as int)),
        ensures
            final(self).wf(),
            final(self)@ == (TermView {
                fg: sgr_apply(old(self)@.fg, old(self)@.bg, values@.map_values(|v: u8| v as int)).0,
                bg: sgr_apply(old(self)@.fg, old(self)@.bg, values@.map_values(|v: u8| v as int)).1,
                ..old(self)@
            }),
            final(self).spec_width() == old(self).spec_width(),
            final(self).spec_height() == old(self).spec_height(),
            final(self).spec_font() == old(self).spec_font(),
    {
        let ghost v = values@.map_values(|v: u8| v as int);
        assert(v[0] == values@[0] && v[1] == values@[1] && v[2] == values@[2] && v[3] == values@[3] && v[4] == values@[4]);
        let code = values[0];
        if 30 <= code && code <= 37 {
            self.foreground_color = three_bit_color(code - 30);
        } else if 40 <= code && code <= 47 {
            self.background_color = three_bit_color(code - 40);
        } else if 90 <= code && code <= 97 {
            self.foreground_color = three_bit_bright_color(code - 90);
        } else if 100 <= code && code <= 107 {
            self.background_color = three_bit_bright_color(code - 100);
        } else if (code == 38 || code == 48) && values[1] == 5 {
            let c = values[2];
            let color = if c <= 231 {
                let idx = c - 16;
                Rgb::new((idx / 36) * 51, ((idx % 36) / 6) * 51, (idx % 6) * 51)
            } else {
                let gray = (c - 232) * 10 + 8;
                Rgb::new(gray, gray, gray)
            };
            if code == 38 {
                self.foreground_color = color;
            } else {
                self.background_color = color;
            }
        } else if code == 38 && values[1] == 2 {
            self.foreground_color = Rgb::new(values[2], values[3], values[4]);
        } else if code == 48 && values[1] == 2 {
            self.background_color = Rgb::new(values[2], values[3], values[4]);
        }
    }

    /// Feeds character `c` to the terminal, with `state` the escape sequence
    /// reader's state.
    pub fn feed_char(&mut self, state: &mut AnsiState, c: char)
        requires
            old(self).wf(),
            ansi_step_ok(old(state)@, c),
        ensures
            final(self).wf(),
            (final(self)@, final(state)@) == ansi_step(
                old(self)@,
                old(state)@,
                c,
                old(self).spec_width(),
                old(self).spec_height(),
                old(self).spec_font(),
            ),
            final(self).spec_width() == old(self).spec_width(),
            final(self).spec_height() == old(self).spec_height(),
            final(self).spec_font() == old(self).spec_font(),
    {
        if c == ESCAPE {
            state.in_ansi_sequence = true;
            return;
        }
        if state.in_ansi_sequence {
            if c == '[' {
                state.in_control_sequence = true;
                return;
            }
            if state.in_control_sequence {
                if c != 'm' {
                    state.buffer.push(c);
                    return;
                }
                state.in_ansi_sequence = false;
                state.in_control_sequence = false;
                let mut blank = true;
                let mut i: usize = 0;
                while i < state.buffer.len()
                    invariant
                        i <= state.buffer@.len(),
                        blank == forall|j: int| 0 <= j < i ==> state.buffer@[j] == ' ',
                    decreases state.buffer.len() - i,
                {
                    if state.buffer[i] != ' ' {
                        blank = false;
                    }
                    i = i + 1;
                }
                if blank {
                    return;
                }
                let values = parse_sgr_params(&state.buffer);
                self.apply_sgr(&values);
                state.buffer = Vec::new();
                return;
            }
        }
        self.print_char(c);
    }

    /// Whether `string` can be printed: every escape sequence's text fits the
    /// sequence buffer, its parameters fit, and the colour it selects exists.
    pub fn can_print(&self, string: &str) -> (r: bool)
        ensures
            r == run_ok(self@, fresh_ansi(), string@, self.spec_width(), self.spec_height(), self.spec_font()),
    {
        let ghost w = self.spec_width();
        let ghost h = self.spec_height();
        let ghost f = self.spec_font();
        let mut state = AnsiState::new();
        let n = string.unicode_len();
        let mut i: usize = 0;
        proof {
            assert(string@.take(0) =~= Seq::<char>::empty());
        }
        while i < n
            invariant
                n == string@.len(),
                i <= n,
                w == self.spec_width(),
                h == self.spec_height(),
                f == self.spec_font(),
                state@ == run(self@, fresh_ansi(), string@.take(i as int), w, h, f).1,
                run_ok(self@, fresh_ansi(), string@.take(i as int), w, h, f),
            decreases n - i,
        {
            let c = string.get_char(i);
            proof {
                assert(string@.take(i as int + 1).drop_last() =~= string@.take(i as int));
                assert(string@.take(i as int + 1).last() == c);
            }
            let ghost before = state@;
            let mut step_ok = true;
            if c == ESCAPE {
                state.in_ansi_sequence = true;
            } else if state.in_ansi_sequence && c == '[' {
                state.in_control_sequence = true;
            } else if state.in_ansi_sequence && state.in_control_sequence && c != 'm' {
                if state.buffer.len() < SEQUENCE_BUFFER_LEN {
                    state.buffer.push(c);
                } else {
                    step_ok = false;
                }
            } else if state.in_ansi_sequence && state.in_control_sequence {
                let mut blank = true;
                let mut k: usize = 0;
                while k < state.buffer.len()
                    invariant
                        k <= state.buffer@.len(),
                        blank == forall|j: int| 0 <= j < k ==> state.buffer@[j] == ' ',
                    decreases state.buffer.len() - k,
                {
                    if state.buffer[k] != ' ' {
                        blank = false;
                    }
                    k = k + 1;
                }
                state.in_ansi_sequence = false;
                state.in_control_sequence = false;
                if !blank {
                    if !sgr_check(&state.buffer) {
                        step_ok = false;
                    }
                    state.buffer = Vec::new();
                }
            }
            proof {
                assert(step_ok == ansi_step_ok(before, c));
            }
            if !step_ok {
                proof {
                    assert(string@[i as int] == c);
                    if run_ok(self@, fresh_ansi(), string@, w, h, f) {
                        lemma_run_ok_prefix(self@, fresh_ansi(), string@, i as int + 1, w, h, f);
                        assert(false);
                    }
                }
                return false;
            }
            proof {
                assert(state@ =~~= run(self@, fresh_ansi(), string@.take(i as int + 1), w, h, f).1);
            }
            i = i + 1;
        }
        proof {
            assert(string@.take(n as int) =~= string@);
        }
        true
    }

    /// Prints `string`, interpreting colour escape sequences.
    pub fn print_str(&mut self, string: &str)
        requires
            old(self).wf(),
            run_ok(
                old(self)@,
                fresh_ansi(),
                string@,
                old(self).spec_width(),
                old(self).spec_height(),
                old(self).spec_font(),
            ),
        ensures
            final(self).wf(),
            final(self)@ == run(
                old(self)@,
                fresh_ansi(),
                string@,
                old(self).spec_width(),
                old(self).spec_height(),
                old(self).spec_font(),
            ).0,
            final(self).spec_width() == old(self).spec_width(),
            final(self).spec_height() == old(self).spec_height(),
            final(self).spec_font() == old(self).spec_font(),
            old(self).spec_width() >= 2 * CHAR_WIDTH && old(self).spec_height() > 2 * CHAR_HEIGHT && cursor_ok(
                old(self)@,
                old(self).spec_width(),
                old(self).spec_height(),
            ) ==> cursor_ok(final(self)@, old(self).spec_width(), old(self).spec_height())
                && final(self)@.max_width >= old(self)@.max_width,
    {
        let mut state = AnsiState::new();
        let n = string.unicode_len();
        let mut i: usize = 0;
        while i < n
            invariant
                self.wf(),
                n == string@.len(),
                i <= n,
                self.spec_width() == old(self).spec_width(),
                self.spec_height() == old(self).spec_height(),
                self.spec_font() == old(self).spec_font(),
                run_ok(old(self)@, fresh_ansi(), string@, old(self).spec_width(), old(self).spec_height(), old(self).spec_font()),
                (self@, state@) == run(
                    old(self)@,
                    fresh_ansi(),
                    string@.take(i as int),
                    old(self).spec_width(),
                    old(self).spec_height(),
                    old(self).spec_font(),
                ),
            decreases n - i,
        {
            let c = string.get_char(i);
            proof {
                lemma_run_ok_prefix(old(self)@, fresh_ansi(), string@, i as int + 1, old(self).spec_width(), old(self).spec_height(), old(self).spec_font());
                assert(string@.take(i as int + 1).drop_last() =~= string@.take(i as int));
                assert(string@.take(i as int + 1).last() == c);
            }
            self.feed_char(&mut state, c);
            i = i + 1;
        }
        proof {
            assert(string@.take(n as int) =~= string@);
            if old(self).spec_width() >= 2 * CHAR_WIDTH && old(self).spec_height() > 2 * CHAR_HEIGHT && cursor_ok(
                old(self)@,
                old(self).spec_width(),
                old(self).spec_height(),
            ) {
                lemma_print_keeps_cursor(
                    old(self)@,
                    fresh_ansi(),
                    string@,
                    old(self).spec_width(),
                    old(self).spec_height(),
                    old(self).spec_font(),
                );
            }
        }
    }
}

proof fn lemma_run_ok_prefix(t: TermView, a: AnsiView, s: Seq<char>, k: int, width: int, height: int, font: Seq<Seq<u8>>)
    requires
        0 < k <= s.len(),
        run_ok(t, a, s, width, height, font),
    ensures
        ansi_step_ok(run(t, a, s.take(k - 1), width, height, font).1, s[k - 1]),
    decreases s.len(),
{
    if k == s.len() {
        assert(s.drop_last() =~= s.take(k - 1));
    } else {
        assert(s.drop_last().take(k - 1) =~= s.take(k - 1));
        lemma_run_ok_prefix(t, a, s.drop_last(), k, width, height, font);
    }
}

/// Whether the sequence text `buffer` can be applied: its parameters fit
/// and the colour it selects exists.
fn sgr_check(buffer: &Vec<char>) -> (r: bool)
    ensures
        r == (sgr_parse(buffer@).ok && sgr_apply_ok(sgr_parse(buffer@).values)),
{
    let mut values: Vec<u32> = vec![0, 0, 0, 0, 0, 0];
    let mut index: usize = 0;
    let mut stopped = false;
    let mut ok = true;
    let mut i: usize = 0;
    proof {
        assert(buffer@.take(0) =~= Seq::<char>::empty());
        assert(values@.map_values(|v: u32| v as int) =~= seq![0int, 0, 0, 0, 0, 0]);
    }
    while i < buffer.len()
        invariant
            i <= buffer@.len(),
            values@.len() == SEQUENCE_PARAMS,
            index <= i,
            forall|k: int| 0 <= k < SEQUENCE_PARAMS ==> #[trigger] values@[k] <= 255,
            ({
                let p = sgr_parse(buffer@.take(i as int));
                &&& p.values == values@.map_values(|v: u32| v as int)
                &&& p.index == index
                &&& p.stopped == stopped
                &&& p.ok == ok
            }),
        decreases buffer.len() - i,
    {
        let c = buffer[i];
        proof {
            assert(buffer@.take(i as int + 1).drop_last() =~= buffer@.take(i as int));
            assert(buffer@.take(i as int + 1).last() == c);
        }
        if !stopped && ok {
            if is_ascii_whitespace(c) {
                stopped = true;
            } else if is_ascii_digit(c) {
                if index >= SEQUENCE_PARAMS {
                    ok = false;
                } else {
                    let v = values[index] * 10 + (c as u32 - 0x30);
                    if v > 255 {
                        ok = false;
                    } else {
                        values.set(index, v);
                        proof {
                            assert(values@.map_values(|w: u32| w as int) =~= sgr_parse(
                                buffer@.take(i as int),
                            ).values.update(index as int, v as int));
                        }
                    }
                }
            } else if c == ';' {
                index = index + 1;
            }
        }
        i = i + 1;
    }
    proof {
        assert(buffer@.take(i as int) =~= buffer@);
    }
    if !ok {
        return false;
    }
    !((values[0] == 38 || values[0] == 48) && values[1] == 5 && values[2] <= 15)
}

/// The numeric parameters of the sequence text `buffer`.
fn parse_sgr_params(buffer: &Vec<char>) -> (values: Vec<u8>)
    requires
        sgr_parse(buffer@).ok,
    ensures
        values@.len() == SEQUENCE_PARAMS,
        values@.map_values(|v: u8| v as int) == sgr_parse(buffer@).values,
{
    let mut values: Vec<u8> = vec![0, 0, 0, 0, 0, 0];
    let mut index: usize = 0;
    let mut i: usize = 0;
    proof {
        assert(buffer@.take(0) =~= Seq::<char>::empty());
        assert(values@.map_values(|v: u8| v as int) =~= seq![0int, 0, 0, 0, 0, 0]);
    }
    while i < buffer.len()
        invariant
            i <= buffer@.len(),
            values@.len() == SEQUENCE_PARAMS,
            sgr_parse(buffer@).ok,
            ({
                let p = sgr_parse(buffer@.take(i as int));
                &&& p.ok
                &&& !p.stopped
                &&& p.index == index
                &&& p.values == values@.map_values(|v: u8| v as int)
            }),
            index <= i,
        ensures
            i <= buffer@.len(),
            ({
                let p = sgr_parse(buffer@.take(i as int));
                &&& p.ok
                &&& p.values == values@.map_values(|v: u8| v as int)
                &&& (i < buffer@.len() ==> spec_is_ascii_whitespace(buffer@[i as int]) && !p.stopped)
            }),
        decreases buffer.len() - i,
    {
        let c = buffer[i];
        proof {
            assert(buffer@.take(i as int + 1).drop_last() =~= buffer@.take(i as int));
            assert(buffer@.take(i as int + 1).last() == c);
            lemma_parse_prefix_ok(buffer@, i as int + 1);
        }
        if is_ascii_whitespace(c) {
            break;
        }
        if is_ascii_digit(c) {
            let d = (c as u32 - 0x30) as u8;
            let old_v = values[index];
            proof {
                lemma_digit_step(old_v, d as u32);
            }
            values.set(index, old_v * 10 + d);
            proof {
                assert(values@.map_values(|v: u8| v as int) =~= sgr_parse(buffer@.take(i as int)).values.update(
                    index as int,
                    old_v * 10 + d,
                ));
            }
        }
        if c == ';' {
            index = index + 1;
        }
        i = i + 1;
    }
    proof {
        if i < buffer.len() {
            assert(buffer@.take(i as int + 1).drop_last() =~= buffer@.take(i as int));
            lemma_parse_stopped(buffer@, i as int + 1);
        } else {
            lemma_parse_stopped(buffer@, i as int);
        }
    }
    values
}

proof fn lemma_parse_prefix_ok(b: Seq<char>, k: int)
    requires
        0 <= k <= b.len(),
        sgr_parse(b).ok,
    ensures
        sgr_parse(b.take(k)).ok,
    decreases b.len(),
{
    if k < b.len() {
        assert(b.drop_last().take(k) =~= b.take(k));
        lemma_parse_failure_sticks(b);
        lemma_parse_prefix_ok(b.drop_last(), k);
    } else {
        assert(b.take(k) =~= b);
    }
}

proof fn lemma_parse_failure_sticks(b: Seq<char>)
    requires
        b.len() > 0,
        sgr_parse(b).ok,
    ensures
        sgr_parse(b.drop_last()).ok,
{
}

proof fn lemma_parse_stopped(b: Seq<char>, k: int)
    requires
        0 <= k <= b.len(),
        sgr_parse(b.take(k)).ok,
        k < b.len() ==> sgr_parse(b.take(k)).stopped,
    ensures
        sgr_parse(b) == sgr_parse(b.take(k)),
    decreases b.len() - k,
{
    if k == b.len() {
        assert(b.take(k) =~= b);
    } else {
        lemma_parse_stopped_extend(b, k, b.len() as int);
        assert(b.take(b.len() as int) =~= b);
    }
}

proof fn lemma_parse_stopped_extend(b: Seq<char>, k: int, m: int)
    requires
        0 <= k <= m <= b.len(),
        sgr_parse(b.take(k)).stopped,
        sgr_parse(b.take(k)).ok,
    ensures
        sgr_parse(b.take(m)) == sgr_parse(b.take(k)),
    decreases m - k,
{
    if m > k {
        lemma_parse_stopped_extend(b, k, m - 1);
        assert(b.take(m).drop_last() =~= b.take(m - 1));
    }
    if m == b.len() {
        assert(b.take(m) =~= b);
    }
}


/// The cursor stands on a character cell that lies on the screen, and no
/// line drawn so far is wider than the screen.
pub open spec fn cursor_ok(t: TermView, width: int, height: int) -> bool {
    &&& t.x % (CHAR_WIDTH as int) == 0
    &&& t.y % (CHAR_HEIGHT as int) == 0
    &&& 0 <= t.x
    &&& t.x + CHAR_WIDTH <= width
    &&& 0 <= t.y
    &&& t.y + CHAR_HEIGHT < height
    &&& t.max_width <= width
}

proof fn lemma_line_feed_keeps_cursor(t: TermView, width: int, height: int, fill_width: int)
    requires
        width >= 2 * CHAR_WIDTH,
        height > 2 * CHAR_HEIGHT,
        t.x % (CHAR_WIDTH as int) == 0,
        t.y % (CHAR_HEIGHT as int) == 0,
        0 <= t.x,
        0 <= t.y,
        t.y + CHAR_HEIGHT < height,
        t.max_width <= width,
    ensures
        cursor_ok(line_feed(t, height, fill_width), width, height),
        line_feed(t, height, fill_width).max_width == t.max_width,
{
}

proof fn lemma_ansi_step_keeps_cursor(
    t: TermView,
    a: AnsiView,
    c: char,
    width: int,
    height: int,
    font: Seq<Seq<u8>>,
)
    requires
        width >= 2 * CHAR_WIDTH,
        height > 2 * CHAR_HEIGHT,
        cursor_ok(t, width, height),
    ensures
        cursor_ok(ansi_step(t, a, c, width, height, font).0, width, height),
        ansi_step(t, a, c, width, height, font).0.max_width >= t.max_width,
{
    lemma_line_feed_keeps_cursor(t, width, height, t.max_width);
    let x = t.x + CHAR_WIDTH;
    let max_width = if x > t.max_width {
        x
    } else {
        t.max_width
    };
    let pixels = if spec_is_ascii_graphic(c) {
        draw_glyph_spec(t.pixels, t.x, t.y, 1, font[c as int], t.fg, t.bg)
    } else if !spec_is_whitespace(c) {
        draw_glyph_spec(t.pixels, t.x, t.y, 1, font['.' as int], t.fg, t.bg)
    } else {
        t.pixels
    };
    let t2 = TermView { x, max_width, pixels, ..t };
    lemma_line_feed_keeps_cursor(t2, width, height, width);
}

/// Printing keeps the cursor on a character cell of the screen and no
/// line wider than the screen, and the widest line drawn never narrows:
/// on a screen at least two cells wide and more than two cells high, what
/// holds of the terminal before printing a string holds after it.
pub proof fn lemma_print_keeps_cursor(
    t: TermView,
    a: AnsiView,
    s: Seq<char>,
    width: int,
    height: int,
    font: Seq<Seq<u8>>,
)
    requires
        width >= 2 * CHAR_WIDTH,
        height > 2 * CHAR_HEIGHT,
        cursor_ok(t, width, height),
    ensures
        cursor_ok(run(t, a, s, width, height, font).0, width, height),
        run(t, a, s, width, height, font).0.max_width >= t.max_width,
    decreases s.len(),
{
    if s.len() > 0 {
        lemma_print_keeps_cursor(t, a, s.drop_last(), width, height, font);
        let prev = run(t, a, s.drop_last(), width, height, font);
        lemma_ansi_step_keeps_cursor(prev.0, prev.1, s.last(), width, height, font);
    }
}


/// The ten decimal digits are exactly the characters `'0'` to `'9'`: each
/// digit's character counts as a digit, and a character that counts is the
/// character of one of them.
pub proof fn lemma_digits_are_decimal(c: char)
    ensures
        forall|d: int| 0 <= d <= 9 ==> #[trigger] spec_is_ascii_digit(digit_char(d)),
        spec_is_ascii_digit(c) ==> 0 <= c as u32 - 0x30 <= 9 && c == digit_char(c as u32 - 0x30),
{
    assert forall|d: int| 0 <= d <= 9 implies #[trigger] spec_is_ascii_digit(digit_char(d)) by {
        assert((digit_char(d) as u32) == 48 + d);
    }
}

/// An escape sequence's parameter written in decimal is read as its value:
/// the text of any number up to 255 parses to that number as the first
/// parameter, with the others zero.
pub proof fn lemma_sgr_reads_decimal(n: nat)
    requires
        n <= 255,
    ensures
        sgr_parse(decimal_digits(n)) == (SgrParse {
            values: seq![n as int, 0, 0, 0, 0, 0],
            index: 0,
            stopped: false,
            ok: true,
        }),
    decreases n,
{
    let d = (n % 10) as int;
    let c = digit_char(d);
    assert((c as u32) == 48 + d);
    let b = decimal_digits(n);
    let prev = if n < 10 { Seq::<char>::empty() } else { decimal_digits(n / 10) };
    let pv = if n < 10 { 0int } else { (n / 10) as int };
    if n < 10 {
        assert(b == seq![c]);
        assert(b.drop_last() =~= prev);
    } else {
        lemma_sgr_reads_decimal(n / 10);
        assert(b.drop_last() =~= prev);
    }
    assert(b.last() == c);
    let p0 = sgr_parse(prev);
    assert(p0.values =~= seq![pv, 0, 0, 0, 0, 0]);
    assert(!p0.stopped && p0.ok && p0.index == 0);
    assert(!spec_is_ascii_whitespace(c));
    assert(spec_is_ascii_digit(c));
    assert(pv * 10 + (c as u32 - 0x30) == n);
    let p = sgr_parse(b);
    assert(p == sgr_parse_step(p0, c));
    assert(p.values =~= seq![n as int, 0, 0, 0, 0, 0]);
}

} // verus!
