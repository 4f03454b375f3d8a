//! The linear framebuffer: 32-bit RGB pixels in rows, with the drawing
//! primitives the terminal uses (pixels, rectangles, glyphs, and the
//! rectangle copy that scrolls the screen).
//!
//! The pixels are held here row by row; whoever owns the hardware
//! framebuffer copies rows out to it, each at its pitch.
use vstd::prelude::*;
use crate::terminal::Font;

verus! {

/// Width in pixels of a glyph at scale 1.
pub const GLYPH_WIDTH: u64 = 8;

/// Height in pixels (rows) of a glyph at scale 1.
pub const GLYPH_HEIGHT: u64 = 16;

/// A colour as the framebuffer stores it: red in bits 16-23, green in bits
/// 8-15, blue in bits 0-7.
#[derive(Debug, Clone, Copy, PartialEq, Eq, Structural)]
pub struct Rgb(pub u32);

impl Rgb {
    /// The colour with the given components.
    pub fn new(r: u8, g: u8, b: u8) -> (c: Self)
        ensures
            c.0 == r * 0x1_0000 + g * 0x100 + b,
            (c.0 >> 16u32) & 0xFFu32 == r,
            (c.0 >> 8u32) & 0xFFu32 == g,
            c.0 & 0xFFu32 == b,
    {
        let v = ((r as u32) << 16) | ((g as u32) << 8) | (b as u32);
        assert(v == r * 0x1_0000 + g * 0x100 + b && (v >> 16u32) & 0xFFu32 == r && (v >> 8u32) & 0xFFu32 == g
            && v & 0xFFu32 == b) by (bit_vector)
            requires v == ((r as u32) << 16u32) | ((g as u32) << 8u32) | (b as u32);
        Rgb(v)
    }
}

/// Whether glyph row `row` lights column `col` (0 is the leftmost of 8).
pub open spec fn glyph_bit(row: u8, col: int) -> bool {
    (row >> ((7 - col) as u8)) & 1u8 == 1u8
}

/// `p` with the rectangle of width `w` and height `h` at `(x, y)` painted
/// `c`.
pub open spec fn fill_rect_spec(p: Seq<Seq<u32>>, x: int, y: int, w: int, h: int, c: u32) -> Seq<Seq<u32>> {
    Seq::new(
        p.len(),
        |r: int|
            if y <= r < y + h {
                Seq::new(p[r].len(), |col: int| if x <= col < x + w { c } else { p[r][col] })
            } else {
                p[r]
            },
    )
}

/// Where painting `w` pixels of a row from `x` on stops (exclusive): the
/// row is painted four pixels at a time from `x` up to the last multiple of
/// four before `x + w`, and pixel by pixel from there, so a run that does
/// not start at a multiple of four may paint up to three pixels beyond
/// `x + w`.
pub open spec fn painted_end(x: int, w: int) -> int {
    let end = x + w;
    let aligned = end - end % 4;
    if x < aligned {
        let last = x + 4 * ((aligned - 1 - x) / 4);
        if last + 4 > end {
            last + 4
        } else {
            end
        }
    } else {
        end
    }
}

/// A run that starts at a multiple of four stops at its end, and no run
/// stops before its end or more than three pixels after it.
pub proof fn lemma_painted_end(x: int, w: int)
    requires
        x >= 0,
        w >= 0,
    ensures
        x + w <= painted_end(x, w) <= x + w + 3,
        x % 4 == 0 ==> painted_end(x, w) == x + w,
{
    let end = x + w;
    let aligned = end - end % 4;
    if x < aligned {
        let q = (aligned - 1 - x) / 4;
        assert(0 <= aligned - 1 - x - 4 * q < 4);
        if x % 4 == 0 {
            assert(aligned % 4 == 0);
            assert((aligned - x) % 4 == 0);
        }
    }
}

/// `p` with a glyph drawn in the cell of `8 * scale` by `16 * scale`
/// pixels at `(x, y)`: lit pixels `fg`, the others `bg`. When the cell does
/// not start at a multiple of four, the pixels that painting its rows paints
/// beyond it take `fg` in the glyph rows that are fully lit and `bg` in the
/// others.
pub open spec fn draw_glyph_spec(
    p: Seq<Seq<u32>>,
    x: int,
    y: int,
    scale: int,
    glyph: Seq<u8>,
    fg: u32,
    bg: u32,
) -> Seq<Seq<u32>> {
    Seq::new(
        p.len(),
        |r: int|
            if y <= r < y + 16 * scale {
                Seq::new(
                    p[r].len(),
                    |col: int|
                        if x <= col < x + 8 * scale {
                            if glyph_bit(glyph[(r - y) / scale], (col - x) / scale) {
                                fg
                            } else {
                                bg
                            }
                        } else if x + 8 * scale <= col < painted_end(x, 8 * scale) {
                            if glyph[(r - y) / scale] == 0xFF {
                                fg
                            } else {
                                bg
                            }
                        } else {
                            p[r][col]
                        },
                )
            } else {
                p[r]
            },
    )
}

/// `p` with the rectangle of width `w` and height `h` at `to` replaced by
/// the one at `from`.
pub open spec fn copy_rect_spec(p: Seq<Seq<u32>>, from: (int, int), to: (int, int), w: int, h: int) -> Seq<Seq<u32>> {
    Seq::new(
        p.len(),
        |r: int|
            if to.1 <= r < to.1 + h {
                Seq::new(
                    p[r].len(),
                    |col: int|
                        if to.0 <= col < to.0 + w {
                            p[r - to.1 + from.1][col - to.0 + from.0]
                        } else {
                            p[r][col]
                        },
                )
            } else {
                p[r]
            },
    )
}

/// The framebuffer.
pub struct Vga {
    width: u64,
    height: u64,
    rows: Vec<Vec<u32>>,
}

impl View for Vga {
    type V = Seq<Seq<u32>>;

    closed spec fn view(&self) -> Seq<Seq<u32>> {
        Seq::new(self.rows@.len(), |r: int| self.rows@[r]@)
    }
}

proof fn lemma_div_below(a: int, s: int, n: int)
    requires
        0 <= a < n * s,
        s > 0,
        n > 0,
    ensures
        0 <= a / s < n,
{
    assert(0 <= a / s < n) by (nonlinear_arith)
        requires 0 <= a < n * s, s > 0, n > 0;
}

impl Vga {
    /// Width in pixels, as a spec value.
    pub closed spec fn spec_width(&self) -> u64 {
        self.width
    }

    /// Height in pixels, as a spec value.
    pub closed spec fn spec_height(&self) -> u64 {
        self.height
    }

    /// The pixel rows have the framebuffer's dimensions.
    pub closed spec fn wf(&self) -> bool {
        &&& self.width <= usize::MAX
        &&& self.height <= usize::MAX
        &&& self.rows@.len() == self.height
        &&& forall|r: int| 0 <= r < self.height ==> (#[trigger] self.rows@[r])@.len() == self.width
        &&& self@.len() == self.height
        &&& forall|r: int| 0 <= r < self.height ==> (#[trigger] self@[r]).len() == self.width
    }

    /// The view has `height` rows of `width` pixels.
    pub proof fn lemma_dimensions(&self)
        requires
            self.wf(),
        ensures
            self@.len() == self.spec_height(),
            forall|r: int| 0 <= r < self.spec_height() ==> (#[trigger] self@[r]).len() == self.spec_width(),
            self.spec_width() <= usize::MAX,
            self.spec_height() <= usize::MAX,
    {
    }

    /// A black framebuffer of the given size; it must have 32 bits per pixel
    /// with red, green and blue at bit 16, 8 and 0. Its rows and columns are
    /// held in memory, so each dimension fits a `usize`.
    pub fn new(width: u64, height: u64, bpp: u16, red_mask_shift: u8, green_mask_shift: u8, blue_mask_shift: u8) -> (v: Self)
        requires
            bpp == 32,
            red_mask_shift == 16,
            green_mask_shift == 8,
            blue_mask_shift == 0,
            width <= usize::MAX,
            height <= usize::MAX,
        ensures
            v.wf(),
            v.spec_width() == width,
            v.spec_height() == height,
            forall|r: int, c: int| 0 <= r < height && 0 <= c < width ==> #[trigger] v@[r][c] == 0,
    {
        let mut rows: Vec<Vec<u32>> = Vec::new();
        let mut r: u64 = 0;
        while r < height
            invariant
                r <= height,
                width <= usize::MAX,
                rows@.len() == r,
                forall|i: int| 0 <= i < r ==> (#[trigger] rows@[i])@.len() == width,
                forall|i: int, c: int| 0 <= i < r && 0 <= c < width ==> #[trigger] rows@[i]@[c] == 0,
            decreases height - r,
        {
            let mut row: Vec<u32> = Vec::new();
            let mut c: u64 = 0;
            while c < width
                invariant
                    c <= width,
                    row@.len() == c,
                    forall|j: int| 0 <= j < c ==> #[trigger] row@[j] == 0,
                decreases width - c,
            {
                row.push(0);
                c = c + 1;
            }
            rows.push(row);
            r = r + 1;
        }
        Vga { width, height, rows }
    }

    /// Width in pixels.
    pub fn width(&self) -> (w: u64)
        ensures
            w == self.spec_width(),
    {
        self.width
    }

    /// Height in pixels.
    pub fn height(&self) -> (h: u64)
        ensures
            h == self.spec_height(),
    {
        self.height
    }

    /// The colour of the pixel at `(x, y)`.
    pub fn pixel(&self, x: u64, y: u64) -> (c: u32)
        requires
            self.wf(),
            x < self.spec_width(),
            y < self.spec_height(),
        ensures
            c == self@[y as int][x as int],
    {
        self.rows[y as usize][x as usize]
    }

    /// Paints the pixel at `(x, y)`.
    pub fn put_pixel(&mut self, x: u64, y: u64, color: Rgb)
        requires
            old(self).wf(),
            x < old(self).spec_width(),
            y < old(self).spec_height(),
        ensures
            final(self).wf(),
            final(self).spec_width() == old(self).spec_width(),
            final(self).spec_height() == old(self).spec_height(),
            final(self)@ == old(self)@.update(y as int, old(self)@[y as int].update(x as int, color.0)),
    {
        self.rows[y as usize].set(x as usize, color.0);
        proof {
            assert(self@ =~= old(self)@.update(y as int, old(self)@[y as int].update(x as int, color.0)));
        }
    }

    /// Writes `colors` one after another, all at the pixel `(x, y)`, so that
    /// the last one stays; the run must fit in the rows from `y` down when
    /// wrapped at the right edge.
    pub fn put_pixels(&mut self, x: u64, y: u64, colors: &[Rgb])
        requires
            old(self).wf(),
            x < old(self).spec_width(),
            y < old(self).spec_height(),
            colors@.len() > 0 ==> y + (x + colors@.len() - 1) / (old(self).spec_width() as int) < old(
                self,
            ).spec_height(),
        ensures
            final(self).wf(),
            final(self).spec_width() == old(self).spec_width(),
            final(self).spec_height() == old(self).spec_height(),
            colors@.len() == 0 ==> final(self)@ == old(self)@,
            colors@.len() > 0 ==> final(self)@ == old(self)@.update(
                y as int,
                old(self)@[y as int].update(x as int, colors@.last().0),
            ),
    {
        let width = self.width;
        let height = self.height;
        let mut i: usize = 0;
        let mut current_x: u64 = x;
        let mut current_y: u64 = y;
        let ghost w = width as int;
        let ghost mut k: int = 0;
        while i < colors.len()
            invariant
                self.wf(),
                old(self).wf(),
                self.width == width,
                self.height == height,
                old(self).width == width,
                old(self).height == height,
                w == width,
                x < width,
                y < height,
                i <= colors.len(),
                colors@.len() > 0 ==> y + (x + colors@.len() - 1) / w < height,
                i == 0 ==> self@ == old(self)@,
                i > 0 ==> self@ == old(self)@.update(
                    y as int,
                    old(self)@[y as int].update(x as int, colors@[i - 1].0),
                ),
                k >= 0,
                current_x + k * w == x + i,
                current_x <= w,
                current_y == y + k,
                current_y < height,
            decreases colors.len() - i,
        {
            if current_x >= width {
                proof {
                    assert((k + 1) * w == x + i) by (nonlinear_arith)
                        requires current_x + k * w == x + i, current_x == w;
                    assert(k + 1 == (x + i) / w && (x + i) / w <= (x + colors@.len() - 1) / w) by (nonlinear_arith)
                        requires (k + 1) * w == x + i, w > 0, i <= colors@.len() - 1, x >= 0, i >= 0;
                }
                current_x = 0;
                current_y = current_y + 1;
                proof {
                    k = k + 1;
                }
            }
            let color = colors[i];
            self.put_pixel(x, y, color);
            proof {
                assert(self@[y as int] =~= old(self)@[y as int].update(x as int, colors@[i as int].0));
                assert(self@ =~= old(self)@.update(y as int, old(self)@[y as int].update(x as int, colors@[i as int].0)));
            }
            i = i + 1;
            current_x = current_x + 1;
        }
    }

    /// Paints the rectangle of width `width` and height `height` at `(x, y)`,
    /// which must lie in the framebuffer, with `(x, y)` itself a pixel. Each
    /// row is painted four pixels at a time from `x` and pixel by pixel after
    /// the last multiple of four, so up to three pixels right of the
    /// rectangle are painted too when `x` is not a multiple of four (those
    /// that fall past the end of a row are not held here).
    pub fn fill_rectangle(&mut self, x: u64, y: u64, width: u64, height: u64, color: Rgb)
        requires
            old(self).wf(),
            x < old(self).spec_width(),
            y < old(self).spec_height(),
            x + width <= old(self).spec_width(),
            y + height <= old(self).spec_height(),
        ensures
            final(self).wf(),
            final(self).spec_width() == old(self).spec_width(),
            final(self).spec_height() == old(self).spec_height(),
            final(self)@ == fill_rect_spec(
                old(self)@,
                x as int,
                y as int,
                painted_end(x as int, width as int) - x,
                height as int,
                color.0,
            ),
    {
        let end = x + width;
        let aligned = end - end % 4;
        let mut extra: u64 = 0;
        if x < aligned {
            let last = x + 4 * ((aligned - 1 - x) / 4);
            if end - last < 4 {
                extra = 4 - (end - last);
            }
        }
        let room = self.width - end;
        let painted = if extra > room {
            self.width - x
        } else {
            width + extra
        };
        self.fill_rect(x, y, painted, height, color);
        proof {
            lemma_painted_end(x as int, width as int);
            let pe = painted_end(x as int, width as int);
            assert(x + painted == if pe < old(self).width { pe } else { old(self).width as int });
            old(self).lemma_dimensions();
            let a = fill_rect_spec(old(self)@, x as int, y as int, painted as int, height as int, color.0);
            let b = fill_rect_spec(old(self)@, x as int, y as int, pe - x, height as int, color.0);
            assert forall|r: int| 0 <= r < a.len() implies a[r] =~= b[r] by {}
            assert(a =~= b);
        }
    }

    /// `fill_rectangle` without the requirement that `(x, y)` be a pixel,
    /// for empty rectangles at the edges.
    fn fill_rect(&mut self, x: u64, y: u64, width: u64, height: u64, color: Rgb)
        requires
            old(self).wf(),
            x + width <= old(self).spec_width(),
            y + height <= old(self).spec_height(),
        ensures
            final(self).wf(),
            final(self).spec_width() == old(self).spec_width(),
            final(self).spec_height() == old(self).spec_height(),
            final(self)@ == fill_rect_spec(old(self)@, x as int, y as int, width as int, height as int, color.0),
    {
        let ghost target = fill_rect_spec(old(self)@, x as int, y as int, width as int, height as int, color.0);
        let mut current_y: u64 = y;
        while current_y < y + height
            invariant
                self.wf(),
                old(self).wf(),
                self.width == old(self).width,
                self.height == old(self).height,
                x + width <= self.width,
                y + height <= self.height,
                y <= current_y <= y + height,
                target == fill_rect_spec(old(self)@, x as int, y as int, width as int, height as int, color.0),
                forall|r: int| 0 <= r < self.height && !(current_y <= r < y + height) ==> #[trigger] self@[r] == target[r],
                forall|r: int| 0 <= r < self.height && current_y <= r < y + height ==> #[trigger] self@[r] == old(self)@[r],
            decreases y + height - current_y,
        {
            let mut current_x: u64 = x;
            while current_x < x + width
                invariant
                    self.wf(),
                    old(self).wf(),
                    self.width == old(self).width,
                    self.height == old(self).height,
                    x + width <= self.width,
                    y + height <= self.height,
                    y <= current_y < y + height,
                    x <= current_x <= x + width,
                    target == fill_rect_spec(old(self)@, x as int, y as int, width as int, height as int, color.0),
                    forall|r: int| 0 <= r < self.height && !(current_y <= r < y + height) ==> #[trigger] self@[r] == target[r],
                    forall|r: int| 0 <= r < self.height && current_y < r < y + height ==> #[trigger] self@[r] == old(self)@[r],
                    forall|c: int| 0 <= c < self.width && !(current_x <= c < x + width) ==> #[trigger] self@[current_y as int][c] == target[current_y as int][c],
                    forall|c: int| 0 <= c < self.width && current_x <= c < x + width ==> #[trigger] self@[current_y as int][c] == old(self)@[current_y as int][c],
                decreases x + width - current_x,
            {
                self.put_pixel(current_x, current_y, color);
                current_x = current_x + 1;
            }
            assert(self@[current_y as int] =~= target[current_y as int]);
            current_y = current_y + 1;
        }
        assert(self@ =~= target);
    }

    /// Paints `width` pixels of row `y` from `x` on, as `fill_rectangle`
    /// paints a row.
    pub fn fill_row(&mut self, x: u64, y: u64, width: u64, color: Rgb)
        requires
            old(self).wf(),
            x < old(self).spec_width(),
            y < old(self).spec_height(),
            x + width <= old(self).spec_width(),
        ensures
            final(self).wf(),
            final(self).spec_width() == old(self).spec_width(),
            final(self).spec_height() == old(self).spec_height(),
            final(self)@ == fill_rect_spec(
                old(self)@,
                x as int,
                y as int,
                painted_end(x as int, width as int) - x,
                1,
                color.0,
            ),
    {
        self.fill_rectangle(x, y, width, 1, color)
    }

    /// Draws `character` at `(x, y)`, `scale` times enlarged, from its glyph
    /// in `font` (16 rows of 8 pixels, the most significant bit leftmost):
    /// lit pixels in `foreground_color`, the rest of the cell in
    /// `background_color`.
    pub fn draw_character(
        &mut self,
        x: u64,
        y: u64,
        scale: u64,
        character: char,
        font: &Font,
        foreground_color: Rgb,
        background_color: Rgb,
    )
        requires
            old(self).wf(),
            x + 8 * scale <= old(self).spec_width(),
            y + 16 * scale <= old(self).spec_height(),
            x < old(self).spec_width(),
            y < old(self).spec_height(),
            '!' <= character <= '~',
            font.wf(),
        ensures
            final(self).wf(),
            final(self).spec_width() == old(self).spec_width(),
            final(self).spec_height() == old(self).spec_height(),
            final(self)@ == draw_glyph_spec(
                old(self)@,
                x as int,
                y as int,
                scale as int,
                font.spec_glyphs()[character as int],
                foreground_color.0,
                background_color.0,
            ),
    {
        let glyph = font.glyph(character as u32);
        let ghost target = draw_glyph_spec(
            old(self)@,
            x as int,
            y as int,
            scale as int,
            glyph@,
            foreground_color.0,
            background_color.0,
        );
        self.fill_rectangle(x, y, 8 * scale, 16 * scale, background_color);
        let ghost filled = self@;
        let mut dy: u64 = 0;
        while dy < 16 * scale
            invariant
                self.wf(),
                old(self).wf(),
                self.width == old(self).width,
                self.height == old(self).height,
                x + 8 * scale <= self.width,
                y + 16 * scale <= self.height,
                glyph@.len() == 16,
                dy <= 16 * scale,
                scale > 0 || dy == 0,
                target == draw_glyph_spec(old(self)@, x as int, y as int, scale as int, glyph@, foreground_color.0, background_color.0),
                filled == fill_rect_spec(old(self)@, x as int, y as int, painted_end(x as int, (8 * scale) as int) - x, (16 * scale) as int, background_color.0),
                forall|r: int| 0 <= r < self.height && !(y + dy <= r < y + 16 * scale) ==> #[trigger] self@[r] == target[r],
                forall|r: int| 0 <= r < self.height && y + dy <= r < y + 16 * scale ==> #[trigger] self@[r] == filled[r],
            decreases 16 * scale - dy,
        {
            proof {
                lemma_div_below(dy as int, scale as int, 16);
            }
            let glyph_row = glyph[(dy / scale) as usize];
            let row = y + dy;
            let ghost before = self@;
            if glyph_row == 0 {
                proof {
                    assert forall|c: int| 0 <= c < self.width implies #[trigger] self@[row as int][c] == target[row as int][c] by {
                        if x <= c < x + 8 * scale {
                            lemma_div_below(c - x, scale as int, 8);
                            let sh = (7 - (c - x) / (scale as int)) as u8;
                            assert((0u8 >> sh) & 1u8 != 1u8) by (bit_vector);
                        }
                    }
                    assert(self@[row as int] =~= target[row as int]);
                }
            } else if glyph_row == 0xFF {
                self.fill_row(x, row, 8 * scale, foreground_color);
                proof {
                    assert forall|c: int| 0 <= c < self.width implies #[trigger] self@[row as int][c] == target[row as int][c] by {
                        if x <= c < x + 8 * scale {
                            lemma_div_below(c - x, scale as int, 8);
                            let sh = (7 - (c - x) / (scale as int)) as u8;
                            assert(sh < 8);
                            assert((0xFFu8 >> sh) & 1u8 == 1u8) by (bit_vector)
                                requires sh < 8;
                        }
                    }
                    assert(self@[row as int] =~= target[row as int]);
                    assert forall|r: int| 0 <= r < self.height && r != row implies #[trigger] self@[r] == before[r] by {}
                }
            } else {
                let mut dx: u64 = 0;
                while dx < 8 * scale
                    invariant
                        self.wf(),
                        old(self).wf(),
                        self.width == old(self).width,
                        self.height == old(self).height,
                        x + 8 * scale <= self.width,
                        y + 16 * scale <= self.height,
                        glyph@.len() == 16,
                        scale > 0,
                        dy < 16 * scale,
                        row == y + dy,
                        glyph_row == glyph@[(dy / scale) as int],
                        dx <= 8 * scale,
                        target == draw_glyph_spec(old(self)@, x as int, y as int, scale as int, glyph@, foreground_color.0, background_color.0),
                        filled == fill_rect_spec(old(self)@, x as int, y as int, painted_end(x as int, (8 * scale) as int) - x, (16 * scale) as int, background_color.0),
                        forall|r: int| 0 <= r < self.height && r != row ==> #[trigger] self@[r] == before[r],
                        forall|c: int| 0 <= c < self.width && !(x + dx <= c < x + 8 * scale) ==> #[trigger] self@[row as int][c] == target[row as int][c],
                        forall|c: int| 0 <= c < self.width && x + dx <= c < x + 8 * scale ==> #[trigger] self@[row as int][c] == filled[row as int][c],
                    decreases 8 * scale - dx,
                {
                    proof {
                        lemma_div_below(dx as int, scale as int, 8);
                    }
                    let shift = 7 - (dx / scale);
                    if (glyph_row >> (shift as u8)) & 1 == 1 {
                        self.put_pixel(x + dx, row, foreground_color);
                    }
                    dx = dx + 1;
                }
                proof {
                    assert(self@[row as int] =~= target[row as int]);
                }
            }
            dy = dy + 1;
        }
        assert(self@ =~= target);
    }

    /// Copies the rectangle of width `width` and height `height` at `from` to
    /// `to`. Only copies that move pixels up, or along a row to the right
    /// without overlapping, are handled.
    pub fn copy(&mut self, from: (u64, u64), to: (u64, u64), width: u64, height: u64)
        requires
            old(self).wf(),
            from.0 < old(self).spec_width(),
            from.1 < old(self).spec_height(),
            to.0 < old(self).spec_width(),
            to.1 < old(self).spec_height(),
            width > 0 ==> from.0 + width <= old(self).spec_width() && to.0 + width <= old(self).spec_width(),
            width > 0 && height > 0 ==> from.1 + height <= old(self).spec_height() && to.1 + height <= old(
                self,
            ).spec_height(),
            width > 0 && height > 0 && from != to ==> from.0 <= to.0 && from.1 >= to.1,
            width > 0 && height > 0 && from != to && from.1 == to.1 ==> from.0 + width <= to.0,
        ensures
            final(self).wf(),
            final(self).spec_width() == old(self).spec_width(),
            final(self).spec_height() == old(self).spec_height(),
            final(self)@ == copy_rect_spec(
                old(self)@,
                (from.0 as int, from.1 as int),
                (to.0 as int, to.1 as int),
                width as int,
                height as int,
            ),
    {
        let ghost target = copy_rect_spec(
            old(self)@,
            (from.0 as int, from.1 as int),
            (to.0 as int, to.1 as int),
            width as int,
            height as int,
        );
        if width == 0 || height == 0 || (from.0 == to.0 && from.1 == to.1) {
            assert(self@ =~= target) by {
                assert forall|r: int| 0 <= r < self@.len() implies #[trigger] self@[r] =~= target[r] by {}
            }
            return;
        }
        let mut dy: u64 = 0;
        while dy < height
            invariant
                self.wf(),
                old(self).wf(),
                self.width == old(self).width,
                self.height == old(self).height,
                from.0 + width <= self.width,
                to.0 + width <= self.width,
                from.1 + height <= self.height,
                to.1 + height <= self.height,
                from.0 <= to.0,
                from.1 >= to.1,
                from.1 == to.1 ==> from.0 + width <= to.0,
                dy <= height,
                target == copy_rect_spec(old(self)@, (from.0 as int, from.1 as int), (to.0 as int, to.1 as int), width as int, height as int),
                forall|r: int| 0 <= r < self.height && !(to.1 + dy <= r < to.1 + height) ==> #[trigger] self@[r] == target[r],
                forall|r: int| 0 <= r < self.height && to.1 + dy <= r ==> #[trigger] self@[r] == old(self)@[r],
            decreases height - dy,
        {
            let source_y = from.1 + dy;
            let destination_y = to.1 + dy;
            let ghost before = self@;
            let mut dx: u64 = 0;
            while dx < width
                invariant
                    self.wf(),
                    old(self).wf(),
                    self.width == old(self).width,
                    self.height == old(self).height,
                    from.0 + width <= self.width,
                    to.0 + width <= self.width,
                    from.1 + height <= self.height,
                    to.1 + height <= self.height,
                    from.0 <= to.0,
                    from.1 >= to.1,
                    from.1 == to.1 ==> from.0 + width <= to.0,
                    dy < height,
                    source_y == from.1 + dy,
                    destination_y == to.1 + dy,
                    dx <= width,
                    source_y >= destination_y,
                    forall|r: int| 0 <= r < self.height && r != destination_y ==> #[trigger] self@[r] == before[r],
                    forall|c: int| 0 <= c < self.width && !(to.0 <= c < to.0 + dx) ==> #[trigger] self@[destination_y as int][c] == before[destination_y as int][c],
                    forall|c: int| 0 <= c < dx ==> #[trigger] self@[destination_y as int][to.0 + c] == before[source_y as int][from.0 + c],
                decreases width - dx,
            {
                let v = self.pixel(from.0 + dx, source_y);
                self.put_pixel(to.0 + dx, destination_y, Rgb(v));
                dx = dx + 1;
            }
            proof {
                assert forall|c: int| 0 <= c < self.width implies #[trigger] self@[destination_y as int][c] == target[destination_y as int][c] by {
                    if to.0 <= c < to.0 + width {
                        assert(self@[destination_y as int][to.0 + (c - to.0)] == before[source_y as int][from.0 + (c - to.0)]);
                    }
                }
                assert(self@[destination_y as int] =~= target[destination_y as int]);
            }
            dy = dy + 1;
        }
        assert(self@ =~= target);
    }
}

} // verus!
