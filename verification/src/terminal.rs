//! Framebuffer text terminal: 8x8 glyphs scaled by an integer factor, a cursor that wraps at the
//! right edge and scrolls the screen up when it runs off the bottom, and the decisions of the PS/2
//! keyboard reader and of the line-oriented shell.

use vstd::prelude::*;

verus! {

/// Colour of cleared pixels.
pub const BLACK: u32 = 0xFF00_0000;

/// Colour of glyph pixels.
pub const GREEN: u32 = 0xFF00_FF00;

/// The glyph of `index` in the 8x8 font's basic-latin table.
pub uninterp spec fn basic_legacy_glyph(index: int) -> Seq<u8>;

/// Looks up the 8x8 bitmap of `index` (below 128) in `font8x8::legacy::BASIC_LEGACY`.
/// Trusted: its result is the table row, named by `basic_legacy_glyph`.
#[verifier::external_body]
fn legacy_glyph(index: usize) -> (g: [u8; 8])
    requires
        index < 128,
    ensures
        g@ == basic_legacy_glyph(index as int),
{
    font8x8::legacy::BASIC_LEGACY[index]
}

/// `fb` with `color` written at every in-bounds pixel `(x, y)` that `sel` picks, where the pixel
/// `(x, y)` is stored at index `y * stride + x`.
pub open spec fn paint(
    fb: Seq<u32>,
    stride: int,
    width: int,
    height: int,
    sel: spec_fn(int, int) -> bool,
    color: u32,
) -> Seq<u32> {
    Seq::new(
        fb.len(),
        |p: int|
            {
                let x = p % stride;
                let y = p / stride;
                if stride > 0 && x < width && y < height && sel(x, y) {
                    color
                } else {
                    fb[p]
                }
            },
    )
}

/// `fb` with the screen's rows moved up by `d`: each on-screen pixel `(x, y)` takes the colour of
/// `(x, y + d)`, black where `y + d` is past the bottom; pixels off the screen stay.
pub open spec fn shifted_up(fb: Seq<u32>, stride: int, width: int, height: int, d: int) -> Seq<u32> {
    Seq::new(
        fb.len(),
        |p: int|
            {
                let x = p % stride;
                let y = p / stride;
                if stride > 0 && x < width && y < height {
                    if y + d < height {
                        fb[p + d * stride]
                    } else {
                        BLACK
                    }
                } else {
                    fb[p]
                }
            },
    )
}

/// `fb` with the on-screen rows above `height - d` that a row-by-row sweep has reached before
/// `(px, py)` moved up by `d`.
pub open spec fn shift_partial(
    fb: Seq<u32>,
    stride: int,
    width: int,
    height: int,
    d: int,
    px: int,
    py: int,
) -> Seq<u32> {
    Seq::new(
        fb.len(),
        |p: int|
            {
                let x = p % stride;
                let y = p / stride;
                if stride > 0 && x < width && y + d < height && (y < py || (y == py && x < px)) {
                    fb[p + d * stride]
                } else {
                    fb[p]
                }
            },
    )
}

/// The pixels of `sel` that a row-by-row sweep has reached before `(px, py)`.
pub open spec fn swept(sel: spec_fn(int, int) -> bool, px: int, py: int) -> spec_fn(int, int) -> bool {
    |x: int, y: int| sel(x, y) && (y < py || (y == py && x < px))
}

/// The rectangle with corner `(x0, y0)`, `w` pixels wide and `h` pixels high.
pub open spec fn rect(x0: int, y0: int, w: int, h: int) -> spec_fn(int, int) -> bool {
    |x: int, y: int| x0 <= x < x0 + w && y0 <= y < y0 + h
}

/// Whether the glyph bit for pixel `(x, y)` of a glyph drawn at `(cx, cy)` with `scale` is set.
pub open spec fn glyph_bit(glyph: Seq<u8>, cx: int, cy: int, scale: int, x: int, y: int) -> bool {
    (glyph[(y - cy) / scale] >> (((x - cx) / scale) as u8)) & 1u8 == 1u8
}

/// The pixels lit by `glyph` drawn at `(cx, cy)`, each glyph bit a `scale` x `scale` square.
pub open spec fn glyph_pixels(glyph: Seq<u8>, cx: int, cy: int, scale: int) -> spec_fn(int, int) -> bool {
    |x: int, y: int| rect(cx, cy, 8 * scale, 8 * scale)(x, y) && glyph_bit(glyph, cx, cy, scale, x, y)
}

proof fn lemma_pixel_index(stride: int, height: int, len: int, x: int, y: int)
    requires
        stride > 0,
        0 <= x < stride,
        0 <= y < height,
        height * stride <= len,
    ensures
        0 <= y * stride + x < len,
        (y * stride + x) % stride == x,
        (y * stride + x) / stride == y,
{
    vstd::arithmetic::div_mod::lemma_fundamental_div_mod_converse(y * stride + x, stride, y, x);
    assert(y * stride + x < len) by (nonlinear_arith)
        requires
            0 <= x < stride,
            0 <= y < height,
            height * stride <= len,
    ;
    assert(0 <= y * stride) by (nonlinear_arith)
        requires
            0 <= y,
            stride > 0,
    ;
}

proof fn lemma_same_pixel(stride: int, p: int, x: int, y: int)
    requires
        stride > 0,
        0 <= p,
        0 <= x < stride,
        p % stride == x,
        p / stride == y,
    ensures
        p == y * stride + x,
{
    vstd::arithmetic::div_mod::lemma_fundamental_div_mod(p, stride);
    assert(stride * (p / stride) == y * stride) by (nonlinear_arith)
        requires
            p / stride == y,
    ;
}

/// Visiting pixel `(px, py)` of a sweep: writing it when it is in bounds and selected extends the
/// swept region by one pixel.
proof fn lemma_paint_step(
    fb0: Seq<u32>,
    fb: Seq<u32>,
    stride: int,
    width: int,
    height: int,
    sel: spec_fn(int, int) -> bool,
    color: u32,
    px: int,
    py: int,
)
    requires
        stride >= 0,
        0 <= px,
        0 <= py,
        width <= stride,
        height * stride <= fb0.len(),
        fb == paint(fb0, stride, width, height, swept(sel, px, py), color),
    ensures
        px < width && py < height && sel(px, py) ==> {
            &&& 0 <= py * stride + px < fb.len()
            &&& fb.update(py * stride + px, color) == paint(fb0, stride, width, height, swept(sel, px + 1, py), color)
        },
        !(px < width && py < height && sel(px, py)) ==> fb == paint(
            fb0,
            stride,
            width,
            height,
            swept(sel, px + 1, py),
            color,
        ),
{
    let next = paint(fb0, stride, width, height, swept(sel, px + 1, py), color);
    if stride == 0 {
        assert(fb =~= next);
    } else if px < width && py < height && sel(px, py) {
        lemma_pixel_index(stride, height, fb0.len() as int, px, py);
        let q0 = py * stride + px;
        assert forall|q: int| 0 <= q < fb.len() implies #[trigger] fb.update(q0, color)[q] == next[q] by {
            if q != q0 {
                if q % stride == px && q / stride == py {
                    lemma_same_pixel(stride, q, px, py);
                }
            }
        }
        assert(fb.update(q0, color) =~= next);
    } else {
        assert forall|q: int| 0 <= q < fb.len() implies #[trigger] fb[q] == next[q] by {
            if q % stride == px && q / stride == py {
            }
        }
        assert(fb =~= next);
    }
}

/// At the end of a row, the sweep moves to the start of the next row.
proof fn lemma_paint_row_end(
    fb0: Seq<u32>,
    stride: int,
    width: int,
    height: int,
    sel: spec_fn(int, int) -> bool,
    color: u32,
    x0: int,
    x1: int,
    py: int,
)
    requires
        forall|x: int, y: int| #[trigger] sel(x, y) ==> x0 <= x < x1,
    ensures
        paint(fb0, stride, width, height, swept(sel, x1, py), color) == paint(
            fb0,
            stride,
            width,
            height,
            swept(sel, x0, py + 1),
            color,
        ),
{
    let a = paint(fb0, stride, width, height, swept(sel, x1, py), color);
    let b = paint(fb0, stride, width, height, swept(sel, x0, py + 1), color);
    assert forall|q: int| 0 <= q < a.len() implies #[trigger] a[q] == b[q] by {
        let x = q % stride;
        let y = q / stride;
        if sel(x, y) {
        }
    }
    assert(a =~= b);
}

/// A sweep that starts before every selected pixel has reached none of them.
proof fn lemma_paint_start(
    fb0: Seq<u32>,
    stride: int,
    width: int,
    height: int,
    sel: spec_fn(int, int) -> bool,
    color: u32,
    x0: int,
    y0: int,
)
    requires
        forall|x: int, y: int| #[trigger] sel(x, y) ==> y0 < y || (y == y0 && x0 <= x),
    ensures
        fb0 == paint(fb0, stride, width, height, swept(sel, x0, y0), color),
{
    let b = paint(fb0, stride, width, height, swept(sel, x0, y0), color);
    assert forall|q: int| 0 <= q < fb0.len() implies #[trigger] fb0[q] == b[q] by {
        let x = q % stride;
        let y = q / stride;
        if sel(x, y) {
        }
    }
    assert(fb0 =~= b);
}

/// A sweep that has passed every selected pixel has painted all of them.
proof fn lemma_paint_done(
    fb0: Seq<u32>,
    stride: int,
    width: int,
    height: int,
    sel: spec_fn(int, int) -> bool,
    color: u32,
    x0: int,
    y1: int,
)
    requires
        forall|x: int, y: int| #[trigger] sel(x, y) ==> y < y1,
    ensures
        paint(fb0, stride, width, height, swept(sel, x0, y1), color) == paint(
            fb0,
            stride,
            width,
            height,
            sel,
            color,
        ),
{
    let a = paint(fb0, stride, width, height, swept(sel, x0, y1), color);
    let b = paint(fb0, stride, width, height, sel, color);
    assert forall|q: int| 0 <= q < a.len() implies #[trigger] a[q] == b[q] by {
        let x = q % stride;
        let y = q / stride;
        if sel(x, y) {
        }
    }
    assert(a =~= b);
}

/// The state of a terminal as plain values.
pub ghost struct TerminalModel {
    pub framebuffer: Seq<u32>,
    pub width: usize,
    pub height: usize,
    pub pitch: usize,
    pub cursor_x: usize,
    pub cursor_y: usize,
    pub scale: usize,
    pub shift: bool,
}

impl TerminalModel {
    /// Pixels per framebuffer row.
    pub open spec fn stride(self) -> int {
        (self.pitch / 4) as int
    }

    /// The framebuffer holds `height` rows of `pitch` bytes, each row at least `width` pixels.
    pub open spec fn wf(self) -> bool {
        &&& self.width <= self.stride()
        &&& self.height * self.stride() <= self.framebuffer.len()
    }

    /// Side of a character cell in pixels.
    pub open spec fn cell(self) -> int {
        8 * self.scale
    }

    /// The framebuffer with `color` on the in-bounds pixels that `sel` picks.
    pub open spec fn painted(self, sel: spec_fn(int, int) -> bool, color: u32) -> Seq<u32> {
        paint(self.framebuffer, self.stride(), self.width as int, self.height as int, sel, color)
    }

    /// The state after `clear`: every pixel of the screen black, cursor at the origin.
    pub open spec fn cleared(self) -> Self {
        TerminalModel {
            framebuffer: self.painted(rect(0, 0, self.width as int, self.height as int), BLACK),
            cursor_x: 0,
            cursor_y: 0,
            ..self
        }
    }

    /// The state after the screen scrolls up so that the cursor's cell fits at the bottom: every
    /// row moves up by the overflow, the rows left at the bottom turn black, and the cursor moves
    /// up to the last cell row. When not even one cell fits, the screen is cleared.
    pub open spec fn scrolled(self) -> Self {
        if self.cell() <= self.height {
            let d = self.cursor_y + self.cell() - self.height;
            TerminalModel {
                framebuffer: shifted_up(self.framebuffer, self.stride(), self.width as int, self.height as int, d),
                cursor_y: (self.height - self.cell()) as usize,
                ..self
            }
        } else {
            self.cleared()
        }
    }

    /// The framebuffer after drawing `glyph` at the cursor.
    pub open spec fn with_glyph(self, glyph: Seq<u8>) -> Seq<u32> {
        self.painted(
            glyph_pixels(glyph, self.cursor_x as int, self.cursor_y as int, self.scale as int),
            GREEN,
        )
    }

    /// The cursor arithmetic for `c` stays within `usize`.
    pub open spec fn char_fits(self, c: char) -> bool {
        &&& self.cursor_x + 16 * self.scale <= usize::MAX
        &&& self.cursor_y + 16 * self.scale <= usize::MAX
        &&& (c == '\x08' && self.cursor_x < self.cell() && self.cursor_y >= self.cell())
            ==> self.width >= self.cell()
    }

    /// The state after printing `c`, where `glyph` is the font's bitmap for `c`.
    pub open spec fn after_char(self, c: char, glyph: Seq<u8>) -> Self {
        let cell = self.cell();
        if c == '\n' {
            TerminalModel { cursor_x: 0, cursor_y: (self.cursor_y + cell) as usize, ..self }
        } else if c == '\x08' {
            if self.cursor_x >= cell {
                let nx = (self.cursor_x - cell) as usize;
                TerminalModel {
                    framebuffer: self.painted(rect(nx as int, self.cursor_y as int, cell, cell), BLACK),
                    cursor_x: nx,
                    ..self
                }
            } else if self.cursor_y >= cell {
                TerminalModel {
                    cursor_x: (self.width - cell) as usize,
                    cursor_y: (self.cursor_y - cell) as usize,
                    ..self
                }
            } else {
                self
            }
        } else {
            let fb = if (c as u32) < 128 {
                self.with_glyph(glyph)
            } else {
                self.framebuffer
            };
            let x1 = self.cursor_x + cell;
            let wrapped = x1 + cell > self.width;
            let x2 = if wrapped { 0 } else { x1 };
            let y2 = if wrapped { self.cursor_y + cell } else { self.cursor_y as int };
            let moved = TerminalModel {
                framebuffer: fb,
                cursor_x: x2 as usize,
                cursor_y: y2 as usize,
                ..self
            };
            if y2 + cell > self.height {
                moved.scrolled()
            } else {
                moved
            }
        }
    }

    /// The glyph that printing `c` draws.
    pub open spec fn glyph_for(c: char) -> Seq<u8> {
        basic_legacy_glyph(c as int)
    }

    /// The state after printing each of `chars` in turn.
    pub open spec fn after_chars(self, chars: Seq<char>) -> Self
        decreases chars.len(),
    {
        if chars.len() == 0 {
            self
        } else {
            self.after_char(chars[0], Self::glyph_for(chars[0])).after_chars(chars.drop_first())
        }
    }

    /// The cursor arithmetic stays within `usize` for every character of `chars`.
    pub open spec fn chars_fit(self, chars: Seq<char>) -> bool
        decreases chars.len(),
    {
        chars.len() == 0 || {
            &&& self.char_fits(chars[0])
            &&& self.after_char(chars[0], Self::glyph_for(chars[0])).chars_fit(chars.drop_first())
        }
    }
}

/// Printing `a` and then `b` is printing their concatenation, and the cursor arithmetic stays
/// within `usize` for the concatenation exactly when it does for `a` and then for `b`.
pub proof fn lemma_print_concat(m: TerminalModel, a: Seq<char>, b: Seq<char>)
    ensures
        m.after_chars(a + b) == m.after_chars(a).after_chars(b),
        m.chars_fit(a + b) == (m.chars_fit(a) && m.after_chars(a).chars_fit(b)),
    decreases a.len(),
{
    if a.len() == 0 {
        assert(a + b =~= b);
    } else {
        let m1 = m.after_char(a[0], TerminalModel::glyph_for(a[0]));
        lemma_print_concat(m1, a.drop_first(), b);
        assert((a + b)[0] == a[0]);
        assert((a + b).drop_first() =~= a.drop_first() + b);
    }
}

/// Printing a character other than newline and backspace leaves the cursor's cell on the
/// screen, when a cell fits on the screen at all: the cursor moves right, wraps to the next line
/// at the right edge, and the screen scrolls up to put it on the last cell row when it runs off
/// the bottom.
pub proof fn lemma_printable_keeps_cursor_on_screen(m: TerminalModel, c: char, glyph: Seq<u8>)
    requires
        m.wf(),
        c != '\n',
        c != '\x08',
        m.cell() <= m.width,
        m.cell() <= m.height,
        m.char_fits(c),
    ensures
        ({
            let r = m.after_char(c, glyph);
            &&& r.cursor_x + r.cell() <= r.width
            &&& r.cursor_y + r.cell() <= r.height
            &&& r.wf()
            &&& r.width == m.width && r.height == m.height && r.scale == m.scale
        }),
{
}

/// Scrolling moves every row of the screen up by the overflow `d`: each on-screen pixel `(x, y)`
/// takes the colour that pixel `(x, y + d)` had, the bottom `d` rows turn black, pixels off the
/// screen keep theirs, and the cursor lands on the last cell row.
pub proof fn lemma_scroll_moves_rows(m: TerminalModel)
    requires
        m.wf(),
        m.cell() <= m.height,
        m.cursor_y + m.cell() > m.height,
    ensures
        ({
            let r = m.scrolled();
            let d = m.cursor_y + m.cell() - m.height;
            let st = m.stride();
            &&& r.framebuffer.len() == m.framebuffer.len()
            &&& r.cursor_y + r.cell() == m.height
            &&& r.cursor_x == m.cursor_x
            &&& r.width == m.width && r.height == m.height && r.pitch == m.pitch && r.scale == m.scale
            &&& forall|x: int, y: int|
                0 <= x < m.width && 0 <= y < m.height && y + d < m.height ==> #[trigger] r.framebuffer[y * st + x]
                    == m.framebuffer[(y + d) * st + x]
            &&& forall|x: int, y: int|
                0 <= x < m.width && 0 <= y < m.height && y + d >= m.height ==> #[trigger] r.framebuffer[y * st
                    + x] == BLACK
            &&& forall|p: int|
                0 <= p < m.framebuffer.len() && (st == 0 || p % st >= m.width || p / st >= m.height)
                    ==> #[trigger] r.framebuffer[p] == m.framebuffer[p]
        }),
{
    let r = m.scrolled();
    let d = m.cursor_y + m.cell() - m.height;
    let st = m.stride();
    assert forall|x: int, y: int| 0 <= x < m.width && 0 <= y < m.height implies {
        &&& y + d < m.height ==> #[trigger] r.framebuffer[y * st + x] == m.framebuffer[(y + d) * st + x]
        &&& y + d >= m.height ==> r.framebuffer[y * st + x] == BLACK
    } by {
        lemma_pixel_index(st, m.height as int, m.framebuffer.len() as int, x, y);
        assert((y + d) * st + x == y * st + x + d * st) by (nonlinear_arith);
    }
}

/// Printing a character on the last line at the right edge wraps the cursor past the bottom, and
/// the screen scrolls: after the glyph is drawn, every on-screen pixel `(x, y)` takes the colour of
/// `(x, y + d)`, where `d` is how far the new line overshoots the bottom, the bottom `d` rows are
/// black, and the cursor starts the last cell row.
pub proof fn lemma_print_wraps_and_scrolls(m: TerminalModel, c: char, glyph: Seq<u8>)
    requires
        m.wf(),
        c != '\n',
        c != '\x08',
        m.char_fits(c),
        m.cell() <= m.height,
        m.cursor_y + m.cell() <= m.height,
        m.cursor_y + 2 * m.cell() > m.height,
        m.cursor_x + 2 * m.cell() > m.width,
    ensures
        ({
            let r = m.after_char(c, glyph);
            let d = m.cursor_y + 2 * m.cell() - m.height;
            let drawn = if (c as u32) < 128 { m.with_glyph(glyph) } else { m.framebuffer };
            let st = m.stride();
            &&& r.cursor_x == 0
            &&& r.cursor_y + m.cell() == m.height
            &&& forall|x: int, y: int|
                0 <= x < m.width && 0 <= y < m.height && y + d < m.height ==> #[trigger] r.framebuffer[y * st + x]
                    == drawn[(y + d) * st + x]
            &&& forall|x: int, y: int|
                0 <= x < m.width && 0 <= y < m.height && y + d >= m.height ==> #[trigger] r.framebuffer[y * st
                    + x] == BLACK
        }),
{
    let cell = m.cell();
    let drawn = if (c as u32) < 128 { m.with_glyph(glyph) } else { m.framebuffer };
    let moved = TerminalModel {
        framebuffer: drawn,
        cursor_x: 0,
        cursor_y: (m.cursor_y + cell) as usize,
        ..m
    };
    assert(m.after_char(c, glyph) == moved.scrolled());
    lemma_scroll_moves_rows(moved);
}

/// When a character cell fits across the screen and the cursor's cell fits horizontally, it
/// still does after any character is printed and after the screen is cleared.
pub proof fn lemma_cell_fits_horizontally(m: TerminalModel, c: char, glyph: Seq<u8>)
    requires
        m.cell() <= m.width,
        m.cursor_x + m.cell() <= m.width,
    ensures
        m.after_char(c, glyph).cursor_x + m.after_char(c, glyph).cell() <= m.after_char(c, glyph).width,
        m.after_char(c, glyph).cell() <= m.after_char(c, glyph).width,
        m.cleared().cursor_x + m.cleared().cell() <= m.cleared().width,
{
}

/// The cursor's cell fits horizontally after printing any string, when it did before.
pub proof fn lemma_cell_fits_after_print(m: TerminalModel, chars: Seq<char>)
    requires
        m.cell() <= m.width,
        m.cursor_x + m.cell() <= m.width,
    ensures
        m.after_chars(chars).cursor_x + m.after_chars(chars).cell() <= m.after_chars(chars).width,
        m.after_chars(chars).cell() <= m.after_chars(chars).width,
    decreases chars.len(),
{
    if chars.len() > 0 {
        let g = TerminalModel::glyph_for(chars[0]);
        lemma_cell_fits_horizontally(m, chars[0], g);
        lemma_cell_fits_after_print(m.after_char(chars[0], g), chars.drop_first());
    }
}

/// `fb` painted with `inner` and then with `outer` over every pixel of `inner` is `fb` painted
/// with `outer` alone.
proof fn lemma_paint_covered(
    fb: Seq<u32>,
    stride: int,
    width: int,
    height: int,
    inner: spec_fn(int, int) -> bool,
    c1: u32,
    outer: spec_fn(int, int) -> bool,
    c2: u32,
)
    requires
        forall|x: int, y: int| #[trigger] inner(x, y) ==> outer(x, y),
    ensures
        paint(paint(fb, stride, width, height, inner, c1), stride, width, height, outer, c2) == paint(
            fb,
            stride,
            width,
            height,
            outer,
            c2,
        ),
{
    let a = paint(paint(fb, stride, width, height, inner, c1), stride, width, height, outer, c2);
    let b = paint(fb, stride, width, height, outer, c2);
    assert forall|p: int| 0 <= p < a.len() implies #[trigger] a[p] == b[p] by {
        let x = p % stride;
        let y = p / stride;
        if inner(x, y) {
        }
    }
    assert(a =~= b);
}

/// Typing a character and erasing it with a backspace leaves the cursor where it was and the
/// character's cell blank, when the character neither wraps the line nor scrolls the screen.
pub proof fn lemma_backspace_erases(m: TerminalModel, c: char, glyph: Seq<u8>)
    requires
        m.wf(),
        c != '\n',
        c != '\x08',
        m.scale > 0,
        m.cursor_x + 2 * m.cell() <= m.width,
        m.cursor_y + m.cell() <= m.height,
    ensures
        ({
            let r = m.after_char(c, glyph).after_char('\x08', TerminalModel::glyph_for('\x08'));
            &&& r.cursor_x == m.cursor_x
            &&& r.cursor_y == m.cursor_y
            &&& r.framebuffer == m.painted(rect(m.cursor_x as int, m.cursor_y as int, m.cell(), m.cell()), BLACK)
        }),
{
    let cell = m.cell();
    let r1 = m.after_char(c, glyph);
    assert(r1.cursor_x == m.cursor_x + cell);
    assert(r1.cursor_y == m.cursor_y);
    let box_ = rect(m.cursor_x as int, m.cursor_y as int, cell, cell);
    if (c as u32) < 128 {
        let g = glyph_pixels(glyph, m.cursor_x as int, m.cursor_y as int, m.scale as int);
        assert forall|x: int, y: int| #[trigger] g(x, y) implies box_(x, y) by {
        }
        lemma_paint_covered(m.framebuffer, m.stride(), m.width as int, m.height as int, g, GREEN, box_, BLACK);
    }
}

/// A text terminal drawing into a linear framebuffer of 32-bit pixels.
pub struct Terminal {
    framebuffer: Vec<u32>,
    width: usize,
    height: usize,
    pitch: usize,
    cursor_x: usize,
    cursor_y: usize,
    scale: usize,
    shift: bool,
}

impl View for Terminal {
    type V = TerminalModel;

    closed spec fn view(&self) -> TerminalModel {
        TerminalModel {
            framebuffer: self.framebuffer@,
            width: self.width,
            height: self.height,
            pitch: self.pitch,
            cursor_x: self.cursor_x,
            cursor_y: self.cursor_y,
            scale: self.scale,
            shift: self.shift,
        }
    }
}

impl Terminal {
    /// A terminal over `framebuffer` (`width` x `height` pixels, `pitch` bytes per row), drawing
    /// each glyph bit as a `scale` x `scale` square, with the cursor at the origin.
    pub fn new(framebuffer: Vec<u32>, width: usize, height: usize, pitch: usize, scale: usize) -> (t: Self)
        ensures
            t@ == (TerminalModel {
                framebuffer: framebuffer@,
                width,
                height,
                pitch,
                cursor_x: 0,
                cursor_y: 0,
                scale,
                shift: false,
            }),
    {
        Terminal { framebuffer, width, height, pitch, cursor_x: 0, cursor_y: 0, scale, shift: false }
    }

    /// The framebuffer's pixels.
    pub fn framebuffer(&self) -> (fb: &Vec<u32>)
        ensures
            fb@ == self@.framebuffer,
    {
        &self.framebuffer
    }

    /// The cursor position in pixels.
    pub fn cursor(&self) -> (c: (usize, usize))
        ensures
            c == (self@.cursor_x, self@.cursor_y),
    {
        (self.cursor_x, self.cursor_y)
    }

    /// Paints the in-bounds pixels of the rectangle at `(x0, y0)`, `w` x `h`, with `color`.
    fn fill_rect(&mut self, x0: usize, y0: usize, w: usize, h: usize, color: u32)
        requires
            old(self)@.wf(),
            x0 + w <= usize::MAX,
            y0 + h <= usize::MAX,
        ensures
            final(self)@ == (TerminalModel {
                framebuffer: old(self)@.painted(rect(x0 as int, y0 as int, w as int, h as int), color),
                ..old(self)@
            }),
    {
        let ghost m = self@;
        let ghost sel = rect(x0 as int, y0 as int, w as int, h as int);
        let ghost stride = m.stride();
        let ghost fb0 = m.framebuffer;
        let st = self.pitch / 4;
        let x_end = x0 + w;
        let y_end = y0 + h;
        proof {
            lemma_paint_start(fb0, stride, m.width as int, m.height as int, sel, color, x0 as int, y0 as int);
        }
        let mut py = y0;
        while py < y_end
            invariant
                m == old(self)@,
                sel == rect(x0 as int, y0 as int, w as int, h as int),
                stride == m.stride(),
                st == stride,
                fb0 == m.framebuffer,
                m.wf(),
                x_end == x0 + w,
                y_end == y0 + h,
                y0 <= py <= y_end,
                self@ == (TerminalModel { framebuffer: self@.framebuffer, ..m }),
                self@.framebuffer == paint(fb0, stride, m.width as int, m.height as int, swept(sel, x0 as int, py as int), color),
            decreases y_end - py,
        {
            let mut px = x0;
            while px < x_end
                invariant
                    m == old(self)@,
                    sel == rect(x0 as int, y0 as int, w as int, h as int),
                    stride == m.stride(),
                    st == stride,
                    fb0 == m.framebuffer,
                    m.wf(),
                    x_end == x0 + w,
                    y_end == y0 + h,
                    y0 <= py < y_end,
                    x0 <= px <= x_end,
                    self@ == (TerminalModel { framebuffer: self@.framebuffer, ..m }),
                    self@.framebuffer == paint(fb0, stride, m.width as int, m.height as int, swept(sel, px as int, py as int), color),
                decreases x_end - px,
            {
                proof {
                    lemma_paint_step(fb0, self@.framebuffer, stride, m.width as int, m.height as int, sel, color, px as int, py as int);
                }
                if px < self.width && py < self.height {
                    assert(sel(px as int, py as int));
                    let len = self.framebuffer.len();
                    assert(py * st + px < len);
                    let idx = py * st + px;
                    self.framebuffer[idx] = color;
                }
                px = px + 1;
            }
            proof {
                lemma_paint_row_end(fb0, stride, m.width as int, m.height as int, sel, color, x0 as int, x_end as int, py as int);
            }
            py = py + 1;
        }
        proof {
            lemma_paint_done(fb0, stride, m.width as int, m.height as int, sel, color, x0 as int, y_end as int);
        }
    }
}


impl Terminal {
    /// Draws `glyph` at the cursor: each set bit becomes a `scale` x `scale` square of green
    /// pixels, clipped to the screen.
    pub fn draw_glyph(&mut self, glyph: [u8; 8])
        requires
            old(self)@.wf(),
            old(self)@.cursor_x + 8 * old(self)@.scale <= usize::MAX,
            old(self)@.cursor_y + 8 * old(self)@.scale <= usize::MAX,
        ensures
            final(self)@ == (TerminalModel { framebuffer: old(self)@.with_glyph(glyph@), ..old(self)@ }),
    {
        let ghost m = self@;
        let s = self.scale;
        let cx = self.cursor_x;
        let cy = self.cursor_y;
        let ghost sel = glyph_pixels(glyph@, cx as int, cy as int, s as int);
        let ghost stride = m.stride();
        let ghost fb0 = m.framebuffer;
        let st = self.pitch / 4;
        let x_end = cx + 8 * s;
        let y_end = cy + 8 * s;
        proof {
            lemma_paint_start(fb0, stride, m.width as int, m.height as int, sel, GREEN, cx as int, cy as int);
        }
        let mut py = cy;
        while py < y_end
            invariant
                m == old(self)@,
                sel == glyph_pixels(glyph@, cx as int, cy as int, s as int),
                stride == m.stride(),
                st == stride,
                fb0 == m.framebuffer,
                m.wf(),
                s == m.scale,
                cx == m.cursor_x,
                cy == m.cursor_y,
                x_end == cx + 8 * s,
                y_end == cy + 8 * s,
                cy <= py <= y_end,
                self@ == (TerminalModel { framebuffer: self@.framebuffer, ..m }),
                self@.framebuffer == paint(fb0, stride, m.width as int, m.height as int, swept(sel, cx as int, py as int), GREEN),
            decreases y_end - py,
        {
            let mut px = cx;
            while px < x_end
                invariant
                    m == old(self)@,
                    sel == glyph_pixels(glyph@, cx as int, cy as int, s as int),
                    stride == m.stride(),
                    st == stride,
                    fb0 == m.framebuffer,
                    m.wf(),
                    s == m.scale,
                    cx == m.cursor_x,
                    cy == m.cursor_y,
                    x_end == cx + 8 * s,
                    y_end == cy + 8 * s,
                    cy <= py < y_end,
                    cx <= px <= x_end,
                    self@ == (TerminalModel { framebuffer: self@.framebuffer, ..m }),
                    self@.framebuffer == paint(fb0, stride, m.width as int, m.height as int, swept(sel, px as int, py as int), GREEN),
                decreases x_end - px,
            {
                proof {
                    lemma_paint_step(fb0, self@.framebuffer, stride, m.width as int, m.height as int, sel, GREEN, px as int, py as int);
                }
                if px < self.width && py < self.height {
                    assert(s > 0) by (nonlinear_arith)
                        requires
                            cx <= px < cx + 8 * s,
                    ;
                    assert((py - cy) / (s as int) < 8) by (nonlinear_arith)
                        requires
                            s > 0,
                            cy <= py < cy + 8 * s,
                    ;
                    assert((px - cx) / (s as int) < 8) by (nonlinear_arith)
                        requires
                            s > 0,
                            cx <= px < cx + 8 * s,
                    ;
                    let row = glyph[(py - cy) / s];
                    let bit = ((px - cx) / s) as u8;
                    if (row >> bit) & 1u8 == 1u8 {
                        assert(sel(px as int, py as int));
                        let len = self.framebuffer.len();
                        assert(py * st + px < len);
                        let idx = py * st + px;
                        self.framebuffer[idx] = GREEN;
                    } else {
                        assert(!sel(px as int, py as int));
                    }
                }
                px = px + 1;
            }
            proof {
                lemma_paint_row_end(fb0, stride, m.width as int, m.height as int, sel, GREEN, cx as int, x_end as int, py as int);
            }
            py = py + 1;
        }
        proof {
            lemma_paint_done(fb0, stride, m.width as int, m.height as int, sel, GREEN, cx as int, y_end as int);
        }
    }

    /// Scrolls the screen up so that the cursor's cell fits at the bottom, or clears it when not
    /// even one cell fits.
    fn scroll(&mut self)
        requires
            old(self)@.wf(),
            old(self)@.cursor_y + old(self)@.cell() > old(self)@.height,
            old(self)@.cursor_y + old(self)@.cell() <= usize::MAX,
        ensures
            final(self)@ == old(self)@.scrolled(),
    {
        let cell = 8 * self.scale;
        let h = self.height;
        let w = self.width;
        if cell > h {
            self.clear();
            return;
        }
        let d = self.cursor_y + cell - h;
        let ghost m = self@;
        let ghost fb0 = m.framebuffer;
        let ghost stride = m.stride();
        let st = self.pitch / 4;
        if d < h {
            proof {
                assert(shift_partial(fb0, stride, w as int, h as int, d as int, 0, 0) =~= fb0);
            }
            let mut py: usize = 0;
            while py < h - d
                invariant
                    m == old(self)@,
                    m.wf(),
                    fb0 == m.framebuffer,
                    stride == m.stride(),
                    st == stride,
                    h == m.height,
                    w == m.width,
                    0 < d < h,
                    py <= h - d,
                    self@ == (TerminalModel { framebuffer: self@.framebuffer, ..m }),
                    self@.framebuffer == shift_partial(fb0, stride, w as int, h as int, d as int, 0, py as int),
                decreases h - d - py,
            {
                let mut px: usize = 0;
                proof {
                    assert(shift_partial(fb0, stride, w as int, h as int, d as int, 0, py as int) =~= shift_partial(
                        fb0,
                        stride,
                        w as int,
                        h as int,
                        d as int,
                        0,
                        py as int,
                    ));
                }
                while px < w
                    invariant
                        m == old(self)@,
                        m.wf(),
                        fb0 == m.framebuffer,
                        stride == m.stride(),
                        st == stride,
                        h == m.height,
                        w == m.width,
                        0 < d < h,
                        py < h - d,
                        px <= w,
                        self@ == (TerminalModel { framebuffer: self@.framebuffer, ..m }),
                        self@.framebuffer == shift_partial(fb0, stride, w as int, h as int, d as int, px as int, py as int),
                    decreases w - px,
                {
                    proof {
                        lemma_pixel_index(stride, h as int, fb0.len() as int, px as int, py as int);
                        lemma_pixel_index(stride, h as int, fb0.len() as int, px as int, (py + d) as int);
                        assert((py + d) * stride + px == py * stride + px + d * stride) by (nonlinear_arith);
                    }
                    let len = self.framebuffer.len();
                    assert((py + d) * st + px < len);
                    assert(py * st + px < len);
                    let src = (py + d) * st + px;
                    let dst = py * st + px;
                    let v = self.framebuffer[src];
                    self.framebuffer.set(dst, v);
                    proof {
                        let next = shift_partial(fb0, stride, w as int, h as int, d as int, px + 1, py as int);
                        assert forall|q: int| 0 <= q < fb0.len() implies #[trigger] self@.framebuffer[q] == next[q] by {
                            if q != dst {
                                if q % stride == px && q / stride == py {
                                    lemma_same_pixel(stride, q, px as int, py as int);
                                }
                            }
                        }
                        assert(self@.framebuffer =~= next);
                    }
                    px = px + 1;
                }
                proof {
                    let a = shift_partial(fb0, stride, w as int, h as int, d as int, w as int, py as int);
                    let b = shift_partial(fb0, stride, w as int, h as int, d as int, 0, py + 1);
                    assert forall|q: int| 0 <= q < a.len() implies #[trigger] a[q] == b[q] by {
                    }
                    assert(a =~= b);
                }
                py = py + 1;
            }
            self.fill_rect(0, h - d, w, d, BLACK);
            proof {
                let a = self@.framebuffer;
                let b = shifted_up(fb0, stride, w as int, h as int, d as int);
                assert forall|q: int| 0 <= q < a.len() implies #[trigger] a[q] == b[q] by {
                }
                assert(a =~= b);
            }
        } else {
            self.fill_rect(0, 0, w, h, BLACK);
            proof {
                let a = self@.framebuffer;
                let b = shifted_up(fb0, stride, w as int, h as int, d as int);
                assert forall|q: int| 0 <= q < a.len() implies #[trigger] a[q] == b[q] by {
                }
                assert(a =~= b);
            }
        }
        self.cursor_y = h - cell;
    }

    /// Paints the whole screen black and moves the cursor to the origin.
    pub fn clear(&mut self)
        requires
            old(self)@.wf(),
        ensures
            final(self)@ == old(self)@.cleared(),
    {
        let w = self.width;
        let h = self.height;
        self.fill_rect(0, 0, w, h, BLACK);
        self.cursor_x = 0;
        self.cursor_y = 0;
    }

    /// Prints one character: a newline moves to the start of the next line, a backspace erases
    /// the previous cell (or moves up to the end of the previous line), and any other character
    /// below 128 draws its glyph before the cursor advances. The screen scrolls up when the cursor
    /// runs past the bottom, keeping the lines above.
    pub fn print_char(&mut self, c: char)
        requires
            old(self)@.wf(),
            old(self)@.char_fits(c),
        ensures
            final(self)@ == old(self)@.after_char(c, TerminalModel::glyph_for(c)),
            final(self)@.wf(),
    {
        let cell = 8 * self.scale;
        if c == '\n' {
            self.cursor_x = 0;
            self.cursor_y = self.cursor_y + cell;
            return;
        }
        if c == '\x08' {
            if self.cursor_x >= cell {
                self.cursor_x = self.cursor_x - cell;
                let x = self.cursor_x;
                let y = self.cursor_y;
                self.fill_rect(x, y, cell, cell, BLACK);
            } else if self.cursor_y >= cell {
                self.cursor_y = self.cursor_y - cell;
                self.cursor_x = self.width - cell;
            }
            return;
        }
        if (c as u32) < 128 {
            let glyph = legacy_glyph(c as usize);
            self.draw_glyph(glyph);
        }
        self.cursor_x = self.cursor_x + cell;
        if self.cursor_x + cell > self.width {
            self.cursor_x = 0;
            self.cursor_y = self.cursor_y + cell;
        }
        if self.cursor_y + cell > self.height {
            self.scroll();
        }
    }

    /// Prints each character of `s` in turn.
    pub fn print(&mut self, s: &str)
        requires
            old(self)@.wf(),
            old(self)@.chars_fit(s@),
        ensures
            final(self)@ == old(self)@.after_chars(s@),
            final(self)@.wf(),
    {
        broadcast use vstd::string::axiom_spec_iter;
        let ghost chars = s@;
        assert(chars.skip(0) =~= chars);
        for c in it: s.chars()
            invariant
                chars == s@,
                it.seq() == chars,
                self@.wf(),
                self@.after_chars(chars.skip(it.index() as int)) == old(self)@.after_chars(chars),
                self@.chars_fit(chars.skip(it.index() as int)),
        {
            let ghost i = it.index() as int;
            proof {
                assert(chars.skip(i)[0] == c);
                assert(chars.skip(i).drop_first() =~= chars.skip(i + 1));
            }
            self.print_char(c);
        }
        proof {
            assert(chars.skip(chars.len() as int) =~= Seq::<char>::empty());
        }
    }

    /// Whether printing `c` keeps the cursor arithmetic within `usize`.
    pub fn can_print_char(&self, c: char) -> (b: bool)
        ensures
            b == self@.char_fits(c),
    {
        Self::char_fits_at(self.cursor_x, self.cursor_y, self.width, self.scale, c)
    }

    fn char_fits_at(x: usize, y: usize, width: usize, scale: usize, c: char) -> (b: bool)
        ensures
            b == (x + 16 * scale <= usize::MAX && y + 16 * scale <= usize::MAX && ((c == '\x08' && x < 8
                * scale && y >= 8 * scale) ==> width >= 8 * scale)),
    {
        let s16 = match scale.checked_mul(16) {
            Some(v) => v,
            None => return false,
        };
        if x.checked_add(s16).is_none() || y.checked_add(s16).is_none() {
            return false;
        }
        let cell = 8 * scale;
        if c == '\x08' && x < cell && y >= cell {
            width >= cell
        } else {
            true
        }
    }

    /// Whether printing `s` keeps the cursor arithmetic within `usize` at every character.
    pub fn can_print(&self, s: &str) -> (b: bool)
        ensures
            b == self@.chars_fit(s@),
    {
        broadcast use vstd::string::axiom_spec_iter;
        let ghost chars = s@;
        let ghost mut m = self@;
        let mut x = self.cursor_x;
        let mut y = self.cursor_y;
        let w = self.width;
        let h = self.height;
        let sc = self.scale;
        assert(chars.skip(0) =~= chars);
        for c in it: s.chars()
            invariant
                chars == s@,
                it.seq() == chars,
                m.width == w,
                m.height == h,
                m.scale == sc,
                m.cursor_x == x,
                m.cursor_y == y,
                self@.chars_fit(chars) == m.chars_fit(chars.skip(it.index() as int)),
        {
            let ghost i = it.index() as int;
            proof {
                assert(chars.skip(i)[0] == c);
                assert(chars.skip(i).drop_first() =~= chars.skip(i + 1));
            }
            if !Self::char_fits_at(x, y, w, sc, c) {
                return false;
            }
            let cell = 8 * sc;
            if c == '\n' {
                x = 0;
                y = y + cell;
            } else if c == '\x08' {
                if x >= cell {
                    x = x - cell;
                } else if y >= cell {
                    y = y - cell;
                    x = w - cell;
                }
            } else {
                x = x + cell;
                if x + cell > w {
                    x = 0;
                    y = y + cell;
                }
                if y + cell > h {
                    if cell <= h {
                        y = h - cell;
                    } else {
                        x = 0;
                        y = 0;
                    }
                }
            }
            proof {
                m = m.after_char(c, TerminalModel::glyph_for(c));
            }
        }
        proof {
            assert(chars.skip(chars.len() as int) =~= Seq::<char>::empty());
        }
        true
    }
}


/// Scancode (set 1) to ASCII, without shift.
pub const SCANCODE_TO_ASCII: [u8; 122] = [
    0, 27, 49, 50, 51, 52, 53, 54, 55, 56, 57, 48, 45, 61, 8,
    9, 113, 119, 101, 114, 116, 121, 117, 105, 111, 112, 91, 93, 10,
    0, 97, 115, 100, 102, 103, 104, 106, 107, 108, 59, 39, 96, 0, 92,
    122, 120, 99, 118, 98, 110, 109, 44, 46, 47, 0, 42, 0, 32, 0, 0, 0,
    0, 0, 0, 0, 0, 0, 0, 0, 0, 0, 0, 0, 0, 0, 0, 0, 0, 0, 0, 0, 0, 0, 0, 0, 0, 0, 0, 0, 0,
    0, 0, 0, 0, 0, 0, 0, 0, 0, 0, 0, 0, 0, 0, 0, 0, 0, 0, 0, 0, 0, 0, 0, 0, 0, 0, 0, 0, 0,
    0, 0, 0,
];

/// Scancode (set 1) to ASCII, with shift held.
pub const SCANCODE_TO_ASCII_SHIFT: [u8; 122] = [
    0, 27, 33, 64, 35, 36, 37, 94, 38, 42, 40, 41, 95, 43, 8,
    9, 81, 87, 69, 82, 84, 89, 85, 73, 79, 80, 123, 125, 10,
    0, 65, 83, 68, 70, 71, 72, 74, 75, 76, 58, 34, 126, 0, 124,
    90, 88, 67, 86, 66, 78, 77, 60, 62, 63, 0, 42, 0, 32, 0, 0, 0,
    0, 0, 0, 0, 0, 0, 0, 0, 0, 0, 0, 0, 0, 0, 0, 0, 0, 0, 0, 0, 0, 0, 0, 0, 0, 0, 0, 0, 0,
    0, 0, 0, 0, 0, 0, 0, 0, 0, 0, 0, 0, 0, 0, 0, 0, 0, 0, 0, 0, 0, 0, 0, 0, 0, 0, 0, 0, 0,
    0, 0, 0,
];

/// The ASCII code of a make scancode below 122, 0 when the key produces none.
pub open spec fn key_ascii(shift: bool, scancode: u8) -> u8 {
    if shift {
        SCANCODE_TO_ASCII_SHIFT@[scancode as int]
    } else {
        SCANCODE_TO_ASCII@[scancode as int]
    }
}

/// Make codes of the two shift keys.
pub open spec fn is_shift_press(scancode: u8) -> bool {
    scancode == 0x2A || scancode == 0x36
}

/// Break codes of the two shift keys.
pub open spec fn is_shift_release(scancode: u8) -> bool {
    scancode == 0xAA || scancode == 0xB6
}

impl Terminal {
    /// Whether shift is held.
    pub fn shift(&self) -> (b: bool)
        ensures
            b == self@.shift,
    {
        self.shift
    }

    /// Interprets one scancode read from the keyboard controller: shift presses and releases
    /// update the shift state, and a make code below 122 yields its ASCII character when it has
    /// one. A repeated scancode (a key held down) yields its character again.
    pub fn decode_scancode(&mut self, scancode: u8) -> (r: Option<char>)
        ensures
            is_shift_press(scancode) ==> r is None && final(self)@ == (TerminalModel { shift: true, ..old(self)@ }),
            is_shift_release(scancode) ==> r is None && final(self)@ == (TerminalModel { shift: false, ..old(self)@ }),
            !is_shift_press(scancode) && !is_shift_release(scancode) ==> {
                &&& final(self)@ == old(self)@
                &&& r == if scancode < 122 && key_ascii(old(self)@.shift, scancode) != 0 {
                    Some(key_ascii(old(self)@.shift, scancode) as char)
                } else {
                    None
                }
            },
    {
        if scancode == 0x2A || scancode == 0x36 {
            self.shift = true;
            None
        } else if scancode == 0xAA || scancode == 0xB6 {
            self.shift = false;
            None
        } else if scancode < 122 {
            let c = if self.shift {
                SCANCODE_TO_ASCII_SHIFT[scancode as usize]
            } else {
                SCANCODE_TO_ASCII[scancode as usize]
            };
            if c != 0 {
                Some(c as char)
            } else {
                None
            }
        } else {
            None
        }
    }
}


/// What one typed character does to the shell's input line.
#[derive(Debug, Clone, Copy, PartialEq, Eq, Structural)]
pub enum LineEdit {
    /// The line is complete: echo a newline and run it.
    Submit,
    /// The last character was removed: echo the backspace.
    Erase,
    /// The character was appended: echo it.
    Insert,
    /// A backspace on an empty line: nothing happens.
    Ignore,
}

/// Applies one typed character to the input line.
pub fn edit_line(input: &mut Vec<char>, c: char) -> (e: LineEdit)
    ensures
        c == '\n' ==> e == LineEdit::Submit && final(input)@ == old(input)@,
        c == '\x08' && old(input)@.len() > 0 ==> e == LineEdit::Erase && final(input)@ == old(input)@.drop_last(),
        c == '\x08' && old(input)@.len() == 0 ==> e == LineEdit::Ignore && final(input)@ == old(input)@,
        c != '\n' && c != '\x08' ==> e == LineEdit::Insert && final(input)@ == old(input)@.push(c),
{
    if c == '\n' {
        LineEdit::Submit
    } else if c == '\x08' {
        if input.len() > 0 {
            input.pop();
            LineEdit::Erase
        } else {
            LineEdit::Ignore
        }
    } else {
        input.push(c);
        LineEdit::Insert
    }
}

/// Typing a character and then a backspace leaves the input line as it was.
pub proof fn lemma_insert_then_erase(line: Seq<char>, c: char)
    requires
        c != '\n',
        c != '\x08',
    ensures
        line.push(c).len() > 0,
        line.push(c).drop_last() == line,
{
    assert(line.push(c).drop_last() =~= line);
}

/// A shell command line, parsed.
#[derive(Debug, PartialEq, Eq)]
pub enum ShellCommand {
    /// `help`: list the commands.
    Help,
    /// `echo <text>`: print the text after `echo `.
    Echo(Vec<char>),
    /// `clear`: clear the screen.
    Clear,
    /// `reboot`: reset the machine.
    Reboot,
    /// Any other non-empty line.
    Unknown,
    /// The empty line.
    Empty,
}

pub open spec fn help_word() -> Seq<char> {
    seq!['h', 'e', 'l', 'p']
}

pub open spec fn echo_prefix() -> Seq<char> {
    seq!['e', 'c', 'h', 'o', ' ']
}

pub open spec fn clear_word() -> Seq<char> {
    seq!['c', 'l', 'e', 'a', 'r']
}

pub open spec fn reboot_word() -> Seq<char> {
    seq!['r', 'e', 'b', 'o', 'o', 't']
}

fn starts_with(line: &[char], prefix: &[char]) -> (b: bool)
    ensures
        b == prefix@.is_prefix_of(line@),
{
    if prefix.len() > line.len() {
        return false;
    }
    let mut i: usize = 0;
    while i < prefix.len()
        invariant
            i <= prefix@.len() <= line@.len(),
            forall|j: int| 0 <= j < i ==> prefix@[j] == line@[j],
        decreases prefix@.len() - i,
    {
        if prefix[i] != line[i] {
            return false;
        }
        i = i + 1;
    }
    assert(prefix@ =~= line@.subrange(0, prefix@.len() as int));
    true
}

fn equals(line: &[char], word: &[char]) -> (b: bool)
    ensures
        b == (line@ == word@),
{
    if line.len() != word.len() {
        return false;
    }
    let r = starts_with(line, word);
    if r {
        assert(line@ =~= word@);
    }
    r
}

/// Parses a shell line: the exact words `help`, `clear` and `reboot`, the prefix `echo `
/// (whose text is the rest of the line), any other non-empty line, or the empty line.
pub fn parse_command(line: &[char]) -> (cmd: ShellCommand)
    ensures
        line@ == help_word() ==> cmd == ShellCommand::Help,
        line@ != help_word() && echo_prefix().is_prefix_of(line@) ==> match cmd {
            ShellCommand::Echo(text) => text@ == line@.skip(5),
            _ => false,
        },
        line@ != help_word() && !echo_prefix().is_prefix_of(line@) ==> {
            &&& line@ == clear_word() ==> cmd == ShellCommand::Clear
            &&& line@ == reboot_word() ==> cmd == ShellCommand::Reboot
            &&& line@ != clear_word() && line@ != reboot_word() && line@.len() > 0 ==> cmd == ShellCommand::Unknown
            &&& line@.len() == 0 ==> cmd == ShellCommand::Empty
        },
{
    let help: [char; 4] = ['h', 'e', 'l', 'p'];
    let echo: [char; 5] = ['e', 'c', 'h', 'o', ' '];
    let clear: [char; 5] = ['c', 'l', 'e', 'a', 'r'];
    let reboot: [char; 6] = ['r', 'e', 'b', 'o', 'o', 't'];
    assert(help@ =~= help_word());
    assert(echo@ =~= echo_prefix());
    assert(clear@ =~= clear_word());
    assert(reboot@ =~= reboot_word());
    if equals(line, &help) {
        ShellCommand::Help
    } else if starts_with(line, &echo) {
        let mut text: Vec<char> = Vec::new();
        let mut i: usize = 5;
        while i < line.len()
            invariant
                5 <= i <= line@.len(),
                text@ == line@.subrange(5, i as int),
            decreases line@.len() - i,
        {
            text.push(line[i]);
            i = i + 1;
            assert(text@ =~= line@.subrange(5, i as int));
        }
        ShellCommand::Echo(text)
    } else if equals(line, &clear) {
        ShellCommand::Clear
    } else if equals(line, &reboot) {
        ShellCommand::Reboot
    } else if line.len() > 0 {
        ShellCommand::Unknown
    } else {
        ShellCommand::Empty
    }
}

/// What the shell does after a command line.
#[derive(Debug, PartialEq, Eq)]
pub enum ShellAction {
    /// Print this text.
    Print(Vec<char>),
    /// Clear the screen.
    Clear,
    /// Print this text, then reset the machine.
    Reboot(Vec<char>),
    /// Do nothing.
    Nothing,
}

/// The text the `help` command prints.
pub open spec fn help_text() -> Seq<char> {
    "Available commands:\n  help  - Show this help message\n  echo  - Echo back input\n  clear - Clear the screen\n  reboot- Reboot the system\n"@
}

/// The characters of `s`.
fn chars_of(s: &str) -> (v: Vec<char>)
    ensures
        v@ == s@,
{
    broadcast use vstd::string::axiom_spec_iter;
    let mut v: Vec<char> = Vec::new();
    for c in it: s.chars()
        invariant
            it.seq() == s@,
            v@ == s@.take(it.index() as int),
    {
        proof {
            assert(s@.take(it.index() + 1) =~= s@.take(it.index() as int).push(c));
        }
        v.push(c);
    }
    assert(s@.take(s@.len() as int) =~= s@);
    v
}

/// The line the shell prints when it starts.
pub fn shell_greeting() -> (v: Vec<char>)
    ensures
        v@ == "Welcome to MonarchOS!\n"@,
{
    chars_of("Welcome to MonarchOS!\n")
}

/// The prompt the shell prints before reading each line.
pub fn shell_prompt() -> (v: Vec<char>)
    ensures
        v@ == "> "@,
{
    chars_of("> ")
}

/// What the shell does for the command parsed from `line`: `help` prints the command list,
/// `echo` prints its text and a newline, `clear` clears the screen, `reboot` prints a notice and
/// resets the machine, an unknown line is reported back, and an empty line does nothing.
pub fn shell_action(cmd: &ShellCommand, line: &[char]) -> (a: ShellAction)
    ensures
        match *cmd {
            ShellCommand::Help => a matches ShellAction::Print(t) && t@ == help_text(),
            ShellCommand::Echo(text) => a matches ShellAction::Print(t) && t@ == text@ + "\n"@,
            ShellCommand::Clear => a == ShellAction::Clear,
            ShellCommand::Reboot => a matches ShellAction::Reboot(t) && t@ == "Rebooting...\n"@,
            ShellCommand::Unknown => a matches ShellAction::Print(t) && t@ == "Unknown command: "@ + line@
                + "\n"@,
            ShellCommand::Empty => a == ShellAction::Nothing,
        },
{
    match cmd {
        ShellCommand::Help => ShellAction::Print(
            chars_of(
                "Available commands:\n  help  - Show this help message\n  echo  - Echo back input\n  clear - Clear the screen\n  reboot- Reboot the system\n",
            ),
        ),
        ShellCommand::Echo(text) => {
            let mut t: Vec<char> = Vec::new();
            let mut i: usize = 0;
            while i < text.len()
                invariant
                    i <= text@.len(),
                    t@ == text@.take(i as int),
                decreases text@.len() - i,
            {
                t.push(text[i]);
                i = i + 1;
                assert(t@ =~= text@.take(i as int));
            }
            assert(text@.take(text@.len() as int) =~= text@);
            let mut nl = chars_of("\n");
            t.append(&mut nl);
            ShellAction::Print(t)
        },
        ShellCommand::Clear => ShellAction::Clear,
        ShellCommand::Reboot => ShellAction::Reboot(chars_of("Rebooting...\n")),
        ShellCommand::Unknown => {
            let mut t = chars_of("Unknown command: ");
            let ghost head = t@;
            let mut i: usize = 0;
            while i < line.len()
                invariant
                    i <= line@.len(),
                    t@ == head + line@.take(i as int),
                decreases line@.len() - i,
            {
                t.push(line[i]);
                i = i + 1;
                assert(t@ =~= head + line@.take(i as int));
            }
            assert(line@.take(line@.len() as int) =~= line@);
            let mut nl = chars_of("\n");
            t.append(&mut nl);
            ShellAction::Print(t)
        },
        ShellCommand::Empty => ShellAction::Nothing,
    }
}

} // verus!
