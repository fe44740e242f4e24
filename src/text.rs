//! Text layout: the width policy that places characters, and compositing of
//! rasterised glyph coverage maps in the text colour.
use vstd::prelude::*;
use vstd::arithmetic::div_mod::{lemma_fundamental_div_mod, lemma_fundamental_div_mod_converse};

use crate::blit::{CanvasError, in_rect};
use crate::canvas::{
    RGBABufferBase,
    lemma_pixel_coords,
    lemma_pixel_index,
    lemma_put_pixel,
    pixel_at,
};
use crate::color::{Rgba, blend};

verus! {

/// The column width that `unicode_width` gives a character: `None` for
/// control characters, 1 for narrow ones, 2 for wide ones.
pub uninterp spec fn unicode_width_of(c: char) -> Option<usize>;

/// Relies on unicode_width::UnicodeWidthChar::width, whose result depends on
/// the character alone.
#[verifier::external_body]
fn char_width(c: char) -> (r: Option<usize>)
    ensures
        r == unicode_width_of(c),
{
    unicode_width::UnicodeWidthChar::width(c)
}

/// How far a character of column width `width` moves the pen: half the font
/// size for a narrow character (width 1), the full size for any other.
pub open spec fn advance_of(width: Option<usize>, font_size: nat) -> nat {
    if width == Some(1usize) {
        font_size / 2
    } else {
        font_size
    }
}

/// The total advance of `s` at `font_size`.
pub open spec fn text_width(s: Seq<char>, font_size: nat) -> nat
    decreases s.len(),
{
    if s.len() == 0 {
        0
    } else {
        text_width(s.drop_last(), font_size) + advance_of(unicode_width_of(s.last()), font_size)
    }
}

/// The pen advance for a character of column width `width`.
pub fn advance_for_width(width: Option<usize>, font_size: usize) -> (r: usize)
    ensures
        r == advance_of(width, font_size as nat),
{
    match width {
        Some(1) => font_size / 2,
        _ => font_size,
    }
}

proof fn lemma_text_width_bound(s: Seq<char>, font_size: nat)
    ensures
        text_width(s, font_size) <= s.len() * font_size,
    decreases s.len(),
{
    if s.len() > 0 {
        lemma_text_width_bound(s.drop_last(), font_size);
        assert((s.len() - 1) * font_size + font_size == s.len() * font_size) by (nonlinear_arith);
    }
}

/// A rasterised glyph: a `width` by `height` coverage map (0 for none, 255
/// for full, row by row from the top) and the offsets of its left and bottom
/// edges from the pen position and the baseline.
pub struct Glyph {
    pub xmin: i32,
    pub ymin: i32,
    pub width: usize,
    pub height: usize,
    pub coverage: Vec<u8>,
}

impl Glyph {
    /// The coverage map holds one byte per pixel.
    pub open spec fn wf(&self) -> bool {
        &&& self.coverage@.len() == self.width * self.height
        &&& self.width <= i32::MAX
        &&& self.height <= i32::MAX
    }

    /// The glyph with these metrics and coverage map, or `InvalidDimensions`
    /// when the map does not hold one byte per pixel.
    pub fn new(xmin: i32, ymin: i32, width: usize, height: usize, coverage: Vec<u8>) -> (r: Result<
        Glyph,
        CanvasError,
    >)
        ensures
            (coverage@.len() == width * height && width <= i32::MAX && height <= i32::MAX) <==> r is Ok,
            r matches Ok(g) ==> g.wf() && g.xmin == xmin && g.ymin == ymin && g.width == width
                && g.height == height && g.coverage@ == coverage@,
            r matches Err(e) ==> e == CanvasError::InvalidDimensions,
    {
        if width > i32::MAX as usize || height > i32::MAX as usize {
            return Err(CanvasError::InvalidDimensions);
        }
        assert(width * height <= 0x7fff_ffff * 0x7fff_ffff) by (nonlinear_arith)
            requires
                width <= 0x7fff_ffff,
                height <= 0x7fff_ffff,
        ;
        if coverage.len() as u64 == width as u64 * height as u64 {
            Ok(Glyph { xmin, ymin, width, height, coverage })
        } else {
            Err(CanvasError::InvalidDimensions)
        }
    }
}

/// The colour a glyph pixel of coverage `cov` is composited with: the text
/// colour with its alpha scaled by `cov / 255`.
pub open spec fn glyph_color(color: Rgba, cov: u8) -> Rgba {
    (color.0, color.1, color.2, (cov as int * color.3 as int / 255) as u8)
}

/// The coverage a glyph with its top-left corner at `(left, top)` gives the
/// point `(px, py)` inside its box.
pub open spec fn glyph_cov(g: &Glyph, left: int, top: int, px: int, py: int) -> u8 {
    g.coverage@[(py - top) * g.width + (px - left)]
}

/// Whether that glyph covers `(px, py)` at all.
pub open spec fn glyph_covers(g: &Glyph, left: int, top: int, px: int, py: int) -> bool {
    in_rect(left, top, g.width as int, g.height as int, px, py) && glyph_cov(g, left, top, px, py) > 0
}

/// `after` is `before` with the glyph `g` composited at top-left `(left,
/// top)`: each covered pixel blended with the glyph colour, the rest kept.
#[verifier::opaque]
pub open spec fn stamped(
    before: Seq<u8>,
    after: Seq<u8>,
    w: int,
    h: int,
    g: &Glyph,
    left: int,
    top: int,
    color: Rgba,
) -> bool {
    &&& after.len() == before.len()
    &&& forall|j: int|
        0 <= j < w * h ==> #[trigger] pixel_at(after, j) == (if glyph_covers(
            g,
            left,
            top,
            j % w,
            j / w,
        ) {
            blend(glyph_color(color, glyph_cov(g, left, top, j % w, j / w)), pixel_at(before, j))
        } else {
            pixel_at(before, j)
        })
}

/// The glyph pixel of rectangle index `k` and the canvas pixel `j` are the
/// same point exactly when `j` lies in the box with that index.
proof fn lemma_box_index(w: int, h: int, left: int, top: int, gw: int, gh: int, j: int, k: int)
    requires
        0 <= j < w * h,
        w > 0,
        gw > 0,
        0 <= k,
    ensures
        (in_rect(left, top, gw, gh, j % w, j / w) && (j / w - top) * gw + (j % w - left) == k) <==> (
        in_rect(left, top, gw, gh, j % w, j / w) && j % w == left + k % gw && j / w == top + k / gw),
{
    lemma_fundamental_div_mod(k, gw);
    if in_rect(left, top, gw, gh, j % w, j / w) && (j / w - top) * gw + (j % w - left) == k {
        lemma_fundamental_div_mod_converse(k, gw, j / w - top, j % w - left);
    }
    if in_rect(left, top, gw, gh, j % w, j / w) && j % w == left + k % gw && j / w == top + k / gw {
        assert((j / w - top) * gw == (k / gw) * gw);
        assert((k / gw) * gw == gw * (k / gw)) by (nonlinear_arith);
    }
}

impl RGBABufferBase {
    /// Composites glyph `g` with its top-left corner at `(left, top)`: each
    /// pixel of non-zero coverage on the grid is blended with `color`, its
    /// alpha scaled by the coverage.
    pub fn draw_glyph(&mut self, g: &Glyph, left: i128, top: i128, color: Rgba)
        requires
            old(self).wf(),
            g.wf(),
            -0x1_0000_0000_0000_0000_0000 <= left <= 0x1_0000_0000_0000_0000_0000,
            -0x1_0000_0000_0000_0000_0000 <= top <= 0x1_0000_0000_0000_0000_0000,
        ensures
            final(self).wf(),
            final(self).same_settings(old(self)),
            stamped(
                old(self).bytes(),
                final(self).bytes(),
                old(self).width as int,
                old(self).height as int,
                g,
                left as int,
                top as int,
                color,
            ),
    {
        let ghost orig = self.bytes();
        let ghost w = self.width as int;
        let ghost h = self.height as int;
        let gw = g.width;
        let gh = g.height;
        let n = g.coverage.len();
        let mut k: usize = 0;
        while k < n
            invariant
                self.wf(),
                self.same_settings(old(self)),
                orig == old(self).bytes(),
                w == self.width,
                h == self.height,
                g.wf(),
                gw == g.width,
                gh == g.height,
                n == gw * gh,
                -0x1_0000_0000_0000_0000_0000 <= left <= 0x1_0000_0000_0000_0000_0000,
                -0x1_0000_0000_0000_0000_0000 <= top <= 0x1_0000_0000_0000_0000_0000,
                0 <= k <= n,
                forall|j: int|
                    0 <= j < w * h ==> #[trigger] pixel_at(self.bytes(), j) == (if glyph_covers(
                        g,
                        left as int,
                        top as int,
                        j % w,
                        j / w,
                    ) && (j / w - top) * gw + (j % w - left) < k {
                        blend(
                            glyph_color(color, glyph_cov(g, left as int, top as int, j % w, j / w)),
                            pixel_at(orig, j),
                        )
                    } else {
                        pixel_at(orig, j)
                    }),
            decreases n - k,
        {
            assert(gw > 0) by (nonlinear_arith)
                requires
                    k < n,
                    n == gw * gh,
            ;
            proof {
                lemma_pixel_coords(gw as int, gh as int, k as int);
            }
            let ix = k % gw;
            let iy = k / gw;
            let px = left + ix as i128;
            let py = top + iy as i128;
            let cov = g.coverage[k];
            if cov > 0 && 0 <= px && px < self.width as i128 && 0 <= py && py < self.height as i128 {
                assert(cov as u32 * color.3 as u32 <= 255 * 255) by (nonlinear_arith)
                    requires
                        cov <= 255,
                        color.3 <= 255,
                ;
                let alpha = (cov as u32 * color.3 as u32 / 255) as u8;
                let ghost before = self.bytes();
                self.unsafe_point(px as i32, py as i32, color.0, color.1, color.2, alpha);
                proof {
                    let j0 = py * w + px;
                    lemma_pixel_index(w, h, px as int, py as int);
                    lemma_put_pixel(
                        before,
                        j0,
                        blend((color.0, color.1, color.2, alpha), pixel_at(before, j0)),
                    );
                    assert forall|j: int| 0 <= j < w * h implies #[trigger] pixel_at(self.bytes(), j)
                        == (if glyph_covers(g, left as int, top as int, j % w, j / w) && (j / w - top)
                        * gw + (j % w - left) < k + 1 {
                        blend(
                            glyph_color(color, glyph_cov(g, left as int, top as int, j % w, j / w)),
                            pixel_at(orig, j),
                        )
                    } else {
                        pixel_at(orig, j)
                    }) by {
                        lemma_box_index(w, h, left as int, top as int, gw as int, gh as int, j, k as int);
                        lemma_pixel_coords(w, h, j);
                        if j != j0 {
                            assert(pixel_at(self.bytes(), j) == pixel_at(before, j));
                        }
                    }
                }
            } else {
                proof {
                    assert forall|j: int| 0 <= j < w * h implies #[trigger] pixel_at(self.bytes(), j)
                        == (if glyph_covers(g, left as int, top as int, j % w, j / w) && (j / w - top)
                        * gw + (j % w - left) < k + 1 {
                        blend(
                            glyph_color(color, glyph_cov(g, left as int, top as int, j % w, j / w)),
                            pixel_at(orig, j),
                        )
                    } else {
                        pixel_at(orig, j)
                    }) by {
                        lemma_box_index(w, h, left as int, top as int, gw as int, gh as int, j, k as int);
                        lemma_pixel_coords(w, h, j);
                    }
                }
            }
            k = k + 1;
        }
        proof {
            reveal(stamped);
            assert forall|j: int| 0 <= j < w * h implies #[trigger] pixel_at(self.bytes(), j) == (
            if glyph_covers(g, left as int, top as int, j % w, j / w) {
                blend(
                    glyph_color(color, glyph_cov(g, left as int, top as int, j % w, j / w)),
                    pixel_at(orig, j),
                )
            } else {
                pixel_at(orig, j)
            }) by {
                if glyph_covers(g, left as int, top as int, j % w, j / w) {
                    let px = j % w;
                    let py = j / w;
                    assert((py - top) * gw + (px - left) < gw * gh) by (nonlinear_arith)
                        requires
                            0 <= px - left < gw,
                            0 <= py - top < gh,
                    ;
                }
            }
        }
    }

    /// The width and height `text` takes at the current font size: each
    /// narrow character advances half the size, every other the full size.
    pub fn text_metrics(&self, text: &str) -> (r: (usize, usize))
        requires
            text@.len() * self.text_font_size <= usize::MAX,
        ensures
            r.0 == text_width(text@, self.text_font_size as nat),
            r.1 == self.text_font_size,
    {
        let size = self.text_font_size;
        let mut width: usize = 0;
        let ghost mut done: Seq<char> = Seq::empty();
        for ch in it: text.chars()
            invariant
                size == self.text_font_size,
                text@.len() * size <= usize::MAX,
                it.seq() == text@,
                done == text@.take(it.index() as int),
                width == text_width(done, size as nat),
        {
            proof {
                assert(done.push(ch).drop_last() == done);
                lemma_text_width_bound(done.push(ch), size as nat);
                assert(done.push(ch).len() <= text@.len());
                assert(done.push(ch).len() * size <= text@.len() * size) by (nonlinear_arith)
                    requires
                        done.push(ch).len() <= text@.len(),
            ;
            }
            width = width + advance_for_width(char_width(ch), size);
            proof {
                let prev = done;
                done = done.push(ch);
                assert(done.drop_last() == prev);
                assert(done =~= text@.take(it.index() + 1));
            }
        }
        assert(done =~= text@);
        (width, size)
    }

    /// Draws `text` with its top edge at `y`, starting at pen position `x`,
    /// and returns its width and height as `text_metrics` does. `glyphs`
    /// holds the rasterised glyph of each character at the current font size;
    /// glyph `i` is placed bottom-aligned, its bottom at `y + font_size` less
    /// its bottom offset, and its pixels are composited in the text colour
    /// with the alpha scaled by their coverage.
    pub fn text(&mut self, x: i32, y: i32, text: &str, glyphs: &Vec<Glyph>) -> (r: (usize, usize))
        requires
            old(self).wf(),
            glyphs@.len() == text@.len(),
            forall|i: int| 0 <= i < glyphs@.len() ==> (#[trigger] glyphs@[i]).wf(),
            text@.len() * old(self).text_font_size <= usize::MAX,
        ensures
            final(self).wf(),
            final(self).same_settings(old(self)),
            r.0 == text_width(text@, old(self).text_font_size as nat),
            r.1 == old(self).text_font_size,
            exists|states: Seq<Seq<u8>>|
                {
                    &&& states.len() == text@.len() + 1
                    &&& states[0] == old(self).bytes()
                    &&& states.last() == final(self).bytes()
                    &&& #[trigger] stamped_chain(
                        states,
                        old(self).width as int,
                        old(self).height as int,
                        glyphs@,
                        text@,
                        x as int,
                        y as int,
                        old(self).text_font_size as nat,
                        old(self).text_color,
                        text@.len() as int,
                    )
                },
    {
        let size = self.text_font_size;
        let color = self.text_color;
        let ghost w = self.width as int;
        let ghost h = self.height as int;
        let advances = char_advances(text, size);
        let n = advances.len();
        let mut width: usize = 0;
        let mut i: usize = 0;
        let ghost mut states: Seq<Seq<u8>> = seq![self.bytes()];
        proof {
            reveal(stamped_chain);
        }
        while i < n
            invariant
                self.wf(),
                self.same_settings(old(self)),
                size == self.text_font_size,
                color == self.text_color,
                w == self.width,
                h == self.height,
                n == text@.len(),
                glyphs@.len() == n,
                forall|m: int| 0 <= m < glyphs@.len() ==> (#[trigger] glyphs@[m]).wf(),
                forall|m: int|
                    0 <= m < n ==> #[trigger] advances@[m] == advance_of(
                        unicode_width_of(text@[m]),
                        size as nat,
                    ),
                advances@.len() == n,
                n * size <= usize::MAX,
                0 <= i <= n,
                width == text_width(text@.take(i as int), size as nat),
                width <= i * size,
                states.len() == i + 1,
                states[0] == old(self).bytes(),
                states.last() == self.bytes(),
                stamped_chain(states, w, h, glyphs@, text@, x as int, y as int, size as nat, color, i as int),
            decreases n - i,
        {
            proof {
                assert((i + 1) * size <= n * size) by (nonlinear_arith)
                    requires
                        i < n,
                ;
                assert((i + 1) * size == i * size + size) by (nonlinear_arith);
                lemma_text_width_step(text@, size as nat, i as int);
            }
            let g = &glyphs[i];
            let left = x as i128 + width as i128 + g.xmin as i128;
            let top = y as i128 + size as i128 - g.height as i128 - g.ymin as i128;
            let ghost before = self.bytes();
            self.draw_glyph(g, left, top, color);
            proof {
                lemma_chain_extend(states, self.bytes(), w, h, glyphs@, text@, x as int, y as int, size as nat, color, i as int);
                states = states.push(self.bytes());
            }
            width = width + advances[i];
            i = i + 1;
        }
        proof {
            assert(text@.take(n as int) =~= text@);
        }
        (width, size)
    }
}

/// The advance of each character of `text` at `size`.
fn char_advances(text: &str, size: usize) -> (r: Vec<usize>)
    ensures
        r@.len() == text@.len(),
        forall|m: int|
            0 <= m < text@.len() ==> #[trigger] r@[m] == advance_of(unicode_width_of(text@[m]), size as nat),
{
    let mut r: Vec<usize> = Vec::new();
    for ch in it: text.chars()
        invariant
            it.seq() == text@,
            r@.len() == it.index(),
            forall|m: int|
                0 <= m < r@.len() ==> #[trigger] r@[m] == advance_of(unicode_width_of(text@[m]), size as nat),
    {
        r.push(advance_for_width(char_width(ch), size));
    }
    r
}

/// The pen position of character `i` advances by that character's width.
proof fn lemma_text_width_step(s: Seq<char>, size: nat, i: int)
    requires
        0 <= i < s.len(),
    ensures
        text_width(s.take(i + 1), size) == text_width(s.take(i), size) + advance_of(
            unicode_width_of(s[i]),
            size,
        ),
        advance_of(unicode_width_of(s[i]), size) <= size,
{
    assert(s.take(i + 1).drop_last() =~= s.take(i));
}

/// `states[m + 1]` is `states[m]` with glyph `m` of `text` composited at its
/// place, for each `m < upto`.
#[verifier::opaque]
pub open spec fn stamped_chain(
    states: Seq<Seq<u8>>,
    w: int,
    h: int,
    glyphs: Seq<Glyph>,
    text: Seq<char>,
    x: int,
    y: int,
    size: nat,
    color: Rgba,
    upto: int,
) -> bool {
    forall|m: int|
        #![trigger states[m]]
        0 <= m < upto ==> stamped(
            states[m],
            states[m + 1],
            w,
            h,
            &glyphs[m],
            x + text_width(text.take(m), size) + glyphs[m].xmin,
            y + size - glyphs[m].height - glyphs[m].ymin,
            color,
        )
}

proof fn lemma_chain_extend(
    states: Seq<Seq<u8>>,
    next: Seq<u8>,
    w: int,
    h: int,
    glyphs: Seq<Glyph>,
    text: Seq<char>,
    x: int,
    y: int,
    size: nat,
    color: Rgba,
    i: int,
)
    requires
        states.len() == i + 1,
        0 <= i < glyphs.len(),
        stamped_chain(states, w, h, glyphs, text, x, y, size, color, i),
        stamped(
            states.last(),
            next,
            w,
            h,
            &glyphs[i],
            x + text_width(text.take(i), size) + glyphs[i].xmin,
            y + size - glyphs[i].height - glyphs[i].ymin,
            color,
        ),
    ensures
        stamped_chain(states.push(next), w, h, glyphs, text, x, y, size, color, i + 1),
{
    reveal(stamped_chain);
    let s2 = states.push(next);
    assert forall|m: int| #![trigger s2[m]] 0 <= m < i + 1 implies stamped(
        s2[m],
        s2[m + 1],
        w,
        h,
        &glyphs[m],
        x + text_width(text.take(m), size) + glyphs[m].xmin,
        y + size - glyphs[m].height - glyphs[m].ymin,
        color,
    ) by {
        if m < i {
            assert(states[m] == s2[m]);
            assert(states[m + 1] == s2[m + 1]);
        }
    }
}

} // verus!
