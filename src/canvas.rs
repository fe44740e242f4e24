//! The pixel buffer: `width * height` pixels of four bytes each (R, G, B, A),
//! row by row, with the text style that text drawing reads.
use vstd::prelude::*;
use vstd::arithmetic::div_mod::lemma_fundamental_div_mod_converse;

use crate::color::{Rgba, blend, composite};

verus! {

/// Whether `(x, y)` lies on a `w` by `h` grid.
pub open spec fn in_bounds(w: int, h: int, x: int, y: int) -> bool {
    0 <= x < w && 0 <= y < h
}

/// The pixel stored at linear pixel index `j` (bytes `4j .. 4j + 4`).
pub open spec fn pixel_at(s: Seq<u8>, j: int) -> Rgba {
    (s[4 * j], s[4 * j + 1], s[4 * j + 2], s[4 * j + 3])
}

/// `s` with pixel `j` replaced by `c`.
pub open spec fn put_pixel(s: Seq<u8>, j: int, c: Rgba) -> Seq<u8> {
    s.update(4 * j, c.0).update(4 * j + 1, c.1).update(4 * j + 2, c.2).update(4 * j + 3, c.3)
}

/// Compositing `c` onto the pixel at `(x, y)` of a `w` by `h` byte image;
/// a point off the grid leaves the image as it is.
pub open spec fn plot(s: Seq<u8>, w: int, h: int, x: int, y: int, c: Rgba) -> Seq<u8> {
    if in_bounds(w, h, x, y) {
        put_pixel(s, y * w + x, blend(c, pixel_at(s, y * w + x)))
    } else {
        s
    }
}

/// Compositing `c` onto each point of `pts` in turn.
pub open spec fn plot_all(s: Seq<u8>, w: int, h: int, pts: Seq<(int, int)>, c: Rgba) -> Seq<u8>
    decreases pts.len(),
{
    if pts.len() == 0 {
        s
    } else {
        let last = pts.last();
        plot(plot_all(s, w, h, pts.drop_last(), c), w, h, last.0, last.1, c)
    }
}

/// Row-major position of `(x, y)` on a grid `w` wide: the index is in range
/// and gives the coordinates back.
pub proof fn lemma_pixel_index(w: int, h: int, x: int, y: int)
    requires
        in_bounds(w, h, x, y),
    ensures
        0 <= y * w + x < w * h,
        0 <= (y * w + x) * 4 + 3 < w * h * 4,
        (y * w + x) % w == x,
        (y * w + x) / w == y,
{
    assert(0 <= y * w + x < w * h) by (nonlinear_arith)
        requires
            0 <= x < w,
            0 <= y < h,
    ;
    lemma_fundamental_div_mod_converse(y * w + x, w, y, x);
}

/// Replacing pixel `j` gives it the new colour and leaves every other pixel.
pub proof fn lemma_put_pixel(s: Seq<u8>, j: int, c: Rgba)
    requires
        0 <= j,
        4 * j + 3 < s.len(),
    ensures
        put_pixel(s, j, c).len() == s.len(),
        pixel_at(put_pixel(s, j, c), j) == c,
        forall|k: int|
            0 <= k && 4 * k + 3 < s.len() && k != j ==> #[trigger] pixel_at(put_pixel(s, j, c), k)
                == pixel_at(s, k),
{
}

/// A grid's pixel count is at most its byte count.
pub proof fn lemma_grid_size(w: int, h: int)
    requires
        0 <= w,
        0 <= h,
    ensures
        0 <= w * h <= w * h * 4,
        w * h * 4 == (w * h) * 4,
{
    assert(0 <= w * h <= w * h * 4) by (nonlinear_arith)
        requires
            0 <= w,
            0 <= h,
    ;
}

/// Linear pixel index `j` of a grid `w` wide is the point `(j % w, j / w)`.
pub proof fn lemma_pixel_coords(w: int, h: int, j: int)
    requires
        0 <= j < w * h,
        w > 0,
    ensures
        in_bounds(w, h, j % w, j / w),
        (j / w) * w + j % w == j,
{
    vstd::arithmetic::div_mod::lemma_fundamental_div_mod(j, w);
    assert(j / w * w == w * (j / w)) by (nonlinear_arith);
    assert(0 <= j / w < h) by (nonlinear_arith)
        requires
            0 <= j < w * h,
            w > 0,
            j == w * (j / w) + j % w,
            0 <= j % w < w,
    ;
}

/// An RGBA pixel buffer with the text style used to draw on it.
pub struct RGBABufferBase {
    /// Width in pixels.
    pub width: usize,
    /// Height in pixels.
    pub height: usize,
    /// Four bytes (R, G, B, A) per pixel, row by row.
    pub buffer: Vec<u8>,
    /// Path of the font file text is drawn with.
    pub fontpath: String,
    /// Colour text is drawn in.
    pub text_color: Rgba,
    /// Font size, in pixels, text is laid out and drawn at.
    pub text_font_size: usize,
}

impl RGBABufferBase {
    /// The stored bytes, four per pixel, row by row.
    pub open spec fn bytes(&self) -> Seq<u8> {
        self.buffer@
    }

    /// The buffer holds exactly four bytes per pixel, and its sides fit the
    /// `i32` coordinates that drawing takes.
    pub open spec fn wf(&self) -> bool {
        &&& self.bytes().len() == self.width * self.height * 4
        &&& self.width * self.height * 4 <= usize::MAX
        &&& self.width <= i32::MAX
        &&& self.height <= i32::MAX
    }

    /// The colour at `(x, y)`: the stored one on the grid, transparent black
    /// off it.
    pub open spec fn pixel(&self, x: int, y: int) -> Rgba {
        if in_bounds(self.width as int, self.height as int, x, y) {
            pixel_at(self.bytes(), y * self.width + x)
        } else {
            (0, 0, 0, 0)
        }
    }

    /// Everything but the pixels is the same in `self` and `other`.
    pub open spec fn same_settings(&self, other: &Self) -> bool {
        &&& self.width == other.width
        &&& self.height == other.height
        &&& self.fontpath@ == other.fontpath@
        &&& self.text_color == other.text_color
        &&& self.text_font_size == other.text_font_size
    }

    /// A `width` by `height` buffer holding `ref_buffer`, or transparent
    /// black where none is given; the text style starts as white, 16 pixels,
    /// with the font at "assets/fonts.ttf".
    pub fn new(width: usize, height: usize, ref_buffer: Option<&[u8]>) -> (r: Self)
        requires
            width * height * 4 <= usize::MAX,
            width <= i32::MAX,
            height <= i32::MAX,
            ref_buffer matches Some(b) ==> b@.len() == width * height * 4,
        ensures
            r.wf(),
            r.width == width,
            r.height == height,
            ref_buffer matches Some(b) ==> r.bytes() == b@,
            ref_buffer is None ==> forall|x: int, y: int|
                in_bounds(width as int, height as int, x, y) ==> #[trigger] r.pixel(x, y) == (
                0u8,
                0u8,
                0u8,
                0u8,
            ),
            r.fontpath@ == "assets/fonts.ttf"@,
            r.text_color == (255u8, 255u8, 255u8, 255u8),
            r.text_font_size == 16,
    {
        let n = width * height * 4;
        let buffer = match ref_buffer {
            Some(buf) => vstd::slice::slice_to_vec(buf),
            None => vec![0u8; n],
        };
        let r = RGBABufferBase {
            width,
            height,
            buffer,
            fontpath: "assets/fonts.ttf".to_owned(),
            text_color: (255, 255, 255, 255),
            text_font_size: 16,
        };
        proof {
            if ref_buffer is None {
                assert forall|x: int, y: int|
                    in_bounds(width as int, height as int, x, y) implies #[trigger] r.pixel(x, y)
                    == (0u8, 0u8, 0u8, 0u8) by {
                    lemma_pixel_index(width as int, height as int, x, y);
                }
            }
        }
        r
    }

    /// Overwrites every pixel with `(r, g, b, a)`, without compositing.
    pub fn clear(&mut self, r: u8, g: u8, b: u8, a: u8)
        requires
            old(self).wf(),
        ensures
            final(self).wf(),
            final(self).same_settings(old(self)),
            forall|x: int, y: int|
                in_bounds(final(self).width as int, final(self).height as int, x, y)
                    ==> #[trigger] final(self).pixel(x, y) == (r, g, b, a),
    {
        proof {
            lemma_grid_size(self.width as int, self.height as int);
        }
        let n = self.width * self.height;
        let mut k: usize = 0;
        while k < n
            invariant
                n == self.width * self.height,
                n * 4 == self.bytes().len(),
                self.wf(),
                self.same_settings(old(self)),
                0 <= k <= n,
                forall|j: int| 0 <= j < k ==> #[trigger] pixel_at(self.bytes(), j) == (r, g, b, a),
            decreases n - k,
        {
            let ghost prev = self.bytes();
            let i = k * 4;
            self.buffer.set(i, r);
            self.buffer.set(i + 1, g);
            self.buffer.set(i + 2, b);
            self.buffer.set(i + 3, a);
            assert(self.bytes() == put_pixel(prev, k as int, (r, g, b, a)));
            assert forall|j: int| 0 <= j < k + 1 implies #[trigger] pixel_at(self.bytes(), j) == (
            r,
            g,
            b,
            a,
            ) by {
                if j < k {
                    assert(pixel_at(prev, j) == (r, g, b, a));
                }
            }
            k = k + 1;
        }
        proof {
            assert forall|x: int, y: int|
                in_bounds(self.width as int, self.height as int, x, y) implies #[trigger] self.pixel(
                x,
                y,
            ) == (r, g, b, a) by {
                lemma_pixel_index(self.width as int, self.height as int, x, y);
            }
        }
    }

    /// Moves the content by `(dx, dy)`: each pixel takes the colour that was
    /// at `(x - dx, y - dy)`, or `(r, g, b, a)` where that point is off the
    /// grid. Reads a snapshot, so overlapping source and target are fine.
    pub fn scroll(&mut self, dx: i32, dy: i32, r: u8, g: u8, b: u8, a: u8)
        requires
            old(self).wf(),
        ensures
            final(self).wf(),
            final(self).same_settings(old(self)),
            forall|x: int, y: int|
                in_bounds(final(self).width as int, final(self).height as int, x, y)
                    ==> #[trigger] final(self).pixel(x, y) == (if in_bounds(
                    old(self).width as int,
                    old(self).height as int,
                    x - dx,
                    y - dy,
                ) {
                    old(self).pixel(x - dx, y - dy)
                } else {
                    (r, g, b, a)
                }),
    {
        let w = self.width;
        let h = self.height;
        proof {
            lemma_grid_size(w as int, h as int);
        }
        let n = w * h;
        let ghost src = self.bytes();
        let mut out: Vec<u8> = Vec::new();
        let mut k: usize = 0;
        while k < n
            invariant
                w == self.width,
                h == self.height,
                n == w * h,
                n * 4 == src.len(),
                self.wf(),
                self.bytes() == src,
                0 <= k <= n,
                out@.len() == 4 * k,
                forall|j: int|
                    0 <= j < k ==> #[trigger] pixel_at(out@, j) == (if in_bounds(
                        w as int,
                        h as int,
                        j % (w as int) - dx,
                        j / (w as int) - dy,
                    ) {
                        pixel_at(src, (j / (w as int) - dy) * w + (j % (w as int) - dx))
                    } else {
                        (r, g, b, a)
                    }),
            decreases n - k,
        {
            assert(w > 0) by (nonlinear_arith)
                requires
                    k < n,
                    n == w * h,
            ;
            let x = k % w;
            let y = k / w;
            proof {
                lemma_pixel_coords(w as int, h as int, k as int);
            }
            let ghost prev = out@;
            let sx = x as i64 - dx as i64;
            let sy = y as i64 - dy as i64;
            if 0 <= sx && sx < w as i64 && 0 <= sy && sy < h as i64 {
                let c = self.get_point(sx as i32, sy as i32);
                out.push(c.0);
                out.push(c.1);
                out.push(c.2);
                out.push(c.3);
            } else {
                out.push(r);
                out.push(g);
                out.push(b);
                out.push(a);
            }
            proof {
                assert forall|j: int| 0 <= j < k + 1 implies #[trigger] pixel_at(out@, j) == (
                if in_bounds(w as int, h as int, j % (w as int) - dx, j / (w as int) - dy) {
                    pixel_at(src, (j / (w as int) - dy) * w + (j % (w as int) - dx))
                } else {
                    (r, g, b, a)
                }) by {
                    if j < k {
                        assert(pixel_at(out@, j) == pixel_at(prev, j));
                    }
                }
            }
            k = k + 1;
        }
        self.buffer = out;
        proof {
            assert forall|x: int, y: int|
                in_bounds(self.width as int, self.height as int, x, y) implies #[trigger] self.pixel(
                x,
                y,
            ) == (if in_bounds(old(self).width as int, old(self).height as int, x - dx, y - dy) {
                old(self).pixel(x - dx, y - dy)
            } else {
                (r, g, b, a)
            }) by {
                lemma_pixel_index(w as int, h as int, x, y);
            }
        }
    }

    /// Composites `(r, g, b, a)` onto the pixel at `(x, y)`, which the
    /// caller has checked to lie on the grid.
    pub fn unsafe_point(&mut self, x: i32, y: i32, r: u8, g: u8, b: u8, a: u8)
        requires
            old(self).wf(),
            in_bounds(old(self).width as int, old(self).height as int, x as int, y as int),
        ensures
            final(self).wf(),
            final(self).same_settings(old(self)),
            final(self).bytes() == plot(
                old(self).bytes(),
                old(self).width as int,
                old(self).height as int,
                x as int,
                y as int,
                (r, g, b, a),
            ),
    {
        proof {
            lemma_pixel_index(self.width as int, self.height as int, x as int, y as int);
        }
        let j = y as usize * self.width + x as usize;
        let i = j * 4;
        let dst = (self.buffer[i], self.buffer[i + 1], self.buffer[i + 2], self.buffer[i + 3]);
        let out = composite((r, g, b, a), dst);
        self.buffer.set(i, out.0);
        self.buffer.set(i + 1, out.1);
        self.buffer.set(i + 2, out.2);
        self.buffer.set(i + 3, out.3);
    }

    /// A copy of the stored bytes.
    pub fn unsafe_get_buffer(&self) -> (r: Vec<u8>)
        ensures
            r@ == self.bytes(),
    {
        self.buffer.clone()
    }

    /// Composites `(r, g, b, a)` onto the pixel at `(x, y)`; a point off the
    /// grid is ignored.
    pub fn point(&mut self, x: i32, y: i32, r: u8, g: u8, b: u8, a: u8)
        requires
            old(self).wf(),
        ensures
            final(self).wf(),
            final(self).same_settings(old(self)),
            final(self).bytes() == plot(
                old(self).bytes(),
                old(self).width as int,
                old(self).height as int,
                x as int,
                y as int,
                (r, g, b, a),
            ),
    {
        if x < 0 || y < 0 || x >= self.width as i32 || y >= self.height as i32 {
            return;
        }
        self.unsafe_point(x, y, r, g, b, a);
    }

    /// The colour at `(x, y)`; transparent black off the grid.
    pub fn get_point(&self, x: i32, y: i32) -> (c: Rgba)
        requires
            self.wf(),
        ensures
            c == self.pixel(x as int, y as int),
    {
        if x < 0 || y < 0 || x >= self.width as i32 || y >= self.height as i32 {
            return (0, 0, 0, 0);
        }
        proof {
            lemma_pixel_index(self.width as int, self.height as int, x as int, y as int);
        }
        let i = (y as usize * self.width + x as usize) * 4;
        (self.buffer[i], self.buffer[i + 1], self.buffer[i + 2], self.buffer[i + 3])
    }

    /// Sets the colour text is drawn in.
    pub fn set_text_color(&mut self, r: u8, g: u8, b: u8, a: u8)
        ensures
            final(self).text_color == (r, g, b, a),
            final(self).bytes() == old(self).bytes(),
            final(self).width == old(self).width,
            final(self).height == old(self).height,
            final(self).fontpath@ == old(self).fontpath@,
            final(self).text_font_size == old(self).text_font_size,
    {
        self.text_color = (r, g, b, a);
    }

    /// The colour text is drawn in.
    pub fn get_text_color(&self) -> (c: Rgba)
        ensures
            c == self.text_color,
    {
        self.text_color
    }

    /// Sets the font size, in pixels, text is laid out and drawn at.
    pub fn set_text_font_size(&mut self, size: usize)
        ensures
            final(self).text_font_size == size,
            final(self).bytes() == old(self).bytes(),
            final(self).width == old(self).width,
            final(self).height == old(self).height,
            final(self).fontpath@ == old(self).fontpath@,
            final(self).text_color == old(self).text_color,
    {
        self.text_font_size = size;
    }

    /// The font size text is laid out and drawn at.
    pub fn get_text_font_size(&self) -> (size: usize)
        ensures
            size == self.text_font_size,
    {
        self.text_font_size
    }

    /// Sets the path of the font file text is drawn with.
    pub fn set_fontpath(&mut self, path: &str)
        ensures
            final(self).fontpath@ == path@,
            final(self).bytes() == old(self).bytes(),
            final(self).width == old(self).width,
            final(self).height == old(self).height,
            final(self).text_color == old(self).text_color,
            final(self).text_font_size == old(self).text_font_size,
    {
        self.fontpath = path.to_owned();
    }

    /// The path of the font file text is drawn with.
    pub fn get_fontpath(&self) -> (path: String)
        ensures
            path@ == self.fontpath@,
    {
        self.fontpath.clone()
    }
}

/// Compositing an opaque colour onto a pixel and reading it back gives that
/// colour.
pub proof fn lemma_point_round_trip(b: RGBABufferBase, after: RGBABufferBase, x: int, y: int, c: Rgba)
    requires
        b.wf(),
        after.same_settings(&b),
        after.bytes() == plot(b.bytes(), b.width as int, b.height as int, x, y, c),
        in_bounds(b.width as int, b.height as int, x, y),
        c.3 == 255,
    ensures
        after.pixel(x, y) == c,
{
    lemma_pixel_index(b.width as int, b.height as int, x, y);
    let j = y * b.width + x;
    crate::color::lemma_opaque_over(c, pixel_at(b.bytes(), j));
    lemma_put_pixel(b.bytes(), j, blend(c, pixel_at(b.bytes(), j)));
}

} // verus!
