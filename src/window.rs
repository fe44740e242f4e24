//! Named windows: each owns a pixel buffer, its place on the host surface,
//! and reusable flood-fill scratch storage.
use vstd::prelude::*;

use crate::canvas::{RGBABufferBase, in_bounds, plot, plot_all};
use crate::color::{Rgba, blend};
use crate::flood::{fill_region, flood_fill};
use crate::raster::{
    circle_points,
    circle_radius,
    hseg,
    is_circle_steps,
    is_line_path,
    line_points,
    outline_points,
    vseg,
};
use crate::text::{Glyph, stamped_chain, text_width};

verus! {

/// A window: its identifier, its position on the host surface (written by
/// the presentation layer), its pixel buffer, and flood-fill scratch.
pub struct LuaWindow {
    pub id: String,
    pub x: i32,
    pub y: i32,
    pub canvas: RGBABufferBase,
    pub fillpaint_stack: Vec<(i32, i32)>,
    pub fillpaint_visited: Vec<bool>,
}

impl LuaWindow {
    /// The buffer is well formed.
    pub open spec fn wf(&self) -> bool {
        self.canvas.wf()
    }

    /// Identifier, position and flood-fill scratch are the same in `self`
    /// and `other`.
    pub open spec fn same_place(&self, other: &Self) -> bool {
        &&& self.id@ == other.id@
        &&& self.x == other.x
        &&& self.y == other.y
        &&& self.fillpaint_stack@ == other.fillpaint_stack@
        &&& self.fillpaint_visited@ == other.fillpaint_visited@
    }

    /// Only the pixels of `self` and `other` may differ.
    pub open spec fn same_frame(&self, other: &Self) -> bool {
        &&& self.same_place(other)
        &&& self.canvas.same_settings(&other.canvas)
    }

    /// A window named `id` at the origin with a transparent black `width` by
    /// `height` buffer and the default text style.
    pub fn new(id: String, width: usize, height: usize) -> (r: Self)
        requires
            width * height * 4 <= usize::MAX,
            width <= i32::MAX,
            height <= i32::MAX,
        ensures
            r.wf(),
            r.id@ == id@,
            r.x == 0,
            r.y == 0,
            r.canvas.width == width,
            r.canvas.height == height,
            forall|px: int, py: int|
                in_bounds(width as int, height as int, px, py) ==> #[trigger] r.canvas.pixel(px, py)
                    == (0u8, 0u8, 0u8, 0u8),
            r.canvas.text_color == (255u8, 255u8, 255u8, 255u8),
            r.canvas.text_font_size == 16,
    {
        LuaWindow {
            id,
            x: 0,
            y: 0,
            canvas: RGBABufferBase::new(width, height, None),
            fillpaint_stack: Vec::new(),
            fillpaint_visited: Vec::new(),
        }
    }

    /// Composites `(r, g, b, a)` onto the pixel `(x, y)`, which the caller
    /// has checked to lie on the grid.
    pub fn unsafe_point(&mut self, x: i32, y: i32, r: u8, g: u8, b: u8, a: u8)
        requires
            old(self).wf(),
            in_bounds(
                old(self).canvas.width as int,
                old(self).canvas.height as int,
                x as int,
                y as int,
            ),
        ensures
            final(self).wf(),
            final(self).same_frame(old(self)),
            final(self).canvas.bytes() == plot(
                old(self).canvas.bytes(),
                old(self).canvas.width as int,
                old(self).canvas.height as int,
                x as int,
                y as int,
                (r, g, b, a),
            ),
    {
        self.canvas.unsafe_point(x, y, r, g, b, a);
    }

    /// Composites `(r, g, b, a)` onto the pixel `(x, y)`; off the grid it
    /// does nothing.
    pub fn point(&mut self, x: i32, y: i32, r: u8, g: u8, b: u8, a: u8)
        requires
            old(self).wf(),
        ensures
            final(self).wf(),
            final(self).same_frame(old(self)),
            final(self).canvas.bytes() == plot(
                old(self).canvas.bytes(),
                old(self).canvas.width as int,
                old(self).canvas.height as int,
                x as int,
                y as int,
                (r, g, b, a),
            ),
    {
        self.canvas.point(x, y, r, g, b, a);
    }

    /// Draws a line; see `RGBABufferBase::line`.
    pub fn line(&mut self, x0: i32, y0: i32, x1: i32, y1: i32, r: u8, g: u8, b: u8, a: u8)
        requires
            old(self).wf(),
        ensures
            final(self).wf(),
            final(self).same_frame(old(self)),
            final(self).canvas.bytes() == plot_all(
                old(self).canvas.bytes(),
                old(self).canvas.width as int,
                old(self).canvas.height as int,
                line_points(x0 as int, y0 as int, x1 as int, y1 as int),
                (r, g, b, a),
            ),
            is_line_path(
                line_points(x0 as int, y0 as int, x1 as int, y1 as int),
                x0 as int,
                y0 as int,
                x1 as int,
                y1 as int,
            ),
            y0 == y1 ==> line_points(x0 as int, y0 as int, x1 as int, y1 as int) == hseg(
                x0 as int,
                x1 as int,
                y0 as int,
            ),
            x0 == x1 ==> line_points(x0 as int, y0 as int, x1 as int, y1 as int) == vseg(
                x0 as int,
                y0 as int,
                y1 as int,
            ),
    {
        self.canvas.line(x0, y0, x1, y1, r, g, b, a);
    }

    /// Draws a circle; see `RGBABufferBase::circle`.
    pub fn circle(&mut self, cx: i32, cy: i32, radius: i32, r: u8, g: u8, b: u8, a: u8)
        requires
            old(self).wf(),
        ensures
            final(self).wf(),
            final(self).same_frame(old(self)),
            exists|steps: Seq<(int, int)>|
                {
                    &&& #[trigger] is_circle_steps(steps, circle_radius(radius as int))
                    &&& final(self).canvas.bytes() == plot_all(
                        old(self).canvas.bytes(),
                        old(self).canvas.width as int,
                        old(self).canvas.height as int,
                        circle_points(cx as int, cy as int, steps),
                        (r, g, b, a),
                    )
                },
    {
        self.canvas.circle(cx, cy, radius, r, g, b, a);
    }

    /// Draws the outline of the rectangle with corners `(x1, y1)` and
    /// `(x2, y2)`.
    pub fn rect(&mut self, x1: i32, y1: i32, x2: i32, y2: i32, r: u8, g: u8, b: u8, a: u8)
        requires
            old(self).wf(),
        ensures
            final(self).wf(),
            final(self).same_frame(old(self)),
            final(self).canvas.bytes() == plot_all(
                old(self).canvas.bytes(),
                old(self).canvas.width as int,
                old(self).canvas.height as int,
                outline_points(x1 as int, y1 as int, x2 as int, y2 as int),
                (r, g, b, a),
            ),
    {
        self.canvas.outline(x1, y1, x2, y2, r, g, b, a);
    }

    /// Composites `(r, g, b, a)` once onto every pixel of the rectangle with
    /// corners `(x1, y1)` and `(x2, y2)`, both included, that lies on the grid.
    pub fn fillrect(&mut self, x1: i32, y1: i32, x2: i32, y2: i32, r: u8, g: u8, b: u8, a: u8)
        requires
            old(self).wf(),
        ensures
            final(self).wf(),
            final(self).same_frame(old(self)),
            forall|px: int, py: int|
                in_bounds(old(self).canvas.width as int, old(self).canvas.height as int, px, py)
                    ==> #[trigger] final(self).canvas.pixel(px, py) == (if in_corners(
                    x1 as int,
                    y1 as int,
                    x2 as int,
                    y2 as int,
                    px,
                    py,
                ) {
                    blend((r, g, b, a), old(self).canvas.pixel(px, py))
                } else {
                    old(self).canvas.pixel(px, py)
                }),
    {
        let ww = self.canvas.width as i64;
        let hh = self.canvas.height as i64;
        let xl = clamp_to(if x1 < x2 { x1 } else { x2 } as i64, ww);
        let xh = clamp_to(if x1 < x2 { x2 } else { x1 } as i64 + 1, ww);
        let yl = clamp_to(if y1 < y2 { y1 } else { y2 } as i64, hh);
        let yh = clamp_to(if y1 < y2 { y2 } else { y1 } as i64 + 1, hh);
        self.canvas.fillrect(xl as i32, yl as i32, (xh - xl) as i32, (yh - yl) as i32, r, g, b, a);
    }

    /// Overwrites every pixel with `(r, g, b, a)`.
    pub fn cls(&mut self, r: u8, g: u8, b: u8, a: u8)
        requires
            old(self).wf(),
        ensures
            final(self).wf(),
            final(self).same_frame(old(self)),
            forall|px: int, py: int|
                in_bounds(final(self).canvas.width as int, final(self).canvas.height as int, px, py)
                    ==> #[trigger] final(self).canvas.pixel(px, py) == (r, g, b, a),
    {
        self.canvas.clear(r, g, b, a);
    }

    /// Scrolls the content; see `RGBABufferBase::scroll`.
    pub fn scroll(&mut self, dx: i32, dy: i32, r: u8, g: u8, b: u8, a: u8)
        requires
            old(self).wf(),
        ensures
            final(self).wf(),
            final(self).same_frame(old(self)),
            forall|x: int, y: int|
                in_bounds(final(self).canvas.width as int, final(self).canvas.height as int, x, y)
                    ==> #[trigger] final(self).canvas.pixel(x, y) == (if in_bounds(
                    old(self).canvas.width as int,
                    old(self).canvas.height as int,
                    x - dx,
                    y - dy,
                ) {
                    old(self).canvas.pixel(x - dx, y - dy)
                } else {
                    (r, g, b, a)
                }),
    {
        self.canvas.scroll(dx, dy, r, g, b, a);
    }

    /// Flood-fills from `(x, y)` with `(r, g, b, a)` up to the boundary colour
    /// `(sr, sg, sb, sa)`, reusing the window's scratch storage; returns the
    /// number of pixels filled. See `flood_fill`.
    pub fn paint(
        &mut self,
        x: i32,
        y: i32,
        r: u8,
        g: u8,
        b: u8,
        a: u8,
        sr: u8,
        sg: u8,
        sb: u8,
        sa: u8,
    ) -> (count: usize)
        requires
            old(self).wf(),
        ensures
            final(self).wf(),
            final(self).id@ == old(self).id@,
            final(self).x == old(self).x,
            final(self).y == old(self).y,
            final(self).canvas.same_settings(&old(self).canvas),
            count == fill_region(
                old(self).canvas.bytes(),
                old(self).canvas.width as int,
                old(self).canvas.height as int,
                (x as int, y as int),
                (r, g, b, a),
                (sr, sg, sb, sa),
            ).len(),
            forall|px: int, py: int|
                in_bounds(old(self).canvas.width as int, old(self).canvas.height as int, px, py)
                    ==> #[trigger] final(self).canvas.pixel(px, py) == (if fill_region(
                    old(self).canvas.bytes(),
                    old(self).canvas.width as int,
                    old(self).canvas.height as int,
                    (x as int, y as int),
                    (r, g, b, a),
                    (sr, sg, sb, sa),
                ).contains((px, py)) {
                    blend((r, g, b, a), old(self).canvas.pixel(px, py))
                } else {
                    old(self).canvas.pixel(px, py)
                }),
    {
        flood_fill(
            &mut self.canvas,
            &mut self.fillpaint_stack,
            &mut self.fillpaint_visited,
            x,
            y,
            (r, g, b, a),
            (sr, sg, sb, sa),
        )
    }

    /// Sets the colour text is drawn in.
    pub fn set_text_color(&mut self, r: u8, g: u8, b: u8, a: u8)
        ensures
            final(self).canvas.text_color == (r, g, b, a),
            final(self).canvas.bytes() == old(self).canvas.bytes(),
            final(self).canvas.width == old(self).canvas.width,
            final(self).canvas.height == old(self).canvas.height,
            final(self).canvas.fontpath@ == old(self).canvas.fontpath@,
            final(self).canvas.text_font_size == old(self).canvas.text_font_size,
            final(self).same_place(old(self)),
    {
        self.canvas.set_text_color(r, g, b, a);
    }

    /// The colour text is drawn in.
    pub fn get_text_color(&self) -> (c: Rgba)
        ensures
            c == self.canvas.text_color,
    {
        self.canvas.get_text_color()
    }

    /// Sets the font size text is drawn at.
    pub fn set_text_font_size(&mut self, size: usize)
        ensures
            final(self).canvas.text_font_size == size,
            final(self).canvas.bytes() == old(self).canvas.bytes(),
            final(self).canvas.width == old(self).canvas.width,
            final(self).canvas.height == old(self).canvas.height,
            final(self).canvas.fontpath@ == old(self).canvas.fontpath@,
            final(self).canvas.text_color == old(self).canvas.text_color,
            final(self).same_place(old(self)),
    {
        self.canvas.set_text_font_size(size);
    }

    /// The font size text is drawn at.
    pub fn get_text_font_size(&self) -> (size: usize)
        ensures
            size == self.canvas.text_font_size,
    {
        self.canvas.get_text_font_size()
    }

    /// Draws `text` with the glyphs of its characters; see
    /// `RGBABufferBase::text`.
    pub fn text(&mut self, x: i32, y: i32, text: &str, glyphs: &Vec<Glyph>) -> (r: (usize, usize))
        requires
            old(self).wf(),
            glyphs@.len() == text@.len(),
            forall|i: int| 0 <= i < glyphs@.len() ==> (#[trigger] glyphs@[i]).wf(),
            text@.len() * old(self).canvas.text_font_size <= usize::MAX,
        ensures
            final(self).wf(),
            final(self).same_frame(old(self)),
            r.0 == text_width(text@, old(self).canvas.text_font_size as nat),
            r.1 == old(self).canvas.text_font_size,
            exists|states: Seq<Seq<u8>>|
                {
                    &&& states.len() == text@.len() + 1
                    &&& states[0] == old(self).canvas.bytes()
                    &&& states.last() == final(self).canvas.bytes()
                    &&& #[trigger] stamped_chain(
                        states,
                        old(self).canvas.width as int,
                        old(self).canvas.height as int,
                        glyphs@,
                        text@,
                        x as int,
                        y as int,
                        old(self).canvas.text_font_size as nat,
                        old(self).canvas.text_color,
                        text@.len() as int,
                    )
                },
    {
        self.canvas.text(x, y, text, glyphs)
    }
}

/// Whether `(px, py)` lies in the rectangle with corners `(x1, y1)` and
/// `(x2, y2)`, both included.
pub open spec fn in_corners(x1: int, y1: int, x2: int, y2: int, px: int, py: int) -> bool {
    &&& (x1 <= px <= x2 || x2 <= px <= x1)
    &&& (y1 <= py <= y2 || y2 <= py <= y1)
}

/// `v` clamped to `0 ..= hi`.
fn clamp_to(v: i64, hi: i64) -> (r: i64)
    requires
        0 <= hi,
    ensures
        r == (if v < 0 {
            0
        } else if v > hi {
            hi
        } else {
            v
        }),
{
    if v < 0 {
        0
    } else if v > hi {
        hi
    } else {
        v
    }
}

} // verus!
