//! Rasterisation of lines, circles and rectangles onto a pixel buffer; every
//! point goes through the bounds-checked, compositing `point`.
use vstd::prelude::*;

use crate::blit::{in_rect, lemma_blit_index};
use crate::canvas::{
    RGBABufferBase,
    in_bounds,
    lemma_grid_size,
    lemma_pixel_coords,
    lemma_pixel_index,
    lemma_put_pixel,
    pixel_at,
    plot,
    plot_all,
};
use crate::color::{Rgba, blend};

verus! {

/// `|a - b|`.
pub open spec fn dist(a: int, b: int) -> int {
    if a >= b {
        a - b
    } else {
        b - a
    }
}

/// The coordinate `k` unit steps from `a` towards `b`.
pub open spec fn walk(a: int, b: int, k: int) -> int {
    if a < b {
        a + k
    } else {
        a - k
    }
}

/// The unit step from `a` towards `b`.
pub open spec fn unit(a: int, b: int) -> int {
    if a < b {
        1
    } else {
        -1
    }
}

/// One step of a line from `p` to `q`, towards `(x1, y1)` from `(x0, y0)`:
/// each coordinate stays or moves one unit towards its target, and at least
/// one of them moves.
pub open spec fn is_line_step(p: (int, int), q: (int, int), x0: int, y0: int, x1: int, y1: int) -> bool {
    &&& (q.0 == p.0 || q.0 == p.0 + unit(x0, x1))
    &&& (q.1 == p.1 || q.1 == p.1 + unit(y0, y1))
    &&& q != p
}

/// The longer side of the line's bounding box.
pub open spec fn line_major(x0: int, y0: int, x1: int, y1: int) -> int {
    if dist(x0, x1) >= dist(y0, y1) {
        dist(x0, x1)
    } else {
        dist(y0, y1)
    }
}

/// How far `p` lies from the ideal line from `(x0, y0)` to `(x1, y1)`,
/// along the line's shorter axis, in units of `1 / line_major`.
pub open spec fn line_deviation(p: (int, int), x0: int, y0: int, x1: int, y1: int) -> int {
    dist(p.1, y0) * dist(x0, x1) - dist(p.0, x0) * dist(y0, y1)
}

/// `pts` runs from `(x0, y0)` to `(x1, y1)` in unit steps towards the end,
/// one point for each unit of the longer side plus one, each within half a
/// pixel of the ideal line along the shorter axis.
pub open spec fn is_line_path(pts: Seq<(int, int)>, x0: int, y0: int, x1: int, y1: int) -> bool {
    &&& pts.len() == line_major(x0, y0, x1, y1) + 1
    &&& pts[0] == (x0, y0)
    &&& pts.last() == (x1, y1)
    &&& forall|k: int|
        0 <= k < pts.len() - 1 ==> #[trigger] is_line_step(pts[k], pts[k + 1], x0, y0, x1, y1)
    &&& forall|k: int|
        0 <= k < pts.len() ==> -line_major(x0, y0, x1, y1) <= 2 * line_deviation(
            #[trigger] pts[k],
            x0,
            y0,
            x1,
            y1,
        ) <= line_major(x0, y0, x1, y1)
}

/// The points Bresenham's algorithm visits from `(x, y)` with error term
/// `err`, for `n` more steps along a line whose box is `adx` by `ady`, in
/// directions `sx` and `sy`: a step moves `x` when `2 * err >= -ady`
/// (taking `ady` from the error term) and `y` when `2 * err <= adx` (adding
/// `adx` to it), both tests on the error term before the step.
pub open spec fn bresenham_walk(
    x: int,
    y: int,
    err: int,
    adx: int,
    ady: int,
    sx: int,
    sy: int,
    n: nat,
) -> Seq<(int, int)>
    decreases n,
{
    if n == 0 {
        seq![(x, y)]
    } else {
        let e2 = 2 * err;
        let step_x = e2 >= -ady;
        let step_y = e2 <= adx;
        let x2 = if step_x {
            x + sx
        } else {
            x
        };
        let y2 = if step_y {
            y + sy
        } else {
            y
        };
        let err2 = err - (if step_x {
            ady
        } else {
            0
        }) + (if step_y {
            adx
        } else {
            0
        });
        seq![(x, y)] + bresenham_walk(x2, y2, err2, adx, ady, sx, sy, (n - 1) as nat)
    }
}

/// The points of Bresenham's line from `(x0, y0)` to `(x1, y1)`: the walk
/// from the start with error term `|dx| - |dy|`, one step for each unit of
/// the longer side.
pub open spec fn line_points(x0: int, y0: int, x1: int, y1: int) -> Seq<(int, int)> {
    bresenham_walk(
        x0,
        y0,
        dist(x0, x1) - dist(y0, y1),
        dist(x0, x1),
        dist(y0, y1),
        unit(x0, x1),
        unit(y0, y1),
        line_major(x0, y0, x1, y1) as nat,
    )
}

/// The points of a straight run from `(x0, y)` to `(x1, y)`, both ends included.
pub open spec fn hseg(x0: int, x1: int, y: int) -> Seq<(int, int)> {
    Seq::new((dist(x0, x1) + 1) as nat, |k: int| (walk(x0, x1, k), y))
}

/// The points of a straight run from `(x, y0)` to `(x, y1)`, both ends included.
pub open spec fn vseg(x: int, y0: int, y1: int) -> Seq<(int, int)> {
    Seq::new((dist(y0, y1) + 1) as nat, |k: int| (x, walk(y0, y1, k)))
}

/// The points an outline of corners `(x1, y1)`, `(x2, y2)` plots, in order:
/// its top, right, bottom and left sides, each with both ends.
pub open spec fn outline_points(x1: int, y1: int, x2: int, y2: int) -> Seq<(int, int)> {
    hseg(x1, x2, y1) + vseg(x2, y1, y2) + hseg(x2, x1, y2) + vseg(x1, y2, y1)
}

/// The eight reflections of `(a, b)` about `(cx, cy)`, in drawing order.
pub open spec fn octant_points(cx: int, cy: int, a: int, b: int) -> Seq<(int, int)> {
    seq![
        (cx + a, cy + b),
        (cx - a, cy + b),
        (cx + a, cy - b),
        (cx - a, cy - b),
        (cx + b, cy + a),
        (cx - b, cy + a),
        (cx + b, cy - a),
        (cx - b, cy - a),
    ]
}

/// The points a circle plots: the eight reflections of each step in turn.
pub open spec fn circle_points(cx: int, cy: int, steps: Seq<(int, int)>) -> Seq<(int, int)>
    decreases steps.len(),
{
    if steps.len() == 0 {
        Seq::empty()
    } else {
        circle_points(cx, cy, steps.drop_last()) + octant_points(
            cx,
            cy,
            steps.last().0,
            steps.last().1,
        )
    }
}

/// `x` is the largest offset for row `y` that keeps the point within the
/// circle of radius `radius + 1/2`: `x^2 + y^2 <= radius^2 + radius` and
/// `(x + 1)^2 + y^2 > radius^2 + radius`.
pub open spec fn is_midpoint(x: int, y: int, radius: int) -> bool {
    &&& x * x + y * y <= radius * radius + radius
    &&& (x + 1) * (x + 1) + y * y > radius * radius + radius
}

/// The steps of the midpoint circle algorithm for `radius`, as offsets
/// `(x, y)` of the first octant: they start at `(radius, 0)`; `y` counts up
/// by one; `x` stays or drops by one and is the midpoint offset of its row;
/// `x >= y` at each step, and the row after the last has its midpoint
/// offset below its index, so the algorithm stops there.
pub open spec fn is_circle_steps(steps: Seq<(int, int)>, radius: int) -> bool {
    &&& steps.len() > 0
    &&& forall|k: int| 0 <= k < steps.len() ==> is_midpoint((#[trigger] steps[k]).0, k, radius)
    &&& steps[0] == (radius, 0int)
    &&& forall|k: int| 0 <= k < steps.len() ==> (#[trigger] steps[k]).1 == k && steps[k].0 >= k
    &&& forall|k: int|
        0 <= k < steps.len() - 1 ==> #[trigger] steps[k + 1].0 == steps[k].0 || steps[k + 1].0
            == steps[k].0 - 1
    &&& steps.last().0 <= steps.len()
    &&& forall|x: int| #[trigger] is_midpoint(x, steps.len() as int, radius) ==> x < steps.len()
}

/// The radius a circle is drawn with: a negative one counts as zero.
pub open spec fn circle_radius(radius: int) -> int {
    if radius < 0 {
        0
    } else {
        radius
    }
}

/// Plotting `a` and then `b` is plotting their concatenation.
pub proof fn lemma_plot_all_append(
    s: Seq<u8>,
    w: int,
    h: int,
    a: Seq<(int, int)>,
    b: Seq<(int, int)>,
    c: Rgba,
)
    ensures
        plot_all(s, w, h, a + b, c) == plot_all(plot_all(s, w, h, a, c), w, h, b, c),
    decreases b.len(),
{
    if b.len() == 0 {
        assert(a + b =~= a);
    } else {
        assert((a + b).drop_last() =~= a + b.drop_last());
        lemma_plot_all_append(s, w, h, a, b.drop_last(), c);
    }
}

impl RGBABufferBase {
    /// Draws the line from `(x0, y0)` to `(x1, y1)`, both ends included, with
    /// Bresenham's integer algorithm; each point is composited through
    /// `point`. A horizontal or vertical line covers exactly its run of pixels.
    pub fn line(&mut self, x0: i32, y0: i32, x1: i32, y1: i32, r: u8, g: u8, b: u8, a: u8)
        requires
            old(self).wf(),
        ensures
            final(self).wf(),
            final(self).same_settings(old(self)),
            final(self).bytes() == plot_all(
                old(self).bytes(),
                old(self).width as int,
                old(self).height as int,
                line_points(x0 as int, y0 as int, x1 as int, y1 as int),
                (r, g, b, a),
            ),
            is_line_path(
                line_points(x0 as int, y0 as int, x1 as int, y1 as int),
                x0 as int,
                y0 as int,
                x1 as int,
                y1 as int,
            ),
            y0 == y1 ==> line_points(x0 as int, y0 as int, x1 as int, y1 as int) == hseg(
                x0 as int,
                x1 as int,
                y0 as int,
            ),
            x0 == x1 ==> line_points(x0 as int, y0 as int, x1 as int, y1 as int) == vseg(
                x0 as int,
                y0 as int,
                y1 as int,
            ),
    {
        let ghost w = self.width as int;
        let ghost h = self.height as int;
        let ghost c: Rgba = (r, g, b, a);
        let ghost orig = self.bytes();
        let ghost (gx0, gy0, gx1, gy1) = (x0 as int, y0 as int, x1 as int, y1 as int);
        let mut x = x0 as i64;
        let mut y = y0 as i64;
        let tx = x1 as i64;
        let ty = y1 as i64;
        let adx: i64 = if tx >= x { tx - x } else { x - tx };
        let ady: i64 = if ty >= y { ty - y } else { y - ty };
        let sx: i64 = if x < tx { 1 } else { -1 };
        let sy: i64 = if y < ty { 1 } else { -1 };
        let mut err: i64 = adx - ady;
        let ghost mut i: int = 0;
        let ghost mut j: int = 0;
        let ghost m = line_major(gx0, gy0, gx1, gy1);
        self.point(x as i32, y as i32, r, g, b, a);
        let ghost mut pts: Seq<(int, int)> = seq![(gx0, gy0)];
        assert(plot_all(orig, w, h, pts, c) == plot(orig, w, h, gx0, gy0, c)) by {
            assert(pts.drop_last() =~= Seq::<(int, int)>::empty());
            reveal_with_fuel(plot_all, 2);
        }
        while !(x == tx && y == ty)
            invariant
                self.wf(),
                self.same_settings(old(self)),
                w == self.width,
                h == self.height,
                c == (r, g, b, a),
                adx == dist(gx0, gx1),
                ady == dist(gy0, gy1),
                tx == gx1,
                ty == gy1,
                gx0 == x0,
                gy0 == y0,
                gx1 == x1,
                gy1 == y1,
                sx == (if gx0 < gx1 { 1int } else { -1int }),
                sy == (if gy0 < gy1 { 1int } else { -1int }),
                0 <= i <= adx,
                0 <= j <= ady,
                x == walk(gx0, gx1, i),
                y == walk(gy0, gy1, j),
                err == adx - ady + (j * adx - i * ady),
                m == line_major(gx0, gy0, gx1, gy1),
                -m <= 2 * (j * adx - i * ady) <= m,
                pts.len() == (if adx >= ady { i } else { j }) + 1,
                forall|k: int|
                    0 <= k < pts.len() ==> -m <= 2 * line_deviation(
                        #[trigger] pts[k],
                        gx0,
                        gy0,
                        gx1,
                        gy1,
                    ) <= m,
                pts[0] == (gx0, gy0),
                pts.last() == (x as int, y as int),
                pts.len() - 1 <= m,
                pts.drop_last() + bresenham_walk(
                    x as int,
                    y as int,
                    err as int,
                    adx as int,
                    ady as int,
                    sx as int,
                    sy as int,
                    (m - (pts.len() - 1)) as nat,
                ) == line_points(gx0, gy0, gx1, gy1),
                forall|k: int|
                    0 <= k < pts.len() - 1 ==> #[trigger] is_line_step(
                        pts[k],
                        pts[k + 1],
                        gx0,
                        gy0,
                        gx1,
                        gy1,
                    ),
                gy0 == gy1 ==> j == 0 && pts == hseg(gx0, gx1, gy0).take(i + 1),
                gx0 == gx1 ==> i == 0 && pts == vseg(gx0, gy0, gy1).take(j + 1),
                self.bytes() == plot_all(orig, w, h, pts, c),
            decreases (adx - i) + (ady - j),
        {
            let e2 = 2 * err;
            let ghost d = j * adx - i * ady;
            let step_x = e2 >= -ady;
            let step_y = e2 <= adx;
            proof {
                if adx >= ady {
                    assert(step_x);
                } else {
                    assert(step_y);
                }
                if step_x && i == adx {
                    assert(j < ady);
                    assert(i * ady == adx * ady);
                    assert(j * adx - adx * ady == adx * (j - ady)) by (nonlinear_arith);
                    assert(adx * (j - ady) <= -adx) by (nonlinear_arith)
                        requires
                            adx >= 0,
                            j - ady <= -1,
                    ;
                    assert(false);
                }
                if step_y && j == ady {
                    assert(i < adx);
                    assert(j * adx == ady * adx);
                    assert(ady * adx - i * ady == ady * (adx - i)) by (nonlinear_arith);
                    assert(ady * (adx - i) >= ady) by (nonlinear_arith)
                        requires
                            ady >= 0,
                            adx - i >= 1,
                    ;
                    assert(false);
                }
            }
            let ghost (ox, oy, oerr) = (x as int, y as int, err as int);
            let ghost rem = m - (pts.len() - 1);
            assert(rem > 0) by {
                if adx >= ady {
                    assert(i < adx);
                } else {
                    assert(j < ady);
                }
            }
            if step_x {
                err = err - ady;
                x = x + sx;
            }
            if step_y {
                err = err + adx;
                y = y + sy;
            }
            proof {
                let i0 = i;
                let j0 = j;
                if step_x {
                    i = i + 1;
                }
                if step_y {
                    j = j + 1;
                }
                if step_x {
                    assert(i * ady == i0 * ady + ady) by (nonlinear_arith)
                        requires
                            i == i0 + 1,
                    ;
                } else {
                    assert(i == i0);
                }
                if step_y {
                    assert(j * adx == j0 * adx + adx) by (nonlinear_arith)
                        requires
                            j == j0 + 1,
                    ;
                } else {
                    assert(j == j0);
                }
                assert(i32::MIN <= x <= i32::MAX);
                assert(i32::MIN <= y <= i32::MAX);
                if gy0 == gy1 {
                    assert(!step_y);
                }
                if gx0 == gx1 {
                    assert(!step_x);
                }
            }
            self.point(x as i32, y as i32, r, g, b, a);
            proof {
                let prev = pts;
                pts = pts.push((x as int, y as int));
                assert(pts.drop_last() == prev);
                assert(self.bytes() == plot(plot_all(orig, w, h, prev, c), w, h, x as int, y as int, c));
                assert(plot_all(orig, w, h, pts, c) == plot(
                    plot_all(orig, w, h, pts.drop_last(), c),
                    w,
                    h,
                    pts.last().0,
                    pts.last().1,
                    c,
                ));
                assert(is_line_step(prev.last(), pts.last(), gx0, gy0, gx1, gy1));
                assert(bresenham_walk(ox, oy, oerr, adx as int, ady as int, sx as int, sy as int, rem as nat)
                    == seq![(ox, oy)] + bresenham_walk(
                    x as int,
                    y as int,
                    err as int,
                    adx as int,
                    ady as int,
                    sx as int,
                    sy as int,
                    (rem - 1) as nat,
                ));
                assert(prev =~= prev.drop_last().push((ox, oy)));
                assert(pts.drop_last() + bresenham_walk(
                    x as int,
                    y as int,
                    err as int,
                    adx as int,
                    ady as int,
                    sx as int,
                    sy as int,
                    (m - (pts.len() - 1)) as nat,
                ) =~= prev.drop_last() + bresenham_walk(
                    ox,
                    oy,
                    oerr,
                    adx as int,
                    ady as int,
                    sx as int,
                    sy as int,
                    rem as nat,
                ));
                assert(dist(x as int, gx0) == i && dist(y as int, gy0) == j);
                assert(line_deviation(pts.last(), gx0, gy0, gx1, gy1) == j * adx - i * ady);
                assert forall|k: int| 0 <= k < pts.len() implies -m <= 2 * line_deviation(
                    #[trigger] pts[k],
                    gx0,
                    gy0,
                    gx1,
                    gy1,
                ) <= m by {
                    if k < prev.len() {
                        assert(pts[k] == prev[k]);
                    }
                }
                assert forall|k: int| 0 <= k < pts.len() - 1 implies #[trigger] is_line_step(
                    pts[k],
                    pts[k + 1],
                    gx0,
                    gy0,
                    gx1,
                    gy1,
                ) by {
                    if k < prev.len() - 1 {
                        assert(is_line_step(prev[k], prev[k + 1], gx0, gy0, gx1, gy1));
                    }
                }
                if gy0 == gy1 {
                    assert(pts =~= hseg(gx0, gx1, gy0).take(i + 1));
                }
                if gx0 == gx1 {
                    assert(pts =~= vseg(gx0, gy0, gy1).take(j + 1));
                }
            }
        }
        proof {
            if gy0 == gy1 {
                assert(pts =~= hseg(gx0, gx1, gy0));
            }
            if gx0 == gx1 {
                assert(pts =~= vseg(gx0, gy0, gy1));
            }
            assert(is_line_path(pts, gx0, gy0, gx1, gy1));
            assert(pts.len() - 1 == m);
            assert(pts.drop_last() + seq![(x as int, y as int)] =~= pts);
            assert(pts == line_points(gx0, gy0, gx1, gy1));
        }
    }

    /// `point` for wide coordinates: a point outside the `i32` range is off
    /// the grid.
    fn point_wide(&mut self, x: i64, y: i64, r: u8, g: u8, b: u8, a: u8)
        requires
            old(self).wf(),
        ensures
            final(self).wf(),
            final(self).same_settings(old(self)),
            final(self).bytes() == plot(
                old(self).bytes(),
                old(self).width as int,
                old(self).height as int,
                x as int,
                y as int,
                (r, g, b, a),
            ),
    {
        if x < 0 || y < 0 || x > i32::MAX as i64 || y > i32::MAX as i64 {
            return;
        }
        self.point(x as i32, y as i32, r, g, b, a);
    }

    /// Plots the eight reflections of `(x, y)` about `(cx, cy)`.
    fn octants(&mut self, cx: i64, cy: i64, x: i64, y: i64, r: u8, g: u8, b: u8, a: u8)
        requires
            old(self).wf(),
            -0x1_0000_0000 <= cx <= 0x1_0000_0000,
            -0x1_0000_0000 <= cy <= 0x1_0000_0000,
            -0x1_0000_0000 <= x <= 0x1_0000_0000,
            -0x1_0000_0000 <= y <= 0x1_0000_0000,
        ensures
            final(self).wf(),
            final(self).same_settings(old(self)),
            final(self).bytes() == plot_all(
                old(self).bytes(),
                old(self).width as int,
                old(self).height as int,
                octant_points(cx as int, cy as int, x as int, y as int),
                (r, g, b, a),
            ),
    {
        let ghost w = self.width as int;
        let ghost h = self.height as int;
        let ghost s0 = self.bytes();
        let ghost c: Rgba = (r, g, b, a);
        let pts: [(i64, i64); 8] = [
            (cx + x, cy + y),
            (cx - x, cy + y),
            (cx + x, cy - y),
            (cx - x, cy - y),
            (cx + y, cy + x),
            (cx - y, cy + x),
            (cx + y, cy - x),
            (cx - y, cy - x),
        ];
        let ghost target = octant_points(cx as int, cy as int, x as int, y as int);
        let ghost mut done: Seq<(int, int)> = Seq::empty();
        let mut k: usize = 0;
        while k < 8
            invariant
                self.wf(),
                self.same_settings(old(self)),
                w == self.width,
                h == self.height,
                c == (r, g, b, a),
                0 <= k <= 8,
                target == octant_points(cx as int, cy as int, x as int, y as int),
                forall|m: int| 0 <= m < 8 ==> (pts@[m].0 as int, pts@[m].1 as int) == target[m],
                done == target.take(k as int),
                self.bytes() == plot_all(s0, w, h, done, c),
            decreases 8 - k,
        {
            let (px, py) = pts[k];
            self.point_wide(px, py, r, g, b, a);
            proof {
                let prev = done;
                done = done.push((px as int, py as int));
                assert(done.drop_last() == prev);
                assert(done =~= target.take(k + 1));
            }
            k = k + 1;
        }
        assert(done =~= target);
    }

    /// Draws the circle of `radius` about `(cx, cy)` with the midpoint
    /// algorithm, plotting the eight reflections of each step through
    /// `point`; a radius of zero or less plots the centre only.
    pub fn circle(&mut self, cx: i32, cy: i32, radius: i32, r: u8, g: u8, b: u8, a: u8)
        requires
            old(self).wf(),
        ensures
            final(self).wf(),
            final(self).same_settings(old(self)),
            exists|steps: Seq<(int, int)>|
                {
                    &&& #[trigger] is_circle_steps(steps, circle_radius(radius as int))
                    &&& final(self).bytes() == plot_all(
                        old(self).bytes(),
                        old(self).width as int,
                        old(self).height as int,
                        circle_points(cx as int, cy as int, steps),
                        (r, g, b, a),
                    )
                },
    {
        let ghost w = self.width as int;
        let ghost h = self.height as int;
        let ghost orig = self.bytes();
        let ghost c: Rgba = (r, g, b, a);
        let rad: i64 = if radius < 0 { 0 } else { radius as i64 };
        let cx = cx as i64;
        let cy = cy as i64;
        let mut x: i64 = rad;
        let mut y: i64 = 0;
        let mut q: i64 = rad;
        let ghost mut steps: Seq<(int, int)> = Seq::empty();
        assert(plot_all(orig, w, h, circle_points(cx as int, cy as int, steps), c) == orig);
        assert((x + 1) * (x + 1) + y * y > rad * rad + rad) by (nonlinear_arith)
            requires
                x == rad,
                y == 0,
                rad >= 0,
        ;
        while x >= y
            invariant
                self.wf(),
                self.same_settings(old(self)),
                w == self.width,
                h == self.height,
                c == (r, g, b, a),
                0 <= rad <= i32::MAX,
                i32::MIN <= cx <= i32::MAX,
                i32::MIN <= cy <= i32::MAX,
                0 <= y <= rad + 1,
                y - 2 <= x <= rad,
                -2 * y <= q <= 2 * rad,
                q == rad + rad * rad - x * x - y * y,
                (x + 1) * (x + 1) + y * y > rad * rad + rad,
                x >= y ==> 0 <= q <= 2 * x,
                forall|k: int| 0 <= k < steps.len() ==> is_midpoint((#[trigger] steps[k]).0, k, rad as int),
                steps.len() == y,
                steps.len() == 0 ==> x == rad,
                steps.len() > 0 ==> steps[0] == (rad as int, 0int),
                steps.len() > 0 ==> x == steps.last().0 || x == steps.last().0 - 1,
                forall|k: int| 0 <= k < steps.len() ==> (#[trigger] steps[k]).1 == k && steps[k].0 >= k,
                forall|k: int|
                    0 <= k < steps.len() - 1 ==> #[trigger] steps[k + 1].0 == steps[k].0
                        || steps[k + 1].0 == steps[k].0 - 1,
                self.bytes() == plot_all(orig, w, h, circle_points(cx as int, cy as int, steps), c),
            decreases x - y + 2,
        {
            let ghost before = self.bytes();
            self.octants(cx, cy, x, y, r, g, b, a);
            proof {
                let prev = steps;
                steps = steps.push((x as int, y as int));
                assert(steps.drop_last() == prev);
                lemma_plot_all_append(
                    orig,
                    w,
                    h,
                    circle_points(cx as int, cy as int, prev),
                    octant_points(cx as int, cy as int, x as int, y as int),
                    c,
                );
                assert forall|k: int| 0 <= k < steps.len() - 1 implies #[trigger] steps[k + 1].0
                    == steps[k].0 || steps[k + 1].0 == steps[k].0 - 1 by {
                    if k < prev.len() - 1 {
                        assert(prev[k + 1].0 == prev[k].0 || prev[k + 1].0 == prev[k].0 - 1);
                    }
                }
                assert((x + 1) * (x + 1) == x * x + 2 * x + 1) by (nonlinear_arith);
                assert(is_midpoint(x as int, y as int, rad as int));
                assert forall|k: int| 0 <= k < steps.len() implies is_midpoint(
                    (#[trigger] steps[k]).0,
                    k,
                    rad as int,
                ) by {
                    if k < prev.len() {
                        assert(steps[k] == prev[k]);
                    }
                }
            }
            let ghost x0 = x as int;
            let ghost y0 = y as int;
            q = q - y - y - 1;
            y = y + 1;
            assert(y * y == y0 * y0 + 2 * y0 + 1) by (nonlinear_arith)
                requires
                    y == y0 + 1,
            ;
            if q < 0 {
                q = q + x + x - 1;
                x = x - 1;
                assert(x * x == x0 * x0 - 2 * x0 + 1) by (nonlinear_arith)
                    requires
                        x == x0 - 1,
                ;
            } else {
                assert((x + 1) * (x + 1) + y * y > rad * rad + rad) by (nonlinear_arith)
                    requires
                        (x + 1) * (x + 1) + y0 * y0 > rad * rad + rad,
                        y * y == y0 * y0 + 2 * y0 + 1,
                        y0 >= 0,
                ;
            }
        }
        assert forall|x2: int| #[trigger] is_midpoint(x2, steps.len() as int, rad as int) implies x2
            < steps.len() by {
            if x2 >= y {
                assert(x2 * x2 >= (x + 1) * (x + 1)) by (nonlinear_arith)
                    requires
                        x2 >= x + 1,
                        x + 1 >= 0,
                ;
            }
        }
        assert(circle_radius(radius as int) == rad);
        assert(is_circle_steps(steps, circle_radius(radius as int)));
    }

    /// Draws the outline of the rectangle with corners `(x, y)` and
    /// `(x + width, y + height)`; see `outline`.
    pub fn rect(&mut self, x: i32, y: i32, width: i32, height: i32, r: u8, g: u8, b: u8, a: u8)
        requires
            old(self).wf(),
            i32::MIN <= x + width <= i32::MAX,
            i32::MIN <= y + height <= i32::MAX,
        ensures
            final(self).wf(),
            final(self).same_settings(old(self)),
            final(self).bytes() == plot_all(
                old(self).bytes(),
                old(self).width as int,
                old(self).height as int,
                outline_points(x as int, y as int, x + width, y + height),
                (r, g, b, a),
            ),
    {
        self.outline(x, y, x + width, y + height, r, g, b, a);
    }

    /// Draws the outline of the rectangle with corners `(x1, y1)` and
    /// `(x2, y2)` as four lines: top, right, bottom, left.
    pub fn outline(&mut self, x1: i32, y1: i32, x2: i32, y2: i32, r: u8, g: u8, b: u8, a: u8)
        requires
            old(self).wf(),
        ensures
            final(self).wf(),
            final(self).same_settings(old(self)),
            final(self).bytes() == plot_all(
                old(self).bytes(),
                old(self).width as int,
                old(self).height as int,
                outline_points(x1 as int, y1 as int, x2 as int, y2 as int),
                (r, g, b, a),
            ),
    {
        let ghost w = self.width as int;
        let ghost h = self.height as int;
        let ghost c: Rgba = (r, g, b, a);
        let ghost s0 = self.bytes();
        self.line(x1, y1, x2, y1, r, g, b, a);
        self.line(x2, y1, x2, y2, r, g, b, a);
        self.line(x2, y2, x1, y2, r, g, b, a);
        self.line(x1, y2, x1, y1, r, g, b, a);
        proof {
            let top = hseg(x1 as int, x2 as int, y1 as int);
            let right = vseg(x2 as int, y1 as int, y2 as int);
            let bottom = hseg(x2 as int, x1 as int, y2 as int);
            let left = vseg(x1 as int, y2 as int, y1 as int);
            lemma_plot_all_append(s0, w, h, top, right, c);
            lemma_plot_all_append(s0, w, h, top + right, bottom, c);
            lemma_plot_all_append(s0, w, h, top + right + bottom, left, c);
        }
    }

    /// Composites `(r, g, b, a)` onto every pixel of the rectangle
    /// `x .. x + width` by `y .. y + height` that lies on the grid; an empty
    /// or negative size draws nothing.
    pub fn fillrect(&mut self, x: i32, y: i32, width: i32, height: i32, r: u8, g: u8, b: u8, a: u8)
        requires
            old(self).wf(),
        ensures
            final(self).wf(),
            final(self).same_settings(old(self)),
            forall|px: int, py: int|
                in_bounds(old(self).width as int, old(self).height as int, px, py)
                    ==> #[trigger] final(self).pixel(px, py) == (if in_rect(
                    x as int,
                    y as int,
                    width as int,
                    height as int,
                    px,
                    py,
                ) {
                    blend((r, g, b, a), old(self).pixel(px, py))
                } else {
                    old(self).pixel(px, py)
                }),
    {
        let ww = self.width as i64;
        let hh = self.height as i64;
        let x0: i64 = if x < 0 { 0 } else { x as i64 };
        let y0: i64 = if y < 0 { 0 } else { y as i64 };
        let xe: i64 = if x as i64 + width as i64 > ww { ww } else { x as i64 + width as i64 };
        let ye: i64 = if y as i64 + height as i64 > hh { hh } else { y as i64 + height as i64 };
        if xe <= x0 || ye <= y0 {
            proof {
                assert forall|px: int, py: int|
                    in_bounds(ww as int, hh as int, px, py) implies !in_rect(
                    x as int,
                    y as int,
                    width as int,
                    height as int,
                    px,
                    py,
                ) by {}
            }
            return;
        }
        self.fill_box(x0 as usize, y0 as usize, (xe - x0) as usize, (ye - y0) as usize, (r, g, b, a));
        proof {
            assert forall|px: int, py: int|
                in_bounds(ww as int, hh as int, px, py) implies (in_rect(
                x as int,
                y as int,
                width as int,
                height as int,
                px,
                py,
            ) <==> in_rect(x0 as int, y0 as int, (xe - x0) as int, (ye - y0) as int, px, py)) by {}
        }
    }

    /// Composites `c` onto every pixel of the `cw` by `ch` box at `(x0, y0)`,
    /// which lies on the grid.
    fn fill_box(&mut self, x0: usize, y0: usize, cw: usize, ch: usize, c: Rgba)
        requires
            old(self).wf(),
            x0 + cw <= old(self).width,
            y0 + ch <= old(self).height,
        ensures
            final(self).wf(),
            final(self).same_settings(old(self)),
            forall|px: int, py: int|
                in_bounds(old(self).width as int, old(self).height as int, px, py)
                    ==> #[trigger] final(self).pixel(px, py) == (if in_rect(
                    x0 as int,
                    y0 as int,
                    cw as int,
                    ch as int,
                    px,
                    py,
                ) {
                    blend(c, old(self).pixel(px, py))
                } else {
                    old(self).pixel(px, py)
                }),
    {
        let ghost orig = self.bytes();
        let ghost w = self.width as int;
        let ghost h = self.height as int;
        proof {
            lemma_grid_size(w, h);
            assert(cw * ch <= w * h) by (nonlinear_arith)
                requires
                    cw <= w,
                    ch <= h,
            ;
        }
        let n = cw * ch;
        let mut k: usize = 0;
        while k < n
            invariant
                self.wf(),
                self.same_settings(old(self)),
                orig == old(self).bytes(),
                w == self.width,
                h == self.height,
                x0 + cw <= w,
                y0 + ch <= h,
                n == cw * ch,
                0 <= k <= n,
                forall|j: int|
                    0 <= j < w * h ==> #[trigger] pixel_at(self.bytes(), j) == (if in_rect(
                        x0 as int,
                        y0 as int,
                        cw as int,
                        ch as int,
                        j % w,
                        j / w,
                    ) && (j / w - y0) * cw + (j % w - x0) < k {
                        blend(c, pixel_at(orig, j))
                    } else {
                        pixel_at(orig, j)
                    }),
            decreases n - k,
        {
            assert(cw > 0) by (nonlinear_arith)
                requires
                    k < n,
                    n == cw * ch,
            ;
            proof {
                lemma_pixel_coords(cw as int, ch as int, k as int);
            }
            let px = x0 + k % cw;
            let py = y0 + k / cw;
            let ghost before = self.bytes();
            self.unsafe_point(px as i32, py as i32, c.0, c.1, c.2, c.3);
            proof {
                let j0 = py * w + px;
                lemma_pixel_index(w, h, px as int, py as int);
                lemma_put_pixel(before, j0, blend(c, pixel_at(before, j0)));
                assert forall|j: int| 0 <= j < w * h implies #[trigger] pixel_at(self.bytes(), j) == (
                if in_rect(x0 as int, y0 as int, cw as int, ch as int, j % w, j / w) && (j / w - y0)
                    * cw + (j % w - x0) < k + 1 {
                    blend(c, pixel_at(orig, j))
                } else {
                    pixel_at(orig, j)
                }) by {
                    lemma_blit_index(w, h, x0 as int, y0 as int, cw as int, ch as int, j, k as int);
                    lemma_pixel_coords(w, h, j);
                    if j != j0 {
                        assert(pixel_at(self.bytes(), j) == pixel_at(before, j));
                    }
                }
            }
            k = k + 1;
        }
        proof {
            assert forall|px: int, py: int| in_bounds(w, h, px, py) implies #[trigger] self.pixel(px, py) == (
            if in_rect(x0 as int, y0 as int, cw as int, ch as int, px, py) {
                blend(c, old(self).pixel(px, py))
            } else {
                old(self).pixel(px, py)
            }) by {
                lemma_pixel_index(w, h, px, py);
                if in_rect(x0 as int, y0 as int, cw as int, ch as int, px, py) {
                    assert((py - y0) * cw + (px - x0) < cw * ch) by (nonlinear_arith)
                        requires
                            0 <= px - x0 < cw,
                            0 <= py - y0 < ch,
                    ;
                }
            }
        }
    }
}

/// Plotting an opaque colour along `pts` leaves a pixel that some point hits
/// with exactly that colour, and any other pixel as it was.
pub proof fn lemma_plot_all_opaque(
    s: Seq<u8>,
    w: int,
    h: int,
    pts: Seq<(int, int)>,
    c: Rgba,
    x: int,
    y: int,
)
    requires
        s.len() == w * h * 4,
        in_bounds(w, h, x, y),
        c.3 == 255,
    ensures
        plot_all(s, w, h, pts, c).len() == s.len(),
        pixel_at(plot_all(s, w, h, pts, c), y * w + x) == (if pts.contains((x, y)) {
            c
        } else {
            pixel_at(s, y * w + x)
        }),
    decreases pts.len(),
{
    if pts.len() > 0 {
        let prev = pts.drop_last();
        let q = pts.last();
        lemma_plot_all_opaque(s, w, h, prev, c, x, y);
        let mid = plot_all(s, w, h, prev, c);
        lemma_pixel_index(w, h, x, y);
        if in_bounds(w, h, q.0, q.1) {
            lemma_pixel_index(w, h, q.0, q.1);
            let jq = q.1 * w + q.0;
            lemma_put_pixel(mid, jq, blend(c, pixel_at(mid, jq)));
            crate::color::lemma_opaque_over(c, pixel_at(mid, jq));
            if q != (x, y) {
                assert(jq != y * w + x) by {
                    if jq == y * w + x {
                        assert((q.0, q.1) == (x, y));
                    }
                }
            }
        }
        if pts.contains((x, y)) && q != (x, y) {
            let k = choose|k: int| 0 <= k < pts.len() && pts[k] == (x, y);
            assert(prev[k] == (x, y));
        }
        if prev.contains((x, y)) {
            let k = choose|k: int| 0 <= k < prev.len() && prev[k] == (x, y);
            assert(pts[k] == (x, y));
        }
        if q == (x, y) {
            assert(pts[pts.len() - 1] == (x, y));
        }
    }
}

/// A horizontal line in an opaque colour covers exactly its run: on row
/// `y` the pixels from `x0` to `x1` take the colour, and every other pixel
/// keeps its own.
pub proof fn lemma_horizontal_line_covers_run(s: Seq<u8>, w: int, h: int, x0: int, x1: int, y: int, c: Rgba)
    requires
        s.len() == w * h * 4,
        c.3 == 255,
    ensures
        forall|px: int, py: int|
            in_bounds(w, h, px, py) ==> #[trigger] pixel_at(
                plot_all(s, w, h, hseg(x0, x1, y), c),
                py * w + px,
            ) == (if py == y && (x0 <= px <= x1 || x1 <= px <= x0) {
                c
            } else {
                pixel_at(s, py * w + px)
            }),
{
    let pts = hseg(x0, x1, y);
    assert forall|px: int, py: int| in_bounds(w, h, px, py) implies #[trigger] pixel_at(
        plot_all(s, w, h, pts, c),
        py * w + px,
    ) == (if py == y && (x0 <= px <= x1 || x1 <= px <= x0) {
        c
    } else {
        pixel_at(s, py * w + px)
    }) by {
        lemma_plot_all_opaque(s, w, h, pts, c, px, py);
        if py == y && (x0 <= px <= x1 || x1 <= px <= x0) {
            let k = if x0 < x1 { px - x0 } else { x0 - px };
            assert(pts[k] == (px, py));
        }
        if pts.contains((px, py)) {
            let k = choose|k: int| 0 <= k < pts.len() && pts[k] == (px, py);
            assert(pts[k] == (walk(x0, x1, k), y));
        }
    }
}

/// Reflection number `n` (0 to 7) of `p` about `(cx, cy)`, in the order of
/// `octant_points`: optionally swap the two offsets, then optionally negate
/// each.
pub open spec fn reflect(n: int, cx: int, cy: int, p: (int, int)) -> (int, int) {
    let u = p.0 - cx;
    let v = p.1 - cy;
    let (a, b) = if n >= 4 {
        (v, u)
    } else {
        (u, v)
    };
    let a2 = if n % 2 == 1 {
        -a
    } else {
        a
    };
    let b2 = if n % 4 >= 2 {
        -b
    } else {
        b
    };
    (cx + a2, cy + b2)
}

/// The octant group of a step is closed under each reflection.
proof fn lemma_octant_closed(cx: int, cy: int, a: int, b: int, m: int, n: int)
    requires
        0 <= m < 8,
        0 <= n < 8,
    ensures
        octant_points(cx, cy, a, b).contains(reflect(n, cx, cy, octant_points(cx, cy, a, b)[m])),
{
    let o = octant_points(cx, cy, a, b);
    let q = reflect(n, cx, cy, o[m]);
    assert(o[0] == (cx + a, cy + b));
    assert(o[1] == (cx - a, cy + b));
    assert(o[2] == (cx + a, cy - b));
    assert(o[3] == (cx - a, cy - b));
    assert(o[4] == (cx + b, cy + a));
    assert(o[5] == (cx - b, cy + a));
    assert(o[6] == (cx + b, cy - a));
    assert(o[7] == (cx - b, cy - a));
    assert(o.len() == 8);
    assert(exists|k: int| 0 <= k < 8 && o[k] == q) by {
        if q == o[0] {
        } else if q == o[1] {
            assert(o[1] == q);
        } else if q == o[2] {
            assert(o[2] == q);
        } else if q == o[3] {
            assert(o[3] == q);
        } else if q == o[4] {
            assert(o[4] == q);
        } else if q == o[5] {
            assert(o[5] == q);
        } else if q == o[6] {
            assert(o[6] == q);
        } else {
            assert(o[7] == q);
        }
    }
}

/// Every circle's point set is symmetric under the eight reflections about
/// its centre.
pub proof fn lemma_circle_symmetric(cx: int, cy: int, steps: Seq<(int, int)>, p: (int, int), n: int)
    requires
        circle_points(cx, cy, steps).contains(p),
        0 <= n < 8,
    ensures
        circle_points(cx, cy, steps).contains(reflect(n, cx, cy, p)),
    decreases steps.len(),
{
    let all = circle_points(cx, cy, steps);
    let prev = circle_points(cx, cy, steps.drop_last());
    let o = octant_points(cx, cy, steps.last().0, steps.last().1);
    assert(all == prev + o);
    let i = choose|i: int| 0 <= i < all.len() && all[i] == p;
    if i < prev.len() {
        assert(prev[i] == p);
        lemma_circle_symmetric(cx, cy, steps.drop_last(), p, n);
        let k = choose|k: int| 0 <= k < prev.len() && prev[k] == reflect(n, cx, cy, p);
        assert(all[k] == prev[k]);
    } else {
        let m = i - prev.len();
        assert(o.len() == 8);
        assert(o[m] == p);
        lemma_octant_closed(cx, cy, steps.last().0, steps.last().1, m, n);
        let k = choose|k: int| 0 <= k < o.len() && o[k] == reflect(n, cx, cy, p);
        assert(all[prev.len() + k] == o[k]);
    }
}

} // verus!
