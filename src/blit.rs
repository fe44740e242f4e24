//! Sub-image blits onto a pixel buffer and captures out of it, with images
//! held as plain RGBA bytes.
use vstd::prelude::*;
use vstd::arithmetic::div_mod::{lemma_fundamental_div_mod, lemma_fundamental_div_mod_converse};

use crate::canvas::{
    RGBABufferBase,
    in_bounds,
    lemma_grid_size,
    lemma_pixel_coords,
    lemma_pixel_index,
    lemma_put_pixel,
    pixel_at,
};
use crate::color::{Rgba, blend};

verus! {

/// The ways a canvas request can fail.
#[derive(PartialEq, Eq, Structural, Clone, Copy, Debug)]
pub enum CanvasError {
    /// Sides or byte counts that do not describe an image.
    InvalidDimensions,
    /// A sub-image rectangle that reaches beyond its source image.
    CropOutOfBounds,
    /// A font or image that could not be read or decoded.
    ResourceLoadFailure,
}

/// An RGBA image as plain values: `width * height` pixels of four bytes,
/// row by row.
pub struct ImageData {
    pub width: u32,
    pub height: u32,
    pub data: Vec<u8>,
}

impl ImageData {
    /// The bytes hold exactly four per pixel.
    pub open spec fn wf(&self) -> bool {
        self.data@.len() == self.width as int * self.height as int * 4
    }

    /// The image of `width` by `height` pixels holding `data`, or
    /// `InvalidDimensions` when `data` does not hold four bytes per pixel.
    pub fn new(width: u32, height: u32, data: Vec<u8>) -> (r: Result<ImageData, CanvasError>)
        ensures
            data@.len() == width as int * height as int * 4 <==> r is Ok,
            r matches Ok(img) ==> img.wf() && img.width == width && img.height == height
                && img.data@ == data@,
            r matches Err(e) ==> e == CanvasError::InvalidDimensions,
    {
        let len = data.len();
        assert(width as int * height as int <= 0xffff_ffff * 0xffff_ffff) by (nonlinear_arith)
            requires
                width <= 0xffff_ffff,
                height <= 0xffff_ffff,
        ;
        let pixels = width as u64 * height as u64;
        if len % 4 == 0 && (len / 4) as u64 == pixels {
            Ok(ImageData { width, height, data })
        } else {
            Err(CanvasError::InvalidDimensions)
        }
    }
}

/// The rectangle `(sx, sy, w, h)` of a `iw` by `ih` image that a blit takes:
/// the origin defaults to the corner and the size to the rest of the image;
/// `None` when the rectangle reaches beyond the image.
pub open spec fn crop_rect(
    iw: int,
    ih: int,
    sx: Option<u32>,
    sy: Option<u32>,
    dx: Option<u32>,
    dy: Option<u32>,
) -> Option<(int, int, int, int)> {
    let x0 = match sx {
        Some(v) => v as int,
        None => 0,
    };
    let y0 = match sy {
        Some(v) => v as int,
        None => 0,
    };
    let cw = match dx {
        Some(v) => v as int,
        None => iw - x0,
    };
    let ch = match dy {
        Some(v) => v as int,
        None => ih - y0,
    };
    if x0 <= iw && y0 <= ih && 0 <= cw && 0 <= ch && x0 + cw <= iw && y0 + ch <= ih {
        Some((x0, y0, cw, ch))
    } else {
        None
    }
}

/// Whether `(px, py)` lies in the `cw` by `ch` rectangle at `(x, y)`.
pub open spec fn in_rect(x: int, y: int, cw: int, ch: int, px: int, py: int) -> bool {
    x <= px < x + cw && y <= py < y + ch
}

/// The pixel of `img` that a blit of its rectangle at `(sx, sy)` to the
/// canvas point `(x, y)` puts at the canvas point `(px, py)`.
pub open spec fn blit_source(
    img: &ImageData,
    sx: int,
    sy: int,
    x: int,
    y: int,
    px: int,
    py: int,
) -> Rgba {
    pixel_at(img.data@, (sy + py - y) * img.width + (sx + px - x))
}

impl RGBABufferBase {
    /// The colour at wide coordinates `(x, y)`: transparent black off the grid.
    fn pixel_wide(&self, x: i64, y: i64) -> (c: Rgba)
        requires
            self.wf(),
        ensures
            c == self.pixel(x as int, y as int),
    {
        if x < 0 || y < 0 || x >= self.width as i64 || y >= self.height as i64 {
            return (0, 0, 0, 0);
        }
        self.get_point(x as i32, y as i32)
    }

    /// Copies the `width` by `height` rectangle at `(x, y)` into a new image;
    /// the parts off the grid come out transparent black.
    pub fn captureimage(&self, x: i32, y: i32, width: u32, height: u32) -> (img: ImageData)
        requires
            self.wf(),
            width as int * height as int * 4 <= usize::MAX,
        ensures
            img.wf(),
            img.width == width,
            img.height == height,
            forall|ix: int, iy: int|
                0 <= ix < width && 0 <= iy < height ==> #[trigger] pixel_at(
                    img.data@,
                    iy * width + ix,
                ) == self.pixel(x + ix, y + iy),
    {
        let cw = width as usize;
        let ch = height as usize;
        proof {
            lemma_grid_size(cw as int, ch as int);
        }
        let n = cw * ch;
        let mut data: Vec<u8> = Vec::new();
        let mut k: usize = 0;
        while k < n
            invariant
                self.wf(),
                cw == width,
                ch == height,
                n == cw * ch,
                n * 4 <= usize::MAX,
                0 <= k <= n,
                data@.len() == 4 * k,
                forall|j: int|
                    0 <= j < k ==> #[trigger] pixel_at(data@, j) == self.pixel(
                        x + j % (cw as int),
                        y + j / (cw as int),
                    ),
            decreases n - k,
        {
            assert(cw > 0) by (nonlinear_arith)
                requires
                    k < n,
                    n == cw * ch,
            ;
            proof {
                lemma_pixel_coords(cw as int, ch as int, k as int);
            }
            let ix = (k % cw) as i64;
            let iy = (k / cw) as i64;
            let c = self.pixel_wide(x as i64 + ix, y as i64 + iy);
            let ghost prev = data@;
            data.push(c.0);
            data.push(c.1);
            data.push(c.2);
            data.push(c.3);
            proof {
                assert forall|j: int| 0 <= j < k + 1 implies #[trigger] pixel_at(data@, j)
                    == self.pixel(x + j % (cw as int), y + j / (cw as int)) by {
                    if j < k {
                        assert(pixel_at(data@, j) == pixel_at(prev, j));
                    }
                }
            }
            k = k + 1;
        }
        proof {
            assert forall|ix: int, iy: int| 0 <= ix < width && 0 <= iy < height implies #[trigger] pixel_at(
                data@,
                iy * width + ix,
            ) == self.pixel(x + ix, y + iy) by {
                lemma_pixel_index(cw as int, ch as int, ix, iy);
            }
        }
        ImageData { width, height, data }
    }

    /// Composites the rectangle of `img` chosen by `img_sx`, `img_sy`
    /// (its origin, default 0) and `img_dx`, `img_dy` (its size, default the
    /// rest of the image) onto this buffer with its corner at `(x, y)`; parts
    /// off the grid are dropped. A rectangle that reaches beyond `img` is
    /// refused with `CropOutOfBounds`, and nothing is drawn.
    pub fn drawimage(
        &mut self,
        img: &ImageData,
        x: i32,
        y: i32,
        img_sx: Option<u32>,
        img_sy: Option<u32>,
        img_dx: Option<u32>,
        img_dy: Option<u32>,
    ) -> (res: Result<(), CanvasError>)
        requires
            old(self).wf(),
            img.wf(),
        ensures
            final(self).wf(),
            final(self).same_settings(old(self)),
            res is Ok <==> crop_rect(
                img.width as int,
                img.height as int,
                img_sx,
                img_sy,
                img_dx,
                img_dy,
            ) is Some,
            res matches Err(e) ==> e == CanvasError::CropOutOfBounds && final(self).bytes()
                == old(self).bytes(),
            crop_rect(img.width as int, img.height as int, img_sx, img_sy, img_dx, img_dy) matches Some(
                rect,
            ) ==> forall|px: int, py: int|
                in_bounds(old(self).width as int, old(self).height as int, px, py)
                    ==> #[trigger] final(self).pixel(px, py) == (if in_rect(
                    x as int,
                    y as int,
                    rect.2,
                    rect.3,
                    px,
                    py,
                ) {
                    blend(
                        blit_source(img, rect.0, rect.1, x as int, y as int, px, py),
                        old(self).pixel(px, py),
                    )
                } else {
                    old(self).pixel(px, py)
                }),
    {
        let sx: u64 = match img_sx {
            Some(v) => v as u64,
            None => 0,
        };
        let sy: u64 = match img_sy {
            Some(v) => v as u64,
            None => 0,
        };
        let iw = img.width as u64;
        let ih = img.height as u64;
        if sx > iw || sy > ih {
            return Err(CanvasError::CropOutOfBounds);
        }
        let cw: u64 = match img_dx {
            Some(v) => v as u64,
            None => iw - sx,
        };
        let ch: u64 = match img_dy {
            Some(v) => v as u64,
            None => ih - sy,
        };
        if sx + cw > iw || sy + ch > ih {
            return Err(CanvasError::CropOutOfBounds);
        }
        let ghost rect = (sx as int, sy as int, cw as int, ch as int);
        assert(crop_rect(img.width as int, img.height as int, img_sx, img_sy, img_dx, img_dy)
            == Some(rect));
        self.blit_rect(img, x, y, sx as usize, sy as usize, cw as usize, ch as usize);
        Ok(())
    }

    /// Composites the `cw` by `ch` rectangle of `img` at `(sx, sy)` onto this
    /// buffer with its corner at `(x, y)`.
    fn blit_rect(
        &mut self,
        img: &ImageData,
        x: i32,
        y: i32,
        sx: usize,
        sy: usize,
        cw: usize,
        ch: usize,
    )
        requires
            old(self).wf(),
            img.wf(),
            sx + cw <= img.width,
            sy + ch <= img.height,
        ensures
            final(self).wf(),
            final(self).same_settings(old(self)),
            forall|px: int, py: int|
                in_bounds(old(self).width as int, old(self).height as int, px, py)
                    ==> #[trigger] final(self).pixel(px, py) == (if in_rect(
                    x as int,
                    y as int,
                    cw as int,
                    ch as int,
                    px,
                    py,
                ) {
                    blend(
                        blit_source(img, sx as int, sy as int, x as int, y as int, px, py),
                        old(self).pixel(px, py),
                    )
                } else {
                    old(self).pixel(px, py)
                }),
    {
        let ghost orig = self.bytes();
        let ghost w = self.width as int;
        let ghost h = self.height as int;
        let iw = img.width as usize;
        let dlen = img.data.len();
        proof {
            lemma_grid_size(cw as int, ch as int);
            lemma_grid_size(img.width as int, img.height as int);
            assert(cw * ch <= img.width as int * img.height as int) by (nonlinear_arith)
                requires
                    cw <= img.width,
                    ch <= img.height,
            ;
        }
        let n = cw * ch;
        let mut k: usize = 0;
        while k < n
            invariant
                self.wf(),
                self.same_settings(old(self)),
                orig == old(self).bytes(),
                w == self.width,
                h == self.height,
                img.wf(),
                iw == img.width,
                dlen == img.data@.len(),
                sx + cw <= img.width,
                sy + ch <= img.height,
                n == cw * ch,
                0 <= k <= n,
                forall|j: int|
                    0 <= j < w * h ==> #[trigger] pixel_at(self.bytes(), j) == (if in_rect(
                        x as int,
                        y as int,
                        cw as int,
                        ch as int,
                        j % w,
                        j / w,
                    ) && (j / w - y) * cw + (j % w - x) < k {
                        blend(
                            blit_source(img, sx as int, sy as int, x as int, y as int, j % w, j / w),
                            pixel_at(orig, j),
                        )
                    } else {
                        pixel_at(orig, j)
                    }),
            decreases n - k,
        {
            assert(cw > 0) by (nonlinear_arith)
                requires
                    k < n,
                    n == cw * ch,
            ;
            proof {
                lemma_pixel_coords(cw as int, ch as int, k as int);
            }
            let ix = k % cw;
            let iy = k / cw;
            let px = x as i64 + ix as i64;
            let py = y as i64 + iy as i64;
            if 0 <= px && px < self.width as i64 && 0 <= py && py < self.height as i64 {
                proof {
                    lemma_pixel_index(img.width as int, img.height as int, (sx + ix) as int, (sy + iy) as int);
                }
                let si = ((sy + iy) * iw + (sx + ix)) * 4;
                let src = (img.data[si], img.data[si + 1], img.data[si + 2], img.data[si + 3]);
                let ghost before = self.bytes();
                self.unsafe_point(px as i32, py as i32, src.0, src.1, src.2, src.3);
                proof {
                    let j0 = py * w + px;
                    lemma_pixel_index(w, h, px as int, py as int);
                    lemma_put_pixel(before, j0, blend(src, pixel_at(before, j0)));
                    assert forall|j: int| 0 <= j < w * h implies #[trigger] pixel_at(self.bytes(), j) == (
                    if in_rect(x as int, y as int, cw as int, ch as int, j % w, j / w) && (j / w - y)
                        * cw + (j % w - x) < k + 1 {
                        blend(
                            blit_source(img, sx as int, sy as int, x as int, y as int, j % w, j / w),
                            pixel_at(orig, j),
                        )
                    } else {
                        pixel_at(orig, j)
                    }) by {
                        lemma_blit_index(w, h, x as int, y as int, cw as int, ch as int, j, k as int);
                        lemma_pixel_coords(w, h, j);
                        if j == j0 {
                            assert(src == blit_source(img, sx as int, sy as int, x as int, y as int, j % w, j / w));
                        } else {
                            assert(pixel_at(self.bytes(), j) == pixel_at(before, j));
                        }
                    }
                }
            } else {
                proof {
                    assert forall|j: int| 0 <= j < w * h implies #[trigger] pixel_at(self.bytes(), j) == (
                    if in_rect(x as int, y as int, cw as int, ch as int, j % w, j / w) && (j / w - y)
                        * cw + (j % w - x) < k + 1 {
                        blend(
                            blit_source(img, sx as int, sy as int, x as int, y as int, j % w, j / w),
                            pixel_at(orig, j),
                        )
                    } else {
                        pixel_at(orig, j)
                    }) by {
                        lemma_blit_index(w, h, x as int, y as int, cw as int, ch as int, j, k as int);
                        lemma_pixel_coords(w, h, j);
                    }
                }
            }
            k = k + 1;
        }
        proof {
            assert forall|px: int, py: int| in_bounds(w, h, px, py) implies #[trigger] self.pixel(px, py) == (
            if in_rect(x as int, y as int, cw as int, ch as int, px, py) {
                blend(
                    blit_source(img, sx as int, sy as int, x as int, y as int, px, py),
                    old(self).pixel(px, py),
                )
            } else {
                old(self).pixel(px, py)
            }) by {
                lemma_pixel_index(w, h, px, py);
                let j = py * w + px;
                if in_rect(x as int, y as int, cw as int, ch as int, px, py) {
                    assert((py - y) * cw + (px - x) < cw * ch) by (nonlinear_arith)
                        requires
                            0 <= px - x < cw,
                            0 <= py - y < ch,
                    ;
                }
            }
        }
    }
}

/// The canvas pixel `j` of a grid `w` wide lies in the blit rectangle at
/// `(x, y)` with rectangle index `k` exactly when it is the point
/// `(x + k % cw, y + k / cw)`.
pub proof fn lemma_blit_index(w: int, h: int, x: int, y: int, cw: int, ch: int, j: int, k: int)
    requires
        0 <= j < w * h,
        w > 0,
        cw > 0,
        0 <= k,
    ensures
        (in_rect(x, y, cw, ch, j % w, j / w) && (j / w - y) * cw + (j % w - x) == k) <==> (
        in_rect(x, y, cw, ch, j % w, j / w) && j % w == x + k % cw && j / w == y + k / cw),
{
    lemma_fundamental_div_mod(k, cw);
    if in_rect(x, y, cw, ch, j % w, j / w) && (j / w - y) * cw + (j % w - x) == k {
        lemma_fundamental_div_mod_converse(k, cw, j / w - y, j % w - x);
    }
    if in_rect(x, y, cw, ch, j % w, j / w) && j % w == x + k % cw && j / w == y + k / cw {
        assert((j / w - y) * cw == (k / cw) * cw);
        assert((k / cw) * cw == cw * (k / cw)) by (nonlinear_arith);
    }
}

/// Blitting an opaque rectangle overwrites the covered pixels with the
/// source pixels exactly.
pub proof fn lemma_opaque_blit_copies(
    img: &ImageData,
    before: RGBABufferBase,
    after: RGBABufferBase,
    x: int,
    y: int,
    rect: (int, int, int, int),
)
    requires
        before.wf(),
        after.wf(),
        after.same_settings(&before),
        forall|px: int, py: int|
            in_rect(x, y, rect.2, rect.3, px, py) ==> (#[trigger] blit_source(
                img,
                rect.0,
                rect.1,
                x,
                y,
                px,
                py,
            )).3 == 255,
        forall|px: int, py: int|
            in_bounds(before.width as int, before.height as int, px, py)
                ==> #[trigger] after.pixel(px, py) == (if in_rect(x, y, rect.2, rect.3, px, py) {
                blend(blit_source(img, rect.0, rect.1, x, y, px, py), before.pixel(px, py))
            } else {
                before.pixel(px, py)
            }),
    ensures
        forall|px: int, py: int|
            in_bounds(before.width as int, before.height as int, px, py) && in_rect(
                x,
                y,
                rect.2,
                rect.3,
                px,
                py,
            ) ==> #[trigger] after.pixel(px, py) == blit_source(img, rect.0, rect.1, x, y, px, py),
{
    assert forall|px: int, py: int|
        in_bounds(before.width as int, before.height as int, px, py) && in_rect(
            x,
            y,
            rect.2,
            rect.3,
            px,
            py,
        ) implies #[trigger] after.pixel(px, py) == blit_source(img, rect.0, rect.1, x, y, px, py) by {
        crate::color::lemma_opaque_over(
            blit_source(img, rect.0, rect.1, x, y, px, py),
            before.pixel(px, py),
        );
    }
}

} // verus!
