//! Straight (non-premultiplied) 8-bit RGBA colours and the "over" operator
//! that every drawing primitive uses to put a colour onto a pixel.
use vstd::prelude::*;

verus! {

/// A colour as its four channels: red, green, blue, alpha.
pub type Rgba = (u8, u8, u8, u8);

/// Alpha of `src` over `dst`: `sa + da * (255 - sa) / 255`, truncating.
pub open spec fn over_alpha(sa: int, da: int) -> int {
    sa + da * (255 - sa) / 255
}

/// One colour channel of `src` over `dst`, for a non-zero result alpha `oa`,
/// clamped to 255.
pub open spec fn over_channel(sc: int, dc: int, sa: int, da: int, oa: int) -> int {
    let v = (sc * sa + dc * da * (255 - sa) / 255) / oa;
    if v > 255 {
        255
    } else {
        v
    }
}

/// `src` composited over `dst`; a zero result alpha gives transparent black.
pub open spec fn blend(src: Rgba, dst: Rgba) -> Rgba {
    let sa = src.3 as int;
    let da = dst.3 as int;
    let oa = over_alpha(sa, da);
    if oa > 0 {
        (
            over_channel(src.0 as int, dst.0 as int, sa, da, oa) as u8,
            over_channel(src.1 as int, dst.1 as int, sa, da, oa) as u8,
            over_channel(src.2 as int, dst.2 as int, sa, da, oa) as u8,
            (if oa > 255 { 255 } else { oa }) as u8,
        )
    } else {
        (0, 0, 0, 0)
    }
}

proof fn lemma_over_alpha_bounds(sa: int, da: int)
    requires
        0 <= sa <= 255,
        0 <= da <= 255,
    ensures
        0 <= da * (255 - sa) <= 65025,
        sa <= over_alpha(sa, da) <= 255,
{
    assert(0 <= da * (255 - sa) <= 255 * (255 - sa)) by (nonlinear_arith)
        requires
            0 <= sa <= 255,
            0 <= da <= 255,
    ;
    assert(255 * (255 - sa) <= 65025) by (nonlinear_arith)
        requires
            0 <= sa <= 255,
    ;
    assert(da * (255 - sa) / 255 <= 255 - sa) by (nonlinear_arith)
        requires
            0 <= da * (255 - sa) <= 255 * (255 - sa),
    ;
}

fn over_channel_exec(sc: u8, dc: u8, sa: u32, da: u32, oa: u32) -> (r: u8)
    requires
        sa <= 255,
        da <= 255,
        oa > 0,
    ensures
        r as int == over_channel(sc as int, dc as int, sa as int, da as int, oa as int),
{
    let sc = sc as u32;
    let dc = dc as u32;
    assert(sc * sa <= 65025) by (nonlinear_arith)
        requires
            sc <= 255,
            sa <= 255,
    ;
    assert(dc * da <= 65025) by (nonlinear_arith)
        requires
            dc <= 255,
            da <= 255,
    ;
    assert(dc * da * (255 - sa) <= 65025 * 255) by (nonlinear_arith)
        requires
            dc * da <= 65025,
            sa <= 255,
    ;
    let v = (sc * sa + dc * da * (255 - sa) / 255) / oa;
    if v > 255 {
        255
    } else {
        v as u8
    }
}

/// `src` composited over `dst` with the integer "over" rule.
pub fn composite(src: Rgba, dst: Rgba) -> (out: Rgba)
    ensures
        out == blend(src, dst),
{
    let sa = src.3 as u32;
    let da = dst.3 as u32;
    proof {
        lemma_over_alpha_bounds(sa as int, da as int);
    }
    let oa = sa + da * (255 - sa) / 255;
    if oa > 0 {
        (
            over_channel_exec(src.0, dst.0, sa, da, oa),
            over_channel_exec(src.1, dst.1, sa, da, oa),
            over_channel_exec(src.2, dst.2, sa, da, oa),
            oa as u8,
        )
    } else {
        (0, 0, 0, 0)
    }
}

/// Whether two colours agree in all four channels.
pub fn same_color(p: Rgba, q: Rgba) -> (r: bool)
    ensures
        r == (p == q),
{
    p.0 == q.0 && p.1 == q.1 && p.2 == q.2 && p.3 == q.3
}

/// An opaque source replaces whatever it is composited over.
pub proof fn lemma_opaque_over(src: Rgba, dst: Rgba)
    requires
        src.3 == 255,
    ensures
        blend(src, dst) == src,
{
    let da = dst.3 as int;
    assert(da * (255 - 255) == 0);
    assert(over_alpha(255, da) == 255);
    assert forall|sc: int| 0 <= sc <= 255 implies #[trigger] over_channel(sc, da, 255, da, 255)
        == sc by {
        assert(sc * 255 / 255 == sc) by (nonlinear_arith);
    }
    assert(over_channel(src.0 as int, dst.0 as int, 255, da, 255) == src.0);
    assert(over_channel(src.1 as int, dst.1 as int, 255, da, 255) == src.1);
    assert(over_channel(src.2 as int, dst.2 as int, 255, da, 255) == src.2);
}

/// A fully transparent source leaves the destination as it is, provided the
/// destination is in the canonical form that compositing produces: non-zero
/// alpha, or transparent black.
pub proof fn lemma_transparent_over(src: Rgba, dst: Rgba)
    requires
        src.3 == 0,
        dst.3 > 0 || dst == (0u8, 0u8, 0u8, 0u8),
    ensures
        blend(src, dst) == dst,
{
    let da = dst.3 as int;
    assert(da * 255 / 255 == da) by (nonlinear_arith);
    assert(over_alpha(0, da) == da);
    if da > 0 {
        assert forall|sc: int, dc: int| 0 <= dc <= 255 implies #[trigger] over_channel(
            sc,
            dc,
            0,
            da,
            da,
        ) == dc by {
            assert(sc * 0 == 0);
            assert(dc * da * 255 / 255 == dc * da) by (nonlinear_arith);
            assert((dc * da) / da == dc) by (nonlinear_arith)
                requires
                    da > 0,
            ;
        }
        assert(over_channel(src.0 as int, dst.0 as int, 0, da, da) == dst.0);
        assert(over_channel(src.1 as int, dst.1 as int, 0, da, da) == dst.1);
        assert(over_channel(src.2 as int, dst.2 as int, 0, da, da) == dst.2);
    }
}

} // verus!
