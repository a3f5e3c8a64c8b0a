use vstd::arithmetic::div_mod::{
    lemma_div_is_ordered, lemma_div_pos_is_pos, lemma_fundamental_div_mod,
    lemma_fundamental_div_mod_converse, lemma_mod_division_less_than_divisor,
};
use vstd::prelude::*;

verus! {

/// The longer of the two sides of an image.
pub open spec fn longer_side(w: int, h: int) -> int {
    if w >= h {
        w
    } else {
        h
    }
}

/// One side rescaled by the exact ratio `max_side / m` and rounded to the
/// nearest integer with halves away from zero; over the integers that is
/// floor((side * max_side) / m + 1/2) = floor((2*side*max_side + m) / (2*m)).
pub open spec fn scaled_side(side: int, max_side: int, m: int) -> int {
    (2 * side * max_side + m) / (2 * m)
}

/// Whether scaling leaves the dimensions untouched: no bound was asked for,
/// or the image already fits within it (it is never upscaled).
pub open spec fn scale_is_identity(w: int, h: int, max_side: int) -> bool {
    max_side == 0 || longer_side(w, h) <= max_side
}

/// The width that `scale_dims` returns.
pub open spec fn spec_scale_width(w: int, h: int, max_side: int) -> int {
    if scale_is_identity(w, h, max_side) {
        w
    } else {
        scaled_side(w, max_side, longer_side(w, h))
    }
}

/// The height that `scale_dims` returns.
pub open spec fn spec_scale_height(w: int, h: int, max_side: int) -> int {
    if scale_is_identity(w, h, max_side) {
        h
    } else {
        scaled_side(h, max_side, longer_side(w, h))
    }
}

/// A rescaled side never exceeds the original side.
pub proof fn lemma_scaled_side_le(side: int, max_side: int, m: int)
    requires
        0 <= side,
        1 <= max_side,
        max_side < m,
    ensures
        0 <= scaled_side(side, max_side, m) <= side,
{
    let x = 2 * side * max_side + m;
    let d = 2 * m;
    assert(0 <= 2 * side * max_side) by (nonlinear_arith)
        requires
            0 <= side,
            0 <= max_side,
    ;
    lemma_div_pos_is_pos(x, d);
    assert(2 * side * max_side + m <= side * (2 * m) + (2 * m - 1)) by (nonlinear_arith)
        requires
            0 <= side,
            1 <= max_side,
            max_side < m,
    ;
    lemma_fundamental_div_mod_converse(side * (2 * m) + (2 * m - 1), d, side, 2 * m - 1);
    lemma_div_is_ordered(x, side * (2 * m) + (2 * m - 1), d);
}

/// Rescaling the longer side itself lands exactly on `max_side`: the ratio is
/// `max_side / m`, so `m` maps to `max_side` with no rounding error.
pub proof fn lemma_scaled_longer_is_max(max_side: int, m: int)
    requires
        1 <= max_side < m,
    ensures
        scaled_side(m, max_side, m) == max_side,
{
    assert(2 * m * max_side + m == max_side * (2 * m) + m) by (nonlinear_arith);
    lemma_fundamental_div_mod_converse(2 * m * max_side + m, 2 * m, max_side, m);
}

/// Rescaling keeps the order of the two sides.
pub proof fn lemma_scaled_side_monotonic(a: int, b: int, max_side: int, m: int)
    requires
        a <= b,
        0 <= max_side,
        1 <= m,
    ensures
        scaled_side(a, max_side, m) <= scaled_side(b, max_side, m),
{
    assert(2 * a * max_side <= 2 * b * max_side) by (nonlinear_arith)
        requires
            a <= b,
            0 <= max_side,
    ;
    lemma_div_is_ordered(2 * a * max_side + m, 2 * b * max_side + m, 2 * m);
}

/// A rescaled side sits within half a pixel of the exact rational rescaling:
/// |scaled - side*max_side/m| <= 1/2, stated over integers after multiplying
/// through by 2*m.
pub proof fn lemma_scaled_side_accuracy(side: int, max_side: int, m: int)
    requires
        1 <= m,
    ensures
        -m < 2 * m * scaled_side(side, max_side, m) - 2 * side * max_side <= m,
{
    let x = 2 * side * max_side + m;
    let d = 2 * m;
    lemma_fundamental_div_mod(x, d);
    lemma_mod_division_less_than_divisor(x, d);
    assert(d * (x / d) == 2 * m * scaled_side(side, max_side, m)) by (nonlinear_arith)
        requires
            d == 2 * m,
            x / d == scaled_side(side, max_side, m),
    ;
}

/// When scaling engages, the longer returned side equals `max_side` exactly,
/// and each returned side is within half a pixel of the exact aspect-ratio
/// rescaling (so the aspect ratio is preserved up to rounding).
pub proof fn lemma_scale_dims_shrinks_to_bound(w: int, h: int, max_side: int)
    requires
        0 <= w,
        0 <= h,
        1 <= max_side,
        max_side < longer_side(w, h),
    ensures
        ({
            let tw = spec_scale_width(w, h, max_side);
            let th = spec_scale_height(w, h, max_side);
            let m = longer_side(w, h);
            &&& (if tw >= th {
                tw
            } else {
                th
            }) == max_side
            &&& -m < 2 * m * tw - 2 * w * max_side <= m
            &&& -m < 2 * m * th - 2 * h * max_side <= m
        }),
{
    let m = longer_side(w, h);
    if w >= h {
        lemma_scaled_longer_is_max(max_side, m);
        lemma_scaled_side_monotonic(h, w, max_side, m);
    } else {
        lemma_scaled_longer_is_max(max_side, m);
        lemma_scaled_side_monotonic(w, h, max_side, m);
    }
    lemma_scaled_side_accuracy(w, max_side, m);
    lemma_scaled_side_accuracy(h, max_side, m);
}

/// Target dimensions that fit within `max_side` while preserving the aspect
/// ratio. A `max_side` of zero means no bound; an image already within the
/// bound is returned unchanged (never upscaled). Otherwise both sides are
/// rescaled by `max_side / max(width, height)` and rounded to the nearest
/// integer, halves away from zero.
pub fn scale_dims(width: u32, height: u32, max_side: u32) -> (r: (u32, u32))
    ensures
        r.0 == spec_scale_width(width as int, height as int, max_side as int),
        r.1 == spec_scale_height(width as int, height as int, max_side as int),
        r.0 <= width,
        r.1 <= height,
        scale_is_identity(width as int, height as int, max_side as int) ==> r == (
            width,
            height,
        ),
{
    if max_side == 0 {
        return (width, height);
    }
    let m: u32 = if width >= height {
        width
    } else {
        height
    };
    if m <= max_side {
        return (width, height);
    }
    assert(2 * (width as u128) * (max_side as u128) <= 0x1_ffff_fffc_0000_0002u128)
        by (nonlinear_arith);
    assert(2 * (height as u128) * (max_side as u128) <= 0x1_ffff_fffc_0000_0002u128)
        by (nonlinear_arith);
    let d: u128 = 2 * (m as u128);
    let tw: u128 = (2 * (width as u128) * (max_side as u128) + (m as u128)) / d;
    let th: u128 = (2 * (height as u128) * (max_side as u128) + (m as u128)) / d;
    proof {
        lemma_scaled_side_le(width as int, max_side as int, m as int);
        lemma_scaled_side_le(height as int, max_side as int, m as int);
    }
    (tw as u32, th as u32)
}

} // verus!
