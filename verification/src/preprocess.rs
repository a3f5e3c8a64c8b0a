use crate::dims::{scale_dims, spec_scale_height, spec_scale_width};
use crate::error::PixelError;
use vstd::arithmetic::div_mod::{
    lemma_div_by_multiple, lemma_div_pos_is_pos, lemma_fundamental_div_mod,
    lemma_fundamental_div_mod_converse, lemma_mod_division_less_than_divisor,
    lemma_multiply_divide_lt,
};
use vstd::arithmetic::mul::{lemma_mul_is_commutative, lemma_mul_nonnegative};
use vstd::prelude::*;

verus! {

/// Row-major index of the source pixel that nearest-neighbour sampling picks
/// for destination pixel `p` of a `tw x th` image scaled from `w x h`:
/// destination (x, y) reads source (floor(x*w/tw), floor(y*h/th)).
pub open spec fn sample_index(p: int, w: int, h: int, tw: int, th: int) -> int {
    ((p / tw) * h / th) * w + (p % tw) * w / tw
}

/// The source byte that plane `c` (0 red, 1 green, 2 blue) of the planar image
/// holds for destination pixel `p`.
pub open spec fn sampled_channel(
    rgba: Seq<u8>,
    w: int,
    h: int,
    tw: int,
    th: int,
    c: int,
    p: int,
) -> u8 {
    rgba[4 * sample_index(p, w, h, tw, th) + c]
}

/// With no resizing (target dimensions equal to the source's), every
/// destination pixel samples exactly itself.
pub proof fn lemma_sample_index_identity(p: int, w: int, h: int)
    requires
        0 <= p < w * h,
        0 <= w,
        0 <= h,
    ensures
        sample_index(p, w, h, w, h) == p,
{
    assert(1 <= w && 1 <= h) by (nonlinear_arith)
        requires
            0 <= w,
            0 <= h,
            0 < w * h,
    ;
    lemma_mod_division_less_than_divisor(p, w);
    lemma_div_pos_is_pos(p, w);
    lemma_multiply_divide_lt(p, w, h);
    lemma_div_by_multiple(p / w, h);
    lemma_div_by_multiple(p % w, w);
    lemma_fundamental_div_mod(p, w);
    lemma_mul_is_commutative(w, p / w);
}

/// When no resizing happens, the planar bytes are exactly the source channel
/// bytes: plane `c` at pixel `p` holds `rgba[4*p + c]`, with no sampling
/// distortion.
pub proof fn lemma_no_resize_identity(rgba: Seq<u8>, w: int, h: int, c: int, p: int)
    requires
        0 <= c < 3,
        0 <= p < w * h,
        0 <= w,
        0 <= h,
    ensures
        sampled_channel(rgba, w, h, w, h, c, p) == rgba[4 * p + c],
{
    lemma_sample_index_identity(p, w, h);
}

/// Pixel `k` of the intermediate image holds the sampled source channels with
/// the alpha component forced opaque.
pub open spec fn pixel_sampled(
    tmp: Seq<rgb::Rgba<u8>>,
    rgba: Seq<u8>,
    w: int,
    h: int,
    tw: int,
    th: int,
    k: int,
) -> bool {
    &&& tmp[k].r == rgba[4 * sample_index(k, w, h, tw, th)]
    &&& tmp[k].g == rgba[4 * sample_index(k, w, h, tw, th) + 1]
    &&& tmp[k].b == rgba[4 * sample_index(k, w, h, tw, th) + 2]
    &&& tmp[k].a == 255
}

/// A planar channels-first byte image: all red bytes, then all green, then all
/// blue, each plane `width * height` long. Normalising each byte pointwise
/// turns it into the float tensor an inference engine consumes.
pub struct NchwPlanes {
    /// The three concatenated channel planes, `3 * width * height` bytes.
    pub data: Vec<u8>,
    /// Width of the (possibly rescaled) image.
    pub width: u32,
    /// Height of the (possibly rescaled) image.
    pub height: u32,
}

/// Resize (nearest-neighbour, never upscaling) and re-lay an interleaved RGBA
/// buffer into channels-first planes of bytes. Source alpha is dropped; the
/// caller normalises each byte pointwise to obtain the float tensor. Returns
/// an error, and nothing else, when the buffer is shorter than the declared
/// dimensions require.
#[verifier::loop_isolation(false)]
pub fn preprocess_rgba_to_nchw(rgba: &[u8], width: u32, height: u32, max_side: u32) -> (r: Result<
    NchwPlanes,
    PixelError,
>)
    ensures
        rgba@.len() >= 4 * width * height <==> r is Ok,
        r matches Err(e) ==> e == PixelError::BufferTooShort,
        r matches Ok(out) ==> ({
            let tw = spec_scale_width(width as int, height as int, max_side as int);
            let th = spec_scale_height(width as int, height as int, max_side as int);
            let plane = tw * th;
            &&& out.width == tw
            &&& out.height == th
            &&& out.data@.len() == 3 * plane
            &&& forall|c: int, p: int|
                0 <= c < 3 && 0 <= p < plane ==> out.data@[c * plane + p] == sampled_channel(
                    rgba@,
                    width as int,
                    height as int,
                    tw,
                    th,
                    c,
                    p,
                )
        }),
{
    assert(4 * (width as u128) * (height as u128) <= 0x4_0000_0000_0000_0000u128)
        by (nonlinear_arith);
    let needed: u128 = 4 * (width as u128) * (height as u128);
    let len: usize = rgba.len();
    if (len as u128) < needed {
        return Err(PixelError::BufferTooShort);
    }
    let (tw, th) = scale_dims(width, height, max_side);
    proof {
        lemma_mul_nonnegative(width as int, height as int);
        assert(needed as int == 4 * (width as int) * (height as int));
        assert(rgba@.len() >= 4 * (width as int) * (height as int));
        assert(rgba@.len() <= usize::MAX);
        assert((width as int) * (height as int) <= 0xffff_fffe_0000_0001int) by (nonlinear_arith);
        assert(4 * (width as int) * (height as int) == 4 * ((width as int) * (height as int)))
            by (nonlinear_arith);
        assert((tw as int) * (th as int) <= (width as int) * (height as int)) by (nonlinear_arith)
            requires
                tw <= width,
                th <= height,
        ;
    }
    let plane: usize = (tw as usize) * (th as usize);
    let mut tmp: Vec<rgb::Rgba<u8>> = Vec::new();
    if tw == width && th == height {
        let mut i: usize = 0;
        while i < plane
            invariant
                i <= plane,
                tmp@.len() == i,
                forall|k: int|
                    0 <= k < i ==> pixel_sampled(
                        tmp@,
                        rgba@,
                        width as int,
                        height as int,
                        tw as int,
                        th as int,
                        k,
                    ),
            decreases plane - i,
        {
            let ghost tmp0 = tmp@;
            let base: usize = 4 * i;
            let px = rgb::Rgba::new(rgba[base], rgba[base + 1], rgba[base + 2], 255u8);
            tmp.push(px);
            proof {
                lemma_sample_index_identity(i as int, width as int, height as int);
                assert forall|k: int| 0 <= k < i + 1 implies pixel_sampled(
                    tmp@,
                    rgba@,
                    width as int,
                    height as int,
                    tw as int,
                    th as int,
                    k,
                ) by {
                    if k < i {
                        assert(pixel_sampled(
                            tmp0,
                            rgba@,
                            width as int,
                            height as int,
                            tw as int,
                            th as int,
                            k,
                        ));
                        assert(tmp@[k] == tmp0[k]);
                    } else {
                        assert(tmp@[k] == px);
                    }
                }
            }
            i = i + 1;
        }
    } else {
        let mut y: u32 = 0;
        while y < th
            invariant
                y <= th,
                tmp@.len() == y * (tw as int),
                forall|k: int|
                    0 <= k < y * (tw as int) ==> pixel_sampled(
                        tmp@,
                        rgba@,
                        width as int,
                        height as int,
                        tw as int,
                        th as int,
                        k,
                    ),
            decreases th - y,
        {
            let mut x: u32 = 0;
            while x < tw
                invariant
                    x <= tw,
                    y < th,
                    tmp@.len() == y * (tw as int) + x,
                    forall|k: int|
                        0 <= k < y * (tw as int) + x ==> pixel_sampled(
                            tmp@,
                            rgba@,
                            width as int,
                            height as int,
                            tw as int,
                            th as int,
                            k,
                        ),
                decreases tw - x,
            {
                assert((x as u64) * (width as u64) <= 0xffff_fffe_0000_0001u64)
                    by (nonlinear_arith);
                assert((y as u64) * (height as u64) <= 0xffff_fffe_0000_0001u64)
                    by (nonlinear_arith);
                let src_x: u64 = (x as u64) * (width as u64) / (tw as u64);
                let src_y: u64 = (y as u64) * (height as u64) / (th as u64);
                proof {
                    lemma_mul_nonnegative(x as int, width as int);
                    lemma_div_pos_is_pos((x as int) * (width as int), tw as int);
                    assert((x as int) * (width as int) < (tw as int) * (width as int))
                        by (nonlinear_arith)
                        requires
                            x < tw,
                            1 <= width,
                    ;
                    lemma_multiply_divide_lt((x as int) * (width as int), tw as int, width as int);
                    lemma_mul_nonnegative(y as int, height as int);
                    lemma_div_pos_is_pos((y as int) * (height as int), th as int);
                    assert((y as int) * (height as int) < (th as int) * (height as int))
                        by (nonlinear_arith)
                        requires
                            y < th,
                            1 <= height,
                    ;
                    lemma_multiply_divide_lt(
                        (y as int) * (height as int),
                        th as int,
                        height as int,
                    );
                    assert((src_y as int) * (width as int) + (src_x as int) < (width as int) * (
                    height as int)) by (nonlinear_arith)
                        requires
                            0 <= src_y <= (height as int) - 1,
                            0 <= src_x < (width as int),
                            1 <= width,
                    ;
                    lemma_mul_nonnegative(src_y as int, width as int);
                }
                let sidx: usize = (src_y * (width as u64) + src_x) as usize;
                let base: usize = 4 * sidx;
                let ghost tmp0 = tmp@;
                let px = rgb::Rgba::new(rgba[base], rgba[base + 1], rgba[base + 2], 255u8);
                tmp.push(px);
                proof {
                    lemma_fundamental_div_mod_converse(
                        (y as int) * (tw as int) + (x as int),
                        tw as int,
                        y as int,
                        x as int,
                    );
                    assert forall|k: int| 0 <= k < y * (tw as int) + x + 1 implies pixel_sampled(
                        tmp@,
                        rgba@,
                        width as int,
                        height as int,
                        tw as int,
                        th as int,
                        k,
                    ) by {
                        if k < y * (tw as int) + x {
                            assert(pixel_sampled(
                                tmp0,
                                rgba@,
                                width as int,
                                height as int,
                                tw as int,
                                th as int,
                                k,
                            ));
                            assert(tmp@[k] == tmp0[k]);
                        } else {
                            assert(k == y * (tw as int) + x);
                            assert(tmp@[k] == px);
                            assert(k / (tw as int) == y as int && k % (tw as int) == x as int);
                            assert(sample_index(
                                k,
                                width as int,
                                height as int,
                                tw as int,
                                th as int,
                            ) == (src_y as int) * (width as int) + (src_x as int));
                            assert(base == 4 * sample_index(
                                k,
                                width as int,
                                height as int,
                                tw as int,
                                th as int,
                            ));
                        }
                    }
                }
                x = x + 1;
            }
            proof {
                assert((y as int + 1) * (tw as int) == (y as int) * (tw as int) + (tw as int))
                    by (nonlinear_arith);
            }
            y = y + 1;
        }
        proof {
            assert((th as int) * (tw as int) == (tw as int) * (th as int)) by (nonlinear_arith);
        }
    }
    let mut data: Vec<u8> = Vec::new();
    let mut p: usize = 0;
    while p < plane
        invariant
            p <= plane,
            tmp@.len() == plane,
            data@.len() == p,
            forall|k: int| 0 <= k < p ==> data@[k] == tmp@[k].r,
        decreases plane - p,
    {
        data.push(tmp[p].r);
        p = p + 1;
    }
    let mut p2: usize = 0;
    while p2 < plane
        invariant
            p2 <= plane,
            tmp@.len() == plane,
            data@.len() == plane + p2,
            forall|k: int| 0 <= k < plane ==> data@[k] == tmp@[k].r,
            forall|k: int| 0 <= k < p2 ==> data@[plane + k] == tmp@[k].g,
        decreases plane - p2,
    {
        data.push(tmp[p2].g);
        p2 = p2 + 1;
    }
    let mut p3: usize = 0;
    while p3 < plane
        invariant
            p3 <= plane,
            tmp@.len() == plane,
            data@.len() == 2 * plane + p3,
            forall|k: int| 0 <= k < plane ==> data@[k] == tmp@[k].r,
            forall|k: int| 0 <= k < plane ==> data@[plane + k] == tmp@[k].g,
            forall|k: int| 0 <= k < p3 ==> data@[2 * plane + k] == tmp@[k].b,
        decreases plane - p3,
    {
        data.push(tmp[p3].b);
        p3 = p3 + 1;
    }
    proof {
        let tws = tw as int;
        let ths = th as int;
        let ws = width as int;
        let hs = height as int;
        assert forall|c: int, p: int|
            0 <= c < 3 && 0 <= p < tws * ths implies data@[c * (tws * ths) + p] == sampled_channel(
            rgba@,
            ws,
            hs,
            tws,
            ths,
            c,
            p,
        ) by {
            assert(pixel_sampled(tmp@, rgba@, ws, hs, tws, ths, p));
            if c == 0 {
                assert(data@[p] == tmp@[p].r);
            } else if c == 1 {
                assert(data@[plane + p] == tmp@[p].g);
            } else {
                assert(data@[2 * plane + p] == tmp@[p].b);
            }
        }
    }
    Ok(NchwPlanes { data, width: tw, height: th })
}

} // verus!
