use crate::error::PixelError;
use vstd::arithmetic::mul::lemma_mul_nonnegative;
use vstd::prelude::*;

verus! {

/// A denormalised channel value clamped into a byte: negatives to 0, values
/// above 255 to 255, everything between kept as it is.
pub open spec fn spec_clamp255(v: int) -> u8 {
    if v < 0 {
        0
    } else if v > 255 {
        255
    } else {
        v as u8
    }
}

/// Clamp a denormalised channel value into a byte. Truncation toward zero
/// happens before the call; because the bounds 0 and 255 are whole numbers,
/// clamping the truncated value equals truncating the clamped one.
pub fn clamp255(v: i64) -> (r: u8)
    ensures
        r == spec_clamp255(v as int),
{
    if v < 0 {
        0
    } else if v > 255 {
        255
    } else {
        v as u8
    }
}

/// The channel value a tensor of `plane` pixels holds for pixel `p`, channel
/// `c` (0 red, 1 green, 2 blue): read from the channel plane when `nchw`,
/// from the pixel's triplet otherwise.
pub open spec fn tensor_channel(tensor: Seq<i64>, plane: int, nchw: bool, p: int, c: int) -> i64 {
    if nchw {
        tensor[c * plane + p]
    } else {
        tensor[3 * p + c]
    }
}

/// The byte that the output RGBA buffer holds for pixel `p` at channel `c`:
/// the clamped tensor value for red, green and blue, and 255 for alpha.
pub open spec fn rgba_out_byte(tensor: Seq<i64>, plane: int, nchw: bool, p: int, c: int) -> u8 {
    if c == 3 {
        255
    } else {
        spec_clamp255(tensor_channel(tensor, plane, nchw, p, c) as int)
    }
}

/// Gather a planar (`nchw`) or interleaved float tensor, already truncated to
/// integers pointwise, back into an interleaved RGBA byte buffer: each channel
/// clamped into a byte, alpha forced opaque. Returns an error, and nothing
/// else, when the tensor is shorter than the declared dimensions require.
#[verifier::loop_isolation(false)]
pub fn postprocess_to_rgba(tensor: &[i64], width: u32, height: u32, nchw: bool) -> (r: Result<
    Vec<u8>,
    PixelError,
>)
    requires
        4 * (width as int) * (height as int) <= usize::MAX,
    ensures
        tensor@.len() >= 3 * width * height <==> r is Ok,
        r matches Err(e) ==> e == PixelError::BufferTooShort,
        r matches Ok(out) ==> ({
            let plane = (width as int) * (height as int);
            &&& out@.len() == 4 * plane
            &&& forall|p: int, c: int|
                0 <= p < plane && 0 <= c < 4 ==> out@[4 * p + c] == rgba_out_byte(
                    tensor@,
                    plane,
                    nchw,
                    p,
                    c,
                )
        }),
{
    proof {
        lemma_mul_nonnegative(width as int, height as int);
        assert(4 * (width as int) * (height as int) == 4 * ((width as int) * (height as int)))
            by (nonlinear_arith);
        assert(3 * (width as int) * (height as int) == 3 * ((width as int) * (height as int)))
            by (nonlinear_arith);
    }
    let plane: usize = (width as usize) * (height as usize);
    if tensor.len() < 3 * plane {
        return Err(PixelError::BufferTooShort);
    }
    let mut out: Vec<u8> = Vec::new();
    let mut p: usize = 0;
    while p < plane
        invariant
            p <= plane,
            out@.len() == 4 * p,
            forall|q: int, c: int|
                0 <= q < p && 0 <= c < 4 ==> out@[4 * q + c] == rgba_out_byte(
                    tensor@,
                    plane as int,
                    nchw,
                    q,
                    c,
                ),
        decreases plane - p,
    {
        let (ri, gi, bi): (usize, usize, usize) = if nchw {
            (p, plane + p, 2 * plane + p)
        } else {
            (3 * p, 3 * p + 1, 3 * p + 2)
        };
        let r = clamp255(tensor[ri]);
        let g = clamp255(tensor[gi]);
        let b = clamp255(tensor[bi]);
        let ghost out0 = out@;
        out.push(r);
        out.push(g);
        out.push(b);
        out.push(255u8);
        proof {
            assert forall|q: int, c: int|
                0 <= q < p + 1 && 0 <= c < 4 implies out@[4 * q + c] == rgba_out_byte(
                tensor@,
                plane as int,
                nchw,
                q,
                c,
            ) by {
                if q < p {
                    assert(0 <= 4 * q + c < 4 * p);
                    assert(out@[4 * q + c] == out0[4 * q + c]);
                    assert(out0[4 * q + c] == rgba_out_byte(tensor@, plane as int, nchw, q, c));
                } else {
                    assert(q == p);
                    assert(out@[4 * p] == r);
                    assert(out@[4 * p + 1] == g);
                    assert(out@[4 * p + 2] == b);
                    assert(out@[4 * p + 3] == 255);
                    if c == 0 {
                        assert(tensor@[ri as int] == tensor_channel(
                            tensor@,
                            plane as int,
                            nchw,
                            q,
                            0,
                        ));
                    } else if c == 1 {
                        assert(tensor@[gi as int] == tensor_channel(
                            tensor@,
                            plane as int,
                            nchw,
                            q,
                            1,
                        ));
                    } else if c == 2 {
                        assert(tensor@[bi as int] == tensor_channel(
                            tensor@,
                            plane as int,
                            nchw,
                            q,
                            2,
                        ));
                    }
                }
            }
        }
        p = p + 1;
    }
    Ok(out)
}

} // verus!
