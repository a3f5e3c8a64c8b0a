use crate::postprocess::rgba_out_byte;
use crate::preprocess::{lemma_no_resize_identity, sampled_channel};
use vstd::prelude::*;

verus! {

/// The byte a full round trip owes for pixel `p` at channel `c`: the source
/// channel byte back unchanged, except alpha, which is forced opaque.
pub open spec fn restored_byte(rgba: Seq<u8>, p: int, c: int) -> u8 {
    if c == 3 {
        255
    } else {
        rgba[4 * p + c]
    }
}

/// Round trip at the byte level. Preprocessing with unchanged dimensions
/// scatters each source pixel's channels into the three planes (the contract
/// of `preprocess_rgba_to_nchw`), and postprocessing a planar tensor holding
/// those same values (the contract of `postprocess_to_rgba`) gathers them
/// back: every output byte equals the source byte, with alpha forced opaque.
/// The pointwise normalisation and denormalisation between the two passes
/// stand outside this law: it applies whenever their composition returns each
/// byte unchanged, as it does at the range endpoints 0 and 255.
pub proof fn lemma_planar_round_trip(
    rgba: Seq<u8>,
    data: Seq<u8>,
    vals: Seq<i64>,
    out: Seq<u8>,
    w: int,
    h: int,
    plane: int,
)
    requires
        0 <= w,
        0 <= h,
        plane == w * h,
        rgba.len() >= 4 * plane,
        data.len() == 3 * plane,
        forall|c: int, p: int|
            0 <= c < 3 && 0 <= p < plane ==> data[c * plane + p] == sampled_channel(
                rgba,
                w,
                h,
                w,
                h,
                c,
                p,
            ),
        vals.len() == data.len(),
        forall|i: int| 0 <= i < data.len() ==> vals[i] == data[i] as i64,
        out.len() == 4 * plane,
        forall|p: int, c: int|
            0 <= p < plane && 0 <= c < 4 ==> out[4 * p + c] == rgba_out_byte(
                vals,
                plane,
                true,
                p,
                c,
            ),
    ensures
        forall|p: int, c: int|
            0 <= p < plane && 0 <= c < 4 ==> out[4 * p + c] == restored_byte(rgba, p, c),
{
    assert forall|p: int, c: int|
        0 <= p < plane && 0 <= c < 4 implies out[4 * p + c] == restored_byte(rgba, p, c) by {
        assert(out[4 * p + c] == rgba_out_byte(vals, plane, true, p, c));
        if c < 3 {
            lemma_no_resize_identity(rgba, w, h, c, p);
            if c == 0 {
                assert(vals[0 * plane + p] == data[0 * plane + p] as i64);
                assert(data[0 * plane + p] == sampled_channel(rgba, w, h, w, h, 0, p));
            } else if c == 1 {
                assert(vals[1 * plane + p] == data[1 * plane + p] as i64);
                assert(data[1 * plane + p] == sampled_channel(rgba, w, h, w, h, 1, p));
            } else {
                assert(vals[2 * plane + p] == data[2 * plane + p] as i64);
                assert(data[2 * plane + p] == sampled_channel(rgba, w, h, w, h, 2, p));
            }
        }
    }
}

} // verus!
