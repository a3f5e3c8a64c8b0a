use vstd::prelude::*;

verus! {

/// Why a transform refused to run: the caller's buffer is shorter than the
/// declared dimensions require, so reading it through would go out of bounds.
#[derive(Clone, Copy, Debug, PartialEq, Eq, Structural)]
pub enum PixelError {
    /// The input buffer holds fewer elements than `width * height` pixels need.
    BufferTooShort,
}

} // verus!
