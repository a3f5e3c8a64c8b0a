use vstd::prelude::*;

verus! {

/// Declares the rgb crate's pixel struct to the verifier; its four public
/// component fields stay visible to specifications.
#[verifier::external_type_specification]
pub struct ExRgba<T, A>(rgb::Rgba<T, A>);

/// Relies on rgb::Rgba::new: it builds the pixel whose components are exactly
/// its four arguments, in red, green, blue, alpha order.
pub assume_specification<T: Copy>[ rgb::Rgba::<T>::new ](
    red: T,
    green: T,
    blue: T,
    alpha: T,
) -> (px: rgb::Rgba<T>)
    ensures
        px == (rgb::Rgba { r: red, g: green, b: blue, a: alpha }),
;

} // verus!
