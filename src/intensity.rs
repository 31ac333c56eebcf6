//! Grayscale intensity of one pixel from its escape count.
use vstd::prelude::*;

verus! {

/// Number of iterations after which a point counts as inside the set.
pub const ESCAPE_LIMIT: usize = 255;

/// Intensity of a pixel whose point escaped at step `steps`, or stayed
/// bounded (`None`). Quick escapes are bright; bounded points are black.
/// The step count is taken modulo 256, as an 8-bit cast would.
pub open spec fn intensity_of(steps: Option<usize>) -> u8 {
    match steps {
        None => 0,
        Some(t) => (255 - (t % 256)) as u8,
    }
}

/// Turns an escape count into the pixel's byte.
pub fn intensity(steps: Option<usize>) -> (r: u8)
    ensures
        r == intensity_of(steps),
{
    match steps {
        None => 0,
        Some(t) => 255 - ((t % 256) as u8),
    }
}

} // verus!
