//! The byte code that a pixel carries for an iteration count.

use vstd::prelude::*;

verus! {

/// Iteration counts are reduced modulo this number before they are stored.
pub const CODE_MODULUS: u32 = 255;

/// The code of a point whose orbit was followed for `count` steps under the
/// cap `max_iter`: 0 when the cap was reached, else the count modulo 255.
pub open spec fn pixel_code(count: nat, max_iter: nat) -> nat {
    if count == max_iter {
        0
    } else {
        count % 255
    }
}

/// Encodes an iteration count as a pixel byte.
pub fn encode_pixel(count: u32, max_iter: u32) -> (code: u8)
    ensures
        code as nat == pixel_code(count as nat, max_iter as nat),
        code <= 254,
{
    if count == max_iter {
        0
    } else {
        (count % CODE_MODULUS) as u8
    }
}

} // verus!
