//! PRS flavor policies. Applications usually expect and produce particular
//! variations on PRS.

use vstd::prelude::*;

verus! {

/// Flavor of PRS compression used. Varies with the target game.
///
/// A flavor contributes exactly two integer constants: the minimum length
/// denoted by the long-copy extended-length byte, and the maximum copy
/// length, which is always 255 more than the minimum.
pub trait Flavor {
    /// The length denoted by an extended-length byte of zero.
    spec fn spec_min_long_copy_length() -> u16;

    /// The minimum long-copy length of every flavor lies between 1 and 10.
    proof fn min_long_copy_length_bounds()
        ensures
            1 <= Self::spec_min_long_copy_length() <= 10,
    ;

    /// The length denoted by an extended-length byte of zero.
    fn min_long_copy_length() -> (r: u16)
        ensures
            r == Self::spec_min_long_copy_length(),
    ;

    /// The largest copy length a pointer of this flavor can encode.
    fn max_copy_length() -> (r: u16)
        ensures
            r == Self::spec_min_long_copy_length() + 255,
    ;
}

/// PRS used for games in the Dreamcast and Saturn era, such as
/// Phantasy Star Online and Sonic Adventure.
pub struct Legacy;

impl Flavor for Legacy {
    open spec fn spec_min_long_copy_length() -> u16 {
        1
    }

    proof fn min_long_copy_length_bounds() {
    }

    fn min_long_copy_length() -> (r: u16) {
        1
    }

    fn max_copy_length() -> (r: u16) {
        256
    }
}

/// PRS used in games made after the Dreamcast, such as
/// Phantasy Star Universe and Phantasy Star Online 2.
pub struct Modern;

impl Flavor for Modern {
    open spec fn spec_min_long_copy_length() -> u16 {
        10
    }

    proof fn min_long_copy_length_bounds() {
    }

    fn min_long_copy_length() -> (r: u16) {
        10
    }

    fn max_copy_length() -> (r: u16) {
        265
    }
}

} // verus!
