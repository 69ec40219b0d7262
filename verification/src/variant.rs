//! PRS variant policies. Applications usually expect and produce particular
//! variations on PRS.

use vstd::prelude::*;

use crate::flavor::Flavor;

verus! {

/// Marker trait that closes [`Variant`] against downstream implementations.
///
/// Only the two variants defined in this crate implement it: an ill-chosen
/// minimum long-copy length silently corrupts the extended-length encoding.
pub trait Sealed {}

/// Variant of PRS compression used. Varies with the target game.
///
/// This trait is sealed: improper parameter choices would break the encoder,
/// so exactly the two variants below exist. The numeric policy itself is
/// carried by the [`Flavor`] supertrait.
pub trait Variant: Flavor + Sealed {}

/// PRS variant used in games in the Dreamcast and Saturn era.
///
/// - Phantasy Star Online
/// - Sonic Adventure
/// - NiGHTS Into Dreams
/// - likely others
pub struct Legacy;

impl Sealed for Legacy {}

impl Flavor for Legacy {
    open spec fn spec_min_long_copy_length() -> u16 {
        1
    }

    proof fn min_long_copy_length_bounds() {
    }

    fn min_long_copy_length() -> (r: u16) {
        1
    }

    fn max_copy_length() -> (r: u16) {
        256
    }
}

impl Variant for Legacy {}

/// PRS variant used in games made after the Dreamcast.
///
/// - Phantasy Star Universe
/// - Phantasy Star Online 2
pub struct Modern;

impl Sealed for Modern {}

impl Flavor for Modern {
    open spec fn spec_min_long_copy_length() -> u16 {
        10
    }

    proof fn min_long_copy_length_bounds() {
    }

    fn min_long_copy_length() -> (r: u16) {
        10
    }

    fn max_copy_length() -> (r: u16) {
        265
    }
}

impl Variant for Modern {}

} // verus!
