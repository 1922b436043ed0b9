//! The ways in which a stage of the codec can fail.

use vstd::prelude::*;

verus! {

/// Why a stage of the codec gave up. No stage retries: an error ends the
/// whole operation.
#[derive(Clone, Copy, Debug, PartialEq, Eq, Structural)]
pub enum HuffError {
    /// The counted input holds fewer than two distinct byte values, so no
    /// binary tree can be built from it.
    Configuration,
    /// A code would be longer than the 255 bits that a code can hold.
    RepresentationLimit,
    /// The input to encode holds `symbol`, for which the code table has no
    /// code.
    ContractViolation { symbol: u8 },
}

} // verus!
