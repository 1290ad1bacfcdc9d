//! The ways in which building or using a cipher can fail.

use vstd::prelude::*;

verus! {

/// Why a cipher could not be built, or a field operation not carried out.
#[derive(Clone, Copy, Debug, PartialEq, Eq)]
pub enum CipherError {
    /// The block size and the exponent do not go together: the power map is
    /// not a permutation of the field, a constraint of the cipher variant is
    /// violated, or the round constants do not fit.
    Configuration,
    /// No defining polynomial is tabulated for the requested width.
    UnsupportedWidth,
}

} // verus!
