//! The common reference string.
#![allow(non_snake_case)]
use vstd::prelude::*;

use crate::point::AffinePoint;

verus! {

/// The number of blinders of a commitment to a permutation.
pub const N_BLINDERS: usize = 4;

/// The points that commitments are made with.
pub struct CurdleproofsCrs {
    /// The bases of the committed values.
    pub vec_G: Vec<AffinePoint>,
    /// The bases of the blinders.
    pub vec_H: Vec<AffinePoint>,
}

} // verus!
