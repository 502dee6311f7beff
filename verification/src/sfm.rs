//! Stages of projective self-calibration that are still placeholders.
use vstd::prelude::*;

verus! {

/// Projective reconstruction stage; it does nothing yet.
pub fn projective_reconstruction() {
}

/// Dual method of projective reconstruction; it does nothing yet.
pub fn dual_method() {
}

/// Euclidean upgrade of a projective reconstruction; it does nothing yet.
pub fn euclide_reconstruction() {
}

} // verus!
