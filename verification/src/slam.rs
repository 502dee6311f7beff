//! Map structures of the SLAM pipeline that hold no geometry.
use vstd::prelude::*;

verus! {

/// Covisibility graph of keyframes: for each keyframe, its neighbours as
/// `(keyframe index, weight)` pairs.
pub struct CovisibilityGraph {
    linked_list: Vec<Vec<(usize, usize)>>,
}

} // verus!
