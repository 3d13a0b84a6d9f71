use vstd::prelude::*;

verus! {

/// Why a constructor or a merge refused its arguments.
#[derive(Clone, Copy, Debug, PartialEq, Eq, Structural)]
pub enum SketchError {
    /// A construction parameter lies outside its documented range.
    InvalidParameter,
    /// Two sketches of different sizes were combined.
    DimensionMismatch,
}

} // verus!
