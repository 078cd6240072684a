use vstd::prelude::*;

verus! {

/// Why a buffer could not be turned into detections.
#[derive(Debug, Clone, Copy, PartialEq, Eq, Structural)]
pub enum DetectError {
    /// The buffer's length is not `rows * columns * 4`, or a dimension is zero.
    ShapeMismatch,
    /// A row has no class scores after its four geometry fields.
    DegenerateRow,
}

} // verus!
