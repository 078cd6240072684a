//! The whole pass: buffer to matrix, matrix to candidates, confidence
//! filter, then class-wise suppression.
use vstd::prelude::*;
use crate::bbox::{
    boxes_of, filter_by_prob, kept_by_prob, lemma_boxes_of_fit, lemma_kept_fit, matrix_to_bboxes,
    BBox,
};
use crate::error::DetectError;
use crate::matrix::{
    binary_to_matrix, decoded, is_rectangular, shape_fits, transpose_matrix, transposed, ByteOrder,
};
use crate::nms::{nms, nms_result};

verus! {

/// The matrix the rest of the pass reads: the decoded buffer, transposed
/// when the buffer holds `[columns][rows]`.
pub open spec fn oriented(
    bytes: Seq<u8>,
    rows: int,
    columns: int,
    transpose: bool,
    order: ByteOrder,
) -> Seq<Seq<u32>> {
    let m = decoded(bytes, rows, columns, order);
    if transpose {
        transposed(m)
    } else {
        m
    }
}

/// What a call of the pass gives for its inputs.
pub open spec fn detections(
    bytes: Seq<u8>,
    prob_threshold: u32,
    iou_threshold: u32,
    rows: int,
    columns: int,
    transpose: bool,
    order: ByteOrder,
) -> Result<Seq<BBox>, DetectError> {
    if !shape_fits(bytes.len() as int, rows, columns) {
        Err(DetectError::ShapeMismatch)
    } else {
        let m = oriented(bytes, rows, columns, transpose, order);
        if exists|i: int| 0 <= i < m.len() && #[trigger] m[i].len() <= 4 {
            Err(DetectError::DegenerateRow)
        } else {
            Ok(nms_result(kept_by_prob(boxes_of(m), prob_threshold), iou_threshold))
        }
    }
}

/// Decodes `binary` as a `rows` by `columns` matrix of floats stored in
/// `order`, transposes it if asked, makes one candidate per row, keeps those
/// scoring at least `prob_threshold` and suppresses same-class overlaps
/// above `iou_threshold`. Thresholds are float bit patterns.
pub fn run_with_binary(
    binary: &Vec<u8>,
    prob_threshold: u32,
    iou_threshold: u32,
    rows: usize,
    columns: usize,
    transpose: bool,
    order: ByteOrder,
) -> (r: Result<Vec<BBox>, DetectError>)
    ensures
        match r {
            Ok(v) => detections(
                binary@,
                prob_threshold,
                iou_threshold,
                rows as int,
                columns as int,
                transpose,
                order,
            ) == Ok::<Seq<BBox>, DetectError>(v@),
            Err(e) => detections(
                binary@,
                prob_threshold,
                iou_threshold,
                rows as int,
                columns as int,
                transpose,
                order,
            ) == Err::<Seq<BBox>, DetectError>(e),
        },
{
    let matrix = match binary_to_matrix(binary, rows, columns, order) {
        Ok(m) => m,
        Err(e) => {
            return Err(e);
        },
    };
    let ghost m = decoded(binary@, rows as int, columns as int, order);
    assert(is_rectangular(m));
    let matrix = if transpose {
        transpose_matrix(&matrix)
    } else {
        matrix
    };
    let bboxes = match matrix_to_bboxes(&matrix) {
        Ok(b) => b,
        Err(e) => {
            return Err(e);
        },
    };
    let filtered = filter_by_prob(&bboxes, prob_threshold);
    proof {
        let mv = matrix.deep_view();
        assert forall|i: int| 0 <= i < mv.len() implies 4 < #[trigger] mv[i].len() <= usize::MAX by {
            assert(mv[i].len() == rows || mv[i].len() == columns);
        }
        lemma_boxes_of_fit(mv);
        lemma_kept_fit(bboxes@, prob_threshold);
    }
    Ok(nms(&filtered, iou_threshold))
}

} // verus!
