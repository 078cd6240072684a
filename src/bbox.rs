//! Candidate boxes: one per matrix row, then kept by confidence.
use vstd::prelude::*;
use crate::error::DetectError;
use crate::float_bits::{
    bits_ge, bits_gt, float_ge, float_gt, is_nan, round_bits_to_i32, round_to_i32,
    LOWEST_FINITE_BITS,
};

verus! {

/// A candidate detection: integer geometry (centre and extent), the best
/// class score as float bits, and the class it belongs to.
#[derive(Debug, Clone, Copy, PartialEq, Eq, Structural)]
pub struct BBox {
    pub prob: u32,
    pub class: usize,
    pub cx: i32,
    pub cy: i32,
    pub w: i32,
    pub h: i32,
}

/// The best score of `scores` and its index, scanning from the left and
/// starting from the lowest finite float: a later score replaces the best
/// one only when it is strictly greater, so ties go to the lowest index and
/// NaN scores are never chosen.
pub open spec fn best_score(scores: Seq<u32>) -> (u32, int)
    decreases scores.len(),
{
    if scores.len() == 0 {
        (LOWEST_FINITE_BITS, 0)
    } else {
        let prev = best_score(scores.drop_last());
        if float_gt(scores.last(), prev.0) {
            (scores.last(), scores.len() - 1)
        } else {
            prev
        }
    }
}

/// The candidate that a row `[cx, cy, w, h, score0, score1, ...]` stands for.
pub open spec fn bbox_of_row(row: Seq<u32>) -> BBox {
    let best = best_score(row.subrange(4, row.len() as int));
    BBox {
        prob: best.0,
        class: best.1 as usize,
        cx: round_to_i32(row[0]) as i32,
        cy: round_to_i32(row[1]) as i32,
        w: round_to_i32(row[2]) as i32,
        h: round_to_i32(row[3]) as i32,
    }
}

pub open spec fn boxes_of(m: Seq<Seq<u32>>) -> Seq<BBox> {
    Seq::new(m.len(), |i: int| bbox_of_row(m[i]))
}

/// The candidates whose score is at least `threshold` (as floats), in order.
pub open spec fn kept_by_prob(s: Seq<BBox>, threshold: u32) -> Seq<BBox>
    decreases s.len(),
{
    if s.len() == 0 {
        Seq::empty()
    } else {
        let rest = kept_by_prob(s.drop_last(), threshold);
        if float_ge(s.last().prob, threshold) {
            rest.push(s.last())
        } else {
            rest
        }
    }
}

pub proof fn lemma_best_score_class(scores: Seq<u32>)
    ensures
        0 <= best_score(scores).1 < scores.len() || best_score(scores).1 == 0,
        !is_nan(best_score(scores).0),
    decreases scores.len(),
{
    if scores.len() > 0 {
        lemma_best_score_class(scores.drop_last());
    }
    assert(!is_nan(LOWEST_FINITE_BITS)) by (bit_vector);
}

/// The candidate for one row; a row with no class scores is refused.
pub fn bbox_from_row(row: &Vec<u32>) -> (r: Result<BBox, DetectError>)
    ensures
        match r {
            Ok(b) => row@.len() > 4 && b == bbox_of_row(row@),
            Err(e) => e == DetectError::DegenerateRow && row@.len() <= 4,
        },
{
    if row.len() <= 4 {
        return Err(DetectError::DegenerateRow);
    }
    let cx = round_bits_to_i32(row[0]);
    let cy = round_bits_to_i32(row[1]);
    let w = round_bits_to_i32(row[2]);
    let h = round_bits_to_i32(row[3]);
    let ghost scores = row@.subrange(4, row@.len() as int);
    let mut max_prob: u32 = LOWEST_FINITE_BITS;
    let mut class: usize = 0;
    let mut i: usize = 4;
    while i < row.len()
        invariant
            4 <= i <= row@.len(),
            scores == row@.subrange(4, row@.len() as int),
            (max_prob, class as int) == best_score(scores.take(i - 4)),
        decreases row@.len() - i,
    {
        assert(scores.take(i + 1 - 4).drop_last() =~= scores.take(i - 4));
        proof {
            lemma_best_score_class(scores.take(i - 4));
        }
        if bits_gt(row[i], max_prob) {
            max_prob = row[i];
            class = i - 4;
        }
        i = i + 1;
    }
    assert(scores.take(i - 4) =~= scores);
    Ok(BBox { prob: max_prob, class, cx, cy, w, h })
}

/// One candidate per row, in row order; refused if any row lacks scores.
pub fn matrix_to_bboxes(matrix: &Vec<Vec<u32>>) -> (r: Result<Vec<BBox>, DetectError>)
    ensures
        match r {
            Ok(v) => (forall|i: int|
                0 <= i < matrix@.len() ==> #[trigger] matrix.deep_view()[i].len() > 4) && v@
                == boxes_of(matrix.deep_view()),
            Err(e) => e == DetectError::DegenerateRow && exists|i: int|
                0 <= i < matrix@.len() && #[trigger] matrix.deep_view()[i].len() <= 4,
        },
{
    let ghost m = matrix.deep_view();
    let mut out: Vec<BBox> = Vec::new();
    let mut i: usize = 0;
    while i < matrix.len()
        invariant
            i <= matrix@.len(),
            m == matrix.deep_view(),
            forall|a: int| 0 <= a < i ==> #[trigger] m[a].len() > 4,
            out@ =~= boxes_of(m).take(i as int),
        decreases matrix@.len() - i,
    {
        assert(m[i as int] =~= matrix@[i as int]@);
        match bbox_from_row(&matrix[i]) {
            Ok(b) => {
                out.push(b);
            },
            Err(e) => {
                return Err(e);
            },
        }
        i = i + 1;
    }
    assert(boxes_of(m).take(i as int) =~= boxes_of(m));
    Ok(out)
}

/// The candidates whose score is at least `prob_threshold`, in order.
pub fn filter_by_prob(boxes: &Vec<BBox>, prob_threshold: u32) -> (r: Vec<BBox>)
    ensures
        r@ == kept_by_prob(boxes@, prob_threshold),
{
    let mut out: Vec<BBox> = Vec::new();
    let mut i: usize = 0;
    while i < boxes.len()
        invariant
            i <= boxes@.len(),
            out@ == kept_by_prob(boxes@.take(i as int), prob_threshold),
        decreases boxes@.len() - i,
    {
        assert(boxes@.take(i + 1).drop_last() =~= boxes@.take(i as int));
        if bits_ge(boxes[i].prob, prob_threshold) {
            out.push(boxes[i]);
        }
        i = i + 1;
    }
    assert(boxes@.take(i as int) =~= boxes@);
    out
}

/// Raising the confidence threshold never lets more candidates through.
pub proof fn lemma_filter_monotone(s: Seq<BBox>, low: u32, high: u32)
    requires
        float_ge(high, low),
    ensures
        kept_by_prob(s, high).len() <= kept_by_prob(s, low).len(),
    decreases s.len(),
{
    if s.len() > 0 {
        lemma_filter_monotone(s.drop_last(), low, high);
    }
}

/// Every class lies below `usize::MAX`.
pub open spec fn classes_fit(s: Seq<BBox>) -> bool {
    forall|i: int| 0 <= i < s.len() ==> #[trigger] s[i].class < usize::MAX
}

/// The candidates of a matrix have classes below their rows' lengths.
pub proof fn lemma_boxes_of_fit(m: Seq<Seq<u32>>)
    requires
        forall|i: int| 0 <= i < m.len() ==> 4 < #[trigger] m[i].len() <= usize::MAX,
    ensures
        classes_fit(boxes_of(m)),
{
    assert forall|i: int| 0 <= i < m.len() implies #[trigger] boxes_of(m)[i].class < usize::MAX by {
        let row = m[i];
        assert(4 < row.len() <= usize::MAX);
        let scores = row.subrange(4, row.len() as int);
        lemma_best_score_class(scores);
    }
}

/// Filtering keeps only boxes of its input.
pub proof fn lemma_kept_fit(s: Seq<BBox>, threshold: u32)
    requires
        classes_fit(s),
    ensures
        classes_fit(kept_by_prob(s, threshold)),
    decreases s.len(),
{
    if s.len() > 0 {
        let d = s.drop_last();
        assert forall|i: int| 0 <= i < d.len() implies #[trigger] d[i].class < usize::MAX by {
            assert(d[i] == s[i]);
        }
        lemma_kept_fit(d, threshold);
        assert(s[s.len() - 1].class < usize::MAX);
    }
}

} // verus!
