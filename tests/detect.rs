use yolofastnms::bbox::{bbox_from_row, filter_by_prob, matrix_to_bboxes, BBox};
use yolofastnms::error::DetectError;
use yolofastnms::float_bits::{bits_ge, bits_gt, round_bits_to_i32};
use yolofastnms::iou::{calc_iou, iou_within, quotient_within};
use yolofastnms::matrix::{binary_to_matrix, transpose_matrix, ByteOrder};
use yolofastnms::nms::{get_classes, nms, sorted_boxes_filtered_by_class};
use yolofastnms::pipeline::run_with_binary;

fn encode(rows: &[Vec<f32>]) -> Vec<u8> {
    let mut out = Vec::new();
    for row in rows {
        for v in row {
            out.extend_from_slice(&v.to_le_bytes());
        }
    }
    out
}

fn bits_row(v: &[f32]) -> Vec<u32> {
    v.iter().map(|x| x.to_bits()).collect()
}

fn bx(cx: i32, cy: i32, w: i32, h: i32, prob: f32, class: usize) -> BBox {
    BBox { prob: prob.to_bits(), class, cx, cy, w, h }
}

#[test]
fn end_to_end_two_classes() {
    let buf = encode(&[
        vec![10.0, 10.0, 4.0, 4.0, 0.9, 0.1],
        vec![10.0, 10.0, 4.0, 4.0, 0.1, 0.85],
    ]);
    let out = run_with_binary(&buf, 0.5f32.to_bits(), 0.5f32.to_bits(), 2, 6, false, ByteOrder::Little)
        .unwrap();
    assert_eq!(out, vec![bx(10, 10, 4, 4, 0.9, 0), bx(10, 10, 4, 4, 0.85, 1)]);
}

#[test]
fn end_to_end_transposed() {
    // the same two anchors stored as [features][anchors]
    let buf = encode(&[
        vec![10.0, 10.0],
        vec![10.0, 10.0],
        vec![4.0, 4.0],
        vec![4.0, 4.0],
        vec![0.9, 0.1],
        vec![0.1, 0.85],
    ]);
    let out = run_with_binary(&buf, 0.5f32.to_bits(), 0.5f32.to_bits(), 6, 2, true, ByteOrder::Little)
        .unwrap();
    assert_eq!(out, vec![bx(10, 10, 4, 4, 0.9, 0), bx(10, 10, 4, 4, 0.85, 1)]);
}

#[test]
fn suppression_of_overlapping_same_class() {
    let boxes = vec![bx(0, 0, 10, 10, 0.9, 0), bx(1, 1, 10, 10, 0.6, 0)];
    assert_eq!(nms(&boxes, 0.5f32.to_bits()), vec![bx(0, 0, 10, 10, 0.9, 0)]);
    let reversed = vec![bx(1, 1, 10, 10, 0.6, 0), bx(0, 0, 10, 10, 0.9, 0)];
    assert_eq!(nms(&reversed, 0.5f32.to_bits()), vec![bx(0, 0, 10, 10, 0.9, 0)]);
}

#[test]
fn suppression_scenario_through_buffer() {
    let buf = encode(&[
        vec![0.0, 0.0, 10.0, 10.0, 0.9],
        vec![1.0, 1.0, 10.0, 10.0, 0.6],
    ]);
    let out = run_with_binary(&buf, 0.5f32.to_bits(), 0.5f32.to_bits(), 2, 5, false, ByteOrder::Little)
        .unwrap();
    assert_eq!(out, vec![bx(0, 0, 10, 10, 0.9, 0)]);
}

#[test]
fn iou_equal_to_threshold_keeps_both() {
    // overlap 4 x 2 = 8, union 12 + 12 - 8 = 16: IoU exactly one half
    let a = bx(0, 0, 6, 2, 0.9, 0);
    let b = bx(2, 0, 6, 2, 0.6, 0);
    assert_eq!(calc_iou(&a, &b), (8, 16));
    assert_eq!(nms(&vec![a, b], 0.5f32.to_bits()), vec![a, b]);
    assert_eq!(nms(&vec![a, b], 0.49f32.to_bits()), vec![a]);
}

#[test]
fn different_classes_never_suppress() {
    let a = bx(5, 5, 8, 8, 0.7, 3);
    let b = bx(5, 5, 8, 8, 0.95, 1);
    assert_eq!(nms(&vec![a, b], 0.0f32.to_bits()), vec![b, a]);
}

#[test]
fn empty_after_filtering() {
    let buf = encode(&[vec![1.0, 1.0, 2.0, 2.0, 0.2, 0.3]]);
    let out = run_with_binary(&buf, 0.5f32.to_bits(), 0.5f32.to_bits(), 1, 6, false, ByteOrder::Little);
    assert_eq!(out, Ok(vec![]));
    assert_eq!(nms(&vec![], 0.5f32.to_bits()), vec![]);
}

#[test]
fn shape_mismatch_is_refused() {
    let buf = encode(&[vec![1.0, 1.0, 2.0, 2.0, 0.2, 0.3]]);
    let t = 0.5f32.to_bits();
    assert_eq!(run_with_binary(&buf, t, t, 2, 6, false, ByteOrder::Little), Err(DetectError::ShapeMismatch));
    assert_eq!(run_with_binary(&buf, t, t, 0, 6, false, ByteOrder::Little), Err(DetectError::ShapeMismatch));
    assert_eq!(run_with_binary(&vec![], t, t, 1, 0, false, ByteOrder::Little), Err(DetectError::ShapeMismatch));
    assert_eq!(binary_to_matrix(&vec![0u8; 5], 1, 1, ByteOrder::Little), Err(DetectError::ShapeMismatch));
    assert_eq!(
        binary_to_matrix(&vec![], usize::MAX, usize::MAX, ByteOrder::Little),
        Err(DetectError::ShapeMismatch)
    );
}

#[test]
fn row_without_scores_is_refused() {
    let buf = encode(&[vec![1.0, 1.0, 2.0, 2.0]]);
    let t = 0.5f32.to_bits();
    assert_eq!(run_with_binary(&buf, t, t, 1, 4, false, ByteOrder::Little), Err(DetectError::DegenerateRow));
    assert_eq!(bbox_from_row(&bits_row(&[1.0, 2.0, 3.0, 4.0])), Err(DetectError::DegenerateRow));
    assert_eq!(
        matrix_to_bboxes(&vec![bits_row(&[0.0, 0.0, 1.0, 1.0, 0.5]), bits_row(&[0.0])]),
        Err(DetectError::DegenerateRow)
    );
}

#[test]
fn decode_round_trip_both_orders() {
    let rows = vec![vec![1.5f32, -0.0, f32::MAX], vec![f32::MIN_POSITIVE, -7.25, 1e-40]];
    let words: Vec<Vec<u32>> = rows.iter().map(|r| bits_row(r)).collect();
    let little = encode(&rows);
    assert_eq!(binary_to_matrix(&little, 2, 3, ByteOrder::Little), Ok(words.clone()));
    let mut big = Vec::new();
    for r in &rows {
        for v in r {
            big.extend_from_slice(&v.to_be_bytes());
        }
    }
    assert_eq!(binary_to_matrix(&big, 2, 3, ByteOrder::Big), Ok(words.clone()));
    assert_eq!(binary_to_matrix(&vec![1, 2, 3, 4], 1, 1, ByteOrder::Little), Ok(vec![vec![0x0403_0201]]));
    assert_eq!(binary_to_matrix(&vec![1, 2, 3, 4], 1, 1, ByteOrder::Big), Ok(vec![vec![0x0102_0304]]));
}

#[test]
fn transpose_twice_is_identity() {
    let m = vec![vec![1u32, 2, 3], vec![4, 5, 6]];
    let t = transpose_matrix(&m);
    assert_eq!(t, vec![vec![1, 4], vec![2, 5], vec![3, 6]]);
    assert_eq!(transpose_matrix(&t), m);
    assert_eq!(transpose_matrix(&vec![]), Vec::<Vec<u32>>::new());
}

#[test]
fn raising_threshold_never_grows_survivors() {
    let boxes = vec![bx(0, 0, 1, 1, 0.2, 0), bx(0, 0, 1, 1, 0.5, 0), bx(0, 0, 1, 1, 0.8, 1)];
    let mut last = usize::MAX;
    for t in [0.0f32, 0.2, 0.3, 0.5, 0.8, 0.9] {
        let n = filter_by_prob(&boxes, t.to_bits()).len();
        assert!(n <= last);
        last = n;
    }
    assert_eq!(filter_by_prob(&boxes, 0.5f32.to_bits()), vec![boxes[1], boxes[2]]);
    assert_eq!(filter_by_prob(&boxes, f32::NAN.to_bits()), vec![]);
}

#[test]
fn rounding_matches_float_round() {
    for v in [0.0f32, -0.0, 0.49, 0.5, 1.5, 2.5, -2.5, -0.5, 3.7, -3.7, 1e9, 8388609.0, 123456.5] {
        assert_eq!(round_bits_to_i32(v.to_bits()), v.round() as i32, "value {}", v);
    }
    assert_eq!(round_bits_to_i32(2.5f32.to_bits()), 3);
    assert_eq!(round_bits_to_i32((-2.5f32).to_bits()), -3);
    assert_eq!(round_bits_to_i32(f32::NAN.to_bits()), 0);
    assert_eq!(round_bits_to_i32(1e10f32.to_bits()), i32::MAX);
    assert_eq!(round_bits_to_i32((-1e10f32).to_bits()), i32::MIN);
    assert_eq!(round_bits_to_i32(f32::INFINITY.to_bits()), i32::MAX);
    assert_eq!(round_bits_to_i32(f32::NEG_INFINITY.to_bits()), i32::MIN);
    assert_eq!(round_bits_to_i32(1e-40f32.to_bits()), 0);
}

#[test]
fn float_comparisons() {
    assert!(bits_ge(0.0f32.to_bits(), (-0.0f32).to_bits()));
    assert!(!bits_gt(0.0f32.to_bits(), (-0.0f32).to_bits()));
    assert!(bits_gt((-1.0f32).to_bits(), (-2.0f32).to_bits()));
    assert!(bits_gt(1.0f32.to_bits(), (-2.0f32).to_bits()));
    assert!(!bits_ge(f32::NAN.to_bits(), 0.0f32.to_bits()));
    assert!(!bits_ge(0.0f32.to_bits(), f32::NAN.to_bits()));
}

#[test]
fn best_class_breaks_ties_low() {
    let b = bbox_from_row(&bits_row(&[1.4, 1.6, -2.5, 3.0, 0.5, 0.7, 0.7, 0.1])).unwrap();
    assert_eq!(b, bx(1, 2, -3, 3, 0.7, 1));
    let n = bbox_from_row(&bits_row(&[0.0, 0.0, 1.0, 1.0, f32::NAN, 0.2])).unwrap();
    assert_eq!((n.class, n.prob), (1, 0.2f32.to_bits()));
    let all_nan = bbox_from_row(&bits_row(&[0.0, 0.0, 1.0, 1.0, f32::NAN])).unwrap();
    assert_eq!((all_nan.class, all_nan.prob), (0, f32::MIN.to_bits()));
}

#[test]
fn iou_areas() {
    let a = bx(0, 0, 10, 10, 0.9, 0);
    let b = bx(1, 1, 10, 10, 0.6, 0);
    assert_eq!(calc_iou(&a, &b), (81, 119));
    assert!(!iou_within(&a, &b, 0.68f32.to_bits()));
    assert!(iou_within(&a, &b, 0.69f32.to_bits()));
    // odd extents are halved toward zero: [-1, 1] x [-1, 1]
    assert_eq!(calc_iou(&bx(0, 0, 3, 3, 0.5, 0), &bx(0, 0, 3, 3, 0.5, 0)), (4, 14));
    // zero union counts as IoU 0
    let z = bx(0, 0, 0, 0, 0.5, 0);
    assert_eq!(calc_iou(&z, &z), (0, 0));
    assert!(iou_within(&z, &z, 0.0f32.to_bits()));
    assert!(!iou_within(&z, &z, (-0.1f32).to_bits()));
}

#[test]
fn quotient_compared_in_single_precision() {
    assert!(quotient_within(1, 2, 0.5f32.to_bits()));
    assert!(!quotient_within(1, 2, 0.4999f32.to_bits()));
    assert!(quotient_within(1, 3, (1.0f32 / 3.0).to_bits()));
    assert!(quotient_within(5, -1, 0.0f32.to_bits()));
    assert!(!quotient_within(5, 1, 4.0f32.to_bits()));
    assert!(quotient_within(5, 1, 8.0f32.to_bits()));
    assert!(quotient_within(5, 1, f32::INFINITY.to_bits()));
    assert!(!quotient_within(1, 1_000_000_000_000, 0.0f32.to_bits()));
    // 2^25 + 1 rounds to 2^25 before the division: the quotient is exactly 0.5
    assert!(quotient_within((1 << 25) + 1, 1 << 26, 0.5f32.to_bits()));
    // 0.50000005 rounds up to the float after 0.5
    assert!(!quotient_within(10_000_001, 20_000_000, 0.5f32.to_bits()));
}

#[test]
fn quotient_agrees_with_float_division() {
    let ns: [i64; 9] = [0, 1, 7, 81, 4096, 16_777_217, 33_554_435, 123_456_789, 9_876_543_210];
    let ds: [i64; 9] = [1, 3, 119, 16_777_219, 33_554_433, 250_000_001, 19_753_086_421, -5, -16_777_217];
    let ts: [f32; 9] = [0.0, -0.0, 1e-40, 0.25, 0.5, 0.68067229, 0.99999994, 1.0, 3.5];
    for n in ns {
        for d in ds {
            for t in ts {
                let expected = (n as f32 / d as f32).max(0.0) <= t;
                assert_eq!(quotient_within(n as i128, d as i128, t.to_bits()), expected, "{} / {} <= {}", n, d, t);
            }
        }
    }
}

#[test]
fn classes_in_ascending_order() {
    let boxes = vec![bx(0, 0, 2, 2, 0.5, 4), bx(0, 0, 2, 2, 0.5, 1), bx(9, 9, 2, 2, 0.6, 4)];
    assert_eq!(get_classes(&boxes), vec![1, 4]);
    assert_eq!(get_classes(&vec![]), Vec::<usize>::new());
}

#[test]
fn sorted_by_score_stable() {
    let boxes = vec![
        bx(0, 0, 2, 2, 0.3, 0),
        bx(10, 0, 2, 2, 0.9, 0),
        bx(20, 0, 2, 2, 0.6, 1),
        bx(30, 0, 2, 2, 0.6, 0),
        bx(40, 0, 2, 2, 0.6, 0),
    ];
    let sorted = sorted_boxes_filtered_by_class(&boxes, 0);
    assert_eq!(sorted, vec![boxes[1], boxes[3], boxes[4], boxes[0]]);
    assert_eq!(nms(&boxes, 0.5f32.to_bits()), vec![boxes[1], boxes[3], boxes[4], boxes[0], boxes[2]]);
}

#[test]
fn threshold_zero_and_negative() {
    let a = bx(0, 0, 4, 4, 0.9, 0);
    let touching = bx(4, 0, 4, 4, 0.8, 0);
    let overlapping = bx(3, 0, 4, 4, 0.7, 0);
    assert_eq!(nms(&vec![a, touching, overlapping], 0.0f32.to_bits()), vec![a, touching]);
    assert_eq!(nms(&vec![a, touching], (-0.5f32).to_bits()), vec![]);
    assert_eq!(nms(&vec![a, overlapping], 1.0f32.to_bits()), vec![a, overlapping]);
}
