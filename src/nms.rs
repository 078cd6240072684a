//! Class-wise greedy non-maximum suppression.
use vstd::prelude::*;
use crate::bbox::{classes_fit, kept_by_prob, BBox};
use crate::float_bits::{bits_ge, float_ge, float_gt, order_key, order_key_of, ZERO_BITS};
use crate::iou::{iou_at_most, iou_within};

verus! {

pub open spec fn prob_key(b: BBox) -> int {
    order_key(b.prob)
}

/// The boxes of class `c`, in order.
pub open spec fn of_class(s: Seq<BBox>, c: usize) -> Seq<BBox>
    decreases s.len(),
{
    if s.len() == 0 {
        Seq::empty()
    } else {
        let rest = of_class(s.drop_last(), c);
        if s.last().class == c {
            rest.push(s.last())
        } else {
            rest
        }
    }
}

/// `x` placed into a list ordered by descending score, after every box whose
/// score is at least its own.
pub open spec fn insert_desc(t: Seq<BBox>, x: BBox) -> Seq<BBox>
    decreases t.len(),
{
    if t.len() == 0 || prob_key(t.last()) >= prob_key(x) {
        t.push(x)
    } else {
        insert_desc(t.drop_last(), x).push(t.last())
    }
}

/// Stable sort by descending score: boxes with equal scores keep their order.
pub open spec fn sort_desc(s: Seq<BBox>) -> Seq<BBox>
    decreases s.len(),
{
    if s.len() == 0 {
        Seq::empty()
    } else {
        insert_desc(sort_desc(s.drop_last()), s.last())
    }
}

/// A candidate is kept when the largest of 0 and its IoUs with the boxes
/// already kept is at most the threshold.
pub open spec fn survives(c: BBox, kept: Seq<BBox>, t: u32) -> bool {
    float_ge(t, ZERO_BITS) && forall|i: int| 0 <= i < kept.len() ==> iou_at_most(c, #[trigger] kept[i], t)
}

/// The boxes kept by walking `sorted` in order.
pub open spec fn greedy(sorted: Seq<BBox>, t: u32) -> Seq<BBox>
    decreases sorted.len(),
{
    if sorted.len() == 0 {
        Seq::empty()
    } else {
        let kept = greedy(sorted.drop_last(), t);
        if survives(sorted.last(), kept, t) {
            kept.push(sorted.last())
        } else {
            kept
        }
    }
}

pub open spec fn class_kept(s: Seq<BBox>, c: usize, t: u32) -> Seq<BBox> {
    greedy(sort_desc(of_class(s, c)), t)
}

pub open spec fn has_class(s: Seq<BBox>, c: int) -> bool {
    exists|i: int| 0 <= i < s.len() && #[trigger] s[i].class == c
}

/// The classes below `n` that some box has, ascending.
pub open spec fn classes_below(s: Seq<BBox>, n: nat) -> Seq<usize>
    decreases n,
{
    if n == 0 {
        Seq::empty()
    } else {
        let r = classes_below(s, (n - 1) as nat);
        if has_class(s, n - 1) {
            r.push((n - 1) as usize)
        } else {
            r
        }
    }
}

/// One more than the largest class (0 for no boxes).
pub open spec fn class_bound(s: Seq<BBox>) -> nat
    decreases s.len(),
{
    if s.len() == 0 {
        0
    } else {
        let b = class_bound(s.drop_last());
        if b >= s.last().class + 1 {
            b
        } else {
            (s.last().class + 1) as nat
        }
    }
}

/// The distinct classes of `s`, ascending.
pub open spec fn class_order(s: Seq<BBox>) -> Seq<usize> {
    classes_below(s, class_bound(s))
}

pub open spec fn nms_over(s: Seq<BBox>, classes: Seq<usize>, t: u32) -> Seq<BBox>
    decreases classes.len(),
{
    if classes.len() == 0 {
        Seq::empty()
    } else {
        nms_over(s, classes.drop_last(), t) + class_kept(s, classes.last(), t)
    }
}

/// What suppression keeps of `s`: class by class in ascending order, the
/// boxes that the greedy walk over the class's boxes, best score first, keeps.
pub open spec fn nms_result(s: Seq<BBox>, t: u32) -> Seq<BBox> {
    nms_over(s, class_order(s), t)
}

fn class_bound_of(boxes: &Vec<BBox>) -> (r: usize)
    requires
        classes_fit(boxes@),
    ensures
        r == class_bound(boxes@),
{
    let mut b: usize = 0;
    let mut i: usize = 0;
    while i < boxes.len()
        invariant
            i <= boxes@.len(),
            classes_fit(boxes@),
            b == class_bound(boxes@.take(i as int)),
        decreases boxes@.len() - i,
    {
        assert(boxes@.take(i + 1).drop_last() =~= boxes@.take(i as int));
        let c = boxes[i].class;
        if b < c + 1 {
            b = c + 1;
        }
        i = i + 1;
    }
    assert(boxes@.take(i as int) =~= boxes@);
    b
}

fn contains_class(boxes: &Vec<BBox>, c: usize) -> (r: bool)
    ensures
        r == has_class(boxes@, c as int),
{
    let mut i: usize = 0;
    while i < boxes.len()
        invariant
            i <= boxes@.len(),
            forall|k: int| 0 <= k < i ==> #[trigger] boxes@[k].class != c,
        decreases boxes@.len() - i,
    {
        if boxes[i].class == c {
            return true;
        }
        i = i + 1;
    }
    false
}

/// The distinct classes of `boxes`, ascending.
pub fn get_classes(boxes: &Vec<BBox>) -> (r: Vec<usize>)
    requires
        classes_fit(boxes@),
    ensures
        r@ == class_order(boxes@),
{
    let bound = class_bound_of(boxes);
    let mut out: Vec<usize> = Vec::new();
    let mut c: usize = 0;
    while c < bound
        invariant
            c <= bound,
            bound == class_bound(boxes@),
            out@ == classes_below(boxes@, c as nat),
        decreases bound - c,
    {
        if contains_class(boxes, c) {
            out.push(c);
        }
        c = c + 1;
    }
    out
}

/// The boxes of class `c`, in order.
fn boxes_of_class(boxes: &Vec<BBox>, c: usize) -> (r: Vec<BBox>)
    ensures
        r@ == of_class(boxes@, c),
{
    let mut out: Vec<BBox> = Vec::new();
    let mut i: usize = 0;
    while i < boxes.len()
        invariant
            i <= boxes@.len(),
            out@ == of_class(boxes@.take(i as int), c),
        decreases boxes@.len() - i,
    {
        assert(boxes@.take(i + 1).drop_last() =~= boxes@.take(i as int));
        if boxes[i].class == c {
            out.push(boxes[i]);
        }
        i = i + 1;
    }
    assert(boxes@.take(i as int) =~= boxes@);
    out
}

proof fn lemma_insert_at(t: Seq<BBox>, x: BBox, j: int)
    requires
        0 <= j <= t.len(),
        forall|i: int| j <= i < t.len() ==> prob_key(#[trigger] t[i]) < prob_key(x),
        j == 0 || prob_key(t[j - 1]) >= prob_key(x),
    ensures
        insert_desc(t, x) == t.insert(j, x),
    decreases t.len(),
{
    if t.len() == j {
        assert(t.push(x) =~= t.insert(j, x));
    } else {
        let d = t.drop_last();
        assert(prob_key(t[t.len() - 1]) < prob_key(x));
        assert forall|i: int| j <= i < d.len() implies prob_key(#[trigger] d[i]) < prob_key(x) by {
            assert(d[i] == t[i]);
        }
        if j > 0 {
            assert(d[j - 1] == t[j - 1]);
        }
        lemma_insert_at(d, x, j);
        assert(d.insert(j, x).push(t.last()) =~= t.insert(j, x));
    }
}

fn insert_sorted(v: Vec<BBox>, x: BBox) -> (r: Vec<BBox>)
    ensures
        r@ == insert_desc(v@, x),
{
    let mut v = v;
    let kx = order_key_of(x.prob);
    let mut j: usize = v.len();
    while j > 0 && order_key_of(v[j - 1].prob) < kx
        invariant
            j <= v@.len(),
            kx == prob_key(x),
            forall|i: int| j <= i < v@.len() ==> prob_key(#[trigger] v@[i]) < prob_key(x),
        decreases j,
    {
        j = j - 1;
    }
    proof {
        lemma_insert_at(v@, x, j as int);
    }
    v.insert(j, x);
    v
}

/// The boxes of class `c`, best score first; equal scores keep their order.
pub fn sorted_boxes_filtered_by_class(boxes: &Vec<BBox>, c: usize) -> (r: Vec<BBox>)
    ensures
        r@ == sort_desc(of_class(boxes@, c)),
{
    let members = boxes_of_class(boxes, c);
    let mut sorted: Vec<BBox> = Vec::new();
    let mut i: usize = 0;
    while i < members.len()
        invariant
            i <= members@.len(),
            sorted@ == sort_desc(members@.take(i as int)),
        decreases members@.len() - i,
    {
        assert(members@.take(i + 1).drop_last() =~= members@.take(i as int));
        sorted = insert_sorted(sorted, members[i]);
        i = i + 1;
    }
    assert(members@.take(i as int) =~= members@);
    sorted
}

fn survives_exec(c: &BBox, kept: &Vec<BBox>, t: u32) -> (r: bool)
    ensures
        r == survives(*c, kept@, t),
{
    if !bits_ge(t, ZERO_BITS) {
        return false;
    }
    let mut i: usize = 0;
    while i < kept.len()
        invariant
            i <= kept@.len(),
            forall|k: int| 0 <= k < i ==> iou_at_most(*c, #[trigger] kept@[k], t),
        decreases kept@.len() - i,
    {
        if !iou_within(c, &kept[i], t) {
            return false;
        }
        i = i + 1;
    }
    true
}

/// Class-wise suppression: for each class in ascending order, the boxes of
/// that class by descending score, each kept unless its IoU with a box kept
/// before it exceeds `iou_threshold` (or the threshold is below zero).
pub fn nms(bboxes: &Vec<BBox>, iou_threshold: u32) -> (r: Vec<BBox>)
    requires
        classes_fit(bboxes@),
    ensures
        r@ == nms_result(bboxes@, iou_threshold),
{
    let classes = get_classes(bboxes);
    let mut final_boxes: Vec<BBox> = Vec::new();
    let mut k: usize = 0;
    while k < classes.len()
        invariant
            k <= classes@.len(),
            classes@ == class_order(bboxes@),
            final_boxes@ == nms_over(bboxes@, classes@.take(k as int), iou_threshold),
        decreases classes@.len() - k,
    {
        let c = classes[k];
        let class_boxes = sorted_boxes_filtered_by_class(bboxes, c);
        let mut kept: Vec<BBox> = Vec::new();
        let mut i: usize = 0;
        while i < class_boxes.len()
            invariant
                i <= class_boxes@.len(),
                kept@ == greedy(class_boxes@.take(i as int), iou_threshold),
            decreases class_boxes@.len() - i,
        {
            assert(class_boxes@.take(i + 1).drop_last() =~= class_boxes@.take(i as int));
            if survives_exec(&class_boxes[i], &kept, iou_threshold) {
                kept.push(class_boxes[i]);
            }
            i = i + 1;
        }
        assert(class_boxes@.take(i as int) =~= class_boxes@);
        assert(classes@.take(k + 1).drop_last() =~= classes@.take(k as int));
        let ghost before = final_boxes@;
        final_boxes.append(&mut kept);
        assert(final_boxes@ =~= before + class_kept(bboxes@, c, iou_threshold));
        k = k + 1;
    }
    assert(classes@.take(k as int) =~= classes@);
    final_boxes
}

proof fn lemma_one_box(x: BBox, t: u32)
    requires
        float_ge(t, ZERO_BITS),
    ensures
        greedy(sort_desc(seq![x]), t) == seq![x],
{
    reveal_with_fuel(sort_desc, 3);
    reveal_with_fuel(insert_desc, 3);
    reveal_with_fuel(greedy, 3);
    let one = seq![x];
    assert(one.drop_last() =~= Seq::<BBox>::empty());
    assert(sort_desc(one) =~= one);
    assert(greedy(one, t) =~= one);
}

proof fn lemma_bound_of_pair(x: BBox, y: BBox)
    ensures
        class_bound(seq![x, y]) == if x.class >= y.class {
            x.class + 1
        } else {
            y.class + 1
        },
{
    reveal_with_fuel(class_bound, 3);
    assert(seq![x, y].drop_last() =~= seq![x]);
    assert(seq![x].drop_last() =~= Seq::<BBox>::empty());
}

proof fn lemma_classes_of_pair(s: Seq<BBox>, lo: BBox, hi: BBox, n: nat)
    requires
        s == seq![lo, hi] || s == seq![hi, lo],
        lo.class < hi.class,
    ensures
        classes_below(s, n) == if n <= lo.class {
            Seq::<usize>::empty()
        } else if n <= hi.class {
            seq![lo.class]
        } else {
            seq![lo.class, hi.class]
        },
    decreases n,
{
    if n > 0 {
        lemma_classes_of_pair(s, lo, hi, (n - 1) as nat);
        if n - 1 == lo.class {
            if s[0] == lo {
                assert(s[0].class == n - 1);
            } else {
                assert(s[1].class == n - 1);
            }
        } else if n - 1 == hi.class {
            if s[0] == hi {
                assert(s[0].class == n - 1);
            } else {
                assert(s[1].class == n - 1);
            }
        } else {
            assert(!has_class(s, n - 1)) by {
                assert forall|i: int| 0 <= i < s.len() implies #[trigger] s[i].class != n - 1 by {
                    assert(i == 0 || i == 1);
                }
            }
        }
        assert(classes_below(s, n) =~= (if n <= lo.class {
            Seq::<usize>::empty()
        } else if n <= hi.class {
            seq![lo.class]
        } else {
            seq![lo.class, hi.class]
        }));
    }
}

proof fn lemma_pair_of_classes(s: Seq<BBox>, lo: BBox, hi: BBox, t: u32)
    requires
        s == seq![lo, hi] || s == seq![hi, lo],
        lo.class < hi.class,
        float_ge(t, ZERO_BITS),
    ensures
        nms_result(s, t) == seq![lo, hi],
{
    reveal_with_fuel(of_class, 3);
    reveal_with_fuel(nms_over, 3);
    lemma_bound_of_pair(s[0], s[1]);
    assert(s =~= seq![s[0], s[1]]);
    lemma_classes_of_pair(s, lo, hi, (hi.class + 1) as nat);
    let cl = seq![lo.class, hi.class];
    assert(class_order(s) == cl);
    assert(s.drop_last() =~= seq![s[0]]);
    assert(seq![s[0]].drop_last() =~= Seq::<BBox>::empty());
    assert(of_class(s, lo.class) =~= seq![lo]);
    assert(of_class(s, hi.class) =~= seq![hi]);
    lemma_one_box(lo, t);
    lemma_one_box(hi, t);
    assert(cl.drop_last() =~= seq![lo.class]);
    assert(seq![lo.class].drop_last() =~= Seq::<usize>::empty());
    assert(nms_over(s, seq![lo.class], t) =~= seq![lo]);
    assert(nms_over(s, cl, t) =~= seq![lo, hi]);
}

/// Boxes of different classes never suppress each other: two such boxes
/// that both pass the confidence threshold both come out, lower class
/// first, whatever their overlap, whenever the IoU threshold is not below
/// zero.
pub proof fn lemma_class_isolation(a: BBox, b: BBox, prob_threshold: u32, iou_threshold: u32)
    requires
        a.class != b.class,
        float_ge(a.prob, prob_threshold),
        float_ge(b.prob, prob_threshold),
        float_ge(iou_threshold, ZERO_BITS),
    ensures
        nms_result(kept_by_prob(seq![a, b], prob_threshold), iou_threshold) == if a.class
            < b.class {
            seq![a, b]
        } else {
            seq![b, a]
        },
{
    reveal_with_fuel(kept_by_prob, 3);
    let s = seq![a, b];
    assert(s.drop_last() =~= seq![a]);
    assert(seq![a].drop_last() =~= Seq::<BBox>::empty());
    assert(kept_by_prob(s, prob_threshold) =~= s);
    if a.class < b.class {
        lemma_pair_of_classes(s, a, b, iou_threshold);
    } else {
        lemma_pair_of_classes(s, b, a, iou_threshold);
    }
}

proof fn lemma_classes_of_one(s: Seq<BBox>, c: usize, n: nat)
    requires
        s.len() > 0,
        forall|i: int| 0 <= i < s.len() ==> #[trigger] s[i].class == c,
    ensures
        classes_below(s, n) == if n <= c {
            Seq::<usize>::empty()
        } else {
            seq![c]
        },
    decreases n,
{
    if n > 0 {
        lemma_classes_of_one(s, c, (n - 1) as nat);
        if n - 1 == c {
            assert(s[0].class == c);
        } else {
            assert(!has_class(s, n - 1));
        }
        assert(classes_below(s, n) =~= (if n <= c {
            Seq::<usize>::empty()
        } else {
            seq![c]
        }));
    }
}

/// Of two boxes of one class, the one with the lower score is dropped
/// exactly when its IoU with the other exceeds the threshold: an IoU equal
/// to the threshold keeps both. The input order does not matter; the
/// threshold is taken to be at least zero.
pub proof fn lemma_suppression(best: BBox, other: BBox, t: u32)
    requires
        best.class == other.class,
        float_gt(best.prob, other.prob),
        float_ge(t, ZERO_BITS),
    ensures
        nms_result(seq![best, other], t) == if iou_at_most(other, best, t) {
            seq![best, other]
        } else {
            seq![best]
        },
        nms_result(seq![other, best], t) == nms_result(seq![best, other], t),
{
    reveal_with_fuel(sort_desc, 3);
    reveal_with_fuel(insert_desc, 3);
    reveal_with_fuel(greedy, 3);
    reveal_with_fuel(of_class, 3);
    reveal_with_fuel(nms_over, 3);
    let c = best.class;
    let want = if iou_at_most(other, best, t) {
        seq![best, other]
    } else {
        seq![best]
    };
    let sorted = seq![best, other];
    assert(sorted.drop_last() =~= seq![best]);
    assert(seq![best].drop_last() =~= Seq::<BBox>::empty());
    assert(seq![other].drop_last() =~= Seq::<BBox>::empty());
    assert(greedy(seq![best], t) =~= seq![best]);
    assert(survives(other, seq![best], t) == iou_at_most(other, best, t));
    assert(greedy(sorted, t) =~= want);
    let s1 = seq![best, other];
    let s2 = seq![other, best];
    assert(s2.drop_last() =~= seq![other]);
    assert(sort_desc(seq![best]) =~= seq![best]);
    assert(sort_desc(seq![other]) =~= seq![other]);
    assert(insert_desc(seq![best], other) =~= sorted);
    assert(insert_desc(Seq::<BBox>::empty(), best) =~= seq![best]);
    assert(insert_desc(seq![other], best) =~= sorted);
    assert(of_class(s1, c) =~= s1);
    assert(of_class(s2, c) =~= s2);
    assert(sort_desc(s1) =~= sorted);
    assert(sort_desc(s2) =~= sorted);
    lemma_bound_of_pair(best, other);
    lemma_bound_of_pair(other, best);
    lemma_classes_of_one(s1, c, (c + 1) as nat);
    lemma_classes_of_one(s2, c, (c + 1) as nat);
    assert(seq![c].drop_last() =~= Seq::<usize>::empty());
    assert(nms_over(s1, seq![c], t) =~= want);
    assert(nms_over(s2, seq![c], t) =~= want);
}

/// Where nothing passes the confidence threshold, suppression yields nothing.
pub proof fn lemma_empty_input(s: Seq<BBox>, prob_threshold: u32, iou_threshold: u32)
    requires
        kept_by_prob(s, prob_threshold).len() == 0,
    ensures
        nms_result(kept_by_prob(s, prob_threshold), iou_threshold).len() == 0,
{
    let k = kept_by_prob(s, prob_threshold);
    assert(class_bound(k) == 0);
    assert(class_order(k) =~= Seq::<usize>::empty());
}

} // verus!
