//! Intersection over union of two boxes: the areas are exact integers, and
//! their quotient is compared with a threshold as single-precision
//! arithmetic would compare it, decided exactly.
use vstd::prelude::*;
use crate::bbox::BBox;
use crate::float_bits::{
    binary_scale, binary_scale_of, bits_ge, float_ge, is_infinite, is_infinite_bits,
    lemma_two_pow_monotone, significand, significand_of, two_pow, ZERO_BITS,
};

verus! {

/// `w / 2` rounded toward zero, as native integer division does.
pub open spec fn half(w: int) -> int {
    if w >= 0 {
        w / 2
    } else {
        -((-w) / 2)
    }
}

pub open spec fn max_int(a: int, b: int) -> int {
    if a >= b {
        a
    } else {
        b
    }
}

pub open spec fn min_int(a: int, b: int) -> int {
    if a <= b {
        a
    } else {
        b
    }
}

/// Area of the overlap of the rectangles `[cx - w/2, cx + w/2] x [cy - h/2, cy + h/2]`.
pub open spec fn intersection_area(a: BBox, b: BBox) -> int {
    let x1 = max_int(a.cx - half(a.w as int), b.cx - half(b.w as int));
    let y1 = max_int(a.cy - half(a.h as int), b.cy - half(b.h as int));
    let x2 = min_int(a.cx + half(a.w as int), b.cx + half(b.w as int));
    let y2 = min_int(a.cy + half(a.h as int), b.cy + half(b.h as int));
    max_int(0, x2 - x1) * max_int(0, y2 - y1)
}

/// `w * h` of each box, less the overlap (negative extents are not mended).
pub open spec fn union_area(a: BBox, b: BBox) -> int {
    a.w * a.h + b.w * b.h - intersection_area(a, b)
}

/// `n / d` rounded to the nearest integer, ties to the even one (`n >= 0`, `d > 0`).
pub open spec fn div_round_even(n: int, d: int) -> int {
    let q = n / d;
    let r = n % d;
    if 2 * r > d {
        q + 1
    } else if 2 * r < d {
        q
    } else if q % 2 == 0 {
        q
    } else {
        q + 1
    }
}

/// `n >= 0` rounded to 24 significant bits, ties to even, looking for the
/// number of dropped bits from `s` on.
pub open spec fn round_from(n: int, s: nat) -> int
    decreases 128 - s,
{
    if n < two_pow(24 + s) || s >= 128 {
        div_round_even(n, two_pow(s)) * two_pow(s)
    } else {
        round_from(n, s + 1)
    }
}

/// The single-precision value nearest to the integer `n` (`n as f32`).
pub open spec fn f32_of_int(n: int) -> int {
    if n >= 0 {
        round_from(n, 0)
    } else {
        -round_from(-n, 0)
    }
}

/// `(n as f32) / (d as f32) <= t` for `n >= 0`, `d != 0` and a float `t`
/// that is not below zero. With `a` and `b` the two rounded operands, a
/// positive quotient `a / b` rounds to at most `t = M * 2^k` exactly when it
/// lies below the midpoint `(2M + 1) * 2^(k - 1)` between `t` and the next
/// float, or on it with `M` even; a negative one always does.
pub open spec fn quotient_at_most(n: int, d: int, t: u32) -> bool {
    let a = f32_of_int(n);
    let b = f32_of_int(d);
    if is_infinite(t) || b < 0 {
        true
    } else {
        let c = (2 * significand(t) + 1) * b;
        let e = binary_scale(t) - 1;
        let lhs = if e >= 0 {
            a
        } else {
            a * two_pow((-e) as nat)
        };
        let rhs = if e >= 0 {
            c * two_pow(e as nat)
        } else {
            c
        };
        lhs < rhs || (lhs == rhs && significand(t) % 2 == 0)
    }
}

/// `max(0, iou(a, b)) <= t` with the IoU computed in single precision and
/// taken to be 0 where the union's area is zero: what the greedy walk tests
/// against each box already kept.
pub open spec fn iou_at_most(a: BBox, b: BBox, t: u32) -> bool {
    float_ge(t, ZERO_BITS) && (union_area(a, b) == 0 || quotient_at_most(
        intersection_area(a, b),
        union_area(a, b),
        t,
    ))
}

pub open spec fn compare(x: int, y: int) -> int {
    if x < y {
        -1
    } else if x == y {
        0
    } else {
        1
    }
}

fn half_of(w: i32) -> (r: i64)
    ensures
        r == half(w as int),
        -0x4000_0000 <= r <= 0x4000_0000,
{
    if w >= 0 {
        (w / 2) as i64
    } else {
        -((-(w as i64)) / 2)
    }
}

/// The overlap and union areas of two boxes: their IoU is `inter / union`.
pub fn calc_iou(a: &BBox, b: &BBox) -> (r: (i128, i128))
    ensures
        r.0 == intersection_area(*a, *b),
        r.1 == union_area(*a, *b),
        0 <= r.0 < 0x4_0000_0000_0000_0000_i128,
        -0x8_0000_0000_0000_0000_i128 < r.1 < 0x8_0000_0000_0000_0000_i128,
{
    let ax1: i64 = a.cx as i64 - half_of(a.w);
    let bx1: i64 = b.cx as i64 - half_of(b.w);
    let ay1: i64 = a.cy as i64 - half_of(a.h);
    let by1: i64 = b.cy as i64 - half_of(b.h);
    let ax2: i64 = a.cx as i64 + half_of(a.w);
    let bx2: i64 = b.cx as i64 + half_of(b.w);
    let ay2: i64 = a.cy as i64 + half_of(a.h);
    let by2: i64 = b.cy as i64 + half_of(b.h);
    let x1: i64 = if ax1 >= bx1 { ax1 } else { bx1 };
    let y1: i64 = if ay1 >= by1 { ay1 } else { by1 };
    let x2: i64 = if ax2 <= bx2 { ax2 } else { bx2 };
    let y2: i64 = if ay2 <= by2 { ay2 } else { by2 };
    let iw: i64 = if x2 - x1 >= 0 { x2 - x1 } else { 0 };
    let ih: i64 = if y2 - y1 >= 0 { y2 - y1 } else { 0 };
    assert(0 <= iw * ih < 0x4_0000_0000_0000_0000_i128) by (nonlinear_arith)
        requires
            0 <= iw < 0x2_0000_0000,
            0 <= ih < 0x2_0000_0000,
    ;
    let inter: i128 = iw as i128 * ih as i128;
    let aw: i128 = a.w as i128;
    let ah: i128 = a.h as i128;
    let bw: i128 = b.w as i128;
    let bh: i128 = b.h as i128;
    assert(-0x4000_0000_0000_0000 <= aw * ah <= 0x4000_0000_0000_0000) by (nonlinear_arith)
        requires
            -0x8000_0000 <= aw < 0x8000_0000,
            -0x8000_0000 <= ah < 0x8000_0000,
    ;
    assert(-0x4000_0000_0000_0000 <= bw * bh <= 0x4000_0000_0000_0000) by (nonlinear_arith)
        requires
            -0x8000_0000 <= bw < 0x8000_0000,
            -0x8000_0000 <= bh < 0x8000_0000,
    ;
    let union: i128 = aw * ah + bw * bh - inter;
    (inter, union)
}

proof fn lemma_two_pow_add(a: nat, b: nat)
    ensures
        two_pow(a + b) == two_pow(a) * two_pow(b),
    decreases a,
{
    if a > 0 {
        lemma_two_pow_add((a - 1) as nat, b);
        assert(two_pow(a + b) == 2 * two_pow((a - 1 + b) as nat));
        assert(2 * (two_pow((a - 1) as nat) * two_pow(b)) == (2 * two_pow((a - 1) as nat)) * two_pow(b))
            by (nonlinear_arith);
    }
}

proof fn lemma_two_pow_values()
    ensures
        two_pow(24) == 0x100_0000,
        two_pow(44) == 0x1000_0000_0000,
{
    reveal_with_fuel(two_pow, 45);
}

/// `n as f32` for `0 <= n < 2^68`, as an integer.
fn nearest_f32(n: u128) -> (r: u128)
    requires
        n < 0x10_0000_0000_0000_0000,
    ensures
        r == round_from(n as int, 0),
        r <= 0x20_0000_0000_0000_0000,
        n > 0 ==> r > 0,
{
    let mut d: u128 = 1;
    let mut lim: u128 = 0x100_0000;
    let ghost mut s: nat = 0;
    proof {
        lemma_two_pow_values();
    }
    while n >= lim
        invariant
            n < 0x10_0000_0000_0000_0000,
            d == two_pow(s),
            lim == 0x100_0000 * d,
            s <= 44,
            s > 0 ==> 2 * n >= lim,
            round_from(n as int, 0) == round_from(n as int, s),
        decreases 44 - s,
    {
        proof {
            lemma_two_pow_values();
            if s >= 44 {
                lemma_two_pow_monotone(44, s);
            }
            lemma_two_pow_add(24, s);
        }
        d = d * 2;
        lim = lim * 2;
        proof {
            s = s + 1;
        }
    }
    proof {
        lemma_two_pow_values();
        lemma_two_pow_add(24, s);
        lemma_two_pow_monotone(0, s);
        if s > 0 {
            assert(n / d >= 0x80_0000) by (nonlinear_arith)
                requires
                    2 * n >= 0x100_0000 * d,
                    d > 0,
            ;
        }
    }
    let q: u128 = n / d;
    let rem: u128 = n % d;
    let q2: u128 = if 2 * rem > d {
        q + 1
    } else if 2 * rem < d {
        q
    } else if q % 2 == 0 {
        q
    } else {
        q + 1
    };
    proof {
        assert(q * d <= n) by (nonlinear_arith)
            requires
                q == n / d,
                d > 0,
        ;
        assert(q2 * d <= n + d) by (nonlinear_arith)
            requires
                q2 <= q + 1,
                q * d <= n,
        ;
        if n > 0 {
            if s == 0 {
                assert(q == n);
            }
            assert(q2 * d > 0) by (nonlinear_arith)
                requires
                    q2 >= 1,
                    d >= 1,
            ;
        }
    }
    q2 * d
}

/// `compare(p * 2^j, q)` for `0 <= p, q < 2^100`.
fn grow_cmp(p: u128, j: u32, q: u128) -> (r: i8)
    requires
        p < 0x10_0000_0000_0000_0000_0000_0000,
        q < 0x10_0000_0000_0000_0000_0000_0000,
    ensures
        r == compare(p * two_pow(j as nat), q as int),
{
    let mut acc: u128 = p;
    let mut i: u32 = 0;
    while i < j
        invariant
            i <= j,
            acc == p * two_pow(i as nat),
            acc < 0x20_0000_0000_0000_0000_0000_0000,
            q < 0x10_0000_0000_0000_0000_0000_0000,
        decreases j - i,
    {
        proof {
            lemma_two_pow_monotone(i as nat, j as nat);
            let a = two_pow(i as nat);
            let b = two_pow(j as nat);
            assert(p * a <= p * b) by (nonlinear_arith)
                requires
                    p >= 0,
                    a <= b,
            ;
            assert(two_pow((i + 1) as nat) == 2 * a);
            assert(p * (2 * a) == 2 * (p * a)) by (nonlinear_arith);
        }
        if acc > q {
            return 1;
        }
        acc = acc * 2;
        i = i + 1;
    }
    if acc < q {
        -1
    } else if acc == q {
        0
    } else {
        1
    }
}

/// `(n as f32) / (d as f32) <= t`, for a threshold `t` not below zero.
pub fn quotient_within(n: i128, d: i128, t: u32) -> (r: bool)
    requires
        0 <= n < 0x4_0000_0000_0000_0000_i128,
        -0x8_0000_0000_0000_0000_i128 < d < 0x8_0000_0000_0000_0000_i128,
        d != 0,
        float_ge(t, ZERO_BITS),
    ensures
        r == quotient_at_most(n as int, d as int, t),
{
    if is_infinite_bits(t) {
        return true;
    }
    if d < 0 {
        // the divisor rounds to a negative float, so the quotient is not above zero
        let _divisor = nearest_f32((-d) as u128);
        return true;
    }
    let a: u128 = nearest_f32(n as u128);
    let b: u128 = nearest_f32(d as u128);
    let m: u32 = significand_of(t);
    let e: i32 = binary_scale_of(t) - 1;
    assert((2 * m + 1) * b < 0x10_0000_0000_0000_0000_0000_0000) by (nonlinear_arith)
        requires
            m < 0x100_0000,
            b <= 0x20_0000_0000_0000_0000,
    ;
    let c: u128 = (2 * m as u128 + 1) * b;
    let ord: i8 = if e >= 0 {
        -grow_cmp(c, e as u32, a)
    } else {
        grow_cmp(a, (-e) as u32, c)
    };
    ord < 0 || (ord == 0 && m % 2 == 0)
}

/// Whether `max(0, iou(a, b)) <= t`, the IoU taken in single precision.
pub fn iou_within(a: &BBox, b: &BBox, t: u32) -> (r: bool)
    ensures
        r == iou_at_most(*a, *b, t),
{
    if !bits_ge(t, ZERO_BITS) {
        return false;
    }
    let (inter, union) = calc_iou(a, b);
    if union == 0 {
        true
    } else {
        quotient_within(inter, union, t)
    }
}

} // verus!
