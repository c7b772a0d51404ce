//! Exact integer helpers of the clipping engine: sign, 64x64-bit products,
//! product comparison and collinearity.
use vstd::prelude::*;
use crate::geometry::Point64;

verus! {

/// Smallest and largest precision (decimal places) the engine accepts.
pub const MIN_PRECISION: i32 = -8;
pub const MAX_PRECISION: i32 = 8;

/// Two to the power 32, the base of the half-words.
pub open spec fn pow32() -> int {
    0x1_0000_0000
}

/// Two to the power 64, the base of the words of a 128-bit product.
pub open spec fn pow64() -> int {
    0x1_0000_0000_0000_0000
}

/// The sign test of the engine: -1 below zero, 1 above one, and 0 for zero
/// and for one alike.
pub open spec fn tri_sign_spec(x: int) -> int {
    if x < 0 {
        -1
    } else if x > 1 {
        1
    } else {
        0
    }
}

/// The mathematical sign of an integer.
pub open spec fn sign(x: int) -> int {
    if x < 0 {
        -1
    } else if x > 0 {
        1
    } else {
        0
    }
}

/// Absolute value.
pub open spec fn abs(x: int) -> int {
    if x < 0 {
        -x
    } else {
        x
    }
}

/// Validates a decimal precision. A precision outside `-8..=8` is a
/// programming error (the engine panics on it); callers must stay inside.
pub fn check_precision(precision: i32)
    requires
        MIN_PRECISION <= precision <= MAX_PRECISION,
{
}

/// The engine's three-way sign of `x` (note: 1 maps to 0).
pub fn tri_sign(x: i64) -> (r: i64)
    ensures
        r == tri_sign_spec(x as int),
{
    if x < 0 {
        -1
    } else if x > 1 {
        1
    } else {
        0
    }
}

/// A 128-bit unsigned value as two 64-bit words.
#[derive(Debug, Clone, Copy)]
pub struct MultiplyUInt64Result {
    pub lo64: u64,
    pub hi64: u64,
}

impl MultiplyUInt64Result {
    /// The number that the two words represent.
    pub open spec fn value(self) -> int {
        self.hi64 * pow64() + self.lo64
    }
}

proof fn lemma_split_u64(v: u64)
    ensures
        v & 0xFFFF_FFFFu64 == v % 0x1_0000_0000,
        v >> 32u64 == v / 0x1_0000_0000,
        v == (v >> 32u64) * 0x1_0000_0000 + (v & 0xFFFF_FFFFu64),
        v & 0xFFFF_FFFFu64 < 0x1_0000_0000,
        v >> 32u64 < 0x1_0000_0000,
{
    assert(v & 0xFFFF_FFFFu64 == v % 0x1_0000_0000) by (bit_vector);
    assert(v >> 32u64 == v / 0x1_0000_0000) by (bit_vector);
}

proof fn lemma_join_u64(h: u64, l: u64)
    requires
        h < 0x1_0000_0000,
        l < 0x1_0000_0000,
    ensures
        (h << 32u64) | l == h * 0x1_0000_0000 + l,
{
    assert((h << 32u64) | l == h * 0x1_0000_0000 + l) by (bit_vector)
        requires
            h < 0x1_0000_0000,
            l < 0x1_0000_0000,
    ;
}

/// The full 128-bit product of two 64-bit unsigned values.
pub fn multiply_uint64(a: u64, b: u64) -> (r: MultiplyUInt64Result)
    ensures
        r.value() == a * b,
{
    proof {
        lemma_split_u64(a);
        lemma_split_u64(b);
    }
    let a0: u64 = a & 0xFFFF_FFFF;
    let a1: u64 = a >> 32;
    let b0: u64 = b & 0xFFFF_FFFF;
    let b1: u64 = b >> 32;
    proof {
        assert(a0 * b0 <= 0xFFFF_FFFE_0000_0001) by (nonlinear_arith)
            requires a0 < 0x1_0000_0000, b0 < 0x1_0000_0000;
        assert(a1 * b0 <= 0xFFFF_FFFE_0000_0001) by (nonlinear_arith)
            requires a1 < 0x1_0000_0000, b0 < 0x1_0000_0000;
        assert(a0 * b1 <= 0xFFFF_FFFE_0000_0001) by (nonlinear_arith)
            requires a0 < 0x1_0000_0000, b1 < 0x1_0000_0000;
        assert(a1 * b1 <= 0xFFFF_FFFE_0000_0001) by (nonlinear_arith)
            requires a1 < 0x1_0000_0000, b1 < 0x1_0000_0000;
    }
    let x1: u64 = a0 * b0;
    proof {
        lemma_split_u64(x1);
    }
    let x2: u64 = a1 * b0 + (x1 >> 32);
    proof {
        lemma_split_u64(x2);
    }
    let x3: u64 = a0 * b1 + (x2 & 0xFFFF_FFFF);
    proof {
        lemma_split_u64(x3);
        lemma_join_u64(x3 & 0xFFFF_FFFFu64, x1 & 0xFFFF_FFFFu64);
    }
    let lo64: u64 = ((x3 & 0xFFFF_FFFF) << 32) | (x1 & 0xFFFF_FFFF);
    proof {
        assert(a1 * b1 + (x2 >> 32u64) + (x3 >> 32u64) < 0x1_0000_0000_0000_0000) by (
        nonlinear_arith)
            requires
                a1 < 0x1_0000_0000,
                b1 < 0x1_0000_0000,
                a == a1 * 0x1_0000_0000 + a0,
                b == b1 * 0x1_0000_0000 + b0,
                x1 == a0 * b0,
                x2 == a1 * b0 + x1 / 0x1_0000_0000,
                x3 == a0 * b1 + x2 % 0x1_0000_0000,
                x2 >> 32u64 == x2 / 0x1_0000_0000,
                x3 >> 32u64 == x3 / 0x1_0000_0000,
                a0 < 0x1_0000_0000,
                b0 < 0x1_0000_0000,
        ;
    }
    let hi64: u64 = a1 * b1 + (x2 >> 32) + (x3 >> 32);
    proof {
        assert(hi64 * 0x1_0000_0000_0000_0000 + lo64 == a * b) by (nonlinear_arith)
            requires
                a == a1 * 0x1_0000_0000 + a0,
                b == b1 * 0x1_0000_0000 + b0,
                x1 == a0 * b0,
                x1 == (x1 / 0x1_0000_0000) * 0x1_0000_0000 + x1 % 0x1_0000_0000,
                x2 == a1 * b0 + x1 / 0x1_0000_0000,
                x2 == (x2 / 0x1_0000_0000) * 0x1_0000_0000 + x2 % 0x1_0000_0000,
                x3 == a0 * b1 + x2 % 0x1_0000_0000,
                x3 == (x3 / 0x1_0000_0000) * 0x1_0000_0000 + x3 % 0x1_0000_0000,
                lo64 == (x3 % 0x1_0000_0000) * 0x1_0000_0000 + x1 % 0x1_0000_0000,
                hi64 == a1 * b1 + x2 / 0x1_0000_0000 + x3 / 0x1_0000_0000,
        ;
    }
    MultiplyUInt64Result { lo64, hi64 }
}

/// What `products_are_equal` decides: equal magnitudes of the two products,
/// and equal products of the engine's signs.
pub open spec fn products_are_equal_spec(a: int, b: int, c: int, d: int) -> bool {
    &&& abs(a) * abs(b) == abs(c) * abs(d)
    &&& tri_sign_spec(a) * tri_sign_spec(b) == tri_sign_spec(c) * tri_sign_spec(d)
}

/// Absolute value of a 64-bit integer other than the minimum, as unsigned.
fn abs_u64(a: i64) -> (r: u64)
    requires
        a != i64::MIN,
    ensures
        r == abs(a as int),
{
    if a < 0 {
        (-a) as u64
    } else {
        a as u64
    }
}

proof fn lemma_words_unique(r1: MultiplyUInt64Result, r2: MultiplyUInt64Result)
    ensures
        (r1.value() == r2.value()) <==> (r1.lo64 == r2.lo64 && r1.hi64 == r2.hi64),
{
    if r1.value() == r2.value() {
        let h1 = r1.hi64 as int;
        let h2 = r2.hi64 as int;
        let l1 = r1.lo64 as int;
        let l2 = r2.lo64 as int;
        assert(h1 == h2 && l1 == l2) by (nonlinear_arith)
            requires
                h1 * 0x1_0000_0000_0000_0000 + l1 == h2 * 0x1_0000_0000_0000_0000 + l2,
                0 <= l1 < 0x1_0000_0000_0000_0000,
                0 <= l2 < 0x1_0000_0000_0000_0000,
                h1 >= 0,
                h2 >= 0,
        ;
    }
}

/// Compares `a * b` with `c * d` through their 128-bit magnitudes and the
/// engine's sign test. The engine's `abs` panics on `i64::MIN`, which is
/// therefore excluded.
pub fn products_are_equal(a: i64, b: i64, c: i64, d: i64) -> (r: bool)
    requires
        a != i64::MIN,
        b != i64::MIN,
        c != i64::MIN,
        d != i64::MIN,
    ensures
        r == products_are_equal_spec(a as int, b as int, c as int, d as int),
{
    let abs_a = abs_u64(a);
    let abs_b = abs_u64(b);
    let abs_c = abs_u64(c);
    let abs_d = abs_u64(d);
    let mul_ab = multiply_uint64(abs_a, abs_b);
    let mul_cd = multiply_uint64(abs_c, abs_d);
    let sign_ab = tri_sign(a) * tri_sign(b);
    let sign_cd = tri_sign(c) * tri_sign(d);
    proof {
        lemma_words_unique(mul_ab, mul_cd);
    }
    (mul_ab.lo64 == mul_cd.lo64) && (mul_ab.hi64 == mul_cd.hi64) && (sign_ab == sign_cd)
}

proof fn lemma_abs_sign_mul(a: int, b: int)
    ensures
        abs(a) * abs(b) == abs(a * b),
        sign(a) * sign(b) == sign(a * b),
{
    assert(abs(a) * abs(b) == abs(a * b) && sign(a) * sign(b) == sign(a * b)) by (
    nonlinear_arith);
}

/// Law: away from the value 1 (where the engine's sign test reports 0), the
/// product comparison decides exactly whether `a * b == c * d`.
pub proof fn lemma_products_are_equal_exact(a: int, b: int, c: int, d: int)
    requires
        a != 1,
        b != 1,
        c != 1,
        d != 1,
    ensures
        products_are_equal_spec(a, b, c, d) <==> a * b == c * d,
{
    assert(tri_sign_spec(a) == sign(a));
    assert(tri_sign_spec(b) == sign(b));
    assert(tri_sign_spec(c) == sign(c));
    assert(tri_sign_spec(d) == sign(d));
    lemma_abs_sign_mul(a, b);
    lemma_abs_sign_mul(c, d);
    let p = a * b;
    let q = c * d;
    assert((abs(p) == abs(q) && sign(p) == sign(q)) <==> p == q);
}

/// The differences that `is_collinear` compares, each of which must fit a
/// 64-bit integer other than its minimum.
pub open spec fn collinear_operands_fit(pt1: Point64, shared: Point64, pt2: Point64) -> bool {
    &&& i64::MIN < shared.x - pt1.x <= i64::MAX
    &&& i64::MIN < pt2.y - shared.y <= i64::MAX
    &&& i64::MIN < shared.y - pt1.y <= i64::MAX
    &&& i64::MIN < pt2.x - shared.x <= i64::MAX
}

/// What `is_collinear` decides.
pub open spec fn is_collinear_spec(pt1: Point64, shared: Point64, pt2: Point64) -> bool {
    products_are_equal_spec(
        shared.x - pt1.x,
        pt2.y - shared.y,
        shared.y - pt1.y,
        pt2.x - shared.x,
    )
}

/// The cross product of the two legs that meet at `shared`.
pub open spec fn turn(pt1: Point64, shared: Point64, pt2: Point64) -> int {
    (shared.x - pt1.x) * (pt2.y - shared.y) - (shared.y - pt1.y) * (pt2.x - shared.x)
}

/// Tests whether the legs `pt1 -> shared` and `shared -> pt2` have equal
/// slopes, by comparing cross-multiplied coordinate differences.
pub fn is_collinear(pt1: &Point64, shared_pt: &Point64, pt2: &Point64) -> (r: bool)
    requires
        collinear_operands_fit(*pt1, *shared_pt, *pt2),
    ensures
        r == is_collinear_spec(*pt1, *shared_pt, *pt2),
{
    let a = shared_pt.x - pt1.x;
    let b = pt2.y - shared_pt.y;
    let c = shared_pt.y - pt1.y;
    let d = pt2.x - shared_pt.x;
    products_are_equal(a, b, c, d)
}

/// Law: when no coordinate difference equals 1, `is_collinear` holds
/// exactly when the three points lie on one line.
pub proof fn lemma_is_collinear_exact(pt1: Point64, shared: Point64, pt2: Point64)
    requires
        shared.x - pt1.x != 1,
        pt2.y - shared.y != 1,
        shared.y - pt1.y != 1,
        pt2.x - shared.x != 1,
    ensures
        is_collinear_spec(pt1, shared, pt2) <==> turn(pt1, shared, pt2) == 0,
{
    lemma_products_are_equal_exact(
        shared.x - pt1.x,
        pt2.y - shared.y,
        shared.y - pt1.y,
        pt2.x - shared.x,
    );
}

/// The cross product of the legs `p1 -> p2` and `p2 -> p3`: positive for a
/// counter-clockwise turn in a y-up frame, zero when the points are collinear.
pub open spec fn cross(p1: Point64, p2: Point64, p3: Point64) -> int {
    (p2.x - p1.x) * (p3.y - p2.y) - (p2.y - p1.y) * (p3.x - p2.x)
}

/// Bound on the magnitude of a coordinate difference of two 64-bit values.
pub open spec fn diff_bounded(v: int) -> bool {
    -0x1_0000_0000_0000_0000 < v < 0x1_0000_0000_0000_0000
}

/// The magnitude of a bounded 128-bit value as unsigned.
fn magnitude(a: i128) -> (r: u128)
    requires
        diff_bounded(a as int),
    ensures
        r == abs(a as int),
        r < pow64(),
{
    if a < 0 {
        (-a) as u128
    } else {
        a as u128
    }
}

/// The sign of an integer as a small value.
fn sign_of(a: i128) -> (r: i8)
    ensures
        r == sign(a as int),
{
    if a < 0 {
        -1
    } else if a > 0 {
        1
    } else {
        0
    }
}

proof fn lemma_product_sign_magnitude(a: int, b: int)
    ensures
        a * b == sign(a) * sign(b) * (abs(a) * abs(b)),
        sign(a * b) == sign(a) * sign(b),
        abs(a) * abs(b) >= 0,
{
    assert(a * b == sign(a) * sign(b) * (abs(a) * abs(b)) && sign(a * b) == sign(a) * sign(b)
        && abs(a) * abs(b) >= 0) by (nonlinear_arith);
}

/// The sign of `a * b - c * d`, computed without overflow for factors below
/// two to the power 64 in magnitude.
pub(crate) fn compare_products(a: i128, b: i128, c: i128, d: i128) -> (r: i8)
    requires
        diff_bounded(a as int),
        diff_bounded(b as int),
        diff_bounded(c as int),
        diff_bounded(d as int),
    ensures
        r == sign(a * b - c * d),
{
    proof {
        lemma_product_sign_magnitude(a as int, b as int);
        lemma_product_sign_magnitude(c as int, d as int);
    }
    let sab: i8 = sign_of(a) * sign_of(b);
    let scd: i8 = sign_of(c) * sign_of(d);
    if sab != scd {
        if sab > scd {
            1
        } else {
            -1
        }
    } else if sab == 0 {
        0
    } else {
        let ma = magnitude(a);
        let mb = magnitude(b);
        let mc = magnitude(c);
        let md = magnitude(d);
        proof {
            assert(ma * mb < 0x1_0000_0000_0000_0000_0000_0000_0000_0000) by (nonlinear_arith)
                requires ma < 0x1_0000_0000_0000_0000, mb < 0x1_0000_0000_0000_0000;
            assert(mc * md < 0x1_0000_0000_0000_0000_0000_0000_0000_0000) by (nonlinear_arith)
                requires mc < 0x1_0000_0000_0000_0000, md < 0x1_0000_0000_0000_0000;
        }
        let m1: u128 = ma * mb;
        let m2: u128 = mc * md;
        proof {
            let s = sab as int;
            assert(s == 1 || s == -1);
            assert(sign(a * b - c * d) == if m1 == m2 { 0 } else if m1 > m2 { s } else { -s })
                by (nonlinear_arith)
                requires
                    s == 1 || s == -1,
                    a * b == s * m1,
                    c * d == s * m2,
            ;
        }
        if m1 == m2 {
            0
        } else if m1 > m2 {
            sab
        } else {
            -sab
        }
    }
}

/// The sign of `cross(p1, p2, p3)`, computed exactly.
pub fn cross_sign(p1: &Point64, p2: &Point64, p3: &Point64) -> (r: i8)
    ensures
        r == sign(cross(*p1, *p2, *p3)),
{
    let a: i128 = (p2.x as i128) - (p1.x as i128);
    let b: i128 = (p3.y as i128) - (p2.y as i128);
    let c: i128 = (p2.y as i128) - (p1.y as i128);
    let d: i128 = (p3.x as i128) - (p2.x as i128);
    compare_products(a, b, c, d)
}

/// What `segs_intersect` decides, from the four orientation signs.
pub open spec fn segs_intersect_spec(
    seg1a: Point64,
    seg1b: Point64,
    seg2a: Point64,
    seg2b: Point64,
    inclusive: bool,
) -> bool {
    let r1 = sign(cross(seg1a, seg2a, seg2b));
    let r2 = sign(cross(seg1b, seg2a, seg2b));
    let r3 = sign(cross(seg2a, seg1a, seg1b));
    let r4 = sign(cross(seg2b, seg1a, seg1b));
    if !inclusive {
        r1 * r2 < 0 && r3 * r4 < 0
    } else {
        r1 * r2 <= 0 && r3 * r4 <= 0 && (r1 != 0 || r2 != 0 || r3 != 0 || r4 != 0)
    }
}

/// Tests whether two segments intersect: strictly crossing when not
/// `inclusive`; otherwise touching counts too, but collinear segments do not.
pub fn segs_intersect(
    seg1a: &Point64,
    seg1b: &Point64,
    seg2a: &Point64,
    seg2b: &Point64,
    inclusive: bool,
) -> (r: bool)
    ensures
        r == segs_intersect_spec(*seg1a, *seg1b, *seg2a, *seg2b, inclusive),
{
    let r1 = cross_sign(seg1a, seg2a, seg2b);
    let r2 = cross_sign(seg1b, seg2a, seg2b);
    let r3 = cross_sign(seg2a, seg1a, seg1b);
    let r4 = cross_sign(seg2b, seg1a, seg1b);
    if !inclusive {
        return r1 * r2 < 0 && r3 * r4 < 0;
    }
    if r1 * r2 > 0 {
        return false;
    }
    if r3 * r4 > 0 {
        return false;
    }
    r1 != 0 || r2 != 0 || r3 != 0 || r4 != 0
}

} // verus!
