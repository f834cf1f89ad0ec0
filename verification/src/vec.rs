//! Fixed-point 3-vectors and the single geometric primitive FABRIK needs:
//! placing a point at a rigid distance from an anchor, in the direction of
//! another point.

use vstd::prelude::*;

use crate::num::{isqrt, lemma_sqrt_nat, sqrt_nat};
use crate::{MAX_COORD, MAX_LEN, MAX_POS};

verus! {

/// A world- or parent-space position or translation on the fixed-point
/// integer grid.
#[derive(Clone, Copy, PartialEq, Eq, Structural, Debug)]
pub struct Vec3 {
    pub x: i64,
    pub y: i64,
    pub z: i64,
}

impl View for Vec3 {
    type V = (int, int, int);

    open spec fn view(&self) -> (int, int, int) {
        (self.x as int, self.y as int, self.z as int)
    }
}

impl Vec3 {
    pub fn new(x: i64, y: i64, z: i64) -> (v: Vec3)
        ensures
            v@ == (x as int, y as int, z as int),
    {
        Vec3 { x, y, z }
    }
}

/// Component-wise difference.
pub open spec fn vsub(a: (int, int, int), b: (int, int, int)) -> (int, int, int) {
    (a.0 - b.0, a.1 - b.1, a.2 - b.2)
}

/// Squared Euclidean norm.
pub open spec fn norm_sq(d: (int, int, int)) -> int {
    d.0 * d.0 + d.1 * d.1 + d.2 * d.2
}

/// Squared Euclidean distance between two points.
pub open spec fn dist_sq(a: (int, int, int), b: (int, int, int)) -> int {
    norm_sq(vsub(a, b))
}

/// Absolute value.
pub open spec fn int_abs(v: int) -> int {
    if v < 0 {
        -v
    } else {
        v
    }
}

/// The vector lies within the input coordinate range.
pub open spec fn in_input_range(v: (int, int, int)) -> bool {
    &&& -MAX_COORD <= v.0 <= MAX_COORD
    &&& -MAX_COORD <= v.1 <= MAX_COORD
    &&& -MAX_COORD <= v.2 <= MAX_COORD
}

/// The vector lies within the solver's working coordinate range.
pub open spec fn in_work_range(v: (int, int, int)) -> bool {
    &&& -MAX_POS <= v.0 <= MAX_POS
    &&& -MAX_POS <= v.1 <= MAX_POS
    &&& -MAX_POS <= v.2 <= MAX_POS
}

/// A squared norm of a difference of working positions stays below the
/// square root primitive's input bound.
pub proof fn lemma_dist_sq_bound(a: (int, int, int), b: (int, int, int))
    requires
        in_work_range(a),
        in_work_range(b),
    ensures
        0 <= dist_sq(a, b) <= 55340232221128654848,
{
    let d = vsub(a, b);
    assert(0 <= d.0 * d.0 <= 4294967296 * 4294967296) by (nonlinear_arith)
        requires
            -4294967296 <= d.0 <= 4294967296,
    ;
    assert(0 <= d.1 * d.1 <= 4294967296 * 4294967296) by (nonlinear_arith)
        requires
            -4294967296 <= d.1 <= 4294967296,
    ;
    assert(0 <= d.2 * d.2 <= 4294967296 * 4294967296) by (nonlinear_arith)
        requires
            -4294967296 <= d.2 <= 4294967296,
    ;
}

/// Absolute value of an in-range `i64`.
pub fn iabs(v: i64) -> (r: u64)
    requires
        v != i64::MIN,
    ensures
        r == int_abs(v as int),
{
    if v < 0 {
        (-v) as u64
    } else {
        v as u64
    }
}

/// The square of a value equals the square of its absolute value.
proof fn lemma_abs_sq(v: int)
    ensures
        int_abs(v) * int_abs(v) == v * v,
{
    assert(int_abs(v) * int_abs(v) == v * v) by (nonlinear_arith);
}

/// Squared distance between two working positions, exactly.
pub fn dist_sq_exec(a: &Vec3, b: &Vec3) -> (d: u128)
    requires
        in_work_range(a@),
        in_work_range(b@),
    ensures
        d == dist_sq(a@, b@),
        d <= 55340232221128654848,
{
    proof {
        lemma_dist_sq_bound(a@, b@);
    }
    let dx: u64 = iabs(a.x - b.x);
    let dy: u64 = iabs(a.y - b.y);
    let dz: u64 = iabs(a.z - b.z);
    proof {
        lemma_abs_sq(a@.0 - b@.0);
        lemma_abs_sq(a@.1 - b@.1);
        lemma_abs_sq(a@.2 - b@.2);
        assert((dx as int) * (dx as int) == (dx as u128) as int * (dx as u128) as int);
    }
    let sq: u128 = (dx as u128) * (dx as u128) + (dy as u128) * (dy as u128) + (dz as u128) * (
    dz as u128);
    sq
}

/// One component of the rigid-reach result: the anchor component plus the
/// matching component of the difference, scaled by `len / dist` with the
/// quotient truncated toward zero.
pub open spec fn scaled_comp(anchor_c: int, d_c: int, len: int, dist: int) -> int {
    if d_c >= 0 {
        anchor_c + (d_c * len) / dist
    } else {
        anchor_c - ((-d_c) * len) / dist
    }
}

/// The point at (fixed-point) distance `len` from `anchor` in the direction
/// of `toward`: `anchor + (toward - anchor) * len / |toward - anchor|`.
///
/// `None` when the two points coincide on the grid (no direction exists) or
/// when the result would leave the working range; callers skip the update
/// then, mirroring the epsilon guard a floating-point implementation needs
/// before normalizing a near-zero vector.
pub open spec fn try_step(anchor: (int, int, int), toward: (int, int, int), len: int) -> Option<
    (int, int, int),
> {
    let d = vsub(toward, anchor);
    let dist = sqrt_nat(norm_sq(d) as nat) as int;
    if dist == 0 {
        None
    } else {
        let v = (
            scaled_comp(anchor.0, d.0, len, dist),
            scaled_comp(anchor.1, d.1, len, dist),
            scaled_comp(anchor.2, d.2, len, dist),
        );
        if in_work_range(v) {
            Some(v)
        } else {
            None
        }
    }
}

/// Each component of a difference is bounded by the floor square root of
/// the squared norm.
proof fn lemma_comp_le_dist(d: (int, int, int))
    ensures
        int_abs(d.0) <= sqrt_nat(norm_sq(d) as nat),
        int_abs(d.1) <= sqrt_nat(norm_sq(d) as nat),
        int_abs(d.2) <= sqrt_nat(norm_sq(d) as nat),
{
    assert(norm_sq(d) >= 0) by (nonlinear_arith);
    let n = norm_sq(d) as nat;
    lemma_sqrt_nat(n);
    let s = sqrt_nat(n);
    assert(int_abs(d.0) <= s && int_abs(d.1) <= s && int_abs(d.2) <= s) by (nonlinear_arith)
        requires
            s * s <= n,
            n < (s + 1) * (s + 1),
            n == d.0 * d.0 + d.1 * d.1 + d.2 * d.2,
    ;
}

/// A successful step lands within `len` of the anchor, component-wise.
pub proof fn lemma_step_close(anchor: (int, int, int), toward: (int, int, int), len: int)
    requires
        0 <= len,
        try_step(anchor, toward, len) is Some,
    ensures
        int_abs(try_step(anchor, toward, len)->Some_0.0 - anchor.0) <= len,
        int_abs(try_step(anchor, toward, len)->Some_0.1 - anchor.1) <= len,
        int_abs(try_step(anchor, toward, len)->Some_0.2 - anchor.2) <= len,
{
    let d = vsub(toward, anchor);
    let dist = sqrt_nat(norm_sq(d) as nat) as int;
    lemma_comp_le_dist(d);
    lemma_scaled_le(d.0, len, dist);
    lemma_scaled_le(d.1, len, dist);
    lemma_scaled_le(d.2, len, dist);
}

/// The scaled quotient `|d_c| * len / dist` never exceeds `len` when
/// `|d_c| <= dist`.
pub proof fn lemma_scaled_le(d_c: int, len: int, dist: int)
    requires
        0 <= len,
        0 < dist,
        int_abs(d_c) <= dist,
    ensures
        0 <= (int_abs(d_c) * len) / dist <= len,
{
    assert(0 <= (int_abs(d_c) * len) / dist <= len) by (nonlinear_arith)
        requires
            0 <= len,
            0 < dist,
            0 <= int_abs(d_c) <= dist,
    ;
}

/// Executable rigid reach; agrees exactly with [`try_step`].
pub fn reach_toward(anchor: &Vec3, toward: &Vec3, len: i64) -> (r: Option<Vec3>)
    requires
        in_work_range(anchor@),
        in_work_range(toward@),
        0 <= len <= MAX_LEN,
    ensures
        r is Some <==> try_step(anchor@, toward@, len as int) is Some,
        r is Some ==> r->Some_0@ == try_step(anchor@, toward@, len as int)->Some_0,
{
    let dsq: u128 = dist_sq_exec(toward, anchor);
    let dist: u64 = isqrt(dsq);
    if dist == 0 {
        return None;
    }
    proof {
        assert(dist as int <= 8589934592) by (nonlinear_arith)
            requires
                (dist as int) * (dist as int) <= dsq as int,
                (dsq as int) <= 55340232221128654848,
        ;
    }
    let x = reach_comp(anchor.x, toward.x - anchor.x, len, dist);
    let y = reach_comp(anchor.y, toward.y - anchor.y, len, dist);
    let z = reach_comp(anchor.z, toward.z - anchor.z, len, dist);
    if x < -MAX_POS || x > MAX_POS || y < -MAX_POS || y > MAX_POS || z < -MAX_POS || z > MAX_POS {
        return None;
    }
    Some(Vec3 { x, y, z })
}

/// One component of the executable rigid reach.
pub fn reach_comp(anchor_c: i64, d_c: i64, len: i64, dist: u64) -> (r: i64)
    requires
        -MAX_POS <= anchor_c <= MAX_POS,
        int_abs(d_c as int) <= 2 * MAX_POS,
        0 <= len <= MAX_LEN,
        0 < dist as int <= 8589934592,
    ensures
        r == scaled_comp(anchor_c as int, d_c as int, len as int, dist as int),
{
    let mag: u64 = iabs(d_c);
    proof {
        assert((mag as int) * (len as int) <= 4294967296 * 2097152) by (nonlinear_arith)
            requires
                0 <= mag as int <= 4294967296,
                0 <= len as int <= 2097152,
        ;
    }
    let q: u64 = mag * (len as u64) / dist;
    proof {
        assert(q as int <= (mag as int) * (len as int)) by (nonlinear_arith)
            requires
                q as int == (mag as int) * (len as int) / (dist as int),
                dist as int >= 1,
                0 <= (mag as int) * (len as int),
        ;
    }
    if d_c >= 0 {
        anchor_c + (q as i64)
    } else {
        anchor_c - (q as i64)
    }
}

/// The square of a three-term sum is at most three times the sum of
/// squares.
proof fn lemma_sum_sq(a: int, b: int, c: int)
    ensures
        (a + b + c) * (a + b + c) <= 3 * (a * a + b * b + c * c),
{
    assert((a + b + c) * (a + b + c) <= 3 * (a * a + b * b + c * c)) by (nonlinear_arith);
}

/// How long a successful rigid reach really is: when the target lies at
/// least one link length away, the squared distance from the anchor to
/// the reached point sits within grid rounding of the squared link
/// length.
pub proof fn lemma_step_norm_bounds(anchor: (int, int, int), toward: (int, int, int), len: int)
    requires
        1 <= len,
        try_step(anchor, toward, len) is Some,
        len <= sqrt_nat(dist_sq(toward, anchor) as nat),
    ensures
        len * len - 4 * len - 5 <= dist_sq(try_step(anchor, toward, len)->Some_0, anchor),
        dist_sq(try_step(anchor, toward, len)->Some_0, anchor) <= (len + 1) * (len + 1),
{
    let d = vsub(toward, anchor);
    assert(norm_sq(d) >= 0) by (nonlinear_arith);
    let dn = norm_sq(d);
    lemma_sqrt_nat(dn as nat);
    let dd = sqrt_nat(dn as nat) as int;
    let v = try_step(anchor, toward, len)->Some_0;
    let a0 = int_abs(d.0);
    let a1 = int_abs(d.1);
    let a2 = int_abs(d.2);
    let q0 = (a0 * len) / dd;
    let q1 = (a1 * len) / dd;
    let q2 = (a2 * len) / dd;
    lemma_abs_sq(d.0);
    lemma_abs_sq(d.1);
    lemma_abs_sq(d.2);
    assert(v.0 - anchor.0 == if d.0 >= 0 { q0 } else { -q0 });
    assert(v.1 - anchor.1 == if d.1 >= 0 { q1 } else { -q1 });
    assert(v.2 - anchor.2 == if d.2 >= 0 { q2 } else { -q2 });
    let w = dist_sq(v, anchor);
    assert(w == q0 * q0 + q1 * q1 + q2 * q2) by (nonlinear_arith)
        requires
            w == (v.0 - anchor.0) * (v.0 - anchor.0) + (v.1 - anchor.1) * (v.1 - anchor.1) + (v.2
                - anchor.2) * (v.2 - anchor.2),
            v.0 - anchor.0 == if d.0 >= 0 { q0 } else { -q0 },
            v.1 - anchor.1 == if d.1 >= 0 { q1 } else { -q1 },
            v.2 - anchor.2 == if d.2 >= 0 { q2 } else { -q2 },
    ;
    // division bounds for each component
    assert(q0 >= 0 && q0 * dd <= a0 * len && a0 * len < (q0 + 1) * dd) by (nonlinear_arith)
        requires
            q0 == (a0 * len) / dd,
            dd >= 1,
            a0 >= 0,
            len >= 1,
    ;
    assert(q1 >= 0 && q1 * dd <= a1 * len && a1 * len < (q1 + 1) * dd) by (nonlinear_arith)
        requires
            q1 == (a1 * len) / dd,
            dd >= 1,
            a1 >= 0,
            len >= 1,
    ;
    assert(q2 >= 0 && q2 * dd <= a2 * len && a2 * len < (q2 + 1) * dd) by (nonlinear_arith)
        requires
            q2 == (a2 * len) / dd,
            dd >= 1,
            a2 >= 0,
            len >= 1,
    ;
    // upper bound, component by component
    assert((q0 * q0) * (dd * dd) <= (a0 * a0) * (len * len)) by (nonlinear_arith)
        requires
            0 <= q0 * dd <= a0 * len,
            q0 >= 0,
            dd >= 1,
    ;
    assert((q1 * q1) * (dd * dd) <= (a1 * a1) * (len * len)) by (nonlinear_arith)
        requires
            0 <= q1 * dd <= a1 * len,
            q1 >= 0,
            dd >= 1,
    ;
    assert((q2 * q2) * (dd * dd) <= (a2 * a2) * (len * len)) by (nonlinear_arith)
        requires
            0 <= q2 * dd <= a2 * len,
            q2 >= 0,
            dd >= 1,
    ;
    assert(w * (dd * dd) <= dn * (len * len)) by (nonlinear_arith)
        requires
            w == q0 * q0 + q1 * q1 + q2 * q2,
            dn == a0 * a0 + a1 * a1 + a2 * a2,
            (q0 * q0) * (dd * dd) <= (a0 * a0) * (len * len),
            (q1 * q1) * (dd * dd) <= (a1 * a1) * (len * len),
            (q2 * q2) * (dd * dd) <= (a2 * a2) * (len * len),
    ;
    assert(dn * (len * len) < ((len + 1) * dd) * ((len + 1) * dd)) by (nonlinear_arith)
        requires
            dn < (dd + 1) * (dd + 1),
            1 <= len <= dd,
    ;
    assert(w <= (len + 1) * (len + 1)) by (nonlinear_arith)
        requires
            w * (dd * dd) < ((len + 1) * dd) * ((len + 1) * dd),
            dd >= 1,
            w >= 0,
    ;
    // lower bound, component by component
    assert((a0 * a0) * (len * len) <= ((q0 + 1) * (q0 + 1)) * (dd * dd)) by (nonlinear_arith)
        requires
            0 <= a0 * len < (q0 + 1) * dd,
            q0 >= 0,
            dd >= 1,
    ;
    assert((a1 * a1) * (len * len) <= ((q1 + 1) * (q1 + 1)) * (dd * dd)) by (nonlinear_arith)
        requires
            0 <= a1 * len < (q1 + 1) * dd,
            q1 >= 0,
            dd >= 1,
    ;
    assert((a2 * a2) * (len * len) <= ((q2 + 1) * (q2 + 1)) * (dd * dd)) by (nonlinear_arith)
        requires
            0 <= a2 * len < (q2 + 1) * dd,
            q2 >= 0,
            dd >= 1,
    ;
    let sq1 = (q0 + 1) * (q0 + 1) + (q1 + 1) * (q1 + 1) + (q2 + 1) * (q2 + 1);
    assert((len * len) * (dd * dd) <= (len * len) * dn) by (nonlinear_arith)
        requires
            dn >= dd * dd,
            len >= 1,
    ;
    assert((len * len) * dn == (a0 * a0) * (len * len) + (a1 * a1) * (len * len) + (a2 * a2) * (len
        * len)) by (nonlinear_arith)
        requires
            dn == a0 * a0 + a1 * a1 + a2 * a2,
    ;
    assert(sq1 * (dd * dd) == ((q0 + 1) * (q0 + 1)) * (dd * dd) + ((q1 + 1) * (q1 + 1)) * (dd * dd)
        + ((q2 + 1) * (q2 + 1)) * (dd * dd)) by (nonlinear_arith)
        requires
            sq1 == (q0 + 1) * (q0 + 1) + (q1 + 1) * (q1 + 1) + (q2 + 1) * (q2 + 1),
    ;
    assert((len * len) * (dd * dd) <= sq1 * (dd * dd));
    assert(len * len <= sq1) by (nonlinear_arith)
        requires
            (len * len) * (dd * dd) <= sq1 * (dd * dd),
            dd >= 1,
    ;
    lemma_sum_sq(q0, q1, q2);
    assert(q0 + q1 + q2 <= 2 * len + 1) by (nonlinear_arith)
        requires
            (q0 + q1 + q2) * (q0 + q1 + q2) <= 3 * w,
            w <= (len + 1) * (len + 1),
            q0 >= 0 && q1 >= 0 && q2 >= 0,
            len >= 1,
    ;
    assert(w >= len * len - 4 * len - 5) by (nonlinear_arith)
        requires
            len * len <= sq1,
            sq1 == (q0 + 1) * (q0 + 1) + (q1 + 1) * (q1 + 1) + (q2 + 1) * (q2 + 1),
            w == q0 * q0 + q1 * q1 + q2 * q2,
            q0 + q1 + q2 <= 2 * len + 1,
    ;
}

} // verus!
