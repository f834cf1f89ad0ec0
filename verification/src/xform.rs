//! Fixed-point rigid transforms: a rotation held as three scaled basis
//! columns plus a translation, with the handful of operations transform
//! propagation needs — composition, relative transforms, look-at frames
//! and shortest-arc rotations.
//!
//! Rotation entries are scaled by [`ROT_ONE`]; a true rotation matrix has
//! every entry in `[-ROT_ONE, ROT_ONE]`.  Rounding lets derived matrices
//! drift slightly, so well-formedness only asks for entries within the
//! looser [`ROT_CAP`]; operations whose result would leave that range (or
//! whose input direction is degenerate) report `None`, and callers skip
//! the update instead of wrapping.

use vstd::prelude::*;

use crate::num::{div_i64, div_trunc, isqrt, sqrt_nat};
use crate::vec::{
    in_work_range, int_abs, lemma_step_close, norm_sq, reach_toward, scaled_comp, try_step, vsub,
    Vec3,
};
use crate::MAX_POS;

verus! {

/// Fixed-point unit: the rotation entry that stands for `1.0`.
pub const ROT_ONE: i64 = 65536;

/// Hard cap on rotation entries kept by every operation.
pub const ROT_CAP: i64 = 262144;

/// A 3x3 rotation-like matrix, stored as its three columns, each scaled by
/// [`ROT_ONE`].
#[derive(Clone, Copy, PartialEq, Eq, Structural, Debug)]
pub struct Rot3 {
    pub x_axis: Vec3,
    pub y_axis: Vec3,
    pub z_axis: Vec3,
}

/// A rigid transform: rotate, then translate.
#[derive(Clone, Copy, PartialEq, Eq, Structural, Debug)]
pub struct Transform {
    pub rotation: Rot3,
    pub translation: Vec3,
}

/// Mathematical shadow of a rotation: three integer columns.
pub struct RotM {
    pub x: (int, int, int),
    pub y: (int, int, int),
    pub z: (int, int, int),
}

/// Mathematical shadow of a transform.
pub struct XformM {
    pub rot: RotM,
    pub t: (int, int, int),
}

impl View for Rot3 {
    type V = RotM;

    open spec fn view(&self) -> RotM {
        RotM { x: self.x_axis@, y: self.y_axis@, z: self.z_axis@ }
    }
}

impl View for Transform {
    type V = XformM;

    open spec fn view(&self) -> XformM {
        XformM { rot: self.rotation@, t: self.translation@ }
    }
}

/// Every component within the rotation entry cap.
pub open spec fn in_rot_range(v: (int, int, int)) -> bool {
    &&& -ROT_CAP <= v.0 <= ROT_CAP
    &&& -ROT_CAP <= v.1 <= ROT_CAP
    &&& -ROT_CAP <= v.2 <= ROT_CAP
}

/// All nine entries within the cap.
pub open spec fn rotm_wf(r: RotM) -> bool {
    in_rot_range(r.x) && in_rot_range(r.y) && in_rot_range(r.z)
}

/// All nine entries within the cap.
pub open spec fn rot_wf(r: Rot3) -> bool {
    rotm_wf(r@)
}

/// A transform whose rotation entries and translation are in range.
pub open spec fn xform_wf(t: Transform) -> bool {
    rot_wf(t.rotation) && in_work_range(t.translation@)
}

/// Cross product.
pub open spec fn cross3(a: (int, int, int), b: (int, int, int)) -> (int, int, int) {
    (a.1 * b.2 - a.2 * b.1, a.2 * b.0 - a.0 * b.2, a.0 * b.1 - a.1 * b.0)
}

/// Dot product.
pub open spec fn dot3(a: (int, int, int), b: (int, int, int)) -> int {
    a.0 * b.0 + a.1 * b.1 + a.2 * b.2
}

/// Component-wise truncating division by a positive scalar.
pub open spec fn scale_down3(v: (int, int, int), s: int) -> (int, int, int) {
    (div_trunc(v.0, s), div_trunc(v.1, s), div_trunc(v.2, s))
}

/// Apply a scaled rotation to a vector: the linear combination of the
/// columns, scaled back down by [`ROT_ONE`].
pub open spec fn rot_apply(r: RotM, v: (int, int, int)) -> (int, int, int) {
    scale_down3(
        (
            r.x.0 * v.0 + r.y.0 * v.1 + r.z.0 * v.2,
            r.x.1 * v.0 + r.y.1 * v.1 + r.z.1 * v.2,
            r.x.2 * v.0 + r.y.2 * v.1 + r.z.2 * v.2,
        ),
        ROT_ONE as int,
    )
}

/// Transpose: for a true rotation this is the inverse.
pub open spec fn rot_transpose_spec(r: RotM) -> RotM {
    RotM {
        x: (r.x.0, r.y.0, r.z.0),
        y: (r.x.1, r.y.1, r.z.1),
        z: (r.x.2, r.y.2, r.z.2),
    }
}

/// Matrix product at scale [`ROT_ONE`]: each column of `b` rotated by `a`.
pub open spec fn rot_mul_spec(a: RotM, b: RotM) -> RotM {
    RotM { x: rot_apply(a, b.x), y: rot_apply(a, b.y), z: rot_apply(a, b.z) }
}

/// `parent` composed with a child-local transform.
pub open spec fn compose_spec(parent: XformM, local: XformM) -> Option<XformM> {
    let rot = rot_mul_spec(parent.rot, local.rot);
    let off = rot_apply(parent.rot, local.t);
    let t = (parent.t.0 + off.0, parent.t.1 + off.1, parent.t.2 + off.2);
    if rotm_wf(rot) && in_work_range(t) {
        Some(XformM { rot, t })
    } else {
        None
    }
}

/// The local transform that takes the parent's world frame to the child's:
/// the transposed parent rotation applied to the difference.
pub open spec fn between_spec(parent: XformM, child: XformM) -> Option<XformM> {
    let rt = rot_transpose_spec(parent.rot);
    let rot = rot_mul_spec(rt, child.rot);
    let dt = vsub(child.t, parent.t);
    if !in_work_range(dt) {
        None
    } else {
        let t = rot_apply(rt, dt);
        if rotm_wf(rot) && in_work_range(t) {
            Some(XformM { rot, t })
        } else {
            None
        }
    }
}

/// The scaled unit vector in the direction of `v`, or `None` when `v` is
/// zero on the grid.
pub open spec fn unit_spec(v: (int, int, int)) -> Option<(int, int, int)> {
    try_step((0, 0, 0), v, ROT_ONE as int)
}

/// A unit direction for a difference of positions.  A separation beyond
/// the working range is treated as degenerate, like a zero direction: it
/// cannot arise between positions the solver produces.
pub open spec fn unit_guard_spec(v: (int, int, int)) -> Option<(int, int, int)> {
    if in_work_range(v) {
        unit_spec(v)
    } else {
        None
    }
}

/// A look-at frame: the z axis points from `target` toward `eye`, the x
/// axis is perpendicular to it and to the fixed x-direction hint, and the
/// y axis completes the frame.  `None` when either direction degenerates.
pub open spec fn look_at_spec(eye: (int, int, int), target: (int, int, int)) -> Option<RotM> {
    let dz = vsub(eye, target);
    match unit_guard_spec(dz) {
        None => None,
        Some(z) => match unit_spec(cross3((32768, 0, 0), z)) {
            None => None,
            Some(x) => Some(RotM { x, y: scale_down3(cross3(z, x), ROT_ONE as int), z }),
        },
    }
}

/// The shortest-arc rotation taking scaled unit direction `f` to `t`,
/// built from the quaternion `(f x t, |f||t| + f . t)` normalized back to
/// scale.  `None` for opposite or degenerate directions, or if rounding
/// pushes an entry past the cap.
pub open spec fn rotation_arc_spec(f: (int, int, int), t: (int, int, int)) -> Option<RotM> {
    let qv = scale_down3(cross3(f, t), ROT_ONE as int);
    let qw = div_trunc(dot3(f, t), ROT_ONE as int) + ROT_ONE;
    let qn = sqrt_nat((qv.0 * qv.0 + qv.1 * qv.1 + qv.2 * qv.2 + qw * qw) as nat) as int;
    if qn == 0 {
        None
    } else {
        let x = scaled_comp(0, qv.0, ROT_ONE as int, qn);
        let y = scaled_comp(0, qv.1, ROT_ONE as int, qn);
        let z = scaled_comp(0, qv.2, ROT_ONE as int, qn);
        let w = scaled_comp(0, qw, ROT_ONE as int, qn);
        let m = quat_mat(x, y, z, w);
        if rotm_wf(m) {
            Some(m)
        } else {
            None
        }
    }
}

/// The rotation matrix of a quaternion at scale [`ROT_ONE`].
pub open spec fn quat_mat(x: int, y: int, z: int, w: int) -> RotM {
    let s = ROT_ONE as int;
    RotM {
        x: (
            s - div_trunc(2 * (y * y + z * z), s),
            div_trunc(2 * (x * y + z * w), s),
            div_trunc(2 * (x * z - y * w), s),
        ),
        y: (
            div_trunc(2 * (x * y - z * w), s),
            s - div_trunc(2 * (x * x + z * z), s),
            div_trunc(2 * (y * z + x * w), s),
        ),
        z: (
            div_trunc(2 * (x * z + y * w), s),
            div_trunc(2 * (y * z - x * w), s),
            s - div_trunc(2 * (x * x + y * y), s),
        ),
    }
}

impl Rot3 {
    /// The identity rotation at scale [`ROT_ONE`].
    pub fn identity() -> (r: Rot3)
        ensures
            r == Rot3::identity_spec(),
    {
        Rot3 {
            x_axis: Vec3 { x: ROT_ONE, y: 0, z: 0 },
            y_axis: Vec3 { x: 0, y: ROT_ONE, z: 0 },
            z_axis: Vec3 { x: 0, y: 0, z: ROT_ONE },
        }
    }

    pub open spec fn identity_spec() -> Rot3 {
        Rot3 {
            x_axis: Vec3 { x: ROT_ONE, y: 0, z: 0 },
            y_axis: Vec3 { x: 0, y: ROT_ONE, z: 0 },
            z_axis: Vec3 { x: 0, y: 0, z: ROT_ONE },
        }
    }
}

impl Transform {
    /// The identity transform.
    pub fn identity() -> (t: Transform)
        ensures
            t == Transform::identity_spec(),
    {
        Transform { rotation: Rot3::identity(), translation: Vec3 { x: 0, y: 0, z: 0 } }
    }

    pub open spec fn identity_spec() -> Transform {
        Transform { rotation: Rot3::identity_spec(), translation: Vec3 { x: 0, y: 0, z: 0 } }
    }

    /// A pure translation.
    pub fn from_translation(v: Vec3) -> (t: Transform)
        ensures
            t.rotation == Rot3::identity_spec(),
            t.translation == v,
    {
        Transform { rotation: Rot3::identity(), translation: v }
    }
}

/// Range check for one rotation column.
fn col_ok(v: &Vec3) -> (b: bool)
    ensures
        b == in_rot_range(v@),
{
    v.x >= -ROT_CAP && v.x <= ROT_CAP && v.y >= -ROT_CAP && v.y <= ROT_CAP && v.z >= -ROT_CAP
        && v.z <= ROT_CAP
}

/// Range check for a whole matrix.
pub fn rot_in_cap(r: &Rot3) -> (b: bool)
    ensures
        b == rot_wf(*r),
{
    col_ok(&r.x_axis) && col_ok(&r.y_axis) && col_ok(&r.z_axis)
}

/// Range check for a position.
fn pos_ok(v: &Vec3) -> (b: bool)
    ensures
        b == in_work_range(v@),
{
    v.x >= -MAX_POS && v.x <= MAX_POS && v.y >= -MAX_POS && v.y <= MAX_POS && v.z >= -MAX_POS
        && v.z <= MAX_POS
}

/// Executable transpose.
pub fn rot_transpose(r: &Rot3) -> (t: Rot3)
    ensures
        t@ == rot_transpose_spec(r@),
        rot_wf(*r) ==> rot_wf(t),
{
    Rot3 {
        x_axis: Vec3 { x: r.x_axis.x, y: r.y_axis.x, z: r.z_axis.x },
        y_axis: Vec3 { x: r.x_axis.y, y: r.y_axis.y, z: r.z_axis.y },
        z_axis: Vec3 { x: r.x_axis.z, y: r.y_axis.z, z: r.z_axis.z },
    }
}

/// Executable rotation application.  Inputs are a capped matrix and a
/// vector of at most twice the working range (a difference of positions);
/// the result then fits `i64` with room to spare.
pub fn rot_apply_pub(r: &Rot3, v: &Vec3) -> (res: Vec3)
    requires
        rot_wf(*r),
        int_abs(v@.0) <= 2 * MAX_POS,
        int_abs(v@.1) <= 2 * MAX_POS,
        int_abs(v@.2) <= 2 * MAX_POS,
    ensures
        res@ == rot_apply(r@, v@),
{
    proof {
        lemma_term_bound(r@.x.0, v@.0);
        lemma_term_bound(r@.y.0, v@.1);
        lemma_term_bound(r@.z.0, v@.2);
        lemma_term_bound(r@.x.1, v@.0);
        lemma_term_bound(r@.y.1, v@.1);
        lemma_term_bound(r@.z.1, v@.2);
        lemma_term_bound(r@.x.2, v@.0);
        lemma_term_bound(r@.y.2, v@.1);
        lemma_term_bound(r@.z.2, v@.2);
    }
    let cx = r.x_axis.x * v.x + r.y_axis.x * v.y + r.z_axis.x * v.z;
    let cy = r.x_axis.y * v.x + r.y_axis.y * v.y + r.z_axis.y * v.z;
    let cz = r.x_axis.z * v.x + r.y_axis.z * v.y + r.z_axis.z * v.z;
    Vec3 { x: div_i64(cx, ROT_ONE), y: div_i64(cy, ROT_ONE), z: div_i64(cz, ROT_ONE) }
}

/// The linear combinations inside [`rot_apply`] stay far from overflow.
proof fn lemma_rot_apply_bound(r: RotM, v: (int, int, int))
    requires
        rotm_wf(r),
        int_abs(v.0) <= 2 * MAX_POS,
        int_abs(v.1) <= 2 * MAX_POS,
        int_abs(v.2) <= 2 * MAX_POS,
    ensures
        int_abs(r.x.0 * v.0 + r.y.0 * v.1 + r.z.0 * v.2) <= 3384883669198365696,
        int_abs(r.x.1 * v.0 + r.y.1 * v.1 + r.z.1 * v.2) <= 3384883669198365696,
        int_abs(r.x.2 * v.0 + r.y.2 * v.1 + r.z.2 * v.2) <= 3384883669198365696,
{
    lemma_term_bound(r.x.0, v.0);
    lemma_term_bound(r.y.0, v.1);
    lemma_term_bound(r.z.0, v.2);
    lemma_term_bound(r.x.1, v.0);
    lemma_term_bound(r.y.1, v.1);
    lemma_term_bound(r.z.1, v.2);
    lemma_term_bound(r.x.2, v.0);
    lemma_term_bound(r.y.2, v.1);
    lemma_term_bound(r.z.2, v.2);
}

/// One product of a capped rotation entry and a double-range coordinate.
proof fn lemma_term_bound(a: int, b: int)
    requires
        int_abs(a) <= ROT_CAP,
        int_abs(b) <= 2 * MAX_POS,
    ensures
        int_abs(a * b) <= 1128294556399455232,
{
    assert(int_abs(a * b) <= 262144 * 4294967296) by (nonlinear_arith)
        requires
            int_abs(a) <= 262144,
            int_abs(b) <= 4294967296,
    ;
}

/// Executable matrix product.
pub fn rot_mul_pub(a: &Rot3, b: &Rot3) -> (res: Rot3)
    requires
        rot_wf(*a),
        rot_wf(*b),
    ensures
        res@ == rot_mul_spec(a@, b@),
{
    Rot3 {
        x_axis: rot_apply_pub(a, &b.x_axis),
        y_axis: rot_apply_pub(a, &b.y_axis),
        z_axis: rot_apply_pub(a, &b.z_axis),
    }
}

/// Executable composition of a parent world transform with a local child
/// transform; `None` when the result leaves the working ranges.
pub fn compose(parent: &Transform, local: &Transform) -> (res: Option<Transform>)
    requires
        xform_wf(*parent),
        rot_wf(local.rotation),
        in_work_range(local.translation@),
    ensures
        res is Some <==> compose_spec(parent@, local@) is Some,
        res is Some ==> res->Some_0@ == compose_spec(parent@, local@)->Some_0 && xform_wf(
            res->Some_0,
        ),
{
    let rot = rot_mul_pub(&parent.rotation, &local.rotation);
    let off = rot_apply_pub(&parent.rotation, &local.translation);
    proof {
        lemma_rot_apply_bound(parent.rotation@, local.translation@);
        lemma_div_shrinks(parent.rotation@, local.translation@);
    }
    let t = Vec3 {
        x: parent.translation.x + off.x,
        y: parent.translation.y + off.y,
        z: parent.translation.z + off.z,
    };
    if rot_in_cap(&rot) && pos_ok(&t) {
        Some(Transform { rotation: rot, translation: t })
    } else {
        None
    }
}

/// The scaled-down combination is itself bounded.
proof fn lemma_div_shrinks(r: RotM, v: (int, int, int))
    requires
        rotm_wf(r),
        int_abs(v.0) <= 2 * MAX_POS,
        int_abs(v.1) <= 2 * MAX_POS,
        int_abs(v.2) <= 2 * MAX_POS,
    ensures
        int_abs(rot_apply(r, v).0) <= 60000000000000,
        int_abs(rot_apply(r, v).1) <= 60000000000000,
        int_abs(rot_apply(r, v).2) <= 60000000000000,
{
    lemma_rot_apply_bound(r, v);
    lemma_div_trunc_bounded(r.x.0 * v.0 + r.y.0 * v.1 + r.z.0 * v.2, ROT_ONE as int,
        3384883669198365696);
    lemma_div_trunc_bounded(r.x.1 * v.0 + r.y.1 * v.1 + r.z.1 * v.2, ROT_ONE as int,
        3384883669198365696);
    lemma_div_trunc_bounded(r.x.2 * v.0 + r.y.2 * v.1 + r.z.2 * v.2, ROT_ONE as int,
        3384883669198365696);
    assert(3384883669198365696int / (ROT_ONE as int) <= 60000000000000int);
}

/// One product of two unit-scale entries.
proof fn lemma_unit_term_bound(a: int, b: int)
    requires
        int_abs(a) <= ROT_ONE,
        int_abs(b) <= ROT_ONE,
    ensures
        int_abs(a * b) <= 4294967296,
{
    assert(int_abs(a * b) <= 65536 * 65536) by (nonlinear_arith)
        requires
            int_abs(a) <= 65536,
            int_abs(b) <= 65536,
    ;
}

/// A bounded dividend gives a correspondingly bounded quotient.
proof fn lemma_div_trunc_bounded(a: int, b: int, c: int)
    requires
        b >= 1,
        0 <= c,
        int_abs(a) <= c,
    ensures
        int_abs(div_trunc(a, b)) <= c / b,
{
    assert(int_abs(div_trunc(a, b)) <= c / b) by (nonlinear_arith)
        requires
            b >= 1,
            0 <= c,
            int_abs(a) <= c,
    ;
}

/// Truncating division never grows the magnitude, and dividing by the
/// scale shrinks it accordingly.
proof fn lemma_div_trunc_abs(a: int, b: int)
    requires
        b >= 1,
    ensures
        int_abs(div_trunc(a, b)) <= int_abs(a) / b,
        int_abs(div_trunc(a, b)) <= int_abs(a),
{
    if a >= 0 {
        assert(0 <= a / b <= a) by (nonlinear_arith)
            requires
                b >= 1,
                a >= 0,
        ;
    } else {
        assert(0 <= (-a) / b <= -a) by (nonlinear_arith)
            requires
                b >= 1,
                a < 0,
        ;
    }
}

/// Executable relative transform; `None` when positions drift past the
/// working range.
pub fn between(parent: &Transform, child: &Transform) -> (res: Option<Transform>)
    requires
        xform_wf(*parent),
        xform_wf(*child),
    ensures
        res is Some <==> between_spec(parent@, child@) is Some,
        res is Some ==> res->Some_0@ == between_spec(parent@, child@)->Some_0 && xform_wf(
            res->Some_0,
        ),
{
    let rt = rot_transpose(&parent.rotation);
    let rot = rot_mul_pub(&rt, &child.rotation);
    let dt = Vec3 {
        x: child.translation.x - parent.translation.x,
        y: child.translation.y - parent.translation.y,
        z: child.translation.z - parent.translation.z,
    };
    if !pos_ok(&dt) {
        return None;
    }
    let t = rot_apply_pub(&rt, &dt);
    if rot_in_cap(&rot) && pos_ok(&t) {
        Some(Transform { rotation: rot, translation: t })
    } else {
        None
    }
}

/// Executable scaled unit direction.
pub fn unit_of(v: &Vec3) -> (res: Option<Vec3>)
    requires
        in_work_range(v@),
    ensures
        res is Some <==> unit_spec(v@) is Some,
        res is Some ==> res->Some_0@ == unit_spec(v@)->Some_0 && int_abs(res->Some_0@.0)
            <= ROT_ONE && int_abs(res->Some_0@.1) <= ROT_ONE && int_abs(res->Some_0@.2) <= ROT_ONE,
{
    let zero = Vec3 { x: 0, y: 0, z: 0 };
    let res = reach_toward(&zero, v, ROT_ONE);
    proof {
        if unit_spec(v@) is Some {
            lemma_step_close((0, 0, 0), v@, ROT_ONE as int);
        }
    }
    res
}

/// Executable look-at frame.
pub fn look_at(eye: &Vec3, target: &Vec3) -> (res: Option<Rot3>)
    requires
        in_work_range(eye@),
        in_work_range(target@),
    ensures
        res is Some <==> look_at_spec(eye@, target@) is Some,
        res is Some ==> res->Some_0@ == look_at_spec(eye@, target@)->Some_0 && rot_wf(res->Some_0),
{
    let dz = Vec3 { x: eye.x - target.x, y: eye.y - target.y, z: eye.z - target.z };
    proof {
        assert(vsub(eye@, target@) == dz@);
    }
    let zo = match unit_of_wide(&dz) {
        None => {
            return None;
        },
        Some(z) => z,
    };
    let xr = Vec3 { x: 0, y: -32768 * zo.z, z: 32768 * zo.y };
    proof {
        assert(cross3((32768, 0, 0), zo@) == xr@);
        assert(in_work_range(xr@));
    }
    let xo = match unit_of(&xr) {
        None => {
            return None;
        },
        Some(x) => x,
    };
    proof {
        lemma_unit_term_bound(zo@.1, xo@.2);
        lemma_unit_term_bound(zo@.2, xo@.1);
        lemma_unit_term_bound(zo@.2, xo@.0);
        lemma_unit_term_bound(zo@.0, xo@.2);
        lemma_unit_term_bound(zo@.0, xo@.1);
        lemma_unit_term_bound(zo@.1, xo@.0);
    }
    let yr = Vec3 {
        x: zo.y * xo.z - zo.z * xo.y,
        y: zo.z * xo.x - zo.x * xo.z,
        z: zo.x * xo.y - zo.y * xo.x,
    };
    proof {
        assert(cross3(zo@, xo@) == yr@);
    }
    let yo = Vec3 {
        x: div_i64(yr.x, ROT_ONE),
        y: div_i64(yr.y, ROT_ONE),
        z: div_i64(yr.z, ROT_ONE),
    };
    proof {
        lemma_div_trunc_bounded(yr@.0, ROT_ONE as int, 8589934592);
        lemma_div_trunc_bounded(yr@.1, ROT_ONE as int, 8589934592);
        lemma_div_trunc_bounded(yr@.2, ROT_ONE as int, 8589934592);
    }
    Some(Rot3 { x_axis: xo, y_axis: yo, z_axis: zo })
}

/// A unit direction for a difference of working positions, whose
/// components can reach twice the working range.
pub fn unit_of_wide(v: &Vec3) -> (res: Option<Vec3>)
    ensures
        res is Some <==> unit_guard_spec(v@) is Some,
        res is Some ==> res->Some_0@ == unit_guard_spec(v@)->Some_0 && int_abs(res->Some_0@.0)
            <= ROT_ONE && int_abs(res->Some_0@.1) <= ROT_ONE && int_abs(res->Some_0@.2) <= ROT_ONE,
{
    if v.x < -MAX_POS || v.x > MAX_POS || v.y < -MAX_POS || v.y > MAX_POS || v.z < -MAX_POS
        || v.z > MAX_POS {
        return None;
    }
    unit_of(v)
}

/// Each component of a quaternion is bounded by the floor square root of
/// its squared norm.
proof fn lemma_comp4_le(a: int, b: int, c: int, d: int)
    ensures
        a * a + b * b + c * c + d * d >= 0,
        int_abs(a) <= sqrt_nat((a * a + b * b + c * c + d * d) as nat),
        int_abs(b) <= sqrt_nat((a * a + b * b + c * c + d * d) as nat),
        int_abs(c) <= sqrt_nat((a * a + b * b + c * c + d * d) as nat),
        int_abs(d) <= sqrt_nat((a * a + b * b + c * c + d * d) as nat),
{
    assert(a * a + b * b + c * c + d * d >= 0) by (nonlinear_arith);
    let n = (a * a + b * b + c * c + d * d) as nat;
    crate::num::lemma_sqrt_nat(n);
    let s = sqrt_nat(n);
    assert(int_abs(a) <= s && int_abs(b) <= s && int_abs(c) <= s && int_abs(d) <= s)
        by (nonlinear_arith)
        requires
            s * s <= n,
            n < (s + 1) * (s + 1),
            n == a * a + b * b + c * c + d * d,
    ;
}

/// Executable shortest-arc rotation between two scaled unit directions.
pub fn rotation_arc(f: &Vec3, t: &Vec3) -> (res: Option<Rot3>)
    requires
        int_abs(f@.0) <= ROT_CAP,
        int_abs(f@.1) <= ROT_CAP,
        int_abs(f@.2) <= ROT_CAP,
        int_abs(t@.0) <= ROT_CAP,
        int_abs(t@.1) <= ROT_CAP,
        int_abs(t@.2) <= ROT_CAP,
    ensures
        res is Some <==> rotation_arc_spec(f@, t@) is Some,
        res is Some ==> res->Some_0@ == rotation_arc_spec(f@, t@)->Some_0 && rot_wf(res->Some_0),
{
    proof {
        lemma_term_bound(f@.1, t@.2);
        lemma_term_bound(f@.2, t@.1);
        lemma_term_bound(f@.2, t@.0);
        lemma_term_bound(f@.0, t@.2);
        lemma_term_bound(f@.0, t@.1);
        lemma_term_bound(f@.1, t@.0);
        lemma_term_bound(f@.0, t@.0);
        lemma_term_bound(f@.1, t@.1);
        lemma_term_bound(f@.2, t@.2);
    }
    let cr = Vec3 {
        x: f.y * t.z - f.z * t.y,
        y: f.z * t.x - f.x * t.z,
        z: f.x * t.y - f.y * t.x,
    };
    proof {
        assert(cross3(f@, t@) == cr@);
        lemma_div_trunc_bounded(cr@.0, ROT_ONE as int, 2256589112798910464);
        lemma_div_trunc_bounded(cr@.1, ROT_ONE as int, 2256589112798910464);
        lemma_div_trunc_bounded(cr@.2, ROT_ONE as int, 2256589112798910464);
        assert(2256589112798910464int / (ROT_ONE as int) <= 35000000000000int);
    }
    let qvx = div_i64(cr.x, ROT_ONE);
    let qvy = div_i64(cr.y, ROT_ONE);
    let qvz = div_i64(cr.z, ROT_ONE);
    let dotft = f.x * t.x + f.y * t.y + f.z * t.z;
    proof {
        lemma_div_trunc_bounded(dotft as int, ROT_ONE as int, 3384883669198365696);
        assert(3384883669198365696int / (ROT_ONE as int) <= 60000000000000int);
    }
    let qw = div_i64(dotft, ROT_ONE) + ROT_ONE;
    // tighter bounds on the quaternion pieces, from the actual input caps
    proof {
        lemma_quat_piece_bounds(f@, t@);
    }
    let nsq: u128 = (iabs_sq(qvx) + iabs_sq(qvy) + iabs_sq(qvz) + iabs_sq(qw)) as u128;
    proof {
        assert(nsq as int == (qvx as int) * (qvx as int) + (qvy as int) * (qvy as int) + (
        qvz as int) * (qvz as int) + (qw as int) * (qw as int));
    }
    let qn: u64 = isqrt(nsq);
    if qn == 0 {
        return None;
    }
    proof {
        assert(qn as int <= 8000000) by (nonlinear_arith)
            requires
                (qn as int) * (qn as int) <= nsq as int,
                nsq as int <= 64000000000000,
        ;
        lemma_comp4_le(qvx as int, qvy as int, qvz as int, qw as int);
        crate::vec::lemma_scaled_le(qvx as int, ROT_ONE as int, qn as int);
        crate::vec::lemma_scaled_le(qvy as int, ROT_ONE as int, qn as int);
        crate::vec::lemma_scaled_le(qvz as int, ROT_ONE as int, qn as int);
        crate::vec::lemma_scaled_le(qw as int, ROT_ONE as int, qn as int);
    }
    let qx = crate::vec::reach_comp(0, qvx, ROT_ONE, qn);
    let qy = crate::vec::reach_comp(0, qvy, ROT_ONE, qn);
    let qz = crate::vec::reach_comp(0, qvz, ROT_ONE, qn);
    let qqw = crate::vec::reach_comp(0, qw, ROT_ONE, qn);
    let m = quat_mat_exec(qx, qy, qz, qqw);
    if rot_in_cap(&m) {
        Some(m)
    } else {
        None
    }
}

/// The cross and dot pieces of the arc quaternion, at the actual caps.
proof fn lemma_quat_piece_bounds(f: (int, int, int), t: (int, int, int))
    requires
        int_abs(f.0) <= ROT_CAP,
        int_abs(f.1) <= ROT_CAP,
        int_abs(f.2) <= ROT_CAP,
        int_abs(t.0) <= ROT_CAP,
        int_abs(t.1) <= ROT_CAP,
        int_abs(t.2) <= ROT_CAP,
    ensures
        int_abs(div_trunc(cross3(f, t).0, ROT_ONE as int)) <= 2097152,
        int_abs(div_trunc(cross3(f, t).1, ROT_ONE as int)) <= 2097152,
        int_abs(div_trunc(cross3(f, t).2, ROT_ONE as int)) <= 2097152,
        int_abs(div_trunc(dot3(f, t), ROT_ONE as int) + ROT_ONE) <= 3211264,
{
    assert(int_abs(f.1 * t.2) <= 262144 * 262144 && int_abs(f.2 * t.1) <= 262144 * 262144
        && int_abs(f.2 * t.0) <= 262144 * 262144 && int_abs(f.0 * t.2) <= 262144 * 262144
        && int_abs(f.0 * t.1) <= 262144 * 262144 && int_abs(f.1 * t.0) <= 262144 * 262144
        && int_abs(f.0 * t.0) <= 262144 * 262144 && int_abs(f.1 * t.1) <= 262144 * 262144
        && int_abs(f.2 * t.2) <= 262144 * 262144) by (nonlinear_arith)
        requires
            int_abs(f.0) <= 262144,
            int_abs(f.1) <= 262144,
            int_abs(f.2) <= 262144,
            int_abs(t.0) <= 262144,
            int_abs(t.1) <= 262144,
            int_abs(t.2) <= 262144,
    ;
    lemma_div_trunc_bounded(cross3(f, t).0, ROT_ONE as int, 137438953472);
    lemma_div_trunc_bounded(cross3(f, t).1, ROT_ONE as int, 137438953472);
    lemma_div_trunc_bounded(cross3(f, t).2, ROT_ONE as int, 137438953472);
    lemma_div_trunc_bounded(dot3(f, t), ROT_ONE as int, 206158430208);
    assert(137438953472int / (ROT_ONE as int) <= 2097152int);
    assert(206158430208int / (ROT_ONE as int) <= 3145728int);
}

/// Square of the absolute value, as `u64`.
fn iabs_sq(v: i64) -> (r: u64)
    requires
        int_abs(v as int) <= 4000000,
    ensures
        r == (v as int) * (v as int),
        r <= 16000000000000,
{
    let a = crate::vec::iabs(v);
    proof {
        assert((a as int) * (a as int) == (v as int) * (v as int) && (a as int) * (a as int)
            <= 4000000 * 4000000) by (nonlinear_arith)
            requires
                a == int_abs(v as int),
                int_abs(v as int) <= 4000000,
        ;
    }
    a * a
}

/// Executable quaternion-to-matrix conversion.
fn quat_mat_exec(x: i64, y: i64, z: i64, w: i64) -> (m: Rot3)
    requires
        int_abs(x as int) <= ROT_ONE,
        int_abs(y as int) <= ROT_ONE,
        int_abs(z as int) <= ROT_ONE,
        int_abs(w as int) <= ROT_ONE,
    ensures
        m@ == quat_mat(x as int, y as int, z as int, w as int),
{
    proof {
        lemma_unit_term_bound(x as int, x as int);
        lemma_unit_term_bound(x as int, y as int);
        lemma_unit_term_bound(x as int, z as int);
        lemma_unit_term_bound(x as int, w as int);
        lemma_unit_term_bound(y as int, y as int);
        lemma_unit_term_bound(y as int, z as int);
        lemma_unit_term_bound(y as int, w as int);
        lemma_unit_term_bound(z as int, z as int);
        lemma_unit_term_bound(z as int, w as int);
    }
    let xx = Vec3 {
        x: ROT_ONE - div_i64(2 * (y * y + z * z), ROT_ONE),
        y: div_i64(2 * (x * y + z * w), ROT_ONE),
        z: div_i64(2 * (x * z - y * w), ROT_ONE),
    };
    let yy = Vec3 {
        x: div_i64(2 * (x * y - z * w), ROT_ONE),
        y: ROT_ONE - div_i64(2 * (x * x + z * z), ROT_ONE),
        z: div_i64(2 * (y * z + x * w), ROT_ONE),
    };
    let zz = Vec3 {
        x: div_i64(2 * (x * z + y * w), ROT_ONE),
        y: div_i64(2 * (y * z - x * w), ROT_ONE),
        z: ROT_ONE - div_i64(2 * (x * x + y * y), ROT_ONE),
    };
    proof {
        lemma_div_trunc_abs(2 * ((y as int) * (y as int) + (z as int) * (z as int)),
            ROT_ONE as int);
        lemma_div_trunc_abs(2 * ((x as int) * (x as int) + (z as int) * (z as int)),
            ROT_ONE as int);
        lemma_div_trunc_abs(2 * ((x as int) * (x as int) + (y as int) * (y as int)),
            ROT_ONE as int);
    }
    Rot3 { x_axis: xx, y_axis: yy, z_axis: zz }
}

} // verus!
