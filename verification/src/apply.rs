//! Transform propagation: rewrite local (parent-relative) transforms from
//! the solved world positions, walking root to leaf, and recompute world
//! transforms from local ones.
//!
//! Both propagation modes only touch joints the backward pass visited —
//! the joints reachable from a root through dependency edges — and never
//! touch a root's local transform.

use vstd::prelude::*;

use crate::cache::IkData;
use crate::IkError;
use crate::graph::ArmatureGraph;
use crate::joint::{joint_in_range, joints_in_range, IkGoal, Joint};
use crate::solver::{back_visited, ctx_wf};
use crate::vec::{in_work_range, Vec3};
use crate::vec::{dist_sq, dist_sq_exec, vsub};
use crate::xform::{
    between, between_spec, compose, compose_spec, look_at, look_at_spec, rot_apply,
    rot_apply_pub, rot_in_cap, rot_mul_pub, rot_mul_spec, rot_transpose, rot_transpose_spec,
    rot_wf, rotation_arc, rotation_arc_spec, rotm_wf, unit_guard_spec, unit_of_wide, xform_wf,
    Rot3, Transform, XformM,
};

verus! {

/// The world transform each joint gets when worlds are recomputed from
/// locals, root to leaf: a parentless joint's world is its local; any
/// other joint composes its parent's world with its local, keeping its
/// old world if the composition leaves the working ranges.
pub open spec fn world_spec(g: ArmatureGraph, js0: Seq<Joint>, j: int) -> XformM
    decreases g.depth_of(j),
        when g.wf() && 0 <= j < g.n()
{
    match g.parent_of(j) {
        None => js0[j].transform@,
        Some(p) => match compose_spec(world_spec(g, js0, p as int), js0[j].transform@) {
            Some(w) => w,
            None => js0[j].global_transform@,
        },
    }
}

/// Transform fields other than the one a pass rewrites stay put.
pub open spec fn same_joint_but_global(a: Joint, b: Joint) -> bool {
    a.name == b.name && a.fixed == b.fixed && a.parent == b.parent && a.transform == b.transform
}

/// Transform fields other than the local transform stay put.
pub open spec fn same_joint_but_local(a: Joint, b: Joint) -> bool {
    a.name == b.name && a.fixed == b.fixed && a.parent == b.parent && a.global_transform
        == b.global_transform
}

/// Recompute every world transform from the local transforms, root to
/// leaf.  This is the hierarchy refresh a host runs between ticks.
pub fn update_world_transforms(joints: &mut Vec<Joint>, graph: &ArmatureGraph)
    requires
        graph.wf(),
        graph.matches(old(joints)@),
        joints_in_range(old(joints)@),
    ensures
        final(joints)@.len() == old(joints)@.len(),
        forall|j: int|
            0 <= j < old(joints)@.len() ==> same_joint_but_global(
                #[trigger] final(joints)@[j],
                old(joints)@[j],
            ) && final(joints)@[j].global_transform@ == world_spec(*graph, old(joints)@, j)
                && xform_wf(final(joints)@[j].global_transform),
{
    let n = joints.len();
    let ghost g = *graph;
    let ghost js0 = old(joints)@;
    let mut dep: usize = 0;
    while dep <= n
        invariant
            0 <= dep <= n + 1,
            n == js0.len(),
            g == *graph,
            g.wf(),
            g.matches(js0),
            joints_in_range(js0),
            joints@.len() == n,
            forall|j: int|
                0 <= j < n ==> same_joint_but_global(#[trigger] joints@[j], js0[j]),
            forall|j: int|
                0 <= j < n && g.depth_of(j) < dep ==> (#[trigger] joints@[j]).global_transform@
                    == world_spec(g, js0, j) && xform_wf(joints@[j].global_transform),
            forall|j: int|
                0 <= j < n && g.depth_of(j) >= dep ==> (#[trigger] joints@[j]).global_transform
                    == js0[j].global_transform,
        decreases n + 1 - dep,
    {
        let mut j: usize = 0;
        while j < n
            invariant
                0 <= j <= n,
                0 <= dep <= n,
                n == js0.len(),
                g == *graph,
                g.wf(),
                g.matches(js0),
                joints_in_range(js0),
                joints@.len() == n,
                forall|j2: int|
                    0 <= j2 < n ==> same_joint_but_global(#[trigger] joints@[j2], js0[j2]),
                forall|j2: int|
                    0 <= j2 < n && (g.depth_of(j2) < dep || (g.depth_of(j2) == dep && j2 < j))
                        ==> (#[trigger] joints@[j2]).global_transform@ == world_spec(g, js0, j2)
                        && xform_wf(joints@[j2].global_transform),
                forall|j2: int|
                    0 <= j2 < n && (g.depth_of(j2) > dep || (g.depth_of(j2) == dep && j2 >= j)) ==> (
                    #[trigger] joints@[j2]).global_transform == js0[j2].global_transform,
            decreases n - j,
        {
            if graph.joint_depth[j] == dep {
                let w: Transform = match joints[j].parent {
                    None => joints[j].transform,
                    Some(p) => {
                        proof {
                            assert(g.parent_of(j as int) == js0[j as int].parent);
                            assert(g.depth_of(p as int) == dep - 1);
                            assert(joints@[p as int].global_transform@ == world_spec(
                                g,
                                js0,
                                p as int,
                            ));
                            assert(joint_in_range(js0[j as int]));
                        }
                        let pw = joints[p].global_transform;
                        let lw = joints[j].transform;
                        match compose(&pw, &lw) {
                            Some(c) => c,
                            None => joints[j].global_transform,
                        }
                    },
                };
                proof {
                    assert(joint_in_range(js0[j as int]));
                    assert(w@ == world_spec(g, js0, j as int));
                    assert(xform_wf(w));
                }
                joints[j].global_transform = w;
            }
            j = j + 1;
        }
        dep = dep + 1;
    }
    proof {
        assert forall|j: int| 0 <= j < n implies g.depth_of(j) < dep by {}
    }
}

/// The world frame translation mode assigns to a visited joint: a root
/// keeps its old world transform; any other joint gets a look-at frame —
/// oriented from its solved position toward its parent's solved position —
/// at its solved position, keeping its old world transform when the
/// directions degenerate.
pub open spec fn prop_world(g: ArmatureGraph, d: IkData, js0: Seq<Joint>, j: int) -> XformM {
    if d.is_root(j) {
        js0[j].global_transform@
    } else {
        match g.parent_of(j) {
            None => js0[j].global_transform@,
            Some(p) => match look_at_spec(d.pos_of(j), d.pos_of(p as int)) {
                None => js0[j].global_transform@,
                Some(rot) => XformM { rot, t: d.pos_of(j) },
            },
        }
    }
}

/// The local transform translation mode writes to a visited non-root
/// joint: its new world frame expressed in the parent's new world frame.
/// The joint keeps its old local transform when a direction degenerates
/// or the relative transform leaves the working ranges.
pub open spec fn prop_local(g: ArmatureGraph, d: IkData, js0: Seq<Joint>, j: int) -> XformM {
    match g.parent_of(j) {
        None => js0[j].transform@,
        Some(p) => {
            if look_at_spec(d.pos_of(j), d.pos_of(p as int)) is None {
                js0[j].transform@
            } else {
                match between_spec(prop_world(g, d, js0, p as int), prop_world(g, d, js0, j)) {
                    Some(x) => x,
                    None => js0[j].transform@,
                }
            }
        },
    }
}

/// Translation-mode propagation: discard each visited joint's orientation
/// and rebuild its local transform from a look-at frame at the solved
/// position.  Appropriate when only endpoint positions matter.
pub fn apply_joint_positions(
    joints: &mut Vec<Joint>,
    graph: &ArmatureGraph,
    data: &IkData,
    goals: &Vec<IkGoal>,
)
    requires
        graph.wf(),
        data.wf(*graph, goals@),
        graph.matches(old(joints)@),
        joints_in_range(old(joints)@),
        old(joints)@.len() == data.n(),
    ensures
        final(joints)@.len() == old(joints)@.len(),
        forall|j: int|
            0 <= j < old(joints)@.len() ==> same_joint_but_local(
                #[trigger] final(joints)@[j],
                old(joints)@[j],
            ),
        forall|j: int|
            0 <= j < old(joints)@.len() && back_visited(*graph, *data, goals@, j) && !data.is_root(
                j,
            ) ==> (#[trigger] final(joints)@[j]).transform@ == prop_local(
                *graph,
                *data,
                old(joints)@,
                j,
            ) && rot_wf(final(joints)@[j].transform.rotation) && in_work_range(
                final(joints)@[j].transform.translation@,
            ),
        forall|j: int|
            0 <= j < old(joints)@.len() && !(back_visited(*graph, *data, goals@, j)
                && !data.is_root(j)) ==> (#[trigger] final(joints)@[j]).transform
                == old(joints)@[j].transform,
{
    let n = joints.len();
    let ghost g = *graph;
    let ghost d = *data;
    let ghost js0 = old(joints)@;

    // Visited flags and propagated world frames, filled in depth order.
    let mut vis: Vec<bool> = Vec::new();
    let mut worlds: Vec<Transform> = Vec::new();
    let mut i: usize = 0;
    while i < n
        invariant
            0 <= i <= n,
            n == js0.len(),
            vis@.len() == i,
            worlds@.len() == i,
            forall|j: int| 0 <= j < i ==> !(#[trigger] vis@[j]),
        decreases n - i,
    {
        vis.push(false);
        worlds.push(Transform::identity());
        i = i + 1;
    }

    let mut dep: usize = 0;
    while dep <= n
        invariant
            0 <= dep <= n + 1,
            n == js0.len(),
            n == d.n(),
            g == *graph,
            d == *data,
            ctx_wf(g, d, goals@),
            g.matches(js0),
            joints_in_range(js0),
            joints@.len() == n,
            vis@.len() == n,
            worlds@.len() == n,
            forall|j: int|
                0 <= j < n ==> same_joint_but_local(#[trigger] joints@[j], js0[j]),
            forall|j: int|
                0 <= j < n && g.depth_of(j) < dep ==> ((#[trigger] vis@[j]) == back_visited(
                    g,
                    d,
                    goals@,
                    j,
                )),
            forall|j: int|
                0 <= j < n && #[trigger] vis@[j] ==> g.depth_of(j) < dep && worlds@[j]@
                    == prop_world(g, d, js0, j) && xform_wf(worlds@[j]),
            forall|j: int|
                0 <= j < n && g.depth_of(j) < dep && back_visited(g, d, goals@, j) && !d.is_root(
                    j,
                ) ==> (#[trigger] joints@[j]).transform@ == prop_local(g, d, js0, j) && rot_wf(
                    joints@[j].transform.rotation,
                ) && in_work_range(joints@[j].transform.translation@),
            forall|j: int|
                0 <= j < n && !(g.depth_of(j) < dep && back_visited(g, d, goals@, j)
                    && !d.is_root(j)) ==> (#[trigger] joints@[j]).transform == js0[j].transform,
        decreases n + 1 - dep,
    {
        let mut j: usize = 0;
        while j < n
            invariant
                0 <= j <= n,
                0 <= dep <= n,
                n == js0.len(),
                n == d.n(),
                g == *graph,
                d == *data,
                ctx_wf(g, d, goals@),
                g.matches(js0),
                joints_in_range(js0),
                joints@.len() == n,
                vis@.len() == n,
                worlds@.len() == n,
                forall|j2: int|
                    0 <= j2 < n ==> same_joint_but_local(#[trigger] joints@[j2], js0[j2]),
                forall|j2: int|
                    0 <= j2 < n && (g.depth_of(j2) < dep || (g.depth_of(j2) == dep && j2 < j)) ==> ((
                    #[trigger] vis@[j2]) == back_visited(g, d, goals@, j2)),
                forall|j2: int|
                    0 <= j2 < n && (g.depth_of(j2) > dep || (g.depth_of(j2) == dep && j2 >= j))
                        ==> !(#[trigger] vis@[j2]),
                forall|j2: int|
                    0 <= j2 < n && #[trigger] vis@[j2] ==> worlds@[j2]@ == prop_world(g, d, js0, j2)
                        && xform_wf(worlds@[j2]),
                forall|j2: int|
                    0 <= j2 < n && (g.depth_of(j2) < dep || (g.depth_of(j2) == dep && j2 < j))
                        && back_visited(g, d, goals@, j2) && !d.is_root(j2) ==> (
                    #[trigger] joints@[j2]).transform@ == prop_local(g, d, js0, j2) && rot_wf(
                        joints@[j2].transform.rotation,
                    ) && in_work_range(joints@[j2].transform.translation@),
                forall|j2: int|
                    0 <= j2 < n && !((g.depth_of(j2) < dep || (g.depth_of(j2) == dep && j2 < j))
                        && back_visited(g, d, goals@, j2) && !d.is_root(j2)) ==> (
                    #[trigger] joints@[j2]).transform == js0[j2].transform,
            decreases n - j,
        {
            if graph.joint_depth[j] == dep {
                if data.roots[j] {
                    vis[j] = true;
                    worlds[j] = joints[j].global_transform;
                    proof {
                        assert(back_visited(g, d, goals@, j as int));
                        assert(joint_in_range(js0[j as int]));
                        assert(worlds@[j as int]@ == prop_world(g, d, js0, j as int));
                    }
                } else {
                    let is_visited = match joints[j].parent {
                        None => false,
                        Some(p) => {
                            proof {
                                assert(g.parent_of(j as int) == js0[j as int].parent);
                                assert(g.depth_of(p as int) == dep - 1);
                            }
                            vis[p] && crate::cache::required_contains(
                                &data.required_positions[p],
                                j,
                            )
                        },
                    };
                    proof {
                        assert(is_visited == back_visited(g, d, goals@, j as int));
                    }
                    if is_visited {
                        let p = match joints[j].parent {
                            Some(p) => p,
                            None => 0,
                        };
                        proof {
                            assert(g.parent_of(j as int) == Some(p));
                            assert(in_work_range(d.pos_of(j as int)));
                            assert(in_work_range(d.pos_of(p as int)));
                        }
                        let rot = look_at(&data.joint_positions[j], &data.joint_positions[p]);
                        match rot {
                            None => {
                                vis[j] = true;
                                worlds[j] = joints[j].global_transform;
                                proof {
                                    assert(joint_in_range(js0[j as int]));
                                    assert(worlds@[j as int]@ == prop_world(g, d, js0, j as int));
                                    assert(joints@[j as int].transform == js0[j as int].transform);
                                    assert(prop_local(g, d, js0, j as int) == js0[j as int].transform@);
                                }
                            },
                            Some(r) => {
                                let w = Transform {
                                    rotation: r,
                                    translation: data.joint_positions[j],
                                };
                                vis[j] = true;
                                worlds[j] = w;
                                proof {
                                    assert(worlds@[j as int]@ == prop_world(g, d, js0, j as int));
                                    assert(xform_wf(w));
                                    assert(vis@[p as int]);
                                    assert(worlds@[p as int]@ == prop_world(g, d, js0, p as int));
                                }
                                let pw = worlds[p];
                                match between(&pw, &w) {
                                    Some(local) => {
                                        joints[j].transform = local;
                                    },
                                    None => {},
                                }
                                proof {
                                    assert(joints@[j as int].transform@ == prop_local(
                                        g,
                                        d,
                                        js0,
                                        j as int,
                                    ));
                                    assert(rot_wf(joints@[j as int].transform.rotation)
                                        && in_work_range(
                                        joints@[j as int].transform.translation@,
                                    )) by {
                                        if between_spec(
                                            prop_world(g, d, js0, p as int),
                                            prop_world(g, d, js0, j as int),
                                        ) is None {
                                            assert(joint_in_range(js0[j as int]));
                                        }
                                    }
                                }
                            },
                        }
                    }
                }
            }
            j = j + 1;
        }
        dep = dep + 1;
    }
    proof {
        assert forall|j: int| 0 <= j < n implies g.depth_of(j) < dep by {}
    }
}

/// The frame a joint's local transform is expressed in during
/// rotation-preserving propagation: for a root, its actual parent's old
/// world transform (or the identity at a true root); for any other visited
/// joint, the parent's propagated frame.
pub open spec fn rp_parent_frame(g: ArmatureGraph, d: IkData, js0: Seq<Joint>, j: int) -> XformM
    decreases g.depth_of(j), 0int,
        when g.wf() && 0 <= j < g.n()
{
    if d.is_root(j) {
        match g.parent_of(j) {
            None => Transform::identity_spec()@,
            Some(p) => js0[p as int].global_transform@,
        }
    } else {
        match g.parent_of(j) {
            None => Transform::identity_spec()@,
            Some(p) => rp_frame(g, d, js0, p as int),
        }
    }
}

/// The local transform rotation-preserving mode writes to a visited
/// joint: its existing local transform, pre-rotated by the shortest arc
/// that maps the old direction toward its first dependency (the pole
/// joint) to the direction toward that dependency's solved position, both
/// expressed in the parent's frame.  The joint keeps its old local
/// transform when it has no pole, when any direction degenerates, or when
/// an entry leaves the caps; the translation is never touched, so
/// rest-pose offsets and twists survive — and so do root positions.
pub open spec fn rp_local(g: ArmatureGraph, d: IkData, js0: Seq<Joint>, j: int) -> XformM
    decreases g.depth_of(j), 1int,
        when g.wf() && 0 <= j < g.n()
{
    if d.required_of(j).len() == 0 {
        js0[j].transform@
    } else {
        let c = d.required_of(j)[0] as int;
        let old_dir = rot_apply(js0[j].transform@.rot, js0[c].transform@.t);
        let new_dir = rot_apply(
            rot_transpose_spec(rp_parent_frame(g, d, js0, j).rot),
            vsub(d.pos_of(c), d.pos_of(j)),
        );
        match unit_guard_spec(old_dir) {
            None => js0[j].transform@,
            Some(uo) => match unit_guard_spec(new_dir) {
                None => js0[j].transform@,
                Some(un) => match rotation_arc_spec(uo, un) {
                    None => js0[j].transform@,
                    Some(arc) => {
                        let rot = rot_mul_spec(arc, js0[j].transform@.rot);
                        if rotm_wf(rot) {
                            XformM { rot, t: js0[j].transform@.t }
                        } else {
                            js0[j].transform@
                        }
                    },
                },
            },
        }
    }
}

/// The world frame a visited joint has after rotation-preserving
/// propagation: its parent frame composed with its rewritten local
/// transform, keeping its old world transform when the composition leaves
/// the working ranges.
pub open spec fn rp_frame(g: ArmatureGraph, d: IkData, js0: Seq<Joint>, j: int) -> XformM
    decreases g.depth_of(j), 2int,
        when g.wf() && 0 <= j < g.n()
{
    match compose_spec(rp_parent_frame(g, d, js0, j), rp_local(g, d, js0, j)) {
        Some(w) => w,
        None => js0[j].global_transform@,
    }
}

/// A consistency violation at a visited joint: under the updated ancestor
/// frames, the joint's reconstructed world position strays more than
/// `eps` from its solved position, or — when it has a pole joint — the
/// pole's reconstructed world position strays more than `eps` from the
/// pole's solved position.
pub open spec fn rp_violation(
    g: ArmatureGraph,
    d: IkData,
    js0: Seq<Joint>,
    eps: int,
    j: int,
) -> bool {
    let pre = compose_spec(rp_parent_frame(g, d, js0, j), js0[j].transform@);
    ||| pre is None
    ||| dist_sq(pre->Some_0.t, d.pos_of(j)) > eps * eps
    ||| (d.required_of(j).len() > 0 && {
        let c = d.required_of(j)[0] as int;
        let post = compose_spec(rp_frame(g, d, js0, j), js0[c].transform@);
        post is None || dist_sq(post->Some_0.t, d.pos_of(c)) > eps * eps
    })
}

/// Rotation-preserving propagation: rotate each visited joint's existing
/// local rotation so its pole joint reaches the solved position, leaving
/// every other rotational component (such as a rest-pose twist) and all
/// local translations untouched.  Root positions cannot move — only their
/// frames turn — so the root-invariance of the solve carries through.
///
/// Reconstruction mismatches beyond `eps` indicate a link-length or
/// geometry inconsistency; propagation still finishes best-effort and then
/// reports [`IkError::ConsistencyViolation`] exactly when one occurred.
#[verifier::rlimit(100)]
pub fn apply_bone_rotations(
    joints: &mut Vec<Joint>,
    graph: &ArmatureGraph,
    data: &IkData,
    goals: &Vec<IkGoal>,
    eps: i64,
) -> (r: Result<(), IkError>)
    requires
        graph.wf(),
        data.wf(*graph, goals@),
        graph.matches(old(joints)@),
        joints_in_range(old(joints)@),
        old(joints)@.len() == data.n(),
        0 < eps <= crate::MAX_COORD,
    ensures
        final(joints)@.len() == old(joints)@.len(),
        forall|j: int|
            0 <= j < old(joints)@.len() ==> same_joint_but_local(
                #[trigger] final(joints)@[j],
                old(joints)@[j],
            ),
        forall|j: int|
            0 <= j < old(joints)@.len() && back_visited(*graph, *data, goals@, j) ==> (
            #[trigger] final(joints)@[j]).transform@ == rp_local(*graph, *data, old(joints)@, j),
        forall|j: int|
            0 <= j < old(joints)@.len() && !back_visited(*graph, *data, goals@, j) ==> (
            #[trigger] final(joints)@[j]).transform == old(joints)@[j].transform,
        r is Err <==> exists|j: int|
            0 <= j < old(joints)@.len() && #[trigger] back_visited(*graph, *data, goals@, j)
                && rp_violation(*graph, *data, old(joints)@, eps as int, j),
        r is Err ==> r == Err::<(), IkError>(IkError::ConsistencyViolation),
{
    let n = joints.len();
    let ghost g = *graph;
    let ghost d = *data;
    let ghost js0 = old(joints)@;

    let mut vis: Vec<bool> = Vec::new();
    let mut frames: Vec<Transform> = Vec::new();
    let mut i: usize = 0;
    while i < n
        invariant
            0 <= i <= n,
            n == js0.len(),
            vis@.len() == i,
            frames@.len() == i,
            forall|j: int| 0 <= j < i ==> !(#[trigger] vis@[j]),
        decreases n - i,
    {
        vis.push(false);
        frames.push(Transform::identity());
        i = i + 1;
    }
    let mut bad = false;

    let mut dep: usize = 0;
    while dep <= n
        invariant
            0 <= dep <= n + 1,
            n == js0.len(),
            n == d.n(),
            g == *graph,
            d == *data,
            ctx_wf(g, d, goals@),
            g.matches(js0),
            joints_in_range(js0),
            0 < eps <= crate::MAX_COORD,
            joints@.len() == n,
            vis@.len() == n,
            frames@.len() == n,
            forall|j: int|
                0 <= j < n ==> same_joint_but_local(#[trigger] joints@[j], js0[j]),
            forall|j: int|
                0 <= j < n && g.depth_of(j) < dep ==> ((#[trigger] vis@[j]) == back_visited(
                    g,
                    d,
                    goals@,
                    j,
                )),
            forall|j: int|
                0 <= j < n && #[trigger] vis@[j] ==> g.depth_of(j) < dep && frames@[j]@ == rp_frame(
                    g,
                    d,
                    js0,
                    j,
                ) && xform_wf(frames@[j]),
            forall|j: int|
                0 <= j < n && g.depth_of(j) < dep && back_visited(g, d, goals@, j) ==> (
                #[trigger] joints@[j]).transform@ == rp_local(g, d, js0, j) && rot_wf(
                    joints@[j].transform.rotation,
                ) && in_work_range(joints@[j].transform.translation@),
            forall|j: int|
                0 <= j < n && !(g.depth_of(j) < dep && back_visited(g, d, goals@, j)) ==> (
                #[trigger] joints@[j]).transform == js0[j].transform,
            bad <==> exists|j: int|
                0 <= j < n && g.depth_of(j) < dep && #[trigger] back_visited(g, d, goals@, j)
                    && rp_violation(g, d, js0, eps as int, j),
        decreases n + 1 - dep,
    {
        let mut j: usize = 0;
        while j < n
            invariant
                0 <= j <= n,
                0 <= dep <= n,
                n == js0.len(),
                n == d.n(),
                g == *graph,
                d == *data,
                ctx_wf(g, d, goals@),
                g.matches(js0),
                joints_in_range(js0),
                0 < eps <= crate::MAX_COORD,
                joints@.len() == n,
                vis@.len() == n,
                frames@.len() == n,
                forall|j2: int|
                    0 <= j2 < n ==> same_joint_but_local(#[trigger] joints@[j2], js0[j2]),
                forall|j2: int|
                    0 <= j2 < n && (g.depth_of(j2) < dep || (g.depth_of(j2) == dep && j2 < j)) ==> ((
                    #[trigger] vis@[j2]) == back_visited(g, d, goals@, j2)),
                forall|j2: int|
                    0 <= j2 < n && (g.depth_of(j2) > dep || (g.depth_of(j2) == dep && j2 >= j))
                        ==> !(#[trigger] vis@[j2]),
                forall|j2: int|
                    0 <= j2 < n && #[trigger] vis@[j2] ==> frames@[j2]@ == rp_frame(g, d, js0, j2)
                        && xform_wf(frames@[j2]),
                forall|j2: int|
                    0 <= j2 < n && (g.depth_of(j2) < dep || (g.depth_of(j2) == dep && j2 < j))
                        && back_visited(g, d, goals@, j2) ==> (#[trigger] joints@[j2]).transform@
                        == rp_local(g, d, js0, j2) && rot_wf(joints@[j2].transform.rotation)
                        && in_work_range(joints@[j2].transform.translation@),
                forall|j2: int|
                    0 <= j2 < n && !((g.depth_of(j2) < dep || (g.depth_of(j2) == dep && j2 < j))
                        && back_visited(g, d, goals@, j2)) ==> (#[trigger] joints@[j2]).transform
                        == js0[j2].transform,
                bad <==> exists|j2: int|
                    0 <= j2 < n && (g.depth_of(j2) < dep || (g.depth_of(j2) == dep && j2 < j))
                        && #[trigger] back_visited(g, d, goals@, j2) && rp_violation(
                        g,
                        d,
                        js0,
                        eps as int,
                        j2,
                    ),
            decreases n - j,
        {
            if graph.joint_depth[j] == dep {
                let is_root = data.roots[j];
                let is_visited = if is_root {
                    true
                } else {
                    match joints[j].parent {
                        None => false,
                        Some(p) => {
                            proof {
                                assert(g.parent_of(j as int) == js0[j as int].parent);
                                assert(g.depth_of(p as int) == dep - 1);
                            }
                            vis[p] && crate::cache::required_contains(
                                &data.required_positions[p],
                                j,
                            )
                        },
                    }
                };
                proof {
                    assert(is_visited == back_visited(g, d, goals@, j as int));
                }
                if is_visited {
                    // The frame this joint's local transform lives in.
                    let pf: Transform = if is_root {
                        match joints[j].parent {
                            None => Transform::identity(),
                            Some(p) => {
                                proof {
                                    assert(g.parent_of(j as int) == js0[j as int].parent);
                                    assert(joint_in_range(js0[p as int]));
                                }
                                joints[p].global_transform
                            },
                        }
                    } else {
                        let p = match joints[j].parent {
                            Some(p) => p,
                            None => 0,
                        };
                        proof {
                            assert(g.parent_of(j as int) == Some(p));
                            assert(vis@[p as int]);
                        }
                        frames[p]
                    };
                    proof {
                        assert(pf@ == rp_parent_frame(g, d, js0, j as int));
                        assert(xform_wf(pf));
                        assert(joint_in_range(js0[j as int]));
                        assert(in_work_range(d.pos_of(j as int)));
                        assert((eps as u128) * (eps as u128) == (eps as int) * (eps as int)
                            && (eps as u128) * (eps as u128) <= 1048576 * 1048576)
                            by (nonlinear_arith)
                            requires
                                0 < eps <= 1048576,
                        ;
                    }
                    let old_local = joints[j].transform;
                    proof {
                        assert(old_local == js0[j as int].transform);
                    }
                    // consistency pre-check: the parent frame should
                    // already place this joint at its solved position
                    let mut violated = match compose(&pf, &old_local) {
                        None => true,
                        Some(w) => {
                            let dsq = dist_sq_exec(&w.translation, &data.joint_positions[j]);
                            dsq > (eps as u128) * (eps as u128)
                        },
                    };
                    // rewrite the local rotation from the pole joint
                    let reqs_len = data.required_positions[j].len();
                    let mut new_local = old_local;
                    if reqs_len > 0 {
                        let c = data.required_positions[j][0];
                        proof {
                            assert(d.required_of(j as int)[0] == c);
                            assert(d.required_of(j as int).contains(c));
                            assert((c as int) < n);
                            assert(joint_in_range(js0[c as int]));
                            assert(in_work_range(d.pos_of(c as int)));
                            assert(joints@[c as int].transform == js0[c as int].transform) by {
                                assert(g.parent_of(c as int) == Some(j as usize));
                                assert(g.depth_of(c as int) == dep + 1);
                            }
                        }
                        let old_dir = rot_apply_pub(
                            &old_local.rotation,
                            &joints[c].transform.translation,
                        );
                        let dv = Vec3 {
                            x: data.joint_positions[c].x - data.joint_positions[j].x,
                            y: data.joint_positions[c].y - data.joint_positions[j].y,
                            z: data.joint_positions[c].z - data.joint_positions[j].z,
                        };
                        proof {
                            assert(dv@ == vsub(d.pos_of(c as int), d.pos_of(j as int)));
                        }
                        let rt = rot_transpose(&pf.rotation);
                        let new_dir = rot_apply_pub(&rt, &dv);
                        let arc = match unit_of_wide(&old_dir) {
                            None => None,
                            Some(uo) => match unit_of_wide(&new_dir) {
                                None => None,
                                Some(un) => rotation_arc(&uo, &un),
                            },
                        };
                        match arc {
                            None => {},
                            Some(a) => {
                                let rot = rot_mul_pub(&a, &old_local.rotation);
                                if rot_in_cap(&rot) {
                                    new_local = Transform {
                                        rotation: rot,
                                        translation: old_local.translation,
                                    };
                                }
                            },
                        }
                    }
                    proof {
                        assert(new_local@ == rp_local(g, d, js0, j as int));
                        assert(rot_wf(new_local.rotation) && in_work_range(
                            new_local.translation@,
                        )) by {
                            if new_local == old_local {
                                assert(joint_in_range(js0[j as int]));
                            }
                        }
                    }
                    joints[j].transform = new_local;
                    let w = match compose(&pf, &new_local) {
                        Some(w) => w,
                        None => joints[j].global_transform,
                    };
                    vis[j] = true;
                    frames[j] = w;
                    proof {
                        assert(joint_in_range(js0[j as int]));
                        assert(frames@[j as int]@ == rp_frame(g, d, js0, j as int));
                        assert(xform_wf(frames@[j as int]));
                    }
                    // consistency post-check: the pole joint should be
                    // reconstructed at its solved position
                    if reqs_len > 0 {
                        let c = data.required_positions[j][0];
                        proof {
                            assert((c as int) < n);
                            assert(joint_in_range(js0[c as int]));
                            assert(joints@[c as int].transform == js0[c as int].transform) by {
                                assert(g.parent_of(c as int) == Some(j as usize));
                                assert(g.depth_of(c as int) == dep + 1);
                            }
                        }
                        let fw = frames[j];
                        match compose(&fw, &joints[c].transform) {
                            None => {
                                violated = true;
                            },
                            Some(polew) => {
                                let dsq = dist_sq_exec(
                                    &polew.translation,
                                    &data.joint_positions[c],
                                );
                                if dsq > (eps as u128) * (eps as u128) {
                                    violated = true;
                                }
                            },
                        }
                    }
                    proof {
                        assert(violated == rp_violation(g, d, js0, eps as int, j as int));
                    }
                    if violated {
                        bad = true;
                    }
                }
            }
            j = j + 1;
        }
        dep = dep + 1;
    }
    proof {
        assert forall|j: int| 0 <= j < n implies g.depth_of(j) < dep by {}
    }
    if bad {
        Err(IkError::ConsistencyViolation)
    } else {
        Ok(())
    }
}

} // verus!
