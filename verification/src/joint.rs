//! The joint arena and the goal record.
//!
//! Joints live in a flat arena (`Vec<Joint>`); parent links are indices
//! into that arena, so the tree carries no pointers and cycles can be ruled
//! out once, at graph-build time.

use vstd::prelude::*;

use crate::vec::{in_input_range, in_work_range, Vec3};
use crate::xform::{rot_wf, Transform};

verus! {

/// A node of the kinematic tree.
///
/// `transform` is the local pose relative to the parent joint; its
/// translation also defines the rigid link length to the parent.
/// `global_transform` is the derived world pose; the solver reads it as the
/// seed position and the caller (or [`crate::apply::update_world_transforms`])
/// refreshes it after local transforms change.
#[derive(Debug)]
pub struct Joint {
    /// Human-readable name, for diagnostics only.
    pub name: String,
    /// An immovable joint: chain walks stop here and its position never changes.
    pub fixed: bool,
    /// Index of the parent joint in the arena, absent for roots.
    pub parent: Option<usize>,
    /// Local transform, relative to the parent joint.
    pub transform: Transform,
    /// World transform, derived from the local transforms along the chain.
    pub global_transform: Transform,
}

/// The joint's numeric fields lie within the input ranges the solver accepts.
pub open spec fn joint_in_range(j: Joint) -> bool {
    &&& in_input_range(j.transform.translation@)
    &&& in_input_range(j.global_transform.translation@)
    &&& rot_wf(j.transform.rotation)
    &&& rot_wf(j.global_transform.rotation)
}

/// Every joint of the arena is in range.
pub open spec fn joints_in_range(js: Seq<Joint>) -> bool {
    forall|i: int| 0 <= i < js.len() ==> joint_in_range(#[trigger] js[i])
}

/// An inverse-kinematics goal: drive `target_joint` toward `position`,
/// influencing at most `chain_length` parent steps above the target.
#[derive(Clone, Copy)]
pub struct IkGoal {
    /// Arena index of the joint that should reach the goal.
    pub target_joint: usize,
    /// Maximum number of parent steps of influence, at least 1.
    pub chain_length: u32,
    /// Current world-space target position.
    pub position: Vec3,
}

/// The goal's target position lies within the input coordinate range.
pub open spec fn goal_in_range(g: IkGoal) -> bool {
    in_input_range(g.position@)
}

/// Every goal of the list is in range.
pub open spec fn goals_in_range(gs: Seq<IkGoal>) -> bool {
    forall|i: int| 0 <= i < gs.len() ==> goal_in_range(#[trigger] gs[i])
}

/// Index of the joint with the given name, scanning the arena in order.
pub fn find_joint_by_name(joints: &Vec<Joint>, name: &String) -> (r: Option<usize>)
    ensures
        match r {
            Some(i) => 0 <= i < joints@.len() && joints@[i as int].name@ == name@ && (forall|
                k: int,
            |
                0 <= k < i ==> (#[trigger] joints@[k].name)@ != name@),
            None => forall|k: int| 0 <= k < joints@.len() ==> (#[trigger] joints@[k].name)@ != name@,
        },
{
    let n = joints.len();
    let mut i: usize = 0;
    while i < n
        invariant
            0 <= i <= n,
            n == joints@.len(),
            forall|k: int| 0 <= k < i ==> (#[trigger] joints@[k].name)@ != name@,
        decreases n - i,
    {
        if joints[i].name.eq(name) {
            return Some(i);
        }
        i = i + 1;
    }
    None
}

} // verus!
