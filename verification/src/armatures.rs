//! Ready-made armatures for demos and tests: a straight chain of three
//! links hanging off a fixed root.

use vstd::prelude::*;

use crate::joint::{joints_in_range, Joint};
use crate::vec::Vec3;
use crate::xform::{Rot3, Transform};

verus! {

/// Build a straight four-joint chain along +Y with link lengths
/// `3 * unit`, `2 * unit` and `1 * unit`: a fixed root at the origin, then
/// `arm_0`, `arm_1` and `hand`.  World transforms are already consistent
/// with the locals, so the arena is ready to solve.
pub fn load_chain_armature(unit: i64) -> (js: Vec<Joint>)
    requires
        0 < unit <= 174762,
    ensures
        js@.len() == 4,
        joints_in_range(js@),
        js@[0].parent is None,
        js@[1].parent == Some(0usize),
        js@[2].parent == Some(1usize),
        js@[3].parent == Some(2usize),
        js@[0].fixed,
        !js@[1].fixed && !js@[2].fixed && !js@[3].fixed,
        js@[0].name@ == "root"@,
        js@[1].name@ == "arm_0"@,
        js@[2].name@ == "arm_1"@,
        js@[3].name@ == "hand"@,
        js@[0].transform.translation@ == (0int, 0int, 0int),
        js@[1].transform.translation@ == (0int, 3 * unit as int, 0int),
        js@[2].transform.translation@ == (0int, 2 * unit as int, 0int),
        js@[3].transform.translation@ == (0int, 1 * unit as int, 0int),
        js@[0].global_transform.translation@ == (0int, 0int, 0int),
        js@[1].global_transform.translation@ == (0int, 3 * unit as int, 0int),
        js@[2].global_transform.translation@ == (0int, 5 * unit as int, 0int),
        js@[3].global_transform.translation@ == (0int, 6 * unit as int, 0int),
        forall|j: int|
            0 <= j < 4 ==> (#[trigger] js@[j]).transform.rotation == Rot3::identity_spec()
                && js@[j].global_transform.rotation == Rot3::identity_spec(),
{
    let mut js: Vec<Joint> = Vec::new();
    js.push(
        Joint {
            name: "root".to_owned(),
            fixed: true,
            parent: None,
            transform: Transform::from_translation(Vec3::new(0, 0, 0)),
            global_transform: Transform::from_translation(Vec3::new(0, 0, 0)),
        },
    );
    js.push(
        Joint {
            name: "arm_0".to_owned(),
            fixed: false,
            parent: Some(0),
            transform: Transform::from_translation(Vec3::new(0, 3 * unit, 0)),
            global_transform: Transform::from_translation(Vec3::new(0, 3 * unit, 0)),
        },
    );
    js.push(
        Joint {
            name: "arm_1".to_owned(),
            fixed: false,
            parent: Some(1),
            transform: Transform::from_translation(Vec3::new(0, 2 * unit, 0)),
            global_transform: Transform::from_translation(Vec3::new(0, 5 * unit, 0)),
        },
    );
    js.push(
        Joint {
            name: "hand".to_owned(),
            fixed: false,
            parent: Some(2),
            transform: Transform::from_translation(Vec3::new(0, 1 * unit, 0)),
            global_transform: Transform::from_translation(Vec3::new(0, 6 * unit, 0)),
        },
    );
    js
}

} // verus!
