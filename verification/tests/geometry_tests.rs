// Unit tests for the fixed-point geometry primitives and the armature
// builder.

use fabrik::armatures::load_chain_armature;
use fabrik::graph::create_armature_tree;
use fabrik::num::{div_i64, isqrt};
use fabrik::apply::update_world_transforms;
use fabrik::vec::{dist_sq_exec, iabs, reach_toward, Vec3};
use fabrik::xform::{compose, look_at, rotation_arc, unit_of, Transform, ROT_ONE};

#[test]
fn integer_square_roots_are_floors() {
    assert_eq!(isqrt(0), 0);
    assert_eq!(isqrt(1), 1);
    assert_eq!(isqrt(2), 1);
    assert_eq!(isqrt(3), 1);
    assert_eq!(isqrt(4), 2);
    assert_eq!(isqrt(99), 9);
    assert_eq!(isqrt(100), 10);
    assert_eq!(isqrt(36_000_000), 6000);
    assert_eq!(isqrt((1u128 << 66) - 1), (1u64 << 33) - 1);
}

#[test]
fn truncating_division_rounds_toward_zero() {
    assert_eq!(div_i64(7, 2), 3);
    assert_eq!(div_i64(-7, 2), -3);
    assert_eq!(div_i64(0, 5), 0);
    assert_eq!(iabs(-9), 9);
}

#[test]
fn rigid_reach_holds_the_link_length() {
    let anchor = Vec3 { x: 0, y: 0, z: 0 };
    let toward = Vec3 { x: 0, y: 10, z: 0 };
    assert_eq!(reach_toward(&anchor, &toward, 5), Some(Vec3 { x: 0, y: 5, z: 0 }));
    // overshooting works the same way: the direction is all that matters
    assert_eq!(reach_toward(&anchor, &toward, 25), Some(Vec3 { x: 0, y: 25, z: 0 }));
    // no direction exists between coincident points
    assert_eq!(reach_toward(&anchor, &anchor, 5), None);
}

#[test]
fn squared_distance_is_exact() {
    let a = Vec3 { x: 1, y: 2, z: 3 };
    let b = Vec3 { x: 4, y: 6, z: 3 };
    assert_eq!(dist_sq_exec(&a, &b), 25);
}

#[test]
fn unit_directions_are_scaled() {
    let v = Vec3 { x: 0, y: 0, z: 777 };
    assert_eq!(unit_of(&v), Some(Vec3 { x: 0, y: 0, z: ROT_ONE }));
    assert_eq!(unit_of(&Vec3 { x: 0, y: 0, z: 0 }), None);
}

#[test]
fn identity_composition_translates() {
    let a = Transform::from_translation(Vec3 { x: 10, y: 20, z: 30 });
    let b = Transform::from_translation(Vec3 { x: 1, y: 2, z: 3 });
    let c = compose(&a, &b).unwrap();
    assert_eq!(c.translation, Vec3 { x: 11, y: 22, z: 33 });
}

#[test]
fn look_at_points_z_away_from_target() {
    let eye = Vec3 { x: 0, y: 0, z: 0 };
    let target = Vec3 { x: 0, y: 5000, z: 0 };
    let r = look_at(&eye, &target).unwrap();
    // the z axis points from the target toward the eye: along -Y
    assert_eq!(r.z_axis, Vec3 { x: 0, y: -ROT_ONE, z: 0 });
    // coincident points have no frame
    assert!(look_at(&eye, &eye).is_none());
}

#[test]
fn quarter_turn_arc_rotates_x_to_y() {
    let fx = Vec3 { x: ROT_ONE, y: 0, z: 0 };
    let fy = Vec3 { x: 0, y: ROT_ONE, z: 0 };
    let m = rotation_arc(&fx, &fy).unwrap();
    // applying the arc to +X should give roughly +Y: the x column of the
    // matrix is the image of the x basis vector
    assert!(m.x_axis.x.abs() < ROT_ONE / 50);
    assert!((m.x_axis.y - ROT_ONE).abs() < ROT_ONE / 50);
    // opposite directions have no unique arc
    let fneg = Vec3 { x: -ROT_ONE, y: 0, z: 0 };
    assert!(rotation_arc(&fx, &fneg).is_none());
}

#[test]
fn chain_armature_is_consistent() {
    let js = load_chain_armature(1000);
    assert_eq!(js.len(), 4);
    assert_eq!(js[0].name, "root");
    assert_eq!(js[3].name, "hand");
    assert!(js[0].fixed);
    assert!(!js[3].fixed);
    assert_eq!(js[3].parent, Some(2));
    assert_eq!(js[3].global_transform.translation, Vec3 { x: 0, y: 6000, z: 0 });
    // recomputing the worlds from the locals reproduces the stored worlds
    let graph = create_armature_tree(&js).unwrap();
    let mut js2 = load_chain_armature(1000);
    update_world_transforms(&mut js2, &graph);
    for i in 0..4 {
        assert_eq!(
            js2[i].global_transform.translation,
            js[i].global_transform.translation
        );
    }
}
