// Scenario tests on the straight three-link chain (lengths 3, 2, 1 at a
// fixed-point unit of 1000): convergence, full extension, cutoffs,
// idempotence and link-length preservation.

use fabrik::armatures::load_chain_armature;
use fabrik::cache::cache_ik_data;
use fabrik::fabrik::apply_ik_goal;
use fabrik::graph::create_armature_tree;
use fabrik::joint::IkGoal;
use fabrik::solver::compute_joint_positions;
use fabrik::apply::{apply_bone_rotations, update_world_transforms};
use fabrik::vec::Vec3;
use fabrik::IkSettings;

const UNIT: i64 = 1000;

fn settings() -> IkSettings {
    // a hundredth of a scene unit at UNIT = 1000: tolerance 10
    let s = IkSettings::default_for_unit(UNIT);
    assert_eq!(s.goal_tolerance, 10);
    assert_eq!(s.max_iterations, 100);
    s
}

fn dist(a: Vec3, b: Vec3) -> f64 {
    let dx = (a.x - b.x) as f64;
    let dy = (a.y - b.y) as f64;
    let dz = (a.z - b.z) as f64;
    (dx * dx + dy * dy + dz * dz).sqrt()
}

fn solve_chain(goal_pos: Vec3, chain_length: u32) -> Vec<Vec3> {
    let joints = load_chain_armature(UNIT);
    let graph = create_armature_tree(&joints).unwrap();
    let goals = vec![IkGoal { target_joint: 3, chain_length, position: goal_pos }];
    let mut data = cache_ik_data(&joints, &graph, &goals).unwrap();
    compute_joint_positions(&graph, &mut data, &goals, &settings());
    data.joint_positions
}

#[test]
fn reachable_goal_converges() {
    // total reach is 6 units; the goal sits at distance ~4.47 from the root
    let goal = Vec3 { x: 0, y: 4000, z: 2000 };
    let pos = solve_chain(goal, 3);
    assert!(dist(pos[3], goal) < 10.0);
    assert_eq!(pos[0], Vec3 { x: 0, y: 0, z: 0 });
}

#[test]
fn unreachable_goal_fully_extends() {
    // a goal 20 units along +Z cannot be reached; the chain straightens
    // toward it and the end joint sits at exactly the total reach
    let goal = Vec3 { x: 0, y: 0, z: 20000 };
    let pos = solve_chain(goal, 3);
    assert_eq!(pos[0], Vec3 { x: 0, y: 0, z: 0 });
    assert_eq!(pos[1], Vec3 { x: 0, y: 0, z: 3000 });
    assert_eq!(pos[2], Vec3 { x: 0, y: 0, z: 5000 });
    assert_eq!(pos[3], Vec3 { x: 0, y: 0, z: 6000 });
    let end = pos[3];
    assert_eq!(end.x * end.x + end.y * end.y + end.z * end.z, 36_000_000);
}

#[test]
fn chain_cutoff_keeps_upper_joints() {
    // chain length 1: only the hand may move; its parent becomes a
    // pseudo-root and everything above stays exactly put
    let goal = Vec3 { x: 0, y: 5500, z: 500 };
    let pos = solve_chain(goal, 1);
    assert_eq!(pos[0], Vec3 { x: 0, y: 0, z: 0 });
    assert_eq!(pos[1], Vec3 { x: 0, y: 3000, z: 0 });
    assert_eq!(pos[2], Vec3 { x: 0, y: 5000, z: 0 });
    assert_eq!(pos[3], Vec3 { x: 0, y: 5707, z: 707 });
}

#[test]
fn second_solve_changes_nothing() {
    // once converged, another full solver run is the identity
    let joints = load_chain_armature(UNIT);
    let graph = create_armature_tree(&joints).unwrap();
    let goal = Vec3 { x: 0, y: 4000, z: 2000 };
    let goals = vec![IkGoal { target_joint: 3, chain_length: 3, position: goal }];
    let mut data = cache_ik_data(&joints, &graph, &goals).unwrap();
    compute_joint_positions(&graph, &mut data, &goals, &settings());
    let first: Vec<Vec3> = data.joint_positions.clone();
    assert!(dist(first[3], goal) < 10.0);
    compute_joint_positions(&graph, &mut data, &goals, &settings());
    assert_eq!(data.joint_positions, first);
}

#[test]
fn link_lengths_preserved() {
    // every parent/child distance stays at the rigid link length, up to
    // integer rounding
    let goal = Vec3 { x: 0, y: 4000, z: 2000 };
    let pos = solve_chain(goal, 3);
    let lengths = [3000.0, 2000.0, 1000.0];
    for i in 1..4 {
        let d = dist(pos[i], pos[i - 1]);
        assert!((d - lengths[i - 1]).abs() <= 3.0, "link {} has length {}", i, d);
    }
    // on the fully extended chain the lengths are exact
    let pos = solve_chain(Vec3 { x: 0, y: 0, z: 20000 }, 3);
    assert_eq!(dist(pos[1], pos[0]), 3000.0);
    assert_eq!(dist(pos[2], pos[1]), 2000.0);
    assert_eq!(dist(pos[3], pos[2]), 1000.0);
}

#[test]
fn pipeline_translation_mode() {
    // the one-call pipeline rewrites local transforms; refreshing world
    // transforms then places the hand near the goal
    let mut joints = load_chain_armature(UNIT);
    let goal = Vec3 { x: 0, y: 4000, z: 2000 };
    let goals = vec![IkGoal { target_joint: 3, chain_length: 3, position: goal }];
    let root_local = joints[0].transform;
    apply_ik_goal(&mut joints, &goals, &settings()).unwrap();
    assert_eq!(joints[0].transform, root_local);
    let graph = create_armature_tree(&joints).unwrap();
    update_world_transforms(&mut joints, &graph);
    let hand = joints[3].global_transform.translation;
    assert!(dist(hand, goal) < 25.0, "hand ended at {:?}", hand);
}

#[test]
fn pipeline_rotation_mode() {
    // rotation-preserving propagation keeps every local translation and
    // still reconstructs the hand near the goal
    let mut joints = load_chain_armature(UNIT);
    let graph = create_armature_tree(&joints).unwrap();
    let goal = Vec3 { x: 0, y: 4000, z: 2000 };
    let goals = vec![IkGoal { target_joint: 3, chain_length: 3, position: goal }];
    let mut data = cache_ik_data(&joints, &graph, &goals).unwrap();
    compute_joint_positions(&graph, &mut data, &goals, &settings());
    let old_translations: Vec<Vec3> =
        joints.iter().map(|j| j.transform.translation).collect();
    let r = apply_bone_rotations(&mut joints, &graph, &data, &goals, 50);
    assert!(r.is_ok());
    for (i, j) in joints.iter().enumerate() {
        assert_eq!(j.transform.translation, old_translations[i]);
    }
    update_world_transforms(&mut joints, &graph);
    let hand = joints[3].global_transform.translation;
    assert!(dist(hand, goal) < 60.0, "hand ended at {:?}", hand);
}

#[test]
fn consistency_violation_is_reported() {
    // corrupting a local transform after the solve makes the
    // reconstruction checks fail loudly instead of drifting silently
    let mut joints = load_chain_armature(UNIT);
    let graph = create_armature_tree(&joints).unwrap();
    let goal = Vec3 { x: 0, y: 4000, z: 2000 };
    let goals = vec![IkGoal { target_joint: 3, chain_length: 3, position: goal }];
    let mut data = cache_ik_data(&joints, &graph, &goals).unwrap();
    compute_joint_positions(&graph, &mut data, &goals, &settings());
    joints[0].transform.translation = Vec3 { x: 9000, y: 0, z: 0 };
    let r = apply_bone_rotations(&mut joints, &graph, &data, &goals, 50);
    assert_eq!(r.unwrap_err(), fabrik::IkError::ConsistencyViolation);
}
