// Multi-goal trees and every error the pipeline can report.

use fabrik::cache::cache_ik_data;
use fabrik::fabrik::apply_ik_goal;
use fabrik::graph::create_armature_tree;
use fabrik::joint::{find_joint_by_name, IkGoal, Joint};
use fabrik::solver::compute_joint_positions;
use fabrik::vec::Vec3;
use fabrik::xform::Transform;
use fabrik::{IkError, IkSettings};

fn settings() -> IkSettings {
    IkSettings { goal_tolerance: 10, max_iterations: 100 }
}

fn dist(a: Vec3, b: Vec3) -> f64 {
    let dx = (a.x - b.x) as f64;
    let dy = (a.y - b.y) as f64;
    let dz = (a.z - b.z) as f64;
    (dx * dx + dy * dy + dz * dz).sqrt()
}

fn joint(name: &str, fixed: bool, parent: Option<usize>, local: Vec3, world: Vec3) -> Joint {
    let mut t = Transform::identity();
    t.translation = local;
    let mut w = Transform::identity();
    w.translation = world;
    Joint { name: name.to_owned(), fixed, parent, transform: t, global_transform: w }
}

/// A fixed root with two two-link arms along +X and -X.
fn two_armed_tree() -> Vec<Joint> {
    vec![
        joint("torso", true, None, Vec3 { x: 0, y: 0, z: 0 }, Vec3 { x: 0, y: 0, z: 0 }),
        joint("arm_r", false, Some(0), Vec3 { x: 2000, y: 0, z: 0 }, Vec3 {
            x: 2000,
            y: 0,
            z: 0,
        }),
        joint("hand_r", false, Some(1), Vec3 { x: 1000, y: 0, z: 0 }, Vec3 {
            x: 3000,
            y: 0,
            z: 0,
        }),
        joint("arm_l", false, Some(0), Vec3 { x: -2000, y: 0, z: 0 }, Vec3 {
            x: -2000,
            y: 0,
            z: 0,
        }),
        joint("hand_l", false, Some(3), Vec3 { x: -1000, y: 0, z: 0 }, Vec3 {
            x: -3000,
            y: 0,
            z: 0,
        }),
    ]
}

#[test]
fn two_goals_separate_branches() {
    let joints = two_armed_tree();
    let graph = create_armature_tree(&joints).unwrap();
    let g_r = Vec3 { x: 2500, y: 1000, z: 0 };
    let g_l = Vec3 { x: -2500, y: -1000, z: 0 };
    let goals = vec![
        IkGoal { target_joint: 2, chain_length: 2, position: g_r },
        IkGoal { target_joint: 4, chain_length: 2, position: g_l },
    ];
    let mut data = cache_ik_data(&joints, &graph, &goals).unwrap();
    compute_joint_positions(&graph, &mut data, &goals, &settings());
    let pos = &data.joint_positions;
    assert!(dist(pos[2], g_r) < 10.0);
    assert!(dist(pos[4], g_l) < 10.0);
    assert_eq!(pos[0], Vec3 { x: 0, y: 0, z: 0 });
}

#[test]
fn lone_goal_leaves_other_branch_untouched() {
    let joints = two_armed_tree();
    let graph = create_armature_tree(&joints).unwrap();
    let g_r = Vec3 { x: 2500, y: 1000, z: 0 };
    let goals = vec![IkGoal { target_joint: 2, chain_length: 2, position: g_r }];
    let mut data = cache_ik_data(&joints, &graph, &goals).unwrap();
    compute_joint_positions(&graph, &mut data, &goals, &settings());
    let pos = &data.joint_positions;
    assert!(dist(pos[2], g_r) < 10.0);
    // the left arm is outside the goal's chain and holds exactly
    assert_eq!(pos[3], Vec3 { x: -2000, y: 0, z: 0 });
    assert_eq!(pos[4], Vec3 { x: -3000, y: 0, z: 0 });
    assert_eq!(pos[0], Vec3 { x: 0, y: 0, z: 0 });
}

#[test]
fn last_goal_wins_shared_target() {
    let joints = two_armed_tree();
    let graph = create_armature_tree(&joints).unwrap();
    let goals = vec![
        IkGoal { target_joint: 2, chain_length: 2, position: Vec3 { x: 2500, y: 1000, z: 0 } },
        IkGoal { target_joint: 2, chain_length: 2, position: Vec3 { x: 2500, y: -1000, z: 0 } },
    ];
    let data = cache_ik_data(&joints, &graph, &goals).unwrap();
    assert_eq!(data.joints_to_goals[2], Some(1));
}

#[test]
fn invalid_parent_is_rejected() {
    let js = vec![joint("a", false, Some(7), Vec3 { x: 0, y: 0, z: 0 }, Vec3 {
        x: 0,
        y: 0,
        z: 0,
    })];
    assert_eq!(create_armature_tree(&js).unwrap_err(), IkError::InvalidParentIndex);
}

#[test]
fn cyclic_hierarchy_is_rejected() {
    let js = vec![
        joint("a", false, Some(1), Vec3 { x: 0, y: 0, z: 0 }, Vec3 { x: 0, y: 0, z: 0 }),
        joint("b", false, Some(0), Vec3 { x: 0, y: 0, z: 0 }, Vec3 { x: 0, y: 0, z: 0 }),
    ];
    assert_eq!(create_armature_tree(&js).unwrap_err(), IkError::CyclicHierarchy);
}

#[test]
fn missing_goal_target_is_rejected() {
    let joints = two_armed_tree();
    let graph = create_armature_tree(&joints).unwrap();
    let goals = vec![IkGoal {
        target_joint: 99,
        chain_length: 1,
        position: Vec3 { x: 0, y: 0, z: 0 },
    }];
    assert_eq!(cache_ik_data(&joints, &graph, &goals).unwrap_err(), IkError::MissingGoalTarget);
}

#[test]
fn zero_chain_length_is_rejected() {
    let joints = two_armed_tree();
    let graph = create_armature_tree(&joints).unwrap();
    let goals = vec![IkGoal {
        target_joint: 2,
        chain_length: 0,
        position: Vec3 { x: 0, y: 0, z: 0 },
    }];
    assert_eq!(cache_ik_data(&joints, &graph, &goals).unwrap_err(), IkError::ZeroChainLength);
}

#[test]
fn non_leaf_target_is_rejected() {
    let joints = two_armed_tree();
    let graph = create_armature_tree(&joints).unwrap();
    let goals = vec![IkGoal {
        target_joint: 1,
        chain_length: 1,
        position: Vec3 { x: 0, y: 0, z: 0 },
    }];
    assert_eq!(cache_ik_data(&joints, &graph, &goals).unwrap_err(), IkError::TargetNotLeaf);
}

#[test]
fn conflicting_cutoffs_are_rejected() {
    // the first goal makes the hand's parent a pseudo-root; the second
    // goal's longer chain runs straight through it
    let joints = fabrik::armatures::load_chain_armature(1000);
    let graph = create_armature_tree(&joints).unwrap();
    let goals = vec![
        IkGoal { target_joint: 3, chain_length: 1, position: Vec3 { x: 0, y: 5500, z: 500 } },
        IkGoal { target_joint: 3, chain_length: 3, position: Vec3 { x: 0, y: 5500, z: 500 } },
    ];
    assert_eq!(cache_ik_data(&joints, &graph, &goals).unwrap_err(), IkError::GoalChainConflict);
}

#[test]
fn oversized_arena_is_rejected() {
    let mut js: Vec<Joint> = Vec::new();
    for i in 0..1025 {
        let parent = if i == 0 { None } else { Some(i - 1) };
        js.push(joint("j", false, parent, Vec3 { x: 0, y: 1, z: 0 }, Vec3 { x: 0, y: 0, z: 0 }));
    }
    assert_eq!(create_armature_tree(&js).unwrap_err(), IkError::TooManyJoints);
}

#[test]
fn pipeline_reports_configuration_errors() {
    let mut joints = two_armed_tree();
    let goals = vec![IkGoal {
        target_joint: 99,
        chain_length: 1,
        position: Vec3 { x: 0, y: 0, z: 0 },
    }];
    let before: Vec<Vec3> = joints.iter().map(|j| j.global_transform.translation).collect();
    let r = apply_ik_goal(&mut joints, &goals, &settings());
    assert_eq!(r.unwrap_err(), IkError::MissingGoalTarget);
    let after: Vec<Vec3> = joints.iter().map(|j| j.global_transform.translation).collect();
    assert_eq!(before, after);
}

#[test]
fn find_joint_by_name_scans_in_order() {
    let joints = two_armed_tree();
    assert_eq!(find_joint_by_name(&joints, &"hand_l".to_owned()), Some(4));
    assert_eq!(find_joint_by_name(&joints, &"nonexistent".to_owned()), None);
}

#[test]
fn graph_records_depths_and_children() {
    let joints = two_armed_tree();
    let graph = create_armature_tree(&joints).unwrap();
    assert_eq!(graph.joint_depth, vec![0, 1, 2, 1, 2]);
    assert_eq!(graph.joint_parent, vec![None, Some(0), Some(1), Some(0), Some(3)]);
    assert_eq!(graph.joint_children[0], vec![1, 3]);
    assert_eq!(graph.joint_children[2], Vec::<usize>::new());
}
