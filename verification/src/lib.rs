//! A verified FABRIK (Forward And Backward Reaching Inverse Kinematics)
//! solver for hierarchical skeletons of rigid links.
//!
//! The library computes poses for a tree of joints so that selected target
//! joints reach externally supplied world-space goal positions, while every
//! rigid link keeps its length and roots, fixed joints and chain-length
//! pseudo-roots never move.
//!
//! All geometry is carried out on fixed-point integer coordinates: a caller
//! picks a unit (for example a thousandth of a scene unit) and hands in
//! positions as plain `i64` values.  This keeps every computation exact and
//! lets each stage of the pipeline carry a full functional contract.
//!
//! The pipeline has four stages, each feeding the next:
//! 1. [`graph::create_armature_tree`] derives the joint tree from the arena,
//! 2. [`cache::cache_ik_data`] derives the per-invocation solver context,
//! 3. [`solver::compute_joint_positions`] runs the iterative FABRIK passes,
//! 4. [`apply`] rewrites local transforms from the solved world positions.

use vstd::prelude::*;

pub mod num;
pub mod vec;
pub mod xform;
pub mod joint;
pub mod graph;
pub mod cache;
pub mod solver;
pub mod laws;
pub mod apply;
pub mod fabrik;
pub mod armatures;

verus! {

/// Most joints an armature may hold; keeps every intermediate sum well inside `i64`.
pub const MAX_JOINTS: usize = 1024;

/// Largest magnitude of an input coordinate (seed positions, goal targets,
/// local translations), about `2^20` fixed-point units.
pub const MAX_COORD: i64 = 1048576;

/// Largest magnitude of a working coordinate inside the solver (`2^31`).
/// Updates that would leave this range are skipped, not wrapped.
pub const MAX_POS: i64 = 2147483648;

/// Largest link length that can arise from an in-range local translation:
/// `sqrt(3) * MAX_COORD < MAX_LEN = 2^21`.
pub const MAX_LEN: i64 = 2097152;

/// Errors reported by the pipeline.  Configuration errors abort an
/// invocation before any joint is touched; the previous pose is retained.
#[derive(Clone, Copy, PartialEq, Eq, Structural, Debug)]
pub enum IkError {
    /// The arena holds more than [`MAX_JOINTS`] joints.
    TooManyJoints,
    /// A joint's parent index is out of range or points at the joint itself.
    InvalidParentIndex,
    /// Some parent chain never reaches a root: the hierarchy has a cycle.
    CyclicHierarchy,
    /// A goal references a joint index outside the arena.
    MissingGoalTarget,
    /// A goal asks for a chain of zero joints.
    ZeroChainLength,
    /// A goal's target joint is not a leaf of the armature tree.
    TargetNotLeaf,
    /// One goal's chain-length cutoff lies strictly inside another goal's
    /// chain, so the cutoff joint would have to both move and stay put.
    GoalChainConflict,
    /// Rotation-only propagation found a reconstructed world position too
    /// far from the solved one.
    ConsistencyViolation,
}

/// Default iteration cap of the solver.
pub const DEFAULT_MAX_ITERATIONS: u32 = 100;

/// Default goal tolerance, as a fraction of the fixed-point unit: a
/// hundredth of a scene unit.
pub const DEFAULT_TOLERANCE_DIVISOR: i64 = 100;

/// Solver configuration.
///
/// `goal_tolerance` is measured in fixed-point units; iteration stops as
/// soon as every goal's target joint is strictly closer than this to its
/// goal.  `max_iterations` caps the FABRIK loop; whatever positions exist
/// then are accepted as the answer.
pub struct IkSettings {
    pub goal_tolerance: i64,
    pub max_iterations: u32,
}

impl IkSettings {
    /// A well-formed configuration: a positive tolerance within the input
    /// coordinate range.
    pub open spec fn wf(self) -> bool {
        0 < self.goal_tolerance <= MAX_COORD
    }

    /// The default configuration for a scene whose fixed-point unit is
    /// `unit`: a tolerance of a hundredth of a scene unit and the default
    /// iteration cap.
    pub fn default_for_unit(unit: i64) -> (s: IkSettings)
        requires
            DEFAULT_TOLERANCE_DIVISOR <= unit <= MAX_COORD,
        ensures
            s.wf(),
            s.goal_tolerance == unit / DEFAULT_TOLERANCE_DIVISOR,
            s.max_iterations == DEFAULT_MAX_ITERATIONS,
    {
        IkSettings {
            goal_tolerance: unit / DEFAULT_TOLERANCE_DIVISOR,
            max_iterations: DEFAULT_MAX_ITERATIONS,
        }
    }
}

} // verus!
