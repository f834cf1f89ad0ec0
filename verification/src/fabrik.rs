//! The one-call pipeline: derive the armature tree, build the solver
//! context, run the FABRIK iterations, and rewrite local transforms in
//! translation mode.  Each stage is also public on its own with an exact
//! contract; this function strings them together for hosts that want a
//! single entry point per tick.

use vstd::prelude::*;

use crate::apply::{apply_joint_positions, prop_local, same_joint_but_local};
use crate::cache::{cache_ik_data, cache_consistent, chain_conflict, first_goal_error, fixed_seq, IkData};
use crate::graph::{acyclic, create_armature_tree, parents_in_range, ArmatureGraph};
use crate::joint::{goals_in_range, joints_in_range, IkGoal, Joint};
use crate::solver::{back_visited, compute_joint_positions, run_iters, views};
use crate::vec::Vec3;
use crate::{IkError, IkSettings, MAX_JOINTS};

verus! {

/// The seed positions of a solve: each joint's world translation.
pub open spec fn seed_positions(js: Seq<Joint>) -> Seq<(int, int, int)> {
    Seq::new(js.len(), |j: int| js[j].global_transform.translation@)
}

/// Everything one pipeline invocation guarantees on success, bundled over
/// the derived graph `g`, the solver context `d0` as cached (holding the
/// seed positions), and the solved positions `ps`.
pub open spec fn pipeline_post(
    js0: Seq<Joint>,
    js1: Seq<Joint>,
    goals: Seq<IkGoal>,
    settings: IkSettings,
    g: ArmatureGraph,
    d0: IkData,
    ps: Vec<Vec3>,
) -> bool {
    let solved = IkData { joint_positions: ps, ..d0 };
    &&& g.wf() && g.matches(js0)
    &&& d0.wf(g, goals) && cache_consistent(d0, g, fixed_seq(js0), goals)
    &&& first_goal_error(g, goals, 0) is None
    &&& !chain_conflict(g, fixed_seq(js0), goals)
    &&& views(d0.joint_positions@) == seed_positions(js0)
    &&& views(ps@) == run_iters(
        g,
        d0,
        goals,
        seed_positions(js0),
        settings.goal_tolerance as int,
        settings.max_iterations as nat,
    )
    &&& js1.len() == js0.len()
    &&& forall|j: int| 0 <= j < js0.len() ==> same_joint_but_local(#[trigger] js1[j], js0[j])
    &&& forall|j: int|
        0 <= j < js0.len() && back_visited(g, solved, goals, j) && !solved.is_root(j) ==> (
        #[trigger] js1[j]).transform@ == prop_local(g, solved, js0, j)
    &&& forall|j: int|
        0 <= j < js0.len() && !(back_visited(g, solved, goals, j) && !solved.is_root(j)) ==> (
        #[trigger] js1[j]).transform == js0[j].transform
}

/// Run one full IK tick: build the graph, cache the context, solve, and
/// rewrite local transforms from the solved positions (translation mode).
///
/// Configuration errors abort before any joint is touched; the previous
/// pose is retained.
pub fn apply_ik_goal(joints: &mut Vec<Joint>, goals: &Vec<IkGoal>, settings: &IkSettings) -> (r:
    Result<(), IkError>)
    requires
        joints_in_range(old(joints)@),
        goals_in_range(goals@),
        settings.wf(),
    ensures
        r is Err ==> final(joints)@ == old(joints)@,
        r == Err::<(), IkError>(IkError::TooManyJoints) <==> old(joints)@.len() > MAX_JOINTS,
        r == Err::<(), IkError>(IkError::InvalidParentIndex) <==> old(joints)@.len() <= MAX_JOINTS
            && !parents_in_range(old(joints)@),
        r == Err::<(), IkError>(IkError::CyclicHierarchy) <==> old(joints)@.len() <= MAX_JOINTS
            && parents_in_range(old(joints)@) && !acyclic(old(joints)@),
        r is Err && old(joints)@.len() <= MAX_JOINTS && parents_in_range(old(joints)@) && acyclic(
            old(joints)@,
        ) ==> exists|g: ArmatureGraph|
            g.wf() && #[trigger] g.matches(old(joints)@) && match first_goal_error(
                g,
                goals@,
                0,
            ) {
                Some(e) => r == Err::<(), IkError>(e),
                None => r == Err::<(), IkError>(IkError::GoalChainConflict) && chain_conflict(
                    g,
                    fixed_seq(old(joints)@),
                    goals@,
                ),
            },
        r is Ok ==> exists|g: ArmatureGraph, d0: IkData, ps: Vec<Vec3>|
            #[trigger] pipeline_post(old(joints)@, final(joints)@, goals@, *settings, g, d0, ps),
{
    let graph = match create_armature_tree(joints) {
        Ok(gr) => gr,
        Err(e) => {
            return Err(e);
        },
    };
    let mut data = match cache_ik_data(joints, &graph, goals) {
        Ok(dd) => dd,
        Err(e) => {
            proof {
                let g = graph;
                assert(g.wf() && g.matches(old(joints)@));
                if first_goal_error(g, goals@, 0) is Some {
                    crate::cache::lemma_first_goal_error_kind(g, goals@, 0);
                }
            }
            return Err(e);
        },
    };
    let ghost d0 = data;
    proof {
        assert forall|j: int| 0 <= j < d0.n() implies views(d0.joint_positions@)[j]
            == seed_positions(old(joints)@)[j] by {
            assert(d0.pos_of(j) == old(joints)@[j].global_transform.translation@);
        }
        assert(views(d0.joint_positions@) =~= seed_positions(old(joints)@));
    }
    compute_joint_positions(&graph, &mut data, goals, settings);
    proof {
        assert(data == IkData { joint_positions: data.joint_positions, ..d0 });
    }
    apply_joint_positions(joints, &graph, &data, goals);
    proof {
        let g = graph;
        let ps = data.joint_positions;
        assert(pipeline_post(old(joints)@, joints@, goals@, *settings, g, d0, ps));
    }
    Ok(())
}

} // verus!
