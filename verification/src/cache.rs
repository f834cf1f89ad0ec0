//! Per-invocation solver context: which ancestor waits for which
//! descendant, which joint chases which goal, and which joints are roots.
//!
//! For every goal the cache walks up the tree from the goal's target joint
//! for at most `chain_length` steps.  Each visited joint becomes a required
//! dependency of its parent; the walk ends at a true root, at a fixed
//! parent, or at the chain-length cutoff, and that last joint joins the
//! root set, which the solver never moves.

use vstd::prelude::*;

use crate::graph::ArmatureGraph;
use crate::joint::{joints_in_range, IkGoal, Joint};
use crate::num::{isqrt, sqrt_nat};
use crate::vec::{dist_sq_exec, in_input_range, in_work_range, norm_sq, Vec3};
use crate::{IkError, MAX_LEN};

verus! {

/// The `fixed` flag of each joint of the arena.
pub open spec fn fixed_seq(js: Seq<Joint>) -> Seq<bool> {
    js.map(|i: int, j: Joint| j.fixed)
}

/// The (parent, child) dependency pairs recorded by one goal's chain walk,
/// starting at joint `j` with `k` remaining parent steps.  The pair is
/// recorded before the fixed check, so a fixed parent still learns about
/// its child; the walk just stops there.
pub open spec fn walk_adds(g: ArmatureGraph, fixed: Seq<bool>, j: int, k: nat) -> Seq<(int, int)>
    decreases k,
{
    if k == 0 {
        Seq::empty()
    } else {
        match g.parent_of(j) {
            None => Seq::empty(),
            Some(p) => seq![(p as int, j)] + (if fixed[p as int] {
                Seq::empty()
            } else {
                walk_adds(g, fixed, p as int, (k - 1) as nat)
            }),
        }
    }
}

/// Every pair a walk records joins a joint to its real parent.
pub proof fn lemma_walk_adds_range(g: ArmatureGraph, fixed: Seq<bool>, j: int, k: nat)
    requires
        g.wf(),
        0 <= j < g.n(),
    ensures
        forall|i: int|
            0 <= i < walk_adds(g, fixed, j, k).len() ==> {
                let pair = #[trigger] walk_adds(g, fixed, j, k)[i];
                &&& 0 <= pair.0 < g.n()
                &&& 0 <= pair.1 < g.n()
                &&& g.parent_of(pair.1) == Some(pair.0 as usize)
            },
    decreases k,
{
    if k > 0 {
        match g.parent_of(j) {
            None => {},
            Some(p) => {
                if !fixed[p as int] {
                    lemma_walk_adds_range(g, fixed, p as int, (k - 1) as nat);
                }
            },
        }
    }
}

/// A duplicate-free sequence of indices below `n` has at most `n` entries.
pub proof fn lemma_distinct_indices_bounded(s: Seq<usize>, n: int)
    requires
        n >= 0,
        forall|i: int| 0 <= i < s.len() ==> (#[trigger] s[i]) < n,
        forall|i: int, k: int| 0 <= i < k < s.len() ==> s[i] != s[k],
    ensures
        s.len() <= n,
{
    let si = Seq::new(s.len(), |i: int| s[i] as int);
    assert(si.no_duplicates());
    si.unique_seq_to_set();
    assert(si.to_set().subset_of(vstd::set_lib::set_int_range(0, n))) by {
        assert forall|x: int| si.to_set().contains(x) implies vstd::set_lib::set_int_range(
            0,
            n,
        ).contains(x) by {
            let i = choose|i: int| 0 <= i < si.len() && si[i] == x;
        }
    }
    vstd::set_lib::lemma_int_range(0, n);
    vstd::set_lib::lemma_len_subset(si.to_set(), vstd::set_lib::set_int_range(0, n));
}

/// A walk that records a dependency pair `(p, c)` either also records
/// `p`'s own dependency on its parent, or ends with `p` as its root.
pub proof fn lemma_walk_pair_parent(g: ArmatureGraph, fixed: Seq<bool>, t: int, k: nat)
    requires
        g.wf(),
        0 <= t < g.n(),
        k >= 1,
    ensures
        forall|i: int|
            0 <= i < walk_adds(g, fixed, t, k).len() ==> {
                let pr = #[trigger] walk_adds(g, fixed, t, k)[i];
                walk_root(g, fixed, t, k) == pr.0 || (g.parent_of(pr.0) is Some && walk_adds(
                    g,
                    fixed,
                    t,
                    k,
                ).contains((g.parent_of(pr.0)->Some_0 as int, pr.0)))
            },
    decreases k,
{
    let pairs = walk_adds(g, fixed, t, k);
    match g.parent_of(t) {
        None => {},
        Some(p) => {
            if fixed[p as int] || k == 1 {
                if !fixed[p as int] {
                    assert(walk_adds(g, fixed, p as int, (k - 1) as nat) =~= Seq::<(int, int)>::empty());
                }
                assert(walk_root(g, fixed, t, k) == p as int);
                assert(pairs.len() == 1);
                assert(pairs[0] == (p as int, t));
            } else {
                let rest = walk_adds(g, fixed, p as int, (k - 1) as nat);
                lemma_walk_pair_parent(g, fixed, p as int, (k - 1) as nat);
                assert(pairs =~= seq![(p as int, t)] + rest);
                assert(walk_root(g, fixed, t, k) == walk_root(g, fixed, p as int, (k - 1) as nat));
                assert forall|i: int| 0 <= i < pairs.len() implies {
                    let pr = #[trigger] pairs[i];
                    walk_root(g, fixed, t, k) == pr.0 || (g.parent_of(pr.0) is Some && pairs.contains(
                        (g.parent_of(pr.0)->Some_0 as int, pr.0),
                    ))
                } by {
                    if i == 0 {
                        match g.parent_of(p as int) {
                            None => {
                                assert(walk_root(g, fixed, p as int, (k - 1) as nat) == p as int);
                            },
                            Some(pp) => {
                                assert(rest[0] == (pp as int, p as int));
                                assert(pairs[1] == (pp as int, p as int));
                                assert(pairs.contains((pp as int, p as int)));
                            },
                        }
                    } else {
                        let pr = pairs[i];
                        assert(rest[i - 1] == pr);
                        assert(rest.contains(pr));
                        if !(walk_root(g, fixed, p as int, (k - 1) as nat) == pr.0) {
                            let i2 = choose|i2: int|
                                0 <= i2 < rest.len() && rest[i2] == (
                                g.parent_of(pr.0)->Some_0 as int, pr.0);
                            assert(pairs[i2 + 1] == (g.parent_of(pr.0)->Some_0 as int, pr.0));
                            assert(pairs.contains((g.parent_of(pr.0)->Some_0 as int, pr.0)));
                        }
                    }
                }
            }
        },
    }
}

/// The root recorded by one goal's chain walk from joint `j` with `k`
/// remaining steps (`k >= 1`): the first parentless joint, the first fixed
/// parent, or the joint reached when the budget runs out.
pub open spec fn walk_root(g: ArmatureGraph, fixed: Seq<bool>, j: int, k: nat) -> int
    decreases k,
{
    match g.parent_of(j) {
        None => j,
        Some(p) => if fixed[p as int] {
            p as int
        } else if k <= 1 {
            p as int
        } else {
            walk_root(g, fixed, p as int, (k - 1) as nat)
        },
    }
}

/// The goal that drives joint `j`: the last goal in the list targeting it,
/// mirroring map insertion in goal order.
pub open spec fn goal_index_of(goals: Seq<IkGoal>, j: int) -> Option<int>
    decreases goals.len(),
{
    if goals.len() == 0 {
        None
    } else if goals.last().target_joint == j {
        Some(goals.len() - 1)
    } else {
        goal_index_of(goals.drop_last(), j)
    }
}

/// `goal_index_of` finds a goal that really targets `j`.
pub proof fn lemma_goal_index_of_some(goals: Seq<IkGoal>, j: int)
    requires
        goal_index_of(goals, j) is Some,
    ensures
        0 <= goal_index_of(goals, j)->Some_0 < goals.len(),
        goals[goal_index_of(goals, j)->Some_0].target_joint == j,
    decreases goals.len(),
{
    if goals.len() > 0 && goals.last().target_joint != j {
        lemma_goal_index_of_some(goals.drop_last(), j);
    }
}

/// Every goal's target joint is mapped to some goal.
pub proof fn lemma_goal_index_of_covers(goals: Seq<IkGoal>, gi: int)
    requires
        0 <= gi < goals.len(),
    ensures
        goal_index_of(goals, goals[gi].target_joint as int) is Some,
    decreases goals.len(),
{
    if goals.len() - 1 != gi && goals.last().target_joint != goals[gi].target_joint {
        assert(goals.drop_last()[gi] == goals[gi]);
        lemma_goal_index_of_covers(goals.drop_last(), gi);
    }
}

/// The configuration problem of goal `gi`, if it has one.
pub open spec fn goal_error(g: ArmatureGraph, goals: Seq<IkGoal>, gi: int) -> Option<IkError> {
    if goals[gi].target_joint as int >= g.n() {
        Some(IkError::MissingGoalTarget)
    } else if goals[gi].chain_length == 0 {
        Some(IkError::ZeroChainLength)
    } else if g.children_of(goals[gi].target_joint as int).len() > 0 {
        Some(IkError::TargetNotLeaf)
    } else {
        None
    }
}

/// The first configuration problem among goals `i..`, scanning in order.
pub open spec fn first_goal_error(g: ArmatureGraph, goals: Seq<IkGoal>, i: int) -> Option<IkError>
    decreases goals.len() - i,
{
    if i < 0 || i >= goals.len() {
        None
    } else {
        match goal_error(g, goals, i) {
            Some(e) => Some(e),
            None => first_goal_error(g, goals, i + 1),
        }
    }
}

/// The first goal error, when present, is one of the three goal problems.
pub proof fn lemma_first_goal_error_kind(g: ArmatureGraph, goals: Seq<IkGoal>, i: int)
    requires
        first_goal_error(g, goals, i) is Some,
    ensures
        first_goal_error(g, goals, i) == Some(IkError::MissingGoalTarget) || first_goal_error(
            g,
            goals,
            i,
        ) == Some(IkError::ZeroChainLength) || first_goal_error(g, goals, i) == Some(
            IkError::TargetNotLeaf,
        ),
    decreases goals.len() - i,
{
    if 0 <= i < goals.len() {
        if goal_error(g, goals, i) is None {
            lemma_first_goal_error_kind(g, goals, i + 1);
        }
    }
}

/// One goal's chain-length cutoff lies strictly inside another goal's
/// chain: the cutoff joint is a root yet some walk records it as a
/// dependency of its parent, which the forward pass could never satisfy.
pub open spec fn chain_conflict(g: ArmatureGraph, fixed: Seq<bool>, goals: Seq<IkGoal>) -> bool {
    exists|gi: int, gj: int, p: int|
        0 <= gi < goals.len() && 0 <= gj < goals.len() && #[trigger] walk_adds(
            g,
            fixed,
            goals[gj].target_joint as int,
            goals[gj].chain_length as nat,
        ).contains(
            (p, walk_root(g, fixed, goals[gi].target_joint as int, goals[gi].chain_length as nat)),
        )
}

/// The solver context, rebuilt in full on every pipeline invocation.
#[derive(Debug)]
pub struct IkData {
    /// Current world position of each joint; seeded from the world
    /// transforms, replaced by each FABRIK iteration.
    pub joint_positions: Vec<Vec3>,
    /// Rigid link length between each joint and its parent, derived from
    /// the local translation.
    pub link_lengths: Vec<i64>,
    /// For each joint, the children whose solved positions it must wait
    /// for in the forward pass, in the order the walks recorded them.
    pub required_positions: Vec<Vec<usize>>,
    /// For each joint, the goal that targets it.
    pub joints_to_goals: Vec<Option<usize>>,
    /// Joints that must not move: true roots, fixed parents, cutoffs.
    pub roots: Vec<bool>,
}

impl IkData {
    /// Number of joints.
    pub open spec fn n(self) -> int {
        self.joint_positions@.len() as int
    }

    /// Required children of joint `j`.
    pub open spec fn required_of(self, j: int) -> Seq<usize> {
        self.required_positions@[j]@
    }

    /// Goal driving joint `j`, if any.
    pub open spec fn goal_of(self, j: int) -> Option<usize> {
        self.joints_to_goals@[j]
    }

    /// Joint `j` is some goal's target.
    pub open spec fn is_target(self, j: int) -> bool {
        self.goal_of(j) is Some
    }

    /// Joint `j` must not move.
    pub open spec fn is_root(self, j: int) -> bool {
        self.roots@[j]
    }

    /// Current position of joint `j`.
    pub open spec fn pos_of(self, j: int) -> (int, int, int) {
        self.joint_positions@[j]@
    }

    /// Link length between joint `j` and its parent.
    pub open spec fn len_of(self, j: int) -> int {
        self.link_lengths@[j] as int
    }

    /// Joint `j` is recorded as a required child of some joint.
    pub open spec fn is_required_child(self, c: int) -> bool {
        exists|p: int| 0 <= p < self.n() && (#[trigger] self.required_of(p)).contains(c as usize)
    }

    /// Joint `j` takes part in some goal's chain: it is a target, waits
    /// for a dependency, or is itself a dependency.  Joints outside this
    /// set are never written by the solver.
    pub open spec fn influenced(self, j: int) -> bool {
        self.is_target(j) || self.required_of(j).len() > 0 || self.is_required_child(j)
    }

    /// Everything the solver relies on: sizes agree, dependencies point at
    /// real children, no dependency is a root, dependency chains bottom
    /// out at targets, targets are leaves, and all numbers are in range.
    pub open spec fn wf(self, g: ArmatureGraph, goals: Seq<IkGoal>) -> bool {
        let n = self.n();
        &&& n == g.n()
        &&& self.link_lengths@.len() == n
        &&& self.required_positions@.len() == n
        &&& self.joints_to_goals@.len() == n
        &&& self.roots@.len() == n
        &&& forall|j: int, k: int|
            0 <= j < n && 0 <= k < self.required_of(j).len() ==> (#[trigger] self.required_of(j)[k])
                < n && g.parent_of(self.required_of(j)[k] as int) == Some(j as usize)
        &&& forall|j: int, k1: int, k2: int|
            0 <= j < n && 0 <= k1 < k2 < self.required_of(j).len() ==> self.required_of(j)[k1]
                != self.required_of(j)[k2]
        &&& forall|j: int, k: int|
            0 <= j < n && 0 <= k < self.required_of(j).len() ==> !self.is_root(
                (#[trigger] self.required_of(j)[k]) as int,
            )
        &&& forall|j: int, k: int|
            0 <= j < n && 0 <= k < self.required_of(j).len() ==> self.is_target(
                (#[trigger] self.required_of(j)[k]) as int,
            ) || self.required_of(self.required_of(j)[k] as int).len() > 0
        &&& forall|j: int|
            0 <= j < n ==> match #[trigger] self.goal_of(j) {
                Some(gi) => gi < goals.len() && goals[gi as int].target_joint == j,
                None => true,
            }
        &&& forall|gi: int|
            0 <= gi < goals.len() ==> (#[trigger] goals[gi].target_joint) < n && self.is_target(
                goals[gi].target_joint as int,
            ) && goals[gi].chain_length >= 1
        &&& forall|j: int|
            0 <= j < n && #[trigger] self.is_target(j) ==> self.required_of(j).len() == 0
        &&& forall|j: int| 0 <= j < n ==> (#[trigger] self.required_of(j)).len() <= n
        &&& forall|j: int|
            0 <= j < n && #[trigger] self.influenced(j) && !self.is_root(j) && g.parent_of(
                j,
            ) is Some ==> self.required_of(g.parent_of(j)->Some_0 as int).contains(j as usize)
        &&& forall|j: int| 0 <= j < n ==> in_work_range(#[trigger] self.pos_of(j))
        &&& forall|j: int| 0 <= j < n ==> 0 <= #[trigger] self.len_of(j) <= MAX_LEN
        &&& forall|j: int| 0 <= j < n && #[trigger] self.is_root(j) ==> self.influenced(j)
    }
}


/// The context really is what the chain walks of these goals produce:
/// dependencies are exactly the recorded walk pairs, roots are exactly the
/// walk roots, and the goal map follows goal order with the last goal
/// winning.
pub open spec fn cache_consistent(
    d: IkData,
    g: ArmatureGraph,
    fixed: Seq<bool>,
    goals: Seq<IkGoal>,
) -> bool {
    &&& forall|p: int, c: int|
        0 <= p < d.n() && 0 <= c < d.n() ==> ((#[trigger] d.required_of(p).contains(c as usize))
            <==> exists|gi: int|
            0 <= gi < goals.len() && #[trigger] walk_adds(
                g,
                fixed,
                goals[gi].target_joint as int,
                goals[gi].chain_length as nat,
            ).contains((p, c)))
    &&& forall|j: int|
        0 <= j < d.n() ==> (#[trigger] d.is_root(j) <==> exists|gi: int|
            0 <= gi < goals.len() && #[trigger] walk_root(
                g,
                fixed,
                goals[gi].target_joint as int,
                goals[gi].chain_length as nat,
            ) == j)
    &&& forall|j: int|
        0 <= j < d.n() ==> match goal_index_of(goals, j) {
            Some(gi) => #[trigger] d.goal_of(j) == Some(gi as usize),
            None => d.goal_of(j) is None,
        }
}

/// Linear scan for membership in a dependency list.
pub fn required_contains(v: &Vec<usize>, x: usize) -> (b: bool)
    ensures
        b == v@.contains(x),
{
    let mut i: usize = 0;
    while i < v.len()
        invariant
            0 <= i <= v@.len(),
            forall|k: int| 0 <= k < i ==> v@[k] != x,
        decreases v@.len() - i,
    {
        if v[i] == x {
            return true;
        }
        i = i + 1;
    }
    false
}

/// Scan for a dependency that is also a root.
fn find_conflict(required_positions: &Vec<Vec<usize>>, roots: &Vec<bool>) -> (b: bool)
    requires
        required_positions@.len() == roots@.len(),
        forall|p: int, k: int|
            0 <= p < required_positions@.len() && 0 <= k < required_positions@[p]@.len() ==> (
            #[trigger] required_positions@[p]@[k]) < roots@.len(),
    ensures
        b <==> exists|p: int, k: int|
            0 <= p < required_positions@.len() && 0 <= k < required_positions@[p]@.len() && roots@[(
            #[trigger] required_positions@[p]@[k]) as int],
{
    let n = required_positions.len();
    let mut j: usize = 0;
    while j < n
        invariant
            0 <= j <= n,
            n == required_positions@.len(),
            n == roots@.len(),
            forall|p: int, k: int|
                0 <= p < n && 0 <= k < required_positions@[p]@.len() ==> (
                #[trigger] required_positions@[p]@[k]) < n,
            forall|p: int, k: int|
                0 <= p < j && 0 <= k < required_positions@[p]@.len() ==> !roots@[(
                #[trigger] required_positions@[p]@[k]) as int],
        decreases n - j,
    {
        let reqs_len = required_positions[j].len();
        let mut k: usize = 0;
        while k < reqs_len
            invariant
                0 <= k <= reqs_len,
                0 <= j < n,
                n == required_positions@.len(),
                n == roots@.len(),
                reqs_len == required_positions@[j as int]@.len(),
                forall|p: int, k2: int|
                    0 <= p < n && 0 <= k2 < required_positions@[p]@.len() ==> (
                    #[trigger] required_positions@[p]@[k2]) < n,
                forall|k2: int|
                    0 <= k2 < k ==> !roots@[(#[trigger] required_positions@[j as int]@[k2]) as int],
            decreases reqs_len - k,
        {
            let c = required_positions[j][k];
            if roots[c] {
                return true;
            }
            k = k + 1;
        }
        j = j + 1;
    }
    false
}

/// Build the solver context for this invocation.
///
/// Validates every goal first (existing target, positive chain length,
/// leaf target), then records the chain walks, and finally rejects
/// configurations where one goal's cutoff root sits inside another goal's
/// chain.  On any error the previous pose is untouched.
pub fn cache_ik_data(joints: &Vec<Joint>, graph: &ArmatureGraph, goals: &Vec<IkGoal>) -> (r: Result<
    IkData,
    IkError,
>)
    requires
        graph.wf(),
        graph.matches(joints@),
        joints_in_range(joints@),
    ensures
        r is Err <==> first_goal_error(*graph, goals@, 0) is Some || chain_conflict(
            *graph,
            fixed_seq(joints@),
            goals@,
        ),
        r is Err ==> match first_goal_error(*graph, goals@, 0) {
            Some(e) => r == Err::<IkData, IkError>(e),
            None => r == Err::<IkData, IkError>(IkError::GoalChainConflict),
        },
        r matches Ok(d) ==> {
            &&& d.wf(*graph, goals@)
            &&& cache_consistent(d, *graph, fixed_seq(joints@), goals@)
            &&& forall|j: int|
                0 <= j < d.n() ==> #[trigger] d.pos_of(j)
                    == joints@[j].global_transform.translation@ && in_input_range(d.pos_of(j))
            &&& forall|j: int|
                0 <= j < d.n() ==> #[trigger] d.len_of(j) == sqrt_nat(
                    norm_sq(joints@[j].transform.translation@) as nat,
                )
        },
{
    let n = joints.len();
    let ghost g = *graph;
    let ghost fx = fixed_seq(joints@);

    // Goal validation and the joint-to-goal map, last goal winning.
    let mut joints_to_goals: Vec<Option<usize>> = Vec::new();
    let mut j: usize = 0;
    while j < n
        invariant
            joints_to_goals@.len() == j <= n,
            forall|i: int| 0 <= i < j ==> #[trigger] joints_to_goals@[i] is None,
        decreases n - j,
    {
        joints_to_goals.push(None);
        j = j + 1;
    }
    let mut gi: usize = 0;
    while gi < goals.len()
        invariant
            0 <= gi <= goals@.len(),
            n == joints@.len(),
            n == g.n(),
            g == *graph,
            g.wf(),
            joints_to_goals@.len() == n,
            first_goal_error(g, goals@, 0) == first_goal_error(g, goals@, gi as int),
            forall|i: int| 0 <= i < gi ==> #[trigger] goal_error(g, goals@, i) is None,
            forall|j2: int|
                0 <= j2 < n ==> match goal_index_of(goals@.subrange(0, gi as int), j2) {
                    Some(k) => #[trigger] joints_to_goals@[j2] == Some(k as usize),
                    None => joints_to_goals@[j2] is None,
                },
        decreases goals@.len() - gi,
    {
        let goal = goals[gi];
        if goal.target_joint >= n {
            assert(goal_error(g, goals@, gi as int) == Some(IkError::MissingGoalTarget));
            return Err(IkError::MissingGoalTarget);
        }
        if goal.chain_length == 0 {
            assert(goal_error(g, goals@, gi as int) == Some(IkError::ZeroChainLength));
            return Err(IkError::ZeroChainLength);
        }
        if graph.joint_children[goal.target_joint].len() > 0 {
            assert(goal_error(g, goals@, gi as int) == Some(IkError::TargetNotLeaf));
            return Err(IkError::TargetNotLeaf);
        }
        joints_to_goals[goal.target_joint] = Some(gi);
        proof {
            let pre = goals@.subrange(0, gi as int);
            let post = goals@.subrange(0, gi + 1);
            assert(post.drop_last() =~= pre);
            assert(post.last() == goals@[gi as int]);
            assert forall|j2: int| 0 <= j2 < n implies match goal_index_of(post, j2) {
                Some(k) => #[trigger] joints_to_goals@[j2] == Some(k as usize),
                None => joints_to_goals@[j2] is None,
            } by {
                if goals@[gi as int].target_joint == j2 {
                    assert(goal_index_of(post, j2) == Some(gi as int));
                } else {
                    assert(goal_index_of(post, j2) == goal_index_of(pre, j2));
                }
            }
        }
        gi = gi + 1;
    }
    proof {
        assert(goals@.subrange(0, goals@.len() as int) =~= goals@);
    }

    // The chain walks.
    let mut required_positions: Vec<Vec<usize>> = Vec::new();
    let mut j: usize = 0;
    while j < n
        invariant
            required_positions@.len() == j <= n,
            forall|i: int| 0 <= i < j ==> (#[trigger] required_positions@[i])@.len() == 0,
        decreases n - j,
    {
        required_positions.push(Vec::new());
        j = j + 1;
    }
    let mut roots: Vec<bool> = Vec::new();
    let mut j: usize = 0;
    while j < n
        invariant
            roots@.len() == j <= n,
            forall|i: int| 0 <= i < j ==> !(#[trigger] roots@[i]),
        decreases n - j,
    {
        roots.push(false);
        j = j + 1;
    }

    let mut gi: usize = 0;
    while gi < goals.len()
        invariant
            0 <= gi <= goals@.len(),
            n == joints@.len(),
            n == g.n(),
            g == *graph,
            g.wf(),
            g.matches(joints@),
            fx == fixed_seq(joints@),
            first_goal_error(g, goals@, 0) is None,
            joints_to_goals@.len() == n,
            required_positions@.len() == n,
            roots@.len() == n,
            forall|i: int| 0 <= i < goals@.len() ==> #[trigger] goal_error(g, goals@, i) is None,
            forall|j2: int|
                0 <= j2 < n ==> match goal_index_of(goals@, j2) {
                    Some(k) => #[trigger] joints_to_goals@[j2] == Some(k as usize),
                    None => joints_to_goals@[j2] is None,
                },
            forall|p: int, k: int|
                0 <= p < n && 0 <= k < required_positions@[p]@.len() ==> (
                #[trigger] required_positions@[p]@[k]) < n && g.parent_of(
                    required_positions@[p]@[k] as int,
                ) == Some(p as usize),
            forall|p: int, k1: int, k2: int|
                0 <= p < n && 0 <= k1 < k2 < required_positions@[p]@.len()
                    ==> required_positions@[p]@[k1] != required_positions@[p]@[k2],
            forall|p: int, k: int|
                0 <= p < n && 0 <= k < required_positions@[p]@.len() ==> joints_to_goals@[(
                #[trigger] required_positions@[p]@[k]) as int] is Some || required_positions@[required_positions@[p]@[k] as int]@.len()
                    > 0,
            forall|j2: int|
                0 <= j2 < n && #[trigger] joints_to_goals@[j2] is Some
                    ==> required_positions@[j2]@.len() == 0,
            forall|p: int, c: int|
                0 <= p < n && 0 <= c < n ==> ((#[trigger] required_positions@[p]@.contains(
                    c as usize,
                )) <==> exists|gk: int|
                    0 <= gk < gi && #[trigger] walk_adds(
                        g,
                        fx,
                        goals@[gk].target_joint as int,
                        goals@[gk].chain_length as nat,
                    ).contains((p, c))),
            forall|rj: int|
                0 <= rj < n ==> ((#[trigger] roots@[rj]) <==> exists|gk: int|
                    0 <= gk < gi && #[trigger] walk_root(
                        g,
                        fx,
                        goals@[gk].target_joint as int,
                        goals@[gk].chain_length as nat,
                    ) == rj),
            forall|rj: int|
                0 <= rj < n && #[trigger] roots@[rj] ==> joints_to_goals@[rj] is Some
                    || required_positions@[rj]@.len() > 0,
        decreases goals@.len() - gi,
    {
        let goal = goals[gi];
        let target = goal.target_joint;
        let ghost total_pairs = walk_adds(g, fx, target as int, goal.chain_length as nat);
        let ghost goal_root = walk_root(g, fx, target as int, goal.chain_length as nat);
        assert(goal_error(g, goals@, gi as int) is None);
        assert(goal_index_of(goals@, target as int) is Some) by {
            lemma_goal_index_of_covers(goals@, gi as int);
        }

        let mut cur: usize = target;
        let mut k: u32 = goal.chain_length;
        let ghost mut prefix: Seq<(int, int)> = Seq::empty();

        loop
            invariant_except_break
                n == joints@.len(),
                n == g.n(),
                g == *graph,
                g.wf(),
                g.matches(joints@),
                fx == fixed_seq(joints@),
                joints_to_goals@.len() == n,
                required_positions@.len() == n,
                roots@.len() == n,
                0 <= cur < n,
                1 <= k <= goal.chain_length,
                gi < goals@.len(),
                goal == goals@[gi as int],
                target == goal.target_joint,
                goal_index_of(goals@, target as int) is Some,
                total_pairs == prefix + walk_adds(g, fx, cur as int, k as nat),
                goal_root == walk_root(g, fx, cur as int, k as nat),
                prefix.len() == 0 ==> cur == target,
                prefix.len() > 0 ==> prefix.last().0 == cur as int && 0 <= prefix.last().1 < n,
                forall|j2: int|
                    0 <= j2 < n ==> match goal_index_of(goals@, j2) {
                        Some(kk) => #[trigger] joints_to_goals@[j2] == Some(kk as usize),
                        None => joints_to_goals@[j2] is None,
                    },
                forall|i: int| 0 <= i < goals@.len() ==> #[trigger] goal_error(g, goals@, i) is None,
                forall|p: int, k2: int|
                    0 <= p < n && 0 <= k2 < required_positions@[p]@.len() ==> (
                    #[trigger] required_positions@[p]@[k2]) < n && g.parent_of(
                        required_positions@[p]@[k2] as int,
                    ) == Some(p as usize),
                forall|p: int, k1: int, k2: int|
                    0 <= p < n && 0 <= k1 < k2 < required_positions@[p]@.len()
                        ==> required_positions@[p]@[k1] != required_positions@[p]@[k2],
                forall|p: int, k2: int|
                    0 <= p < n && 0 <= k2 < required_positions@[p]@.len() ==> joints_to_goals@[(
                    #[trigger] required_positions@[p]@[k2]) as int] is Some
                        || required_positions@[required_positions@[p]@[k2] as int]@.len() > 0,
                forall|j2: int|
                    0 <= j2 < n && #[trigger] joints_to_goals@[j2] is Some
                        ==> required_positions@[j2]@.len() == 0,
                forall|p: int, c: int|
                    0 <= p < n && 0 <= c < n ==> ((#[trigger] required_positions@[p]@.contains(
                        c as usize,
                    )) <==> (exists|gk: int|
                        0 <= gk < gi && #[trigger] walk_adds(
                            g,
                            fx,
                            goals@[gk].target_joint as int,
                            goals@[gk].chain_length as nat,
                        ).contains((p, c))) || prefix.contains((p, c))),
                forall|rj: int|
                    0 <= rj < n ==> ((#[trigger] roots@[rj]) <==> exists|gk: int|
                        0 <= gk < gi && #[trigger] walk_root(
                            g,
                            fx,
                            goals@[gk].target_joint as int,
                            goals@[gk].chain_length as nat,
                        ) == rj),
                forall|rj: int|
                    0 <= rj < n && #[trigger] roots@[rj] ==> joints_to_goals@[rj] is Some
                        || required_positions@[rj]@.len() > 0,
            ensures
                n == joints@.len(),
                joints_to_goals@.len() == n,
                required_positions@.len() == n,
                roots@.len() == n,
                forall|j2: int|
                    0 <= j2 < n ==> match goal_index_of(goals@, j2) {
                        Some(kk) => #[trigger] joints_to_goals@[j2] == Some(kk as usize),
                        None => joints_to_goals@[j2] is None,
                    },
                forall|p: int, k2: int|
                    0 <= p < n && 0 <= k2 < required_positions@[p]@.len() ==> (
                    #[trigger] required_positions@[p]@[k2]) < n && g.parent_of(
                        required_positions@[p]@[k2] as int,
                    ) == Some(p as usize),
                forall|p: int, k1: int, k2: int|
                    0 <= p < n && 0 <= k1 < k2 < required_positions@[p]@.len()
                        ==> required_positions@[p]@[k1] != required_positions@[p]@[k2],
                forall|p: int, k2: int|
                    0 <= p < n && 0 <= k2 < required_positions@[p]@.len() ==> joints_to_goals@[(
                    #[trigger] required_positions@[p]@[k2]) as int] is Some
                        || required_positions@[required_positions@[p]@[k2] as int]@.len() > 0,
                forall|j2: int|
                    0 <= j2 < n && #[trigger] joints_to_goals@[j2] is Some
                        ==> required_positions@[j2]@.len() == 0,
                forall|p: int, c: int|
                    0 <= p < n && 0 <= c < n ==> ((#[trigger] required_positions@[p]@.contains(
                        c as usize,
                    )) <==> (exists|gk: int|
                        0 <= gk < gi && #[trigger] walk_adds(
                            g,
                            fx,
                            goals@[gk].target_joint as int,
                            goals@[gk].chain_length as nat,
                        ).contains((p, c))) || total_pairs.contains((p, c))),
                forall|rj: int|
                    0 <= rj < n ==> ((#[trigger] roots@[rj]) <==> (exists|gk: int|
                        0 <= gk < gi && #[trigger] walk_root(
                            g,
                            fx,
                            goals@[gk].target_joint as int,
                            goals@[gk].chain_length as nat,
                        ) == rj) || goal_root == rj),
                forall|rj: int|
                    0 <= rj < n && #[trigger] roots@[rj] ==> joints_to_goals@[rj] is Some
                        || required_positions@[rj]@.len() > 0,
            decreases k,
        {
            let parent = joints[cur].parent;
            proof {
                assert(g.parent_of(cur as int) == joints@[cur as int].parent);
            }
            match parent {
                None => {
                    // True root: record it and stop this goal's walk.
                    assert(walk_adds(g, fx, cur as int, k as nat) =~= Seq::<(int, int)>::empty());
                    assert(total_pairs =~= prefix);
                    assert(goal_root == cur as int);
                    assert(joints_to_goals@[cur as int] is Some || required_positions@[cur as int]@.len()
                        > 0) by {
                        if prefix.len() == 0 {
                        } else {
                            let last = prefix.last();
                            assert(prefix.contains(last));
                            assert(required_positions@[cur as int]@.contains(last.1 as usize));
                        }
                    }
                    roots[cur] = true;
                    break ;
                },
                Some(p) => {
                    assert(p < n && p != cur);
                    // Record the dependency of the parent on the walked joint.
                    let ghost old_req = required_positions@;
                    let already = required_contains(&required_positions[p], cur);
                    if !already {
                        assert(joints_to_goals@[p as int] is None) by {
                            if joints_to_goals@[p as int] is Some {
                                assert(goal_index_of(goals@, p as int) is Some);
                                lemma_goal_index_of_some(goals@, p as int);
                                let gk = goal_index_of(goals@, p as int)->Some_0;
                                assert(goal_error(g, goals@, gk) is None);
                                assert(g.children_of(p as int).len() == 0);
                                assert(g.children_of(p as int).contains(cur));
                            }
                        }
                        assert(joints_to_goals@[cur as int] is Some || required_positions@[
                        cur as int]@.len() > 0) by {
                            if prefix.len() > 0 {
                                let last = prefix.last();
                                assert(prefix.contains(last));
                                assert(required_positions@[cur as int]@.contains(last.1 as usize));
                            }
                        }
                        required_positions[p].push(cur);
                        proof {
                            assert(required_positions@[p as int]@ =~= old_req[p as int]@.push(cur));
                            assert forall|pp: int, k2: int|
                                0 <= pp < n && 0 <= k2 < required_positions@[pp]@.len() implies (
                            #[trigger] required_positions@[pp]@[k2]) < n && g.parent_of(
                                required_positions@[pp]@[k2] as int,
                            ) == Some(pp as usize) by {
                                if pp == p as int && k2 == old_req[pp]@.len() {
                                } else {
                                    assert(required_positions@[pp]@[k2] == old_req[pp]@[k2]);
                                }
                            }
                        }
                    }
                    proof {
                        broadcast use vstd::seq_lib::lemma_seq_contains_after_push;

                        let pre0 = prefix;
                        prefix = prefix.push((p as int, cur as int));
                        assert(prefix.last() == (p as int, cur as int));
                        assert(prefix.contains((p as int, cur as int)));
                        assert(walk_adds(g, fx, cur as int, k as nat) == seq![
                            (p as int, cur as int),
                        ] + (if fx[p as int] {
                            Seq::<(int, int)>::empty()
                        } else {
                            walk_adds(g, fx, p as int, (k - 1) as nat)
                        }));
                        assert(required_positions@[p as int]@.contains(cur as usize)) by {
                            if !already {
                                assert(required_positions@[p as int]@ == old_req[p as int]@.push(
                                    cur,
                                ));
                            }
                        }
                        assert forall|pp: int, cc: int| 0 <= pp < n && 0 <= cc < n implies ((
                        #[trigger] required_positions@[pp]@.contains(cc as usize)) <==> (exists|
                            gk: int,
                        |
                            0 <= gk < gi && #[trigger] walk_adds(
                                g,
                                fx,
                                goals@[gk].target_joint as int,
                                goals@[gk].chain_length as nat,
                            ).contains((pp, cc))) || prefix.contains((pp, cc))) by {
                            assert(prefix.contains((pp, cc)) <==> pre0.contains((pp, cc)) || (
                            pp,
                            cc,
                            ) == (p as int, cur as int));
                            if pp == p as int {
                                if !already {
                                    assert(required_positions@[pp]@ == old_req[pp]@.push(cur));
                                    assert(required_positions@[pp]@.contains(cc as usize) <==> cc
                                        == cur as int || old_req[pp]@.contains(cc as usize));
                                } else {
                                    assert(required_positions@[pp]@ == old_req[pp]@);
                                    if cc == cur as int {
                                        assert(old_req[pp]@.contains(cc as usize));
                                    }
                                }
                            } else {
                                assert(required_positions@[pp]@ == old_req[pp]@);
                            }
                        }
                    }
                    let fixed_parent = joints[p].fixed;
                    proof {
                        assert(fx[p as int] == joints@[p as int].fixed);
                    }
                    if fixed_parent {
                        assert(total_pairs =~= prefix);
                        assert(goal_root == p as int);
                        assert(required_positions@[p as int]@.contains(cur as usize));
                        roots[p] = true;
                        break ;
                    }
                    assert(total_pairs =~= prefix + walk_adds(g, fx, p as int, (k - 1) as nat));
                    assert(goal_root == walk_root(g, fx, p as int, (k - 1) as nat) || k == 1);
                    if k == 1 {
                        assert(goal_root == p as int);
                        assert(walk_adds(g, fx, p as int, 0) =~= Seq::<(int, int)>::empty());
                        assert(total_pairs =~= prefix);
                        assert(required_positions@[p as int]@.contains(cur as usize));
                        roots[p] = true;
                        break ;
                    }
                    cur = p;
                    k = k - 1;
                },
            }
        }
        proof {
            assert forall|p: int, c: int| 0 <= p < n && 0 <= c < n implies ((
            #[trigger] required_positions@[p]@.contains(c as usize)) <==> exists|gk: int|
                0 <= gk < gi + 1 && #[trigger] walk_adds(
                    g,
                    fx,
                    goals@[gk].target_joint as int,
                    goals@[gk].chain_length as nat,
                ).contains((p, c))) by {
                if required_positions@[p]@.contains(c as usize) {
                    if total_pairs.contains((p, c)) {
                        assert(walk_adds(
                            g,
                            fx,
                            goals@[gi as int].target_joint as int,
                            goals@[gi as int].chain_length as nat,
                        ).contains((p, c)));
                    }
                }
                if exists|gk: int|
                    0 <= gk < gi + 1 && #[trigger] walk_adds(
                        g,
                        fx,
                        goals@[gk].target_joint as int,
                        goals@[gk].chain_length as nat,
                    ).contains((p, c)) {
                    let gk = choose|gk: int|
                        0 <= gk < gi + 1 && #[trigger] walk_adds(
                            g,
                            fx,
                            goals@[gk].target_joint as int,
                            goals@[gk].chain_length as nat,
                        ).contains((p, c));
                    if gk == gi as int {
                        assert(total_pairs.contains((p, c)));
                    }
                }
            }
            assert forall|rj: int| 0 <= rj < n implies ((#[trigger] roots@[rj]) <==> exists|
                gk: int,
            |
                0 <= gk < gi + 1 && #[trigger] walk_root(
                    g,
                    fx,
                    goals@[gk].target_joint as int,
                    goals@[gk].chain_length as nat,
                ) == rj) by {
                if roots@[rj] {
                    if goal_root == rj {
                        assert(walk_root(
                            g,
                            fx,
                            goals@[gi as int].target_joint as int,
                            goals@[gi as int].chain_length as nat,
                        ) == rj);
                    }
                }
                if exists|gk: int|
                    0 <= gk < gi + 1 && #[trigger] walk_root(
                        g,
                        fx,
                        goals@[gk].target_joint as int,
                        goals@[gk].chain_length as nat,
                    ) == rj {
                    let gk = choose|gk: int|
                        0 <= gk < gi + 1 && #[trigger] walk_root(
                            g,
                            fx,
                            goals@[gk].target_joint as int,
                            goals@[gk].chain_length as nat,
                        ) == rj;
                    if gk == gi as int {
                        assert(goal_root == rj);
                    }
                }
            }
        }
        gi = gi + 1;
    }

    // Reject a root recorded as a dependency: the forward pass could never
    // mark it ready, because a root never reports a new position upward.
    if find_conflict(&required_positions, &roots) {
        proof {
            let (p, k) = choose|p: int, k: int|
                0 <= p < required_positions@.len() && 0 <= k < required_positions@[p]@.len()
                    && roots@[(#[trigger] required_positions@[p]@[k]) as int];
            let c = required_positions@[p]@[k] as int;
            assert(required_positions@[p]@.contains(c as usize));
            let gj = choose|gk: int|
                0 <= gk < goals@.len() && #[trigger] walk_adds(
                    g,
                    fx,
                    goals@[gk].target_joint as int,
                    goals@[gk].chain_length as nat,
                ).contains((p, c));
            let gi2 = choose|gk: int|
                0 <= gk < goals@.len() && #[trigger] walk_root(
                    g,
                    fx,
                    goals@[gk].target_joint as int,
                    goals@[gk].chain_length as nat,
                ) == c;
            assert(chain_conflict(g, fx, goals@));
        }
        return Err(IkError::GoalChainConflict);
    }
    proof {
        // No conflict scanned means no conflict in the walk sense either.
        if chain_conflict(g, fx, goals@) {
            let (gi2, gj, p) = choose|gi2: int, gj: int, p: int|
                0 <= gi2 < goals@.len() && 0 <= gj < goals@.len() && #[trigger] walk_adds(
                    g,
                    fx,
                    goals@[gj].target_joint as int,
                    goals@[gj].chain_length as nat,
                ).contains(
                    (
                        p,
                        walk_root(
                            g,
                            fx,
                            goals@[gi2].target_joint as int,
                            goals@[gi2].chain_length as nat,
                        ),
                    ),
                );
            let c = walk_root(
                g,
                fx,
                goals@[gi2].target_joint as int,
                goals@[gi2].chain_length as nat,
            );
            assert(goal_error(g, goals@, gj) is None);
            lemma_walk_adds_range(
                g,
                fx,
                goals@[gj].target_joint as int,
                goals@[gj].chain_length as nat,
            );
            let pairs = walk_adds(
                g,
                fx,
                goals@[gj].target_joint as int,
                goals@[gj].chain_length as nat,
            );
            let i = choose|i: int| 0 <= i < pairs.len() && pairs[i] == (p, c);
            assert(0 <= p < n && 0 <= c < n);
            assert(required_positions@[p]@.contains(c as usize));
            let k = choose|k: int|
                0 <= k < required_positions@[p]@.len() && required_positions@[p]@[k] == c as usize;
            assert(false);
        }
    }

    // Seed positions from the world transforms and link lengths from the
    // local translations.
    let mut joint_positions: Vec<Vec3> = Vec::new();
    let mut link_lengths: Vec<i64> = Vec::new();
    let zero = Vec3 { x: 0, y: 0, z: 0 };
    let mut j: usize = 0;
    while j < n
        invariant
            0 <= j <= n,
            n == joints@.len(),
            joints_in_range(joints@),
            zero@ == (0int, 0int, 0int),
            joint_positions@.len() == j,
            link_lengths@.len() == j,
            forall|i: int|
                0 <= i < j ==> (#[trigger] joint_positions@[i])@
                    == joints@[i].global_transform.translation@,
            forall|i: int|
                0 <= i < j ==> (#[trigger] link_lengths@[i]) as int == sqrt_nat(
                    norm_sq(joints@[i].transform.translation@) as nat,
                ) && 0 <= link_lengths@[i] <= MAX_LEN,
        decreases n - j,
    {
        joint_positions.push(joints[j].global_transform.translation);
        let t = joints[j].transform.translation;
        let nsq: u128 = dist_sq_exec(&t, &zero);
        assert(nsq == norm_sq(t@)) by {
            assert(crate::vec::vsub(t@, (0int, 0int, 0int)) == t@);
        }
        let len_u: u64 = isqrt(nsq);
        proof {
            assert((len_u as int) * (len_u as int) <= nsq as int);
            assert(nsq as int <= 3 * 1048576 * 1048576) by (nonlinear_arith)
                requires
                    nsq as int == norm_sq(t@),
                    in_input_range(t@),
            ;
            assert(len_u as int <= MAX_LEN) by (nonlinear_arith)
                requires
                    (len_u as int) * (len_u as int) <= 3 * 1048576 * 1048576,
            ;
        }
        link_lengths.push(len_u as i64);
        j = j + 1;
    }

    let data = IkData { joint_positions, link_lengths, required_positions, joints_to_goals, roots };
    proof {
        assert forall|gi2: int| 0 <= gi2 < goals@.len() implies (#[trigger] goals@[gi2].target_joint)
            < n && data.is_target(goals@[gi2].target_joint as int) && goals@[gi2].chain_length
            >= 1 by {
            assert(goal_error(g, goals@, gi2) is None);
            lemma_goal_index_of_covers(goals@, gi2);
        }
        assert forall|j2: int| 0 <= j2 < n implies match #[trigger] data.goal_of(j2) {
            Some(gk) => gk < goals@.len() && goals@[gk as int].target_joint == j2,
            None => true,
        } by {
            if data.goal_of(j2) is Some {
                assert(goal_index_of(goals@, j2) is Some);
                lemma_goal_index_of_some(goals@, j2);
            }
        }
        assert forall|j2: int| 0 <= j2 < n implies (#[trigger] data.required_of(j2)).len()
            <= n by {
            lemma_distinct_indices_bounded(data.required_of(j2), n as int);
        }
        assert forall|j2: int|
            0 <= j2 < n && #[trigger] data.influenced(j2) && !data.is_root(j2) && g.parent_of(
                j2,
            ) is Some implies data.required_of(g.parent_of(j2)->Some_0 as int).contains(
            j2 as usize,
        ) by {
            let p = g.parent_of(j2)->Some_0 as int;
            if data.is_required_child(j2) {
                // some walk recorded (p0, j2); the graph says p0 is j2's parent
                let p0 = choose|p0: int|
                    0 <= p0 < data.n() && (#[trigger] data.required_of(p0)).contains(j2 as usize);
                let k0 = choose|k0: int|
                    0 <= k0 < data.required_of(p0).len() && data.required_of(p0)[k0] == j2 as usize;
                assert(g.parent_of(j2) == Some(p0 as usize));
            } else if data.is_target(j2) {
                // the walk of j2's own goal starts by recording (p, j2)
                let gk = goal_index_of(goals@, j2)->Some_0;
                lemma_goal_index_of_some(goals@, j2);
                assert(goal_error(g, goals@, gk) is None);
                let ck = goals@[gk].chain_length as nat;
                let pairs = walk_adds(g, fx, j2, ck);
                assert(pairs[0] == (p, j2));
                assert(pairs.contains((p, j2)));
                assert(required_positions@[p]@.contains(j2 as usize));
            } else {
                // j2 waits for a dependency, so some walk moved through it
                // and either continued (recording j2 upward) or ended at
                // j2, which would make it a root
                let c = data.required_of(j2)[0];
                assert(data.required_of(j2).contains(c));
                let gk = choose|gk: int|
                    0 <= gk < goals@.len() && #[trigger] walk_adds(
                        g,
                        fx,
                        goals@[gk].target_joint as int,
                        goals@[gk].chain_length as nat,
                    ).contains((j2, c as int));
                assert(goal_error(g, goals@, gk) is None);
                let t = goals@[gk].target_joint as int;
                let ck = goals@[gk].chain_length as nat;
                let pairs = walk_adds(g, fx, t, ck);
                lemma_walk_pair_parent(g, fx, t, ck);
                let i = choose|i: int| 0 <= i < pairs.len() && pairs[i] == (j2, c as int);
                if walk_root(g, fx, t, ck) == j2 {
                    assert(data.is_root(j2));
                } else {
                    assert(pairs.contains((p, j2)));
                    assert(required_positions@[p]@.contains(j2 as usize));
                }
            }
        }
    }
    Ok(data)
}

} // verus!
