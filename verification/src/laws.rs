//! Global guarantees of the solver, stated over [`run_iters`], the
//! specification that [`crate::solver::compute_joint_positions`] is proved
//! to compute exactly.

use vstd::prelude::*;

use crate::cache::{cache_consistent, goal_index_of, lemma_goal_index_of_some, walk_adds, IkData};
use crate::graph::ArmatureGraph;
use crate::joint::IkGoal;
use crate::num::sqrt_nat;
use crate::solver::{back_pos, back_visited, converged, ctx_wf, fwd_buf, fwd_pos, iter_spec, prop_sum, run_iters};
use crate::vec::{dist_sq, lemma_step_norm_bounds, try_step};

verus! {

/// However many iterations run, every sequence keeps its length.
pub proof fn lemma_run_iters_len(
    g: ArmatureGraph,
    d: IkData,
    goals: Seq<IkGoal>,
    ms: Seq<(int, int, int)>,
    tol: int,
    k: nat,
)
    ensures
        run_iters(g, d, goals, ms, tol, k).len() == ms.len(),
    decreases k,
{
    if !(k == 0 || converged(d, goals, ms, tol)) {
        lemma_run_iters_len(g, d, goals, iter_spec(g, d, goals, ms), tol, (k - 1) as nat);
    }
}

/// Root and fixed-point invariance: a joint in the root set — a true tree
/// root, a fixed joint, or a chain-length pseudo-root — holds exactly its
/// seed position through any number of solver iterations.
pub proof fn lemma_roots_never_move(
    g: ArmatureGraph,
    d: IkData,
    goals: Seq<IkGoal>,
    ms: Seq<(int, int, int)>,
    tol: int,
    k: nat,
    j: int,
)
    requires
        ctx_wf(g, d, goals),
        ms.len() == g.n(),
        0 <= j < g.n(),
        d.is_root(j),
    ensures
        run_iters(g, d, goals, ms, tol, k)[j] == ms[j],
    decreases k,
{
    if !(k == 0 || converged(d, goals, ms, tol)) {
        let next = iter_spec(g, d, goals, ms);
        assert(next[j] == ms[j]) by {
            assert(back_visited(g, d, goals, j));
            assert(back_pos(g, d, goals, ms, fwd_buf(g, d, goals, ms), j) == ms[j]);
        }
        lemma_roots_never_move(g, d, goals, next, tol, (k - 1) as nat, j);
    }
}

/// A joint outside every goal's chain — not a target, waiting for nothing,
/// required by nothing — holds exactly its seed position through any
/// number of solver iterations.
pub proof fn lemma_uninfluenced_never_moves(
    g: ArmatureGraph,
    d: IkData,
    goals: Seq<IkGoal>,
    ms: Seq<(int, int, int)>,
    tol: int,
    k: nat,
    j: int,
)
    requires
        ctx_wf(g, d, goals),
        ms.len() == g.n(),
        0 <= j < g.n(),
        !d.influenced(j),
    ensures
        run_iters(g, d, goals, ms, tol, k)[j] == ms[j],
    decreases k,
{
    if !(k == 0 || converged(d, goals, ms, tol)) {
        let next = iter_spec(g, d, goals, ms);
        assert(next[j] == ms[j]) by {
            assert(!d.is_root(j));
            assert(!back_visited(g, d, goals, j)) by {
                match g.parent_of(j) {
                    None => {},
                    Some(p) => {
                        if d.required_of(p as int).contains(j as usize) {
                            assert(d.is_required_child(j));
                        }
                    },
                }
            }
            assert(fwd_buf(g, d, goals, ms)[j] == ms[j]);
        }
        lemma_uninfluenced_never_moves(g, d, goals, next, tol, (k - 1) as nat, j);
    }
}

/// Idempotence: once every goal is within tolerance, running the solver
/// again — for any iteration budget — changes nothing at all.
pub proof fn lemma_converged_fixed_point(
    g: ArmatureGraph,
    d: IkData,
    goals: Seq<IkGoal>,
    ms: Seq<(int, int, int)>,
    tol: int,
    k: nat,
)
    requires
        converged(d, goals, ms, tol),
    ensures
        run_iters(g, d, goals, ms, tol, k) == ms,
{
}

/// The `i`-th ancestor of a joint, following parent links.
pub open spec fn ancestor_of(g: ArmatureGraph, t: int, i: nat) -> Option<int>
    decreases i,
{
    if i == 0 {
        Some(t)
    } else {
        match ancestor_of(g, t, (i - 1) as nat) {
            None => None,
            Some(a) => match g.parent_of(a) {
                None => None,
                Some(p) => Some(p as int),
            },
        }
    }
}

/// Shifting the base of the ancestor walk one step up.
proof fn lemma_ancestor_shift(g: ArmatureGraph, t: int, p: usize, i: nat)
    requires
        g.parent_of(t) == Some(p),
        i >= 1,
    ensures
        ancestor_of(g, t, i) == ancestor_of(g, p as int, (i - 1) as nat),
    decreases i,
{
    if i == 1 {
        assert(ancestor_of(g, t, 0) == Some(t));
        assert(ancestor_of(g, p as int, 0) == Some(p as int));
        assert(ancestor_of(g, t, 1) == Some(p as int));
    } else {
        lemma_ancestor_shift(g, t, p, (i - 1) as nat);
        assert(ancestor_of(g, t, (i - 1) as nat) == ancestor_of(g, p as int, (i - 2) as nat));
    }
}

/// Each pair a chain walk records joins two consecutive ancestors of the
/// walk's target, within the chain-length budget.
proof fn lemma_walk_adds_ancestors(g: ArmatureGraph, fixed: Seq<bool>, t: int, k: nat)
    requires
        g.wf(),
        0 <= t < g.n(),
    ensures
        walk_adds(g, fixed, t, k).len() <= k,
        forall|i: int|
            0 <= i < walk_adds(g, fixed, t, k).len() ==> {
                let pr = #[trigger] walk_adds(g, fixed, t, k)[i];
                ancestor_of(g, t, i as nat) == Some(pr.1) && ancestor_of(g, t, (i + 1) as nat)
                    == Some(pr.0)
            },
    decreases k,
{
    let pairs = walk_adds(g, fixed, t, k);
    if k == 0 {
    } else {
        match g.parent_of(t) {
            None => {},
            Some(p) => {
                if fixed[p as int] {
                    assert(pairs.len() == 1);
                    assert(pairs[0] == (p as int, t));
                    assert(ancestor_of(g, t, 0) == Some(t));
                    assert(ancestor_of(g, t, 1) == Some(p as int));
                } else {
                    let rest = walk_adds(g, fixed, p as int, (k - 1) as nat);
                    lemma_walk_adds_ancestors(g, fixed, p as int, (k - 1) as nat);
                    assert(pairs =~= seq![(p as int, t)] + rest);
                    assert forall|i: int| 0 <= i < pairs.len() implies {
                        let pr = #[trigger] pairs[i];
                        ancestor_of(g, t, i as nat) == Some(pr.1) && ancestor_of(
                            g,
                            t,
                            (i + 1) as nat,
                        ) == Some(pr.0)
                    } by {
                        if i == 0 {
                            assert(ancestor_of(g, t, 0) == Some(t));
                            assert(ancestor_of(g, t, 1) == Some(p as int));
                        } else {
                            let pr = pairs[i];
                            assert(rest[i - 1] == pr);
                            assert(ancestor_of(g, p as int, (i - 1) as nat) == Some(pr.1));
                            assert(ancestor_of(g, p as int, i as nat) == Some(pr.0));
                            lemma_ancestor_shift(g, t, p, i as nat);
                            lemma_ancestor_shift(g, t, p, (i + 1) as nat);
                        }
                    }
                }
            },
        }
    }
}

/// Chain-length cutoff: a joint that is not among the first `chain_length`
/// ancestors of any goal's target holds exactly its seed position through
/// any number of solver iterations.
pub proof fn lemma_chain_cutoff(
    g: ArmatureGraph,
    d: IkData,
    fixed: Seq<bool>,
    goals: Seq<IkGoal>,
    ms: Seq<(int, int, int)>,
    tol: int,
    k: nat,
    j: int,
)
    requires
        ctx_wf(g, d, goals),
        cache_consistent(d, g, fixed, goals),
        ms.len() == g.n(),
        0 <= j < g.n(),
        forall|gi: int, i: nat|
            0 <= gi < goals.len() && i <= goals[gi].chain_length ==> #[trigger] ancestor_of(
                g,
                goals[gi].target_joint as int,
                i,
            ) != Some(j),
    ensures
        run_iters(g, d, goals, ms, tol, k)[j] == ms[j],
{
    assert(!d.influenced(j)) by {
        if d.is_target(j) {
            assert(goal_index_of(goals, j) is Some);
            lemma_goal_index_of_some(goals, j);
            let gi = goal_index_of(goals, j)->Some_0;
            assert(ancestor_of(g, goals[gi].target_joint as int, 0) == Some(j));
        }
        if d.required_of(j).len() > 0 {
            let c = d.required_of(j)[0];
            assert(d.required_of(j).contains(c));
            assert(c < d.n());
            let gi = choose|gi: int|
                0 <= gi < goals.len() && #[trigger] walk_adds(
                    g,
                    fixed,
                    goals[gi].target_joint as int,
                    goals[gi].chain_length as nat,
                ).contains((j, c as int));
            let t = goals[gi].target_joint as int;
            let ck = goals[gi].chain_length as nat;
            assert(0 <= t < g.n());
            lemma_walk_adds_ancestors(g, fixed, t, ck);
            let pairs = walk_adds(g, fixed, t, ck);
            let i = choose|i: int| 0 <= i < pairs.len() && pairs[i] == (j, c as int);
            assert(ancestor_of(g, t, (i + 1) as nat) == Some(j));
            assert(i + 1 <= goals[gi].chain_length);
        }
        if d.is_required_child(j) {
            let p = choose|p: int|
                0 <= p < d.n() && (#[trigger] d.required_of(p)).contains(j as usize);
            let gi = choose|gi: int|
                0 <= gi < goals.len() && #[trigger] walk_adds(
                    g,
                    fixed,
                    goals[gi].target_joint as int,
                    goals[gi].chain_length as nat,
                ).contains((p, j));
            let t = goals[gi].target_joint as int;
            let ck = goals[gi].chain_length as nat;
            assert(0 <= t < g.n());
            lemma_walk_adds_ancestors(g, fixed, t, ck);
            let pairs = walk_adds(g, fixed, t, ck);
            let i = choose|i: int| 0 <= i < pairs.len() && pairs[i] == (p, j);
            assert(ancestor_of(g, t, i as nat) == Some(j));
            assert(i <= goals[gi].chain_length);
        }
    }
    lemma_uninfluenced_never_moves(g, d, goals, ms, tol, k, j);
}

/// Link-length preservation: whenever the backward pass's rigid reach for
/// a joint succeeded with its target at least one link away, the rebuilt
/// joint sits at its rigid link length from its parent, up to grid
/// rounding: the squared distance lies within `[L*L - 4*L - 5, (L+1)*(L+1)]`
/// for link length `L`.  (A floating-point solver restores the length
/// exactly; on the integer grid the truncations cost a few units.)
pub proof fn lemma_backward_link_length(
    g: ArmatureGraph,
    d: IkData,
    goals: Seq<IkGoal>,
    old: Seq<(int, int, int)>,
    buf: Seq<(int, int, int)>,
    j: int,
)
    requires
        ctx_wf(g, d, goals),
        0 <= j < g.n(),
        !d.is_root(j),
        g.parent_of(j) is Some,
        1 <= d.len_of(j),
        try_step(
            back_pos(g, d, goals, old, buf, g.parent_of(j)->Some_0 as int),
            buf[j],
            d.len_of(j),
        ) is Some,
        d.len_of(j) <= sqrt_nat(
            dist_sq(buf[j], back_pos(g, d, goals, old, buf, g.parent_of(j)->Some_0 as int)) as nat,
        ),
    ensures
        ({
            let l = d.len_of(j);
            let p = g.parent_of(j)->Some_0 as int;
            l * l - 4 * l - 5 <= dist_sq(
                back_pos(g, d, goals, old, buf, j),
                back_pos(g, d, goals, old, buf, p),
            ) && dist_sq(back_pos(g, d, goals, old, buf, j), back_pos(g, d, goals, old, buf, p))
                <= (l + 1) * (l + 1)
        }),
{
    let p = g.parent_of(j)->Some_0 as int;
    let anchor = back_pos(g, d, goals, old, buf, p);
    lemma_step_norm_bounds(anchor, buf[j], d.len_of(j));
    assert(back_pos(g, d, goals, old, buf, j) == try_step(anchor, buf[j], d.len_of(j))->Some_0);
}

/// Two solver contexts agree on a closed set `s` of joints: same
/// dependencies, goals, roots and link lengths there, with `s` closed
/// under dependency edges and parent links (up to roots).  Two goal sets
/// on disjoint branches induce exactly this situation on each branch.
pub open spec fn branch_agrees(
    g: ArmatureGraph,
    d1: IkData,
    goals1: Seq<IkGoal>,
    d2: IkData,
    goals2: Seq<IkGoal>,
    s: spec_fn(int) -> bool,
) -> bool {
    &&& d1.n() == g.n() && d2.n() == g.n()
    &&& forall|j: int| #[trigger] s(j) ==> 0 <= j < g.n()
    &&& forall|j: int|
        #[trigger] s(j) && !d2.is_root(j) ==> d1.required_of(j) == d2.required_of(j)
    &&& forall|j: int|
        #[trigger] s(j) && !d2.is_root(j) ==> forall|k: int|
            0 <= k < d2.required_of(j).len() ==> s((#[trigger] d2.required_of(j)[k]) as int)
    &&& forall|j: int| #[trigger] s(j) ==> goal_pos_of(d1, goals1, j) == goal_pos_of(d2, goals2, j)
    &&& forall|j: int| #[trigger] s(j) ==> d1.is_root(j) == d2.is_root(j)
    &&& forall|j: int|
        #[trigger] s(j) && !d2.is_root(j) && g.parent_of(j) is Some ==> s(
            g.parent_of(j)->Some_0 as int,
        )
    &&& forall|j: int| #[trigger] s(j) ==> d1.len_of(j) == d2.len_of(j)
    &&& forall|j: int|
        #[trigger] s(j) && g.parent_of(j) is Some && d2.is_root(g.parent_of(j)->Some_0 as int)
            ==> d1.required_of(g.parent_of(j)->Some_0 as int).contains(j as usize)
            == d2.required_of(g.parent_of(j)->Some_0 as int).contains(j as usize)
    &&& forall|j: int| #[trigger] s(j) && !d2.is_root(j) ==> d1.influenced(j) == d2.influenced(j)
}

/// The goal position driving joint `j`, if any.
pub open spec fn goal_pos_of(d: IkData, goals: Seq<IkGoal>, j: int) -> Option<(int, int, int)> {
    match d.goal_of(j) {
        None => None,
        Some(gi) => Some(goals[gi as int].position@),
    }
}

/// On an agreed branch, the forward pass computes the same position in
/// both contexts (for joints the backward pass cares about: non-roots).
proof fn lemma_fwd_branch_eq(
    g: ArmatureGraph,
    d1: IkData,
    goals1: Seq<IkGoal>,
    d2: IkData,
    goals2: Seq<IkGoal>,
    old: Seq<(int, int, int)>,
    s: spec_fn(int) -> bool,
    j: int,
)
    requires
        ctx_wf(g, d1, goals1),
        ctx_wf(g, d2, goals2),
        branch_agrees(g, d1, goals1, d2, goals2, s),
        s(j),
        !d2.is_root(j),
    ensures
        fwd_pos(g, d1, goals1, old, j) == fwd_pos(g, d2, goals2, old, j),
    decreases g.n() - g.depth_of(j), d2.required_of(j).len() + 1,
{
    lemma_prop_branch_eq(g, d1, goals1, d2, goals2, old, s, j, d2.required_of(j).len() as int);
}

/// The per-child proposal sums agree as well.
proof fn lemma_prop_branch_eq(
    g: ArmatureGraph,
    d1: IkData,
    goals1: Seq<IkGoal>,
    d2: IkData,
    goals2: Seq<IkGoal>,
    old: Seq<(int, int, int)>,
    s: spec_fn(int) -> bool,
    j: int,
    m: int,
)
    requires
        ctx_wf(g, d1, goals1),
        ctx_wf(g, d2, goals2),
        branch_agrees(g, d1, goals1, d2, goals2, s),
        s(j),
        !d2.is_root(j),
        0 <= m <= d2.required_of(j).len(),
    ensures
        prop_sum(g, d1, goals1, old, j, m) == prop_sum(g, d2, goals2, old, j, m),
    decreases g.n() - g.depth_of(j), m,
{
    if m > 0 {
        lemma_prop_branch_eq(g, d1, goals1, d2, goals2, old, s, j, m - 1);
        let c = d2.required_of(j)[m - 1] as int;
        assert(s(c));
        assert(g.parent_of(c) == Some(j as usize));
        assert(g.depth_of(c) == g.depth_of(j) + 1);
        assert(!d2.is_root(c));
        lemma_fwd_branch_eq(g, d1, goals1, d2, goals2, old, s, c);
    }
}

/// The backward pass visits the same branch joints in both contexts.
proof fn lemma_visited_branch_eq(
    g: ArmatureGraph,
    d1: IkData,
    goals1: Seq<IkGoal>,
    d2: IkData,
    goals2: Seq<IkGoal>,
    s: spec_fn(int) -> bool,
    j: int,
)
    requires
        ctx_wf(g, d1, goals1),
        ctx_wf(g, d2, goals2),
        branch_agrees(g, d1, goals1, d2, goals2, s),
        s(j),
    ensures
        back_visited(g, d1, goals1, j) == back_visited(g, d2, goals2, j),
    decreases g.depth_of(j),
{
    if !d2.is_root(j) {
        match g.parent_of(j) {
            None => {},
            Some(p) => {
                assert(s(p as int));
                lemma_visited_branch_eq(g, d1, goals1, d2, goals2, s, p as int);
                assert(d1.required_of(p as int).contains(j as usize) == d2.required_of(
                    p as int,
                ).contains(j as usize)) by {
                    if !d2.is_root(p as int) {
                        assert(d1.required_of(p as int) == d2.required_of(p as int));
                    }
                }
            },
        }
    }
}

/// The backward pass computes the same position on the branch in both
/// contexts, given equal forward buffers there.
proof fn lemma_back_branch_eq(
    g: ArmatureGraph,
    d1: IkData,
    goals1: Seq<IkGoal>,
    d2: IkData,
    goals2: Seq<IkGoal>,
    old: Seq<(int, int, int)>,
    buf1: Seq<(int, int, int)>,
    buf2: Seq<(int, int, int)>,
    s: spec_fn(int) -> bool,
    j: int,
)
    requires
        ctx_wf(g, d1, goals1),
        ctx_wf(g, d2, goals2),
        branch_agrees(g, d1, goals1, d2, goals2, s),
        forall|j2: int| #[trigger] s(j2) && !d2.is_root(j2) ==> buf1[j2] == buf2[j2],
        s(j),
    ensures
        back_pos(g, d1, goals1, old, buf1, j) == back_pos(g, d2, goals2, old, buf2, j),
    decreases g.depth_of(j),
{
    if !d2.is_root(j) {
        match g.parent_of(j) {
            None => {},
            Some(p) => {
                assert(s(p as int));
                lemma_back_branch_eq(g, d1, goals1, d2, goals2, old, buf1, buf2, s, p as int);
            },
        }
    }
}

/// Per-iteration goal independence: on a branch where two goal sets agree
/// — in particular, on one branch of a tree whose goals live on disjoint
/// branches below a shared root — a full FABRIK iteration produces
/// exactly the same positions whether the other branch's goals are
/// present or not.  (Across iterations the runs may still stop at
/// different times, because convergence is checked over all goals.)
pub proof fn lemma_iteration_branch_independence(
    g: ArmatureGraph,
    d1: IkData,
    goals1: Seq<IkGoal>,
    d2: IkData,
    goals2: Seq<IkGoal>,
    old: Seq<(int, int, int)>,
    s: spec_fn(int) -> bool,
    j: int,
)
    requires
        ctx_wf(g, d1, goals1),
        ctx_wf(g, d2, goals2),
        branch_agrees(g, d1, goals1, d2, goals2, s),
        old.len() == g.n(),
        s(j),
    ensures
        iter_spec(g, d1, goals1, old)[j] == iter_spec(g, d2, goals2, old)[j],
{
    let buf1 = fwd_buf(g, d1, goals1, old);
    let buf2 = fwd_buf(g, d2, goals2, old);
    assert forall|j2: int| #[trigger] s(j2) && !d2.is_root(j2) implies buf1[j2] == buf2[j2] by {
        assert(d1.influenced(j2) == d2.influenced(j2));
        if d2.influenced(j2) {
            lemma_fwd_branch_eq(g, d1, goals1, d2, goals2, old, s, j2);
        }
    }
    lemma_visited_branch_eq(g, d1, goals1, d2, goals2, s, j);
    if back_visited(g, d2, goals2, j) {
        lemma_back_branch_eq(g, d1, goals1, d2, goals2, old, buf1, buf2, s, j);
    } else {
        assert(!d2.is_root(j));
    }
}

} // verus!
