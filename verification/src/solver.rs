//! The FABRIK solver: a bounded iteration of forward (leaf-to-root) and
//! backward (root-to-leaf) reaching passes over the cached context.
//!
//! Every pass is specified by a recursive function over the dependency
//! tree, and the executable queue-driven passes are proved to compute
//! exactly those values, so [`compute_joint_positions`] carries a full
//! functional contract: the final positions equal [`run_iters`] applied to
//! the seed.

use vstd::prelude::*;

use crate::cache::IkData;
use crate::graph::ArmatureGraph;
use crate::joint::{goals_in_range, IkGoal};
use crate::num::{div_i64, div_trunc};
use crate::vec::{dist_sq, dist_sq_exec, in_work_range, reach_toward, try_step, Vec3};
use crate::IkSettings;

verus! {

/// Mathematical view of a position buffer.
pub open spec fn views(s: Seq<Vec3>) -> Seq<(int, int, int)> {
    s.map(|i: int, v: Vec3| v@)
}

/// Every goal's target joint is strictly within `tol` of its goal.
/// Distances are compared squared, which is exact on the integer grid.
pub open spec fn converged(d: IkData, goals: Seq<IkGoal>, ms: Seq<(int, int, int)>, tol: int) -> bool {
    forall|gi: int|
        0 <= gi < goals.len() ==> dist_sq(
            (#[trigger] goals[gi]).position@,
            ms[goals[gi].target_joint as int],
        ) < tol * tol
}

/// Context facts the recursive pass specifications are conditioned on.
pub open spec fn ctx_wf(g: ArmatureGraph, d: IkData, goals: Seq<IkGoal>) -> bool {
    g.wf() && d.wf(g, goals)
}

/// The position the forward pass assigns to joint `j`, given the positions
/// `old` from before this iteration: a goal target snaps to its goal;
/// any other joint moves to the centroid of the per-child proposals, each
/// placing `j` at link distance from the child's new position, in the
/// direction of `j`'s old position.  A degenerate direction or an
/// out-of-range centroid leaves the joint at its old position.
pub open spec fn fwd_pos(
    g: ArmatureGraph,
    d: IkData,
    goals: Seq<IkGoal>,
    old: Seq<(int, int, int)>,
    j: int,
) -> (int, int, int)
    decreases g.n() - g.depth_of(j), d.required_of(j).len() + 1,
        when ctx_wf(g, d, goals) && 0 <= j < g.n()
{
    match d.goal_of(j) {
        Some(gi) => goals[gi as int].position@,
        None => {
            let m = d.required_of(j).len() as int;
            if m == 0 {
                old[j]
            } else {
                match prop_sum(g, d, goals, old, j, m) {
                    None => old[j],
                    Some(s) => {
                        let v = (div_trunc(s.0, m), div_trunc(s.1, m), div_trunc(s.2, m));
                        if in_work_range(v) {
                            v
                        } else {
                            old[j]
                        }
                    },
                }
            }
        },
    }
}

/// Sum of the first `m` per-child forward proposals for joint `j`, or
/// `None` if any direction is degenerate or any proposal leaves the
/// working range.
pub open spec fn prop_sum(
    g: ArmatureGraph,
    d: IkData,
    goals: Seq<IkGoal>,
    old: Seq<(int, int, int)>,
    j: int,
    m: int,
) -> Option<(int, int, int)>
    decreases g.n() - g.depth_of(j), m,
        when ctx_wf(g, d, goals) && 0 <= j < g.n() && 0 <= m <= d.required_of(j).len()
{
    if m <= 0 {
        Some((0, 0, 0))
    } else {
        match prop_sum(g, d, goals, old, j, m - 1) {
            None => None,
            Some(s) => {
                let c = d.required_of(j)[m - 1] as int;
                match try_step(fwd_pos(g, d, goals, old, c), old[j], d.len_of(c)) {
                    None => None,
                    Some(v) => Some((s.0 + v.0, s.1 + v.1, s.2 + v.2)),
                }
            },
        }
    }
}

/// The forward buffer after the forward pass: influenced joints carry
/// their forward position, all others keep their old position.
pub open spec fn fwd_buf(
    g: ArmatureGraph,
    d: IkData,
    goals: Seq<IkGoal>,
    old: Seq<(int, int, int)>,
) -> Seq<(int, int, int)> {
    Seq::new(
        old.len(),
        |j: int|
            if d.influenced(j) {
                fwd_pos(g, d, goals, old, j)
            } else {
                old[j]
            },
    )
}

/// The backward pass visits exactly the joints reachable from a root by
/// dependency edges.
pub open spec fn back_visited(g: ArmatureGraph, d: IkData, goals: Seq<IkGoal>, j: int) -> bool
    decreases g.depth_of(j),
        when ctx_wf(g, d, goals) && 0 <= j < g.n()
{
    if d.is_root(j) {
        true
    } else {
        match g.parent_of(j) {
            None => false,
            Some(p) => d.required_of(p as int).contains(j as usize) && back_visited(
                g,
                d,
                goals,
                p as int,
            ),
        }
    }
}

/// The position the backward pass assigns to a visited joint `j`: a root
/// returns to its pre-iteration position; any other joint is placed at
/// link distance from its parent's backward position, in the direction of
/// its own forward position.  A degenerate direction or an out-of-range
/// result keeps the forward value.
pub open spec fn back_pos(
    g: ArmatureGraph,
    d: IkData,
    goals: Seq<IkGoal>,
    old: Seq<(int, int, int)>,
    buf: Seq<(int, int, int)>,
    j: int,
) -> (int, int, int)
    decreases g.depth_of(j),
        when ctx_wf(g, d, goals) && 0 <= j < g.n()
{
    if d.is_root(j) {
        old[j]
    } else {
        match g.parent_of(j) {
            None => buf[j],
            Some(p) => match try_step(
                back_pos(g, d, goals, old, buf, p as int),
                buf[j],
                d.len_of(j),
            ) {
                None => buf[j],
                Some(v) => v,
            },
        }
    }
}

/// One full FABRIK iteration: forward pass, backward pass, buffer flip.
pub open spec fn iter_spec(
    g: ArmatureGraph,
    d: IkData,
    goals: Seq<IkGoal>,
    old: Seq<(int, int, int)>,
) -> Seq<(int, int, int)> {
    let buf = fwd_buf(g, d, goals, old);
    Seq::new(
        old.len(),
        |j: int|
            if back_visited(g, d, goals, j) {
                back_pos(g, d, goals, old, buf, j)
            } else {
                buf[j]
            },
    )
}

/// Up to `k` FABRIK iterations, stopping at the first converged state.
pub open spec fn run_iters(
    g: ArmatureGraph,
    d: IkData,
    goals: Seq<IkGoal>,
    ms: Seq<(int, int, int)>,
    tol: int,
    k: nat,
) -> Seq<(int, int, int)>
    decreases k,
{
    if k == 0 || converged(d, goals, ms, tol) {
        ms
    } else {
        run_iters(g, d, goals, iter_spec(g, d, goals, ms), tol, (k - 1) as nat)
    }
}

/// Index of the first queue entry (from `from`) that is uncomputed and has
/// all its dependencies computed; `q.len()` if there is none.  This is the
/// termination measure of the forward pass's retry queue.
pub open spec fn first_ready(
    d: IkData,
    q: Seq<usize>,
    computed: Seq<bool>,
    from: int,
) -> int
    decreases q.len() - from,
        when 0 <= from <= q.len()
{
    if from >= q.len() {
        from
    } else if !computed[q[from] as int] && all_computed(d, computed, q[from] as int) {
        from
    } else {
        first_ready(d, q, computed, from + 1)
    }
}

/// All dependencies of `j` are computed.
pub open spec fn all_computed(d: IkData, computed: Seq<bool>, j: int) -> bool {
    forall|k: int|
        0 <= k < d.required_of(j).len() ==> computed[(#[trigger] d.required_of(j)[k]) as int]
}

/// Number of `false` entries: the forward pass's primary progress measure.
pub open spec fn count_false(s: Seq<bool>) -> int
    decreases s.len(),
{
    if s.len() == 0 {
        0
    } else {
        count_false(s.drop_last()) + if s.last() {
            0int
        } else {
            1int
        }
    }
}

proof fn lemma_count_false_update(s: Seq<bool>, i: int)
    requires
        0 <= i < s.len(),
        !s[i],
    ensures
        count_false(s.update(i, true)) == count_false(s) - 1,
        count_false(s) >= 1,
    decreases s.len(),
{
    let t = s.update(i, true);
    lemma_count_false_nonneg(s.drop_last());
    if i == s.len() - 1 {
        assert(t.drop_last() =~= s.drop_last());
    } else {
        assert(t.drop_last() =~= s.drop_last().update(i, true));
        lemma_count_false_update(s.drop_last(), i);
    }
}

proof fn lemma_count_false_nonneg(s: Seq<bool>)
    ensures
        count_false(s) >= 0,
    decreases s.len(),
{
    if s.len() > 0 {
        lemma_count_false_nonneg(s.drop_last());
    }
}

/// The forward queue invariant, shared by the loop and its helper lemmas.
///
/// `old_ps` are the positions from before the iteration, `new_ps` the
/// buffer being filled, `computed` the per-joint done flags, and
/// `q[head..]` the pending queue.
pub open spec fn fwd_inv(
    g: ArmatureGraph,
    d: IkData,
    goals: Seq<IkGoal>,
    old_ps: Seq<Vec3>,
    new_ps: Seq<Vec3>,
    computed: Seq<bool>,
    q: Seq<usize>,
    head: int,
) -> bool {
    let n = g.n();
    &&& ctx_wf(g, d, goals)
    &&& old_ps.len() == n
    &&& new_ps.len() == n
    &&& computed.len() == n
    &&& 0 <= head <= q.len()
    &&& forall|i: int| head <= i < q.len() ==> (#[trigger] q[i]) < n
    &&& forall|i: int| head <= i < q.len() ==> d.influenced(#[trigger] q[i] as int)
    &&& forall|j: int|
        0 <= j < n && #[trigger] computed[j] ==> d.influenced(j) && (new_ps[j])@ == fwd_pos(
            g,
            d,
            goals,
            views(old_ps),
            j,
        ) && in_work_range((new_ps[j])@)
    &&& forall|j: int| 0 <= j < n && !(#[trigger] computed[j]) ==> new_ps[j] == old_ps[j]
    &&& forall|j: int|
        0 <= j < n && #[trigger] computed[j] ==> all_computed(d, computed, j)
    // once any dependency of an uncomputed joint is computed, the joint is queued
    &&& forall|j: int, k: int|
        0 <= j < n && !computed[j] && 0 <= k < d.required_of(j).len() && computed[(
        #[trigger] d.required_of(j)[k]) as int] ==> q.subrange(head, q.len() as int).contains(
            j as usize,
        )
    // an uncomputed target is queued
    &&& forall|j: int|
        0 <= j < n && #[trigger] d.is_target(j) && !computed[j] ==> q.subrange(
            head,
            q.len() as int,
        ).contains(j as usize)
}

/// While some influenced joint is uncomputed, the pending queue holds a
/// ready uncomputed joint.
proof fn lemma_exists_ready(
    g: ArmatureGraph,
    d: IkData,
    goals: Seq<IkGoal>,
    old_ps: Seq<Vec3>,
    new_ps: Seq<Vec3>,
    computed: Seq<bool>,
    q: Seq<usize>,
    head: int,
    j: int,
)
    requires
        fwd_inv(g, d, goals, old_ps, new_ps, computed, q, head),
        0 <= j < g.n(),
        d.influenced(j),
        !computed[j],
    ensures
        exists|i: int|
            head <= i < q.len() && !computed[(#[trigger] q[i]) as int] && all_computed(
                d,
                computed,
                q[i] as int,
            ),
    decreases g.n() - g.depth_of(j),
{
    let pending = q.subrange(head, q.len() as int);
    if all_computed(d, computed, j) {
        // j itself is ready; show it is queued.
        if d.is_target(j) {
            assert(pending.contains(j as usize));
        } else {
            // an influenced non-target has dependencies (bottoming out at
            // targets), and they are all computed, so one of them queued j
            assert(d.required_of(j).len() > 0) by {
                if d.is_required_child(j) {
                    let p = choose|p: int|
                        0 <= p < d.n() && (#[trigger] d.required_of(p)).contains(j as usize);
                    let k = choose|k: int|
                        0 <= k < d.required_of(p).len() && d.required_of(p)[k] == j as usize;
                }
            }
            assert(computed[d.required_of(j)[0] as int]);
            assert(pending.contains(j as usize));
        }
        let i = choose|i: int| 0 <= i < pending.len() && pending[i] == j as usize;
        assert(q[head + i] == j as usize);
        assert(!computed[q[head + i] as int] && all_computed(d, computed, q[head + i] as int));
    } else {
        // recurse into an uncomputed dependency, which is strictly deeper
        let k = choose|k: int|
            0 <= k < d.required_of(j).len() && !computed[(#[trigger] d.required_of(j)[k]) as int];
        let c = d.required_of(j)[k] as int;
        assert(g.parent_of(c) == Some(j as usize));
        assert(g.depth_of(c) == g.depth_of(j) + 1);
        assert(d.influenced(c)) by {
            assert(d.required_of(j).contains(c as usize));
        }
        lemma_exists_ready(g, d, goals, old_ps, new_ps, computed, q, head, c);
    }
}

/// Once the queue has drained, every influenced joint is computed.
proof fn lemma_fwd_complete(
    g: ArmatureGraph,
    d: IkData,
    goals: Seq<IkGoal>,
    old_ps: Seq<Vec3>,
    new_ps: Seq<Vec3>,
    computed: Seq<bool>,
    q: Seq<usize>,
    head: int,
    j: int,
)
    requires
        fwd_inv(g, d, goals, old_ps, new_ps, computed, q, head),
        head == q.len(),
        0 <= j < g.n(),
        d.influenced(j),
    ensures
        computed[j],
    decreases g.n() - g.depth_of(j),
{
    if !computed[j] {
        lemma_exists_ready(g, d, goals, old_ps, new_ps, computed, q, head, j);
    }
}

/// The forward (leaf-to-root) pass.  Returns the new position buffer and
/// the per-joint computed flags, which mark exactly the influenced joints.
fn forward_pass(
    graph: &ArmatureGraph,
    data: &IkData,
    positions: &Vec<Vec3>,
    goals: &Vec<IkGoal>,
) -> (res: (Vec<Vec3>, Vec<bool>))
    requires
        graph.wf(),
        data.wf(*graph, goals@),
        goals_in_range(goals@),
        positions@.len() == data.n(),
        forall|j: int| 0 <= j < data.n() ==> in_work_range((#[trigger] positions@[j])@),
    ensures
        res.0@.len() == data.n(),
        res.1@.len() == data.n(),
        forall|j: int| 0 <= j < data.n() ==> ((#[trigger] res.1@[j]) <==> data.influenced(j)),
        forall|j: int|
            0 <= j < data.n() && data.influenced(j) ==> ((#[trigger] res.0@[j])@ == fwd_pos(
                *graph,
                *data,
                goals@,
                views(positions@),
                j,
            ) && in_work_range(res.0@[j]@)),
        forall|j: int|
            0 <= j < data.n() && !data.influenced(j) ==> (#[trigger] res.0@[j]) == positions@[j],
{
    let n = positions.len();
    let ghost g = *graph;
    let ghost d = *data;
    let ghost old_views = views(positions@);

    // The buffer starts as a copy of the old positions.
    let mut new_positions: Vec<Vec3> = Vec::new();
    let mut i: usize = 0;
    while i < n
        invariant
            0 <= i <= n,
            n == positions@.len(),
            new_positions@.len() == i,
            forall|j: int| 0 <= j < i ==> #[trigger] new_positions@[j] == positions@[j],
        decreases n - i,
    {
        new_positions.push(positions[i]);
        i = i + 1;
    }
    let mut computed: Vec<bool> = Vec::new();
    let mut i: usize = 0;
    while i < n
        invariant
            computed@.len() == i <= n,
            forall|j: int| 0 <= j < i ==> !(#[trigger] computed@[j]),
        decreases n - i,
    {
        computed.push(false);
        i = i + 1;
    }

    // Seed the queue with every goal's target joint.
    let mut q: Vec<usize> = Vec::new();
    let mut gi: usize = 0;
    while gi < goals.len()
        invariant
            0 <= gi <= goals@.len(),
            n == d.n(),
            g == *graph,
            d == *data,
            ctx_wf(g, d, goals@),
            forall|i2: int| 0 <= i2 < q@.len() ==> (#[trigger] q@[i2]) < n,
            forall|i2: int| 0 <= i2 < q@.len() ==> d.influenced(#[trigger] q@[i2] as int),
            forall|k: int|
                0 <= k < gi ==> q@.contains(goals@[k].target_joint),
        decreases goals@.len() - gi,
    {
        let t = goals[gi].target_joint;
        proof {
            assert(d.is_target(t as int)) by {
                assert(goals@[gi as int].target_joint < n);
            }
        }
        q.push(t);
        proof {
            broadcast use vstd::seq_lib::lemma_seq_contains_after_push;

        }
        gi = gi + 1;
    }
    let mut head: usize = 0;

    proof {
        assert(fwd_inv(g, d, goals@, positions@, new_positions@, computed@, q@, 0)) by {
            assert forall|j: int|
                0 <= j < n && #[trigger] d.is_target(j) && !computed@[j] implies q@.subrange(
                0,
                q@.len() as int,
            ).contains(j as usize) by {
                let gk = d.goal_of(j)->Some_0;
                assert(goals@[gk as int].target_joint == j);
                assert(q@.contains(goals@[gk as int].target_joint));
                assert(q@.subrange(0, q@.len() as int) =~= q@);
            }
        }
        lemma_count_false_nonneg(computed@);
    }

    while head < q.len()
        invariant
            n == d.n(),
            g == *graph,
            d == *data,
            goals_in_range(goals@),
            positions@.len() == n,
            old_views == views(positions@),
            forall|j2: int| 0 <= j2 < n ==> in_work_range((#[trigger] positions@[j2])@),
            fwd_inv(g, d, goals@, positions@, new_positions@, computed@, q@, head as int),
        decreases count_false(computed@), first_ready(d, q@, computed@, head as int) - head,
    {
        let j = q[head];
        head = head + 1;
        let ghost head0 = head - 1;
        let ghost q0 = q@;
        let ghost computed0 = computed@;
        proof {
            lemma_count_false_nonneg(computed@);
            assert(q0.subrange(head0, q0.len() as int)[0] == j);
            assert forall|jj: int, kk: int|
                0 <= jj < n && !computed@[jj] && 0 <= kk < d.required_of(jj).len() && computed@[(
                #[trigger] d.required_of(jj)[kk]) as int] && jj != j as int implies q@.subrange(
                head as int,
                q@.len() as int,
            ).contains(jj as usize) by {
                let pending0 = q0.subrange(head0, q0.len() as int);
                assert(pending0.contains(jj as usize));
                let i = choose|i: int| 0 <= i < pending0.len() && pending0[i] == jj as usize;
                assert(i > 0);
                assert(q@.subrange(head as int, q@.len() as int)[i - 1] == jj as usize);
            }
            assert forall|jj: int|
                0 <= jj < n && #[trigger] d.is_target(jj) && !computed@[jj] && jj != j as int implies q@.subrange(
                head as int,
                q@.len() as int,
            ).contains(jj as usize) by {
                let pending0 = q0.subrange(head0, q0.len() as int);
                assert(pending0.contains(jj as usize));
                let i = choose|i: int| 0 <= i < pending0.len() && pending0[i] == jj as usize;
                assert(i > 0);
                assert(q@.subrange(head as int, q@.len() as int)[i - 1] == jj as usize);
            }
        }

        if computed[j] {
            // A duplicate queue entry; its work is already done.
            proof {
                lemma_first_ready_skip(d, q@, computed@, head0, head as int);
            }
            continue ;
        }

        // Readiness gate: every dependency must already be computed.
        let reqs_len = data.required_positions[j].len();
        let mut ready = true;
        let mut k: usize = 0;
        while k < reqs_len
            invariant
                0 <= k <= reqs_len,
                0 <= (j as int) < n,
                n == d.n(),
                g == *graph,
                d == *data,
                ctx_wf(g, d, goals@),
                computed@.len() == n,
                reqs_len == d.required_of(j as int).len(),
                forall|k2: int|
                    0 <= k2 < d.required_of(j as int).len() ==> (#[trigger] d.required_of(
                        j as int,
                    )[k2]) < n,
                ready <==> (forall|k2: int|
                    0 <= k2 < k ==> computed@[(#[trigger] d.required_of(j as int)[k2]) as int]),
            decreases reqs_len - k,
        {
            let c = data.required_positions[j][k];
            if !computed[c] {
                ready = false;
                k = reqs_len;
            } else {
                k = k + 1;
            }
        }

        if !ready {
            // Not ready yet: requeue and retry later.
            q.push(j);
            proof {
                broadcast use vstd::seq_lib::lemma_seq_contains_after_push;

                let pending = q@.subrange(head as int, q@.len() as int);
                assert forall|jj: int, kk: int|
                    0 <= jj < n && !computed@[jj] && 0 <= kk < d.required_of(jj).len() && computed@[(
                    #[trigger] d.required_of(jj)[kk]) as int] implies pending.contains(
                    jj as usize,
                ) by {
                    if jj == j as int {
                        assert(pending[pending.len() - 1] == j);
                    } else {
                        let prev = q0.subrange(head as int, q0.len() as int);
                        assert(prev.contains(jj as usize));
                        let i = choose|i: int| 0 <= i < prev.len() && prev[i] == jj as usize;
                        assert(pending[i] == jj as usize);
                    }
                }
                assert forall|jj: int|
                    0 <= jj < n && #[trigger] d.is_target(jj) && !computed@[jj] implies pending.contains(
                    jj as usize,
                ) by {
                    if jj == j as int {
                        assert(pending[pending.len() - 1] == j);
                    } else {
                        let prev = q0.subrange(head as int, q0.len() as int);
                        assert(prev.contains(jj as usize));
                        let i = choose|i: int| 0 <= i < prev.len() && prev[i] == jj as usize;
                        assert(pending[i] == jj as usize);
                    }
                }
                lemma_first_ready_requeue(g, d, goals@, positions@, new_positions@, computed@,
                    q0, q@, head0, head as int, j as int);
            }
            continue ;
        }

        // Compute the forward position for this joint.
        let goal_idx = data.joints_to_goals[j];
        match goal_idx {
            Some(gidx) => {
                // A goal target snaps to the goal position.
                new_positions[j] = goals[gidx].position;
                proof {
                    assert(fwd_pos(g, d, goals@, old_views, j as int) == goals@[gidx as int].position@);
                    assert(in_work_range(goals@[gidx as int].position@));
                }
            },
            None => {
                if reqs_len > 0 {
                    proof {
                        assert(in_work_range((positions@[j as int])@));
                        assert(d.required_of(j as int).len() <= n);
                        assert(n <= crate::MAX_JOINTS);
                    }
                    // Average the per-child proposals.
                    let mut sx: i64 = 0;
                    let mut sy: i64 = 0;
                    let mut sz: i64 = 0;
                    let mut ok = true;
                    let mut k: usize = 0;
                    let old_pos = positions[j];
                    while k < reqs_len
                        invariant
                            0 <= k <= reqs_len,
                            0 <= (j as int) < n,
                            n == d.n(),
                            g == *graph,
                            d == *data,
                            ctx_wf(g, d, goals@),
                            positions@.len() == n,
                            old_views == views(positions@),
                            old_pos == positions@[j as int],
                            in_work_range(old_pos@),
                            new_positions@.len() == n,
                            computed@.len() == n,
                            reqs_len == d.required_of(j as int).len(),
                            reqs_len <= 1024,
                            d.goal_of(j as int) is None,
                            all_computed(d, computed@, j as int),
                            forall|jj: int|
                                0 <= jj < n && #[trigger] computed@[jj] ==> (new_positions@[jj])@
                                    == fwd_pos(g, d, goals@, old_views, jj) && in_work_range(
                                    (new_positions@[jj])@,
                                ),
                            ok ==> prop_sum(g, d, goals@, old_views, j as int, k as int) == Some(
                                ((sx as int, sy as int, sz as int)),
                            ),
                            !ok ==> prop_sum(g, d, goals@, old_views, j as int, reqs_len as int)
                                is None,
                            -2147483648 * (k as int) <= sx as int <= 2147483648 * (k as int),
                            -2147483648 * (k as int) <= sy as int <= 2147483648 * (k as int),
                            -2147483648 * (k as int) <= sz as int <= 2147483648 * (k as int),
                        decreases reqs_len - k,
                    {
                        let c = data.required_positions[j][k];
                        proof {
                            assert(d.required_of(j as int)[k as int] == c);
                            assert(computed@[c as int]);
                            assert(d.len_of(c as int) <= crate::MAX_LEN);
                        }
                        let step = reach_toward(
                            &new_positions[c],
                            &old_pos,
                            data.link_lengths[c],
                        );
                        match step {
                            Some(v) => {
                                proof {
                                    assert((new_positions@[c as int])@ == fwd_pos(
                                        g,
                                        d,
                                        goals@,
                                        old_views,
                                        c as int,
                                    ));
                                    assert(old_views[j as int] == old_pos@);
                                    assert(in_work_range(v@));
                                    assert(n <= 1024);
                                }
                                sx = sx + v.x;
                                sy = sy + v.y;
                                sz = sz + v.z;
                            },
                            None => {
                                ok = false;
                                proof {
                                    lemma_prop_sum_none(g, d, goals@, old_views, j as int,
                                        (k + 1) as int, reqs_len as int);
                                }
                            },
                        }
                        if !ok {
                            k = reqs_len;
                        } else {
                            k = k + 1;
                        }
                    }
                    if ok {
                        let m = reqs_len as i64;
                        let cx = div_i64(sx, m);
                        let cy = div_i64(sy, m);
                        let cz = div_i64(sz, m);
                        if cx >= -crate::MAX_POS && cx <= crate::MAX_POS && cy >= -crate::MAX_POS
                            && cy <= crate::MAX_POS && cz >= -crate::MAX_POS && cz
                            <= crate::MAX_POS {
                            new_positions[j] = Vec3 { x: cx, y: cy, z: cz };
                        } else {
                            new_positions[j] = old_pos;
                        }
                    } else {
                        new_positions[j] = old_pos;
                    }
                } else {
                    // An influenced joint with no dependencies keeps its
                    // old position (it can only be a dependency itself).
                    let keep = positions[j];
                    new_positions[j] = keep;
                }
            },
        }
        computed[j] = true;
        proof {
            broadcast use vstd::seq_lib::lemma_seq_contains_after_push;

            lemma_count_false_update(computed0, j as int);
            assert(d.influenced(j as int)) by {
                assert(q0.subrange(head0, q0.len() as int)[0] == j);
            }
        }

        // Hand the result upward, unless this joint is pinned.
        let is_root = data.roots[j];
        if !is_root {
            match graph.joint_parent[j] {
                Some(p) => {
                    let mut in_q = false;
                    let mut i2: usize = head;
                    while i2 < q.len()
                        invariant
                            head <= i2 <= q@.len(),
                            in_q ==> q@.subrange(head as int, q@.len() as int).contains(p),
                            !in_q ==> forall|i3: int| head <= i3 < i2 ==> q@[i3] != p,
                        decreases q@.len() - i2,
                    {
                        if q[i2] == p {
                            in_q = true;
                            proof {
                                assert(q@.subrange(head as int, q@.len() as int)[i2 - head] == p);
                            }
                            i2 = q.len();
                        } else {
                            i2 = i2 + 1;
                        }
                    }
                    if !in_q {
                        q.push(p);
                        proof {
                            assert(q@.subrange(head as int, q@.len() as int)[q@.len() - 1
                                - head] == p);
                        }
                    }
                    proof {
                        assert(q@.subrange(head as int, q@.len() as int).contains(p));
                    }
                },
                None => {},
            }
        }
        proof {
            lemma_fwd_inv_after_compute(g, d, goals@, positions@, new_positions@,
                computed0, computed@, q0, q@, head0, head as int, j as int);
        }
    }
    proof {
        assert forall|j: int| 0 <= j < n && d.influenced(j) implies computed@[j] by {
            lemma_fwd_complete(g, d, goals@, positions@, new_positions@, computed@, q@,
                head as int, j);
        }
        assert forall|j: int| 0 <= j < n && !d.influenced(j) implies #[trigger] new_positions@[j]
            == positions@[j] by {
            assert(!computed@[j]);
        }
    }
    (new_positions, computed)
}

/// If one proposal is missing, the whole sum is.
proof fn lemma_prop_sum_none(
    g: ArmatureGraph,
    d: IkData,
    goals: Seq<IkGoal>,
    old: Seq<(int, int, int)>,
    j: int,
    m: int,
    m2: int,
)
    requires
        ctx_wf(g, d, goals),
        0 <= j < g.n(),
        0 < m <= m2 <= d.required_of(j).len(),
        prop_sum(g, d, goals, old, j, m) is None,
    ensures
        prop_sum(g, d, goals, old, j, m2) is None,
    decreases m2 - m,
{
    if m < m2 {
        lemma_prop_sum_none(g, d, goals, old, j, m + 1, m2);
    }
}

/// Skipping a computed queue entry leaves the first ready index in place,
/// so the distance from the scan head to it shrinks.
proof fn lemma_first_ready_skip(d: IkData, q: Seq<usize>, computed: Seq<bool>, head0: int, head: int)
    requires
        head == head0 + 1,
        0 <= head0 < q.len(),
        computed[q[head0] as int],
    ensures
        first_ready(d, q, computed, head) == first_ready(d, q, computed, head0),
        first_ready(d, q, computed, head) >= head,
{
    lemma_first_ready_ge(d, q, computed, head);
}

/// The first ready index is at least the scan start.
proof fn lemma_first_ready_ge(d: IkData, q: Seq<usize>, computed: Seq<bool>, from: int)
    requires
        0 <= from <= q.len(),
    ensures
        first_ready(d, q, computed, from) >= from,
    decreases q.len() - from,
{
    if from < q.len() && !(!computed[q[from] as int] && all_computed(d, computed, q[from] as int)) {
        lemma_first_ready_ge(d, q, computed, from + 1);
    }
}

/// Requeueing a non-ready entry strictly lowers the measure
/// `first_ready - head`, because a ready uncomputed entry exists behind it.
proof fn lemma_first_ready_requeue(
    g: ArmatureGraph,
    d: IkData,
    goals: Seq<IkGoal>,
    old_ps: Seq<Vec3>,
    new_ps: Seq<Vec3>,
    computed: Seq<bool>,
    q0: Seq<usize>,
    q: Seq<usize>,
    head0: int,
    head: int,
    j: int,
)
    requires
        fwd_inv(g, d, goals, old_ps, new_ps, computed, q, head),
        head == head0 + 1,
        0 <= head0 < q0.len(),
        q == q0.push(q0[head0]),
        q0[head0] == j as usize,
        0 <= j < g.n(),
        d.influenced(j),
        !computed[j],
        !all_computed(d, computed, j),
    ensures
        first_ready(d, q, computed, head) - head < first_ready(d, q0, computed, head0) - head0,
        first_ready(d, q, computed, head) >= head,
        first_ready(d, q, computed, head) < q.len(),
{
    lemma_exists_ready(g, d, goals, old_ps, new_ps, computed, q, head, j);
    let i = choose|i: int|
        head <= i < q.len() && !computed[(#[trigger] q[i]) as int] && all_computed(
            d,
            computed,
            q[i] as int,
        );
    assert(i < q0.len()) by {
        if i == q0.len() {
            assert(q[i] == j as usize);
        }
    }
    assert(q[i] == q0[i]);
    lemma_first_ready_found(d, q0, computed, head, i);
    lemma_first_ready_prefix_aux(d, q0, q, computed, head);
    assert(first_ready(d, q0, computed, head0) == first_ready(d, q0, computed, head));
    lemma_first_ready_ge(d, q, computed, head);
}

/// If some entry at or after `from` is ready, the first ready index is at
/// most that entry.
proof fn lemma_first_ready_found(d: IkData, q: Seq<usize>, computed: Seq<bool>, from: int, i: int)
    requires
        0 <= from <= i < q.len(),
        !computed[q[i] as int],
        all_computed(d, computed, q[i] as int),
    ensures
        first_ready(d, q, computed, from) <= i,
    decreases i - from,
{
    if from < i && !(!computed[q[from] as int] && all_computed(d, computed, q[from] as int)) {
        lemma_first_ready_found(d, q, computed, from + 1, i);
    }
}

/// Helper: the two scans agree until the shorter queue ends.
proof fn lemma_first_ready_prefix_aux(
    d: IkData,
    q0: Seq<usize>,
    q: Seq<usize>,
    computed: Seq<bool>,
    from: int,
)
    requires
        0 <= from <= q0.len(),
        q.len() == q0.len() + 1,
        forall|i: int| 0 <= i < q0.len() ==> q[i] == q0[i],
    ensures
        first_ready(d, q0, computed, from) == first_ready(d, q, computed, from) || first_ready(
            d,
            q0,
            computed,
            from,
        ) == q0.len() && first_ready(d, q, computed, from) >= q0.len(),
    decreases q0.len() - from,
{
    if from < q0.len() {
        assert(q[from] == q0[from]);
        if !computed[q0[from] as int] && all_computed(d, computed, q0[from] as int) {
            assert(first_ready(d, q0, computed, from) == from);
            assert(first_ready(d, q, computed, from) == from);
        } else {
            lemma_first_ready_prefix_aux(d, q0, q, computed, from + 1);
            assert(first_ready(d, q0, computed, from) == first_ready(d, q0, computed, from + 1));
            assert(first_ready(d, q, computed, from) == first_ready(d, q, computed, from + 1));
        }
    } else {
        assert(first_ready(d, q0, computed, from) == from);
        lemma_first_ready_ge(d, q, computed, from);
    }
}

/// Re-establishes the queue invariant after computing joint `j` and
/// (unless `j` is a root) pushing its parent.
proof fn lemma_fwd_inv_after_compute(
    g: ArmatureGraph,
    d: IkData,
    goals: Seq<IkGoal>,
    old_ps: Seq<Vec3>,
    new_ps: Seq<Vec3>,
    computed0: Seq<bool>,
    computed: Seq<bool>,
    q0: Seq<usize>,
    q: Seq<usize>,
    head0: int,
    head: int,
    j: int,
)
    requires
        ctx_wf(g, d, goals),
        old_ps.len() == g.n(),
        new_ps.len() == g.n(),
        computed0.len() == g.n(),
        head == head0 + 1,
        0 <= head0 < q0.len(),
        q0[head0] == j as usize,
        0 <= j < g.n(),
        d.influenced(j),
        !computed0[j],
        computed == computed0.update(j, true),
        all_computed(d, computed0, j),
        // queue facts inherited from before the pop
        forall|i: int| head0 <= i < q0.len() ==> (#[trigger] q0[i]) < g.n(),
        forall|i: int| head0 <= i < q0.len() ==> d.influenced(#[trigger] q0[i] as int),
        forall|jj: int|
            0 <= jj < g.n() && #[trigger] computed0[jj] ==> d.influenced(jj) && (new_ps[jj])@
                == fwd_pos(g, d, goals, views(old_ps), jj) && in_work_range((new_ps[jj])@),
        forall|jj: int|
            0 <= jj < g.n() && !(#[trigger] computed0[jj]) && jj != j ==> new_ps[jj] == old_ps[jj],
        (new_ps[j])@ == fwd_pos(g, d, goals, views(old_ps), j) && in_work_range((new_ps[j])@),
        forall|jj: int|
            0 <= jj < g.n() && #[trigger] computed0[jj] ==> all_computed(d, computed0, jj),
        forall|jj: int, kk: int|
            0 <= jj < g.n() && !computed0[jj] && 0 <= kk < d.required_of(jj).len() && computed0[(
            #[trigger] d.required_of(jj)[kk]) as int] && jj != j ==> q0.subrange(
                head as int,
                q0.len() as int,
            ).contains(jj as usize),
        forall|jj: int|
            0 <= jj < g.n() && #[trigger] d.is_target(jj) && !computed0[jj] && jj != j
                ==> q0.subrange(head as int, q0.len() as int).contains(jj as usize),
        // the push, if any
        d.is_root(j) || g.parent_of(j) is None ==> q == q0,
        !(d.is_root(j) || g.parent_of(j) is None) ==> (q == q0 || q == q0.push(
            g.parent_of(j)->Some_0,
        )) && (q.subrange(head, q.len() as int).contains(g.parent_of(j)->Some_0)),
    ensures
        fwd_inv(g, d, goals, old_ps, new_ps, computed, q, head),
{
    assert forall|jj: int|
        0 <= jj < g.n() && #[trigger] computed[jj] implies d.influenced(jj) && (new_ps[jj])@
        == fwd_pos(g, d, goals, views(old_ps), jj) && in_work_range((new_ps[jj])@) by {
        if jj != j {
            assert(computed0[jj]);
        }
    }
    assert forall|jj: int|
        0 <= jj < g.n() && #[trigger] computed[jj] implies all_computed(d, computed, jj) by {
        if jj != j {
            assert(all_computed(d, computed0, jj));
        }
        assert forall|kk: int|
            0 <= kk < d.required_of(jj).len() implies computed[(#[trigger] d.required_of(
            jj,
        )[kk]) as int] by {
            if jj != j {
                assert(computed0[d.required_of(jj)[kk] as int]);
            }
        }
    }
    let pending = q.subrange(head, q.len() as int);
    assert forall|i: int| head <= i < q.len() implies (#[trigger] q[i]) < g.n() && d.influenced(
        q[i] as int,
    ) by {
        if i < q0.len() {
            assert(q[i] == q0[i]);
        } else {
            assert(q[i] == g.parent_of(j)->Some_0);
            let p = g.parent_of(j)->Some_0 as int;
            // the parent of an influenced non-root joint records it as a
            // dependency, so the parent is influenced too
            assert(!d.is_root(j));
            assert(d.required_of(p).contains(j as usize));
            assert(d.required_of(p).len() > 0);
        }
    }
    assert forall|jj: int, kk: int|
        0 <= jj < g.n() && !computed[jj] && 0 <= kk < d.required_of(jj).len() && computed[(
        #[trigger] d.required_of(jj)[kk]) as int] implies pending.contains(jj as usize) by {
        let cc = d.required_of(jj)[kk] as int;
        if cc == j {
            // just computed: jj is the parent of j and was pushed, unless
            // j is a root, which never happens for a dependency
            assert(g.parent_of(j) == Some(jj as usize));
            assert(!d.is_root(j)) by {
                assert(d.required_of(jj)[kk] == j as usize);
            }
            assert(pending.contains(g.parent_of(j)->Some_0));
        } else {
            assert(computed0[cc]);
            assert(q0.subrange(head, q0.len() as int).contains(jj as usize));
            let i = choose|i: int|
                0 <= i < q0.subrange(head, q0.len() as int).len() && q0.subrange(
                    head,
                    q0.len() as int,
                )[i] == jj as usize;
            assert(q[head + i] == q0[head + i]);
            assert(pending[i] == jj as usize);
        }
    }
    assert forall|jj: int|
        0 <= jj < g.n() && #[trigger] d.is_target(jj) && !computed[jj] implies pending.contains(
        jj as usize,
    ) by {
        assert(q0.subrange(head, q0.len() as int).contains(jj as usize));
        let i = choose|i: int|
            0 <= i < q0.subrange(head, q0.len() as int).len() && q0.subrange(
                head,
                q0.len() as int,
            )[i] == jj as usize;
        assert(q[head + i] == q0[head + i]);
        assert(pending[i] == jj as usize);
    }
}

/// A pending-queue element other than the front survives the pop.
proof fn lemma_pending_pop(q: Seq<usize>, head0: int, x: usize)
    requires
        0 <= head0 < q.len(),
        q.subrange(head0, q.len() as int).contains(x),
        x != q[head0],
    ensures
        q.subrange(head0 + 1, q.len() as int).contains(x),
{
    let p0 = q.subrange(head0, q.len() as int);
    let i = choose|i: int| 0 <= i < p0.len() && p0[i] == x;
    assert(i > 0);
    assert(q.subrange(head0 + 1, q.len() as int)[i - 1] == x);
}

/// Every pending element survives a push, and the pushed one is pending.
proof fn lemma_pending_push(q0: Seq<usize>, e: usize, head: int)
    requires
        0 <= head <= q0.len(),
    ensures
        forall|x: usize|
            q0.subrange(head, q0.len() as int).contains(x) ==> #[trigger] q0.push(e).subrange(
                head,
                q0.len() as int + 1,
            ).contains(x),
        q0.push(e).subrange(head, q0.len() as int + 1).contains(e),
{
    let q = q0.push(e);
    let p = q.subrange(head, q0.len() as int + 1);
    assert(p[q0.len() - head] == e);
    assert(p.contains(e));
    assert forall|x: usize|
        q0.subrange(head, q0.len() as int).contains(x) implies #[trigger] p.contains(x) by {
        let p0 = q0.subrange(head, q0.len() as int);
        let i = choose|i: int| 0 <= i < p0.len() && p0[i] == x;
        assert(p[i] == x);
    }
}

/// The backward-pass queue invariant.
pub open spec fn back_inv(
    g: ArmatureGraph,
    d: IkData,
    goals: Seq<IkGoal>,
    old_ps: Seq<Vec3>,
    buf0: Seq<Vec3>,
    buf: Seq<Vec3>,
    visited: Seq<bool>,
    q: Seq<usize>,
    head: int,
) -> bool {
    let n = g.n();
    &&& ctx_wf(g, d, goals)
    &&& old_ps.len() == n
    &&& buf0.len() == n
    &&& buf.len() == n
    &&& visited.len() == n
    &&& 0 <= head <= q.len()
    &&& forall|i: int|
        head <= i < q.len() ==> (#[trigger] q[i]) < n && back_visited(g, d, goals, q[i] as int) && (
        d.is_root(q[i] as int) || visited[g.parent_of(q[i] as int)->Some_0 as int])
    &&& forall|j: int|
        0 <= j < n && #[trigger] visited[j] ==> back_visited(g, d, goals, j) && (buf[j])@
            == back_pos(g, d, goals, views(old_ps), views(buf0), j) && in_work_range((buf[j])@)
    &&& forall|j: int| 0 <= j < n && !(#[trigger] visited[j]) ==> buf[j] == buf0[j]
    &&& forall|j: int|
        0 <= j < n && #[trigger] d.is_root(j) ==> visited[j] || q.subrange(
            head,
            q.len() as int,
        ).contains(j as usize)
    &&& forall|j: int, k: int|
        0 <= j < n && #[trigger] visited[j] && 0 <= k < d.required_of(j).len() ==> visited[(
        #[trigger] d.required_of(j)[k]) as int] || q.subrange(head, q.len() as int).contains(
            d.required_of(j)[k],
        )
}

/// Once the backward queue has drained, every reachable joint was visited.
proof fn lemma_back_complete(
    g: ArmatureGraph,
    d: IkData,
    goals: Seq<IkGoal>,
    old_ps: Seq<Vec3>,
    buf0: Seq<Vec3>,
    buf: Seq<Vec3>,
    visited: Seq<bool>,
    q: Seq<usize>,
    head: int,
    j: int,
)
    requires
        back_inv(g, d, goals, old_ps, buf0, buf, visited, q, head),
        head == q.len(),
        0 <= j < g.n(),
        back_visited(g, d, goals, j),
    ensures
        visited[j],
    decreases g.depth_of(j),
{
    if d.is_root(j) {
    } else {
        let p = g.parent_of(j)->Some_0 as int;
        lemma_back_complete(g, d, goals, old_ps, buf0, buf, visited, q, head, p);
        let k = choose|k: int|
            0 <= k < d.required_of(p).len() && d.required_of(p)[k] == j as usize;
    }
}

/// The backward (root-to-leaf) pass: rewrites the forward buffer in place,
/// pinning roots back to their pre-iteration positions and restoring each
/// link length from the root side.
fn backward_pass(
    graph: &ArmatureGraph,
    data: &IkData,
    positions: &Vec<Vec3>,
    goals: &Vec<IkGoal>,
    buf: &mut Vec<Vec3>,
)
    requires
        graph.wf(),
        data.wf(*graph, goals@),
        positions@.len() == data.n(),
        forall|j: int| 0 <= j < data.n() ==> in_work_range((#[trigger] positions@[j])@),
        old(buf)@.len() == data.n(),
        forall|j: int| 0 <= j < data.n() ==> in_work_range((#[trigger] old(buf)@[j])@),
    ensures
        final(buf)@.len() == data.n(),
        forall|j: int| 0 <= j < data.n() ==> in_work_range((#[trigger] final(buf)@[j])@),
        forall|j: int|
            0 <= j < data.n() && back_visited(*graph, *data, goals@, j) ==> (#[trigger] final(buf)@[j])@
                == back_pos(*graph, *data, goals@, views(positions@), views(old(buf)@), j),
        forall|j: int|
            0 <= j < data.n() && !back_visited(*graph, *data, goals@, j) ==> #[trigger] final(buf)@[j]
                == old(buf)@[j],
{
    let n = buf.len();
    let ghost g = *graph;
    let ghost d = *data;
    let ghost buf0 = old(buf)@;

    let mut visited: Vec<bool> = Vec::new();
    let mut i: usize = 0;
    while i < n
        invariant
            visited@.len() == i <= n,
            forall|j: int| 0 <= j < i ==> !(#[trigger] visited@[j]),
        decreases n - i,
    {
        visited.push(false);
        i = i + 1;
    }

    // Seed the queue with every root.
    let mut q: Vec<usize> = Vec::new();
    let mut i: usize = 0;
    while i < n
        invariant
            0 <= i <= n,
            n == d.n(),
            g == *graph,
            d == *data,
            ctx_wf(g, d, goals@),
            forall|i2: int|
                0 <= i2 < q@.len() ==> (#[trigger] q@[i2]) < n && d.is_root(q@[i2] as int),
            forall|j: int| 0 <= j < i && #[trigger] d.is_root(j) ==> q@.contains(j as usize),
        decreases n - i,
    {
        if data.roots[i] {
            q.push(i);
            proof {
                broadcast use vstd::seq_lib::lemma_seq_contains_after_push;

            }
        }
        i = i + 1;
    }
    let mut head: usize = 0;
    proof {
        assert(back_inv(g, d, goals@, positions@, buf0, buf@, visited@, q@, 0)) by {
            assert(q@.subrange(0, q@.len() as int) =~= q@);
        }
        lemma_count_false_nonneg(visited@);
    }

    while head < q.len()
        invariant
            n == d.n(),
            g == *graph,
            d == *data,
            positions@.len() == n,
            forall|j: int| 0 <= j < n ==> in_work_range((#[trigger] positions@[j])@),
            forall|j: int| 0 <= j < n ==> in_work_range((#[trigger] buf0[j])@),
            buf@.len() == n,
            back_inv(g, d, goals@, positions@, buf0, buf@, visited@, q@, head as int),
        decreases count_false(visited@), q@.len() - head,
    {
        let j = q[head];
        head = head + 1;
        let ghost head0 = head - 1;
        let ghost q0 = q@;
        proof {
            lemma_count_false_nonneg(visited@);
            assert(q0.subrange(head0, q0.len() as int)[0] == j);
            // pending containment survives the pop for everything but j
            assert forall|jj: int|
                0 <= jj < n && #[trigger] d.is_root(jj) && jj != j as int && !visited@[jj] implies q@.subrange(
                head as int,
                q@.len() as int,
            ).contains(jj as usize) by {
                lemma_pending_pop(q0, head0, jj as usize);
            }
            assert forall|jj: int, kk: int|
                0 <= jj < n && #[trigger] visited@[jj] && 0 <= kk < d.required_of(jj).len() && d.required_of(
                    jj,
                )[kk] != j && !visited@[(#[trigger] d.required_of(jj)[kk]) as int] implies q@.subrange(
                head as int,
                q@.len() as int,
            ).contains(d.required_of(jj)[kk]) by {
                lemma_pending_pop(q0, head0, d.required_of(jj)[kk]);
            }
        }

        if visited[j] {
            continue ;
        }

        // Resolve this joint's backward position.
        let fwd_j = buf[j];
        let ghost visited0 = visited@;
        visited[j] = true;
        proof {
            lemma_count_false_update(visited0, j as int);
        }
        if data.roots[j] {
            buf[j] = positions[j];
            proof {
                assert((buf@[j as int])@ == back_pos(g, d, goals@, views(positions@), views(buf0),
                    j as int));
            }
        } else {
            match graph.joint_parent[j] {
                None => {
                    // a non-root joint in this queue always has a parent
                    proof {
                        assert(back_visited(g, d, goals@, j as int));
                        assert(false);
                    }
                },
                Some(p) => {
                    proof {
                        assert(visited0[p as int]);
                        assert(visited@[p as int]);
                        assert((buf@[p as int])@ == back_pos(g, d, goals@, views(positions@),
                            views(buf0), p as int));
                        assert(fwd_j == buf0[j as int]);
                        assert(in_work_range(fwd_j@));
                        assert(back_visited(g, d, goals@, j as int));
                        assert(d.required_of(g.parent_of(j as int)->Some_0 as int).contains(j));
                        assert(0 <= d.len_of(j as int) <= crate::MAX_LEN);
                    }
                    let step = reach_toward(&buf[p], &fwd_j, data.link_lengths[j]);
                    match step {
                        Some(v) => {
                            buf[j] = v;
                        },
                        None => {},
                    }
                    proof {
                        assert((buf@[j as int])@ == back_pos(g, d, goals@, views(positions@),
                            views(buf0), j as int));
                    }
                },
            }
        }

        // Hand the frame down to this joint's dependencies.
        let reqs_len = data.required_positions[j].len();
        let mut k: usize = 0;
        while k < reqs_len
            invariant
                0 <= k <= reqs_len,
                0 <= (j as int) < n,
                n == d.n(),
                g == *graph,
                d == *data,
                ctx_wf(g, d, goals@),
                positions@.len() == n,
                buf@.len() == n,
                visited@.len() == n,
                head <= q@.len(),
                reqs_len == d.required_of(j as int).len(),
                forall|jj: int| 0 <= jj < n ==> in_work_range((#[trigger] positions@[jj])@),
                forall|jj: int| 0 <= jj < n ==> in_work_range((#[trigger] buf0[jj])@),
                visited@[j as int],
                back_visited(g, d, goals@, j as int),
                forall|i2: int|
                    head <= i2 < q@.len() ==> (#[trigger] q@[i2]) < n && back_visited(
                        g,
                        d,
                        goals@,
                        q@[i2] as int,
                    ) && (d.is_root(q@[i2] as int) || visited@[g.parent_of(
                        q@[i2] as int,
                    )->Some_0 as int]),
                forall|jj: int|
                    0 <= jj < n && #[trigger] visited@[jj] ==> back_visited(g, d, goals@, jj) && (
                    buf@[jj])@ == back_pos(g, d, goals@, views(positions@), views(buf0), jj)
                        && in_work_range((buf@[jj])@),
                forall|jj: int| 0 <= jj < n && !(#[trigger] visited@[jj]) ==> buf@[jj] == buf0[jj],
                forall|jj: int|
                    0 <= jj < n && #[trigger] d.is_root(jj) ==> visited@[jj] || q@.subrange(
                        head as int,
                        q@.len() as int,
                    ).contains(jj as usize),
                forall|jj: int, kk: int|
                    0 <= jj < n && #[trigger] visited@[jj] && 0 <= kk < d.required_of(jj).len()
                        && !(jj == j as int && kk >= k) ==> visited@[(#[trigger] d.required_of(
                        jj,
                    )[kk]) as int] || q@.subrange(head as int, q@.len() as int).contains(
                        d.required_of(jj)[kk],
                    ),
            decreases reqs_len - k,
        {
            let c = data.required_positions[j][k];
            let ghost qb = q@;
            q.push(c);
            proof {
                lemma_pending_push(qb, c, head as int);
                assert(back_visited(g, d, goals@, c as int)) by {
                    assert(d.required_of(j as int)[k as int] == c);
                    assert(!d.is_root(c as int));
                    assert(g.parent_of(c as int) == Some(j as usize));
                }
            }
            k = k + 1;
        }
    }
    proof {
        assert forall|j: int|
            0 <= j < n && back_visited(g, d, goals@, j) implies visited@[j] by {
            lemma_back_complete(g, d, goals@, positions@, buf0, buf@, visited@, q@, head as int,
                j);
        }
        assert forall|j: int| 0 <= j < n implies in_work_range((#[trigger] buf@[j])@) by {
            if !visited@[j] {
                assert(buf@[j] == buf0[j]);
            }
        }
        assert forall|j: int|
            0 <= j < n && !back_visited(g, d, goals@, j) implies #[trigger] buf@[j] == buf0[j] by {
            assert(!visited@[j]);
        }
    }
}

/// Run the FABRIK solver: up to `max_iterations` forward/backward sweeps,
/// stopping as soon as every goal is within `goal_tolerance` of its target
/// joint.  Only `joint_positions` changes, and the result is exactly
/// [`run_iters`] applied to the seed positions: roots never move, joints
/// outside every goal's chain never move, and an already-converged pose is
/// returned unchanged.
pub fn compute_joint_positions(
    graph: &ArmatureGraph,
    data: &mut IkData,
    goals: &Vec<IkGoal>,
    settings: &IkSettings,
)
    requires
        graph.wf(),
        old(data).wf(*graph, goals@),
        goals_in_range(goals@),
        settings.wf(),
    ensures
        final(data).wf(*graph, goals@),
        final(data).link_lengths == old(data).link_lengths,
        final(data).required_positions == old(data).required_positions,
        final(data).joints_to_goals == old(data).joints_to_goals,
        final(data).roots == old(data).roots,
        final(data).joint_positions@.len() == old(data).n(),
        views(final(data).joint_positions@) == run_iters(
            *graph,
            *old(data),
            goals@,
            views(old(data).joint_positions@),
            settings.goal_tolerance as int,
            settings.max_iterations as nat,
        ),
{
    let n = data.joint_positions.len();
    let ghost g = *graph;
    let ghost d = *old(data);
    let ghost seed = views(old(data).joint_positions@);
    let tol = settings.goal_tolerance;

    // Work on a copy; the context stays untouched until the final flip.
    let mut current: Vec<Vec3> = Vec::new();
    let mut i: usize = 0;
    while i < n
        invariant
            0 <= i <= n,
            n == data.joint_positions@.len(),
            data == old(data),
            current@.len() == i,
            forall|j: int| 0 <= j < i ==> #[trigger] current@[j] == data.joint_positions@[j],
        decreases n - i,
    {
        current.push(data.joint_positions[i]);
        i = i + 1;
    }
    proof {
        assert(current@ =~= old(data).joint_positions@);
        assert forall|j: int| 0 <= j < n implies in_work_range((#[trigger] current@[j])@) by {
            assert(in_work_range(d.pos_of(j)));
        }
    }

    let mut it: u32 = 0;
    while it < settings.max_iterations
        invariant
            0 <= it <= settings.max_iterations,
            n == d.n(),
            g == *graph,
            d == *old(data),
            data == old(data),
            goals_in_range(goals@),
            ctx_wf(g, d, goals@),
            settings.wf(),
            tol == settings.goal_tolerance,
            current@.len() == n,
            forall|j: int| 0 <= j < n ==> in_work_range((#[trigger] current@[j])@),
            run_iters(g, d, goals@, seed, tol as int, settings.max_iterations as nat) == run_iters(
                g,
                d,
                goals@,
                views(current@),
                tol as int,
                (settings.max_iterations - it) as nat,
            ),
        ensures
            data == old(data),
            current@.len() == n,
            forall|j: int| 0 <= j < n ==> in_work_range((#[trigger] current@[j])@),
            run_iters(g, d, goals@, seed, tol as int, settings.max_iterations as nat) == views(
                current@,
            ),
        decreases settings.max_iterations - it,
    {
        // Convergence check: the farthest goal decides.
        let mut far = false;
        let mut gi: usize = 0;
        let ghost ms = views(current@);
        while gi < goals.len()
            invariant
                0 <= gi <= goals@.len(),
                n == d.n(),
                d == *old(data),
                data == old(data),
                ctx_wf(g, d, goals@),
                goals_in_range(goals@),
                tol == settings.goal_tolerance,
                settings.wf(),
                current@.len() == n,
                forall|j: int| 0 <= j < n ==> in_work_range((#[trigger] current@[j])@),
                ms == views(current@),
                far <==> exists|gk: int|
                    0 <= gk < gi && dist_sq(
                        (#[trigger] goals@[gk]).position@,
                        ms[goals@[gk].target_joint as int],
                    ) >= tol * tol,
            decreases goals@.len() - gi,
        {
            let t = goals[gi].target_joint;
            proof {
                assert(goals@[gi as int].target_joint < n);
                assert(in_work_range(goals@[gi as int].position@));
            }
            let dsq: u128 = dist_sq_exec(&goals[gi].position, &current[t]);
            proof {
                assert((tol as int) * (tol as int) <= 1048576 * 1048576) by (nonlinear_arith)
                    requires
                        0 < tol <= 1048576,
                ;
            }
            let tolsq: u128 = (tol as u128) * (tol as u128);
            if dsq >= tolsq {
                far = true;
            }
            gi = gi + 1;
        }
        if !far {
            proof {
                assert(converged(d, goals@, views(current@), tol as int));
                assert(run_iters(g, d, goals@, views(current@), tol as int, (
                settings.max_iterations - it) as nat) == views(current@));
            }
            break ;
        }
        proof {
            assert(!converged(d, goals@, views(current@), tol as int)) by {
                let gk = choose|gk: int|
                    0 <= gk < goals@.len() && dist_sq(
                        (#[trigger] goals@[gk]).position@,
                        ms[goals@[gk].target_joint as int],
                    ) >= tol * tol;
            }
        }

        // One forward/backward sweep, then flip the buffer.
        let (mut buf, _computed) = forward_pass(graph, data, &current, goals);
        proof {
            assert(views(buf@) =~= fwd_buf(g, d, goals@, views(current@)));
        }
        let ghost buf_before = buf@;
        backward_pass(graph, data, &current, goals, &mut buf);
        proof {
            assert(views(buf@) =~= iter_spec(g, d, goals@, views(current@)));
        }
        current = buf;
        it = it + 1;
    }
    data.joint_positions = current;
    proof {
        lemma_wf_same_structure(g, d, *data, goals@);
    }
}

/// Well-formedness only inspects the context's structure and the position
/// ranges, so it carries over to a context with new in-range positions.
proof fn lemma_wf_same_structure(g: ArmatureGraph, d1: IkData, d2: IkData, goals: Seq<IkGoal>)
    requires
        d1.wf(g, goals),
        d2.link_lengths == d1.link_lengths,
        d2.required_positions == d1.required_positions,
        d2.joints_to_goals == d1.joints_to_goals,
        d2.roots == d1.roots,
        d2.joint_positions@.len() == d1.joint_positions@.len(),
        forall|j: int| 0 <= j < d2.n() ==> in_work_range(#[trigger] d2.pos_of(j)),
    ensures
        d2.wf(g, goals),
{
    assert(d1.n() == d2.n());
    assert forall|j: int| 0 <= j < d2.n() implies #[trigger] d2.required_of(j) == d1.required_of(
        j,
    ) && d2.goal_of(j) == d1.goal_of(j) && d2.is_root(j) == d1.is_root(j) && d2.len_of(j)
        == d1.len_of(j) by {}
    assert forall|j: int| 0 <= j < d2.n() && #[trigger] d2.is_root(j) implies d2.influenced(j) by {
        assert(d1.is_root(j));
        assert(d1.influenced(j));
        if d1.is_required_child(j) {
            let p = choose|p: int|
                0 <= p < d1.n() && (#[trigger] d1.required_of(p)).contains(j as usize);
            assert(d2.required_of(p) == d1.required_of(p));
            assert(d2.required_of(p).contains(j as usize));
            assert(d2.is_required_child(j));
        }
    }
    assert forall|j: int|
        0 <= j < d2.n() && #[trigger] d2.influenced(j) && !d2.is_root(j) && g.parent_of(
            j,
        ) is Some implies d2.required_of(g.parent_of(j)->Some_0 as int).contains(j as usize) by {
        assert(d1.influenced(j)) by {
            if d2.is_required_child(j) {
                let p = choose|p: int|
                    0 <= p < d2.n() && (#[trigger] d2.required_of(p)).contains(j as usize);
                assert(d1.required_of(p) == d2.required_of(p));
                assert(d1.required_of(p).contains(j as usize));
                assert(d1.is_required_child(j));
            }
        }
        assert(d1.required_of(g.parent_of(j)->Some_0 as int).contains(j as usize));
    }
    let n = d2.n();
    assert(n == g.n());
    assert(d2.link_lengths@.len() == n);
    assert(d2.required_positions@.len() == n);
    assert(d2.joints_to_goals@.len() == n);
    assert(d2.roots@.len() == n);
    assert forall|j: int, k: int|
        0 <= j < n && 0 <= k < d2.required_of(j).len() implies (#[trigger] d2.required_of(j)[k]) < n
        && g.parent_of(d2.required_of(j)[k] as int) == Some(j as usize) by {
        assert(d1.required_of(j)[k] == d2.required_of(j)[k]);
        assert((d1.required_of(j)[k]) < n && g.parent_of(d1.required_of(j)[k] as int) == Some(
            j as usize,
        ));
    }
    assert(forall|j: int, k1: int, k2: int|
        0 <= j < n && 0 <= k1 < k2 < d2.required_of(j).len() ==> d2.required_of(j)[k1]
            != d2.required_of(j)[k2]);
    assert(forall|j: int, k: int|
        0 <= j < n && 0 <= k < d2.required_of(j).len() ==> !d2.is_root(
            (#[trigger] d2.required_of(j)[k]) as int,
        ));
    assert forall|j: int, k: int|
        0 <= j < n && 0 <= k < d2.required_of(j).len() implies d2.is_target(
        (#[trigger] d2.required_of(j)[k]) as int,
    ) || d2.required_of(d2.required_of(j)[k] as int).len() > 0 by {
        let c = d1.required_of(j)[k] as int;
        assert(d1.is_target(c) || d1.required_of(c).len() > 0);
    }
    assert forall|j: int|
        0 <= j < n implies match #[trigger] d2.goal_of(j) {
        Some(gi) => gi < goals.len() && goals[gi as int].target_joint == j,
        None => true,
    } by {
        assert(d1.goal_of(j) == d2.goal_of(j));
        assert(match d1.goal_of(j) {
            Some(gi) => gi < goals.len() && goals[gi as int].target_joint == j,
            None => true,
        });
    }
    assert(forall|gi: int|
        0 <= gi < goals.len() ==> (#[trigger] goals[gi].target_joint) < n && d2.is_target(
            goals[gi].target_joint as int,
        ) && goals[gi].chain_length >= 1);
    assert(forall|j: int| 0 <= j < n && #[trigger] d2.is_target(j) ==> d2.required_of(j).len() == 0);
    assert(forall|j: int| 0 <= j < n ==> (#[trigger] d2.required_of(j)).len() <= n);
    assert(forall|j: int| 0 <= j < n ==> in_work_range(#[trigger] d2.pos_of(j)));
    assert forall|j: int| 0 <= j < n implies 0 <= #[trigger] d2.len_of(j) <= crate::MAX_LEN by {
        assert(d1.len_of(j) == d2.len_of(j));
    }
}

} // verus!
