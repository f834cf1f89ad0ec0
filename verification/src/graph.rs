//! Armature graph construction: derive the parent/child adjacency and the
//! per-joint depth from the arena, rejecting malformed hierarchies (bad
//! parent indices, cycles) before any other stage runs.

use vstd::prelude::*;

use crate::joint::Joint;
use crate::{IkError, MAX_JOINTS};

verus! {

/// The joint tree, rebuilt in full on every pipeline invocation.
#[derive(Debug)]
pub struct ArmatureGraph {
    /// Parent joint of each joint, absent for roots.
    pub joint_parent: Vec<Option<usize>>,
    /// Children of each joint, in ascending index order.
    pub joint_children: Vec<Vec<usize>>,
    /// Number of parent steps from each joint to its root.
    pub joint_depth: Vec<usize>,
}

/// The parent link of each joint of the arena.
pub open spec fn parent_seq(js: Seq<Joint>) -> Seq<Option<usize>> {
    js.map(|i: int, j: Joint| j.parent)
}

/// Number of parent steps from `j` to a root, or `None` if `fuel` steps do
/// not reach one (in particular, on any cycle once `fuel` covers the arena).
pub open spec fn chain_height(parents: Seq<Option<usize>>, j: int, fuel: nat) -> Option<nat>
    decreases fuel,
{
    match parents[j] {
        None => Some(0),
        Some(p) => if fuel == 0 {
            None
        } else {
            match chain_height(parents, p as int, (fuel - 1) as nat) {
                None => None,
                Some(h) => Some((h + 1) as nat),
            }
        },
    }
}

/// A chain height never exceeds the fuel that found it.
pub proof fn lemma_chain_height_le_fuel(parents: Seq<Option<usize>>, j: int, fuel: nat)
    requires
        chain_height(parents, j, fuel) is Some,
    ensures
        chain_height(parents, j, fuel)->Some_0 <= fuel,
    decreases fuel,
{
    match parents[j] {
        None => {},
        Some(p) => {
            lemma_chain_height_le_fuel(parents, p as int, (fuel - 1) as nat);
        },
    }
}

/// More fuel never changes a height that was already found.
pub proof fn lemma_chain_height_mono(parents: Seq<Option<usize>>, j: int, f1: nat, f2: nat)
    requires
        f1 <= f2,
        chain_height(parents, j, f1) is Some,
    ensures
        chain_height(parents, j, f2) == chain_height(parents, j, f1),
    decreases f1,
{
    match parents[j] {
        None => {},
        Some(p) => {
            lemma_chain_height_mono(parents, p as int, (f1 - 1) as nat, (f2 - 1) as nat);
        },
    }
}

/// Every parent index is in range and no joint is its own parent.
pub open spec fn parents_in_range(js: Seq<Joint>) -> bool {
    forall|j: int|
        0 <= j < js.len() ==> match (#[trigger] js[j]).parent {
            Some(p) => p < js.len() && p != j,
            None => true,
        }
}

/// Every parent chain reaches a root within `len` steps.
pub open spec fn acyclic(js: Seq<Joint>) -> bool {
    forall|j: int|
        0 <= j < js.len() ==> #[trigger] chain_height(parent_seq(js), j, js.len() as nat) is Some
}

impl ArmatureGraph {
    /// Number of joints.
    pub open spec fn n(self) -> int {
        self.joint_parent@.len() as int
    }

    /// Parent of joint `j`.
    pub open spec fn parent_of(self, j: int) -> Option<usize> {
        self.joint_parent@[j]
    }

    /// Depth of joint `j`.
    pub open spec fn depth_of(self, j: int) -> int {
        self.joint_depth@[j] as int
    }

    /// Children of joint `j`.
    pub open spec fn children_of(self, j: int) -> Seq<usize> {
        self.joint_children@[j]@
    }

    /// Parent and child links agree, depths count parent steps, and
    /// everything is in range.
    pub open spec fn wf(self) -> bool {
        let n = self.n();
        &&& self.joint_children@.len() == n
        &&& self.joint_depth@.len() == n
        &&& n <= MAX_JOINTS
        &&& forall|j: int|
            0 <= j < n ==> match #[trigger] self.parent_of(j) {
                Some(p) => p < n && self.depth_of(j) == self.depth_of(p as int) + 1,
                None => self.depth_of(j) == 0,
            }
        &&& forall|j: int| 0 <= j < n ==> #[trigger] self.depth_of(j) <= n
        &&& forall|j: int, k: int|
            0 <= j < n && 0 <= k < self.children_of(j).len() ==> (#[trigger] self.children_of(j)[k])
                < n && self.parent_of(self.children_of(j)[k] as int) == Some(j as usize)
        &&& forall|c: int|
            0 <= c < n && #[trigger] self.parent_of(c) is Some ==> self.children_of(
                self.parent_of(c)->Some_0 as int,
            ).contains(c as usize)
    }

    /// The graph was derived from this arena.
    pub open spec fn matches(self, js: Seq<Joint>) -> bool {
        &&& self.n() == js.len()
        &&& forall|j: int| 0 <= j < js.len() ==> self.parent_of(j) == (#[trigger] js[j]).parent
    }
}

/// Derive the armature tree from the arena's parent links.
///
/// Fails fast on an oversized arena, an out-of-range or self parent index,
/// or a cyclic hierarchy; the error cases are exact and mutually exclusive.
pub fn create_armature_tree(joints: &Vec<Joint>) -> (r: Result<ArmatureGraph, IkError>)
    ensures
        r is Ok ==> (r->Ok_0).wf() && (r->Ok_0).matches(joints@),
        r == Err::<ArmatureGraph, IkError>(IkError::TooManyJoints) <==> joints@.len() > MAX_JOINTS,
        r == Err::<ArmatureGraph, IkError>(IkError::InvalidParentIndex) <==> joints@.len()
            <= MAX_JOINTS && !parents_in_range(joints@),
        r == Err::<ArmatureGraph, IkError>(IkError::CyclicHierarchy) <==> joints@.len()
            <= MAX_JOINTS && parents_in_range(joints@) && !acyclic(joints@),
        r is Ok <==> joints@.len() <= MAX_JOINTS && parents_in_range(joints@) && acyclic(joints@),
{
    let n = joints.len();
    if n > MAX_JOINTS {
        return Err(IkError::TooManyJoints);
    }
    // Validate parent indices and copy them out.
    let mut joint_parent: Vec<Option<usize>> = Vec::new();
    let mut j: usize = 0;
    while j < n
        invariant
            0 <= j <= n,
            n == joints@.len(),
            n <= MAX_JOINTS,
            joint_parent@.len() == j,
            forall|i: int| 0 <= i < j ==> joint_parent@[i] == (#[trigger] joints@[i]).parent,
            forall|i: int|
                0 <= i < j ==> match (#[trigger] joints@[i]).parent {
                    Some(p) => p < n && p != i,
                    None => true,
                },
        decreases n - j,
    {
        match joints[j].parent {
            Some(p) => {
                if p >= n || p == j {
                    assert(!parents_in_range(joints@)) by {
                        assert(joints@[j as int].parent == Some(p));
                    }
                    return Err(IkError::InvalidParentIndex);
                }
                joint_parent.push(Some(p));
            },
            None => {
                joint_parent.push(None);
            },
        }
        j = j + 1;
    }
    assert(parents_in_range(joints@));
    assert(joint_parent@ =~= parent_seq(joints@));

    // Compute depths by walking each parent chain; a walk that has not
    // reached a root after `n` steps has revisited some joint.
    let ghost parents = parent_seq(joints@);
    let mut joint_depth: Vec<usize> = Vec::new();
    let mut j: usize = 0;
    while j < n
        invariant
            0 <= j <= n,
            n == joints@.len(),
            n <= MAX_JOINTS,
            joint_parent@ == parents,
            parents == parent_seq(joints@),
            parents.len() == n,
            parents_in_range(joints@),
            joint_depth@.len() == j,
            forall|i: int|
                0 <= i < j ==> chain_height(parents, i, n as nat) == Some(
                    (#[trigger] joint_depth@[i]) as nat,
                ),
        decreases n - j,
    {
        let mut cur: usize = j;
        let mut steps: usize = 0;
        loop
            invariant_except_break
                n == joints@.len(),
                n <= MAX_JOINTS,
                joint_parent@ == parents,
                parents == parent_seq(joints@),
                parents.len() == n,
                parents_in_range(joints@),
                0 <= steps <= n,
                0 <= cur < n,
                j < n,
                match chain_height(parents, cur as int, (n - steps) as nat) {
                    Some(h) => chain_height(parents, j as int, n as nat) == Some((steps + h) as nat),
                    None => chain_height(parents, j as int, n as nat) is None,
                },
            ensures
                chain_height(parents, j as int, n as nat) == Some(steps as nat),
                steps <= n,
            decreases n - steps,
        {
            match joint_parent[cur] {
                None => {
                    break ;
                },
                Some(p) => {
                    if steps == n {
                        assert(chain_height(parents, cur as int, 0) is None);
                        assert(!acyclic(joints@)) by {
                            assert(chain_height(parents, j as int, n as nat) is None);
                        }
                        return Err(IkError::CyclicHierarchy);
                    }
                    cur = p;
                    steps = steps + 1;
                },
            }
        }
        joint_depth.push(steps);
        j = j + 1;
    }
    assert(acyclic(joints@)) by {
        assert forall|i: int| 0 <= i < n implies #[trigger] chain_height(
            parents,
            i,
            n as nat,
        ) is Some by {
            assert(chain_height(parents, i, n as nat) == Some((joint_depth@[i]) as nat));
        }
    }

    // Gather children in ascending index order.
    let mut joint_children: Vec<Vec<usize>> = Vec::new();
    let mut j: usize = 0;
    while j < n
        invariant
            0 <= j <= n,
            n == joints@.len(),
            joint_parent@ == parents,
            parents == parent_seq(joints@),
            parents.len() == n,
            joint_children@.len() == j,
            forall|i: int, k: int|
                0 <= i < j && 0 <= k < joint_children@[i]@.len() ==> (#[trigger] joint_children@[i]@[k])
                    < n && parents[joint_children@[i]@[k] as int] == Some(i as usize),
            forall|i: int, c: int|
                0 <= i < j && 0 <= c < n && parents[c] == Some(i as usize) ==> joint_children@[i]@
                    .contains(c as usize),
        decreases n - j,
    {
        let mut kids: Vec<usize> = Vec::new();
        let mut c: usize = 0;
        while c < n
            invariant
                0 <= c <= n,
                n == joints@.len(),
                joint_parent@ == parents,
                parents.len() == n,
                j < n,
                forall|k: int|
                    0 <= k < kids@.len() ==> (#[trigger] kids@[k]) < n && parents[kids@[k] as int]
                        == Some(j as usize),
                forall|i: int|
                    0 <= i < c && parents[i] == Some(j as usize) ==> kids@.contains(i as usize),
            decreases n - c,
        {
            let is_child = match joint_parent[c] {
                Some(p) => p == j,
                None => false,
            };
            let ghost old_kids = kids@;
            if is_child {
                kids.push(c);
                assert(kids@[kids@.len() - 1] == c);
            }
            proof {
                assert forall|i: int|
                    0 <= i < c + 1 && parents[i] == Some(j as usize) implies kids@.contains(
                    i as usize,
                ) by {
                    if i < c {
                        let k = choose|k: int|
                            0 <= k < old_kids.len() && old_kids[k] == i as usize;
                        assert(kids@[k] == i as usize);
                    } else {
                        assert(kids@[kids@.len() - 1] == i as usize);
                    }
                }
            }
            c = c + 1;
        }
        joint_children.push(kids);
        j = j + 1;
    }

    let graph = ArmatureGraph { joint_parent, joint_children, joint_depth };
    proof {
        assert forall|i: int| 0 <= i < n implies match #[trigger] graph.parent_of(i) {
            Some(p) => p < n && graph.depth_of(i) == graph.depth_of(p as int) + 1,
            None => graph.depth_of(i) == 0,
        } by {
            lemma_chain_height_le_fuel(parents, i, n as nat);
            match parents[i] {
                Some(p) => {
                    lemma_chain_height_le_fuel(parents, p as int, n as nat);
                    assert(chain_height(parents, i, n as nat) matches Some(h) ==> h >= 1);
                    lemma_chain_height_mono(parents, p as int, (n - 1) as nat, n as nat);
                },
                None => {},
            }
        }
        assert forall|i: int| 0 <= i < n implies #[trigger] graph.depth_of(i) <= n by {
            lemma_chain_height_le_fuel(parents, i, n as nat);
        }
    }
    Ok(graph)
}

} // verus!
