//! Nodes of a decision diagram and the mathematical model of what a node
//! means: a Boolean function of an assignment of the variables.

use vstd::prelude::*;

verus! {

/// A handle to one node of a [`crate::manager::Manager`]'s store.  Two handles
/// of the same manager denote the same Boolean function exactly when their
/// `id` fields are equal.
#[derive(Clone, Copy, PartialEq, Eq, Structural, Debug)]
pub struct Node {
    pub id: usize,
}

/// The stored shape of one node: one of the two terminals, or a branch that
/// tests the variable `level` and continues with `then_id` when it is set and
/// with `else_id` when it is not.
#[derive(Clone, Copy, PartialEq, Eq, Structural, Debug)]
pub enum NodeData {
    False,
    True,
    Branch { level: u64, then_id: usize, else_id: usize },
}

impl Node {
    /// The terminal for the constant function `false` is always stored first.
    pub fn is_false(&self) -> (r: bool)
        ensures
            r == (self.id == 0),
    {
        self.id == 0
    }

    /// The terminal for the constant function `true` is always stored second.
    pub fn is_true(&self) -> (r: bool)
        ensures
            r == (self.id == 1),
    {
        self.id == 1
    }
}

/// The Boolean function denoted by the node stored at `i`: an assignment maps
/// every variable level to a Boolean, and a branch chooses a child by the
/// value of its own level (the Shannon expansion).  Out-of-range indices and
/// ill-formed children are read as `false`; a well-formed store never has
/// them.
pub open spec fn sem(nodes: Seq<NodeData>, i: int, a: spec_fn(nat) -> bool) -> bool
    decreases i,
{
    if 0 <= i < nodes.len() {
        match nodes[i] {
            NodeData::False => false,
            NodeData::True => true,
            NodeData::Branch { level, then_id, else_id } => {
                if then_id < i && else_id < i {
                    if a(level as nat) {
                        sem(nodes, then_id as int, a)
                    } else {
                        sem(nodes, else_id as int, a)
                    }
                } else {
                    false
                }
            }
        }
    } else {
        false
    }
}

/// `i` names a node of the store.
pub open spec fn valid_id(nodes: Seq<NodeData>, i: int) -> bool {
    0 <= i < nodes.len()
}

/// If a branch is stored at `i`, it tests a variable strictly above `bound`.
/// Terminals pass trivially, so this is exactly the child side of the level
/// ordering invariant.
pub open spec fn level_above(nodes: Seq<NodeData>, i: int, bound: int) -> bool {
    nodes[i] matches NodeData::Branch { level, .. } ==> level as int > bound
}

/// If a branch is stored at `i`, it tests a variable at least `bound`.
pub open spec fn level_at_least(nodes: Seq<NodeData>, i: int, bound: int) -> bool {
    nodes[i] matches NodeData::Branch { level, .. } ==> level as int >= bound
}

/// Local well-formedness of the node stored at `i`: children come earlier in
/// the store (so every diagram is acyclic and allocation order is a
/// topological order), the two children differ (the reduction invariant), and
/// both test variables strictly below the children's (the ordering
/// invariant).
pub open spec fn wf_branch(nodes: Seq<NodeData>, i: int) -> bool {
    nodes[i] matches NodeData::Branch { level, then_id, else_id } ==> {
        &&& then_id < i
        &&& else_id < i
        &&& then_id != else_id
        &&& level_above(nodes, then_id as int, level as int)
        &&& level_above(nodes, else_id as int, level as int)
    }
}

/// Well-formedness of a whole store: the two terminals sit at indices 0 and 1
/// and nowhere else, every branch is locally well-formed, and no two distinct
/// indices hold the same branch triple (the hash-consing invariant).
pub open spec fn wf(nodes: Seq<NodeData>) -> bool {
    &&& nodes.len() >= 2
    &&& nodes[0] == NodeData::False
    &&& nodes[1] == NodeData::True
    &&& forall|i: int| 2 <= i < nodes.len() ==> #[trigger] nodes[i] is Branch
    &&& forall|i: int| 0 <= i < nodes.len() ==> #[trigger] wf_branch(nodes, i)
    &&& forall|i: int, j: int|
        0 <= i < nodes.len() && 0 <= j < nodes.len() && #[trigger] nodes[i] is Branch
            && nodes[i] == #[trigger] nodes[j] ==> i == j
}

/// The store `new` keeps every node of `old` at its index; operations only
/// ever append, so handles stay meaningful.
pub open spec fn extends(new: Seq<NodeData>, old: Seq<NodeData>) -> bool {
    &&& new.len() >= old.len()
    &&& forall|i: int| 0 <= i < old.len() ==> new[i] == #[trigger] old[i]
}

/// Extension is reflexive and transitive.
pub proof fn lemma_extends_trans(n3: Seq<NodeData>, n2: Seq<NodeData>, n1: Seq<NodeData>)
    requires
        extends(n3, n2),
        extends(n2, n1),
    ensures
        extends(n3, n1),
{
}

/// Level bounds are facts about a single stored slot, so extension keeps
/// them.
pub proof fn lemma_level_above_extends(
    old_nodes: Seq<NodeData>,
    new_nodes: Seq<NodeData>,
    i: int,
    bound: int,
)
    requires
        extends(new_nodes, old_nodes),
        0 <= i < old_nodes.len(),
        level_above(old_nodes, i, bound),
    ensures
        level_above(new_nodes, i, bound),
{
}

/// A node keeps its meaning when the store grows: `sem` reads only indices up
/// to `i`, which extension leaves unchanged.
pub proof fn lemma_sem_extends(
    old_nodes: Seq<NodeData>,
    new_nodes: Seq<NodeData>,
    i: int,
    a: spec_fn(nat) -> bool,
)
    requires
        extends(new_nodes, old_nodes),
        0 <= i < old_nodes.len(),
    ensures
        sem(new_nodes, i, a) == sem(old_nodes, i, a),
    decreases i,
{
    match old_nodes[i] {
        NodeData::Branch { level, then_id, else_id } => {
            if then_id < i && else_id < i {
                lemma_sem_extends(old_nodes, new_nodes, then_id as int, a);
                lemma_sem_extends(old_nodes, new_nodes, else_id as int, a);
            }
        }
        _ => {}
    }
}

/// `sem` only ever applies the assignment, so assignments that agree
/// pointwise give the same value.
pub proof fn lemma_sem_congruence(
    nodes: Seq<NodeData>,
    i: int,
    a: spec_fn(nat) -> bool,
    b: spec_fn(nat) -> bool,
)
    requires
        forall|l: nat| #[trigger] a(l) == b(l),
    ensures
        sem(nodes, i, a) == sem(nodes, i, b),
    decreases i,
{
    if 0 <= i < nodes.len() {
        match nodes[i] {
            NodeData::Branch { level, then_id, else_id } => {
                if then_id < i && else_id < i {
                    assert(a(level as nat) == b(level as nat));
                    lemma_sem_congruence(nodes, then_id as int, a, b);
                    lemma_sem_congruence(nodes, else_id as int, a, b);
                }
            }
            _ => {}
        }
    }
}

} // verus!
