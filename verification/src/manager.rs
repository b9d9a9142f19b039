//! The manager: an arena of diagram nodes together with the unique-table
//! discipline that keeps one stored branch per `(level, then, else)` triple.
//!
//! The store only ever grows, and a node's children always come earlier in
//! the store than the node itself, so a handle is a stable identity and
//! allocation order is a topological order of every diagram.

use vstd::prelude::*;

use crate::node::{
    extends, lemma_sem_extends, level_above, level_at_least, sem, valid_id, wf, wf_branch, Node,
    NodeData,
};

verus! {

/// Owns the node store.  All diagrams built through one manager share
/// structure; handles from different managers must not be mixed.
pub struct Manager {
    /// The arena.  Index 0 holds the `false` terminal, index 1 the `true`
    /// terminal, and every later slot a branch.  Treat as read-only outside
    /// the crate: the contracts only hold for stores built through `Manager`.
    pub nodes: Vec<NodeData>,
}

impl View for Manager {
    type V = Seq<NodeData>;

    open spec fn view(&self) -> Seq<NodeData> {
        self.nodes@
    }
}

impl Manager {
    /// The store is well-formed; every public operation preserves this.
    pub open spec fn wf(&self) -> bool {
        wf(self@)
    }

    /// `n` is a handle into this manager's store.
    pub open spec fn valid(&self, n: Node) -> bool {
        valid_id(self@, n.id as int)
    }

    /// The Boolean function denoted by `n`.
    pub open spec fn sem_of(&self, n: Node, a: spec_fn(nat) -> bool) -> bool {
        sem(self@, n.id as int, a)
    }

    /// A fresh manager holding just the two terminals.
    pub fn new() -> (r: Manager)
        ensures
            r.wf(),
            r@.len() == 2,
    {
        let mut nodes: Vec<NodeData> = Vec::new();
        nodes.push(NodeData::False);
        nodes.push(NodeData::True);
        Manager { nodes }
    }

    /// The unique terminal for the constant function `true`.  Every call
    /// returns the same identity.
    pub fn true_node(&self) -> (r: Node)
        requires
            self.wf(),
        ensures
            r.id == 1,
            self.valid(r),
            forall|a: spec_fn(nat) -> bool| #[trigger] self.sem_of(r, a) == true,
    {
        Node { id: 1 }
    }

    /// The unique terminal for the constant function `false`.  Every call
    /// returns the same identity.
    pub fn false_node(&self) -> (r: Node)
        requires
            self.wf(),
        ensures
            r.id == 0,
            self.valid(r),
            forall|a: spec_fn(nat) -> bool| #[trigger] self.sem_of(r, a) == false,
    {
        Node { id: 0 }
    }

    /// Reads the level and the two children of a stored branch.
    pub(crate) fn branch_parts(&self, n: Node) -> (r: (u64, Node, Node))
        requires
            self.wf(),
            self.valid(n),
            n.id >= 2,
        ensures
            self@[n.id as int] == (NodeData::Branch {
                level: r.0,
                then_id: r.1.id,
                else_id: r.2.id,
            }),
            r.1.id < n.id,
            r.2.id < n.id,
            r.1.id != r.2.id,
            level_above(self@, r.1.id as int, r.0 as int),
            level_above(self@, r.2.id as int, r.0 as int),
    {
        match self.nodes[n.id] {
            NodeData::Branch { level, then_id, else_id } => {
                proof {
                    assert(wf_branch(self@, n.id as int));
                }
                (level, Node { id: then_id }, Node { id: else_id })
            }
            _ => {
                // Never reached: every slot from index 2 on holds a branch.
                proof {
                    assert(self@[n.id as int] is Branch);
                    assert(false);
                }
                (0, Node { id: 0 }, Node { id: 0 })
            }
        }
    }

    /// The single primitive for building a branch, and the keeper of the
    /// canonical form: equal children are collapsed (reduction), and an
    /// existing branch with the same triple is reused (hash-consing), so at
    /// most one stored branch per triple ever exists.
    pub fn get_or_insert(&mut self, level: u64, then_c: Node, else_c: Node) -> (r: Node)
        requires
            old(self).wf(),
            old(self).valid(then_c),
            old(self).valid(else_c),
            level_above(old(self)@, then_c.id as int, level as int),
            level_above(old(self)@, else_c.id as int, level as int),
        ensures
            final(self).wf(),
            extends(final(self)@, old(self)@),
            final(self).valid(r),
            then_c.id == else_c.id ==> r == then_c && final(self)@ == old(self)@,
            then_c.id != else_c.id ==> final(self)@[r.id as int] == (NodeData::Branch {
                level,
                then_id: then_c.id,
                else_id: else_c.id,
            }),
            level_at_least(final(self)@, r.id as int, level as int),
            forall|a: spec_fn(nat) -> bool|
                #[trigger] sem(final(self)@, r.id as int, a) == if a(level as nat) {
                    sem(old(self)@, then_c.id as int, a)
                } else {
                    sem(old(self)@, else_c.id as int, a)
                },
    {
        if then_c.id == else_c.id {
            return then_c;
        }
        let n = self.nodes.len();
        let mut k: usize = 2;
        while k < n
            invariant
                2 <= k <= n,
                n == self@.len(),
                self == old(self),
                old(self).wf(),
                then_c.id != else_c.id,
                forall|j: int|
                    2 <= j < k ==> self@[j] != (NodeData::Branch {
                        level,
                        then_id: then_c.id,
                        else_id: else_c.id,
                    }),
            decreases n - k,
        {
            match self.nodes[k] {
                NodeData::Branch { level: l2, then_id: t2, else_id: e2 } => {
                    if l2 == level && t2 == then_c.id && e2 == else_c.id {
                        proof {
                            assert(wf_branch(self@, k as int));
                            assert(self@[k as int] == (NodeData::Branch {
                                level,
                                then_id: then_c.id,
                                else_id: else_c.id,
                            }));
                            assert forall|a: spec_fn(nat) -> bool|
                                #[trigger] sem(self@, k as int, a) == if a(level as nat) {
                                    sem(old(self)@, then_c.id as int, a)
                                } else {
                                    sem(old(self)@, else_c.id as int, a)
                                } by {
                                assert(sem(self@, k as int, a) == if a(level as nat) {
                                    sem(self@, then_c.id as int, a)
                                } else {
                                    sem(self@, else_c.id as int, a)
                                });
                            }
                        }
                        return Node { id: k };
                    }
                }
                _ => {}
            }
            k += 1;
        }
        let id = self.nodes.len();
        self.nodes.push(NodeData::Branch { level, then_id: then_c.id, else_id: else_c.id });
        proof {
            let new = self@;
            let old_n = old(self)@;
            assert forall|i: int| 0 <= i < new.len() implies #[trigger] wf_branch(new, i) by {
                if i < old_n.len() {
                    assert(wf_branch(old_n, i));
                }
            }
            assert(self.wf());
            assert forall|a: spec_fn(nat) -> bool|
                #[trigger] sem(new, id as int, a) == if a(level as nat) {
                    sem(old_n, then_c.id as int, a)
                } else {
                    sem(old_n, else_c.id as int, a)
                } by {
                lemma_sem_extends(old_n, new, then_c.id as int, a);
                lemma_sem_extends(old_n, new, else_c.id as int, a);
            }
        }
        Node { id }
    }
}

} // verus!
