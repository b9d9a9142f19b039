//! Factories: common Boolean functions composed from `get_or_insert`.

use vstd::prelude::*;

use crate::manager::Manager;
use crate::node::{extends, lemma_extends_trans, lemma_sem_extends, level_at_least, sem, Node,
    NodeData};

verus! {

/// The assignment fixes every variable in `[j, n)` to `true` at `i` and
/// `false` elsewhere.
pub open spec fn minterm_from(i: u64, j: int, n: u64, a: spec_fn(nat) -> bool) -> bool {
    forall|m: int| j <= m < n as int ==> (#[trigger] a(m as nat) == (m == i as int))
}

/// The assignment agrees with the bit vector `v` on every index in
/// `[j, v.len())`.
pub open spec fn matches_vec_from(v: Seq<bool>, j: int, a: spec_fn(nat) -> bool) -> bool {
    forall|m: int| j <= m < v.len() ==> (#[trigger] a(m as nat) == v[m])
}

/// Big-endian comparison of the assignment's bits `[j, v.len())` against the
/// same bits of `v`: true when, at the first index where they differ, `v`
/// has the `true` bit — that is, when the assignment is at most `v`.
pub open spec fn le_bits_from(v: Seq<bool>, j: int, a: spec_fn(nat) -> bool) -> bool
    decreases v.len() - j,
{
    if 0 <= j < v.len() {
        if a(j as nat) == v[j] {
            le_bits_from(v, j + 1, a)
        } else {
            v[j]
        }
    } else {
        true
    }
}

impl Manager {
    /// The projection function on variable `i`: `f(a) = a(i)`.
    pub fn bit(&mut self, i: u64) -> (r: Node)
        requires
            old(self).wf(),
        ensures
            final(self).wf(),
            extends(final(self)@, old(self)@),
            final(self).valid(r),
            final(self)@[r.id as int] == (NodeData::Branch { level: i, then_id: 1, else_id: 0 }),
            level_at_least(final(self)@, r.id as int, i as int),
            forall|a: spec_fn(nat) -> bool| #[trigger] sem(final(self)@, r.id as int, a) == a(
                i as nat,
            ),
    {
        let t = self.true_node();
        let e = self.false_node();
        self.get_or_insert(i, t, e)
    }

    /// The minterm on variables `0 .. n` that is true exactly when variable
    /// `i` is set and every other variable below `n` is clear.
    pub fn minterm(&mut self, i: u64, n: u64) -> (r: Node)
        requires
            old(self).wf(),
            i < n,
        ensures
            final(self).wf(),
            extends(final(self)@, old(self)@),
            final(self).valid(r),
            forall|a: spec_fn(nat) -> bool| #[trigger] sem(final(self)@, r.id as int, a)
                == minterm_from(i, 0, n, a),
    {
        let mut acc = self.true_node();
        let fnode = self.false_node();
        let mut j = n;
        while j > 0
            invariant
                j <= n,
                i < n,
                self.wf(),
                extends(self@, old(self)@),
                self.valid(acc),
                fnode.id == 0,
                level_at_least(self@, acc.id as int, j as int),
                forall|a: spec_fn(nat) -> bool| #[trigger] sem(self@, acc.id as int, a)
                    == minterm_from(i, j as int, n, a),
            decreases j,
        {
            j = j - 1;
            let ghost s0 = self@;
            let acc2 = if j == i {
                self.get_or_insert(j, acc, fnode)
            } else {
                self.get_or_insert(j, fnode, acc)
            };
            proof {
                lemma_extends_trans(self@, s0, old(self)@);
                assert forall|a: spec_fn(nat) -> bool| #[trigger] sem(self@, acc2.id as int, a)
                    == minterm_from(i, j as int, n, a) by {
                    lemma_sem_extends(s0, self@, acc.id as int, a);
                    assert(minterm_from(i, j as int, n, a) == ((a(j as nat) == (j == i))
                        && minterm_from(i, j as int + 1, n, a))) by {
                        if (a(j as nat) == (j == i)) && minterm_from(i, j as int + 1, n, a) {
                            assert forall|m: int| j as int <= m < n as int implies (#[trigger] a(
                                m as nat,
                            ) == (m == i as int)) by {
                                if m != j as int {
                                    assert(a(m as nat) == (m == i as int));
                                }
                            }
                        }
                        if minterm_from(i, j as int, n, a) {
                            let m: int = j as int;
                            assert(a(m as nat) == (m == i as int));
                        }
                    }
                }
            }
            acc = acc2;
        }
        acc
    }

    /// The minterm selecting exactly the assignment written in `v` on the
    /// variables `0 .. v.len()`.
    pub fn minterm_vec(&mut self, v: &Vec<bool>) -> (r: Node)
        requires
            old(self).wf(),
        ensures
            final(self).wf(),
            extends(final(self)@, old(self)@),
            final(self).valid(r),
            forall|a: spec_fn(nat) -> bool| #[trigger] sem(final(self)@, r.id as int, a)
                == matches_vec_from(v@, 0, a),
    {
        let mut acc = self.true_node();
        let fnode = self.false_node();
        let mut j = v.len();
        while j > 0
            invariant
                j <= v.len(),
                v@.len() <= u64::MAX,
                self.wf(),
                extends(self@, old(self)@),
                self.valid(acc),
                fnode.id == 0,
                level_at_least(self@, acc.id as int, j as int),
                forall|a: spec_fn(nat) -> bool| #[trigger] sem(self@, acc.id as int, a)
                    == matches_vec_from(v@, j as int, a),
            decreases j,
        {
            j = j - 1;
            let ghost s0 = self@;
            let acc2 = if v[j] {
                self.get_or_insert(j as u64, acc, fnode)
            } else {
                self.get_or_insert(j as u64, fnode, acc)
            };
            proof {
                lemma_extends_trans(self@, s0, old(self)@);
                assert forall|a: spec_fn(nat) -> bool| #[trigger] sem(self@, acc2.id as int, a)
                    == matches_vec_from(v@, j as int, a) by {
                    lemma_sem_extends(s0, self@, acc.id as int, a);
                    assert(matches_vec_from(v@, j as int, a) == ((a(j as nat) == v@[j as int])
                        && matches_vec_from(v@, j as int + 1, a))) by {
                        if (a(j as nat) == v@[j as int]) && matches_vec_from(v@, j as int + 1, a) {
                            assert forall|m: int| j as int <= m < v@.len() implies (#[trigger] a(
                                m as nat,
                            ) == v@[m]) by {
                                if m != j as int {
                                    assert(a(m as nat) == v@[m]);
                                }
                            }
                        }
                        if matches_vec_from(v@, j as int, a) {
                            let m: int = j as int;
                            assert(a(m as nat) == v@[m]);
                        }
                    }
                }
            }
            acc = acc2;
        }
        acc
    }

    /// The function that is true exactly when the assignment's bits
    /// `0 .. v.len()`, read big-endian, are at most the number written
    /// big-endian in `v`.
    pub fn less_than_eq_vec(&mut self, v: &Vec<bool>) -> (r: Node)
        requires
            old(self).wf(),
        ensures
            final(self).wf(),
            extends(final(self)@, old(self)@),
            final(self).valid(r),
            forall|a: spec_fn(nat) -> bool| #[trigger] sem(final(self)@, r.id as int, a)
                == le_bits_from(v@, 0, a),
    {
        let mut acc = self.true_node();
        let tnode = self.true_node();
        let fnode = self.false_node();
        let mut j = v.len();
        while j > 0
            invariant
                j <= v.len(),
                v@.len() <= u64::MAX,
                self.wf(),
                extends(self@, old(self)@),
                self.valid(acc),
                tnode.id == 1,
                fnode.id == 0,
                level_at_least(self@, acc.id as int, j as int),
                forall|a: spec_fn(nat) -> bool| #[trigger] sem(self@, acc.id as int, a)
                    == le_bits_from(v@, j as int, a),
            decreases j,
        {
            j = j - 1;
            let ghost s0 = self@;
            let acc2 = if v[j] {
                self.get_or_insert(j as u64, acc, tnode)
            } else {
                self.get_or_insert(j as u64, fnode, acc)
            };
            proof {
                lemma_extends_trans(self@, s0, old(self)@);
                assert forall|a: spec_fn(nat) -> bool| #[trigger] sem(self@, acc2.id as int, a)
                    == le_bits_from(v@, j as int, a) by {
                    lemma_sem_extends(s0, self@, acc.id as int, a);
                }
            }
            acc = acc2;
        }
        acc
    }
}

} // verus!
