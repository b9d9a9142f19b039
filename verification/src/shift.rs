//! Relocating variables: `shift` adds one offset to every level, and
//! `split_shift` adds one of two offsets depending on which side of a border
//! a level lies — the primitive behind the relational converse.

use vstd::prelude::*;

use crate::manager::Manager;
use crate::node::{
    extends, lemma_extends_trans, lemma_level_above_extends, lemma_sem_congruence,
    lemma_sem_extends, level_above, level_at_least, sem, Node, NodeData,
};

verus! {

/// The assignment that reads `a` at `l + d`: a diagram whose levels were all
/// moved up by `d` denotes, over `a`, what the original denotes over this.
pub open spec fn shift_assign(a: spec_fn(nat) -> bool, d: int) -> spec_fn(nat) -> bool {
    |l: nat| if l + d >= 0 {
        a((l + d) as nat)
    } else {
        false
    }
}

/// Every level reachable from `i` stays a valid `u64` level after adding
/// `d`.
pub open spec fn shiftable(nodes: Seq<NodeData>, i: int, d: int) -> bool
    decreases i,
{
    if 0 <= i < nodes.len() {
        match nodes[i] {
            NodeData::Branch { level, then_id, else_id } => {
                if then_id < i && else_id < i {
                    &&& 0 <= level as int + d <= u64::MAX as int
                    &&& shiftable(nodes, then_id as int, d)
                    &&& shiftable(nodes, else_id as int, d)
                } else {
                    true
                }
            }
            _ => true,
        }
    } else {
        true
    }
}

/// The assignment that reads `a` at `l + d1` below the border and at
/// `l + d2` from the border up.
pub open spec fn split_shift_assign(
    a: spec_fn(nat) -> bool,
    border: u64,
    d1: int,
    d2: int,
) -> spec_fn(nat) -> bool {
    |l: nat| if (l as int) < border as int {
        if l + d1 >= 0 {
            a((l + d1) as nat)
        } else {
            false
        }
    } else {
        if l + d2 >= 0 {
            a((l + d2) as nat)
        } else {
            false
        }
    }
}

/// Every level reachable from `i` stays a valid `u64` level after adding
/// its side's offset.
pub open spec fn split_shiftable(
    nodes: Seq<NodeData>,
    i: int,
    border: u64,
    d1: int,
    d2: int,
) -> bool
    decreases i,
{
    if 0 <= i < nodes.len() {
        match nodes[i] {
            NodeData::Branch { level, then_id, else_id } => {
                if then_id < i && else_id < i {
                    &&& (if (level as int) < border as int {
                        0 <= level as int + d1 <= u64::MAX as int
                    } else {
                        0 <= level as int + d2 <= u64::MAX as int
                    })
                    &&& split_shiftable(nodes, then_id as int, border, d1, d2)
                    &&& split_shiftable(nodes, else_id as int, border, d1, d2)
                } else {
                    true
                }
            }
            _ => true,
        }
    } else {
        true
    }
}

/// Shiftability reads only slots up to `i`, which extension leaves
/// unchanged.
proof fn lemma_shiftable_extends(
    old_nodes: Seq<NodeData>,
    new_nodes: Seq<NodeData>,
    i: int,
    d: int,
)
    requires
        extends(new_nodes, old_nodes),
        0 <= i < old_nodes.len(),
        shiftable(old_nodes, i, d),
    ensures
        shiftable(new_nodes, i, d),
    decreases i,
{
    match old_nodes[i] {
        NodeData::Branch { level, then_id, else_id } => {
            if then_id < i && else_id < i {
                lemma_shiftable_extends(old_nodes, new_nodes, then_id as int, d);
                lemma_shiftable_extends(old_nodes, new_nodes, else_id as int, d);
            }
        }
        _ => {}
    }
}

/// As `lemma_shiftable_extends`, for the two-sided variant.
proof fn lemma_split_shiftable_extends(
    old_nodes: Seq<NodeData>,
    new_nodes: Seq<NodeData>,
    i: int,
    border: u64,
    d1: int,
    d2: int,
)
    requires
        extends(new_nodes, old_nodes),
        0 <= i < old_nodes.len(),
        split_shiftable(old_nodes, i, border, d1, d2),
    ensures
        split_shiftable(new_nodes, i, border, d1, d2),
    decreases i,
{
    match old_nodes[i] {
        NodeData::Branch { level, then_id, else_id } => {
            if then_id < i && else_id < i {
                lemma_split_shiftable_extends(old_nodes, new_nodes, then_id as int, border, d1, d2);
                lemma_split_shiftable_extends(old_nodes, new_nodes, else_id as int, border, d1, d2);
            }
        }
        _ => {}
    }
}

/// Adds the signed offset `d` to `level`; the caller proves the result stays
/// in range.
fn offset_level(level: u64, d: i64) -> (r: u64)
    requires
        0 <= level as int + d as int <= u64::MAX as int,
    ensures
        r as int == level as int + d as int,
{
    if d >= 0 {
        level + (d as u64)
    } else {
        level - ((-(d + 1)) as u64) - 1
    }
}

impl Manager {
    /// The diagram for `f` with every level moved by `diff`: over `a` it
    /// denotes what `f` denotes over `shift_assign(a, diff)`.  A zero shift
    /// returns `f` itself, unchanged.
    pub fn shift(&mut self, f: Node, diff: i64) -> (r: Node)
        requires
            old(self).wf(),
            old(self).valid(f),
            shiftable(old(self)@, f.id as int, diff as int),
        ensures
            final(self).wf(),
            extends(final(self)@, old(self)@),
            final(self).valid(r),
            diff == 0 ==> r == f && final(self)@ == old(self)@,
            forall|a: spec_fn(nat) -> bool| #[trigger] sem(final(self)@, r.id as int, a) == sem(
                old(self)@,
                f.id as int,
                shift_assign(a, diff as int),
            ),
            forall|b: int| #[trigger] level_above(old(self)@, f.id as int, b) ==> level_above(
                final(self)@,
                r.id as int,
                b + diff as int,
            ),
        decreases f.id,
    {
        if diff == 0 {
            proof {
                assert forall|a: spec_fn(nat) -> bool| #[trigger] sem(self@, f.id as int, a)
                    == sem(self@, f.id as int, shift_assign(a, 0)) by {
                    lemma_sem_congruence(self@, f.id as int, a, shift_assign(a, 0));
                }
            }
            return f;
        }
        if f.id == 0 || f.id == 1 {
            return f;
        }
        let ghost s0 = old(self)@;
        let (fl, ft, fe) = self.branch_parts(f);
        let rt = self.shift(ft, diff);
        let ghost s1 = self@;
        proof {
            lemma_shiftable_extends(s0, s1, fe.id as int, diff as int);
            lemma_level_above_extends(s0, s1, fe.id as int, fl as int);
        }
        let re = self.shift(fe, diff);
        let ghost s2 = self@;
        let nl = offset_level(fl, diff);
        proof {
            lemma_level_above_extends(s1, s2, rt.id as int, nl as int);
        }
        let r = self.get_or_insert(nl, rt, re);
        let ghost s3 = self@;
        proof {
            lemma_extends_trans(s2, s1, s0);
            lemma_extends_trans(s3, s2, s0);
            assert forall|a: spec_fn(nat) -> bool| #[trigger] sem(s3, r.id as int, a) == sem(
                s0,
                f.id as int,
                shift_assign(a, diff as int),
            ) by {
                lemma_sem_extends(s1, s2, rt.id as int, a);
                assert(sem(s1, rt.id as int, a) == sem(
                    s0,
                    ft.id as int,
                    shift_assign(a, diff as int),
                ));
                assert(sem(s2, re.id as int, a) == sem(
                    s1,
                    fe.id as int,
                    shift_assign(a, diff as int),
                ));
                lemma_sem_extends(s0, s1, fe.id as int, shift_assign(a, diff as int));
                assert(shift_assign(a, diff as int)(fl as nat) == a(nl as nat));
                assert(sem(s0, f.id as int, shift_assign(a, diff as int)) == if a(nl as nat) {
                    sem(s0, ft.id as int, shift_assign(a, diff as int))
                } else {
                    sem(s0, fe.id as int, shift_assign(a, diff as int))
                });
            }
            assert forall|b: int| #[trigger] level_above(s0, f.id as int, b) implies level_above(
                s3,
                r.id as int,
                b + diff as int,
            ) by {
                assert(level_at_least(s3, r.id as int, nl as int));
            }
        }
        r
    }

    /// Rewrites each variable `l` of `f` as `l + diff_1` below `border` and
    /// as `l + diff_2` from `border` up.  The renamed variable may fall
    /// below the levels of the rewritten children, so each step rebuilds
    /// through `if_then_else` on a fresh variable node, which restores the
    /// canonical order.
    pub fn split_shift(&mut self, f: Node, border: u64, diff_1: i64, diff_2: i64) -> (r: Node)
        requires
            old(self).wf(),
            old(self).valid(f),
            split_shiftable(old(self)@, f.id as int, border, diff_1 as int, diff_2 as int),
        ensures
            final(self).wf(),
            extends(final(self)@, old(self)@),
            final(self).valid(r),
            forall|a: spec_fn(nat) -> bool| #[trigger] sem(final(self)@, r.id as int, a) == sem(
                old(self)@,
                f.id as int,
                split_shift_assign(a, border, diff_1 as int, diff_2 as int),
            ),
        decreases f.id,
    {
        if (diff_1 == 0 || border == 0) && diff_2 == 0 {
            proof {
                assert forall|a: spec_fn(nat) -> bool| #[trigger] sem(self@, f.id as int, a)
                    == sem(
                    self@,
                    f.id as int,
                    split_shift_assign(a, border, diff_1 as int, diff_2 as int),
                ) by {
                    lemma_sem_congruence(
                        self@,
                        f.id as int,
                        a,
                        split_shift_assign(a, border, diff_1 as int, diff_2 as int),
                    );
                }
            }
            return f;
        }
        if f.id == 0 || f.id == 1 {
            return f;
        }
        let ghost s0 = old(self)@;
        let (fl, ft, fe) = self.branch_parts(f);
        let rt = self.split_shift(ft, border, diff_1, diff_2);
        let ghost s1 = self@;
        proof {
            lemma_split_shiftable_extends(
                s0,
                s1,
                fe.id as int,
                border,
                diff_1 as int,
                diff_2 as int,
            );
        }
        let re = self.split_shift(fe, border, diff_1, diff_2);
        let ghost s2 = self@;
        let nl = if fl < border {
            offset_level(fl, diff_1)
        } else {
            offset_level(fl, diff_2)
        };
        let cond = self.bit(nl);
        let ghost s3 = self@;
        let r = self.if_then_else(cond, rt, re);
        let ghost s4 = self@;
        proof {
            lemma_extends_trans(s2, s1, s0);
            lemma_extends_trans(s3, s2, s0);
            lemma_extends_trans(s4, s3, s0);
            assert forall|a: spec_fn(nat) -> bool| #[trigger] sem(s4, r.id as int, a) == sem(
                s0,
                f.id as int,
                split_shift_assign(a, border, diff_1 as int, diff_2 as int),
            ) by {
                let sa = split_shift_assign(a, border, diff_1 as int, diff_2 as int);
                assert(sem(s4, r.id as int, a) == if sem(s3, cond.id as int, a) {
                    sem(s3, rt.id as int, a)
                } else {
                    sem(s3, re.id as int, a)
                });
                assert(sem(s3, cond.id as int, a) == a(nl as nat));
                lemma_sem_extends(s1, s3, rt.id as int, a);
                lemma_sem_extends(s2, s3, re.id as int, a);
                assert(sem(s1, rt.id as int, a) == sem(s0, ft.id as int, sa));
                assert(sem(s2, re.id as int, a) == sem(s1, fe.id as int, sa));
                lemma_sem_extends(s0, s1, fe.id as int, sa);
                assert(sa(fl as nat) == a(nl as nat));
                assert(sem(s0, f.id as int, sa) == if a(nl as nat) {
                    sem(s0, ft.id as int, sa)
                } else {
                    sem(s0, fe.id as int, sa)
                });
            }
        }
        r
    }
}

} // verus!
