//! The laws of the kernel, proved once and for all over the model: the
//! canonical-form theorem (identity of handles coincides with equality of
//! the denoted functions) and the algebraic laws of the connectives that
//! follow from it.

use vstd::prelude::*;

use crate::eval::eval_path;
use crate::node::{
    extends, lemma_sem_congruence, lemma_sem_extends, level_above, level_at_least, sem, wf,
    wf_branch, NodeData,
};
use crate::shift::shift_assign;

verus! {

/// The assignment `a` with position `l` overridden to `v`.
pub open spec fn set_at(a: spec_fn(nat) -> bool, l: nat, v: bool) -> spec_fn(nat) -> bool {
    |x: nat| if x == l {
        v
    } else {
        a(x)
    }
}

/// A diagram reads its assignment only at its own root level and below it in
/// the variable order: assignments that agree from `bound` up are not told
/// apart by a node whose root level is at least `bound`.
pub proof fn lemma_sem_above(
    nodes: Seq<NodeData>,
    i: int,
    a: spec_fn(nat) -> bool,
    b: spec_fn(nat) -> bool,
    bound: int,
)
    requires
        wf(nodes),
        0 <= i < nodes.len(),
        level_at_least(nodes, i, bound),
        forall|l: nat| l as int >= bound ==> #[trigger] a(l) == b(l),
    ensures
        sem(nodes, i, a) == sem(nodes, i, b),
    decreases i,
{
    if nodes[i] is Branch {
        assert(wf_branch(nodes, i));
        let level = nodes[i]->level;
        let t = nodes[i]->then_id;
        let e = nodes[i]->else_id;
        let l0: nat = level as nat;
        assert(a(l0) == b(l0));
        assert forall|l: nat| l as int >= level as int + 1 implies #[trigger] a(l) == b(l) by {}
        lemma_sem_above(nodes, t as int, a, b, level as int + 1);
        lemma_sem_above(nodes, e as int, a, b, level as int + 1);
    }
}

/// The heart of canonicity: in a well-formed store, two distinct nodes
/// denote distinct functions, and this returns an assignment telling them
/// apart.  The argument runs by induction over the store: a branch's
/// children are distinct, hence (inductively) semantically distinct, so a
/// branch is never constant and never redundant.
pub proof fn lemma_distinct_sem(nodes: Seq<NodeData>, f: int, g: int) -> (a: spec_fn(
    nat,
) -> bool)
    requires
        wf(nodes),
        0 <= f < nodes.len(),
        0 <= g < nodes.len(),
        f != g,
    ensures
        sem(nodes, f, a) != sem(nodes, g, a),
    decreases vstd::math::max(f, g),
{
    assert(wf_branch(nodes, f));
    assert(wf_branch(nodes, g));
    if f < 2 && g < 2 {
        // Two distinct terminals disagree everywhere.
        let a = |l: nat| false;
        a
    } else if f < 2 {
        // `g` is a branch and therefore not constant: its children are
        // distinct, so some assignment tells them apart, and flipping `g`'s
        // own variable switches which child is read.
        let gl = nodes[g]->level;
        let gt = nodes[g]->then_id;
        let ge = nodes[g]->else_id;
        let c = lemma_distinct_sem(nodes, gt as int, ge as int);
        let a1 = set_at(c, gl as nat, true);
        let a0 = set_at(c, gl as nat, false);
        assert forall|l: nat| l as int >= gl as int + 1 implies #[trigger] a1(l) == c(l) by {}
        assert forall|l: nat| l as int >= gl as int + 1 implies #[trigger] a0(l) == c(l) by {}
        lemma_sem_above(nodes, gt as int, a1, c, gl as int + 1);
        lemma_sem_above(nodes, ge as int, a0, c, gl as int + 1);
        assert(sem(nodes, g, a1) == sem(nodes, gt as int, c));
        assert(sem(nodes, g, a0) == sem(nodes, ge as int, c));
        if sem(nodes, g, a1) != sem(nodes, f, a1) {
            a1
        } else {
            a0
        }
    } else if g < 2 {
        let fl = nodes[f]->level;
        let ft = nodes[f]->then_id;
        let fe = nodes[f]->else_id;
        let c = lemma_distinct_sem(nodes, ft as int, fe as int);
        let a1 = set_at(c, fl as nat, true);
        let a0 = set_at(c, fl as nat, false);
        assert forall|l: nat| l as int >= fl as int + 1 implies #[trigger] a1(l) == c(l) by {}
        assert forall|l: nat| l as int >= fl as int + 1 implies #[trigger] a0(l) == c(l) by {}
        lemma_sem_above(nodes, ft as int, a1, c, fl as int + 1);
        lemma_sem_above(nodes, fe as int, a0, c, fl as int + 1);
        assert(sem(nodes, f, a1) == sem(nodes, ft as int, c));
        assert(sem(nodes, f, a0) == sem(nodes, fe as int, c));
        if sem(nodes, f, a1) != sem(nodes, g, a1) {
            a1
        } else {
            a0
        }
    } else {
        let fl = nodes[f]->level;
        let ft = nodes[f]->then_id;
        let fe = nodes[f]->else_id;
        let gl = nodes[g]->level;
        let gt = nodes[g]->then_id;
        let ge = nodes[g]->else_id;
        if fl < gl {
            // `g` cannot see `f`'s root variable at all, while flipping it
            // switches `f` between its two (semantically distinct) children.
            let c = lemma_distinct_sem(nodes, ft as int, fe as int);
            let a1 = set_at(c, fl as nat, true);
            let a0 = set_at(c, fl as nat, false);
            assert forall|l: nat| l as int >= fl as int + 1 implies #[trigger] a1(l) == c(l) by {}
            assert forall|l: nat| l as int >= fl as int + 1 implies #[trigger] a0(l) == c(
                l,
            ) by {}
            assert forall|l: nat| l as int >= fl as int + 1 implies #[trigger] a1(l) == a0(
                l,
            ) by {}
            lemma_sem_above(nodes, ft as int, a1, c, fl as int + 1);
            lemma_sem_above(nodes, fe as int, a0, c, fl as int + 1);
            lemma_sem_above(nodes, g, a1, a0, fl as int + 1);
            assert(sem(nodes, f, a1) == sem(nodes, ft as int, c));
            assert(sem(nodes, f, a0) == sem(nodes, fe as int, c));
            if sem(nodes, f, a1) != sem(nodes, g, a1) {
                a1
            } else {
                a0
            }
        } else if gl < fl {
            let c = lemma_distinct_sem(nodes, gt as int, ge as int);
            let a1 = set_at(c, gl as nat, true);
            let a0 = set_at(c, gl as nat, false);
            assert forall|l: nat| l as int >= gl as int + 1 implies #[trigger] a1(l) == c(l) by {}
            assert forall|l: nat| l as int >= gl as int + 1 implies #[trigger] a0(l) == c(
                l,
            ) by {}
            assert forall|l: nat| l as int >= gl as int + 1 implies #[trigger] a1(l) == a0(
                l,
            ) by {}
            lemma_sem_above(nodes, gt as int, a1, c, gl as int + 1);
            lemma_sem_above(nodes, ge as int, a0, c, gl as int + 1);
            lemma_sem_above(nodes, f, a1, a0, gl as int + 1);
            assert(sem(nodes, g, a1) == sem(nodes, gt as int, c));
            assert(sem(nodes, g, a0) == sem(nodes, ge as int, c));
            if sem(nodes, g, a1) != sem(nodes, f, a1) {
                a1
            } else {
                a0
            }
        } else {
            // Same level but distinct nodes: by hash-consing the triples
            // differ, so the two nodes differ in a child; flip the shared
            // variable towards that child.
            if ft == gt && fe == ge {
                assert(nodes[f] is Branch);
                assert(nodes[f] == nodes[g]);
                assert(false);
            }
            if ft != gt {
                let c = lemma_distinct_sem(nodes, ft as int, gt as int);
                let a1 = set_at(c, fl as nat, true);
                assert forall|l: nat| l as int >= fl as int + 1 implies #[trigger] a1(l) == c(
                    l,
                ) by {}
                lemma_sem_above(nodes, ft as int, a1, c, fl as int + 1);
                lemma_sem_above(nodes, gt as int, a1, c, fl as int + 1);
                assert(sem(nodes, f, a1) == sem(nodes, ft as int, c));
                assert(sem(nodes, g, a1) == sem(nodes, gt as int, c));
                a1
            } else {
                let c = lemma_distinct_sem(nodes, fe as int, ge as int);
                let a0 = set_at(c, fl as nat, false);
                assert forall|l: nat| l as int >= fl as int + 1 implies #[trigger] a0(l) == c(
                    l,
                ) by {}
                lemma_sem_above(nodes, fe as int, a0, c, fl as int + 1);
                lemma_sem_above(nodes, ge as int, a0, c, fl as int + 1);
                assert(sem(nodes, f, a0) == sem(nodes, fe as int, c));
                assert(sem(nodes, g, a0) == sem(nodes, ge as int, c));
                a0
            }
        }
    }
}

/// Canonicity: two nodes of one well-formed store are the same node exactly
/// when the functions they denote agree on every assignment.
pub proof fn lemma_canonicity(nodes: Seq<NodeData>, f: int, g: int)
    requires
        wf(nodes),
        0 <= f < nodes.len(),
        0 <= g < nodes.len(),
    ensures
        (f == g) <==> (forall|a: spec_fn(nat) -> bool|
            #[trigger] sem(nodes, f, a) == sem(nodes, g, a)),
{
    if f != g {
        let a = lemma_distinct_sem(nodes, f, g);
        assert(sem(nodes, f, a) != sem(nodes, g, a));
    }
}

/// The usable direction of canonicity: nodes that agree on every assignment
/// are the same node.
pub proof fn lemma_same_sem(nodes: Seq<NodeData>, f: int, g: int)
    requires
        wf(nodes),
        0 <= f < nodes.len(),
        0 <= g < nodes.len(),
        forall|a: spec_fn(nat) -> bool| #[trigger] sem(nodes, f, a) == sem(nodes, g, a),
    ensures
        f == g,
{
    if f != g {
        let a = lemma_distinct_sem(nodes, f, g);
        assert(sem(nodes, f, a) == sem(nodes, g, a));
    }
}

/// Reduction: no well-formed store holds a branch with identical children.
pub proof fn lemma_reduction(nodes: Seq<NodeData>, i: int)
    requires
        wf(nodes),
        0 <= i < nodes.len(),
        nodes[i] is Branch,
    ensures
        nodes[i]->then_id != nodes[i]->else_id,
{
    assert(wf_branch(nodes, i));
}

/// Ordering: both children of a stored branch root strictly deeper
/// variables.
pub proof fn lemma_ordering(nodes: Seq<NodeData>, i: int)
    requires
        wf(nodes),
        0 <= i < nodes.len(),
        nodes[i] is Branch,
    ensures
        level_above(nodes, nodes[i]->then_id as int, nodes[i]->level as int),
        level_above(nodes, nodes[i]->else_id as int, nodes[i]->level as int),
{
    assert(wf_branch(nodes, i));
}

/// Terminal uniqueness: the two terminals live at indices 0 and 1 and
/// nowhere else in a well-formed store.
pub proof fn lemma_terminal_uniqueness(nodes: Seq<NodeData>, i: int)
    requires
        wf(nodes),
        0 <= i < nodes.len(),
    ensures
        nodes[i] is False <==> i == 0,
        nodes[i] is True <==> i == 1,
{
    if i >= 2 {
        assert(nodes[i] is Branch);
    }
}

/// Involution: negating twice gives back the very same node.
pub proof fn lemma_involution(nodes: Seq<NodeData>, f: int, n1: int, n2: int)
    requires
        wf(nodes),
        0 <= f < nodes.len(),
        0 <= n1 < nodes.len(),
        0 <= n2 < nodes.len(),
        forall|a: spec_fn(nat) -> bool| #[trigger] sem(nodes, n1, a) == !sem(nodes, f, a),
        forall|a: spec_fn(nat) -> bool| #[trigger] sem(nodes, n2, a) == !sem(nodes, n1, a),
    ensures
        n2 == f,
{
    assert forall|a: spec_fn(nat) -> bool| #[trigger] sem(nodes, n2, a) == sem(nodes, f, a) by {
        assert(sem(nodes, n2, a) == !sem(nodes, n1, a));
    }
    lemma_same_sem(nodes, n2, f);
}

/// Idempotence of conjunction: the conjunction of a node with itself is
/// that node.
pub proof fn lemma_and_idempotent(nodes: Seq<NodeData>, f: int, r: int)
    requires
        wf(nodes),
        0 <= f < nodes.len(),
        0 <= r < nodes.len(),
        forall|a: spec_fn(nat) -> bool| #[trigger] sem(nodes, r, a) == (sem(nodes, f, a) && sem(
            nodes,
            f,
            a,
        )),
    ensures
        r == f,
{
    assert forall|a: spec_fn(nat) -> bool| #[trigger] sem(nodes, r, a) == sem(nodes, f, a) by {
        assert(sem(nodes, r, a) == (sem(nodes, f, a) && sem(nodes, f, a)));
    }
    lemma_same_sem(nodes, r, f);
}

/// Idempotence of disjunction: the disjunction of a node with itself is
/// that node.
pub proof fn lemma_or_idempotent(nodes: Seq<NodeData>, f: int, r: int)
    requires
        wf(nodes),
        0 <= f < nodes.len(),
        0 <= r < nodes.len(),
        forall|a: spec_fn(nat) -> bool| #[trigger] sem(nodes, r, a) == (sem(nodes, f, a) || sem(
            nodes,
            f,
            a,
        )),
    ensures
        r == f,
{
    assert forall|a: spec_fn(nat) -> bool| #[trigger] sem(nodes, r, a) == sem(nodes, f, a) by {
        assert(sem(nodes, r, a) == (sem(nodes, f, a) || sem(nodes, f, a)));
    }
    lemma_same_sem(nodes, r, f);
}

/// Exclusive disjunction of a node with itself is the `false` terminal.
pub proof fn lemma_xor_cancellation(nodes: Seq<NodeData>, f: int, r: int)
    requires
        wf(nodes),
        0 <= f < nodes.len(),
        0 <= r < nodes.len(),
        forall|a: spec_fn(nat) -> bool| #[trigger] sem(nodes, r, a) == (sem(nodes, f, a) != sem(
            nodes,
            f,
            a,
        )),
    ensures
        r == 0,
{
    assert forall|a: spec_fn(nat) -> bool| #[trigger] sem(nodes, r, a) == sem(nodes, 0, a) by {
        assert(sem(nodes, r, a) == (sem(nodes, f, a) != sem(nodes, f, a)));
    }
    lemma_same_sem(nodes, r, 0);
}

/// Commutativity of any connective whose truth table is symmetric — in
/// particular of conjunction, disjunction and exclusive disjunction.
pub proof fn lemma_apply_commutative(
    nodes: Seq<NodeData>,
    op: spec_fn(bool, bool) -> bool,
    f: int,
    g: int,
    r1: int,
    r2: int,
)
    requires
        wf(nodes),
        0 <= f < nodes.len(),
        0 <= g < nodes.len(),
        0 <= r1 < nodes.len(),
        0 <= r2 < nodes.len(),
        forall|x: bool, y: bool| #[trigger] op(x, y) == op(y, x),
        forall|a: spec_fn(nat) -> bool| #[trigger] sem(nodes, r1, a) == op(
            sem(nodes, f, a),
            sem(nodes, g, a),
        ),
        forall|a: spec_fn(nat) -> bool| #[trigger] sem(nodes, r2, a) == op(
            sem(nodes, g, a),
            sem(nodes, f, a),
        ),
    ensures
        r1 == r2,
{
    assert forall|a: spec_fn(nat) -> bool| #[trigger] sem(nodes, r1, a) == sem(nodes, r2, a) by {
        assert(op(sem(nodes, f, a), sem(nodes, g, a)) == op(sem(nodes, g, a), sem(nodes, f, a)));
    }
    lemma_same_sem(nodes, r1, r2);
}

/// Associativity of conjunction: `and(and(f, g), h)` and `and(f, and(g, h))`
/// are the same node.
pub proof fn lemma_and_associative(
    nodes: Seq<NodeData>,
    f: int,
    g: int,
    h: int,
    fg: int,
    fg_h: int,
    gh: int,
    f_gh: int,
)
    requires
        wf(nodes),
        0 <= f < nodes.len(),
        0 <= g < nodes.len(),
        0 <= h < nodes.len(),
        0 <= fg < nodes.len(),
        0 <= fg_h < nodes.len(),
        0 <= gh < nodes.len(),
        0 <= f_gh < nodes.len(),
        forall|a: spec_fn(nat) -> bool| #[trigger] sem(nodes, fg, a) == (sem(nodes, f, a) && sem(
            nodes,
            g,
            a,
        )),
        forall|a: spec_fn(nat) -> bool| #[trigger] sem(nodes, fg_h, a) == (sem(nodes, fg, a)
            && sem(nodes, h, a)),
        forall|a: spec_fn(nat) -> bool| #[trigger] sem(nodes, gh, a) == (sem(nodes, g, a) && sem(
            nodes,
            h,
            a,
        )),
        forall|a: spec_fn(nat) -> bool| #[trigger] sem(nodes, f_gh, a) == (sem(nodes, f, a)
            && sem(nodes, gh, a)),
    ensures
        fg_h == f_gh,
{
    assert forall|a: spec_fn(nat) -> bool|
        #[trigger] sem(nodes, fg_h, a) == sem(nodes, f_gh, a) by {
        assert(sem(nodes, fg, a) == (sem(nodes, f, a) && sem(nodes, g, a)));
        assert(sem(nodes, gh, a) == (sem(nodes, g, a) && sem(nodes, h, a)));
    }
    lemma_same_sem(nodes, fg_h, f_gh);
}

/// Associativity of disjunction: `or(or(f, g), h)` and `or(f, or(g, h))`
/// are the same node.
pub proof fn lemma_or_associative(
    nodes: Seq<NodeData>,
    f: int,
    g: int,
    h: int,
    fg: int,
    fg_h: int,
    gh: int,
    f_gh: int,
)
    requires
        wf(nodes),
        0 <= f < nodes.len(),
        0 <= g < nodes.len(),
        0 <= h < nodes.len(),
        0 <= fg < nodes.len(),
        0 <= fg_h < nodes.len(),
        0 <= gh < nodes.len(),
        0 <= f_gh < nodes.len(),
        forall|a: spec_fn(nat) -> bool| #[trigger] sem(nodes, fg, a) == (sem(nodes, f, a) || sem(
            nodes,
            g,
            a,
        )),
        forall|a: spec_fn(nat) -> bool| #[trigger] sem(nodes, fg_h, a) == (sem(nodes, fg, a)
            || sem(nodes, h, a)),
        forall|a: spec_fn(nat) -> bool| #[trigger] sem(nodes, gh, a) == (sem(nodes, g, a) || sem(
            nodes,
            h,
            a,
        )),
        forall|a: spec_fn(nat) -> bool| #[trigger] sem(nodes, f_gh, a) == (sem(nodes, f, a)
            || sem(nodes, gh, a)),
    ensures
        fg_h == f_gh,
{
    assert forall|a: spec_fn(nat) -> bool|
        #[trigger] sem(nodes, fg_h, a) == sem(nodes, f_gh, a) by {
        assert(sem(nodes, fg, a) == (sem(nodes, f, a) || sem(nodes, g, a)));
        assert(sem(nodes, gh, a) == (sem(nodes, g, a) || sem(nodes, h, a)));
    }
    lemma_same_sem(nodes, fg_h, f_gh);
}

/// Associativity of exclusive disjunction: `xor(xor(f, g), h)` and
/// `xor(f, xor(g, h))` are the same node.
pub proof fn lemma_xor_associative(
    nodes: Seq<NodeData>,
    f: int,
    g: int,
    h: int,
    fg: int,
    fg_h: int,
    gh: int,
    f_gh: int,
)
    requires
        wf(nodes),
        0 <= f < nodes.len(),
        0 <= g < nodes.len(),
        0 <= h < nodes.len(),
        0 <= fg < nodes.len(),
        0 <= fg_h < nodes.len(),
        0 <= gh < nodes.len(),
        0 <= f_gh < nodes.len(),
        forall|a: spec_fn(nat) -> bool| #[trigger] sem(nodes, fg, a) == (sem(nodes, f, a) != sem(
            nodes,
            g,
            a,
        )),
        forall|a: spec_fn(nat) -> bool| #[trigger] sem(nodes, fg_h, a) == (sem(nodes, fg, a)
            != sem(nodes, h, a)),
        forall|a: spec_fn(nat) -> bool| #[trigger] sem(nodes, gh, a) == (sem(nodes, g, a) != sem(
            nodes,
            h,
            a,
        )),
        forall|a: spec_fn(nat) -> bool| #[trigger] sem(nodes, f_gh, a) == (sem(nodes, f, a)
            != sem(nodes, gh, a)),
    ensures
        fg_h == f_gh,
{
    assert forall|a: spec_fn(nat) -> bool|
        #[trigger] sem(nodes, fg_h, a) == sem(nodes, f_gh, a) by {
        assert(sem(nodes, fg, a) == (sem(nodes, f, a) != sem(nodes, g, a)));
        assert(sem(nodes, gh, a) == (sem(nodes, g, a) != sem(nodes, h, a)));
    }
    lemma_same_sem(nodes, fg_h, f_gh);
}

/// De Morgan: the negation of a conjunction is the disjunction of the
/// negations, as one and the same node.
pub proof fn lemma_de_morgan(
    nodes: Seq<NodeData>,
    f: int,
    g: int,
    fg: int,
    nfg: int,
    nf: int,
    ng: int,
    r: int,
)
    requires
        wf(nodes),
        0 <= f < nodes.len(),
        0 <= g < nodes.len(),
        0 <= fg < nodes.len(),
        0 <= nfg < nodes.len(),
        0 <= nf < nodes.len(),
        0 <= ng < nodes.len(),
        0 <= r < nodes.len(),
        forall|a: spec_fn(nat) -> bool| #[trigger] sem(nodes, fg, a) == (sem(nodes, f, a) && sem(
            nodes,
            g,
            a,
        )),
        forall|a: spec_fn(nat) -> bool| #[trigger] sem(nodes, nfg, a) == !sem(nodes, fg, a),
        forall|a: spec_fn(nat) -> bool| #[trigger] sem(nodes, nf, a) == !sem(nodes, f, a),
        forall|a: spec_fn(nat) -> bool| #[trigger] sem(nodes, ng, a) == !sem(nodes, g, a),
        forall|a: spec_fn(nat) -> bool| #[trigger] sem(nodes, r, a) == (sem(nodes, nf, a) || sem(
            nodes,
            ng,
            a,
        )),
    ensures
        nfg == r,
{
    assert forall|a: spec_fn(nat) -> bool| #[trigger] sem(nodes, nfg, a) == sem(nodes, r, a) by {
        assert(sem(nodes, fg, a) == (sem(nodes, f, a) && sem(nodes, g, a)));
        assert(sem(nodes, nf, a) == !sem(nodes, f, a));
        assert(sem(nodes, ng, a) == !sem(nodes, g, a));
    }
    lemma_same_sem(nodes, nfg, r);
}

/// The if-then-else connective expands into the usual disjunction of two
/// guarded conjunctions, as one and the same node.
pub proof fn lemma_ite_expansion(
    nodes: Seq<NodeData>,
    f: int,
    g: int,
    h: int,
    ite_n: int,
    fg: int,
    nf: int,
    nfh: int,
    r: int,
)
    requires
        wf(nodes),
        0 <= f < nodes.len(),
        0 <= g < nodes.len(),
        0 <= h < nodes.len(),
        0 <= ite_n < nodes.len(),
        0 <= fg < nodes.len(),
        0 <= nf < nodes.len(),
        0 <= nfh < nodes.len(),
        0 <= r < nodes.len(),
        forall|a: spec_fn(nat) -> bool| #[trigger] sem(nodes, ite_n, a) == if sem(nodes, f, a) {
            sem(nodes, g, a)
        } else {
            sem(nodes, h, a)
        },
        forall|a: spec_fn(nat) -> bool| #[trigger] sem(nodes, fg, a) == (sem(nodes, f, a) && sem(
            nodes,
            g,
            a,
        )),
        forall|a: spec_fn(nat) -> bool| #[trigger] sem(nodes, nf, a) == !sem(nodes, f, a),
        forall|a: spec_fn(nat) -> bool| #[trigger] sem(nodes, nfh, a) == (sem(nodes, nf, a)
            && sem(nodes, h, a)),
        forall|a: spec_fn(nat) -> bool| #[trigger] sem(nodes, r, a) == (sem(nodes, fg, a) || sem(
            nodes,
            nfh,
            a,
        )),
    ensures
        ite_n == r,
{
    assert forall|a: spec_fn(nat) -> bool| #[trigger] sem(nodes, ite_n, a) == sem(nodes, r, a) by {
        assert(sem(nodes, fg, a) == (sem(nodes, f, a) && sem(nodes, g, a)));
        assert(sem(nodes, nf, a) == !sem(nodes, f, a));
        assert(sem(nodes, nfh, a) == (sem(nodes, nf, a) && sem(nodes, h, a)));
    }
    lemma_same_sem(nodes, ite_n, r);
}


/// Shift round-trip: a node shifted up by `k` and then down by `k` is the
/// original node again, by identity.  The two shifts may have grown the
/// store (`n0` into `n1` into `n2`); the conclusion holds in the final one.
pub proof fn lemma_shift_round_trip(
    n0: Seq<NodeData>,
    n1: Seq<NodeData>,
    n2: Seq<NodeData>,
    f: int,
    r1: int,
    r2: int,
    k: i64,
)
    requires
        wf(n2),
        extends(n1, n0),
        extends(n2, n1),
        0 <= f < n0.len(),
        0 <= r1 < n1.len(),
        0 <= r2 < n2.len(),
        k >= 0,
        forall|a: spec_fn(nat) -> bool| #[trigger] sem(n1, r1, a) == sem(
            n0,
            f,
            shift_assign(a, k as int),
        ),
        forall|a: spec_fn(nat) -> bool| #[trigger] sem(n2, r2, a) == sem(
            n1,
            r1,
            shift_assign(a, -(k as int)),
        ),
    ensures
        r2 == f,
{
    assert forall|a: spec_fn(nat) -> bool| #[trigger] sem(n2, r2, a) == sem(n2, f, a) by {
        let b = shift_assign(a, -(k as int));
        let c = shift_assign(b, k as int);
        assert(sem(n2, r2, a) == sem(n1, r1, b));
        assert(sem(n1, r1, b) == sem(n0, f, c));
        assert forall|l: nat| #[trigger] c(l) == a(l) by {
            assert(b((l + k) as nat) == a(l));
        }
        lemma_sem_congruence(n0, f, c, a);
        lemma_sem_extends(n0, n1, f, a);
        lemma_sem_extends(n1, n2, f, a);
    }
    lemma_same_sem(n2, r2, f);
}

/// The infinite assignment that agrees with the finite one on its prefix
/// and is `false` beyond it.
pub open spec fn prefix_ext(p: Seq<bool>) -> spec_fn(nat) -> bool {
    |l: nat| if (l as int) < p.len() {
        p[l as int]
    } else {
        false
    }
}

/// The infinite assignment `a` agrees with the finite assignment `p` on
/// `p`'s whole range.
pub open spec fn agrees_prefix(a: spec_fn(nat) -> bool, p: Seq<bool>) -> bool {
    forall|l: int| 0 <= l < p.len() ==> #[trigger] a(l as nat) == p[l]
}

/// When the finite walk reaches a terminal, every infinite assignment that
/// extends the finite one evaluates the diagram to that same terminal.
pub proof fn lemma_eval_path_sem(
    nodes: Seq<NodeData>,
    i: int,
    p: Seq<bool>,
    a: spec_fn(nat) -> bool,
)
    requires
        wf(nodes),
        0 <= i < nodes.len(),
        eval_path(nodes, i, p) is Some,
        agrees_prefix(a, p),
    ensures
        eval_path(nodes, i, p) == Some(sem(nodes, i, a)),
    decreases i,
{
    if nodes[i] is Branch {
        assert(wf_branch(nodes, i));
        let level = nodes[i]->level;
        let t = nodes[i]->then_id;
        let e = nodes[i]->else_id;
        let l: int = level as int;
        assert(a(l as nat) == p[l]);
        if p[l] {
            lemma_eval_path_sem(nodes, t as int, p, a);
        } else {
            lemma_eval_path_sem(nodes, e as int, p, a);
        }
    }
}

/// The converse: when every extension of the finite assignment gives the
/// same value, the finite walk cannot run off the end of the assignment —
/// in a canonical store each tested variable genuinely matters.
pub proof fn lemma_sem_eval_path(nodes: Seq<NodeData>, i: int, p: Seq<bool>, v: bool)
    requires
        wf(nodes),
        0 <= i < nodes.len(),
        forall|a: spec_fn(nat) -> bool|
            agrees_prefix(a, p) ==> #[trigger] sem(nodes, i, a) == v,
    ensures
        eval_path(nodes, i, p) == Some(v),
    decreases i,
{
    let ext = prefix_ext(p);
    assert(agrees_prefix(ext, p));
    if i < 2 {
        assert(sem(nodes, i, ext) == v);
    } else {
        assert(wf_branch(nodes, i));
        let level = nodes[i]->level;
        let t = nodes[i]->then_id;
        let e = nodes[i]->else_id;
        let l: int = level as int;
        if l < p.len() {
            if p[l] {
                assert forall|a: spec_fn(nat) -> bool|
                    agrees_prefix(a, p) implies #[trigger] sem(nodes, t as int, a) == v by {
                    assert(sem(nodes, i, a) == v);
                    assert(a(l as nat) == p[l]);
                }
                lemma_sem_eval_path(nodes, t as int, p, v);
            } else {
                assert forall|a: spec_fn(nat) -> bool|
                    agrees_prefix(a, p) implies #[trigger] sem(nodes, e as int, a) == v by {
                    assert(sem(nodes, i, a) == v);
                    assert(a(l as nat) == p[l]);
                }
                lemma_sem_eval_path(nodes, e as int, p, v);
            }
        } else {
            // The walk would run out of assignment here, but then the two
            // distinct children could be told apart beyond the prefix,
            // contradicting that every extension gives one value.
            let c = lemma_distinct_sem(nodes, t as int, e as int);
            let base = |m: nat| if (m as int) < p.len() {
                p[m as int]
            } else {
                c(m)
            };
            let a1 = set_at(base, level as nat, true);
            let a0 = set_at(base, level as nat, false);
            assert(agrees_prefix(a1, p));
            assert(agrees_prefix(a0, p));
            assert forall|m: nat| m as int >= l + 1 implies #[trigger] a1(m) == c(m) by {}
            assert forall|m: nat| m as int >= l + 1 implies #[trigger] a0(m) == c(m) by {}
            lemma_sem_above(nodes, t as int, a1, c, l + 1);
            lemma_sem_above(nodes, e as int, a0, c, l + 1);
            assert(a1(level as nat));
            assert(!a0(level as nat));
            assert(sem(nodes, i, a1) == sem(nodes, t as int, c));
            assert(sem(nodes, i, a0) == sem(nodes, e as int, c));
            assert(sem(nodes, i, a1) == v);
            assert(sem(nodes, i, a0) == v);
            assert(false);
        }
    }
}

/// Evaluation commutes with every binary connective: if both operands
/// evaluate under a finite assignment, so does the combined diagram, to the
/// connective of the two values.
pub proof fn lemma_eval_apply(
    nodes: Seq<NodeData>,
    op: spec_fn(bool, bool) -> bool,
    f: int,
    g: int,
    r: int,
    p: Seq<bool>,
    vf: bool,
    vg: bool,
)
    requires
        wf(nodes),
        0 <= f < nodes.len(),
        0 <= g < nodes.len(),
        0 <= r < nodes.len(),
        forall|a: spec_fn(nat) -> bool| #[trigger] sem(nodes, r, a) == op(
            sem(nodes, f, a),
            sem(nodes, g, a),
        ),
        eval_path(nodes, f, p) == Some(vf),
        eval_path(nodes, g, p) == Some(vg),
    ensures
        eval_path(nodes, r, p) == Some(op(vf, vg)),
{
    assert forall|a: spec_fn(nat) -> bool|
        agrees_prefix(a, p) implies #[trigger] sem(nodes, r, a) == op(vf, vg) by {
        lemma_eval_path_sem(nodes, f, p, a);
        lemma_eval_path_sem(nodes, g, p, a);
    }
    lemma_sem_eval_path(nodes, r, p, op(vf, vg));
}

} // verus!
