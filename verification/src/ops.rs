//! The apply engine: the logical connectives as recursive traversals over
//! diagrams.  All binary connectives share one skeleton — identity and
//! terminal short-cuts, a cofactor split on the smallest root level, and a
//! reducing rebuild through `get_or_insert` — so they are one private
//! function here, instantiated per connective.

use vstd::prelude::*;

use crate::manager::Manager;
use crate::node::{
    extends, lemma_extends_trans, lemma_level_above_extends, lemma_sem_extends, level_above,
    level_at_least, sem, Node, NodeData,
};

verus! {

/// Which binary connective the shared skeleton computes.
#[derive(Clone, Copy, PartialEq, Eq, Structural, Debug)]
enum BoolOp {
    And,
    Or,
    Xor,
    Implies,
}

/// The truth table of a connective.
spec fn op_sem(op: BoolOp, x: bool, y: bool) -> bool {
    match op {
        BoolOp::And => x && y,
        BoolOp::Or => x || y,
        BoolOp::Xor => x != y,
        BoolOp::Implies => !x || y,
    }
}

impl Manager {
    /// Negation: rebuilds the diagram with the two terminals swapped.
    pub fn not(&mut self, f: Node) -> (r: Node)
        requires
            old(self).wf(),
            old(self).valid(f),
        ensures
            final(self).wf(),
            extends(final(self)@, old(self)@),
            final(self).valid(r),
            forall|a: spec_fn(nat) -> bool|
                #[trigger] sem(final(self)@, r.id as int, a) == !sem(old(self)@, f.id as int, a),
            forall|b: int|
                level_above(old(self)@, f.id as int, b) ==> #[trigger] level_above(
                    final(self)@,
                    r.id as int,
                    b,
                ),
        decreases f.id,
    {
        if f.id == 0 {
            return Node { id: 1 };
        }
        if f.id == 1 {
            return Node { id: 0 };
        }
        let ghost s0 = old(self)@;
        let (fl, ft, fe) = self.branch_parts(f);
        let rt = self.not(ft);
        let ghost s1 = self@;
        let re = self.not(fe);
        let ghost s2 = self@;
        proof {
            lemma_level_above_extends(s1, s2, rt.id as int, fl as int);
        }
        let r = self.get_or_insert(fl, rt, re);
        let ghost s3 = self@;
        proof {
            lemma_extends_trans(s2, s1, s0);
            lemma_extends_trans(s3, s2, s0);
            assert forall|a: spec_fn(nat) -> bool|
                #[trigger] sem(s3, r.id as int, a) == !sem(s0, f.id as int, a) by {
                lemma_sem_extends(s1, s2, rt.id as int, a);
                assert(sem(s1, rt.id as int, a) == !sem(s0, ft.id as int, a));
                assert(sem(s2, re.id as int, a) == !sem(s1, fe.id as int, a));
                lemma_sem_extends(s0, s1, fe.id as int, a);
                assert(sem(s0, f.id as int, a) == if a(fl as nat) {
                    sem(s0, ft.id as int, a)
                } else {
                    sem(s0, fe.id as int, a)
                });
            }
            assert forall|b: int|
                level_above(s0, f.id as int, b) implies #[trigger] level_above(
                s3,
                r.id as int,
                b,
            ) by {
                assert(level_at_least(s3, r.id as int, fl as int));
            }
        }
        r
    }

    /// The shared recursive skeleton of the binary connectives.
    fn apply(&mut self, op: BoolOp, f: Node, g: Node) -> (r: Node)
        requires
            old(self).wf(),
            old(self).valid(f),
            old(self).valid(g),
        ensures
            final(self).wf(),
            extends(final(self)@, old(self)@),
            final(self).valid(r),
            forall|a: spec_fn(nat) -> bool|
                #[trigger] sem(final(self)@, r.id as int, a) == op_sem(
                    op,
                    sem(old(self)@, f.id as int, a),
                    sem(old(self)@, g.id as int, a),
                ),
            forall|b: int|
                level_above(old(self)@, f.id as int, b) && level_above(
                    old(self)@,
                    g.id as int,
                    b,
                ) ==> #[trigger] level_above(final(self)@, r.id as int, b),
        decreases f.id + g.id,
    {
        if f.id == g.id {
            match op {
                BoolOp::And | BoolOp::Or => {
                    return f;
                }
                BoolOp::Xor => {
                    return Node { id: 0 };
                }
                BoolOp::Implies => {
                    return Node { id: 1 };
                }
            }
        }
        if f.id == 0 {
            match op {
                BoolOp::And => {
                    return Node { id: 0 };
                }
                BoolOp::Or | BoolOp::Xor => {
                    return g;
                }
                BoolOp::Implies => {
                    return Node { id: 1 };
                }
            }
        }
        if f.id == 1 {
            match op {
                BoolOp::And | BoolOp::Implies => {
                    return g;
                }
                BoolOp::Or => {
                    return Node { id: 1 };
                }
                BoolOp::Xor => {
                    return self.not(g);
                }
            }
        }
        if g.id == 0 {
            match op {
                BoolOp::And => {
                    return Node { id: 0 };
                }
                BoolOp::Or | BoolOp::Xor => {
                    return f;
                }
                BoolOp::Implies => {
                    return self.not(f);
                }
            }
        }
        if g.id == 1 {
            match op {
                BoolOp::And => {
                    return f;
                }
                BoolOp::Or | BoolOp::Implies => {
                    return Node { id: 1 };
                }
                BoolOp::Xor => {
                    return self.not(f);
                }
            }
        }
        let ghost s0 = old(self)@;
        let (fl, ft, fe) = self.branch_parts(f);
        let (gl, gt, ge) = self.branch_parts(g);
        let m = if fl <= gl {
            fl
        } else {
            gl
        };
        let (f1, f0) = if fl <= gl {
            (ft, fe)
        } else {
            (f, f)
        };
        let (g1, g0) = if gl <= fl {
            (gt, ge)
        } else {
            (g, g)
        };
        let rt = self.apply(op, f1, g1);
        let ghost s1 = self@;
        let re = self.apply(op, f0, g0);
        let ghost s2 = self@;
        proof {
            lemma_level_above_extends(s1, s2, rt.id as int, m as int);
            lemma_level_above_extends(s0, s1, f0.id as int, m as int);
            lemma_level_above_extends(s0, s1, g0.id as int, m as int);
        }
        let r = self.get_or_insert(m, rt, re);
        let ghost s3 = self@;
        proof {
            lemma_extends_trans(s2, s1, s0);
            lemma_extends_trans(s3, s2, s0);
            assert forall|a: spec_fn(nat) -> bool|
                #[trigger] sem(s3, r.id as int, a) == op_sem(
                    op,
                    sem(s0, f.id as int, a),
                    sem(s0, g.id as int, a),
                ) by {
                lemma_sem_extends(s1, s2, rt.id as int, a);
                assert(sem(s1, rt.id as int, a) == op_sem(
                    op,
                    sem(s0, f1.id as int, a),
                    sem(s0, g1.id as int, a),
                ));
                assert(sem(s2, re.id as int, a) == op_sem(
                    op,
                    sem(s1, f0.id as int, a),
                    sem(s1, g0.id as int, a),
                ));
                lemma_sem_extends(s0, s1, f0.id as int, a);
                lemma_sem_extends(s0, s1, g0.id as int, a);
                assert(sem(s0, f.id as int, a) == if a(m as nat) {
                    sem(s0, f1.id as int, a)
                } else {
                    sem(s0, f0.id as int, a)
                });
                assert(sem(s0, g.id as int, a) == if a(m as nat) {
                    sem(s0, g1.id as int, a)
                } else {
                    sem(s0, g0.id as int, a)
                });
            }
            assert forall|b: int|
                level_above(s0, f.id as int, b) && level_above(
                    s0,
                    g.id as int,
                    b,
                ) implies #[trigger] level_above(s3, r.id as int, b) by {
                assert(level_at_least(s3, r.id as int, m as int));
            }
        }
        r
    }

    /// Conjunction of the functions denoted by `f` and `g`.
    pub fn and(&mut self, f: Node, g: Node) -> (r: Node)
        requires
            old(self).wf(),
            old(self).valid(f),
            old(self).valid(g),
        ensures
            final(self).wf(),
            extends(final(self)@, old(self)@),
            final(self).valid(r),
            forall|a: spec_fn(nat) -> bool|
                #[trigger] sem(final(self)@, r.id as int, a) == (sem(old(self)@, f.id as int, a)
                    && sem(old(self)@, g.id as int, a)),
            forall|b: int|
                level_above(old(self)@, f.id as int, b) && level_above(
                    old(self)@,
                    g.id as int,
                    b,
                ) ==> #[trigger] level_above(final(self)@, r.id as int, b),
    {
        self.apply(BoolOp::And, f, g)
    }

    /// Disjunction of the functions denoted by `f` and `g`.
    pub fn or(&mut self, f: Node, g: Node) -> (r: Node)
        requires
            old(self).wf(),
            old(self).valid(f),
            old(self).valid(g),
        ensures
            final(self).wf(),
            extends(final(self)@, old(self)@),
            final(self).valid(r),
            forall|a: spec_fn(nat) -> bool|
                #[trigger] sem(final(self)@, r.id as int, a) == (sem(old(self)@, f.id as int, a)
                    || sem(old(self)@, g.id as int, a)),
            forall|b: int|
                level_above(old(self)@, f.id as int, b) && level_above(
                    old(self)@,
                    g.id as int,
                    b,
                ) ==> #[trigger] level_above(final(self)@, r.id as int, b),
    {
        self.apply(BoolOp::Or, f, g)
    }

    /// Exclusive disjunction of the functions denoted by `f` and `g`.
    pub fn xor(&mut self, f: Node, g: Node) -> (r: Node)
        requires
            old(self).wf(),
            old(self).valid(f),
            old(self).valid(g),
        ensures
            final(self).wf(),
            extends(final(self)@, old(self)@),
            final(self).valid(r),
            forall|a: spec_fn(nat) -> bool|
                #[trigger] sem(final(self)@, r.id as int, a) == (sem(old(self)@, f.id as int, a)
                    != sem(old(self)@, g.id as int, a)),
            forall|b: int|
                level_above(old(self)@, f.id as int, b) && level_above(
                    old(self)@,
                    g.id as int,
                    b,
                ) ==> #[trigger] level_above(final(self)@, r.id as int, b),
    {
        self.apply(BoolOp::Xor, f, g)
    }

    /// Implication: the function `f -> g`.
    pub fn implies(&mut self, f: Node, g: Node) -> (r: Node)
        requires
            old(self).wf(),
            old(self).valid(f),
            old(self).valid(g),
        ensures
            final(self).wf(),
            extends(final(self)@, old(self)@),
            final(self).valid(r),
            forall|a: spec_fn(nat) -> bool|
                #[trigger] sem(final(self)@, r.id as int, a) == (!sem(old(self)@, f.id as int, a)
                    || sem(old(self)@, g.id as int, a)),
            forall|b: int|
                level_above(old(self)@, f.id as int, b) && level_above(
                    old(self)@,
                    g.id as int,
                    b,
                ) ==> #[trigger] level_above(final(self)@, r.id as int, b),
    {
        self.apply(BoolOp::Implies, f, g)
    }

    /// The ternary if-then-else connective: `if f then g else h` pointwise.
    pub fn if_then_else(&mut self, f: Node, g: Node, h: Node) -> (r: Node)
        requires
            old(self).wf(),
            old(self).valid(f),
            old(self).valid(g),
            old(self).valid(h),
        ensures
            final(self).wf(),
            extends(final(self)@, old(self)@),
            final(self).valid(r),
            forall|a: spec_fn(nat) -> bool|
                #[trigger] sem(final(self)@, r.id as int, a) == if sem(
                    old(self)@,
                    f.id as int,
                    a,
                ) {
                    sem(old(self)@, g.id as int, a)
                } else {
                    sem(old(self)@, h.id as int, a)
                },
            forall|b: int|
                level_above(old(self)@, f.id as int, b) && level_above(old(self)@, g.id as int, b)
                    && level_above(old(self)@, h.id as int, b) ==> #[trigger] level_above(
                    final(self)@,
                    r.id as int,
                    b,
                ),
        decreases f.id + g.id + h.id,
    {
        if f.id == 1 {
            return g;
        }
        if f.id == 0 {
            return h;
        }
        if g.id == 1 {
            return self.or(f, h);
        }
        if g.id == 0 {
            let ghost s0 = old(self)@;
            let nf = self.not(f);
            let ghost s1 = self@;
            let r = self.and(nf, h);
            let ghost s2 = self@;
            proof {
                lemma_extends_trans(s2, s1, s0);
                assert forall|a: spec_fn(nat) -> bool|
                    #[trigger] sem(s2, r.id as int, a) == if sem(s0, f.id as int, a) {
                        sem(s0, g.id as int, a)
                    } else {
                        sem(s0, h.id as int, a)
                    } by {
                    assert(sem(s2, r.id as int, a) == (sem(s1, nf.id as int, a) && sem(
                        s1,
                        h.id as int,
                        a,
                    )));
                    lemma_sem_extends(s0, s1, h.id as int, a);
                }
            }
            return r;
        }
        if h.id == 1 {
            let ghost s0 = old(self)@;
            let nf = self.not(f);
            let ghost s1 = self@;
            let r = self.or(nf, g);
            let ghost s2 = self@;
            proof {
                lemma_extends_trans(s2, s1, s0);
                assert forall|a: spec_fn(nat) -> bool|
                    #[trigger] sem(s2, r.id as int, a) == if sem(s0, f.id as int, a) {
                        sem(s0, g.id as int, a)
                    } else {
                        sem(s0, h.id as int, a)
                    } by {
                    assert(sem(s2, r.id as int, a) == (sem(s1, nf.id as int, a) || sem(
                        s1,
                        g.id as int,
                        a,
                    )));
                    lemma_sem_extends(s0, s1, g.id as int, a);
                }
            }
            return r;
        }
        if h.id == 0 {
            return self.and(f, g);
        }
        let ghost s0 = old(self)@;
        let (fl, ft, fe) = self.branch_parts(f);
        let (gl, gt, ge) = self.branch_parts(g);
        let (hl, ht, he) = self.branch_parts(h);
        let m0 = if fl <= gl {
            fl
        } else {
            gl
        };
        let m = if m0 <= hl {
            m0
        } else {
            hl
        };
        let (f1, f0) = if fl == m {
            (ft, fe)
        } else {
            (f, f)
        };
        let (g1, g0) = if gl == m {
            (gt, ge)
        } else {
            (g, g)
        };
        let (h1, h0) = if hl == m {
            (ht, he)
        } else {
            (h, h)
        };
        let rt = self.if_then_else(f1, g1, h1);
        let ghost s1 = self@;
        let re = self.if_then_else(f0, g0, h0);
        let ghost s2 = self@;
        proof {
            lemma_level_above_extends(s1, s2, rt.id as int, m as int);
            lemma_level_above_extends(s0, s1, f0.id as int, m as int);
            lemma_level_above_extends(s0, s1, g0.id as int, m as int);
            lemma_level_above_extends(s0, s1, h0.id as int, m as int);
        }
        let r = self.get_or_insert(m, rt, re);
        let ghost s3 = self@;
        proof {
            lemma_extends_trans(s2, s1, s0);
            lemma_extends_trans(s3, s2, s0);
            assert forall|a: spec_fn(nat) -> bool|
                #[trigger] sem(s3, r.id as int, a) == if sem(s0, f.id as int, a) {
                    sem(s0, g.id as int, a)
                } else {
                    sem(s0, h.id as int, a)
                } by {
                lemma_sem_extends(s1, s2, rt.id as int, a);
                assert(sem(s1, rt.id as int, a) == if sem(s0, f1.id as int, a) {
                    sem(s0, g1.id as int, a)
                } else {
                    sem(s0, h1.id as int, a)
                });
                assert(sem(s2, re.id as int, a) == if sem(s1, f0.id as int, a) {
                    sem(s1, g0.id as int, a)
                } else {
                    sem(s1, h0.id as int, a)
                });
                lemma_sem_extends(s0, s1, f0.id as int, a);
                lemma_sem_extends(s0, s1, g0.id as int, a);
                lemma_sem_extends(s0, s1, h0.id as int, a);
                assert(sem(s0, f.id as int, a) == if a(m as nat) {
                    sem(s0, f1.id as int, a)
                } else {
                    sem(s0, f0.id as int, a)
                });
                assert(sem(s0, g.id as int, a) == if a(m as nat) {
                    sem(s0, g1.id as int, a)
                } else {
                    sem(s0, g0.id as int, a)
                });
                assert(sem(s0, h.id as int, a) == if a(m as nat) {
                    sem(s0, h1.id as int, a)
                } else {
                    sem(s0, h0.id as int, a)
                });
            }
            assert forall|b: int|
                level_above(s0, f.id as int, b) && level_above(s0, g.id as int, b) && level_above(
                    s0,
                    h.id as int,
                    b,
                ) implies #[trigger] level_above(s3, r.id as int, b) by {
                assert(level_at_least(s3, r.id as int, m as int));
            }
        }
        r
    }

    /// Structural equality of two diagrams.  Because the store is canonical,
    /// this agrees exactly with identity of the handles.
    pub fn eq(&self, f: Node, g: Node) -> (r: bool)
        requires
            self.wf(),
            self.valid(f),
            self.valid(g),
        ensures
            r == (f.id == g.id),
        decreases f.id + g.id,
    {
        if f.id == g.id {
            return true;
        }
        if f.id < 2 || g.id < 2 {
            return false;
        }
        let (fl, ft, fe) = self.branch_parts(f);
        let (gl, gt, ge) = self.branch_parts(g);
        if fl != gl {
            return false;
        }
        let te = self.eq(ft, gt);
        if !te {
            return false;
        }
        let ee = self.eq(fe, ge);
        if !ee {
            return false;
        }
        proof {
            assert(self@[f.id as int] == self@[g.id as int]);
            assert(self@[f.id as int] is Branch);
            assert(false);
        }
        true
    }
}

} // verus!
