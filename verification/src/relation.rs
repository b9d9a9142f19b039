//! Binary relations over finite domains `0 .. x_end` by `0 .. y_end`, with
//! the algebra the surrounding language exposes: union, intersection,
//! complement, composition, converse, and the subset and membership tests.
//!
//! A relation is stored as one of a few shapes — empty, the identity, the
//! full product, or an explicit strictly sorted list of pairs — and every
//! operation is specified through one membership predicate.

use vstd::prelude::*;

verus! {

/// An element of a domain.
pub type Element = u32;

/// One pair is lexicographically before another.
pub open spec fn pair_lt(p: (u32, u32), q: (u32, u32)) -> bool {
    p.0 < q.0 || (p.0 == q.0 && p.1 < q.1)
}

/// Strictly ascending, hence duplicate-free.
pub open spec fn sorted_pairs(v: Seq<(u32, u32)>) -> bool {
    forall|i: int, j: int| 0 <= i < j < v.len() ==> pair_lt(#[trigger] v[i], #[trigger] v[j])
}

/// The pair lies inside the rectangle `dom`.
pub open spec fn in_domain(dom: (u32, u32), p: (u32, u32)) -> bool {
    p.0 < dom.0 && p.1 < dom.1
}

/// How the set of pairs is stored.
pub enum Storage {
    Empty,
    Identity,
    Universal,
    Sparse(Vec<(u32, u32)>),
}

/// A binary relation between `0 .. x_end` and `0 .. y_end`.
pub struct Relation {
    pub x_end: u32,
    pub y_end: u32,
    pub storage: Storage,
}

impl Relation {
    /// The pair of domain bounds.
    pub open spec fn dom(&self) -> (u32, u32) {
        (self.x_end, self.y_end)
    }

    /// Membership of `(x, y)` in the stored set.
    pub open spec fn spec_contains(&self, x: u32, y: u32) -> bool {
        match self.storage {
            Storage::Empty => false,
            Storage::Identity => x == y,
            Storage::Universal => true,
            Storage::Sparse(v) => v@.contains((x, y)),
        }
    }

    /// The stored shape is consistent: degenerate domains never use the
    /// identity or universal shapes, and a sparse list is strictly sorted
    /// with every pair inside the domain.
    pub open spec fn wf(&self) -> bool {
        match self.storage {
            Storage::Empty => true,
            Storage::Identity => self.x_end == self.y_end && self.x_end > 0,
            Storage::Universal => self.x_end > 0 && self.y_end > 0,
            Storage::Sparse(v) => sorted_pairs(v@) && forall|i: int|
                0 <= i < v@.len() ==> in_domain((self.x_end, self.y_end), #[trigger] v@[i]),
        }
    }

    /// The relation with no pairs at all.
    pub fn empty(domain: (u32, u32)) -> (r: Relation)
        ensures
            r.wf(),
            r.dom() == domain,
            forall|x: u32, y: u32| !#[trigger] r.spec_contains(x, y),
    {
        Relation { x_end: domain.0, y_end: domain.1, storage: Storage::Empty }
    }

    /// The identity relation on a square domain.
    pub fn identity(domain: u32) -> (r: Relation)
        ensures
            r.wf(),
            r.dom() == (domain, domain),
            forall|x: u32, y: u32|
                x < domain && y < domain ==> #[trigger] r.spec_contains(x, y) == (x == y),
    {
        if domain == 0 {
            Relation { x_end: 0, y_end: 0, storage: Storage::Empty }
        } else {
            Relation { x_end: domain, y_end: domain, storage: Storage::Identity }
        }
    }

    /// The full product of the two domains.
    pub fn universal(domain: (u32, u32)) -> (r: Relation)
        ensures
            r.wf(),
            r.dom() == domain,
            forall|x: u32, y: u32|
                x < domain.0 && y < domain.1 ==> #[trigger] r.spec_contains(x, y),
    {
        if domain.0 == 0 || domain.1 == 0 {
            Relation { x_end: domain.0, y_end: domain.1, storage: Storage::Empty }
        } else {
            Relation { x_end: domain.0, y_end: domain.1, storage: Storage::Universal }
        }
    }

    /// The relation holding exactly the given pairs, which must lie inside
    /// the domain.
    pub fn sparse(domain: (u32, u32), pairs: &Vec<(u32, u32)>) -> (r: Relation)
        requires
            forall|i: int| 0 <= i < pairs@.len() ==> in_domain(domain, #[trigger] pairs@[i]),
        ensures
            r.wf(),
            r.dom() == domain,
            forall|x: u32, y: u32| #[trigger] r.spec_contains(x, y) == pairs@.contains((x, y)),
    {
        let mut v: Vec<(u32, u32)> = Vec::new();
        let mut i: usize = 0;
        while i < pairs.len()
            invariant
                i <= pairs@.len(),
                sorted_pairs(v@),
                forall|k: int| 0 <= k < pairs@.len() ==> in_domain(domain, #[trigger] pairs@[k]),
                forall|q: (u32, u32)| v@.contains(q) <==> pairs@.take(i as int).contains(q),
            decreases pairs@.len() - i,
        {
            let ghost prev = v@;
            insert_pair(&mut v, pairs[i]);
            proof {
                assert forall|q: (u32, u32)|
                    v@.contains(q) <==> pairs@.take(i as int + 1).contains(q) by {
                    if v@.contains(q) {
                        if q == pairs@[i as int] {
                            assert(pairs@.take(i as int + 1)[i as int] == q);
                        } else {
                            let k = choose|k: int|
                                0 <= k < prev.len() && prev[k] == q && pairs@.take(
                                    i as int,
                                ).contains(q);
                            let k2 = choose|k2: int|
                                0 <= k2 < i && pairs@.take(i as int)[k2] == q;
                            assert(pairs@.take(i as int + 1)[k2] == q);
                        }
                    }
                    if pairs@.take(i as int + 1).contains(q) {
                        let k = choose|k: int|
                            0 <= k <= i as int && #[trigger] pairs@.take(i as int + 1)[k] == q;
                        if k < i {
                            assert(pairs@.take(i as int)[k] == q);
                        }
                    }
                }
            }
            i += 1;
        }
        proof {
            assert(pairs@.take(pairs@.len() as int) == pairs@);
            assert forall|k: int| 0 <= k < v@.len() implies in_domain(
                domain,
                #[trigger] v@[k],
            ) by {
                assert(v@.contains(v@[k]));
                let m = choose|m: int| 0 <= m < pairs@.len() && pairs@[m] == v@[k];
            }
        }
        Relation { x_end: domain.0, y_end: domain.1, storage: Storage::Sparse(v) }
    }

    /// The relation standing for the truth value `true`.
    pub fn true_relation() -> (r: Relation)
        ensures
            r.wf(),
            r.dom() == (1u32, 1u32),
            r.spec_contains(0, 0),
    {
        Relation::universal((1, 1))
    }

    /// The relation standing for the truth value `false`.
    pub fn false_relation() -> (r: Relation)
        ensures
            r.wf(),
            r.dom() == (1u32, 1u32),
            forall|x: u32, y: u32| !#[trigger] r.spec_contains(x, y),
    {
        Relation::empty((1, 1))
    }

    /// The pair of domain bounds.
    pub fn domain(&self) -> (r: (u32, u32))
        ensures
            r == self.dom(),
    {
        (self.x_end, self.y_end)
    }

    /// Membership test.
    pub fn contains(&self, pair: (u32, u32)) -> (r: bool)
        ensures
            r == self.spec_contains(pair.0, pair.1),
    {
        match &self.storage {
            Storage::Empty => false,
            Storage::Identity => pair.0 == pair.1,
            Storage::Universal => true,
            Storage::Sparse(v) => {
                let mut k: usize = 0;
                while k < v.len()
                    invariant
                        k <= v@.len(),
                        self.storage matches Storage::Sparse(sv2) && sv2@ == v@,
                        forall|j: int| 0 <= j < k ==> #[trigger] v@[j] != pair,
                    decreases v@.len() - k,
                {
                    if v[k].0 == pair.0 && v[k].1 == pair.1 {
                        assert(v@[k as int] == pair);
                        return true;
                    }
                    k += 1;
                }
                proof {
                    if v@.contains(pair) {
                        let j = choose|j: int| 0 <= j < v@.len() && v@[j] == pair;
                    }
                }
                false
            }
        }
    }

    /// All pairs of the relation, in ascending order.
    pub fn iter(&self) -> (r: Vec<(u32, u32)>)
        requires
            self.wf(),
        ensures
            sorted_pairs(r@),
            forall|q: (u32, u32)| #[trigger] r@.contains(q) <==> (in_domain(self.dom(), q)
                && self.spec_contains(q.0, q.1)),
    {
        match &self.storage {
            Storage::Empty => Vec::new(),
            Storage::Identity => {
                let mut v: Vec<(u32, u32)> = Vec::new();
                let mut x: u32 = 0;
                while x < self.x_end
                    invariant
                        x <= self.x_end,
                        v@.len() == x as int,
                        forall|j: int| 0 <= j < x as int ==> #[trigger] v@[j] == (j as u32, j as u32),
                    decreases self.x_end - x,
                {
                    v.push((x, x));
                    x += 1;
                }
                proof {
                    assert forall|q: (u32, u32)| #[trigger] v@.contains(q) implies (q.0 == q.1
                        && q.0 < self.x_end) by {
                        let j = choose|j: int| 0 <= j < v@.len() && v@[j] == q;
                    }
                    assert forall|q: (u32, u32)| q.0 == q.1 && q.0
                        < self.x_end implies #[trigger] v@.contains(q) by {
                        assert(v@[q.0 as int] == (q.0, q.1));
                        assert(q == (q.0, q.1));
                    }
                }
                v
            }
            Storage::Universal => {
                let mut v: Vec<(u32, u32)> = Vec::new();
                let mut x: u32 = 0;
                while x < self.x_end
                    invariant
                        x <= self.x_end,
                        sorted_pairs(v@),
                        forall|j: int| 0 <= j < v@.len() ==> (#[trigger] v@[j]).0 < x,
                        forall|q: (u32, u32)| #[trigger] v@.contains(q) <==> (q.0 < x && q.1
                            < self.y_end),
                    decreases self.x_end - x,
                {
                    let mut y: u32 = 0;
                    while y < self.y_end
                        invariant
                            y <= self.y_end,
                            x < self.x_end,
                            sorted_pairs(v@),
                            forall|j: int| 0 <= j < v@.len() ==> ((#[trigger] v@[j]).0 < x || (
                                v@[j].0 == x && v@[j].1 < y)),
                            forall|q: (u32, u32)| #[trigger] v@.contains(q) <==> ((q.0 < x
                                && q.1 < self.y_end) || (q.0 == x && q.1 < y)),
                        decreases self.y_end - y,
                    {
                        let ghost prev = v@;
                        v.push((x, y));
                        proof {
                            assert forall|q: (u32, u32)|
                                #[trigger] v@.contains(q) <==> ((q.0 < x && q.1 < self.y_end)
                                    || (q.0 == x && q.1 < y + 1)) by {
                                if v@.contains(q) {
                                    let j = choose|j: int| 0 <= j < v@.len() && v@[j] == q;
                                    if j < prev.len() {
                                        assert(prev.contains(q));
                                    }
                                }
                                if (q.0 < x && q.1 < self.y_end) || (q.0 == x && q.1 < y + 1) {
                                    assert(q == (q.0, q.1));
                                    if (q.0 < x && q.1 < self.y_end) || (q.0 == x && q.1 < y) {
                                        assert(prev.contains(q));
                                        let j = choose|j: int|
                                            0 <= j < prev.len() && prev[j] == q;
                                        assert(v@[j] == q);
                                    } else {
                                        assert(v@[v@.len() - 1] == (q.0, q.1));
                                    }
                                }
                            }
                        }
                        y += 1;
                    }
                    x += 1;
                }
                v
            }
            Storage::Sparse(sv) => {
                let mut v: Vec<(u32, u32)> = Vec::new();
                let mut k: usize = 0;
                while k < sv.len()
                    invariant
                        k <= sv@.len(),
                        v@ == sv@.take(k as int),
                    decreases sv@.len() - k,
                {
                    v.push(sv[k]);
                    proof {
                        assert(v@ == sv@.take(k as int + 1));
                    }
                    k += 1;
                }
                proof {
                    assert(v@ == sv@);
                    assert forall|q: (u32, u32)| #[trigger] v@.contains(q) implies (in_domain(
                        self.dom(),
                        q,
                    ) && self.spec_contains(q.0, q.1)) by {
                        let j = choose|j: int| 0 <= j < sv@.len() && sv@[j] == q;
                        assert(q == (q.0, q.1));
                    }
                }
                v
            }
        }
    }
}

/// There is some middle element connecting `x` to `z` through the two
/// relations.
pub open spec fn composed_at(left: Relation, right: Relation, x: u32, z: u32) -> bool {
    exists|y: u32| y < left.y_end && #[trigger] left.spec_contains(x, y) && right.spec_contains(
        y,
        z,
    )
}

impl Relation {
    /// The relation with every pair flipped, over the flipped domains.
    pub fn converse(self) -> (r: Relation)
        requires
            self.wf(),
        ensures
            r.wf(),
            r.dom() == (self.y_end, self.x_end),
            forall|x: u32, y: u32|
                x < self.x_end && y < self.y_end ==> #[trigger] r.spec_contains(y, x)
                    == self.spec_contains(x, y),
            forall|x: u32, y: u32|
                #[trigger] r.spec_contains(y, x) ==> x < self.x_end && y < self.y_end,
    {
        let ps = self.iter();
        let mut sw: Vec<(u32, u32)> = Vec::new();
        let mut i: usize = 0;
        while i < ps.len()
            invariant
                i <= ps@.len(),
                sorted_pairs(sw@),
                forall|q: (u32, u32)| #[trigger] sw@.contains(q) <==> ps@.take(i as int).contains(
                    (q.1, q.0),
                ),
            decreases ps@.len() - i,
        {
            let ghost prev = sw@;
            let p = ps[i];
            insert_pair(&mut sw, (p.1, p.0));
            proof {
                assert forall|q: (u32, u32)|
                    #[trigger] sw@.contains(q) <==> ps@.take(i as int + 1).contains(
                        (q.1, q.0),
                    ) by {
                    if sw@.contains(q) {
                        if q == (p.1, p.0) {
                            assert(ps@.take(i as int + 1)[i as int] == (q.1, q.0));
                        } else {
                            assert(prev.contains(q));
                            let k = choose|k: int|
                                0 <= k < i as int && #[trigger] ps@.take(i as int)[k] == (
                                q.1,
                                q.0,
                                );
                            assert(ps@.take(i as int + 1)[k] == (q.1, q.0));
                        }
                    }
                    if ps@.take(i as int + 1).contains((q.1, q.0)) {
                        let k = choose|k: int|
                            0 <= k < i as int + 1 && #[trigger] ps@.take(i as int + 1)[k] == (
                            q.1,
                            q.0,
                            );
                        if k < i as int {
                            assert(ps@.take(i as int)[k] == (q.1, q.0));
                            assert(prev.contains(q));
                        } else {
                            assert(q == (p.1, p.0));
                        }
                    }
                }
            }
            i += 1;
        }
        proof {
            assert(ps@.take(ps@.len() as int) == ps@);
        }
        let r = Relation { x_end: self.y_end, y_end: self.x_end, storage: Storage::Sparse(sw) };
        proof {
            assert forall|x: u32, y: u32|
                x < self.x_end && y < self.y_end implies #[trigger] r.spec_contains(y, x)
                == self.spec_contains(x, y) by {
                assert(sw@.contains((y, x)) <==> ps@.contains((x, y)));
            }
            assert forall|x: u32, y: u32| #[trigger] r.spec_contains(y, x) implies x < self.x_end
                && y < self.y_end by {
                if sw@.contains((y, x)) {
                    assert(ps@.contains((x, y)));
                }
            }
            assert forall|k: int| 0 <= k < sw@.len() implies in_domain(
                (self.y_end, self.x_end),
                #[trigger] sw@[k],
            ) by {
                assert(sw@.contains(sw@[k]));
                let q = sw@[k];
                assert(ps@.contains((q.1, q.0)));
            }
        }
        r
    }

    /// Whether no pair at all lies in the relation.
    pub fn is_empty(&self) -> (r: bool)
        requires
            self.wf(),
        ensures
            r == !(exists|x: u32, y: u32|
                x < self.x_end && y < self.y_end && #[trigger] self.spec_contains(x, y)),
    {
        match &self.storage {
            Storage::Empty => true,
            Storage::Identity => {
                proof {
                    assert(self.spec_contains(0, 0));
                }
                self.x_end == 0
            }
            Storage::Universal => {
                proof {
                    assert(self.spec_contains(0, 0));
                }
                self.x_end == 0 || self.y_end == 0
            }
            Storage::Sparse(v) => {
                if v.len() == 0 {
                    proof {
                        assert forall|x: u32, y: u32|
                            !(x < self.x_end && y < self.y_end && #[trigger] self.spec_contains(
                                x,
                                y,
                            )) by {
                            if v@.contains((x, y)) {
                                let j = choose|j: int| 0 <= j < v@.len() && v@[j] == (x, y);
                            }
                        }
                    }
                    true
                } else {
                    proof {
                        let q = v@[0];
                        assert(in_domain((self.x_end, self.y_end), v@[0]));
                        assert(v@.contains(q));
                        assert(self.spec_contains(q.0, q.1));
                    }
                    false
                }
            }
        }
    }

    /// Whether every pair of this relation also lies in `other`.
    pub fn is_subset_of(&self, other: &Relation) -> (r: bool)
        requires
            self.wf(),
            other.wf(),
            self.dom() == other.dom(),
        ensures
            r == (forall|x: u32, y: u32|
                x < self.x_end && y < self.y_end && #[trigger] self.spec_contains(x, y)
                    ==> other.spec_contains(x, y)),
    {
        let ps = self.iter();
        let mut i: usize = 0;
        while i < ps.len()
            invariant
                i <= ps@.len(),
                self.wf(),
                other.wf(),
                self.dom() == other.dom(),
                sorted_pairs(ps@),
                forall|q: (u32, u32)| #[trigger] ps@.contains(q) <==> (in_domain(
                    self.dom(),
                    q,
                ) && self.spec_contains(q.0, q.1)),
                forall|j: int|
                    0 <= j < i ==> other.spec_contains(
                        (#[trigger] ps@[j]).0,
                        ps@[j].1,
                    ),
            decreases ps@.len() - i,
        {
            let p = ps[i];
            if !other.contains(p) {
                proof {
                    assert(ps@.contains(ps@[i as int]));
                    assert(self.spec_contains(p.0, p.1) && in_domain(self.dom(), p));
                }
                return false;
            }
            i += 1;
        }
        proof {
            assert forall|x: u32, y: u32|
                x < self.x_end && y < self.y_end && #[trigger] self.spec_contains(
                    x,
                    y,
                ) implies other.spec_contains(x, y) by {
                assert(ps@.contains((x, y)));
                let j = choose|j: int| 0 <= j < ps@.len() && ps@[j] == (x, y);
            }
        }
        true
    }

    /// Whether the two relations hold exactly the same pairs of their
    /// common domain.
    pub fn eq(&self, other: &Relation) -> (r: bool)
        requires
            self.wf(),
            other.wf(),
            self.dom() == other.dom(),
        ensures
            r == (forall|x: u32, y: u32|
                x < self.x_end && y < self.y_end ==> #[trigger] self.spec_contains(x, y)
                    == other.spec_contains(x, y)),
    {
        let fwd = self.is_subset_of(other);
        let bwd = other.is_subset_of(self);
        proof {
            if fwd && bwd {
                assert forall|x: u32, y: u32|
                    x < self.x_end && y < self.y_end implies #[trigger] self.spec_contains(x, y)
                    == other.spec_contains(x, y) by {
                    assert(self.spec_contains(x, y) ==> other.spec_contains(x, y));
                    assert(other.spec_contains(x, y) ==> self.spec_contains(x, y));
                }
            }
        }
        fwd && bwd
    }

    /// The union of two relations over one domain.
    pub fn union(self, rhs: Relation) -> (r: Relation)
        requires
            self.wf(),
            rhs.wf(),
            self.dom() == rhs.dom(),
        ensures
            r.wf(),
            r.dom() == self.dom(),
            forall|x: u32, y: u32|
                x < self.x_end && y < self.y_end ==> #[trigger] r.spec_contains(x, y) == (
                self.spec_contains(x, y) || rhs.spec_contains(x, y)),
    {
        let mut acc = self.iter();
        let qs = rhs.iter();
        let mut i: usize = 0;
        while i < qs.len()
            invariant
                i <= qs@.len(),
                sorted_pairs(acc@),
                forall|q: (u32, u32)| #[trigger] acc@.contains(q) <==> (in_domain(
                    self.dom(),
                    q,
                ) && self.spec_contains(q.0, q.1) || qs@.take(i as int).contains(q)),
            decreases qs@.len() - i,
        {
            let ghost prev = acc@;
            insert_pair(&mut acc, qs[i]);
            proof {
                assert forall|q: (u32, u32)|
                    #[trigger] acc@.contains(q) <==> (in_domain(self.dom(), q)
                        && self.spec_contains(q.0, q.1) || qs@.take(i as int + 1).contains(
                        q,
                    )) by {
                    if acc@.contains(q) {
                        if q == qs@[i as int] {
                            assert(qs@.take(i as int + 1)[i as int] == q);
                        } else {
                            assert(prev.contains(q));
                            if qs@.take(i as int).contains(q) {
                                let k = choose|k: int|
                                    0 <= k < i as int && #[trigger] qs@.take(i as int)[k] == q;
                                assert(qs@.take(i as int + 1)[k] == q);
                            }
                        }
                    }
                    if qs@.take(i as int + 1).contains(q) {
                        let k = choose|k: int|
                            0 <= k < i as int + 1 && #[trigger] qs@.take(i as int + 1)[k] == q;
                        if k < i as int {
                            assert(qs@.take(i as int)[k] == q);
                        } else {
                            assert(q == qs@[i as int]);
                        }
                    }
                }
            }
            i += 1;
        }
        proof {
            assert(qs@.take(qs@.len() as int) == qs@);
        }
        let r = Relation { x_end: self.x_end, y_end: self.y_end, storage: Storage::Sparse(acc) };
        proof {
            assert forall|x: u32, y: u32|
                x < self.x_end && y < self.y_end implies #[trigger] r.spec_contains(x, y) == (
                self.spec_contains(x, y) || rhs.spec_contains(x, y)) by {
                assert(acc@.contains((x, y)) <==> (in_domain(self.dom(), (x, y))
                    && self.spec_contains(x, y) || qs@.contains((x, y))));
            }
            assert forall|k: int| 0 <= k < acc@.len() implies in_domain(
                (self.x_end, self.y_end),
                #[trigger] acc@[k],
            ) by {
                assert(acc@.contains(acc@[k]));
            }
        }
        r
    }

    /// The intersection of two relations over one domain.
    pub fn intersect(self, rhs: Relation) -> (r: Relation)
        requires
            self.wf(),
            rhs.wf(),
            self.dom() == rhs.dom(),
        ensures
            r.wf(),
            r.dom() == self.dom(),
            forall|x: u32, y: u32|
                x < self.x_end && y < self.y_end ==> #[trigger] r.spec_contains(x, y) == (
                self.spec_contains(x, y) && rhs.spec_contains(x, y)),
    {
        let ps = self.iter();
        let mut out: Vec<(u32, u32)> = Vec::new();
        let mut i: usize = 0;
        while i < ps.len()
            invariant
                i <= ps@.len(),
                self.wf(),
                rhs.wf(),
                self.dom() == rhs.dom(),
                sorted_pairs(ps@),
                forall|q2: (u32, u32)| #[trigger] ps@.contains(q2) <==> (in_domain(
                    self.dom(),
                    q2,
                ) && self.spec_contains(q2.0, q2.1)),
                sorted_pairs(out@),
                forall|u: int, j: int|
                    0 <= u < out@.len() && i <= j < ps@.len() ==> pair_lt(
                        #[trigger] out@[u],
                        #[trigger] ps@[j],
                    ),
                forall|q: (u32, u32)| #[trigger] out@.contains(q) <==> (ps@.take(
                    i as int,
                ).contains(q) && rhs.spec_contains(q.0, q.1)),
            decreases ps@.len() - i,
        {
            let ghost prev = out@;
            let p = ps[i];
            if rhs.contains(p) {
                out.push(p);
            }
            proof {
                assert forall|q: (u32, u32)|
                    #[trigger] out@.contains(q) <==> (ps@.take(i as int + 1).contains(q)
                        && rhs.spec_contains(q.0, q.1)) by {
                    if out@.contains(q) {
                        let u = choose|u: int| 0 <= u < out@.len() && out@[u] == q;
                        if u < prev.len() {
                            assert(prev.contains(q));
                            let k = choose|k: int|
                                0 <= k < i as int && #[trigger] ps@.take(i as int)[k] == q;
                            assert(ps@.take(i as int + 1)[k] == q);
                        } else {
                            assert(q == p);
                            assert(ps@.take(i as int + 1)[i as int] == q);
                        }
                    }
                    if ps@.take(i as int + 1).contains(q) && rhs.spec_contains(q.0, q.1) {
                        let k = choose|k: int|
                            0 <= k < i as int + 1 && #[trigger] ps@.take(i as int + 1)[k] == q;
                        if k < i as int {
                            assert(ps@.take(i as int)[k] == q);
                            assert(prev.contains(q));
                            let u = choose|u: int| 0 <= u < prev.len() && prev[u] == q;
                            assert(out@[u] == q);
                        } else {
                            assert(q == p);
                            assert(out@[out@.len() - 1] == q);
                        }
                        assert(out@.contains(q));
                    }
                }
            }
            i += 1;
        }
        proof {
            assert(ps@.take(ps@.len() as int) == ps@);
        }
        let r = Relation { x_end: self.x_end, y_end: self.y_end, storage: Storage::Sparse(out) };
        proof {
            assert forall|x: u32, y: u32|
                x < self.x_end && y < self.y_end implies #[trigger] r.spec_contains(x, y) == (
                self.spec_contains(x, y) && rhs.spec_contains(x, y)) by {
                assert(out@.contains((x, y)) <==> (ps@.contains((x, y)) && rhs.spec_contains(
                    x,
                    y,
                )));
            }
            assert forall|k: int| 0 <= k < out@.len() implies in_domain(
                (self.x_end, self.y_end),
                #[trigger] out@[k],
            ) by {
                assert(out@.contains(out@[k]));
                assert(ps@.contains(out@[k]));
            }
        }
        r
    }
}

impl Relation {
    /// The complement within the domain rectangle.
    pub fn complement(self) -> (r: Relation)
        requires
            self.wf(),
        ensures
            r.wf(),
            r.dom() == self.dom(),
            forall|x: u32, y: u32|
                x < self.x_end && y < self.y_end ==> #[trigger] r.spec_contains(x, y)
                    == !self.spec_contains(x, y),
    {
        let mut out: Vec<(u32, u32)> = Vec::new();
        let mut x: u32 = 0;
        while x < self.x_end
            invariant
                x <= self.x_end,
                sorted_pairs(out@),
                forall|j: int| 0 <= j < out@.len() ==> (#[trigger] out@[j]).0 < x,
                forall|q: (u32, u32)| #[trigger] out@.contains(q) <==> (q.0 < x && q.1
                    < self.y_end && !self.spec_contains(q.0, q.1)),
            decreases self.x_end - x,
        {
            let mut y: u32 = 0;
            while y < self.y_end
                invariant
                    y <= self.y_end,
                    x < self.x_end,
                    sorted_pairs(out@),
                    forall|j: int| 0 <= j < out@.len() ==> ((#[trigger] out@[j]).0 < x || (
                    out@[j].0 == x && out@[j].1 < y)),
                    forall|q: (u32, u32)| #[trigger] out@.contains(q) <==> ((q.0 < x && q.1
                        < self.y_end || q.0 == x && q.1 < y) && !self.spec_contains(q.0, q.1)),
                decreases self.y_end - y,
            {
                let ghost prev = out@;
                let keep = !self.contains((x, y));
                if keep {
                    out.push((x, y));
                }
                proof {
                    assert forall|q: (u32, u32)|
                        #[trigger] out@.contains(q) <==> ((q.0 < x && q.1 < self.y_end || q.0
                            == x && q.1 < y + 1) && !self.spec_contains(q.0, q.1)) by {
                        if out@.contains(q) {
                            let j = choose|j: int| 0 <= j < out@.len() && out@[j] == q;
                            if j < prev.len() {
                                assert(prev.contains(q));
                            }
                        }
                        if (q.0 < x && q.1 < self.y_end || q.0 == x && q.1 < y + 1)
                            && !self.spec_contains(q.0, q.1) {
                            assert(q == (q.0, q.1));
                            if q.0 < x && q.1 < self.y_end || q.0 == x && q.1 < y {
                                assert(prev.contains(q));
                                let j = choose|j: int| 0 <= j < prev.len() && prev[j] == q;
                                assert(out@[j] == q);
                            } else {
                                assert(out@[out@.len() - 1] == (q.0, q.1));
                            }
                            assert(out@.contains(q));
                        }
                    }
                }
                y += 1;
            }
            x += 1;
        }
        let r = Relation { x_end: self.x_end, y_end: self.y_end, storage: Storage::Sparse(out) };
        proof {
            assert forall|x2: u32, y2: u32|
                x2 < self.x_end && y2 < self.y_end implies #[trigger] r.spec_contains(x2, y2)
                == !self.spec_contains(x2, y2) by {
                assert(out@.contains((x2, y2)) <==> (x2 < self.x_end && y2 < self.y_end
                    && !self.spec_contains(x2, y2)));
            }
            assert forall|k: int| 0 <= k < out@.len() implies in_domain(
                (self.x_end, self.y_end),
                #[trigger] out@[k],
            ) by {
                assert(out@.contains(out@[k]));
            }
        }
        r
    }

    /// Relational composition: `(x, z)` lies in the result exactly when
    /// some middle element connects `x` to `z` through the two relations.
    pub fn compose(self, rhs: Relation) -> (r: Relation)
        requires
            self.wf(),
            rhs.wf(),
            self.y_end == rhs.x_end,
        ensures
            r.wf(),
            r.dom() == (self.x_end, rhs.y_end),
            forall|x: u32, z: u32|
                x < self.x_end && z < rhs.y_end ==> #[trigger] r.spec_contains(x, z)
                    == composed_at(self, rhs, x, z),
    {
        let mut out: Vec<(u32, u32)> = Vec::new();
        let mut x: u32 = 0;
        while x < self.x_end
            invariant
                x <= self.x_end,
                self.y_end == rhs.x_end,
                sorted_pairs(out@),
                forall|j: int| 0 <= j < out@.len() ==> (#[trigger] out@[j]).0 < x,
                forall|q: (u32, u32)| #[trigger] out@.contains(q) <==> (q.0 < x && q.1
                    < rhs.y_end && composed_at(self, rhs, q.0, q.1)),
            decreases self.x_end - x,
        {
            let mut z: u32 = 0;
            while z < rhs.y_end
                invariant
                    z <= rhs.y_end,
                    x < self.x_end,
                    self.y_end == rhs.x_end,
                    sorted_pairs(out@),
                    forall|j: int| 0 <= j < out@.len() ==> ((#[trigger] out@[j]).0 < x || (
                    out@[j].0 == x && out@[j].1 < z)),
                    forall|q: (u32, u32)| #[trigger] out@.contains(q) <==> ((q.0 < x && q.1
                        < rhs.y_end || q.0 == x && q.1 < z) && composed_at(self, rhs, q.0, q.1)),
                decreases rhs.y_end - z,
            {
                let mut y: u32 = 0;
                let mut found = false;
                while y < self.y_end
                    invariant
                        y <= self.y_end,
                        found == exists|y2: u32|
                            y2 < y && #[trigger] self.spec_contains(x, y2) && rhs.spec_contains(
                                y2,
                                z,
                            ),
                    decreases self.y_end - y,
                {
                    if self.contains((x, y)) && rhs.contains((y, z)) {
                        found = true;
                        proof {
                            assert(self.spec_contains(x, y) && rhs.spec_contains(y, z));
                        }
                    }
                    y += 1;
                }
                let ghost prev = out@;
                if found {
                    out.push((x, z));
                }
                proof {
                    assert(found == composed_at(self, rhs, x, z));
                    assert forall|q: (u32, u32)|
                        #[trigger] out@.contains(q) <==> ((q.0 < x && q.1 < rhs.y_end || q.0
                            == x && q.1 < z + 1) && composed_at(self, rhs, q.0, q.1)) by {
                        if out@.contains(q) {
                            let j = choose|j: int| 0 <= j < out@.len() && out@[j] == q;
                            if j < prev.len() {
                                assert(prev.contains(q));
                            }
                        }
                        if (q.0 < x && q.1 < rhs.y_end || q.0 == x && q.1 < z + 1)
                            && composed_at(self, rhs, q.0, q.1) {
                            assert(q == (q.0, q.1));
                            if q.0 < x && q.1 < rhs.y_end || q.0 == x && q.1 < z {
                                assert(prev.contains(q));
                                let j = choose|j: int| 0 <= j < prev.len() && prev[j] == q;
                                assert(out@[j] == q);
                            } else {
                                assert(out@[out@.len() - 1] == (q.0, q.1));
                            }
                            assert(out@.contains(q));
                        }
                    }
                }
                z += 1;
            }
            x += 1;
        }
        let r = Relation { x_end: self.x_end, y_end: rhs.y_end, storage: Storage::Sparse(out) };
        proof {
            assert forall|x2: u32, z2: u32|
                x2 < self.x_end && z2 < rhs.y_end implies #[trigger] r.spec_contains(x2, z2)
                == composed_at(self, rhs, x2, z2) by {
                assert(out@.contains((x2, z2)) <==> (x2 < self.x_end && z2 < rhs.y_end
                    && composed_at(self, rhs, x2, z2)));
            }
            assert forall|k: int| 0 <= k < out@.len() implies in_domain(
                (self.x_end, rhs.y_end),
                #[trigger] out@[k],
            ) by {
                assert(out@.contains(out@[k]));
            }
        }
        r
    }

    /// Projects onto the left domain: `(x, 0)` lies in the result exactly
    /// when some `y` pairs with `x` here.
    pub fn collapse_left(&self) -> (r: Relation)
        requires
            self.wf(),
        ensures
            r.wf(),
            r.dom() == (self.x_end, 1u32),
            forall|x: u32|
                x < self.x_end ==> #[trigger] r.spec_contains(x, 0) == exists|y: u32|
                    y < self.y_end && #[trigger] self.spec_contains(x, y),
    {
        let mut out: Vec<(u32, u32)> = Vec::new();
        let mut x: u32 = 0;
        while x < self.x_end
            invariant
                x <= self.x_end,
                sorted_pairs(out@),
                forall|j: int| 0 <= j < out@.len() ==> (#[trigger] out@[j]).0 < x && out@[j].1
                    == 0,
                forall|q: (u32, u32)| #[trigger] out@.contains(q) <==> (q.0 < x && q.1 == 0 && (
                exists|y: u32| y < self.y_end && #[trigger] self.spec_contains(q.0, y))),
            decreases self.x_end - x,
        {
            let mut y: u32 = 0;
            let mut found = false;
            while y < self.y_end
                invariant
                    y <= self.y_end,
                    found == exists|y2: u32| y2 < y && #[trigger] self.spec_contains(x, y2),
                decreases self.y_end - y,
            {
                if self.contains((x, y)) {
                    found = true;
                    proof {
                        assert(self.spec_contains(x, y));
                    }
                }
                y += 1;
            }
            let ghost prev = out@;
            if found {
                out.push((x, 0));
            }
            proof {
                assert forall|q: (u32, u32)|
                    #[trigger] out@.contains(q) <==> (q.0 < x + 1 && q.1 == 0 && (exists|y2: u32|
                        y2 < self.y_end && #[trigger] self.spec_contains(q.0, y2))) by {
                    if out@.contains(q) {
                        let j = choose|j: int| 0 <= j < out@.len() && out@[j] == q;
                        if j < prev.len() {
                            assert(prev.contains(q));
                        }
                    }
                    if q.0 < x + 1 && q.1 == 0 && (exists|y2: u32|
                        y2 < self.y_end && #[trigger] self.spec_contains(q.0, y2)) {
                        assert(q == (q.0, q.1));
                        if q.0 < x {
                            assert(prev.contains(q));
                            let j = choose|j: int| 0 <= j < prev.len() && prev[j] == q;
                            assert(out@[j] == q);
                        } else {
                            assert(out@[out@.len() - 1] == (q.0, q.1));
                        }
                        assert(out@.contains(q));
                    }
                }
            }
            x += 1;
        }
        let r = Relation { x_end: self.x_end, y_end: 1, storage: Storage::Sparse(out) };
        proof {
            assert forall|x2: u32|
                x2 < self.x_end implies #[trigger] r.spec_contains(x2, 0) == exists|y: u32|
                y < self.y_end && #[trigger] self.spec_contains(x2, y) by {
                assert(out@.contains((x2, 0u32)) <==> (x2 < self.x_end && (exists|y: u32|
                    y < self.y_end && #[trigger] self.spec_contains(x2, y))));
            }
            assert forall|k: int| 0 <= k < out@.len() implies in_domain(
                (self.x_end, 1u32),
                #[trigger] out@[k],
            ) by {
                assert(out@.contains(out@[k]));
            }
        }
        r
    }

    /// A fresh relation with the same domain and the same pairs.
    pub fn duplicate(&self) -> (r: Relation)
        ensures
            r.dom() == self.dom(),
            self.wf() ==> r.wf(),
            forall|x: u32, y: u32| #[trigger] r.spec_contains(x, y) == self.spec_contains(x, y),
    {
        match &self.storage {
            Storage::Empty => Relation {
                x_end: self.x_end,
                y_end: self.y_end,
                storage: Storage::Empty,
            },
            Storage::Identity => Relation {
                x_end: self.x_end,
                y_end: self.y_end,
                storage: Storage::Identity,
            },
            Storage::Universal => Relation {
                x_end: self.x_end,
                y_end: self.y_end,
                storage: Storage::Universal,
            },
            Storage::Sparse(v) => {
                let mut w: Vec<(u32, u32)> = Vec::new();
                let mut k: usize = 0;
                while k < v.len()
                    invariant
                        k <= v@.len(),
                        w@ == v@.take(k as int),
                    decreases v@.len() - k,
                {
                    w.push(v[k]);
                    proof {
                        assert(w@ == v@.take(k as int + 1));
                    }
                    k += 1;
                }
                proof {
                    assert(w@ == v@);
                }
                Relation { x_end: self.x_end, y_end: self.y_end, storage: Storage::Sparse(w) }
            }
        }
    }

    /// At most one pair of the relation: the first in ascending order when
    /// the relation is inhabited, and nothing otherwise.
    pub fn choose_one(&self) -> (r: Relation)
        requires
            self.wf(),
        ensures
            r.wf(),
            r.dom() == self.dom(),
            forall|x: u32, y: u32|
                #[trigger] r.spec_contains(x, y) ==> in_domain(self.dom(), (x, y))
                    && self.spec_contains(x, y),
            forall|x: u32, y: u32, x2: u32, y2: u32|
                #[trigger] r.spec_contains(x, y) && #[trigger] r.spec_contains(x2, y2) ==> x == x2
                    && y == y2,
            (exists|x: u32, y: u32|
                x < self.x_end && y < self.y_end && #[trigger] self.spec_contains(x, y))
                ==> exists|x: u32, y: u32| #[trigger] r.spec_contains(x, y),
    {
        let ps = self.iter();
        if ps.len() == 0 {
            let r = Relation { x_end: self.x_end, y_end: self.y_end, storage: Storage::Empty };
            proof {
                if exists|x: u32, y: u32|
                    x < self.x_end && y < self.y_end && #[trigger] self.spec_contains(x, y) {
                    let (x, y): (u32, u32) = choose|x: u32, y: u32|
                        x < self.x_end && y < self.y_end && #[trigger] self.spec_contains(x, y);
                    assert(ps@.contains((x, y)));
                    let j = choose|j: int| 0 <= j < ps@.len() && ps@[j] == (x, y);
                    assert(false);
                }
            }
            r
        } else {
            let p = ps[0];
            let mut single: Vec<(u32, u32)> = Vec::new();
            single.push(p);
            let r = Relation {
                x_end: self.x_end,
                y_end: self.y_end,
                storage: Storage::Sparse(single),
            };
            proof {
                assert(ps@.contains(p));
                assert forall|x: u32, y: u32| #[trigger] r.spec_contains(x, y) implies in_domain(
                    self.dom(),
                    (x, y),
                ) && self.spec_contains(x, y) by {
                    let v = single@;
                    if v.contains((x, y)) {
                        let j = choose|j: int| 0 <= j < v.len() && v[j] == (x, y);
                        assert((x, y) == p);
                    }
                }
                assert forall|x: u32, y: u32, x2: u32, y2: u32|
                    #[trigger] r.spec_contains(x, y) && #[trigger] r.spec_contains(
                        x2,
                        y2,
                    ) implies x == x2 && y == y2 by {
                    let v = single@;
                    if v.contains((x, y)) && v.contains((x2, y2)) {
                        let j = choose|j: int| 0 <= j < v.len() && v[j] == (x, y);
                        let j2 = choose|j2: int| 0 <= j2 < v.len() && v[j2] == (x2, y2);
                    }
                }
                assert(single@[0] == p);
                assert(r.spec_contains(p.0, p.1));
                assert forall|k: int| 0 <= k < single@.len() implies in_domain(
                    (self.x_end, self.y_end),
                    #[trigger] single@[k],
                ) by {
                    assert(single@[k] == p);
                }
            }
            r
        }
    }
}

/// Puts one pair into a strictly sorted list, keeping it strictly sorted;
/// a pair already present is left alone.
fn insert_pair(v: &mut Vec<(u32, u32)>, p: (u32, u32))
    requires
        sorted_pairs(old(v)@),
    ensures
        sorted_pairs(final(v)@),
        forall|q: (u32, u32)| final(v)@.contains(q) <==> (old(v)@.contains(q) || q == p),
{
    let ghost s0 = v@;
    let mut k: usize = 0;
    while k < v.len()
        invariant
            k <= v@.len(),
            v@ == s0,
            old(v)@ == s0,
            sorted_pairs(v@),
            forall|i: int| 0 <= i < k ==> pair_lt(#[trigger] v@[i], p),
        decreases v@.len() - k,
    {
        let q = v[k];
        if q.0 == p.0 && q.1 == p.1 {
            proof {
                assert(v@[k as int] == p);
                assert(v@.contains(p));
            }
            return;
        }
        if p.0 < q.0 || (p.0 == q.0 && p.1 < q.1) {
            v.insert(k, p);
            proof {
                assert forall|i: int, j: int| 0 <= i < j < v@.len() implies pair_lt(
                    #[trigger] v@[i],
                    #[trigger] v@[j],
                ) by {
                    if j < k {
                    } else if i < k && j == k {
                    } else if i < k && j > k {
                        assert(v@[j] == s0[j - 1]);
                    } else if i == k {
                        assert(v@[j] == s0[j - 1]);
                        if j - 1 > k as int {
                            assert(pair_lt(s0[k as int], s0[j - 1]));
                        }
                    } else {
                        assert(v@[i] == s0[i - 1]);
                        assert(v@[j] == s0[j - 1]);
                    }
                }
                assert forall|q2: (u32, u32)| v@.contains(q2) <==> (s0.contains(q2) || q2
                    == p) by {
                    if v@.contains(q2) {
                        let i = choose|i: int| 0 <= i < v@.len() && v@[i] == q2;
                        if i < k {
                            assert(s0[i] == q2);
                            assert(s0.contains(q2));
                        } else if i > k {
                            assert(s0[i - 1] == q2);
                            assert(s0.contains(q2));
                        }
                    }
                    if s0.contains(q2) {
                        let i = choose|i: int| 0 <= i < s0.len() && s0[i] == q2;
                        if i < k {
                            assert(v@[i] == q2);
                        } else {
                            assert(v@[i + 1] == q2);
                        }
                        assert(v@.contains(q2));
                    }
                    if q2 == p {
                        assert(v@[k as int] == q2);
                        assert(v@.contains(q2));
                    }
                }
                assert(forall|q2: (u32, u32)|
                    #[trigger] v@.contains(q2) <==> (old(v)@.contains(q2) || q2 == p));
            }
            return;
        }
        k += 1;
    }
    v.push(p);
    proof {
        assert forall|q2: (u32, u32)| v@.contains(q2) <==> (s0.contains(q2) || q2 == p) by {
            if v@.contains(q2) {
                let i = choose|i: int| 0 <= i < v@.len() && v@[i] == q2;
                if i < s0.len() {
                    assert(s0.contains(q2));
                }
            }
            if s0.contains(q2) {
                let i = choose|i: int| 0 <= i < s0.len() && s0[i] == q2;
                assert(v@[i] == q2);
                assert(v@.contains(q2));
            }
            if q2 == p {
                assert(v@[v@.len() - 1] == q2);
                assert(v@.contains(q2));
            }
        }
    }
}

} // verus!
