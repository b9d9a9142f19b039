//! The evaluation environment of the language: the errors its operations
//! can raise and the table of local relation variables.

use vstd::prelude::*;

use crate::relation::Relation;

verus! {

/// What can go wrong while evaluating the language.
#[derive(Debug)]
#[allow(inconsistent_fields)]
pub enum Error {
    /// A call handed a function the wrong number of arguments.
    ArityMismatch { expected: usize, actual: usize },
    /// An operation was applied to relations over incompatible domains.
    DomainMismatch { expected: (u32, u32), actual: (u32, u32) },
    /// A name that no local variable carries.
    UnknownLocal { name: String },
    /// A declared local that has not been assigned yet.
    UninitializedLocal { name: String },
    /// A name that no function or procedure carries.
    UnknownFunction { name: String },
    /// A procedure body ran to its end without a return.
    ProcedureDidNotReturn,
}

/// The local variables: an association list from names to their relation,
/// or to nothing for a declared but unassigned variable.
pub struct Locals {
    pub entries: Vec<(String, Option<Relation>)>,
}

/// First-match lookup from position `i` on.
pub open spec fn find_from(
    entries: Seq<(String, Option<Relation>)>,
    key: Seq<char>,
    i: int,
) -> Option<Option<Relation>>
    decreases entries.len() - i,
{
    if 0 <= i < entries.len() {
        if entries[i].0@ == key {
            Some(entries[i].1)
        } else {
            find_from(entries, key, i + 1)
        }
    } else {
        None
    }
}

/// No two entries carry the same name.
pub open spec fn keys_unique(entries: Seq<(String, Option<Relation>)>) -> bool {
    forall|i: int, j: int|
        0 <= i < j < entries.len() ==> (#[trigger] entries[i]).0@ != (#[trigger] entries[j]).0@
}

/// Skipping entries whose names differ from the key leaves the lookup
/// unchanged.
proof fn lemma_find_skip(entries: Seq<(String, Option<Relation>)>, key: Seq<char>, i: int)
    requires
        0 <= i <= entries.len(),
        forall|j: int| 0 <= j < i ==> (#[trigger] entries[j]).0@ != key,
    ensures
        find_from(entries, key, 0) == find_from(entries, key, i),
    decreases i,
{
    if i > 0 {
        lemma_find_skip_tail(entries, key, 0, i);
    }
}

/// As `lemma_find_skip`, from an arbitrary start.
proof fn lemma_find_skip_tail(
    entries: Seq<(String, Option<Relation>)>,
    key: Seq<char>,
    lo: int,
    hi: int,
)
    requires
        0 <= lo <= hi <= entries.len(),
        forall|j: int| lo <= j < hi ==> (#[trigger] entries[j]).0@ != key,
    ensures
        find_from(entries, key, lo) == find_from(entries, key, hi),
    decreases hi - lo,
{
    if lo < hi {
        lemma_find_skip_tail(entries, key, lo + 1, hi);
    }
}

impl Locals {
    /// Lookup of a name: `None` when absent, otherwise the entry.
    pub open spec fn spec_find(&self, key: Seq<char>) -> Option<Option<Relation>> {
        find_from(self.entries@, key, 0)
    }

    /// The names are pairwise distinct; every operation keeps this.
    pub open spec fn wf(&self) -> bool {
        keys_unique(self.entries@)
    }

    /// An empty table.
    pub fn new() -> (r: Locals)
        ensures
            r.wf(),
            forall|key: Seq<char>| #[trigger] r.spec_find(key) is None,
    {
        Locals { entries: Vec::new() }
    }

    /// Binds `name` to `value`, replacing any earlier binding of that name.
    pub fn assign(&mut self, name: &str, value: Relation)
        requires
            old(self).wf(),
        ensures
            final(self).wf(),
            final(self).spec_find(name@) == Some(Some(value)),
            forall|key: Seq<char>|
                key != name@ ==> #[trigger] final(self).spec_find(key) == old(self).spec_find(
                    key,
                ),
    {
        let ghost s0 = self.entries@;
        let owned = name.to_owned();
        let mut k: usize = 0;
        while k < self.entries.len()
            invariant
                k <= self.entries@.len(),
                self.entries@ == s0,
                old(self).entries@ == s0,
                keys_unique(s0),
                owned@ == name@,
                forall|j: int| 0 <= j < k ==> (#[trigger] s0[j]).0@ != name@,
            decreases self.entries@.len() - k,
        {
            let hit = self.entries[k].0 == owned;
            if hit {
                let _ = self.entries.remove(k);
                self.entries.insert(k, (owned, Some(value)));
                proof {
                    let s1 = self.entries@;
                    assert(s1 =~= s0.update(k as int, (owned, Some(value))));
                    assert(keys_unique(s1));
                    lemma_find_skip(s1, name@, k as int);
                    assert(s1[k as int].0@ == name@);
                    assert forall|key: Seq<char>| key != name@ implies #[trigger] find_from(
                        s1,
                        key,
                        0,
                    ) == find_from(s0, key, 0) by {
                        lemma_find_agree(s0, s1, key, 0);
                    }
                }
                return;
            }
            k += 1;
        }
        self.entries.push((owned, Some(value)));
        proof {
            let s1 = self.entries@;
            assert(keys_unique(s1));
            lemma_find_skip(s1, name@, s0.len() as int);
            assert(s1[s0.len() as int].0@ == name@);
            assert forall|key: Seq<char>| key != name@ implies #[trigger] find_from(s1, key, 0)
                == find_from(s0, key, 0) by {
                lemma_find_push_other(s0, s1, key, 0);
            }
        }
    }

    /// Looks a name up, reporting an unknown or an uninitialized variable
    /// as the matching error.
    pub fn get(&self, name: &str) -> (r: Result<Relation, Error>)
        ensures
            match self.spec_find(name@) {
                None => r matches Err(Error::UnknownLocal { name: n }) && n@ == name@,
                Some(None) => r matches Err(Error::UninitializedLocal { name: n }) && n@
                    == name@,
                Some(Some(v)) => r matches Ok(rel) && rel.dom() == v.dom() && (v.wf()
                    ==> rel.wf()) && forall|x: u32, y: u32|
                    #[trigger] rel.spec_contains(x, y) == v.spec_contains(x, y),
            },
    {
        let owned = name.to_owned();
        let mut k: usize = 0;
        while k < self.entries.len()
            invariant
                k <= self.entries@.len(),
                owned@ == name@,
                forall|j: int| 0 <= j < k ==> (#[trigger] self.entries@[j]).0@ != name@,
            decreases self.entries@.len() - k,
        {
            let hit = self.entries[k].0 == owned;
            if hit {
                proof {
                    lemma_find_skip(self.entries@, name@, k as int);
                }
                match &self.entries[k].1 {
                    Some(v) => {
                        return Ok(v.duplicate());
                    }
                    None => {
                        return Err(Error::UninitializedLocal { name: owned });
                    }
                }
            }
            k += 1;
        }
        proof {
            lemma_find_skip(self.entries@, name@, self.entries@.len() as int);
        }
        Err(Error::UnknownLocal { name: owned })
    }

    /// The names bound in the table that begin with `prefix`, in the order
    /// they stand in the table.
    pub fn variables_by_prefix(&self, prefix: &str) -> (r: Vec<String>)
        ensures
            forall|j: int|
                0 <= j < r@.len() ==> is_prefix_of(prefix@, (#[trigger] r@[j])@)
                    && !(self.spec_find(r@[j]@) is None),
            forall|i: int|
                0 <= i < self.entries@.len() && is_prefix_of(
                    prefix@,
                    (#[trigger] self.entries@[i]).0@,
                ) ==> exists|j: int| 0 <= j < r@.len() && (#[trigger] r@[j])@
                    == self.entries@[i].0@,
    {
        let mut out: Vec<String> = Vec::new();
        let mut k: usize = 0;
        while k < self.entries.len()
            invariant
                k <= self.entries@.len(),
                forall|j: int|
                    0 <= j < out@.len() ==> is_prefix_of(prefix@, (#[trigger] out@[j])@) && !(
                    find_from(self.entries@, out@[j]@, 0) is None),
                forall|i: int|
                    0 <= i < k && is_prefix_of(prefix@, (#[trigger] self.entries@[i]).0@)
                        ==> exists|j: int| 0 <= j < out@.len() && (#[trigger] out@[j])@
                        == self.entries@[i].0@,
            decreases self.entries@.len() - k,
        {
            let nm = &self.entries[k].0;
            if str_starts_with(nm.as_str(), prefix) {
                let ghost prev = out@;
                out.push(nm.clone());
                proof {
                    let j0 = out@.len() - 1;
                    assert(out@[j0]@ == self.entries@[k as int].0@);
                    lemma_find_witness(self.entries@, out@[j0]@, k as int);
                    assert forall|i: int|
                        0 <= i < k as int + 1 && is_prefix_of(
                            prefix@,
                            (#[trigger] self.entries@[i]).0@,
                        ) implies exists|j: int| 0 <= j < out@.len() && (#[trigger] out@[j])@
                        == self.entries@[i].0@ by {
                        if i < k as int {
                            let j = choose|j: int|
                                0 <= j < prev.len() && (#[trigger] prev[j])@
                                    == self.entries@[i].0@;
                            assert(out@[j]@ == self.entries@[i].0@);
                        } else {
                            assert(out@[j0]@ == self.entries@[i].0@);
                        }
                    }
                }
            }
            k += 1;
        }
        out
    }
}

/// A name with the key at `i` is found by the lookup.
proof fn lemma_find_witness(entries: Seq<(String, Option<Relation>)>, key: Seq<char>, i: int)
    requires
        0 <= i < entries.len(),
        entries[i].0@ == key,
    ensures
        !(find_from(entries, key, 0) is None),
    decreases i,
{
    lemma_find_witness_from(entries, key, i, 0);
}

/// As `lemma_find_witness`, from an arbitrary start.
proof fn lemma_find_witness_from(
    entries: Seq<(String, Option<Relation>)>,
    key: Seq<char>,
    i: int,
    lo: int,
)
    requires
        0 <= lo <= i < entries.len(),
        entries[i].0@ == key,
    ensures
        !(find_from(entries, key, lo) is None),
    decreases i - lo,
{
    if entries[lo].0@ != key {
        lemma_find_witness_from(entries, key, i, lo + 1);
    }
}

/// Two tables that agree entrywise on every entry whose name is `key` — in
/// particular, one obtained from the other by changing a differently named
/// entry — agree on the lookup of `key`.
proof fn lemma_find_agree(
    s0: Seq<(String, Option<Relation>)>,
    s1: Seq<(String, Option<Relation>)>,
    key: Seq<char>,
    i: int,
)
    requires
        s0.len() == s1.len(),
        0 <= i,
        forall|j: int|
            0 <= j < s0.len() ==> ((#[trigger] s1[j]).0@ == s0[j].0@ || (s0[j].0@ != key
                && s1[j].0@ != key)),
        forall|j: int| 0 <= j < s0.len() && (#[trigger] s0[j]).0@ == key ==> s1[j] == s0[j],
    ensures
        find_from(s1, key, i) == find_from(s0, key, i),
    decreases s0.len() - i,
{
    if i < s0.len() {
        lemma_find_agree(s0, s1, key, i + 1);
    }
}

/// One table extends the other by entries named otherwise than `key`: the
/// lookup of `key` is unchanged.
proof fn lemma_find_push_other(
    s0: Seq<(String, Option<Relation>)>,
    s1: Seq<(String, Option<Relation>)>,
    key: Seq<char>,
    i: int,
)
    requires
        s0.len() <= s1.len(),
        0 <= i,
        forall|j: int| 0 <= j < s0.len() ==> #[trigger] s1[j] == s0[j],
        forall|j: int| s0.len() <= j < s1.len() ==> (#[trigger] s1[j]).0@ != key,
    ensures
        find_from(s1, key, i) == find_from(s0, key, i),
    decreases s1.len() - i,
{
    if i < s1.len() {
        lemma_find_push_other(s0, s1, key, i + 1);
    }
}

/// `p` is an initial segment of `s`.
pub open spec fn is_prefix_of(p: Seq<char>, s: Seq<char>) -> bool {
    p.len() <= s.len() && forall|k: int| 0 <= k < p.len() ==> p[k] == #[trigger] s[k]
}

/// Whether `s` begins with `p`, character by character.
pub fn str_starts_with(s: &str, p: &str) -> (r: bool)
    ensures
        r == is_prefix_of(p@, s@),
{
    let sl = s.unicode_len();
    let pl = p.unicode_len();
    if pl > sl {
        return false;
    }
    let mut k: usize = 0;
    while k < pl
        invariant
            k <= pl,
            pl == p@.len(),
            sl == s@.len(),
            pl <= sl,
            forall|j: int| 0 <= j < k ==> p@[j] == #[trigger] s@[j],
        decreases pl - k,
    {
        if s.get_char(k) != p.get_char(k) {
            return false;
        }
        k += 1;
    }
    true
}

} // verus!
