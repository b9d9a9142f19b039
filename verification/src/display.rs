//! Rendering a relation as text: the bordered matrix picture and the
//! line-per-row listing, each specified byte for byte.

use vstd::prelude::*;

use crate::relation::{sorted_pairs, Relation};

verus! {

/// The decimal digits of `n`, most significant first.
pub open spec fn dec_bytes(n: nat) -> Seq<u8>
    decreases n,
{
    if n < 10 {
        seq![(48 + n) as u8]
    } else {
        dec_bytes(n / 10) + seq![(48 + n % 10) as u8]
    }
}

/// One border line of the matrix picture: `+`, `width` dashes, `+`, newline.
pub open spec fn border_bytes(width: nat) -> Seq<u8> {
    seq![43u8] + Seq::new(width, |i: int| 45u8) + seq![43u8, 10u8]
}

/// One row of the matrix picture: `|`, an `X` or a blank per column,
/// `|`, newline.
pub open spec fn row_bytes(rel: Relation, x: u32) -> Seq<u8> {
    seq![124u8] + Seq::new(
        rel.y_end as nat,
        |y: int| if rel.spec_contains(x, y as u32) {
            88u8
        } else {
            32u8
        },
    ) + seq![124u8, 10u8]
}

/// The rows of the matrix picture from `x` down.
pub open spec fn rows_bytes(rel: Relation, x: int) -> Seq<u8>
    decreases rel.x_end - x,
{
    if 0 <= x < rel.x_end {
        row_bytes(rel, x as u32) + rows_bytes(rel, x + 1)
    } else {
        Seq::empty()
    }
}

/// The whole matrix picture.
pub open spec fn matrix_bytes(rel: Relation) -> Seq<u8> {
    border_bytes(rel.y_end as nat) + rows_bytes(rel, 0) + border_bytes(rel.y_end as nat)
}

/// A rendered matrix picture of a relation.
pub struct DisplayMatrix {
    pub bytes: Vec<u8>,
}

/// The body of the listing from pair `i` on: each row `x` appears as
/// `\n`, `x + 1`, ` : ` and its first column, and every further column of
/// the same row is appended after a comma.  Rows and columns are printed
/// one-based.
pub open spec fn listing_bytes(ps: Seq<(u32, u32)>, i: int, last_x: Option<u32>) -> Seq<u8>
    decreases ps.len() - i,
{
    if 0 <= i < ps.len() {
        let p = ps[i];
        let here = if last_x == Some(p.0) {
            seq![44u8, 32u8] + dec_bytes((p.1 + 1) as nat)
        } else {
            seq![10u8] + dec_bytes((p.0 + 1) as nat) + seq![32u8, 58u8, 32u8] + dec_bytes(
                (p.1 + 1) as nat,
            )
        };
        here + listing_bytes(ps, i + 1, Some(p.0))
    } else {
        Seq::empty()
    }
}

/// The header of the listing: the name, then the two domain bounds in
/// parentheses.  Name characters are narrowed to single bytes.
pub open spec fn header_bytes(name: Seq<char>, rel: Relation) -> Seq<u8> {
    name.map_values(|c: char| c as u8) + seq![32u8, 40u8] + dec_bytes(rel.x_end as nat) + seq![
        44u8,
        32u8,
    ] + dec_bytes(rel.y_end as nat) + seq![41u8]
}

/// A rendered listing of a relation under a name.
pub struct DisplayRelation {
    pub bytes: Vec<u8>,
}

/// Appends the decimal digits of `n`.
fn push_decimal(out: &mut Vec<u8>, n: u32)
    ensures
        final(out)@ == old(out)@ + dec_bytes(n as nat),
{
    let ghost base = out@;
    let mut temp: Vec<u8> = Vec::new();
    let mut m: u32 = n;
    while m >= 10
        invariant
            dec_bytes(n as nat) =~= dec_bytes(m as nat) + Seq::new(
                temp@.len(),
                |i: int| temp@[temp@.len() - 1 - i],
            ),
        decreases m,
    {
        let ghost tprev = temp@;
        temp.push(48 + (m % 10) as u8);
        m = m / 10;
        proof {
            assert(dec_bytes(n as nat) =~= dec_bytes(m as nat) + Seq::new(
                temp@.len(),
                |i: int| temp@[temp@.len() - 1 - i],
            ));
        }
    }
    out.push(48 + (m % 10) as u8);
    proof {
        assert(m < 10);
        assert(m % 10 == m as int % 10 == m as int);
        assert(dec_bytes(m as nat) =~= seq![(48 + m as nat) as u8]);
        assert(out@ =~= base + dec_bytes(m as nat));
    }
    while temp.len() > 0
        invariant
            out@ =~= base + dec_bytes(n as nat).take(dec_bytes(n as nat).len() - temp@.len()),
            temp@.len() <= dec_bytes(n as nat).len(),
            dec_bytes(n as nat).skip(dec_bytes(n as nat).len() - temp@.len()) =~= Seq::new(
                temp@.len(),
                |i: int| temp@[temp@.len() - 1 - i],
            ),
        decreases temp@.len(),
    {
        let ghost tprev = temp@;
        let ghost d = dec_bytes(n as nat);
        let b = temp.pop().unwrap();
        out.push(b);
        proof {
            assert(tprev[tprev.len() - 1] == b);
            assert(d.skip(d.len() - tprev.len())[0] == b);
            assert(d[d.len() - tprev.len()] == b);
            assert(out@ =~= base + d.take(d.len() - temp@.len()));
            assert forall|i: int|
                0 <= i < temp@.len() implies #[trigger] d.skip(d.len() - temp@.len())[i]
                == Seq::new(temp@.len(), |i2: int| temp@[temp@.len() - 1 - i2])[i] by {
                assert(d.skip(d.len() - tprev.len())[i + 1] == tprev[tprev.len() - 2 - i]);
            }
            assert(d.skip(d.len() - temp@.len()) =~= Seq::new(
                temp@.len(),
                |i: int| temp@[temp@.len() - 1 - i],
            ));
        }
    }
    proof {
        assert(dec_bytes(n as nat).take(dec_bytes(n as nat).len() as int) =~= dec_bytes(n as nat));
    }
}

impl Relation {
    /// Renders the bordered matrix picture: one row per left element, one
    /// column per right element, `X` where the pair lies in the relation.
    pub fn display_matrix(&self) -> (r: DisplayMatrix)
        ensures
            r.bytes@ == matrix_bytes(*self),
    {
        let mut out: Vec<u8> = Vec::new();
        push_border(&mut out, self.y_end);
        let mut x: u32 = 0;
        while x < self.x_end
            invariant
                x <= self.x_end,
                out@ =~= border_bytes(self.y_end as nat) + rows_prefix(*self, x as int),
            decreases self.x_end - x,
        {
            let ghost prev = out@;
            out.push(124);
            let mut y: u32 = 0;
            while y < self.y_end
                invariant
                    y <= self.y_end,
                    x < self.x_end,
                    out@ =~= prev + seq![124u8] + Seq::new(
                        y as nat,
                        |yy: int| if self.spec_contains(x, yy as u32) {
                            88u8
                        } else {
                            32u8
                        },
                    ),
                decreases self.y_end - y,
            {
                if self.contains((x, y)) {
                    out.push(88);
                } else {
                    out.push(32);
                }
                y += 1;
            }
            out.push(124);
            out.push(10);
            proof {
                assert(out@ =~= prev + row_bytes(*self, x));
                lemma_rows_prefix_snoc(*self, x as int);
                assert(out@ =~= border_bytes(self.y_end as nat) + rows_prefix(
                    *self,
                    x as int + 1,
                ));
            }
            x += 1;
        }
        push_border(&mut out, self.y_end);
        proof {
            lemma_rows_prefix_full(*self, 0);
        }
        DisplayMatrix { bytes: out }
    }

    /// Renders the listing: a header with the name and the domain bounds,
    /// then one line per inhabited row with its columns in ascending order,
    /// all one-based, and a final newline.
    pub fn display(&self, name: &str) -> (r: DisplayRelation)
        requires
            self.wf(),
        ensures
            exists|ps: Seq<(u32, u32)>|
                {
                    &&& #[trigger] sorted_pairs(ps)
                    &&& (forall|q: (u32, u32)| #[trigger] ps.contains(q) <==> (q.0 < self.x_end
                        && q.1 < self.y_end && self.spec_contains(q.0, q.1)))
                    &&& r.bytes@ == header_bytes(name@, *self) + listing_bytes(ps, 0, None)
                        + seq![10u8]
                },
    {
        let mut out: Vec<u8> = Vec::new();
        let ln = name.unicode_len();
        let mut k: usize = 0;
        while k < ln
            invariant
                k <= ln,
                ln == name@.len(),
                out@ =~= name@.take(k as int).map_values(|c: char| c as u8),
            decreases ln - k,
        {
            let c = name.get_char(k);
            out.push(c as u8);
            proof {
                assert(out@ =~= name@.take(k as int + 1).map_values(|c: char| c as u8));
            }
            k += 1;
        }
        proof {
            assert(name@.take(name@.len() as int) =~= name@);
        }
        out.push(32);
        out.push(40);
        push_decimal(&mut out, self.x_end);
        out.push(44);
        out.push(32);
        push_decimal(&mut out, self.y_end);
        out.push(41);
        let ghost header_done = out@;
        proof {
            assert(header_done =~= header_bytes(name@, *self));
        }
        let ps = self.iter();
        let mut i: usize = 0;
        let mut last_x: u32 = 0;
        let mut have_last: bool = false;
        while i < ps.len()
            invariant
                i <= ps@.len(),
                header_done == header_bytes(name@, *self),
                forall|q: (u32, u32)| #[trigger] ps@.contains(q) <==> (q.0 < self.x_end && q.1
                    < self.y_end && self.spec_contains(q.0, q.1)),
                out@ + listing_bytes(ps@, i as int, spec_last(last_x, have_last)) =~= header_done
                    + listing_bytes(ps@, 0, None),
                i == 0 ==> !have_last,
                i > 0 ==> have_last && last_x == ps@[i as int - 1].0,
            decreases ps@.len() - i,
        {
            let p = ps[i];
            proof {
                assert(ps@.contains(ps@[i as int]));
            }
            if have_last && last_x == p.0 {
                out.push(44);
                out.push(32);
                push_decimal(&mut out, p.1 + 1);
            } else {
                out.push(10);
                push_decimal(&mut out, p.0 + 1);
                out.push(32);
                out.push(58);
                out.push(32);
                push_decimal(&mut out, p.1 + 1);
            }
            proof {
                assert(listing_bytes(ps@, i as int, spec_last(last_x, have_last)) =~= (if spec_last(
                    last_x,
                    have_last,
                ) == Some(p.0) {
                    seq![44u8, 32u8] + dec_bytes((p.1 + 1) as nat)
                } else {
                    seq![10u8] + dec_bytes((p.0 + 1) as nat) + seq![32u8, 58u8, 32u8] + dec_bytes(
                        (p.1 + 1) as nat,
                    )
                }) + listing_bytes(ps@, i as int + 1, Some(p.0)));
            }
            last_x = p.0;
            have_last = true;
            i += 1;
        }
        out.push(10);
        DisplayRelation { bytes: out }
    }
}

/// The row whose columns the listing is currently appending to, if any.
pub open spec fn spec_last(last_x: u32, have_last: bool) -> Option<u32> {
    if have_last {
        Some(last_x)
    } else {
        None
    }
}

/// Appends one border line.
fn push_border(out: &mut Vec<u8>, width: u32)
    ensures
        final(out)@ == old(out)@ + border_bytes(width as nat),
{
    let ghost base = out@;
    out.push(43);
    let mut y: u32 = 0;
    while y < width
        invariant
            y <= width,
            out@ =~= base + seq![43u8] + Seq::new(y as nat, |i: int| 45u8),
        decreases width - y,
    {
        out.push(45);
        y += 1;
    }
    out.push(43);
    out.push(10);
    proof {
        assert(out@ =~= base + border_bytes(width as nat));
    }
}

/// The rows of the matrix picture above `x`.
pub open spec fn rows_prefix(rel: Relation, x: int) -> Seq<u8>
    decreases x,
{
    if 0 < x <= rel.x_end {
        rows_prefix(rel, x - 1) + row_bytes(rel, (x - 1) as u32)
    } else {
        Seq::empty()
    }
}

/// Extending the prefix by one row appends that row's bytes.
proof fn lemma_rows_prefix_snoc(rel: Relation, x: int)
    requires
        0 <= x < rel.x_end,
    ensures
        rows_prefix(rel, x + 1) == rows_prefix(rel, x) + row_bytes(rel, x as u32),
{
}

/// The complete prefix is the complete row block.
proof fn lemma_rows_prefix_full(rel: Relation, x: int)
    requires
        0 <= x <= rel.x_end,
    ensures
        rows_prefix(rel, rel.x_end as int) =~= rows_prefix(rel, x) + rows_bytes(rel, x),
    decreases rel.x_end - x,
{
    if x < rel.x_end {
        lemma_rows_prefix_full(rel, x + 1);
        lemma_rows_prefix_snoc(rel, x);
        assert(rows_prefix(rel, x + 1) + rows_bytes(rel, x + 1) =~= rows_prefix(rel, x) + (
        row_bytes(rel, x as u32) + rows_bytes(rel, x + 1)));
    }
}

} // verus!
