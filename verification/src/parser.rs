//! Parsing the textual relation formats.  The matrix picture is a bordered
//! rectangle of `X` and blank cells; its grammar is specified character by
//! character, and parsing is exact: the parse succeeds on precisely the
//! well-shaped inputs whose marks lie inside the domain rectangle.

use vstd::prelude::*;

use crate::relation::Relation;

verus! {

/// Parsing failed: the input does not fit the grammar.
#[derive(Debug)]
pub struct Error;

/// A border line `+---+` with `w` dashes stands at `off`.
pub open spec fn is_border_at(s: Seq<char>, off: int, w: int) -> bool {
    &&& s[off] == '+'
    &&& forall|c: int| 1 <= c <= w ==> #[trigger] s[off + c] == '-'
    &&& s[off + w + 1] == '+'
    &&& s[off + w + 2] == '\n'
}

/// A cell line `|...|` with `w` cells, each a mark or a blank, stands at
/// `off`.
pub open spec fn is_row_at(s: Seq<char>, off: int, w: int) -> bool {
    &&& s[off] == '|'
    &&& forall|c: int| 0 <= c < w ==> (#[trigger] s[off + 1 + c] == 'X' || s[off + 1 + c] == ' ')
    &&& s[off + w + 1] == '|'
    &&& s[off + w + 2] == '\n'
}

/// The input is a full matrix picture: a border, `n` cell lines of width
/// `w`, and a border, and nothing else.
pub open spec fn matrix_shape(s: Seq<char>, w: int, n: int) -> bool {
    &&& w >= 0
    &&& n >= 0
    &&& s.len() == (n + 2) * (w + 3)
    &&& is_border_at(s, 0, w)
    &&& forall|r: int| 1 <= r <= n ==> is_row_at(s, #[trigger] (r * (w + 3)), w)
    &&& is_border_at(s, (n + 1) * (w + 3), w)
}

/// The cell of row `i` and column `j` carries a mark.
pub open spec fn cell_marked(s: Seq<char>, w: int, i: int, j: int) -> bool {
    s[(i + 1) * (w + 3) + 1 + j] == 'X'
}

/// Every mark lies inside the domain rectangle `(w, n)` that the picture
/// declares: row indices below `w` and column indices below `n`.
pub open spec fn marks_in_domain(s: Seq<char>, w: int, n: int) -> bool {
    forall|i: int, j: int|
        0 <= i < n && 0 <= j < w && #[trigger] cell_marked(s, w, i, j) ==> i < w && j < n
}

/// The characters of a string, for positional access.
fn chars_of(s: &str) -> (r: Vec<char>)
    ensures
        r@ == s@,
{
    let n = s.unicode_len();
    let mut out: Vec<char> = Vec::new();
    let mut k: usize = 0;
    while k < n
        invariant
            k <= n,
            n == s@.len(),
            out@ == s@.take(k as int),
        decreases n - k,
    {
        out.push(s.get_char(k));
        proof {
            assert(out@ =~= s@.take(k as int + 1));
        }
        k += 1;
    }
    proof {
        assert(out@ =~= s@);
    }
    out
}

/// Parses the matrix picture of a relation.  The row count and the width
/// become the two domain bounds, each row index pairs with the columns of
/// its marks, and any input that is not a well-shaped picture with all
/// marks inside that domain is rejected.
pub fn parse_matrix(src: &str) -> (r: Result<Relation, Error>)
    ensures
        r matches Ok(rel) ==> exists|w: int, n: int|
            {
                &&& #[trigger] matrix_shape(src@, w, n)
                &&& marks_in_domain(src@, w, n)
                &&& w <= u32::MAX && n <= u32::MAX
                &&& rel.wf()
                &&& rel.dom() == (w as u32, n as u32)
                &&& forall|i: int, j: int|
                    0 <= i < n && 0 <= j < w ==> rel.spec_contains(i as u32, j as u32)
                        == #[trigger] cell_marked(src@, w, i, j)
            },
        r is Err ==> !(exists|w: int, n: int|
            #[trigger] matrix_shape(src@, w, n) && marks_in_domain(src@, w, n) && w <= u32::MAX
                && n <= u32::MAX),
{
    let cs = chars_of(src);
    let len = cs.len();
    // The first line fixes the width.
    if len == 0 || cs[0] != '+' {
        proof {
            lemma_no_shape_bad_start(src@);
        }
        return Err(Error);
    }
    let mut w: usize = 0;
    while 1 + w < len && cs[1 + w] == '-'
        invariant
            cs@ == src@,
            len == cs@.len(),
            1 + w <= len,
            forall|c: int| 1 <= c <= w ==> #[trigger] cs@[c] == '-',
        decreases len - w,
    {
        w += 1;
    }
    // Now `cs[1 + w]` is the first non-dash after the corner (or the end).
    if 1 + w >= len || cs[1 + w] != '+' || 2 + w >= len || cs[2 + w] != '\n' {
        proof {
            lemma_no_shape_bad_border(src@, w as int);
        }
        return Err(Error);
    }
    let line = w + 3;
    if len % line != 0 || len / line < 2 {
        proof {
            lemma_no_shape_bad_len(src@, w as int);
        }
        return Err(Error);
    }
    let n = len / line - 2;
    proof {
        assert(len == (n as int + 2) * (line as int)) by (nonlinear_arith)
            requires
                len % line == 0,
                len / line >= 2,
                n == len / line - 2,
                line > 0,
        ;
    }
    if w > u32::MAX as usize || n > u32::MAX as usize {
        proof {
            lemma_shape_unique(src@, w as int);
            assert forall|w2: int, n2: int|
                !(#[trigger] matrix_shape(src@, w2, n2) && marks_in_domain(src@, w2, n2) && w2
                    <= u32::MAX && n2 <= u32::MAX) by {
                if matrix_shape(src@, w2, n2) {
                    assert(w2 == w as int);
                    assert((n2 + 2) * (w as int + 3) == (n as int + 2) * (w as int + 3));
                    assert(n2 == n as int) by (nonlinear_arith)
                        requires
                            (n2 + 2) * (w as int + 3) == (n as int + 2) * (w as int + 3),
                            w >= 0,
                    ;
                }
            }
        }
        return Err(Error);
    }
    let mut pairs: Vec<(u32, u32)> = Vec::new();
    let mut i: usize = 0;
    while i < n
        invariant
            cs@ == src@,
            len == cs@.len(),
            line == w + 3,
            i <= n,
            len == (n as int + 2) * (line as int),
            w <= u32::MAX as usize,
            n <= u32::MAX as usize,
            2 + w < len,
            forall|c: int| 1 <= c <= w ==> #[trigger] src@[c] == '-',
            src@[1 + w as int] == '+',
            forall|r2: int| 1 <= r2 <= i ==> is_row_at(src@, #[trigger] (r2 * (line as int)), w as int),
            forall|k: int| 0 <= k < pairs@.len() ==> ((#[trigger] pairs@[k]).0 as int) < w as int
                && (pairs@[k].1 as int) < n as int,
            forall|i2: int, j2: int|
                0 <= i2 < i && 0 <= j2 < w ==> (pairs@.contains((i2 as u32, j2 as u32))
                    <==> #[trigger] cell_marked(src@, w as int, i2, j2)),
            forall|q: (u32, u32)| #[trigger] pairs@.contains(q) ==> (q.0 as int) < i as int && (
            q.1 as int) < w as int,
        decreases n - i,
    {
        proof {
            assert((i as int + 1) * (line as int) + line as int <= len as int) by (
            nonlinear_arith)
                requires
                    len == (n as int + 2) * (line as int),
                    0 <= i < n,
                    line == w + 3,
            ;
        }
        let row_off = (i + 1) * line;
        if cs[row_off] != '|' || cs[row_off + w + 1] != '|' || cs[row_off + w + 2] != '\n' {
            proof {
                lemma_shape_unique(src@, w as int);
                lemma_no_shape_bad_row(src@, w as int, n as int, i as int + 1);
            }
            return Err(Error);
        }
        let mut j: usize = 0;
        while j < w
            invariant
                cs@ == src@,
                len == cs@.len(),
                line == w + 3,
                i < n,
                j <= w,
                len == (n as int + 2) * (line as int),
                w <= u32::MAX as usize,
                n <= u32::MAX as usize,
                2 + w < len,
                forall|c: int| 1 <= c <= w ==> #[trigger] src@[c] == '-',
                src@[1 + w as int] == '+',
                row_off == (i as int + 1) * (line as int),
                row_off + line <= len,
                forall|c: int| 0 <= c < j ==> (#[trigger] src@[row_off + 1 + c] == 'X'
                    || src@[row_off + 1 + c] == ' '),
                forall|k: int| 0 <= k < pairs@.len() ==> ((#[trigger] pairs@[k]).0 as int)
                    < w as int && (pairs@[k].1 as int) < n as int,
                forall|i2: int, j2: int|
                    0 <= i2 < i && 0 <= j2 < w ==> (pairs@.contains((i2 as u32, j2 as u32))
                        <==> #[trigger] cell_marked(src@, w as int, i2, j2)),
                forall|j2: int|
                    0 <= j2 < j ==> (pairs@.contains((i as u32, j2 as u32))
                        <==> #[trigger] cell_marked(src@, w as int, i as int, j2)),
                forall|q: (u32, u32)| #[trigger] pairs@.contains(q) ==> ((q.0 as int) < i as int
                    || (q.0 as int == i as int && (q.1 as int) < j as int)) && (q.1 as int)
                    < w as int,
            decreases w - j,
        {
            let c = cs[row_off + 1 + j];
            if c == 'X' {
                if i >= w || j >= n {
                    // A mark outside the declared domain rectangle.
                    proof {
                        lemma_shape_unique(src@, w as int);
                        assert(cell_marked(src@, w as int, i as int, j as int));
                        assert forall|w2: int, n2: int|
                            !(#[trigger] matrix_shape(src@, w2, n2) && marks_in_domain(
                                src@,
                                w2,
                                n2,
                            ) && w2 <= u32::MAX && n2 <= u32::MAX) by {
                            if matrix_shape(src@, w2, n2) {
                                assert(w2 == w as int);
                                assert(n2 == n as int) by (nonlinear_arith)
                                    requires
                                        (n2 + 2) * (w as int + 3) == (n as int + 2) * (w as int
                                            + 3),
                                        w >= 0,
                                ;
                            }
                        }
                    }
                    return Err(Error);
                }
                let ghost prev = pairs@;
                pairs.push((i as u32, j as u32));
                proof {
                    assert forall|q: (u32, u32)| #[trigger] pairs@.contains(q) implies ((
                    q.0 as int) < i as int || (q.0 as int == i as int && (q.1 as int) < j as int
                        + 1)) && (q.1 as int) < w as int by {
                        let k = choose|k: int| 0 <= k < pairs@.len() && pairs@[k] == q;
                        if k < prev.len() {
                            assert(prev.contains(q));
                        }
                    }
                    assert forall|i2: int, j2: int|
                        0 <= i2 < i && 0 <= j2 < w implies (pairs@.contains((i2 as u32, j2 as u32))
                        <==> #[trigger] cell_marked(src@, w as int, i2, j2)) by {
                        if pairs@.contains((i2 as u32, j2 as u32)) {
                            let k = choose|k: int|
                                0 <= k < pairs@.len() && pairs@[k] == (i2 as u32, j2 as u32);
                            if k < prev.len() {
                                assert(prev.contains((i2 as u32, j2 as u32)));
                            }
                        }
                        if cell_marked(src@, w as int, i2, j2) {
                            assert(prev.contains((i2 as u32, j2 as u32)));
                            let k = choose|k: int|
                                0 <= k < prev.len() && prev[k] == (i2 as u32, j2 as u32);
                            assert(pairs@[k] == (i2 as u32, j2 as u32));
                        }
                    }
                    assert forall|j2: int|
                        0 <= j2 < j + 1 implies (pairs@.contains((i as u32, j2 as u32))
                        <==> #[trigger] cell_marked(src@, w as int, i as int, j2)) by {
                        if j2 < j {
                            if pairs@.contains((i as u32, j2 as u32)) {
                                let k = choose|k: int|
                                    0 <= k < pairs@.len() && pairs@[k] == (i as u32, j2 as u32);
                                if k < prev.len() {
                                    assert(prev.contains((i as u32, j2 as u32)));
                                }
                            }
                            if cell_marked(src@, w as int, i as int, j2) {
                                assert(prev.contains((i as u32, j2 as u32)));
                                let k = choose|k: int|
                                    0 <= k < prev.len() && prev[k] == (i as u32, j2 as u32);
                                assert(pairs@[k] == (i as u32, j2 as u32));
                            }
                        } else {
                            assert(pairs@[pairs@.len() - 1] == (i as u32, j2 as u32));
                        }
                    }
                }
            } else if c != ' ' {
                proof {
                    lemma_shape_unique(src@, w as int);
                    lemma_no_shape_bad_cell(src@, w as int, n as int, i as int + 1, j as int);
                }
                return Err(Error);
            } else {
                proof {
                    assert forall|j2: int|
                        0 <= j2 < j + 1 implies (pairs@.contains((i as u32, j2 as u32))
                        <==> #[trigger] cell_marked(src@, w as int, i as int, j2)) by {
                        if j2 == j as int {
                            assert(!cell_marked(src@, w as int, i as int, j2));
                            if pairs@.contains((i as u32, j2 as u32)) {
                            }
                        }
                    }
                }
            }
            j += 1;
        }
        proof {
            assert(is_row_at(src@, (i as int + 1) * (line as int), w as int));
            assert forall|i2: int, j2: int|
                0 <= i2 < i + 1 && 0 <= j2 < w implies (pairs@.contains((i2 as u32, j2 as u32))
                <==> #[trigger] cell_marked(src@, w as int, i2, j2)) by {}
        }
        i += 1;
    }
    // The trailing border.
    proof {
        assert((n as int + 1) * (line as int) + line as int == len as int) by (nonlinear_arith)
            requires
                len == (n as int + 2) * (line as int),
                n >= 0,
                line == w + 3,
        ;
    }
    let last_off = (n + 1) * line;
    if cs[last_off] != '+' || cs[last_off + w + 1] != '+' || cs[last_off + w + 2] != '\n' {
        proof {
            lemma_shape_unique(src@, w as int);
            lemma_no_shape_bad_tail(src@, w as int, n as int);
        }
        return Err(Error);
    }
    let mut d: usize = 0;
    while d < w
        invariant
            cs@ == src@,
            len == cs@.len(),
            line == w + 3,
            d <= w,
            n <= u32::MAX as usize,
            len == (n as int + 2) * (line as int),
            2 + w < len,
            forall|c: int| 1 <= c <= w ==> #[trigger] src@[c] == '-',
            src@[1 + w as int] == '+',
            last_off == (n as int + 1) * (line as int),
            last_off + line == len,
            forall|c: int| 1 <= c <= d ==> #[trigger] src@[last_off as int + c] == '-',
        decreases w - d,
    {
        if cs[last_off + 1 + d] != '-' {
            proof {
                lemma_shape_unique(src@, w as int);
                let c0: int = 1 + d as int;
                assert(src@[last_off as int + c0] != '-');
                assert(!is_border_at(src@, (n as int + 1) * (line as int), w as int));
                lemma_no_shape_bad_tail(src@, w as int, n as int);
            }
            return Err(Error);
        }
        proof {
            let c0: int = 1 + d as int;
            assert(src@[last_off as int + c0] == '-');
        }
        d += 1;
    }
    proof {
        assert(matrix_shape(src@, w as int, n as int));
        assert forall|i2: int, j2: int|
            0 <= i2 < n && 0 <= j2 < w && #[trigger] cell_marked(
                src@,
                w as int,
                i2,
                j2,
            ) implies i2 < w as int && j2 < n as int by {
            assert(pairs@.contains((i2 as u32, j2 as u32)));
        }
        assert forall|k: int| 0 <= k < pairs@.len() implies crate::relation::in_domain(
            (w as u32, n as u32),
            #[trigger] pairs@[k],
        ) by {}
    }
    let rel = Relation::sparse((w as u32, n as u32), &pairs);
    proof {
        assert forall|i2: int, j2: int| 0 <= i2 < n && 0 <= j2 < w implies rel.spec_contains(
            i2 as u32,
            j2 as u32,
        ) == #[trigger] cell_marked(src@, w as int, i2, j2) by {}
    }
    Ok(rel)
}

/// A decimal digit.
pub open spec fn is_digit(c: char) -> bool {
    '0' <= c && c <= '9'
}

/// A character that may begin a name.
pub open spec fn ident_start(c: char) -> bool {
    ('a' <= c && c <= 'z') || ('A' <= c && c <= 'Z') || c == '_'
}

/// A character that may continue a name.
pub open spec fn ident_cont(c: char) -> bool {
    ident_start(c) || is_digit(c)
}

/// The first position at or after `i` that is not a digit.
pub open spec fn digit_end(s: Seq<char>, i: int) -> int
    decreases s.len() - i,
{
    if 0 <= i < s.len() && is_digit(s[i]) {
        digit_end(s, i + 1)
    } else {
        i
    }
}

/// The first position at or after `i` that cannot continue a name.
pub open spec fn ident_end(s: Seq<char>, i: int) -> int
    decreases s.len() - i,
{
    if 0 <= i < s.len() && ident_cont(s[i]) {
        ident_end(s, i + 1)
    } else {
        i
    }
}

/// The value of the digits `s[i .. j]`, read as a decimal number.
pub open spec fn digits_val(s: Seq<char>, i: int, j: int) -> int
    decreases j - i,
{
    if i < j {
        digits_val(s, i, j - 1) * 10 + (s[j - 1] as int - 48)
    } else {
        0
    }
}

/// The number standing at `i`: its end and its value, provided at least
/// one digit stands there and the value fits a `u32`.
pub open spec fn parse_num_at(s: Seq<char>, i: int) -> Option<(int, u32)> {
    let j = digit_end(s, i);
    if j > i && digits_val(s, i, j) <= u32::MAX as int {
        Some((j, digits_val(s, i, j) as u32))
    } else {
        None
    }
}

/// The one-based columns of one row, from `i` to just past the row's
/// newline: a comma-separated list of numbers, each paired with `row`
/// zero-based.
pub open spec fn parse_cols_at(s: Seq<char>, i: int, row: u32) -> Option<(int, Seq<(u32, u32)>)>
    decreases s.len() - i,
{
    if 0 <= i <= s.len() {
        match parse_num_at(s, i) {
            Some((j, y)) => {
                if y >= 1 {
                    if j < s.len() && s[j] == '\n' {
                        Some((j + 1, seq![(row, (y - 1) as u32)]))
                    } else if j + 2 <= s.len() && s[j] == ',' && s[j + 1] == ' ' {
                        if i < j + 2 {
                            match parse_cols_at(s, j + 2, row) {
                                Some((i2, rest)) => Some(
                                    (i2, seq![(row, (y - 1) as u32)] + rest),
                                ),
                                None => None,
                            }
                        } else {
                            None
                        }
                    } else {
                        None
                    }
                } else {
                    None
                }
            }
            None => None,
        }
    } else {
        None
    }
}

/// The rows from `i` to the end of the input: each is a one-based row
/// number, a colon separator, and that row's columns.
pub open spec fn parse_lines_at(s: Seq<char>, i: int) -> Option<Seq<(u32, u32)>>
    decreases s.len() - i,
{
    if i == s.len() {
        Some(Seq::empty())
    } else if 0 <= i < s.len() {
        match parse_num_at(s, i) {
            Some((j, x)) => {
                if x >= 1 && j + 3 <= s.len() && s[j] == ' ' && s[j + 1] == ':' && s[j + 2]
                    == ' ' {
                    match parse_cols_at(s, j + 3, (x - 1) as u32) {
                        Some((i2, ps)) => {
                            if i < i2 <= s.len() {
                                match parse_lines_at(s, i2) {
                                    Some(rest) => Some(ps + rest),
                                    None => None,
                                }
                            } else {
                                None
                            }
                        }
                        None => None,
                    }
                } else {
                    None
                }
            }
            None => None,
        }
    } else {
        None
    }
}

/// Every listed pair lies inside the domain rectangle.
pub open spec fn pairs_in_dom(ps: Seq<(u32, u32)>, dx: u32, dy: u32) -> bool {
    forall|k: int| 0 <= k < ps.len() ==> (#[trigger] ps[k]).0 < dx && ps[k].1 < dy
}

/// The whole listing: a name, the two domain bounds in parentheses, and
/// the rows, with every listed pair inside the domain.
pub open spec fn spec_parse_relation(s: Seq<char>) -> Option<
    (Seq<char>, (u32, u32), Seq<(u32, u32)>),
> {
    if s.len() == 0 || !ident_start(s[0]) {
        None
    } else {
        let j = ident_end(s, 1);
        if j + 2 <= s.len() && s[j] == ' ' && s[j + 1] == '(' {
            match parse_num_at(s, j + 2) {
                Some((j2, dx)) => {
                    if j2 + 2 <= s.len() && s[j2] == ',' && s[j2 + 1] == ' ' {
                        match parse_num_at(s, j2 + 2) {
                            Some((j3, dy)) => {
                                if j3 + 2 <= s.len() && s[j3] == ')' && s[j3 + 1] == '\n' {
                                    match parse_lines_at(s, j3 + 2) {
                                        Some(ps) => {
                                            if pairs_in_dom(ps, dx, dy) {
                                                Some((s.subrange(0, j), (dx, dy), ps))
                                            } else {
                                                None
                                            }
                                        }
                                        None => None,
                                    }
                                } else {
                                    None
                                }
                            }
                            None => None,
                        }
                    } else {
                        None
                    }
                }
                None => None,
            }
        } else {
            None
        }
    }
}

/// Whether a character may continue a name.
fn is_ident_cont_char(c: char) -> (r: bool)
    ensures
        r == ident_cont(c),
{
    (c >= 'a' && c <= 'z') || (c >= 'A' && c <= 'Z') || c == '_' || (c >= '0' && c <= '9')
}

/// `digit_end` is the first non-digit: scanning that far and stopping
/// there pins it down.
proof fn lemma_digit_end(s: Seq<char>, i: int, m: int)
    requires
        0 <= i <= m <= s.len(),
        forall|k: int| i <= k < m ==> is_digit(#[trigger] s[k]),
        m == s.len() || !is_digit(s[m]),
    ensures
        digit_end(s, i) == m,
    decreases m - i,
{
    if i < m {
        lemma_digit_end(s, i + 1, m);
    }
}

/// As `lemma_digit_end`, for name characters.
proof fn lemma_ident_end(s: Seq<char>, i: int, m: int)
    requires
        0 <= i <= m <= s.len(),
        forall|k: int| i <= k < m ==> ident_cont(#[trigger] s[k]),
        m == s.len() || !ident_cont(s[m]),
    ensures
        ident_end(s, i) == m,
    decreases m - i,
{
    if i < m {
        lemma_ident_end(s, i + 1, m);
    }
}

/// A digit string's value is never negative.
proof fn lemma_digits_val_nonneg(s: Seq<char>, i: int, j: int)
    requires
        forall|k: int| i <= k < j ==> is_digit(#[trigger] s[k]),
    ensures
        digits_val(s, i, j) >= 0,
    decreases j - i,
{
    if i < j {
        lemma_digits_val_nonneg(s, i, j - 1);
        assert(digits_val(s, i, j) >= 0) by (nonlinear_arith)
            requires
                digits_val(s, i, j) == digits_val(s, i, j - 1) * 10 + (s[j - 1] as int - 48),
                digits_val(s, i, j - 1) >= 0,
                s[j - 1] as int >= 48,
        ;
    }
}

/// Once a digit string's value has outgrown `u32`, more digits keep it
/// outgrown.
proof fn lemma_digits_val_grows(s: Seq<char>, i: int, j: int, m: int)
    requires
        i <= j <= m,
        forall|k: int| i <= k < m ==> is_digit(#[trigger] s[k]),
        digits_val(s, i, j) > u32::MAX as int,
    ensures
        digits_val(s, i, m) > u32::MAX as int,
    decreases m - j,
{
    if j < m {
        assert(digits_val(s, i, j + 1) > u32::MAX as int) by (nonlinear_arith)
            requires
                digits_val(s, i, j + 1) == digits_val(s, i, j) * 10 + (s[j] as int - 48),
                digits_val(s, i, j) > u32::MAX as int,
                s[j] as int >= 48,
        ;
        lemma_digits_val_grows(s, i, j + 1, m);
    }
}

/// Scans one decimal number: returns the first non-digit position and the
/// value, or no value when no digit stands at `start` or the value does
/// not fit.
fn scan_number(cs: &Vec<char>, start: usize) -> (r: (usize, Option<u32>))
    requires
        start <= cs@.len(),
    ensures
        start <= r.0 <= cs@.len(),
        r.0 == digit_end(cs@, start as int),
        match r.1 {
            Some(v) => parse_num_at(cs@, start as int) == Some((r.0 as int, v)),
            None => parse_num_at(cs@, start as int) is None,
        },
{
    let n = cs.len();
    let mut k = start;
    let mut acc: u64 = 0;
    let mut over = false;
    while k < n && cs[k] >= '0' && cs[k] <= '9'
        invariant
            start <= k <= n,
            n == cs@.len(),
            forall|m: int| start <= m < k ==> is_digit(#[trigger] cs@[m]),
            !over ==> acc as int == digits_val(cs@, start as int, k as int) && acc
                <= u32::MAX as u64,
            over ==> digits_val(cs@, start as int, k as int) > u32::MAX as int,
        decreases n - k,
    {
        let d: u64 = (cs[k] as u32) as u64 - 48;
        proof {
            assert(is_digit(cs@[k as int]));
            assert(d == cs@[k as int] as int - 48);
        }
        if over {
            proof {
                lemma_digits_val_grows(
                    cs@,
                    start as int,
                    k as int,
                    k as int + 1,
                );
            }
        } else {
            let next = acc * 10 + d;
            if next > u32::MAX as u64 {
                over = true;
            } else {
                acc = next;
            }
            proof {
                assert(digits_val(cs@, start as int, k as int + 1) == digits_val(
                    cs@,
                    start as int,
                    k as int,
                ) * 10 + (cs@[k as int] as int - 48));
            }
        }
        k += 1;
    }
    proof {
        lemma_digit_end(cs@, start as int, k as int);
    }
    if k == start || over {
        (k, None)
    } else {
        (k, Some(acc as u32))
    }
}

/// Parses the listing of a relation: its name, its domain bounds, and one
/// line per inhabited row listing that row's columns, all one-based.  The
/// parse is exact: it succeeds on precisely the inputs the listing grammar
/// describes whose pairs lie inside the declared domain.
pub fn parse_relation(src: &str) -> (r: Result<(String, Relation), Error>)
    ensures
        match spec_parse_relation(src@) {
            Some(parsed) => r matches Ok(nr) && nr.0@ == parsed.0 && nr.1.wf() && nr.1.dom()
                == parsed.1 && forall|x: u32, y: u32|
                #[trigger] nr.1.spec_contains(x, y) == parsed.2.contains((x, y)),
            None => r is Err,
        },
{
    let cs = chars_of(src);
    let n = cs.len();
    if n == 0 {
        return Err(Error);
    }
    let c0 = cs[0];
    let start_ok = (c0 >= 'a' && c0 <= 'z') || (c0 >= 'A' && c0 <= 'Z') || c0 == '_';
    if !start_ok {
        return Err(Error);
    }
    // The name.
    let mut j: usize = 1;
    while j < n && is_ident_cont_char(cs[j])
        invariant
            1 <= j <= n,
            n == cs@.len(),
            cs@ == src@,
            forall|k: int| 1 <= k < j ==> ident_cont(#[trigger] cs@[k]),
        decreases n - j,
    {
        j += 1;
    }
    proof {
        lemma_ident_end(cs@, 1, j as int);
    }
    if n - j < 2 || cs[j] != ' ' || cs[j + 1] != '(' {
        return Err(Error);
    }
    let (j2, dx_opt) = scan_number(&cs, j + 2);
    let Some(dx) = dx_opt else {
        return Err(Error);
    };
    if n - j2 < 2 || cs[j2] != ',' || cs[j2 + 1] != ' ' {
        return Err(Error);
    }
    let (j3, dy_opt) = scan_number(&cs, j2 + 2);
    let Some(dy) = dy_opt else {
        return Err(Error);
    };
    if n - j3 < 2 || cs[j3] != ')' || cs[j3 + 1] != '\n' {
        return Err(Error);
    }
    let body_start = j3 + 2;
    let ghost name_view = src@.subrange(0, j as int);
    // Everything of the header is now fixed: the outcome of the whole parse
    // is the outcome of the body parse, filtered by the domain.
    proof {
        assert(spec_parse_relation(src@) == (match parse_lines_at(src@, body_start as int) {
            Some(ps) => if pairs_in_dom(ps, dx, dy) {
                Some((name_view, (dx, dy), ps))
            } else {
                None::<(Seq<char>, (u32, u32), Seq<(u32, u32)>)>
            },
            None => None,
        }));
    }
    // The rows.
    let mut pairs: Vec<(u32, u32)> = Vec::new();
    let mut pos: usize = body_start;
    while pos < n
        invariant
            pos <= n,
            n == cs@.len(),
            cs@ == src@,
            body_start <= pos,
            spec_parse_relation(src@) == (match parse_lines_at(src@, body_start as int) {
                Some(ps) => if pairs_in_dom(ps, dx, dy) {
                    Some((name_view, (dx, dy), ps))
                } else {
                    None::<(Seq<char>, (u32, u32), Seq<(u32, u32)>)>
                },
                None => None,
            }),
            match parse_lines_at(src@, pos as int) {
                Some(rest) => parse_lines_at(src@, body_start as int) == Some(pairs@ + rest),
                None => parse_lines_at(src@, body_start as int) is None,
            },
        decreases n - pos,
    {
        let line_start = pos;
        let (jx, x_opt) = scan_number(&cs, pos);
        let Some(x) = x_opt else {
            return Err(Error);
        };
        if x < 1 || n - jx < 3 || cs[jx] != ' ' || cs[jx + 1] != ':' || cs[jx + 2] != ' ' {
            return Err(Error);
        }
        let row = x - 1;
        // The columns of this row.
        let mut cpos: usize = jx + 3;
        let cols_start = cpos;
        let ghost pairs_before = pairs@;
        loop
            invariant_except_break
                cpos <= n,
                n == cs@.len(),
                cs@ == src@,
                line_start < cols_start,
                cols_start <= cpos,
                pairs@.take(pairs_before.len() as int) == pairs_before,
                pairs@.len() >= pairs_before.len(),
                match parse_cols_at(src@, cpos as int, row) {
                    Some((e, rest)) => parse_cols_at(src@, cols_start as int, row) == Some(
                        (e, pairs@.skip(pairs_before.len() as int) + rest),
                    ),
                    None => parse_cols_at(src@, cols_start as int, row) is None,
                },
                parse_cols_at(src@, cols_start as int, row) is None ==> parse_lines_at(
                    src@,
                    line_start as int,
                ) is None,
                spec_parse_relation(src@) == (match parse_lines_at(src@, body_start as int) {
                    Some(ps) => if pairs_in_dom(ps, dx, dy) {
                        Some((name_view, (dx, dy), ps))
                    } else {
                        None::<(Seq<char>, (u32, u32), Seq<(u32, u32)>)>
                    },
                    None => None,
                }),
                match parse_lines_at(src@, line_start as int) {
                    Some(rest) => parse_lines_at(src@, body_start as int) == Some(
                        pairs_before + rest,
                    ),
                    None => parse_lines_at(src@, body_start as int) is None,
                },
            ensures
                n == cs@.len(),
                cs@ == src@,
                line_start < pos <= n,
                pairs@.len() >= pairs_before.len(),
                pairs@.take(pairs_before.len() as int) == pairs_before,
                parse_cols_at(src@, cols_start as int, row) == Some(
                    (pos as int, pairs@.skip(pairs_before.len() as int)),
                ),
                spec_parse_relation(src@) == (match parse_lines_at(src@, body_start as int) {
                    Some(ps) => if pairs_in_dom(ps, dx, dy) {
                        Some((name_view, (dx, dy), ps))
                    } else {
                        None::<(Seq<char>, (u32, u32), Seq<(u32, u32)>)>
                    },
                    None => None,
                }),
                match parse_lines_at(src@, line_start as int) {
                    Some(rest) => parse_lines_at(src@, body_start as int) == Some(
                        pairs_before + rest,
                    ),
                    None => parse_lines_at(src@, body_start as int) is None,
                },
            decreases n - cpos,
        {
            let (jy, y_opt) = scan_number(&cs, cpos);
            let Some(y) = y_opt else {
                proof {
                    assert(parse_cols_at(src@, cpos as int, row) is None);
                }
                return Err(Error);
            };
            if y < 1 {
                proof {
                    assert(parse_cols_at(src@, cpos as int, row) is None);
                }
                return Err(Error);
            }
            let ghost pairs_prev = pairs@;
            if jy < n && cs[jy] == '\n' {
                pairs.push((row, y - 1));
                pos = jy + 1;
                proof {
                    assert(pairs@.skip(pairs_before.len() as int) =~= pairs_prev.skip(
                        pairs_before.len() as int,
                    ) + seq![(row, (y - 1) as u32)]);
                    assert(pairs@.take(pairs_before.len() as int) =~= pairs_before);
                    assert(parse_cols_at(src@, cpos as int, row) == Some(
                        (jy as int + 1, seq![(row, (y - 1) as u32)]),
                    ));
                }
                break ;
            }
            if n - jy < 2 || cs[jy] != ',' || cs[jy + 1] != ' ' {
                proof {
                    assert(parse_cols_at(src@, cpos as int, row) is None);
                }
                return Err(Error);
            }
            pairs.push((row, y - 1));
            proof {
                assert(pairs@.skip(pairs_before.len() as int) =~= pairs_prev.skip(
                    pairs_before.len() as int,
                ) + seq![(row, (y - 1) as u32)]);
                assert(pairs@.take(pairs_before.len() as int) =~= pairs_before);
                lemma_cols_step(
                    src@,
                    cols_start as int,
                    cpos as int,
                    jy as int,
                    row,
                    y,
                    pairs_prev.skip(pairs_before.len() as int),
                );
            }
            cpos = jy + 2;
        }
        proof {
            lemma_lines_decompose(
                src@,
                body_start as int,
                line_start as int,
                pos as int,
                pairs_before,
                pairs@.skip(pairs_before.len() as int),
            );
            assert(pairs_before + pairs@.skip(pairs_before.len() as int) =~= pairs@);
        }
    }
    proof {
        assert(parse_lines_at(src@, n as int) == Some(Seq::<(u32, u32)>::empty()));
        assert(pairs@ + Seq::<(u32, u32)>::empty() =~= pairs@);
        assert(parse_lines_at(src@, body_start as int) == Some(pairs@));
    }
    // Every pair must lie inside the declared domain.
    let mut k: usize = 0;
    while k < pairs.len()
        invariant
            k <= pairs@.len(),
            cs@ == src@,
            parse_lines_at(src@, body_start as int) == Some(pairs@),
            spec_parse_relation(src@) == (match parse_lines_at(src@, body_start as int) {
                Some(ps) => if pairs_in_dom(ps, dx, dy) {
                    Some((name_view, (dx, dy), ps))
                } else {
                    None::<(Seq<char>, (u32, u32), Seq<(u32, u32)>)>
                },
                None => None,
            }),
            forall|m: int| 0 <= m < k ==> (#[trigger] pairs@[m]).0 < dx && pairs@[m].1 < dy,
        decreases pairs@.len() - k,
    {
        if pairs[k].0 >= dx || pairs[k].1 >= dy {
            proof {
                assert(!pairs_in_dom(pairs@, dx, dy));
            }
            return Err(Error);
        }
        k += 1;
    }
    proof {
        assert(pairs_in_dom(pairs@, dx, dy));
        assert(spec_parse_relation(src@) == Some((name_view, (dx, dy), pairs@)));
        assert forall|m: int| 0 <= m < pairs@.len() implies crate::relation::in_domain(
            (dx, dy),
            #[trigger] pairs@[m],
        ) by {}
    }
    let name = src.substring_char(0, j).to_owned();
    let rel = Relation::sparse((dx, dy), &pairs);
    Ok((name, rel))
}


/// Unfolding one finished row of columns: the columns parsed so far,
/// followed by the just-closed singleton, are what the whole column list
/// from `cols_start` parses to.
proof fn lemma_cols_decompose(
    s: Seq<char>,
    cols_start: int,
    cpos: int,
    row: u32,
    done: Seq<(u32, u32)>,
)
    requires
        parse_cols_at(s, cpos, row) matches Some((e, rest)) && parse_cols_at(s, cols_start, row)
            == Some((e, done + rest)),
    ensures
        parse_cols_at(s, cols_start, row) matches Some((e2, all)) && parse_cols_at(
            s,
            cpos,
            row,
        ) matches Some((e3, rest2)) && e2 == e3 && all == done + rest2,
{
}

/// One comma step of the column list: consuming `y` and the separator
/// moves the parse position while appending one pair.
proof fn lemma_cols_step(
    s: Seq<char>,
    cols_start: int,
    cpos: int,
    jy: int,
    row: u32,
    y: u32,
    done: Seq<(u32, u32)>,
)
    requires
        parse_num_at(s, cpos) == Some((jy, y)),
        y >= 1,
        !(jy < s.len() && s[jy] == '\n'),
        jy + 2 <= s.len(),
        s[jy] == ',',
        s[jy + 1] == ' ',
        0 <= cpos <= s.len(),
        match parse_cols_at(s, cpos, row) {
            Some((e, rest)) => parse_cols_at(s, cols_start, row) == Some((e, done + rest)),
            None => parse_cols_at(s, cols_start, row) is None,
        },
    ensures
        match parse_cols_at(s, jy + 2, row) {
            Some((e, rest)) => parse_cols_at(s, cols_start, row) == Some(
                (e, (done + seq![(row, (y - 1) as u32)]) + rest),
            ),
            None => parse_cols_at(s, cols_start, row) is None,
        },
{
    assert(digit_end(s, cpos) == jy && jy > cpos);
    match parse_cols_at(s, jy + 2, row) {
        Some((e, rest)) => {
            assert(parse_cols_at(s, cpos, row) == Some(
                (e, seq![(row, (y - 1) as u32)] + rest),
            ));
            assert(done + (seq![(row, (y - 1) as u32)] + rest) =~= (done + seq![
                (row, (y - 1) as u32),
            ]) + rest);
        }
        None => {
            assert(parse_cols_at(s, cpos, row) is None);
        }
    }
}

/// One finished row of the line list: the rows parsed so far, plus this
/// row's pairs, carry the parse from the body start to the next line.
proof fn lemma_lines_decompose(
    s: Seq<char>,
    body_start: int,
    line_start: int,
    next: int,
    done: Seq<(u32, u32)>,
    here: Seq<(u32, u32)>,
)
    requires
        0 <= line_start < s.len(),
        match parse_lines_at(s, line_start) {
            Some(rest) => parse_lines_at(s, body_start) == Some(done + rest),
            None => parse_lines_at(s, body_start) is None,
        },
        parse_num_at(s, line_start) matches Some((jx, x)) && x >= 1 && jx + 3 <= s.len() && s[jx]
            == ' ' && s[jx + 1] == ':' && s[jx + 2] == ' ' && parse_cols_at(
            s,
            jx + 3,
            (x - 1) as u32,
        ) == Some((next, here)),
        line_start < next <= s.len(),
    ensures
        match parse_lines_at(s, next) {
            Some(rest) => parse_lines_at(s, body_start) == Some((done + here) + rest),
            None => parse_lines_at(s, body_start) is None,
        },
{
    match parse_lines_at(s, next) {
        Some(rest) => {
            assert(parse_lines_at(s, line_start) == Some(here + rest));
            assert(done + (here + rest) =~= (done + here) + rest);
        }
        None => {
            assert(parse_lines_at(s, line_start) is None);
        }
    }
}

/// No shape fits an input that does not begin with a corner.
proof fn lemma_no_shape_bad_start(s: Seq<char>)
    requires
        s.len() == 0 || s[0] != '+',
    ensures
        forall|w: int, n: int| !#[trigger] matrix_shape(s, w, n),
{
    assert forall|w: int, n: int| !#[trigger] matrix_shape(s, w, n) by {
        if matrix_shape(s, w, n) {
            assert(s.len() >= (0 + 2) * (w + 3)) by (nonlinear_arith)
                requires
                    s.len() == (n + 2) * (w + 3),
                    n >= 0,
                    w >= 0,
            ;
            assert(is_border_at(s, 0, w));
            assert(s[0] == '+');
            assert(s.len() >= 2 * (w + 3));
            assert(s.len() > 0);
            assert(s[0] != '+');
            assert(false);
        }
    }
}

/// No shape fits when the first line is not a border: the width of any
/// shape is pinned by the first non-dash character.
proof fn lemma_no_shape_bad_border(s: Seq<char>, w: int)
    requires
        w >= 0,
        forall|c: int| 1 <= c <= w ==> #[trigger] s[c] == '-',
        1 + w >= s.len() || s[1 + w] != '-',
        1 + w >= s.len() || s[1 + w] != '+' || 2 + w >= s.len() || s[2 + w] != '\n',
    ensures
        forall|w2: int, n2: int| !#[trigger] matrix_shape(s, w2, n2),
{
    assert forall|w2: int, n2: int| !#[trigger] matrix_shape(s, w2, n2) by {
        if matrix_shape(s, w2, n2) {
            assert(s.len() >= (w2 + 3)) by (nonlinear_arith)
                requires
                    s.len() == (n2 + 2) * (w2 + 3),
                    n2 >= 0,
                    w2 >= 0,
            ;
            if w2 < w {
                assert(is_border_at(s, 0, w2));
                assert(s[0 + w2 + 1] == '+');
                assert(s[1 + w2] == '-');
            } else if w2 > w {
                assert(is_border_at(s, 0, w2));
                let c: int = 1 + w;
                assert(1 <= c <= w2);
                assert(s[0 + c] == '-');
            } else {
                assert(is_border_at(s, 0, w2));
                assert(s[0 + w2 + 1] == '+' && s[0 + w2 + 2] == '\n');
            }
        }
    }
}

/// Any shape of an input whose first border has `w` dashes has width `w`.
proof fn lemma_shape_unique(s: Seq<char>, w: int)
    requires
        w >= 0,
        forall|c: int| 1 <= c <= w ==> #[trigger] s[c] == '-',
        1 + w >= s.len() || s[1 + w] != '-',
    ensures
        forall|w2: int, n2: int| #[trigger] matrix_shape(s, w2, n2) ==> w2 == w,
{
    assert forall|w2: int, n2: int| #[trigger] matrix_shape(s, w2, n2) implies w2 == w by {
        assert(s.len() >= (w2 + 3)) by (nonlinear_arith)
            requires
                s.len() == (n2 + 2) * (w2 + 3),
                n2 >= 0,
                w2 >= 0,
        ;
        if w2 < w {
            assert(is_border_at(s, 0, w2));
            assert(s[0 + w2 + 1] == '+');
            assert(s[1 + w2] == '-');
        } else if w2 > w {
            assert(is_border_at(s, 0, w2));
            let c: int = 1 + w;
            assert(1 <= c <= w2);
            assert(s[0 + c] == '-');
        }
    }
}

/// No shape of width `w` fits when the length is not a whole number of
/// lines, at least two of them.
proof fn lemma_no_shape_bad_len(s: Seq<char>, w: int)
    requires
        w >= 0,
        forall|c: int| 1 <= c <= w ==> #[trigger] s[c] == '-',
        1 + w >= s.len() || s[1 + w] != '-',
        (s.len() as int) % (w + 3) != 0 || (s.len() as int) / (w + 3) < 2,
    ensures
        forall|w2: int, n2: int| !#[trigger] matrix_shape(s, w2, n2),
{
    lemma_shape_unique(s, w);
    assert forall|w2: int, n2: int| !#[trigger] matrix_shape(s, w2, n2) by {
        if matrix_shape(s, w2, n2) {
            assert(w2 == w);
            assert((s.len() as int) % (w + 3) == 0 && (s.len() as int) / (w + 3) == n2 + 2) by (nonlinear_arith)
                requires
                    s.len() == (n2 + 2) * (w + 3),
                    n2 >= 0,
                    w >= 0,
            ;
        }
    }
}

/// No shape fits when the line that should be the `r`-th cell row is not
/// one.
proof fn lemma_no_shape_bad_row(s: Seq<char>, w: int, n: int, r: int)
    requires
        w >= 0,
        n >= 0,
        1 <= r <= n,
        s.len() == (n + 2) * (w + 3),
        forall|w2: int, n2: int| #[trigger] matrix_shape(s, w2, n2) ==> w2 == w,
        !(s[r * (w + 3)] == '|' && s[r * (w + 3) + w + 1] == '|' && s[r * (w + 3) + w + 2]
            == '\n'),
    ensures
        forall|w2: int, n2: int| !#[trigger] matrix_shape(s, w2, n2),
{
    assert forall|w2: int, n2: int| !#[trigger] matrix_shape(s, w2, n2) by {
        if matrix_shape(s, w2, n2) {
            assert(w2 == w);
            assert(n2 == n) by (nonlinear_arith)
                requires
                    (n2 + 2) * (w + 3) == (n + 2) * (w + 3),
                    w >= 0,
            ;
            assert(is_row_at(s, r * (w + 3), w));
        }
    }
}

/// No shape fits when some cell holds a character other than a mark or a
/// blank.
proof fn lemma_no_shape_bad_cell(s: Seq<char>, w: int, n: int, r: int, j: int)
    requires
        w >= 0,
        n >= 0,
        1 <= r <= n,
        0 <= j < w,
        s.len() == (n + 2) * (w + 3),
        forall|w2: int, n2: int| #[trigger] matrix_shape(s, w2, n2) ==> w2 == w,
        s[r * (w + 3) + 1 + j] != 'X' && s[r * (w + 3) + 1 + j] != ' ',
    ensures
        forall|w2: int, n2: int| !#[trigger] matrix_shape(s, w2, n2),
{
    assert forall|w2: int, n2: int| !#[trigger] matrix_shape(s, w2, n2) by {
        if matrix_shape(s, w2, n2) {
            assert(w2 == w);
            assert(n2 == n) by (nonlinear_arith)
                requires
                    (n2 + 2) * (w + 3) == (n + 2) * (w + 3),
                    w >= 0,
            ;
            assert(is_row_at(s, r * (w + 3), w));
        }
    }
}

/// No shape fits when the final line is not a border.
proof fn lemma_no_shape_bad_tail(s: Seq<char>, w: int, n: int)
    requires
        w >= 0,
        n >= 0,
        s.len() == (n + 2) * (w + 3),
        forall|w2: int, n2: int| #[trigger] matrix_shape(s, w2, n2) ==> w2 == w,
        !is_border_at(s, (n + 1) * (w + 3), w),
    ensures
        forall|w2: int, n2: int| !#[trigger] matrix_shape(s, w2, n2),
{
    assert forall|w2: int, n2: int| !#[trigger] matrix_shape(s, w2, n2) by {
        if matrix_shape(s, w2, n2) {
            assert(w2 == w);
            assert(n2 == n) by (nonlinear_arith)
                requires
                    (n2 + 2) * (w + 3) == (n + 2) * (w + 3),
                    w >= 0,
            ;
        }
    }
}

} // verus!
