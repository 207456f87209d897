//! Finding matches of a rule in a text, and turning matches into an ordered
//! partition of the text into matched and unmatched pieces.
use vstd::prelude::*;
use regex::Regex;
use crate::normalizer::{NormError, Span};
use crate::text::{byte_len, byte_offset, char_len, lemma_byte_len_step, lemma_byte_offset_mono, lemma_byte_offset_injective};

verus! {

/// A piece of a partition: `[start, end)` in characters, and whether it is a match.
pub type Piece = (usize, usize, bool);

/// True when `p` compiles as a regular expression.
pub uninterp spec fn regex_valid(p: Seq<char>) -> bool;

/// The byte spans of the successive non-overlapping matches of `p` in `t`.
pub uninterp spec fn regex_byte_matches(p: Seq<char>, t: Seq<char>) -> Seq<Span>;

/// Relies on `regex::Regex::new`: whether the pattern compiles.
#[verifier::external_body]
pub(crate) fn regex_compiles(p: &str) -> (r: bool)
    ensures
        r == regex_valid(p@),
{
    Regex::new(p).is_ok()
}

/// Relies on `regex::Regex::find_iter`: the successive non-overlapping
/// matches, as byte offsets, in order of position. On a `&str` haystack each
/// offset falls on a character boundary.
#[verifier::external_body]
pub(crate) fn regex_find(p: &str, t: &str) -> (r: Vec<Span>)
    requires
        regex_valid(p@),
    ensures
        r@ == regex_byte_matches(p@, t@),
        forall|i: int| #![trigger r@[i]] 0 <= i < r@.len() ==> r@[i].0 <= r@[i].1 <= byte_len(t@),
        forall|i: int| 0 <= i < r@.len() - 1 ==> #[trigger] r@[i].1 <= r@[i + 1].0,
        all_on_boundary(t@, r@),
{
    Regex::new(p).unwrap().find_iter(t).map(|m| (m.start(), m.end())).collect()
}

/// The characters that `char::is_whitespace` accepts (Unicode `White_Space`).
pub open spec fn is_ws(c: char) -> bool {
    let v = c as u32;
    (0x9 <= v <= 0xD) || v == 0x20 || v == 0x85 || v == 0xA0 || v == 0x1680
        || (0x2000 <= v <= 0x200A) || v == 0x2028 || v == 0x2029 || v == 0x202F
        || v == 0x205F || v == 0x3000
}

/// Relies on `char::is_whitespace`, which tests Unicode `White_Space`.
#[verifier::external_body]
pub(crate) fn is_whitespace(c: char) -> (r: bool)
    ensures
        r == is_ws(c),
{
    c.is_whitespace()
}

/// The character index at which byte offset `b` of `t` falls, if it falls on
/// a character boundary.
pub fn char_index_of(t: &Vec<char>, b: usize) -> (r: Option<usize>)
    ensures
        r matches Some(k) ==> k <= t@.len() && byte_offset(t@, k as int) == b,
        r is None ==> forall|k: int| 0 <= k <= t@.len() ==> byte_offset(t@, k) != b,
{
    let mut acc: usize = 0;
    let mut i: usize = 0;
    assert(t@.take(0) =~= Seq::<char>::empty());
    while i < t.len() && acc < b
        invariant
            i <= t@.len(),
            acc == byte_offset(t@, i as int),
            acc <= b,
            forall|k: int| 0 <= k < i ==> byte_offset(t@, k) < b,
        decreases t@.len() - i,
    {
        let l = char_len(t[i]);
        proof {
            lemma_byte_len_step(t@, i as int);
        }
        if l > b - acc {
            proof {
                assert forall|k: int| 0 <= k <= t@.len() implies byte_offset(t@, k) != b by {
                    if k > i {
                        lemma_byte_offset_mono(t@, i + 1, k);
                    }
                }
            }
            return None;
        }
        acc = acc + l;
        i = i + 1;
    }
    if acc == b {
        Some(i)
    } else {
        proof {
            assert forall|k: int| 0 <= k <= t@.len() implies byte_offset(t@, k) != b by {
                if k >= i {
                    lemma_byte_offset_mono(t@, i as int, k);
                }
            }
        }
        None
    }
}

/// Byte offset `b` falls on a character boundary of `t`.
pub open spec fn on_boundary(t: Seq<char>, b: usize) -> bool {
    exists|k: int| 0 <= k <= t.len() && byte_offset(t, k) == b
}

/// The character index at which byte offset `b` of `t` falls.
pub open spec fn char_at_byte(t: Seq<char>, b: usize) -> usize {
    (choose|k: int| 0 <= k <= t.len() && byte_offset(t, k) == b) as usize
}

/// Every offset of `spans` falls on a character boundary of `t`.
pub open spec fn all_on_boundary(t: Seq<char>, spans: Seq<Span>) -> bool {
    forall|i: int| 0 <= i < spans.len() ==> on_boundary(t, #[trigger] spans[i].0) && on_boundary(t, spans[i].1)
}

/// Byte spans of `t` read as character spans.
pub open spec fn char_spans(t: Seq<char>, spans: Seq<Span>) -> Seq<Span> {
    spans.map_values(|s: Span| (char_at_byte(t, s.0), char_at_byte(t, s.1)))
}

proof fn lemma_char_at_byte(t: Seq<char>, k: int, b: usize)
    requires
        0 <= k <= t.len(),
        k <= usize::MAX,
        byte_offset(t, k) == b,
    ensures
        char_at_byte(t, b) == k,
        on_boundary(t, b),
{
    assert(0 <= k <= t.len() && byte_offset(t, k) == b);
    let c = choose|c: int| 0 <= c <= t.len() && byte_offset(t, c) == b;
    lemma_byte_offset_injective(t, c, k);
}

/// Converts byte spans of `t` to character spans; `InvalidSpan` when an
/// offset does not fall on a boundary.
pub fn to_char_spans(t: &Vec<char>, spans: &Vec<Span>) -> (r: Result<Vec<Span>, NormError>)
    ensures
        all_on_boundary(t@, spans@) ==> r is Ok && r->Ok_0@ == char_spans(t@, spans@),
        !all_on_boundary(t@, spans@) ==> r == Err::<Vec<Span>, NormError>(NormError::InvalidSpan),
{
    let mut out: Vec<Span> = Vec::new();
    let mut i: usize = 0;
    while i < spans.len()
        invariant
            i <= spans@.len(),
            out@ =~= char_spans(t@, spans@.take(i as int)),
            forall|a: int| 0 <= a < i ==> on_boundary(t@, #[trigger] spans@[a].0) && on_boundary(t@, spans@[a].1),
        decreases spans@.len() - i,
    {
        let (s, e) = spans[i];
        let cs = match char_index_of(t, s) {
            Some(k) => k,
            None => {
                assert(!on_boundary(t@, spans@[i as int].0));
                return Err(NormError::InvalidSpan);
            },
        };
        let ce = match char_index_of(t, e) {
            Some(k) => k,
            None => {
                assert(!on_boundary(t@, spans@[i as int].1));
                return Err(NormError::InvalidSpan);
            },
        };
        proof {
            lemma_char_at_byte(t@, cs as int, s);
            lemma_char_at_byte(t@, ce as int, e);
            assert(spans@[i as int] == (s, e));
            assert forall|a: int| 0 <= a < i + 1 implies on_boundary(t@, #[trigger] spans@[a].0) && on_boundary(t@, spans@[a].1) by {
                if a == i {
                    assert(spans@[a] == (s, e));
                }
            }
        }
        out.push((cs, ce));
        i = i + 1;
    }
    assert(spans@.take(spans@.len() as int) =~= spans@);
    Ok(out)
}

/// Positions of `t` whose character satisfies `pred`, as one-character spans.
pub open spec fn char_matches(t: Seq<char>, pred: spec_fn(char) -> bool) -> Seq<Span>
    decreases t.len(),
{
    if t.len() == 0 {
        Seq::empty()
    } else if pred(t.last()) {
        char_matches(t.drop_last(), pred).push(((t.len() - 1) as usize, t.len() as usize))
    } else {
        char_matches(t.drop_last(), pred)
    }
}

/// Every whitespace character of `t`, as a one-character span.
pub fn whitespace_matches(t: &Vec<char>) -> (r: Vec<Span>)
    ensures
        r@ == char_matches(t@, |c: char| is_ws(c)),
{
    let mut out: Vec<Span> = Vec::new();
    let mut i: usize = 0;
    while i < t.len()
        invariant
            i <= t@.len(),
            out@ == char_matches(t@.take(i as int), |c: char| is_ws(c)),
        decreases t@.len() - i,
    {
        assert(t@.take(i + 1).drop_last() =~= t@.take(i as int));
        assert(t@.take(i + 1).last() == t@[i as int]);
        if is_whitespace(t[i]) {
            out.push((i, i + 1));
        }
        i = i + 1;
    }
    assert(t@.take(t@.len() as int) =~= t@);
    out
}

/// State of the partition after a prefix of the matches: (end of the last
/// accepted match, pieces so far). A match is accepted when it starts at or
/// after that end and ends within `n`; a non-empty gap before it becomes an
/// unmatched piece and a non-empty match a matched one.
pub open spec fn fill_run(m: Seq<Span>, n: nat) -> (int, Seq<Piece>)
    decreases m.len(),
{
    if m.len() == 0 {
        (0, Seq::empty())
    } else {
        let acc = fill_run(m.drop_last(), n);
        let (s, e) = m.last();
        if acc.0 <= s && s <= e && e <= n {
            let with_gap = if acc.0 < s { acc.1.push((acc.0 as usize, s, false)) } else { acc.1 };
            let with_match = if s < e { with_gap.push((s, e, true)) } else { with_gap };
            (e as int, with_match)
        } else {
            acc
        }
    }
}

/// The full partition of `[0, n)` by the matches `m`, trailing gap included.
pub open spec fn partition_of(m: Seq<Span>, n: nat) -> Seq<Piece> {
    let acc = fill_run(m, n);
    if acc.0 < n { acc.1.push((acc.0 as usize, n as usize, false)) } else { acc.1 }
}

/// The same partition with matched and unmatched pieces swapped.
pub open spec fn invert(ps: Seq<Piece>) -> Seq<Piece> {
    ps.map_values(|p: Piece| (p.0, p.1, !p.2))
}

/// Pieces are non-empty, in order, and tile `[0, n)`.
pub open spec fn tiles(ps: Seq<Piece>, n: nat) -> bool {
    &&& forall|k: int| #![trigger ps[k]] 0 <= k < ps.len() ==> ps[k].0 < ps[k].1 <= n
    &&& forall|k: int| 0 <= k < ps.len() - 1 ==> #[trigger] ps[k].1 == ps[k + 1].0
    &&& ps.len() > 0 ==> ps[0].0 == 0 && ps.last().1 == n
    &&& ps.len() == 0 ==> n == 0
}

/// Partitions `[0, n)` by the matches `m`, matched pieces flagged, or the
/// reverse when `inverted`.
pub fn partition(m: &Vec<Span>, n: usize, inverted: bool) -> (r: Vec<Piece>)
    ensures
        !inverted ==> r@ == partition_of(m@, n as nat),
        inverted ==> r@ == invert(partition_of(m@, n as nat)),
        tiles(r@, n as nat),
{
    let mut out: Vec<Piece> = Vec::new();
    let mut prev: usize = 0;
    let mut i: usize = 0;
    while i < m.len()
        invariant
            i <= m@.len(),
            fill_run(m@.take(i as int), n as nat) == (prev as int, out@),
            prev <= n,
            forall|k: int| #![trigger out@[k]] 0 <= k < out@.len() ==> out@[k].0 < out@[k].1 <= n,
            forall|k: int| 0 <= k < out@.len() - 1 ==> #[trigger] out@[k].1 == out@[k + 1].0,
            out@.len() > 0 ==> out@[0].0 == 0 && out@.last().1 == prev,
            out@.len() == 0 ==> prev == 0,
        decreases m@.len() - i,
    {
        assert(m@.take(i + 1).drop_last() =~= m@.take(i as int));
        assert(m@.take(i + 1).last() == m@[i as int]);
        let (s, e) = m[i];
        if prev <= s && s <= e && e <= n {
            if prev < s {
                out.push((prev, s, false));
            }
            if s < e {
                out.push((s, e, true));
            }
            prev = e;
        }
        i = i + 1;
    }
    assert(m@.take(m@.len() as int) =~= m@);
    if prev < n {
        out.push((prev, n, false));
    }
    if inverted {
        let mut inv: Vec<Piece> = Vec::new();
        let mut j: usize = 0;
        while j < out.len()
            invariant
                j <= out@.len(),
                inv@ =~= invert(out@.take(j as int)),
            decreases out@.len() - j,
        {
            let (a, b, f) = out[j];
            inv.push((a, b, !f));
            j = j + 1;
        }
        assert(out@.take(out@.len() as int) =~= out@);
        inv
    } else {
        out
    }
}

} // verus!
