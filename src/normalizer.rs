//! The alignment buffer: original text, current text, and for each current
//! character the span of original characters it derives from.
use vstd::prelude::*;
use crate::text::{byte_len, byte_offset, chars_of, string_of, char_len, utf8_len};

verus! {

/// A half-open span `[start, end)` of character positions.
pub type Span = (usize, usize);

/// Failures of the buffer and splitting operations.
#[derive(Debug, Clone, Copy, PartialEq, Eq, Structural)]
pub enum NormError {
    /// A requested span exceeds the buffer's extent.
    OutOfBounds,
    /// A byte offset does not fall on a character boundary.
    InvalidSpan,
    /// A rewrite would move the cursor outside the alignment table.
    InvalidRewrite,
    /// A boundary probe was made on an empty fragment.
    EmptyFragment,
    /// A pattern failed to compile.
    InvalidPattern,
}

/// `a` starts and ends no later than `b`.
pub open spec fn span_le(a: Span, b: Span) -> bool {
    a.0 <= b.0 && a.1 <= b.1
}

/// The table is non-decreasing in both endpoints.
pub open spec fn monotone(al: Seq<Span>) -> bool {
    forall|i: int, j: int| #![trigger al[i], al[j]] 0 <= i <= j < al.len() ==> span_le(al[i], al[j])
}

/// Every span is ordered and lies within `[0, n]`.
pub open spec fn spans_within(al: Seq<Span>, n: nat) -> bool {
    forall|i: int| #![trigger al[i]] 0 <= i < al.len() ==> al[i].0 <= al[i].1 <= n
}

/// The mathematical content of a buffer.
pub struct NormalizedView {
    pub original: Seq<char>,
    pub normalized: Seq<char>,
    pub alignments: Seq<Span>,
    pub shift: nat,
}

impl NormalizedView {
    pub open spec fn wf(self) -> bool {
        &&& self.normalized.len() == self.alignments.len()
        &&& monotone(self.alignments)
        &&& spans_within(self.alignments, self.original.len())
        &&& self.shift + self.original.len() <= usize::MAX
    }
}

/// Where an empty slice starting at current position `s` is anchored in the original.
pub open spec fn slice_lo(v: NormalizedView, s: int, e: int) -> int {
    if s < v.alignments.len() {
        v.alignments[s].0 as int
    } else {
        v.original.len() as int
    }
}

/// Original end of the slice `[s, e)`.
pub open spec fn slice_hi(v: NormalizedView, s: int, e: int) -> int {
    if s < e {
        v.alignments[e - 1].1 as int
    } else {
        slice_lo(v, s, e)
    }
}

/// The buffer carved out of `v` by the current range `[s, e)`: its original
/// text is the original span that the range covers, its table is re-based on
/// that span, and its shift records where the span starts.
pub open spec fn slice_view(v: NormalizedView, s: int, e: int) -> NormalizedView {
    let lo = slice_lo(v, s, e);
    let hi = slice_hi(v, s, e);
    NormalizedView {
        original: v.original.subrange(lo, hi),
        normalized: v.normalized.subrange(s, e),
        alignments: v.alignments.subrange(s, e).map_values(|p: Span| ((p.0 - lo) as usize, (p.1 - lo) as usize)),
        shift: v.shift + lo as nat,
    }
}

/// The span that text inserted before a table takes: empty, at the first span's start.
pub open spec fn front_edge(al: Seq<Span>) -> Span {
    if al.len() > 0 { (al[0].0, al[0].0) } else { (0, 0) }
}

/// The span that text inserted after a table takes: empty, at the last span's end.
pub open spec fn back_edge(al: Seq<Span>) -> Span {
    if al.len() > 0 { (al.last().1, al.last().1) } else { (0, 0) }
}

/// The identity table of a text of `n` characters: character `i` comes from `[i, i + 1)`.
pub open spec fn identity_alignments(n: nat) -> Seq<Span> {
    Seq::new(n, |i: int| (i as usize, (i + 1) as usize))
}

/// One step of a rewrite: the state is (success, cursor, table built so far).
/// A zero step repeats the previous span (fan-out); otherwise, or for the
/// first output, the cursor advances by `d` into the old table.
pub open spec fn rewrite_step(old: Seq<Span>, acc: (bool, int, Seq<Span>), d: isize) -> (bool, int, Seq<Span>) {
    if !acc.0 {
        acc
    } else if d == 0 && acc.2.len() > 0 {
        (true, acc.1, acc.2.push(acc.2.last()))
    } else if d >= 0 && 0 <= acc.1 + d < old.len() {
        (true, acc.1 + d, acc.2.push(old[acc.1 + d]))
    } else {
        (false, acc.1, acc.2)
    }
}

/// The result of running `rw` over the table `old` from cursor `start`.
pub open spec fn rewrite_run(old: Seq<Span>, rw: Seq<(char, isize)>, start: int) -> (bool, int, Seq<Span>)
    decreases rw.len(),
{
    if rw.len() == 0 {
        (true, start, Seq::empty())
    } else {
        rewrite_step(old, rewrite_run(old, rw.drop_last(), start), rw.last().1)
    }
}

/// The characters that a rewrite emits.
pub open spec fn rewrite_chars(rw: Seq<(char, isize)>) -> Seq<char> {
    rw.map_values(|p: (char, isize)| p.0)
}

/// Positions of `s` whose character satisfies `keep`, in increasing order.
pub open spec fn kept_positions(s: Seq<char>, keep: spec_fn(char) -> bool) -> Seq<int>
    decreases s.len(),
{
    if s.len() == 0 {
        Seq::empty()
    } else if keep(s.last()) {
        kept_positions(s.drop_last(), keep).push(s.len() - 1)
    } else {
        kept_positions(s.drop_last(), keep)
    }
}

/// Number of spans of `al` whose start (or, when `by_end`, end) is at most `k`.
pub open spec fn count_at_most(al: Seq<Span>, k: int, by_end: bool) -> nat
    decreases al.len(),
{
    if al.len() == 0 {
        0
    } else {
        count_at_most(al.drop_last(), k, by_end) + if (if by_end { al.last().1 } else { al.last().0 }) <= k { 1nat } else { 0nat }
    }
}

/// The current characters that original character `k` maps to: those
/// ending at or before it are behind, those starting at or before it are
/// reached.
pub open spec fn inverse_entry(al: Seq<Span>, k: int) -> Span {
    (count_at_most(al, k, true) as usize, count_at_most(al, k, false) as usize)
}

/// Number of spans of `al` that start before `k`.
pub open spec fn count_before(al: Seq<Span>, k: int) -> nat
    decreases al.len(),
{
    if al.len() == 0 {
        0
    } else {
        count_before(al.drop_last(), k) + if (al.last().0 as int) < k { 1nat } else { 0nat }
    }
}

/// The current range that the original range `[start, end)` reaches: from
/// the first character whose span ends after `start` to the last one whose
/// span starts before `end`.
pub open spec fn original_range_to_current(al: Seq<Span>, start: int, end: int) -> (int, int) {
    let lo = count_at_most(al, start, true) as int;
    let hi = count_before(al, end) as int;
    (lo, if hi < lo { lo } else { hi })
}

/// The inverse table of the first `k` original characters, one entry per byte.
pub open spec fn inverse_per_byte(orig: Seq<char>, al: Seq<Span>, k: int) -> Seq<Span>
    decreases k,
{
    if k <= 0 {
        Seq::empty()
    } else {
        inverse_per_byte(orig, al, k - 1) + Seq::new(utf8_len(orig[k - 1]), |j: int| inverse_entry(al, k - 1))
    }
}

/// An alignment buffer.
pub struct NormalizedString {
    original: Vec<char>,
    normalized: Vec<char>,
    alignments: Vec<Span>,
    original_shift: usize,
}

impl View for NormalizedString {
    type V = NormalizedView;

    closed spec fn view(&self) -> NormalizedView {
        NormalizedView {
            original: self.original@,
            normalized: self.normalized@,
            alignments: self.alignments@,
            shift: self.original_shift as nat,
        }
    }
}

fn identity_table(n: usize) -> (r: Vec<Span>)
    requires
        n < usize::MAX,
    ensures
        r@ == identity_alignments(n as nat),
{
    let mut r: Vec<Span> = Vec::new();
    let mut i: usize = 0;
    while i < n
        invariant
            i <= n < usize::MAX,
            r@ =~= identity_alignments(i as nat),
        decreases n - i,
    {
        r.push((i, i + 1));
        i = i + 1;
    }
    r
}

fn copy_spans(v: &Vec<Span>) -> (r: Vec<Span>)
    ensures
        r@ == v@,
{
    let mut r: Vec<Span> = Vec::new();
    let mut i: usize = 0;
    while i < v.len()
        invariant
            i <= v.len(),
            r@ =~= v@.take(i as int),
        decreases v.len() - i,
    {
        r.push(v[i]);
        i = i + 1;
    }
    assert(v@.take(v.len() as int) =~= v@);
    r
}

pub proof fn lemma_identity_wf(n: nat)
    requires
        n < usize::MAX,
    ensures
        monotone(identity_alignments(n)),
        spans_within(identity_alignments(n), n),
{
}

impl NormalizedString {
    /// A buffer whose current text is `s`, aligned one to one with itself.
    pub fn from(s: String) -> (r: Self)
        ensures
            r@.wf(),
            r@.original == s@,
            r@.normalized == s@,
            r@.alignments == identity_alignments(s@.len()),
            r@.shift == 0,
            r@.alignments.len() == s@.len(),
    {
        let chars = chars_of(s.as_str());
        proof {
            lemma_byte_len_count(chars@);
            lemma_identity_wf(chars@.len());
        }
        let al = identity_table(chars.len());
        let normalized = chars.clone();
        NormalizedString { original: chars, normalized, alignments: al, original_shift: 0 }
    }

    /// An independent copy of the buffer.
    pub fn copy(&self) -> (r: Self)
        ensures
            r@ == self@,
    {
        NormalizedString {
            original: self.original.clone(),
            normalized: self.normalized.clone(),
            alignments: copy_spans(&self.alignments),
            original_shift: self.original_shift,
        }
    }

    /// The current text.
    pub fn get(&self) -> (r: String)
        ensures
            r@ == self@.normalized,
    {
        string_of(&self.normalized)
    }

    /// The original text.
    pub fn get_original(&self) -> (r: String)
        ensures
            r@ == self@.original,
    {
        string_of(&self.original)
    }

    /// Number of current characters.
    pub fn len(&self) -> (r: usize)
        ensures
            r == self@.normalized.len(),
    {
        self.normalized.len()
    }

    /// Number of original characters.
    pub fn len_original(&self) -> (r: usize)
        ensures
            r == self@.original.len(),
    {
        self.original.len()
    }

    /// True when the current text is empty.
    pub fn is_empty(&self) -> (r: bool)
        ensures
            r == (self@.normalized.len() == 0),
    {
        self.normalized.len() == 0
    }

    /// Offset of this buffer's original text within the text it was carved from.
    pub fn original_shift(&self) -> (r: usize)
        ensures
            r == self@.shift,
    {
        self.original_shift
    }

    /// The alignment table, in original characters.
    pub fn alignments(&self) -> (r: Vec<Span>)
        ensures
            r@ == self@.alignments,
    {
        copy_spans(&self.alignments)
    }

    /// Replaces each current character `c` by `f(c)`; the table is unchanged.
    pub fn map<F: Fn(char) -> char>(&mut self, f: F, Ghost(g): Ghost<spec_fn(char) -> char>)
        requires
            old(self)@.wf(),
            forall|c: char| f.requires((c,)),
            forall|c: char, d: char| f.ensures((c,), d) ==> d == g(c),
        ensures
            final(self)@.wf(),
            final(self)@ == (NormalizedView {
                original: old(self)@.original,
                normalized: old(self)@.normalized.map_values(g),
                alignments: old(self)@.alignments,
                shift: old(self)@.shift,
            }),
    {
        let ghost old_n = self.normalized@;
        let mut out: Vec<char> = Vec::new();
        let mut i: usize = 0;
        while i < self.normalized.len()
            invariant
                i <= self.normalized.len(),
                self.normalized@ == old_n,
                forall|c: char| f.requires((c,)),
                forall|c: char, d: char| f.ensures((c,), d) ==> d == g(c),
                out@ =~= old_n.take(i as int).map_values(g),
            decreases self.normalized.len() - i,
        {
            let c = f(self.normalized[i]);
            out.push(c);
            i = i + 1;
        }
        assert(old_n.take(old_n.len() as int) =~= old_n);
        self.normalized = out;
    }

    /// Removes every current character on which `keep` is false, together
    /// with its entry of the table; nothing else moves.
    pub fn filter<F: Fn(char) -> bool>(&mut self, keep: F, Ghost(k): Ghost<spec_fn(char) -> bool>)
        requires
            old(self)@.wf(),
            forall|c: char| keep.requires((c,)),
            forall|c: char, b: bool| keep.ensures((c,), b) ==> b == k(c),
        ensures
            final(self)@.wf(),
            final(self)@ == (NormalizedView {
                original: old(self)@.original,
                normalized: kept_positions(old(self)@.normalized, k).map_values(|j: int| old(self)@.normalized[j]),
                alignments: kept_positions(old(self)@.normalized, k).map_values(|j: int| old(self)@.alignments[j]),
                shift: old(self)@.shift,
            }),
    {
        let ghost old_n = self.normalized@;
        let ghost old_al = self.alignments@;
        let mut chars: Vec<char> = Vec::new();
        let mut al: Vec<Span> = Vec::new();
        let mut i: usize = 0;
        while i < self.normalized.len()
            invariant
                self@ == old(self)@,
                self@.wf(),
                old_n == self.normalized@,
                old_al == self.alignments@,
                i <= old_n.len(),
                forall|c: char| keep.requires((c,)),
                forall|c: char, b: bool| keep.ensures((c,), b) ==> b == k(c),
                chars@ =~= kept_positions(old_n.take(i as int), k).map_values(|j: int| old_n[j]),
                al@ =~= kept_positions(old_n.take(i as int), k).map_values(|j: int| old_al[j]),
                forall|a: int| #![trigger kept_positions(old_n.take(i as int), k)[a]]
                    0 <= a < kept_positions(old_n.take(i as int), k).len() ==> 0 <= kept_positions(old_n.take(i as int), k)[a] < i,
                forall|a: int, b: int| #![trigger kept_positions(old_n.take(i as int), k)[a], kept_positions(old_n.take(i as int), k)[b]]
                    0 <= a < b < kept_positions(old_n.take(i as int), k).len() ==> kept_positions(old_n.take(i as int), k)[a] < kept_positions(old_n.take(i as int), k)[b],
            decreases old_n.len() - i,
        {
            let ghost kp = kept_positions(old_n.take(i as int), k);
            assert(old_n.take(i + 1).drop_last() =~= old_n.take(i as int));
            assert(old_n.take(i + 1).last() == old_n[i as int]);
            let c = self.normalized[i];
            let b = keep(c);
            if b {
                chars.push(c);
                al.push(self.alignments[i]);
                assert(kept_positions(old_n.take(i + 1), k) == kp.push(i as int));
            } else {
                assert(kept_positions(old_n.take(i + 1), k) == kp);
            }
            i = i + 1;
        }
        assert(old_n.take(old_n.len() as int) =~= old_n);
        let ghost kp = kept_positions(old_n, k);
        assert forall|a: int, b: int| #![trigger al@[a], al@[b]] 0 <= a <= b < al@.len() implies span_le(al@[a], al@[b]) by {
            if a < b {
                assert(kp[a] < kp[b]);
            }
            assert(span_le(old_al[kp[a]], old_al[kp[b]]));
        }
        assert forall|a: int| #![trigger al@[a]] 0 <= a < al@.len() implies al@[a].0 <= al@[a].1 <= old(self)@.original.len() by {
            assert(0 <= kp[a] < old_al.len());
        }
        self.normalized = chars;
        self.alignments = al;
    }

    /// The buffer carved out by the current-character range `[start, end)`.
    pub fn slice(&self, start: usize, end: usize) -> (r: Result<NormalizedString, NormError>)
        requires
            self@.wf(),
        ensures
            start <= end <= self@.normalized.len() ==> r is Ok,
            r is Ok ==> start <= end <= self@.normalized.len() && r->Ok_0@ == slice_view(self@, start as int, end as int) && r->Ok_0@.wf(),
            r is Ok ==> r->Ok_0@.shift + r->Ok_0@.original.len() <= self@.shift + self@.original.len(),
            r is Err ==> r == Err::<NormalizedString, NormError>(NormError::OutOfBounds),
    {
        if start > end || end > self.normalized.len() {
            return Err(NormError::OutOfBounds);
        }
        let ghost v = self@;
        let lo: usize = if start < self.alignments.len() { self.alignments[start].0 } else { self.original.len() };
        let hi: usize = if start < end { self.alignments[end - 1].1 } else { lo };
        assert(lo == slice_lo(v, start as int, end as int));
        assert(hi == slice_hi(v, start as int, end as int));
        proof {
            if start < end {
                assert(span_le(self.alignments@[start as int], self.alignments@[end - 1]));
            }
        }
        let mut original: Vec<char> = Vec::new();
        let mut k: usize = lo;
        while k < hi
            invariant
                lo <= k <= hi <= self.original@.len(),
                original@ =~= self.original@.subrange(lo as int, k as int),
            decreases hi - k,
        {
            original.push(self.original[k]);
            k = k + 1;
        }
        let mut normalized: Vec<char> = Vec::new();
        let mut al: Vec<Span> = Vec::new();
        let mut i: usize = start;
        while i < end
            invariant
                self@ == v,
                v.wf(),
                start <= i <= end <= v.normalized.len(),
                lo == slice_lo(v, start as int, end as int),
                hi == slice_hi(v, start as int, end as int),
                start < end ==> lo == v.alignments[start as int].0 && hi == v.alignments[end - 1].1,
                normalized@ =~= v.normalized.subrange(start as int, i as int),
                al@ =~= v.alignments.subrange(start as int, i as int).map_values(|p: Span| ((p.0 - lo) as usize, (p.1 - lo) as usize)),
            decreases end - i,
        {
            let p = self.alignments[i];
            assert(span_le(v.alignments[start as int], p));
            assert(span_le(p, v.alignments[end - 1]));
            normalized.push(self.normalized[i]);
            al.push((p.0 - lo, p.1 - lo));
            i = i + 1;
        }
        let r = NormalizedString { original, normalized, alignments: al, original_shift: self.original_shift + lo };
        proof {
            let rv = r@;
            assert(rv == slice_view(v, start as int, end as int));
            assert forall|a: int, b: int| #![trigger rv.alignments[a], rv.alignments[b]] 0 <= a <= b < rv.alignments.len() implies span_le(rv.alignments[a], rv.alignments[b]) by {
                assert(span_le(v.alignments[start + a], v.alignments[start + b]));
            }
            assert forall|a: int| #![trigger rv.alignments[a]] 0 <= a < rv.alignments.len() implies rv.alignments[a].0 <= rv.alignments[a].1 <= rv.original.len() by {
                assert(span_le(v.alignments[start as int], v.alignments[start + a]));
                assert(span_le(v.alignments[start + a], v.alignments[end - 1]));
                assert(v.alignments[start + a].0 <= v.alignments[start + a].1);
            }
        }
        Ok(r)
    }

    /// Inserts `s` before the current text; the inserted characters take an
    /// empty span at the start of the first real span.
    pub fn prepend(&mut self, s: &str)
        requires
            old(self)@.wf(),
        ensures
            final(self)@.wf(),
            final(self)@ == (NormalizedView {
                original: old(self)@.original,
                normalized: s@ + old(self)@.normalized,
                alignments: Seq::new(s@.len(), |i: int| front_edge(old(self)@.alignments)) + old(self)@.alignments,
                shift: old(self)@.shift,
            }),
    {
        let ghost v = self@;
        let t = chars_of(s);
        let edge: Span = if self.alignments.len() > 0 { (self.alignments[0].0, self.alignments[0].0) } else { (0, 0) };
        let mut normalized: Vec<char> = Vec::new();
        let mut al: Vec<Span> = Vec::new();
        let mut i: usize = 0;
        while i < t.len()
            invariant
                i <= t@.len(),
                normalized@ =~= t@.take(i as int),
                al@ =~= Seq::new(i as nat, |j: int| front_edge(v.alignments)),
                edge == front_edge(v.alignments),
            decreases t.len() - i,
        {
            normalized.push(t[i]);
            al.push(edge);
            i = i + 1;
        }
        let mut j: usize = 0;
        while j < self.normalized.len()
            invariant
                self@ == v,
                v.wf(),
                j <= v.normalized.len(),
                normalized@ =~= t@ + v.normalized.take(j as int),
                al@ =~= Seq::new(t@.len(), |j: int| front_edge(v.alignments)) + v.alignments.take(j as int),
            decreases v.normalized.len() - j,
        {
            normalized.push(self.normalized[j]);
            al.push(self.alignments[j]);
            j = j + 1;
        }
        assert(v.normalized.take(v.normalized.len() as int) =~= v.normalized);
        assert(v.alignments.take(v.alignments.len() as int) =~= v.alignments);
        self.normalized = normalized;
        self.alignments = al;
        proof {
            let n = t@.len() as int;
            let nal = self@.alignments;
            assert forall|a: int, b: int| #![trigger nal[a], nal[b]] 0 <= a <= b < nal.len() implies span_le(nal[a], nal[b]) by {
                if a < n && b >= n {
                    assert(span_le(v.alignments[0], v.alignments[b - n]));
                    assert(v.alignments[0].0 <= v.alignments[0].1);
                }
            }
            assert forall|a: int| #![trigger nal[a]] 0 <= a < nal.len() implies nal[a].0 <= nal[a].1 <= v.original.len() by {
                if a < n && v.alignments.len() > 0 {
                    assert(v.alignments[0].0 <= v.alignments[0].1);
                }
            }
        }
    }

    /// Inserts `s` after the current text; the inserted characters take an
    /// empty span at the end of the last real span.
    pub fn append(&mut self, s: &str)
        requires
            old(self)@.wf(),
        ensures
            final(self)@.wf(),
            final(self)@ == (NormalizedView {
                original: old(self)@.original,
                normalized: old(self)@.normalized + s@,
                alignments: old(self)@.alignments + Seq::new(s@.len(), |i: int| back_edge(old(self)@.alignments)),
                shift: old(self)@.shift,
            }),
    {
        let ghost v = self@;
        let t = chars_of(s);
        let n = self.alignments.len();
        let edge: Span = if n > 0 { (self.alignments[n - 1].1, self.alignments[n - 1].1) } else { (0, 0) };
        let mut i: usize = 0;
        while i < t.len()
            invariant
                i <= t@.len(),
                v.wf(),
                edge == back_edge(v.alignments),
                self@.original == v.original,
                self@.shift == v.shift,
                self@.normalized =~= v.normalized + t@.take(i as int),
                self@.alignments =~= v.alignments + Seq::new(i as nat, |j: int| back_edge(v.alignments)),
            decreases t.len() - i,
        {
            self.normalized.push(t[i]);
            self.alignments.push(edge);
            i = i + 1;
        }
        assert(t@.take(t@.len() as int) =~= t@);
        proof {
            let m = v.alignments.len() as int;
            let nal = self@.alignments;
            assert forall|a: int, b: int| #![trigger nal[a], nal[b]] 0 <= a <= b < nal.len() implies span_le(nal[a], nal[b]) by {
                if a < m && b >= m {
                    assert(span_le(v.alignments[a], v.alignments[m - 1]));
                    assert(v.alignments[a].0 <= v.alignments[a].1);
                }
            }
            assert forall|a: int| #![trigger nal[a]] 0 <= a < nal.len() implies nal[a].0 <= nal[a].1 <= v.original.len() by {
                if a >= m && m > 0 {
                    assert(v.alignments[m - 1].0 <= v.alignments[m - 1].1);
                }
            }
        }
    }

    /// The current text of the current-character range `[start, end)`.
    pub fn get_range(&self, start: usize, end: usize) -> (r: Result<String, NormError>)
        requires
            self@.wf(),
        ensures
            start <= end <= self@.normalized.len() ==> r is Ok && r->Ok_0@ == self@.normalized.subrange(start as int, end as int),
            !(start <= end <= self@.normalized.len()) ==> r == Err::<String, NormError>(NormError::OutOfBounds),
    {
        if start > end || end > self.normalized.len() {
            return Err(NormError::OutOfBounds);
        }
        let mut out = String::new();
        let mut i: usize = start;
        while i < end
            invariant
                start <= i <= end <= self@.normalized.len(),
                out@ =~= self@.normalized.subrange(start as int, i as int),
            decreases end - i,
        {
            crate::text::push_char(&mut out, self.normalized[i]);
            i = i + 1;
        }
        Ok(out)
    }

    /// The current text derived from the original-character range
    /// `[start, end)`.
    pub fn get_range_original(&self, start: usize, end: usize) -> (r: Result<String, NormError>)
        requires
            self@.wf(),
        ensures
            start <= end <= self@.original.len() ==> r is Ok && r->Ok_0@ == self@.normalized.subrange(
                original_range_to_current(self@.alignments, start as int, end as int).0,
                original_range_to_current(self@.alignments, start as int, end as int).1),
            !(start <= end <= self@.original.len()) ==> r == Err::<String, NormError>(NormError::OutOfBounds),
    {
        if start > end || end > self.original.len() {
            return Err(NormError::OutOfBounds);
        }
        let mut lo: usize = 0;
        let mut hi: usize = 0;
        let mut i: usize = 0;
        while i < self.alignments.len()
            invariant
                i <= self@.alignments.len(),
                lo <= i && hi <= i,
                lo == count_at_most(self@.alignments.take(i as int), start as int, true),
                hi == count_before(self@.alignments.take(i as int), end as int),
            decreases self@.alignments.len() - i,
        {
            assert(self@.alignments.take(i + 1).drop_last() =~= self@.alignments.take(i as int));
            let (a, b) = self.alignments[i];
            if b <= start {
                lo = lo + 1;
            }
            if a < end {
                hi = hi + 1;
            }
            i = i + 1;
        }
        assert(self@.alignments.take(self@.alignments.len() as int) =~= self@.alignments);
        let hi = if hi < lo { lo } else { hi };
        self.get_range(lo, hi)
    }

    /// The alignment table with each span given in bytes of the original text.
    pub fn alignments_in_bytes(&self) -> (r: Vec<Span>)
        requires
            self@.wf(),
            byte_len(self@.original) <= usize::MAX,
        ensures
            r@.len() == self@.alignments.len(),
            forall|i: int| #![trigger r@[i]] 0 <= i < r@.len() ==> r@[i] == (
                byte_offset(self@.original, self@.alignments[i].0 as int) as usize,
                byte_offset(self@.original, self@.alignments[i].1 as int) as usize,
            ),
    {
        let offs = crate::text::byte_offsets(&self.original);
        let mut r: Vec<Span> = Vec::new();
        let mut i: usize = 0;
        while i < self.alignments.len()
            invariant
                self@.wf(),
                i <= self@.alignments.len(),
                offs@.len() == self@.original.len() + 1,
                forall|k: int| #![trigger offs@[k]] 0 <= k <= self@.original.len() ==> offs@[k] == byte_offset(self@.original, k),
                r@.len() == i,
                forall|j: int| #![trigger r@[j]] 0 <= j < i ==> r@[j] == (
                    byte_offset(self@.original, self@.alignments[j].0 as int) as usize,
                    byte_offset(self@.original, self@.alignments[j].1 as int) as usize,
                ),
            decreases self@.alignments.len() - i,
        {
            let (a, b) = self.alignments[i];
            assert(self@.alignments[i as int] == (a, b));
            r.push((offs[a], offs[b]));
            i = i + 1;
        }
        r
    }

    /// The inverse table: for each byte of the original text, the span of
    /// current characters derived from the original character holding it.
    pub fn alignments_original(&self) -> (r: Vec<Span>)
        requires
            self@.wf(),
        ensures
            r@ == inverse_per_byte(self@.original, self@.alignments, self@.original.len() as int),
    {
        let mut r: Vec<Span> = Vec::new();
        let mut k: usize = 0;
        while k < self.original.len()
            invariant
                k <= self@.original.len(),
                self@.wf(),
                r@ == inverse_per_byte(self@.original, self@.alignments, k as int),
            decreases self@.original.len() - k,
        {
            let mut behind: usize = 0;
            let mut reached: usize = 0;
            let mut i: usize = 0;
            while i < self.alignments.len()
                invariant
                    i <= self@.alignments.len(),
                    behind <= i && reached <= i,
                    behind == count_at_most(self@.alignments.take(i as int), k as int, true),
                    reached == count_at_most(self@.alignments.take(i as int), k as int, false),
                decreases self@.alignments.len() - i,
            {
                assert(self@.alignments.take(i + 1).drop_last() =~= self@.alignments.take(i as int));
                let (a, b) = self.alignments[i];
                if b <= k {
                    behind = behind + 1;
                }
                if a <= k {
                    reached = reached + 1;
                }
                i = i + 1;
            }
            assert(self@.alignments.take(self@.alignments.len() as int) =~= self@.alignments);
            let ghost base = r@;
            let w = char_len(self.original[k]);
            let mut j: usize = 0;
            while j < w
                invariant
                    j <= w,
                    w == utf8_len(self@.original[k as int]),
                    r@ =~= base + Seq::new(j as nat, |x: int| inverse_entry(self@.alignments, k as int)),
                    (behind, reached) == inverse_entry(self@.alignments, k as int),
                decreases w - j,
            {
                r.push((behind, reached));
                j = j + 1;
            }
            k = k + 1;
        }
        r
    }

    /// The general rewrite. Each `(c, d)` emits `c`; its span is the previous
    /// output's span when `d == 0` (fan-out), otherwise the span found after
    /// advancing the cursor by `d` in the table as it stood before the call.
    /// The first output takes the span under the cursor, which starts at `start`.
    pub fn transform(&mut self, rewrites: &Vec<(char, isize)>, start: usize) -> (r: Result<(), NormError>)
        requires
            old(self)@.wf(),
        ensures
            final(self)@.wf(),
            rewrite_run(old(self)@.alignments, rewrites@, start as int).0 ==> r is Ok && final(self)@ == (NormalizedView {
                original: old(self)@.original,
                normalized: rewrite_chars(rewrites@),
                alignments: rewrite_run(old(self)@.alignments, rewrites@, start as int).2,
                shift: old(self)@.shift,
            }),
            !rewrite_run(old(self)@.alignments, rewrites@, start as int).0 ==> r == Err::<(), NormError>(NormError::InvalidRewrite) && final(self)@ == old(self)@,
    {
        let ghost old_al = self.alignments@;
        let ghost rw = rewrites@;
        let n = self.alignments.len();
        let mut al: Vec<Span> = Vec::new();
        let mut chars: Vec<char> = Vec::new();
        let mut c: usize = start;
        let mut i: usize = 0;
        while i < rewrites.len()
            invariant
                self@ == old(self)@,
                old_al == self.alignments@,
                n == old_al.len(),
                rw == rewrites@,
                self@.wf(),
                i <= rw.len(),
                rewrite_run(old_al, rw.take(i as int), start as int) == (true, c as int, al@),
                chars@ =~= rewrite_chars(rw.take(i as int)),
                al@.len() == i,
                al@.len() > 0 ==> c < n && al@.last() == old_al[c as int],
                forall|j: int| #![trigger al@[j]] 0 <= j < al@.len() ==> span_le(al@[j], old_al[c as int]),
                monotone(al@),
                spans_within(al@, self@.original.len()),
            decreases rw.len() - i,
        {
            let (ch, d) = rewrites[i];
            assert(rw.take(i + 1).drop_last() =~= rw.take(i as int));
            assert(rw.take(i + 1).last() == rw[i as int]);
            if d == 0 && al.len() > 0 {
                let last = al[al.len() - 1];
                al.push(last);
            } else if d >= 0 && c < n && (d as usize) < n - c {
                let nc = c + d as usize;
                proof {
                    if al@.len() > 0 {
                        assert(span_le(old_al[c as int], old_al[nc as int]));
                    }
                }
                al.push(self.alignments[nc]);
                c = nc;
            } else {
                proof {
                    lemma_rewrite_failed_stays(old_al, rw, start as int, i as int + 1);
                }
                return Err(NormError::InvalidRewrite);
            }
            chars.push(ch);
            i = i + 1;
        }
        assert(rw.take(rw.len() as int) =~= rw);
        self.normalized = chars;
        self.alignments = al;
        Ok(())
    }
}

/// Once a rewrite has failed it stays failed.
proof fn lemma_rewrite_failed_stays(old: Seq<Span>, rw: Seq<(char, isize)>, start: int, k: int)
    requires
        0 <= k <= rw.len(),
        !rewrite_run(old, rw.take(k), start).0,
    ensures
        !rewrite_run(old, rw, start).0,
    decreases rw.len() - k,
{
    if k < rw.len() {
        assert(rw.take(k + 1).drop_last() =~= rw.take(k));
        lemma_rewrite_failed_stays(old, rw, start, k + 1);
    } else {
        assert(rw.take(k) =~= rw);
    }
}

proof fn lemma_byte_len_count(s: Seq<char>)
    ensures
        s.len() <= byte_len(s),
    decreases s.len(),
{
    if s.len() > 0 {
        lemma_byte_len_count(s.drop_last());
    }
}

} // verus!
