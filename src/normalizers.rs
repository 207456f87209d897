//! Rewrite strategies: Unicode forms, transliteration to ASCII, and the
//! control-character cleanup used for machine translation.
use vstd::prelude::*;
use any_ascii::any_ascii_char;
use crate::normalizer::{rewrite_step, NormalizedString, NormalizedView, NormError, Span, rewrite_run, rewrite_chars, kept_positions};
use crate::pattern::{regex_valid, regex_byte_matches, regex_compiles, regex_find, all_on_boundary, char_spans, to_char_spans};
use crate::unicode::{canonical_result, nfd_tagged, nfkd_tagged, nfc_tagged, nfkc_tagged};
use crate::text::chars_of;

verus! {

/// Canonical decomposition.
#[derive(Debug, Clone, Copy, PartialEq, Eq, Structural)]
pub struct NFD;

impl NFD {
    pub fn normalize(&self, n: &mut NormalizedString) -> (r: Result<(), NormError>)
        requires
            old(n)@.wf(),
        ensures
            final(n)@.wf(),
            canonical_result(old(n)@, nfd_tagged(old(n)@.normalized)) is Some ==> r is Ok
                && final(n)@ == canonical_result(old(n)@, nfd_tagged(old(n)@.normalized))->Some_0,
            canonical_result(old(n)@, nfd_tagged(old(n)@.normalized)) is None ==> r == Err::<(), NormError>(NormError::InvalidRewrite) && final(n)@ == old(n)@,
    {
        n.nfd()
    }
}

/// Compatibility decomposition.
#[derive(Debug, Clone, Copy, PartialEq, Eq, Structural)]
pub struct NFKD;

impl NFKD {
    pub fn normalize(&self, n: &mut NormalizedString) -> (r: Result<(), NormError>)
        requires
            old(n)@.wf(),
        ensures
            final(n)@.wf(),
            canonical_result(old(n)@, nfkd_tagged(old(n)@.normalized)) is Some ==> r is Ok
                && final(n)@ == canonical_result(old(n)@, nfkd_tagged(old(n)@.normalized))->Some_0,
            canonical_result(old(n)@, nfkd_tagged(old(n)@.normalized)) is None ==> r == Err::<(), NormError>(NormError::InvalidRewrite) && final(n)@ == old(n)@,
    {
        n.nfkd()
    }
}

/// Canonical composition.
#[derive(Debug, Clone, Copy, PartialEq, Eq, Structural)]
pub struct NFC;

impl NFC {
    pub fn normalize(&self, n: &mut NormalizedString) -> (r: Result<(), NormError>)
        requires
            old(n)@.wf(),
        ensures
            final(n)@.wf(),
            canonical_result(old(n)@, nfc_tagged(old(n)@.normalized)) is Some ==> r is Ok
                && final(n)@ == canonical_result(old(n)@, nfc_tagged(old(n)@.normalized))->Some_0,
            canonical_result(old(n)@, nfc_tagged(old(n)@.normalized)) is None ==> r == Err::<(), NormError>(NormError::InvalidRewrite) && final(n)@ == old(n)@,
    {
        n.nfc()
    }
}

/// Compatibility composition.
#[derive(Debug, Clone, Copy, PartialEq, Eq, Structural)]
pub struct NFKC;

impl NFKC {
    pub fn normalize(&self, n: &mut NormalizedString) -> (r: Result<(), NormError>)
        requires
            old(n)@.wf(),
        ensures
            final(n)@.wf(),
            canonical_result(old(n)@, nfkc_tagged(old(n)@.normalized)) is Some ==> r is Ok
                && final(n)@ == canonical_result(old(n)@, nfkc_tagged(old(n)@.normalized))->Some_0,
            canonical_result(old(n)@, nfkc_tagged(old(n)@.normalized)) is None ==> r == Err::<(), NormError>(NormError::InvalidRewrite) && final(n)@ == old(n)@,
    {
        n.nfkc()
    }
}

/// ASCII control characters that the cleanup removes.
pub open spec fn nmt_removed(c: char) -> bool {
    let v = c as u32;
    (0x1 <= v <= 0x8) || v == 0xB || (0xE <= v <= 0x1F) || v == 0x7F || v == 0x8F || v == 0x9F
}

/// Code points that the cleanup turns into a plain space.
pub open spec fn nmt_mapped(c: char) -> char {
    let v = c as u32;
    if v == 0x9 || v == 0xA || v == 0xC || v == 0xD || v == 0x1680 || (0x200B <= v <= 0x200F) || v == 0x2028
        || v == 0x2029 || v == 0x2581 || v == 0xFEFF || v == 0xFFFD {
        ' '
    } else {
        c
    }
}

fn nmt_keeps(c: char) -> (r: bool)
    ensures
        r == !nmt_removed(c),
{
    let v = c as u32;
    !((0x1 <= v && v <= 0x8) || v == 0xB || (0xE <= v && v <= 0x1F) || v == 0x7F || v == 0x8F || v == 0x9F)
}

fn nmt_space(c: char) -> (r: char)
    ensures
        r == nmt_mapped(c),
{
    let v = c as u32;
    if v == 0x9 || v == 0xA || v == 0xC || v == 0xD || v == 0x1680 || (0x200B <= v && v <= 0x200F) || v == 0x2028
        || v == 0x2029 || v == 0x2581 || v == 0xFEFF || v == 0xFFFD {
        ' '
    } else {
        c
    }
}

/// Removes ASCII control characters, then turns other whitespace-like code
/// points into plain spaces.
pub fn do_nmt(n: &mut NormalizedString)
    requires
        old(n)@.wf(),
    ensures
        final(n)@.wf(),
        final(n)@ == (NormalizedView {
            original: old(n)@.original,
            normalized: kept_positions(old(n)@.normalized, |c: char| !nmt_removed(c))
                .map_values(|j: int| nmt_mapped(old(n)@.normalized[j])),
            alignments: kept_positions(old(n)@.normalized, |c: char| !nmt_removed(c))
                .map_values(|j: int| old(n)@.alignments[j]),
            shift: old(n)@.shift,
        }),
{
    let ghost v = n@;
    let ghost keep = |c: char| !nmt_removed(c);
    n.filter(|c: char| -> (b: bool) ensures b == !nmt_removed(c) { nmt_keeps(c) }, Ghost(keep));
    let ghost w = n@;
    n.map(|c: char| -> (d: char) ensures d == nmt_mapped(c) { nmt_space(c) }, Ghost(|c: char| nmt_mapped(c)));
    assert(n@.normalized =~= kept_positions(v.normalized, keep).map_values(|j: int| nmt_mapped(v.normalized[j])));
}

/// The cleanup used before machine-translation tokenizers.
#[derive(Debug, Clone, Copy, PartialEq, Eq, Structural)]
pub struct Nmt;

impl Nmt {
    pub fn normalize(&self, n: &mut NormalizedString) -> (r: Result<(), NormError>)
        requires
            old(n)@.wf(),
        ensures
            r is Ok,
            final(n)@.wf(),
            final(n)@ == (NormalizedView {
                original: old(n)@.original,
                normalized: kept_positions(old(n)@.normalized, |c: char| !nmt_removed(c))
                    .map_values(|j: int| nmt_mapped(old(n)@.normalized[j])),
                alignments: kept_positions(old(n)@.normalized, |c: char| !nmt_removed(c))
                    .map_values(|j: int| old(n)@.alignments[j]),
                shift: old(n)@.shift,
            }),
    {
        do_nmt(n);
        Ok(())
    }
}

/// The ASCII transliteration that `any_ascii` gives a character.
pub uninterp spec fn ascii_of(c: char) -> Seq<char>;

/// Relies on `any_ascii::any_ascii_char`: the transliteration of one
/// character, a function of the character alone, made of ASCII characters.
#[verifier::external_body]
fn transliterate(c: char) -> (r: String)
    ensures
        r@ == ascii_of(c),
        forall|i: int| 0 <= i < r@.len() ==> (#[trigger] r@[i] as u32) < 0x80,
{
    any_ascii_char(c).to_string()
}

/// The entries of a character map, with their replacements as sequences.
pub open spec fn entries(m: Seq<(char, String)>) -> Seq<(char, Seq<char>)> {
    m.map_values(|e: (char, String)| (e.0, e.1@))
}

/// The replacement that the first entry for `c` in `m` gives, if any.
pub open spec fn lookup(m: Seq<(char, Seq<char>)>, c: char) -> Option<Seq<char>>
    decreases m.len(),
{
    if m.len() == 0 {
        None
    } else if m[0].0 == c {
        Some(m[0].1)
    } else {
        lookup(m.drop_first(), c)
    }
}

/// What a character outside the kept matches becomes.
pub open spec fn replacement(m: Seq<(char, Seq<char>)>, c: char) -> Seq<char> {
    match lookup(m, c) {
        Some(r) => r,
        None => if (c as u32) < 0x80 { seq![c] } else { ascii_of(c) },
    }
}

/// Position `i` lies in one of `spans`.
pub open spec fn covered(spans: Seq<Span>, i: int) -> bool {
    exists|k: int| 0 <= k < spans.len() && #[trigger] spans[k].0 <= i < spans[k].1
}

/// What character `i` of `t` becomes, given the kept spans.
pub open spec fn unit(m: Seq<(char, Seq<char>)>, kept: Seq<Span>, t: Seq<char>, i: int) -> Seq<char> {
    if covered(kept, i) { seq![t[i]] } else { replacement(m, t[i]) }
}

/// Cursor steps for a list of per-character replacements: (last replaced
/// position, steps). The first character of a non-empty replacement steps to
/// its source position; the others repeat its span.
pub open spec fn compile_run(us: Seq<Seq<char>>) -> (int, Seq<(char, isize)>)
    decreases us.len(),
{
    if us.len() == 0 {
        (0, Seq::empty())
    } else {
        let acc = compile_run(us.drop_last());
        let j = us.len() - 1;
        let u = us.last();
        if u.len() == 0 {
            acc
        } else {
            (j, acc.1 + seq![(u[0], (j - acc.0) as isize)] + u.drop_first().map_values(|ch: char| (ch, 0isize)))
        }
    }
}

/// The kept spans of `t` under an optional pattern: none without one, the
/// pattern's matches as character spans otherwise.
pub open spec fn kept_spans(p: Option<Seq<char>>, t: Seq<char>) -> Seq<Span> {
    match p {
        Some(p) => char_spans(t, regex_byte_matches(p, t)),
        None => Seq::empty(),
    }
}

/// The rewrite steps that transliteration makes of `t`.
pub open spec fn ascii_steps(p: Option<Seq<char>>, m: Seq<(char, Seq<char>)>, t: Seq<char>) -> Seq<(char, isize)> {
    compile_run(Seq::new(t.len(), |i: int| unit(m, kept_spans(p, t), t, i))).1
}

/// Continues a rewrite from state `acc` with the steps `b`.
pub open spec fn run_more(old: Seq<Span>, acc: (bool, int, Seq<Span>), b: Seq<(char, isize)>) -> (bool, int, Seq<Span>)
    decreases b.len(),
{
    if b.len() == 0 {
        acc
    } else {
        rewrite_step(old, run_more(old, acc, b.drop_last()), b.last().1)
    }
}

proof fn lemma_run_append(old: Seq<Span>, a: Seq<(char, isize)>, b: Seq<(char, isize)>, start: int)
    ensures
        rewrite_run(old, a + b, start) == run_more(old, rewrite_run(old, a, start), b),
    decreases b.len(),
{
    if b.len() == 0 {
        assert(a + b =~= a);
    } else {
        assert((a + b).drop_last() =~= a + b.drop_last());
        assert((a + b).last() == b.last());
        lemma_run_append(old, a, b.drop_last(), start);
    }
}

proof fn lemma_run_zeros(old: Seq<Span>, acc: (bool, int, Seq<Span>), z: Seq<(char, isize)>)
    requires
        acc.0,
        acc.2.len() > 0,
        forall|i: int| 0 <= i < z.len() ==> (#[trigger] z[i]).1 == 0,
    ensures
        run_more(old, acc, z).0,
        run_more(old, acc, z).1 == acc.1,
        run_more(old, acc, z).2.len() > 0,
    decreases z.len(),
{
    if z.len() > 0 {
        assert(forall|i: int| 0 <= i < z.drop_last().len() ==> z.drop_last()[i] == #[trigger] z[i]);
        lemma_run_zeros(old, acc, z.drop_last());
        assert(z.last() == z[z.len() - 1]);
    }
}

/// Transliteration steps over a table at least as long as the text always fit it.
proof fn lemma_compile_fits(old: Seq<Span>, us: Seq<Seq<char>>)
    requires
        us.len() <= old.len(),
        us.len() <= isize::MAX,
    ensures
        rewrite_run(old, compile_run(us).1, 0).0,
        rewrite_run(old, compile_run(us).1, 0).1 == compile_run(us).0,
        rewrite_run(old, compile_run(us).1, 0).2.len() == compile_run(us).1.len(),
        0 <= compile_run(us).0,
        compile_run(us).1.len() > 0 ==> compile_run(us).0 < us.len(),
        compile_run(us).1.len() == 0 ==> compile_run(us).0 == 0,
    decreases us.len(),
{
    if us.len() > 0 {
        let q = us.drop_last();
        lemma_compile_fits(old, q);
        let acc = compile_run(q);
        let j = us.len() - 1;
        let u = us.last();
        if u.len() > 0 {
            let first = seq![(u[0], (j - acc.0) as isize)];
            let zeros = u.drop_first().map_values(|ch: char| (ch, 0isize));
            assert(compile_run(us).1 == acc.1 + first + zeros);
            lemma_run_append(old, acc.1 + first, zeros, 0);
            lemma_run_append(old, acc.1, first, 0);
            let r0 = rewrite_run(old, acc.1, 0);
            assert(first.drop_last() =~= Seq::<(char, isize)>::empty());
            assert(run_more(old, r0, first.drop_last()) == r0);
            assert(first.last().1 == (j - acc.0) as isize);
            assert(run_more(old, r0, first) == rewrite_step(old, r0, (j - acc.0) as isize));
            let r1 = run_more(old, r0, first);
            assert(r1.0 && r1.1 == j && r1.2.len() == r0.2.len() + 1);
            lemma_run_zeros(old, r1, zeros);
            crate::laws::lemma_rewrite_prefix(old, compile_run(us).1, 0, 0);
        }
    }
}

fn lookup_exec(m: &Vec<(char, String)>, c: char) -> (r: Option<String>)
    ensures
        match lookup(entries(m@), c) {
            Some(s) => r is Some && r->Some_0@ == s,
            None => r is None,
        },
{
    let ghost e = entries(m@);
    assert(e.skip(0) =~= e);
    let mut i: usize = 0;
    while i < m.len()
        invariant
            i <= m@.len(),
            e == entries(m@),
            lookup(e, c) == lookup(e.skip(i as int), c),
        decreases m@.len() - i,
    {
        assert(e.skip(i as int).drop_first() =~= e.skip(i + 1));
        assert(e.skip(i as int)[0] == e[i as int]);
        if m[i].0 == c {
            return Some(m[i].1.clone());
        }
        i = i + 1;
    }
    assert(e.skip(i as int) =~= Seq::<(char, Seq<char>)>::empty());
    None
}

fn covered_exec(spans: &Vec<Span>, i: usize) -> (r: bool)
    ensures
        r == covered(spans@, i as int),
{
    let mut k: usize = 0;
    while k < spans.len()
        invariant
            k <= spans@.len(),
            forall|j: int| 0 <= j < k ==> !(#[trigger] spans@[j].0 <= i < spans@[j].1),
        decreases spans@.len() - k,
    {
        if spans[k].0 <= i && i < spans[k].1 {
            return true;
        }
        k = k + 1;
    }
    false
}

/// Transliterates to ASCII every character outside the matches of an
/// optional kept pattern; a character map is consulted first.
#[derive(Debug)]
pub struct AnyASCII {
    kept_pattern: Option<String>,
    char_map: Vec<(char, String)>,
}

impl AnyASCII {
    pub closed spec fn kept(&self) -> Option<Seq<char>> {
        match self.kept_pattern {
            Some(p) => Some(p@),
            None => None,
        }
    }

    pub closed spec fn map(&self) -> Seq<(char, Seq<char>)> {
        entries(self.char_map@)
    }

    /// The kept pattern, if any, compiles.
    pub open spec fn wf(&self) -> bool {
        self.kept() matches Some(p) ==> regex_valid(p)
    }

    /// Fails with `InvalidPattern` when the kept pattern does not compile.
    pub fn new(kept_pattern: Option<String>, char_map: Option<Vec<(char, String)>>) -> (r: Result<Self, NormError>)
        ensures
            (kept_pattern matches Some(p) && !regex_valid(p@)) ==> r == Err::<Self, NormError>(NormError::InvalidPattern),
            !(kept_pattern matches Some(p) && !regex_valid(p@)) ==> r is Ok && r->Ok_0.wf()
                && r->Ok_0.kept() == (match kept_pattern { Some(p) => Some(p@), None => None::<Seq<char>> })
                && r->Ok_0.map() == (match char_map { Some(m) => entries(m@), None => Seq::<(char, Seq<char>)>::empty() }),
    {
        if let Some(p) = &kept_pattern {
            if !regex_compiles(p.as_str()) {
                return Err(NormError::InvalidPattern);
            }
        }
        let char_map = match char_map {
            Some(m) => m,
            None => Vec::new(),
        };
        assert(char_map@.len() == 0 ==> entries(char_map@) =~= Seq::<(char, Seq<char>)>::empty());
        Ok(AnyASCII { kept_pattern, char_map })
    }

    /// The kept pattern's matches in `t` read as character spans, when each
    /// falls on a character boundary.
    pub open spec fn kept_ok(&self, t: Seq<char>) -> bool {
        self.kept() matches Some(p) ==> all_on_boundary(t, regex_byte_matches(p, t))
    }

    /// Transliterates the current text: characters inside the kept pattern's
    /// matches stay, the others become their map entry, themselves when
    /// ASCII, or their ASCII transliteration. Each output character is
    /// aligned with the character it replaces.
    pub fn normalize(&self, n: &mut NormalizedString) -> (r: Result<(), NormError>)
        requires
            old(n)@.wf(),
            self.wf(),
        ensures
            final(n)@.wf(),
            self.kept_ok(old(n)@.normalized),
            old(n)@.normalized.len() <= isize::MAX ==> r is Ok,
            self.kept_ok(old(n)@.normalized) && old(n)@.normalized.len() > isize::MAX ==>
                r == Err::<(), NormError>(NormError::InvalidRewrite) && final(n)@ == old(n)@,
            self.kept_ok(old(n)@.normalized) && old(n)@.normalized.len() <= isize::MAX ==> ({
                let steps = ascii_steps(self.kept(), self.map(), old(n)@.normalized);
                let run = rewrite_run(old(n)@.alignments, steps, 0);
                &&& run.0 ==> r is Ok && final(n)@ == (NormalizedView {
                    original: old(n)@.original,
                    normalized: rewrite_chars(steps),
                    alignments: run.2,
                    shift: old(n)@.shift,
                })
                &&& !run.0 ==> r == Err::<(), NormError>(NormError::InvalidRewrite) && final(n)@ == old(n)@
            }),
    {
        let text = n.get();
        let t = chars_of(text.as_str());
        let kept: Vec<Span> = match &self.kept_pattern {
            Some(p) => {
                let bm = regex_find(p.as_str(), text.as_str());
                match to_char_spans(&t, &bm) {
                    Ok(cs) => cs,
                    Err(e) => {
                        return Err(e);
                    },
                }
            },
            None => Vec::new(),
        };
        assert(kept@ == kept_spans(self.kept(), t@));
        if t.len() > isize::MAX as usize {
            return Err(NormError::InvalidRewrite);
        }
        let ghost m = self.map();
        let ghost us = Seq::new(t@.len(), |k: int| unit(m, kept@, t@, k));
        let mut steps: Vec<(char, isize)> = Vec::new();
        let mut prev: usize = 0;
        let mut i: usize = 0;
        while i < t.len()
            invariant
                i <= t@.len() <= isize::MAX,
                m == self.map(),
                us == Seq::new(t@.len(), |k: int| unit(m, kept@, t@, k)),
                prev <= i,
                compile_run(us.take(i as int)) == (prev as int, steps@),
            decreases t@.len() - i,
        {
            let c = t[i];
            let u: Vec<char> = if covered_exec(&kept, i) {
                vec![c]
            } else {
                match lookup_exec(&self.char_map, c) {
                    Some(rep) => chars_of(rep.as_str()),
                    None => if (c as u32) < 0x80 {
                        vec![c]
                    } else {
                        chars_of(transliterate(c).as_str())
                    },
                }
            };
            assert(u@ =~= us[i as int]);
            assert(us.take(i + 1).drop_last() =~= us.take(i as int));
            assert(us.take(i + 1).last() == us[i as int]);
            if u.len() > 0 {
                let ghost base = steps@;
                let d: isize = (i - prev) as isize;
                steps.push((u[0], d));
                let mut j: usize = 1;
                while j < u.len()
                    invariant
                        1 <= j <= u@.len(),
                        steps@ =~= base + seq![(u@[0], d)] + u@.subrange(1, j as int).map_values(|ch: char| (ch, 0isize)),
                    decreases u@.len() - j,
                {
                    steps.push((u[j], 0));
                    j = j + 1;
                }
                assert(u@.subrange(1, u@.len() as int) =~= u@.drop_first());
                prev = i;
            }
            i = i + 1;
        }
        assert(us.take(t@.len() as int) =~= us);
        proof {
            lemma_compile_fits(n@.alignments, us);
        }
        n.transform(&steps, 0)
    }

    /// The kept pattern's text, if any.
    pub fn kept_pattern(&self) -> (r: Option<String>)
        ensures
            match r {
                Some(p) => self.kept() == Some(p@),
                None => self.kept() is None,
            },
    {
        match &self.kept_pattern {
            Some(p) => Some(p.clone()),
            None => None,
        }
    }

    /// The character map's entries, in order.
    pub fn char_map(&self) -> (r: Vec<(char, String)>)
        ensures
            entries(r@) == self.map(),
    {
        self.duplicate().char_map
    }

    /// A copy with the same pattern and map.
    pub fn duplicate(&self) -> (r: Self)
        ensures
            r.kept() == self.kept(),
            r.map() == self.map(),
    {
        let kept_pattern = match &self.kept_pattern {
            Some(p) => Some(p.clone()),
            None => None,
        };
        let mut char_map: Vec<(char, String)> = Vec::new();
        let mut i: usize = 0;
        while i < self.char_map.len()
            invariant
                i <= self.char_map@.len(),
                char_map@.len() == i,
                forall|j: int| #![trigger char_map@[j]] 0 <= j < i ==> char_map@[j].0 == self.char_map@[j].0 && char_map@[j].1@ == self.char_map@[j].1@,
            decreases self.char_map@.len() - i,
        {
            let (c, s) = (self.char_map[i].0, self.char_map[i].1.clone());
            char_map.push((c, s));
            i = i + 1;
        }
        let r = AnyASCII { kept_pattern, char_map };
        assert(r.map() =~= self.map());
        r
    }
}

/// What one canonical form makes of `v`.
pub open spec fn canonical_step(v: NormalizedView, p: Seq<(char, isize)>) -> Result<NormalizedView, NormError> {
    match canonical_result(v, p) {
        Some(w) => Ok(w),
        None => Err(NormError::InvalidRewrite),
    }
}

/// What transliteration with `(kept, map)` makes of `v`.
pub open spec fn ascii_step(kept: Option<Seq<char>>, m: Seq<(char, Seq<char>)>, v: NormalizedView) -> Result<NormalizedView, NormError> {
    let t = v.normalized;
    if !(kept matches Some(p) ==> all_on_boundary(t, regex_byte_matches(p, t))) {
        Err(NormError::InvalidSpan)
    } else if t.len() > isize::MAX {
        Err(NormError::InvalidRewrite)
    } else {
        let steps = ascii_steps(kept, m, t);
        let run = rewrite_run(v.alignments, steps, 0);
        if run.0 {
            Ok(NormalizedView { original: v.original, normalized: rewrite_chars(steps), alignments: run.2, shift: v.shift })
        } else {
            Err(NormError::InvalidRewrite)
        }
    }
}

/// What the cleanup makes of `v`.
pub open spec fn nmt_view(v: NormalizedView) -> NormalizedView {
    NormalizedView {
        original: v.original,
        normalized: kept_positions(v.normalized, |c: char| !nmt_removed(c)).map_values(|j: int| nmt_mapped(v.normalized[j])),
        alignments: kept_positions(v.normalized, |c: char| !nmt_removed(c)).map_values(|j: int| v.alignments[j]),
        shift: v.shift,
    }
}

/// One stage of a normalization pipeline.
#[derive(Debug)]
pub enum NormalizerKind {
    NFD,
    NFKD,
    NFC,
    NFKC,
    Nmt,
    AnyASCII(AnyASCII),
}

impl NormalizerKind {
    pub open spec fn wf(&self) -> bool {
        match self {
            NormalizerKind::AnyASCII(a) => a.wf(),
            _ => true,
        }
    }

    /// What this stage makes of `v`.
    pub open spec fn step(&self, v: NormalizedView) -> Result<NormalizedView, NormError> {
        match self {
            NormalizerKind::NFD => canonical_step(v, nfd_tagged(v.normalized)),
            NormalizerKind::NFKD => canonical_step(v, nfkd_tagged(v.normalized)),
            NormalizerKind::NFC => canonical_step(v, nfc_tagged(v.normalized)),
            NormalizerKind::NFKC => canonical_step(v, nfkc_tagged(v.normalized)),
            NormalizerKind::Nmt => Ok(nmt_view(v)),
            NormalizerKind::AnyASCII(a) => ascii_step(a.kept(), a.map(), v),
        }
    }

    /// Applies this stage; on failure the buffer is unchanged.
    pub fn normalize(&self, n: &mut NormalizedString) -> (r: Result<(), NormError>)
        requires
            old(n)@.wf(),
            self.wf(),
        ensures
            final(n)@.wf(),
            self.step(old(n)@) is Ok ==> r is Ok && final(n)@ == self.step(old(n)@)->Ok_0,
            self.step(old(n)@) is Err ==> r is Err && r->Err_0 == self.step(old(n)@)->Err_0 && final(n)@ == old(n)@,
    {
        match self {
            NormalizerKind::NFD => NFD.normalize(n),
            NormalizerKind::NFKD => NFKD.normalize(n),
            NormalizerKind::NFC => NFC.normalize(n),
            NormalizerKind::NFKC => NFKC.normalize(n),
            NormalizerKind::Nmt => Nmt.normalize(n),
            NormalizerKind::AnyASCII(a) => a.normalize(n),
        }
    }
}

/// What a chain of stages makes of `v`: the final buffer, or the index of the
/// first failing stage with its error.
pub open spec fn chain(stages: Seq<NormalizerKind>, v: NormalizedView) -> Result<NormalizedView, (usize, NormError)>
    decreases stages.len(),
{
    if stages.len() == 0 {
        Ok(v)
    } else {
        match chain(stages.drop_last(), v) {
            Err(e) => Err(e),
            Ok(w) => match stages.last().step(w) {
                Ok(x) => Ok(x),
                Err(e) => Err(((stages.len() - 1) as usize, e)),
            },
        }
    }
}

/// Runs the stages in order. On the first failure it stops and reports that
/// stage's index and error; the buffer is then left as the earlier stages made it.
pub fn normalize_all(stages: &Vec<NormalizerKind>, n: &mut NormalizedString) -> (r: Result<(), (usize, NormError)>)
    requires
        old(n)@.wf(),
        forall|k: int| 0 <= k < stages@.len() ==> (#[trigger] stages@[k]).wf(),
    ensures
        final(n)@.wf(),
        chain(stages@, old(n)@) is Ok ==> r is Ok && final(n)@ == chain(stages@, old(n)@)->Ok_0,
        chain(stages@, old(n)@) is Err ==> r is Err && r->Err_0 == chain(stages@, old(n)@)->Err_0,
        r matches Err((k, _)) ==> k < stages@.len() && chain(stages@.take(k as int), old(n)@) == Ok::<NormalizedView, (usize, NormError)>(final(n)@),
{
    let ghost v = n@;
    let mut k: usize = 0;
    while k < stages.len()
        invariant
            k <= stages@.len(),
            n@.wf(),
            v == old(n)@,
            forall|j: int| 0 <= j < stages@.len() ==> (#[trigger] stages@[j]).wf(),
            chain(stages@.take(k as int), v) == Ok::<NormalizedView, (usize, NormError)>(n@),
        decreases stages@.len() - k,
    {
        assert(stages@.take(k + 1).drop_last() =~= stages@.take(k as int));
        assert(stages@.take(k + 1).last() == stages@[k as int]);
        let ghost w = n@;
        match stages[k].normalize(n) {
            Ok(()) => {},
            Err(e) => {
                proof {
                    assert(stages@[k as int].step(w) is Err);
                    assert(stages@.take(k + 1).len() - 1 == k);
                    assert(chain(stages@.take(k + 1), v) == Err::<NormalizedView, (usize, NormError)>((k, e)));
                    lemma_chain_failed_stays(stages@, v, k as int + 1);
                }
                return Err((k, e));
            },
        }
        k = k + 1;
    }
    assert(stages@.take(stages@.len() as int) =~= stages@);
    Ok(())
}

proof fn lemma_chain_failed_stays(stages: Seq<NormalizerKind>, v: NormalizedView, k: int)
    requires
        0 <= k <= stages.len(),
        chain(stages.take(k), v) is Err,
    ensures
        chain(stages, v) == chain(stages.take(k), v),
    decreases stages.len() - k,
{
    if k < stages.len() {
        assert(stages.take(k + 1).drop_last() =~= stages.take(k));
        lemma_chain_failed_stays(stages, v, k + 1);
    } else {
        assert(stages.take(k) =~= stages);
    }
}

} // verus!
