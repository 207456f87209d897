//! Unicode canonicalization of an alignment buffer.
//!
//! The normalization itself comes from `unicode-normalization-alignments`,
//! which tags each output character with a change count: positive for a
//! character inserted after the previous one, otherwise the character
//! replaces the next input character and `-change` further input characters
//! are removed. [`retag`] turns those tags into the cursor steps of
//! [`NormalizedString::transform`].
use vstd::prelude::*;
use unicode_normalization_alignments::UnicodeNormalization;
use crate::normalizer::{NormalizedString, NormalizedView, NormError, rewrite_run, rewrite_chars};

verus! {

/// NFD of a text, as tagged pairs.
pub uninterp spec fn nfd_tagged(s: Seq<char>) -> Seq<(char, isize)>;

/// NFKD of a text, as tagged pairs.
pub uninterp spec fn nfkd_tagged(s: Seq<char>) -> Seq<(char, isize)>;

/// NFC of a text, as tagged pairs.
pub uninterp spec fn nfc_tagged(s: Seq<char>) -> Seq<(char, isize)>;

/// NFKC of a text, as tagged pairs.
pub uninterp spec fn nfkc_tagged(s: Seq<char>) -> Seq<(char, isize)>;

/// Relies on `UnicodeNormalization::nfd` for `&str`: the canonical
/// decomposition with its change tags, a function of the text alone.
#[verifier::external_body]
fn nfd_pairs(s: &str) -> (r: Vec<(char, isize)>)
    ensures
        r@ == nfd_tagged(s@),
{
    s.nfd().collect()
}

/// Relies on `UnicodeNormalization::nfkd` for `&str`: the compatibility
/// decomposition with its change tags, a function of the text alone.
#[verifier::external_body]
fn nfkd_pairs(s: &str) -> (r: Vec<(char, isize)>)
    ensures
        r@ == nfkd_tagged(s@),
{
    s.nfkd().collect()
}

/// Relies on `UnicodeNormalization::nfc` for `&str`: the canonical
/// composition with its change tags, a function of the text alone.
#[verifier::external_body]
fn nfc_pairs(s: &str) -> (r: Vec<(char, isize)>)
    ensures
        r@ == nfc_tagged(s@),
{
    s.nfc().collect()
}

/// Relies on `UnicodeNormalization::nfkc` for `&str`: the compatibility
/// composition with its change tags, a function of the text alone.
#[verifier::external_body]
fn nfkc_pairs(s: &str) -> (r: Vec<(char, isize)>)
    ensures
        r@ == nfkc_tagged(s@),
{
    s.nfkc().collect()
}

/// State after re-tagging a prefix: (in range, cursor of the last replacing
/// character, input characters consumed, output so far).
pub open spec fn retag_run(p: Seq<(char, isize)>) -> (bool, int, int, Seq<(char, isize)>)
    decreases p.len(),
{
    if p.len() == 0 {
        (true, 0, 0, Seq::empty())
    } else {
        let acc = retag_run(p.drop_last());
        let (ch, change) = p.last();
        if !acc.0 {
            acc
        } else if change > 0 {
            (true, acc.1, acc.2, acc.3.push((ch, 0isize)))
        } else if acc.2 + 1 - change <= isize::MAX {
            (true, acc.2, acc.2 + 1 - change, acc.3.push((ch, (acc.2 - acc.1) as isize)))
        } else {
            (false, acc.1, acc.2, acc.3)
        }
    }
}

/// Turns change-tagged pairs into cursor steps: an inserted character repeats
/// the previous span, a replacing one advances to the next unconsumed input
/// character. `None` when the counts leave the range of `isize`.
pub fn retag(p: &Vec<(char, isize)>) -> (r: Option<Vec<(char, isize)>>)
    ensures
        retag_run(p@).0 ==> r is Some && r->Some_0@ == retag_run(p@).3,
        !retag_run(p@).0 ==> r is None,
{
    let mut out: Vec<(char, isize)> = Vec::new();
    let mut cur: usize = 0;
    let mut consumed: usize = 0;
    let mut i: usize = 0;
    while i < p.len()
        invariant
            i <= p@.len(),
            retag_run(p@.take(i as int)) == (true, cur as int, consumed as int, out@),
            cur <= consumed <= isize::MAX,
        decreases p@.len() - i,
    {
        assert(p@.take(i + 1).drop_last() =~= p@.take(i as int));
        assert(p@.take(i + 1).last() == p@[i as int]);
        let (ch, change) = p[i];
        if change > 0 {
            out.push((ch, 0));
        } else {
            let extra: usize = if change == isize::MIN { isize::MAX as usize + 1 } else { (-change) as usize };
            if extra >= isize::MAX as usize - consumed {
                proof {
                    lemma_retag_failed_stays(p@, i as int + 1);
                }
                return None;
            }
            out.push((ch, (consumed - cur) as isize));
            cur = consumed;
            consumed = consumed + 1 + extra;
        }
        i = i + 1;
    }
    assert(p@.take(p@.len() as int) =~= p@);
    Some(out)
}

proof fn lemma_retag_failed_stays(p: Seq<(char, isize)>, k: int)
    requires
        0 <= k <= p.len(),
        !retag_run(p.take(k)).0,
    ensures
        !retag_run(p).0,
    decreases p.len() - k,
{
    if k < p.len() {
        assert(p.take(k + 1).drop_last() =~= p.take(k));
        lemma_retag_failed_stays(p, k + 1);
    } else {
        assert(p.take(k) =~= p);
    }
}

/// What rewriting `v` with change-tagged pairs `p` yields: `None` when the
/// pairs do not fit the buffer.
pub open spec fn canonical_result(v: NormalizedView, p: Seq<(char, isize)>) -> Option<NormalizedView> {
    let t = retag_run(p);
    let run = rewrite_run(v.alignments, t.3, 0);
    if t.0 && run.0 {
        Some(NormalizedView { original: v.original, normalized: rewrite_chars(t.3), alignments: run.2, shift: v.shift })
    } else {
        None
    }
}

impl NormalizedString {
    /// Rewrites the buffer with change-tagged pairs, as a normalization
    /// function produced them from the current text.
    pub fn apply_tagged(&mut self, pairs: &Vec<(char, isize)>) -> (r: Result<(), NormError>)
        requires
            old(self)@.wf(),
        ensures
            final(self)@.wf(),
            canonical_result(old(self)@, pairs@) is Some ==> r is Ok && final(self)@ == canonical_result(old(self)@, pairs@)->Some_0,
            canonical_result(old(self)@, pairs@) is None ==> r == Err::<(), NormError>(NormError::InvalidRewrite) && final(self)@ == old(self)@,
    {
        match retag(pairs) {
            Some(steps) => self.transform(&steps, 0),
            None => Err(NormError::InvalidRewrite),
        }
    }

    /// Canonical decomposition (NFD) of the current text.
    pub fn nfd(&mut self) -> (r: Result<(), NormError>)
        requires
            old(self)@.wf(),
        ensures
            final(self)@.wf(),
            canonical_result(old(self)@, nfd_tagged(old(self)@.normalized)) is Some ==> r is Ok
                && final(self)@ == canonical_result(old(self)@, nfd_tagged(old(self)@.normalized))->Some_0,
            canonical_result(old(self)@, nfd_tagged(old(self)@.normalized)) is None ==> r == Err::<(), NormError>(NormError::InvalidRewrite) && final(self)@ == old(self)@,
    {
        let pairs = nfd_pairs(self.get().as_str());
        self.apply_tagged(&pairs)
    }

    /// Compatibility decomposition (NFKD) of the current text.
    pub fn nfkd(&mut self) -> (r: Result<(), NormError>)
        requires
            old(self)@.wf(),
        ensures
            final(self)@.wf(),
            canonical_result(old(self)@, nfkd_tagged(old(self)@.normalized)) is Some ==> r is Ok
                && final(self)@ == canonical_result(old(self)@, nfkd_tagged(old(self)@.normalized))->Some_0,
            canonical_result(old(self)@, nfkd_tagged(old(self)@.normalized)) is None ==> r == Err::<(), NormError>(NormError::InvalidRewrite) && final(self)@ == old(self)@,
    {
        let pairs = nfkd_pairs(self.get().as_str());
        self.apply_tagged(&pairs)
    }

    /// Canonical composition (NFC) of the current text.
    pub fn nfc(&mut self) -> (r: Result<(), NormError>)
        requires
            old(self)@.wf(),
        ensures
            final(self)@.wf(),
            canonical_result(old(self)@, nfc_tagged(old(self)@.normalized)) is Some ==> r is Ok
                && final(self)@ == canonical_result(old(self)@, nfc_tagged(old(self)@.normalized))->Some_0,
            canonical_result(old(self)@, nfc_tagged(old(self)@.normalized)) is None ==> r == Err::<(), NormError>(NormError::InvalidRewrite) && final(self)@ == old(self)@,
    {
        let pairs = nfc_pairs(self.get().as_str());
        self.apply_tagged(&pairs)
    }

    /// Compatibility composition (NFKC) of the current text.
    pub fn nfkc(&mut self) -> (r: Result<(), NormError>)
        requires
            old(self)@.wf(),
        ensures
            final(self)@.wf(),
            canonical_result(old(self)@, nfkc_tagged(old(self)@.normalized)) is Some ==> r is Ok
                && final(self)@ == canonical_result(old(self)@, nfkc_tagged(old(self)@.normalized))->Some_0,
            canonical_result(old(self)@, nfkc_tagged(old(self)@.normalized)) is None ==> r == Err::<(), NormError>(NormError::InvalidRewrite) && final(self)@ == old(self)@,
    {
        let pairs = nfkc_pairs(self.get().as_str());
        self.apply_tagged(&pairs)
    }
}

} // verus!
