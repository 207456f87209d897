//! Splitting a text into fragments that each stay resolvable to the input,
//! and reading the fragments out with their offsets.
use vstd::prelude::*;
use crate::normalizer::{NormalizedString, NormalizedView, NormError, Span, slice_view, front_edge, back_edge};
use crate::pattern::{Piece, regex_valid, regex_byte_matches, regex_compiles, regex_find, is_ws,
    whitespace_matches, char_matches, to_char_spans, all_on_boundary, char_spans, partition, partition_of,
    invert, tiles};
use crate::pre_tokenizers::EditBoundariesBehavior;
use crate::text::{byte_len, byte_offset, chars_of, string_of, byte_offsets};

verus! {

/// What becomes of the text between kept matches.
#[derive(Debug, Clone, Copy, PartialEq, Eq, Structural)]
pub enum SplitDelimiterBehavior {
    /// Delimiters are dropped.
    Removed,
    /// Each delimiter becomes a fragment of its own.
    Isolated,
    /// A delimiter joins the fragment before it.
    MergedWithPrevious,
    /// A delimiter joins the fragment after it.
    MergedWithNext,
    /// Consecutive delimiters form one fragment, as do consecutive kept pieces.
    Contiguous,
}

/// The rule a pattern matches.
#[derive(Debug)]
pub enum PatternRule {
    /// Each whitespace character is a match.
    WhitespaceChar,
    /// The matches of a regular expression.
    Regex(String),
}

/// A pattern: a rule, or, when `inverted`, the gaps between its matches.
#[derive(Debug)]
pub struct SplitPattern {
    pub rule: PatternRule,
    pub inverted: bool,
}

/// A rule as contracts see it.
pub enum RuleSpec {
    WhitespaceChar,
    Regex(Seq<char>),
}

impl SplitPattern {
    pub open spec fn rule_spec(&self) -> RuleSpec {
        match self.rule {
            PatternRule::WhitespaceChar => RuleSpec::WhitespaceChar,
            PatternRule::Regex(p) => RuleSpec::Regex(p@),
        }
    }
}

/// Splitting by `rule` cannot fail: it matches whitespace, or is a regular
/// expression that compiles (its matches always fall on character boundaries).
pub open spec fn rule_never_fails(rule: RuleSpec) -> bool {
    match rule {
        RuleSpec::WhitespaceChar => true,
        RuleSpec::Regex(p) => regex_valid(p),
    }
}

/// A fragment step that cannot fail.
pub open spec fn op_never_fails(op: OpSpec) -> bool {
    match op {
        OpSpec::Split(rule, _, _) => rule_never_fails(rule),
        OpSpec::EditBoundaries(_, _) => false,
    }
}

/// The pieces that `rule` (or, when `inverted`, its gaps) divides `t` into;
/// the delimiters are the flagged ones.
pub open spec fn pattern_pieces(rule: RuleSpec, inverted: bool, t: Seq<char>) -> Result<Seq<Piece>, NormError> {
    let m: Result<Seq<Span>, NormError> = match rule {
        RuleSpec::WhitespaceChar => Ok(char_matches(t, |c: char| is_ws(c))),
        RuleSpec::Regex(p) => if !regex_valid(p) {
            Err(NormError::InvalidPattern)
        } else if !all_on_boundary(t, regex_byte_matches(p, t)) {
            Err(NormError::InvalidSpan)
        } else {
            Ok(char_spans(t, regex_byte_matches(p, t)))
        },
    };
    match m {
        Ok(m) => Ok(if inverted { invert(partition_of(m, t.len())) } else { partition_of(m, t.len()) }),
        Err(e) => Err(e),
    }
}

/// The ranges kept from `ps` under `b`.
pub open spec fn select(ps: Seq<Piece>, b: SplitDelimiterBehavior) -> Seq<Span>
    decreases ps.len(),
{
    if ps.len() == 0 {
        Seq::empty()
    } else if b == SplitDelimiterBehavior::Isolated || !ps.last().2 {
        select(ps.drop_last(), b).push((ps.last().0, ps.last().1))
    } else {
        select(ps.drop_last(), b)
    }
}

/// Piece `cur` joins the range before it, given whether the piece before is a delimiter.
pub open spec fn joins(b: SplitDelimiterBehavior, prev: bool, cur: bool) -> bool {
    if b == SplitDelimiterBehavior::MergedWithPrevious { cur && !prev } else { cur == prev }
}

/// Ranges when a piece may join the range before it.
pub open spec fn merge_back(ps: Seq<Piece>, b: SplitDelimiterBehavior) -> Seq<Span>
    decreases ps.len(),
{
    if ps.len() == 0 {
        Seq::empty()
    } else {
        let acc = merge_back(ps.drop_last(), b);
        let i = ps.len() - 1;
        if i > 0 && joins(b, ps[i - 1].2, ps[i].2) {
            acc.update(acc.len() - 1, (acc.last().0, ps[i].1))
        } else {
            acc.push((ps[i].0, ps[i].1))
        }
    }
}

/// Ranges when a delimiter joins the kept piece after it.
pub open spec fn merge_next(ps: Seq<Piece>) -> Seq<Span>
    decreases ps.len(),
{
    if ps.len() == 0 {
        Seq::empty()
    } else if ps[0].2 && ps.len() >= 2 && !ps[1].2 {
        seq![(ps[0].0, ps[1].1)] + merge_next(ps.skip(2))
    } else {
        seq![(ps[0].0, ps[0].1)] + merge_next(ps.skip(1))
    }
}

/// The ranges that `b` makes of the pieces `ps`.
pub open spec fn ranges_for(ps: Seq<Piece>, b: SplitDelimiterBehavior) -> Seq<Span> {
    match b {
        SplitDelimiterBehavior::Removed => select(ps, b),
        SplitDelimiterBehavior::Isolated => select(ps, b),
        SplitDelimiterBehavior::MergedWithPrevious => merge_back(ps, b),
        SplitDelimiterBehavior::Contiguous => merge_back(ps, b),
        SplitDelimiterBehavior::MergedWithNext => merge_next(ps),
    }
}

/// Ranges within `[0, n]`, each ordered.
pub open spec fn ranges_within(rs: Seq<Span>, n: int) -> bool {
    forall|k: int| #![trigger rs[k]] 0 <= k < rs.len() ==> rs[k].0 <= rs[k].1 <= n
}

/// The ranges that `b` keeps of a tiling.
fn ranges_of(pieces: &Vec<Piece>, b: SplitDelimiterBehavior, Ghost(n): Ghost<nat>) -> (r: Vec<Span>)
    requires
        tiles(pieces@, n),
    ensures
        r@ == ranges_for(pieces@, b),
        ranges_within(r@, n as int),
{
    let ghost ps = pieces@;
    let mut ranges: Vec<Span> = Vec::new();
    let mut i: usize = 0;
    if b == SplitDelimiterBehavior::Removed || b == SplitDelimiterBehavior::Isolated {
        while i < pieces.len()
            invariant
                i <= ps.len(),
                ps == pieces@,
                b == SplitDelimiterBehavior::Removed || b == SplitDelimiterBehavior::Isolated,
                ranges@ == select(ps.take(i as int), b),
            decreases ps.len() - i,
        {
            assert(ps.take(i + 1).drop_last() =~= ps.take(i as int));
            assert(ps.take(i + 1).last() == ps[i as int]);
            let (a, e, flagged) = pieces[i];
            if b == SplitDelimiterBehavior::Isolated || !flagged {
                ranges.push((a, e));
            }
            i = i + 1;
        }
        assert(ps.take(ps.len() as int) =~= ps);
        proof {
            lemma_select_in_tiles(ps, n, b);
        }
    } else if b == SplitDelimiterBehavior::MergedWithNext {
        assert(ps.skip(0) =~= ps);
        while i < pieces.len()
            invariant
                i <= ps.len(),
                ps == pieces@,
                tiles(ps, n),
                ranges@ + merge_next(ps.skip(i as int)) == merge_next(ps),
                ranges_within(ranges@, if i == 0 { 0 } else { ps[i - 1].1 as int }),
            decreases ps.len() - i,
        {
            let (a, e, flagged) = pieces[i];
            let ghost rest = ps.skip(i as int);
            let ghost before = ranges@;
            assert(rest[0] == ps[i as int]);
            assert(i > 0 ==> ps[i - 1].1 == ps[i as int].0);
            assert(ps[i as int].0 < ps[i as int].1 <= n);
            if flagged && i + 1 < pieces.len() && !pieces[i + 1].2 {
                assert(rest[1] == ps[i + 1]);
                assert(ps[i as int].1 == ps[i + 1].0);
                assert(ps[i + 1].0 < ps[i + 1].1 <= n);
                ranges.push((a, pieces[i + 1].1));
                assert(rest.skip(2) =~= ps.skip(i + 2));
                assert(ranges@ + merge_next(ps.skip(i + 2)) =~= before + merge_next(rest));
                i = i + 2;
            } else {
                ranges.push((a, e));
                assert(rest.skip(1) =~= ps.skip(i + 1));
                assert(ranges@ + merge_next(ps.skip(i + 1)) =~= before + merge_next(rest));
                i = i + 1;
            }
        }
        assert(merge_next(ps.skip(ps.len() as int)) =~= Seq::<Span>::empty());
        assert(ranges@ =~= ranges@ + merge_next(ps.skip(ps.len() as int)));
        assert(ps.len() > 0 ==> ps.last() == ps[ps.len() - 1]);
    } else {
        let mut prev_flag = false;
        while i < pieces.len()
            invariant
                i <= ps.len(),
                ps == pieces@,
                tiles(ps, n),
                b == SplitDelimiterBehavior::MergedWithPrevious || b == SplitDelimiterBehavior::Contiguous,
                ranges@ == merge_back(ps.take(i as int), b),
                i > 0 ==> ranges@.len() > 0 && prev_flag == ps[i - 1].2,
                ranges_within(ranges@, if i == 0 { 0 } else { ps[i - 1].1 as int }),
            decreases ps.len() - i,
        {
            let ghost t = ps.take(i + 1);
            assert(t.drop_last() =~= ps.take(i as int));
            assert(t.last() == ps[i as int]);
            assert(i > 0 ==> t[i - 1] == ps[i - 1]);
            assert(i > 0 ==> ps[i - 1].1 == ps[i as int].0);
            assert(i == 0 ==> ps[0].0 == 0);
            assert(ps[i as int].0 < ps[i as int].1 <= n);
            let (a, e, flagged) = pieces[i];
            let j = if b == SplitDelimiterBehavior::MergedWithPrevious { flagged && !prev_flag } else { flagged == prev_flag };
            if i > 0 && j {
                let last = ranges.len() - 1;
                let (s0, _) = ranges[last];
                ranges.set(last, (s0, e));
            } else {
                ranges.push((a, e));
            }
            prev_flag = flagged;
            i = i + 1;
        }
        assert(ps.take(ps.len() as int) =~= ps);
        assert(ps.len() > 0 ==> ps.last() == ps[ps.len() - 1]);
    }
    ranges
}

/// The buffers carved out of `v` by `ranges`, in order.
pub open spec fn slices_of(v: NormalizedView, ranges: Seq<Span>) -> Seq<NormalizedView> {
    ranges.map_values(|r: Span| slice_view(v, r.0 as int, r.1 as int))
}

/// The views of a list of buffers.
pub open spec fn views(s: Seq<NormalizedString>) -> Seq<NormalizedView> {
    s.map_values(|x: NormalizedString| x@)
}

/// What splitting `v` by `pat` under `b` yields.
pub open spec fn split_result(v: NormalizedView, rule: RuleSpec, inverted: bool, b: SplitDelimiterBehavior) -> Result<Seq<NormalizedView>, NormError> {
    match pattern_pieces(rule, inverted, v.normalized) {
        Ok(ps) => Ok(slices_of(v, ranges_for(ps, b))),
        Err(e) => Err(e),
    }
}

/// Results that may replace a fragment `v` in a collection: well formed, and
/// within the part of the input that `v` covers.
pub open spec fn descend(v: NormalizedView, out: Seq<NormalizedView>) -> bool {
    forall|k: int| #![trigger out[k]] 0 <= k < out.len() ==> out[k].wf() && out[k].shift + out[k].original.len() <= v.shift + v.original.len()
}

proof fn lemma_select_in_tiles(ps: Seq<Piece>, n: nat, b: SplitDelimiterBehavior)
    requires
        forall|k: int| #![trigger ps[k]] 0 <= k < ps.len() ==> ps[k].0 < ps[k].1 <= n,
    ensures
        forall|k: int| #![trigger select(ps, b)[k]] 0 <= k < select(ps, b).len() ==> select(ps, b)[k].0 < select(ps, b)[k].1 <= n,
    decreases ps.len(),
{
    if ps.len() > 0 {
        let q = ps.drop_last();
        assert(forall|k: int| #![trigger q[k]] 0 <= k < q.len() ==> q[k] == ps[k]);
        lemma_select_in_tiles(q, n, b);
        assert(ps.last() == ps[ps.len() - 1]);
        let sq = select(q, b);
        let sp = select(ps, b);
        if b == SplitDelimiterBehavior::Isolated || !ps.last().2 {
            assert(sp == sq.push((ps.last().0, ps.last().1)));
            assert forall|k: int| #![trigger sp[k]] 0 <= k < sp.len() implies sp[k].0 < sp[k].1 <= n by {
                if k < sq.len() {
                    assert(sp[k] == sq[k]);
                }
            }
        } else {
            assert(sp == sq);
        }
    }
}

impl NormalizedString {
    /// Carves one buffer per range, in order.
    pub fn slices(&self, ranges: &Vec<Span>) -> (r: Vec<NormalizedString>)
        requires
            self@.wf(),
            forall|k: int| #![trigger ranges@[k]] 0 <= k < ranges@.len() ==> ranges@[k].0 <= ranges@[k].1 <= self@.normalized.len(),
        ensures
            views(r@) == slices_of(self@, ranges@),
            descend(self@, views(r@)),
    {
        let mut out: Vec<NormalizedString> = Vec::new();
        let mut k: usize = 0;
        while k < ranges.len()
            invariant
                self@.wf(),
                k <= ranges@.len(),
                forall|j: int| #![trigger ranges@[j]] 0 <= j < ranges@.len() ==> ranges@[j].0 <= ranges@[j].1 <= self@.normalized.len(),
                views(out@) =~= slices_of(self@, ranges@.take(k as int)),
                descend(self@, views(out@)),
            decreases ranges@.len() - k,
        {
            let (s, e) = ranges[k];
            let ghost before = out@;
            assert(ranges@.take(k + 1) =~= ranges@.take(k as int).push(ranges@[k as int]));
            match self.slice(s, e) {
                Ok(f) => {
                    out.push(f);
                    assert(views(out@) =~= views(before).push(f@));
                },
                Err(_) => {
                    assert(false);
                },
            }
            k = k + 1;
        }
        assert(ranges@.take(ranges@.len() as int) =~= ranges@);
        out
    }

    /// Splits the buffer by `pattern`, disposing of delimiters per `behavior`.
    pub fn split(&self, pattern: &SplitPattern, behavior: SplitDelimiterBehavior) -> (r: Result<Vec<NormalizedString>, NormError>)
        requires
            self@.wf(),
        ensures
            split_result(self@, pattern.rule_spec(), pattern.inverted, behavior) is Ok ==> r is Ok && views(r->Ok_0@) == split_result(self@, pattern.rule_spec(), pattern.inverted, behavior)->Ok_0
                && descend(self@, views(r->Ok_0@)),
            split_result(self@, pattern.rule_spec(), pattern.inverted, behavior) is Err ==> r is Err && r->Err_0 == split_result(self@, pattern.rule_spec(), pattern.inverted, behavior)->Err_0,
            rule_never_fails(pattern.rule_spec()) ==> r is Ok,
    {
        let text = &self.normalized_chars();
        let matches = match &pattern.rule {
            PatternRule::WhitespaceChar => whitespace_matches(text),
            PatternRule::Regex(p) => {
                if !regex_compiles(p.as_str()) {
                    return Err(NormError::InvalidPattern);
                }
                let s = string_of(text);
                let bm = regex_find(p.as_str(), s.as_str());
                match to_char_spans(text, &bm) {
                    Ok(cs) => cs,
                    Err(e) => {
                        return Err(e);
                    },
                }
            },
        };
        let pieces = partition(&matches, text.len(), pattern.inverted);
        let ranges = ranges_of(&pieces, behavior, Ghost(text@.len()));
        Ok(self.slices(&ranges))
    }
}

/// One step applied to every fragment of a collection.
#[derive(Debug)]
pub enum FragmentOp {
    /// Split by a pattern.
    Split(SplitPattern, SplitDelimiterBehavior),
    /// Ensure or strip a space at each end.
    EditBoundaries(EditBoundariesBehavior, EditBoundariesBehavior),
}

/// A fragment step as contracts see it.
pub enum OpSpec {
    Split(RuleSpec, bool, SplitDelimiterBehavior),
    EditBoundaries(EditBoundariesBehavior, EditBoundariesBehavior),
}

impl FragmentOp {
    pub open spec fn spec(&self) -> OpSpec {
        match self {
            FragmentOp::Split(p, b) => OpSpec::Split(p.rule_spec(), p.inverted, *b),
            FragmentOp::EditBoundaries(l, r) => OpSpec::EditBoundaries(*l, *r),
        }
    }
}

/// Signed adjustment at the left end: negative inserts a space, positive strips one.
pub open spec fn left_delta(b: EditBoundariesBehavior, t: Seq<char>) -> int {
    match b {
        EditBoundariesBehavior::EnsureSpace => if t[0] != ' ' { -1 } else { 0 },
        EditBoundariesBehavior::StripSpace => if t[0] == ' ' { 1 } else { 0 },
        EditBoundariesBehavior::Unchanged => 0,
    }
}

/// Signed adjustment at the right end: positive inserts a space, negative strips one.
pub open spec fn right_delta(b: EditBoundariesBehavior, t: Seq<char>) -> int {
    match b {
        EditBoundariesBehavior::EnsureSpace => if t.last() != ' ' { 1 } else { 0 },
        EditBoundariesBehavior::StripSpace => if t.last() == ' ' { -1 } else { 0 },
        EditBoundariesBehavior::Unchanged => 0,
    }
}

/// `v` with a space inserted before it.
pub open spec fn with_space_before(v: NormalizedView) -> NormalizedView {
    NormalizedView {
        original: v.original,
        normalized: seq![' '] + v.normalized,
        alignments: seq![front_edge(v.alignments)] + v.alignments,
        shift: v.shift,
    }
}

/// `v` with a space inserted after it.
pub open spec fn with_space_after(v: NormalizedView) -> NormalizedView {
    NormalizedView {
        original: v.original,
        normalized: v.normalized + seq![' '],
        alignments: v.alignments + seq![back_edge(v.alignments)],
        shift: v.shift,
    }
}

/// What boundary editing makes of `v`.
pub open spec fn edit_result(v: NormalizedView, left: EditBoundariesBehavior, right: EditBoundariesBehavior) -> Result<Seq<NormalizedView>, NormError> {
    let n = v.normalized.len() as int;
    if n == 0 && (left != EditBoundariesBehavior::Unchanged || right != EditBoundariesBehavior::Unchanged) {
        Err(NormError::EmptyFragment)
    } else {
        let ld = left_delta(left, v.normalized);
        let rd = right_delta(right, v.normalized);
        if ld == 0 && rd == 0 {
            Ok(seq![v])
        } else if ld >= 0 && rd <= 0 {
            if n < ld - rd {
                Ok(seq![slice_view(v, 0, 0)])
            } else {
                Ok(seq![slice_view(v, ld, n + rd)])
            }
        } else {
            let a = if ld < 0 { with_space_before(v) } else { v };
            Ok(seq![if rd > 0 { with_space_after(a) } else { a }])
        }
    }
}

/// What `op` makes of one fragment.
pub open spec fn op_result(op: OpSpec, v: NormalizedView) -> Result<Seq<NormalizedView>, NormError> {
    match op {
        OpSpec::Split(rule, inv, b) => split_result(v, rule, inv, b),
        OpSpec::EditBoundaries(l, r) => edit_result(v, l, r),
    }
}

/// The fragments of `s` whose current text is not empty, in order.
pub open spec fn non_empty(s: Seq<NormalizedView>) -> Seq<NormalizedView>
    decreases s.len(),
{
    if s.len() == 0 {
        Seq::empty()
    } else if s.last().normalized.len() > 0 {
        non_empty(s.drop_last()).push(s.last())
    } else {
        non_empty(s.drop_last())
    }
}

/// What `op` makes of a list of fragments: the non-empty results in order,
/// or the error of the first fragment that fails.
pub open spec fn op_all(op: OpSpec, vs: Seq<NormalizedView>) -> Result<Seq<NormalizedView>, NormError>
    decreases vs.len(),
{
    if vs.len() == 0 {
        Ok(Seq::empty())
    } else {
        match op_all(op, vs.drop_last()) {
            Err(e) => Err(e),
            Ok(a) => match op_result(op, vs.last()) {
                Err(e) => Err(e),
                Ok(b) => Ok(a + non_empty(b)),
            },
        }
    }
}

impl NormalizedString {
    fn normalized_chars(&self) -> (r: Vec<char>)
        ensures
            r@ == self@.normalized,
    {
        chars_of(self.get().as_str())
    }

    /// Ensures or strips a space at each end of the buffer.
    pub fn edit_boundaries(self, left: EditBoundariesBehavior, right: EditBoundariesBehavior) -> (r: Result<Vec<NormalizedString>, NormError>)
        requires
            self@.wf(),
        ensures
            edit_result(self@, left, right) is Ok ==> r is Ok && views(r->Ok_0@) == edit_result(self@, left, right)->Ok_0
                && descend(self@, views(r->Ok_0@)),
            edit_result(self@, left, right) is Err ==> r is Err && r->Err_0 == edit_result(self@, left, right)->Err_0,
    {
        let ghost v = self@;
        let n = self.len();
        if n == 0 && (left != EditBoundariesBehavior::Unchanged || right != EditBoundariesBehavior::Unchanged) {
            return Err(NormError::EmptyFragment);
        }
        let t = self.normalized_chars();
        let ld: isize = match left {
            EditBoundariesBehavior::EnsureSpace => if t[0] != ' ' { -1 } else { 0 },
            EditBoundariesBehavior::StripSpace => if t[0] == ' ' { 1 } else { 0 },
            EditBoundariesBehavior::Unchanged => 0,
        };
        let rd: isize = match right {
            EditBoundariesBehavior::EnsureSpace => if t[n - 1] != ' ' { 1 } else { 0 },
            EditBoundariesBehavior::StripSpace => if t[n - 1] == ' ' { -1 } else { 0 },
            EditBoundariesBehavior::Unchanged => 0,
        };
        let mut s = self;
        if ld == 0 && rd == 0 {
            let out = vec![s];
            assert(views(out@) =~= seq![v]);
            return Ok(out);
        }
        if ld >= 0 && rd <= 0 {
            let cut: usize = (ld - rd) as usize;
            let (a, b): (usize, usize) = if n < cut { (0, 0) } else { (ld as usize, if rd < 0 { n - 1 } else { n }) };
            match s.slice(a, b) {
                Ok(f) => {
                    let out = vec![f];
                    assert(views(out@) =~= edit_result(v, left, right)->Ok_0);
                    Ok(out)
                },
                Err(_) => {
                    assert(false);
                    Err(NormError::OutOfBounds)
                },
            }
        } else {
            proof {
                reveal_strlit(" ");
                assert(" "@ =~= seq![' ']);
            }
            if ld < 0 {
                s.prepend(" ");
                assert(Seq::new(1nat, |i: int| front_edge(v.alignments)) =~= seq![front_edge(v.alignments)]);
                assert(s@ =~= with_space_before(v));
            }
            let ghost a = s@;
            if rd > 0 {
                s.append(" ");
                assert(Seq::new(1nat, |i: int| back_edge(a.alignments)) =~= seq![back_edge(a.alignments)]);
                assert(s@ =~= with_space_after(a));
            }
            let out = vec![s];
            assert(views(out@) =~= edit_result(v, left, right)->Ok_0);
            Ok(out)
        }
    }

    /// Applies `op` to this one fragment.
    pub fn apply_op(self, op: &FragmentOp) -> (r: Result<Vec<NormalizedString>, NormError>)
        requires
            self@.wf(),
        ensures
            op_result(op.spec(), self@) is Ok ==> r is Ok && views(r->Ok_0@) == op_result(op.spec(), self@)->Ok_0
                && descend(self@, views(r->Ok_0@)),
            op_result(op.spec(), self@) is Err ==> r is Err && r->Err_0 == op_result(op.spec(), self@)->Err_0,
            op_never_fails(op.spec()) ==> r is Ok,
    {
        match op {
            FragmentOp::Split(p, b) => self.split(p, *b),
            FragmentOp::EditBoundaries(l, r) => self.edit_boundaries(*l, *r),
        }
    }
}

} // verus!

verus! {

/// Which text the offsets of a fragment refer to.
#[derive(Debug, Clone, Copy, PartialEq, Eq, Structural)]
pub enum OffsetReferential {
    /// The input text.
    Original,
    /// The current texts of the fragments, laid end to end.
    Normalized,
}

/// The unit of the offsets.
#[derive(Debug, Clone, Copy, PartialEq, Eq, Structural)]
pub enum OffsetType {
    Byte,
    Char,
}

/// The mathematical content of a fragment collection.
pub struct PreTokenizedView {
    pub original: Seq<char>,
    pub splits: Seq<NormalizedView>,
}

impl PreTokenizedView {
    pub open spec fn wf(self) -> bool {
        &&& byte_len(self.original) <= usize::MAX
        &&& forall|k: int| #![trigger self.splits[k]] 0 <= k < self.splits.len() ==>
            self.splits[k].wf() && self.splits[k].shift + self.splits[k].original.len() <= self.original.len()
    }
}

/// The input characters that fragment `v` covers: from its first span's start to
/// its last span's end, in the input's coordinates.
pub open spec fn extent(v: NormalizedView) -> Span {
    if v.alignments.len() > 0 {
        ((v.shift + v.alignments[0].0) as usize, (v.shift + v.alignments.last().1) as usize)
    } else {
        (v.shift as usize, v.shift as usize)
    }
}

/// `x` capped at `usize::MAX`.
pub open spec fn cap(x: int) -> usize {
    if x > usize::MAX { usize::MAX } else { x as usize }
}

/// Length of a fragment's current text in the unit `t`.
pub open spec fn unit_len(v: NormalizedView, t: OffsetType) -> int {
    match t {
        OffsetType::Char => v.normalized.len() as int,
        OffsetType::Byte => byte_len(v.normalized) as int,
    }
}

/// Where fragment `k` starts when the current texts are laid end to end.
pub open spec fn laid_start(vs: Seq<NormalizedView>, k: int, t: OffsetType) -> int
    decreases k,
{
    if k <= 0 { 0 } else { laid_start(vs, k - 1, t) + unit_len(vs[k - 1], t) }
}

/// The offsets of fragment `k` of `p`, in referential `r` and unit `t`.
pub open spec fn projected(p: PreTokenizedView, k: int, r: OffsetReferential, t: OffsetType) -> Span {
    let v = p.splits[k];
    match (r, t) {
        (OffsetReferential::Original, OffsetType::Char) => extent(v),
        (OffsetReferential::Original, OffsetType::Byte) =>
            (byte_offset(p.original, extent(v).0 as int) as usize, byte_offset(p.original, extent(v).1 as int) as usize),
        (OffsetReferential::Normalized, _) =>
            (cap(laid_start(p.splits, k, t)), cap(laid_start(p.splits, k, t) + unit_len(v, t))),
    }
}

/// The read-out of `p`: each fragment's current text with its offsets.
pub open spec fn projection(p: PreTokenizedView, r: OffsetReferential, t: OffsetType) -> Seq<(Seq<char>, Span)> {
    Seq::new(p.splits.len(), |k: int| (p.splits[k].normalized, projected(p, k, r, t)))
}

/// A fragment collection over one input text.
pub struct PreTokenizedString {
    original: Vec<char>,
    splits: Vec<NormalizedString>,
}

impl View for PreTokenizedString {
    type V = PreTokenizedView;

    closed spec fn view(&self) -> PreTokenizedView {
        PreTokenizedView { original: self.original@, splits: views(self.splits@) }
    }
}

/// `min(byte_len(t), usize::MAX)`.
fn byte_len_capped(t: &Vec<char>) -> (r: usize)
    ensures
        r == cap(byte_len(t@) as int),
{
    let mut acc: usize = 0;
    let mut i: usize = 0;
    assert(t@.take(0) =~= Seq::<char>::empty());
    while i < t.len()
        invariant
            i <= t@.len(),
            acc == cap(byte_offset(t@, i as int) as int),
        decreases t@.len() - i,
    {
        proof {
            crate::text::lemma_byte_len_step(t@, i as int);
        }
        let l = crate::text::char_len(t[i]);
        acc = if l > usize::MAX - acc { usize::MAX } else { acc + l };
        i = i + 1;
    }
    assert(t@.take(t@.len() as int) =~= t@);
    acc
}

impl PreTokenizedString {
    /// A collection holding one fragment: the whole of `s`.
    pub fn from(s: &str) -> (r: Self)
        ensures
            r@.wf(),
            r@.original == s@,
            r@.splits.len() == 1,
            r@.splits[0].original == s@ && r@.splits[0].normalized == s@ && r@.splits[0].shift == 0,
            r@.splits[0].alignments == crate::normalizer::identity_alignments(s@.len()),
            byte_len(r@.original) == s.len(),
    {
        let original = chars_of(s);
        let n = NormalizedString::from(s.to_owned());
        let splits = vec![n];
        let r = PreTokenizedString { original, splits };
        assert(r@.splits =~= seq![n@]);
        r
    }

    /// Copies of the fragments, in order.
    pub fn fragments(&self) -> (r: Vec<NormalizedString>)
        ensures
            views(r@) == self@.splits,
    {
        let mut out: Vec<NormalizedString> = Vec::new();
        let mut k: usize = 0;
        while k < self.splits.len()
            invariant
                k <= self.splits@.len(),
                views(out@) =~= views(self.splits@).take(k as int),
            decreases self.splits@.len() - k,
        {
            let ghost before = out@;
            let f = self.splits[k].copy();
            out.push(f);
            assert(views(out@) =~= views(before).push(f@));
            assert(views(self.splits@).take(k + 1) =~= views(self.splits@).take(k as int).push(self.splits@[k as int]@));
            k = k + 1;
        }
        assert(views(self.splits@).take(self.splits@.len() as int) =~= views(self.splits@));
        out
    }

    /// The fragments' current texts, in order.
    pub fn split_texts(&self) -> (r: Vec<String>)
        ensures
            r@.len() == self@.splits.len(),
            forall|k: int| #![trigger r@[k]] 0 <= k < r@.len() ==> r@[k]@ == self@.splits[k].normalized,
    {
        let mut out: Vec<String> = Vec::new();
        let mut k: usize = 0;
        while k < self.splits.len()
            invariant
                k <= self.splits@.len(),
                out@.len() == k,
                forall|j: int| #![trigger out@[j]] 0 <= j < k ==> out@[j]@ == self@.splits[j].normalized,
            decreases self.splits@.len() - k,
        {
            out.push(self.splits[k].get());
            k = k + 1;
        }
        out
    }

    /// Replaces every fragment by what `op` makes of it, in order. On the
    /// first fragment that fails, the error is returned and nothing changes.
    pub fn split(&mut self, op: &FragmentOp) -> (r: Result<(), NormError>)
        requires
            old(self)@.wf(),
        ensures
            final(self)@.wf(),
            op_all(op.spec(), old(self)@.splits) is Ok ==> r is Ok && final(self)@ == (PreTokenizedView {
                original: old(self)@.original,
                splits: op_all(op.spec(), old(self)@.splits)->Ok_0,
            }),
            op_all(op.spec(), old(self)@.splits) is Err ==> r is Err && r->Err_0 == op_all(op.spec(), old(self)@.splits)->Err_0
                && final(self)@ == old(self)@,
            op_never_fails(op.spec()) ==> r is Ok,
    {
        let ghost vs = self@.splits;
        let mut out: Vec<NormalizedString> = Vec::new();
        let mut k: usize = 0;
        assert(vs.take(0) =~= Seq::<NormalizedView>::empty());
        assert(views(out@) =~= Seq::<NormalizedView>::empty());
        while k < self.splits.len()
            invariant
                self@ == old(self)@,
                self@.wf(),
                vs == self@.splits,
                k <= vs.len(),
                op_all(op.spec(), vs.take(k as int)) == Ok::<Seq<NormalizedView>, NormError>(views(out@)),
                forall|j: int| #![trigger views(out@)[j]] 0 <= j < out@.len() ==>
                    views(out@)[j].wf() && views(out@)[j].shift + views(out@)[j].original.len() <= self@.original.len(),
            decreases vs.len() - k,
        {
            assert(vs.take(k + 1).drop_last() =~= vs.take(k as int));
            assert(vs.take(k + 1).last() == vs[k as int]);
            assert(self.splits@[k as int]@ == vs[k as int]);
            let f = self.splits[k].copy();
            match f.apply_op(op) {
                Ok(parts) => {
                    let ghost before = views(out@);
                    let ghost pv = views(parts@);
                    let mut j: usize = 0;
                    assert(pv.take(0) =~= Seq::<NormalizedView>::empty());
                    assert(views(out@) =~= before + non_empty(pv.take(0)));
                    while j < parts.len()
                        invariant
                            j <= parts@.len(),
                            pv == views(parts@),
                            self@.wf(),
                            descend(vs[k as int], pv),
                            vs[k as int].shift + vs[k as int].original.len() <= self@.original.len(),
                            views(out@) =~= before + non_empty(pv.take(j as int)),
                            forall|i: int| #![trigger views(out@)[i]] 0 <= i < out@.len() ==>
                                views(out@)[i].wf() && views(out@)[i].shift + views(out@)[i].original.len() <= self@.original.len(),
                        decreases parts@.len() - j,
                    {
                        assert(pv.take(j + 1).drop_last() =~= pv.take(j as int));
                        assert(pv.take(j + 1).last() == pv[j as int]);
                        assert(pv[j as int] == parts@[j as int]@);
                        if parts[j].len() > 0 {
                            let ghost o = views(out@);
                            let f = parts[j].copy();
                            out.push(f);
                            assert(views(out@) =~= o.push(f@));
                        }
                        j = j + 1;
                    }
                    assert(pv.take(parts@.len() as int) =~= pv);
                },
                Err(e) => {
                    proof {
                        lemma_op_all_failed_stays(op.spec(), vs, k as int + 1);
                    }
                    return Err(e);
                },
            }
            k = k + 1;
        }
        assert(vs.take(vs.len() as int) =~= vs);
        self.splits = out;
        Ok(())
    }

    /// Each fragment's current text with its offsets in referential `r` and unit `t`.
    pub fn get_splits(&self, r: OffsetReferential, t: OffsetType) -> (out: Vec<(String, Span)>)
        requires
            self@.wf(),
        ensures
            out@.len() == self@.splits.len(),
            forall|k: int| #![trigger out@[k]] 0 <= k < out@.len() ==>
                (out@[k].0@, out@[k].1) == projection(self@, r, t)[k],
    {
        let ghost p = self@;
        let offsets = byte_offsets(&self.original);
        let mut out: Vec<(String, Span)> = Vec::new();
        let mut run: usize = 0;
        let mut k: usize = 0;
        while k < self.splits.len()
            invariant
                self@ == p,
                p.wf(),
                k <= p.splits.len(),
                offsets@.len() == p.original.len() + 1,
                forall|j: int| #![trigger offsets@[j]] 0 <= j <= p.original.len() ==> offsets@[j] == byte_offset(p.original, j),
                run == cap(laid_start(p.splits, k as int, t)),
                laid_start(p.splits, k as int, t) >= 0,
                out@.len() == k,
                forall|j: int| #![trigger out@[j]] 0 <= j < k ==> (out@[j].0@, out@[j].1) == projection(p, r, t)[j],
            decreases p.splits.len() - k,
        {
            let f = &self.splits[k];
            let ghost v = p.splits[k as int];
            assert(f@ == v);
            let al = f.alignments();
            let shift = f.original_shift();
            let n = al.len();
            assert(v.wf());
            let ext: Span = if n > 0 {
                assert(v.alignments[0].0 <= v.alignments[0].1 <= v.original.len());
                assert(v.alignments[n - 1].0 <= v.alignments[n - 1].1 <= v.original.len());
                (shift + al[0].0, shift + al[n - 1].1)
            } else {
                (shift, shift)
            };
            assert(ext == extent(v));
            let len: usize = match t {
                OffsetType::Char => f.len(),
                OffsetType::Byte => byte_len_capped(&f.normalized_chars()),
            };
            assert(len == cap(unit_len(v, t)));
            let end: usize = if len > usize::MAX - run { usize::MAX } else { run + len };
            assert(end == cap(laid_start(p.splits, k as int, t) + unit_len(v, t)));
            let span: Span = match r {
                OffsetReferential::Original => match t {
                    OffsetType::Char => ext,
                    OffsetType::Byte => (offsets[ext.0], offsets[ext.1]),
                },
                OffsetReferential::Normalized => (run, end),
            };
            out.push((f.get(), span));
            assert(laid_start(p.splits, k + 1, t) == laid_start(p.splits, k as int, t) + unit_len(v, t));
            run = end;
            k = k + 1;
        }
        out
    }
}

proof fn lemma_op_all_failed_stays(op: OpSpec, vs: Seq<NormalizedView>, k: int)
    requires
        0 <= k <= vs.len(),
        op_all(op, vs.take(k)) is Err,
    ensures
        op_all(op, vs) is Err,
        op_all(op, vs)->Err_0 == op_all(op, vs.take(k))->Err_0,
    decreases vs.len() - k,
{
    if k < vs.len() {
        assert(vs.take(k + 1).drop_last() =~= vs.take(k));
        lemma_op_all_failed_stays(op, vs, k + 1);
    } else {
        assert(vs.take(k) =~= vs);
    }
}

} // verus!
