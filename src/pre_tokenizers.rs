//! Split strategies over a fragment collection.
use vstd::prelude::*;
use crate::normalizer::NormError;
use crate::pretokenizer::{PreTokenizedString, PreTokenizedView, FragmentOp, OpSpec, RuleSpec, SplitPattern,
    PatternRule, SplitDelimiterBehavior, op_all};

verus! {

/// Runs of word characters, and runs of characters that are neither word
/// characters nor whitespace.
pub const WORD_PATTERN: &'static str = r"\w+|[^\w\s]+";

/// What applying `op` to every fragment of `p` leaves, and the error when it fails.
pub open spec fn applied(p: PreTokenizedView, op: OpSpec) -> Result<PreTokenizedView, crate::normalizer::NormError> {
    match op_all(op, p.splits) {
        Ok(s) => Ok(PreTokenizedView { original: p.original, splits: s }),
        Err(e) => Err(e),
    }
}

/// Splitting any list of fragments on whitespace characters succeeds.
pub proof fn lemma_whitespace_split_succeeds(vs: Seq<crate::normalizer::NormalizedView>)
    ensures
        op_all(WhitespaceSplit::op(), vs) is Ok,
    decreases vs.len(),
{
    if vs.len() > 0 {
        lemma_whitespace_split_succeeds(vs.drop_last());
    }
}

/// Keeps the runs that [`WORD_PATTERN`] matches and drops everything between them.
#[derive(Debug, Clone, Copy, PartialEq, Eq, Structural)]
pub struct Whitespace;

impl Whitespace {
    pub open spec fn op() -> OpSpec {
        OpSpec::Split(RuleSpec::Regex(WORD_PATTERN@), true, SplitDelimiterBehavior::Removed)
    }

    pub fn default() -> (r: Self) {
        Whitespace
    }

    /// Succeeds whenever the word pattern compiles.
    pub fn pre_tokenize(&self, p: &mut PreTokenizedString) -> (r: Result<(), NormError>)
        requires
            old(p)@.wf(),
        ensures
            final(p)@.wf(),
            crate::pattern::regex_valid(WORD_PATTERN@) ==> r is Ok,
            applied(old(p)@, Self::op()) is Ok ==> r is Ok && final(p)@ == applied(old(p)@, Self::op())->Ok_0,
            applied(old(p)@, Self::op()) is Err ==> r is Err && r->Err_0 == applied(old(p)@, Self::op())->Err_0
                && final(p)@ == old(p)@,
    {
        let pattern = SplitPattern { rule: PatternRule::Regex(WORD_PATTERN.to_owned()), inverted: true };
        let op = FragmentOp::Split(pattern, SplitDelimiterBehavior::Removed);
        assert(op.spec() == Self::op());
        p.split(&op)
    }
}

/// Splits on whitespace characters, which are dropped.
#[derive(Debug, Clone, Copy, PartialEq, Eq, Structural)]
pub struct WhitespaceSplit;

impl WhitespaceSplit {
    pub open spec fn op() -> OpSpec {
        OpSpec::Split(RuleSpec::WhitespaceChar, false, SplitDelimiterBehavior::Removed)
    }

    /// Always succeeds: splitting on whitespace characters cannot fail.
    pub fn pre_tokenize(&self, p: &mut PreTokenizedString) -> (r: Result<(), NormError>)
        requires
            old(p)@.wf(),
        ensures
            r is Ok,
            final(p)@.wf(),
            applied(old(p)@, Self::op()) is Ok ==> r is Ok && final(p)@ == applied(old(p)@, Self::op())->Ok_0,
            applied(old(p)@, Self::op()) is Err ==> r is Err && r->Err_0 == applied(old(p)@, Self::op())->Err_0
                && final(p)@ == old(p)@,
    {
        let op = FragmentOp::Split(SplitPattern { rule: PatternRule::WhitespaceChar, inverted: false }, SplitDelimiterBehavior::Removed);
        proof {
            lemma_whitespace_split_succeeds(old(p)@.splits);
        }
        p.split(&op)
    }
}

/// What to do with the space at one end of a fragment.
#[derive(Debug, Clone, Copy, PartialEq, Eq, Structural)]
pub enum EditBoundariesBehavior {
    Unchanged,
    EnsureSpace,
    StripSpace,
}

/// Ensures or strips a separating space at each end of every fragment.
#[derive(Debug, Clone, Copy, PartialEq, Eq, Structural)]
pub struct EditBoundaries {
    left: EditBoundariesBehavior,
    right: EditBoundariesBehavior,
}

/// The behaviour a side takes when none is given.
pub fn default_none() -> (r: EditBoundariesBehavior)
    ensures
        r == EditBoundariesBehavior::Unchanged,
{
    EditBoundariesBehavior::Unchanged
}

impl EditBoundaries {
    pub fn new(left: EditBoundariesBehavior, right: EditBoundariesBehavior) -> (r: Self)
        ensures
            r.left() == left,
            r.right() == right,
    {
        EditBoundaries { left, right }
    }

    pub closed spec fn left(&self) -> EditBoundariesBehavior {
        self.left
    }

    pub closed spec fn right(&self) -> EditBoundariesBehavior {
        self.right
    }

    pub open spec fn op(&self) -> OpSpec {
        OpSpec::EditBoundaries(self.left(), self.right())
    }

    pub fn pre_tokenize(&self, p: &mut PreTokenizedString) -> (r: Result<(), NormError>)
        requires
            old(p)@.wf(),
        ensures
            final(p)@.wf(),
            applied(old(p)@, self.op()) is Ok ==> r is Ok && final(p)@ == applied(old(p)@, self.op())->Ok_0,
            applied(old(p)@, self.op()) is Err ==> r is Err && r->Err_0 == applied(old(p)@, self.op())->Err_0
                && final(p)@ == old(p)@,
    {
        p.split(&FragmentOp::EditBoundaries(self.left, self.right))
    }
}

} // verus!
