//! Properties that hold of every buffer and every split, proved over the
//! models that the operations' contracts use.
use vstd::prelude::*;
use crate::normalizer::{count_at_most, count_before, original_range_to_current, NormalizedView, Span, span_le, monotone, spans_within, rewrite_run, rewrite_step,
    slice_view, identity_alignments, kept_positions};
use crate::pattern::{Piece, tiles, fill_run, partition_of, invert};
use crate::pretokenizer::{OpSpec, op_all, op_result, non_empty, PreTokenizedView, OffsetReferential, OffsetType, SplitDelimiterBehavior, select,
    slices_of, projection, RuleSpec, pattern_pieces, split_result};

verus! {

/// A prefix of a successful rewrite is a successful rewrite, and builds the
/// matching prefix of the table.
pub proof fn lemma_rewrite_prefix(old: Seq<Span>, rw: Seq<(char, isize)>, start: int, i: int)
    requires
        0 <= i <= rw.len(),
        rewrite_run(old, rw, start).0,
    ensures
        rewrite_run(old, rw.take(i), start).0,
        rewrite_run(old, rw, start).2.len() == rw.len(),
        rewrite_run(old, rw.take(i), start).2 == rewrite_run(old, rw, start).2.take(i),
    decreases rw.len(),
{
    if rw.len() > 0 {
        let q = rw.drop_last();
        assert(rewrite_run(old, q, start).0);
        lemma_rewrite_prefix(old, q, start, if i < rw.len() { i } else { q.len() as int });
        if i == rw.len() {
            assert(rw.take(i) =~= rw);
        } else {
            assert(rw.take(i) =~= q.take(i));
            assert(rewrite_run(old, rw, start).2.take(i) =~= rewrite_run(old, q, start).2.take(i));
        }
    } else {
        assert(rw.take(i) =~= rw);
    }
}

/// A rewrite of a monotone table within `[0, n]` builds a monotone table
/// within `[0, n]`, whose last span is the one under the cursor.
pub proof fn lemma_rewrite_monotone(old: Seq<Span>, rw: Seq<(char, isize)>, start: int, n: nat)
    requires
        monotone(old),
        spans_within(old, n),
        rewrite_run(old, rw, start).0,
    ensures
        monotone(rewrite_run(old, rw, start).2),
        spans_within(rewrite_run(old, rw, start).2, n),
        rewrite_run(old, rw, start).2.len() > 0 ==> 0 <= rewrite_run(old, rw, start).1 < old.len()
            && rewrite_run(old, rw, start).2.last() == old[rewrite_run(old, rw, start).1],
    decreases rw.len(),
{
    if rw.len() > 0 {
        let q = rw.drop_last();
        let acc = rewrite_run(old, q, start);
        assert(acc.0);
        lemma_rewrite_monotone(old, q, start, n);
        let d = rw.last().1;
        let res = rewrite_run(old, rw, start);
        assert(res == rewrite_step(old, acc, d));
        if d == 0 && acc.2.len() > 0 {
            assert(res.2 == acc.2.push(acc.2.last()) && res.1 == acc.1);
        } else {
            assert(res.1 == acc.1 + d && res.2 == acc.2.push(old[acc.1 + d]));
        }
        let al = res.2;
        let c = res.1;
        assert(al.last() == old[c]);
        assert(old[c].0 <= old[c].1 <= n);
        if acc.2.len() > 0 {
            assert forall|j: int| #![trigger acc.2[j]] 0 <= j < acc.2.len() implies span_le(acc.2[j], old[c]) by {
                assert(span_le(acc.2[j], acc.2.last()));
                assert(span_le(old[acc.1], old[c]));
            }
        }
        assert forall|a: int, b: int| #![trigger al[a], al[b]] 0 <= a <= b < al.len() implies span_le(al[a], al[b]) by {
            if b == al.len() - 1 && a < b {
                assert(al[a] == acc.2[a]);
                assert(span_le(acc.2[a], old[c]));
            } else if b < al.len() - 1 {
                assert(al[a] == acc.2[a] && al[b] == acc.2[b]);
            }
        }
        assert forall|a: int| #![trigger al[a]] 0 <= a < al.len() implies al[a].0 <= al[a].1 <= n by {
            if a < al.len() - 1 {
                assert(al[a] == acc.2[a]);
            }
        }
    }
}

/// Alignment monotonicity: whatever rewrite is applied to a well-formed
/// buffer, when it succeeds the new table is again non-decreasing in both
/// endpoints and within the original text.
pub proof fn lemma_alignment_monotone(v: NormalizedView, rw: Seq<(char, isize)>, start: int)
    requires
        v.wf(),
        rewrite_run(v.alignments, rw, start).0,
    ensures
        monotone(rewrite_run(v.alignments, rw, start).2),
        spans_within(rewrite_run(v.alignments, rw, start).2, v.original.len()),
{
    lemma_rewrite_monotone(v.alignments, rw, start, v.original.len());
}

/// Fan-out: when the rewrite steps after position `a` up to `a + k` are all
/// zero, those outputs share output `a`'s span, so each of them resolves to
/// the same original text.
pub proof fn lemma_fan_out(v: NormalizedView, rw: Seq<(char, isize)>, start: int, a: int, k: int)
    requires
        v.wf(),
        rewrite_run(v.alignments, rw, start).0,
        0 <= a,
        1 <= k,
        a + k <= rw.len(),
        forall|m: int| a < m < a + k ==> #[trigger] rw[m].1 == 0,
    ensures
        forall|m: int| a <= m < a + k ==> #[trigger] rewrite_run(v.alignments, rw, start).2[m] == rewrite_run(v.alignments, rw, start).2[a],
        forall|m: int| a <= m < a + k ==> #[trigger] slice_view((NormalizedView {
            original: v.original,
            normalized: crate::normalizer::rewrite_chars(rw),
            alignments: rewrite_run(v.alignments, rw, start).2,
            shift: v.shift,
        }), m, m + 1).original == v.original.subrange(
            rewrite_run(v.alignments, rw, start).2[a].0 as int, rewrite_run(v.alignments, rw, start).2[a].1 as int),
{
    let al = rewrite_run(v.alignments, rw, start).2;
    assert forall|m: int| a <= m < a + k implies #[trigger] al[m] == al[a] by {
        lemma_fan_out_step(v.alignments, rw, start, a, m);
    }
    lemma_rewrite_prefix(v.alignments, rw, start, rw.len() as int);
}

proof fn lemma_fan_out_step(old: Seq<Span>, rw: Seq<(char, isize)>, start: int, a: int, m: int)
    requires
        rewrite_run(old, rw, start).0,
        0 <= a <= m < rw.len(),
        forall|x: int| a < x <= m ==> #[trigger] rw[x].1 == 0,
    ensures
        rewrite_run(old, rw, start).2[m] == rewrite_run(old, rw, start).2[a],
    decreases m - a,
{
    if m > a {
        lemma_fan_out_step(old, rw, start, a, m - 1);
        let t = rw.take(m + 1);
        lemma_rewrite_prefix(old, rw, start, m + 1);
        lemma_rewrite_prefix(old, rw, start, m);
        assert(t.drop_last() =~= rw.take(m));
        assert(t.last() == rw[m]);
        let pre = rewrite_run(old, rw.take(m), start);
        let before = pre.2;
        lemma_rewrite_prefix(old, rw.take(m), start, 0);
        assert(rw.take(m).len() == m);
        assert(before.len() == m);
        assert(rewrite_run(old, t, start) == rewrite_step(old, pre, 0isize));
        assert(rewrite_run(old, t, start).2 == before.push(before.last()));
        let al = rewrite_run(old, rw, start).2;
        assert(al.take(m + 1)[m] == al[m]);
        assert(al.take(m)[m - 1] == al[m - 1]);
    }
}

/// Deleting one character removes exactly its entry of the table: every
/// other entry stays, in order, with nothing in its place.
pub proof fn lemma_filter_removes_one(s: Seq<char>, al: Seq<Span>, keep: spec_fn(char) -> bool, d: int)
    requires
        s.len() == al.len(),
        0 <= d < s.len(),
        !keep(s[d]),
        forall|i: int| 0 <= i < s.len() && i != d ==> #[trigger] keep(s[i]),
    ensures
        kept_positions(s, keep).map_values(|j: int| al[j]) == al.remove(d),
        kept_positions(s, keep).map_values(|j: int| s[j]) == s.remove(d),
{
    lemma_kept_all_but(s, keep, d, s.len() as int);
    assert(s.take(s.len() as int) =~= s);
    let kp = kept_positions(s, keep);
    assert(kp.map_values(|j: int| al[j]) =~= al.remove(d));
    assert(kp.map_values(|j: int| s[j]) =~= s.remove(d));
}

proof fn lemma_kept_all_but(s: Seq<char>, keep: spec_fn(char) -> bool, d: int, n: int)
    requires
        0 <= d < s.len(),
        0 <= n <= s.len(),
        !keep(s[d]),
        forall|i: int| 0 <= i < s.len() && i != d ==> #[trigger] keep(s[i]),
    ensures
        kept_positions(s.take(n), keep) == Seq::new((if n > d { n - 1 } else { n }) as nat, |j: int| if j < d { j } else { j + 1 }),
    decreases n,
{
    if n > 0 {
        lemma_kept_all_but(s, keep, d, n - 1);
        assert(s.take(n).drop_last() =~= s.take(n - 1));
        assert(s.take(n).last() == s[n - 1]);
        let prev = kept_positions(s.take(n - 1), keep);
        if n - 1 == d {
            assert(kept_positions(s.take(n), keep) == prev);
            assert(prev =~= Seq::new((n - 1) as nat, |j: int| if j < d { j } else { j + 1 }));
        } else {
            assert(kept_positions(s.take(n), keep) == prev.push(n - 1));
            assert(prev.push(n - 1) =~= Seq::new((if n > d { n - 1 } else { n }) as nat, |j: int| if j < d { j } else { j + 1 }));
        }
    } else {
        assert(s.take(0) =~= Seq::<char>::empty());
        assert(Seq::<int>::empty() =~= Seq::new(0nat, |j: int| if j < d { j } else { j + 1 }));
    }
}

proof fn lemma_identity_counts(m: nat, n: nat)
    requires
        m <= n < usize::MAX,
    ensures
        count_at_most(identity_alignments(m), 0, true) == 0,
        count_before(identity_alignments(m), n as int) == m,
    decreases m,
{
    if m > 0 {
        assert(identity_alignments(m).drop_last() =~= identity_alignments((m - 1) as nat));
        lemma_identity_counts((m - 1) as nat, n);
    }
}

/// Round trip: a buffer made from `t` with no rewrite gives back `t` as its
/// whole current range, as the original range that covers, and as the current
/// text that the whole original range reaches.
pub proof fn lemma_round_trip(t: Seq<char>, v: NormalizedView)
    requires
        t.len() < usize::MAX,
        v.original == t,
        v.normalized == t,
        v.alignments == identity_alignments(t.len()),
    ensures
        slice_view(v, 0, t.len() as int).normalized == t,
        slice_view(v, 0, t.len() as int).original == t,
        original_range_to_current(v.alignments, 0, t.len() as int) == (0int, t.len() as int),
        v.normalized.subrange(0, t.len() as int) == t,
{
    lemma_identity_counts(t.len(), t.len());
    assert(t.subrange(0, t.len() as int) =~= t);
    if t.len() > 0 {
        assert(v.alignments[0].0 == 0);
        assert(v.alignments[t.len() - 1].1 == t.len());
    }
}

/// The span of entry `i` of fragment `f` in the coordinates of the text it
/// was carved from.
pub open spec fn absolute(f: NormalizedView, i: int) -> (int, int) {
    ((f.shift + f.alignments[i].0) as int, (f.shift + f.alignments[i].1) as int)
}

/// Spans never overlap: each ends before the next starts.
pub open spec fn disjoint(al: Seq<Span>) -> bool {
    forall|i: int, j: int| #![trigger al[i], al[j]] 0 <= i < j < al.len() ==> al[i].1 <= al[j].0
}

proof fn lemma_tiles_sorted(ps: Seq<Piece>, n: nat)
    requires
        tiles(ps, n),
    ensures
        forall|a: int, b: int| #![trigger ps[a], ps[b]] 0 <= a < b < ps.len() ==> ps[a].1 <= ps[b].0,
{
    assert forall|a: int, b: int| #![trigger ps[a], ps[b]] 0 <= a < b < ps.len() implies ps[a].1 <= ps[b].0 by {
        lemma_tiles_sorted_from(ps, n, a, b);
    }
}

proof fn lemma_tiles_sorted_from(ps: Seq<Piece>, n: nat, a: int, b: int)
    requires
        tiles(ps, n),
        0 <= a < b < ps.len(),
    ensures
        ps[a].1 <= ps[b].0,
    decreases b - a,
{
    assert(ps[b - 1].1 == ps[b].0);
    if b - 1 > a {
        lemma_tiles_sorted_from(ps, n, a, b - 1);
    }
}

proof fn lemma_select_bounded(ps: Seq<Piece>, b: SplitDelimiterBehavior, bound: int)
    requires
        forall|k: int| #![trigger ps[k]] 0 <= k < ps.len() ==> ps[k].1 <= bound && ps[k].0 < ps[k].1,
    ensures
        forall|k: int| #![trigger select(ps, b)[k]] 0 <= k < select(ps, b).len() ==> select(ps, b)[k].1 <= bound && select(ps, b)[k].0 < select(ps, b)[k].1,
    decreases ps.len(),
{
    if ps.len() > 0 {
        let q = ps.drop_last();
        assert(forall|k: int| #![trigger q[k]] 0 <= k < q.len() ==> q[k] == ps[k]);
        lemma_select_bounded(q, b, bound);
        assert(ps.last() == ps[ps.len() - 1]);
        let sq = select(q, b);
        let sp = select(ps, b);
        if b == SplitDelimiterBehavior::Isolated || !ps.last().2 {
            assert(sp == sq.push((ps.last().0, ps.last().1)));
            assert forall|k: int| #![trigger sp[k]] 0 <= k < sp.len() implies sp[k].1 <= bound && sp[k].0 < sp[k].1 by {
                if k < sq.len() {
                    assert(sp[k] == sq[k]);
                }
            }
        } else {
            assert(sp == sq);
        }
    }
}

proof fn lemma_select_sorted(ps: Seq<Piece>, b: SplitDelimiterBehavior)
    requires
        forall|x: int, y: int| #![trigger ps[x], ps[y]] 0 <= x < y < ps.len() ==> ps[x].1 <= ps[y].0,
        forall|k: int| #![trigger ps[k]] 0 <= k < ps.len() ==> ps[k].0 < ps[k].1,
    ensures
        forall|x: int, y: int| #![trigger select(ps, b)[x], select(ps, b)[y]] 0 <= x < y < select(ps, b).len() ==> select(ps, b)[x].1 <= select(ps, b)[y].0,
    decreases ps.len(),
{
    if ps.len() > 0 {
        let q = ps.drop_last();
        assert(forall|k: int| #![trigger q[k]] 0 <= k < q.len() ==> q[k] == ps[k]);
        lemma_select_sorted(q, b);
        let last = ps[ps.len() - 1];
        assert(ps.last() == last);
        assert forall|k: int| #![trigger q[k]] 0 <= k < q.len() implies q[k].1 <= last.0 && q[k].0 < q[k].1 by {
            assert(ps[k].1 <= ps[ps.len() - 1].0);
        }
        lemma_select_bounded(q, b, last.0 as int);
        let sq = select(q, b);
        let sp = select(ps, b);
        if b == SplitDelimiterBehavior::Isolated || !last.2 {
            assert(sp == sq.push((last.0, last.1)));
            assert forall|x: int, y: int| #![trigger sp[x], sp[y]] 0 <= x < y < sp.len() implies sp[x].1 <= sp[y].0 by {
                assert(sp[x] == sq[x]);
                if y < sq.len() {
                    assert(sp[y] == sq[y]);
                }
            }
        } else {
            assert(sp == sq);
        }
    }
}

/// The fragments that a tiling carves from `v` when delimiters are removed.
pub open spec fn removed_split(v: NormalizedView, ps: Seq<Piece>) -> Seq<NormalizedView> {
    slices_of(v, select(ps, SplitDelimiterBehavior::Removed))
}

/// Split coverage: with delimiters removed, the fragments carved from a
/// well-formed buffer by any tiling keep their order in the text they came
/// from; when the buffer's own spans do not overlap, no fragment's span
/// overlaps another's.
pub proof fn lemma_split_coverage(v: NormalizedView, ps: Seq<Piece>)
    requires
        v.wf(),
        tiles(ps, v.normalized.len()),
    ensures
        forall|k1: int, k2: int, i: int, j: int|
            #![trigger absolute(removed_split(v, ps)[k1], i), absolute(removed_split(v, ps)[k2], j)]
            0 <= k1 < k2 < removed_split(v, ps).len()
            && 0 <= i < removed_split(v, ps)[k1].alignments.len()
            && 0 <= j < removed_split(v, ps)[k2].alignments.len() ==> {
                let a = absolute(removed_split(v, ps)[k1], i);
                let b = absolute(removed_split(v, ps)[k2], j);
                &&& a.0 <= b.0 && a.1 <= b.1
                &&& disjoint(v.alignments) ==> a.1 <= b.0
            },
{
    let rs = select(ps, SplitDelimiterBehavior::Removed);
    let fs = slices_of(v, rs);
    lemma_tiles_sorted(ps, v.normalized.len());
    lemma_select_sorted(ps, SplitDelimiterBehavior::Removed);
    lemma_select_bounded(ps, SplitDelimiterBehavior::Removed, v.normalized.len() as int);
    assert forall|k1: int, k2: int, i: int, j: int|
        #![trigger absolute(fs[k1], i), absolute(fs[k2], j)]
        0 <= k1 < k2 < fs.len() && 0 <= i < fs[k1].alignments.len() && 0 <= j < fs[k2].alignments.len() implies {
            let a = absolute(fs[k1], i);
            let b = absolute(fs[k2], j);
            &&& a.0 <= b.0 && a.1 <= b.1
            &&& disjoint(v.alignments) ==> a.1 <= b.0
        } by {
        let r1 = rs[k1];
        let r2 = rs[k2];
        assert(r1.1 <= r2.0);
        let x = r1.0 + i;
        let y = r2.0 + j;
        assert(x < y);
        assert(span_le(v.alignments[r1.0 as int], v.alignments[x]));
        assert(span_le(v.alignments[r2.0 as int], v.alignments[y]));
        assert(v.alignments[r1.0 as int].0 <= v.alignments[r1.0 as int].1);
        assert(fs[k1].alignments[i] == ((v.alignments[x].0 - v.alignments[r1.0 as int].0) as usize, (v.alignments[x].1 - v.alignments[r1.0 as int].0) as usize));
        assert(fs[k2].alignments[j] == ((v.alignments[y].0 - v.alignments[r2.0 as int].0) as usize, (v.alignments[y].1 - v.alignments[r2.0 as int].0) as usize));
        assert(span_le(v.alignments[x], v.alignments[y]));
    }
}

/// A read-out matches the projection of `p`.
pub open spec fn reads_out(out: Seq<(String, Span)>, p: PreTokenizedView, r: OffsetReferential, t: OffsetType) -> bool {
    &&& out.len() == p.splits.len()
    &&& forall|k: int| #![trigger out[k]] 0 <= k < out.len() ==> (out[k].0@, out[k].1) == projection(p, r, t)[k]
}

/// Projection determinism: two read-outs of the same collection, with no
/// change between them, hold the same texts and the same offsets.
pub proof fn lemma_projection_deterministic(p: PreTokenizedView, r: OffsetReferential, t: OffsetType,
    out1: Seq<(String, Span)>, out2: Seq<(String, Span)>)
    requires
        reads_out(out1, p, r, t),
        reads_out(out2, p, r, t),
    ensures
        out1.len() == out2.len(),
        forall|k: int| #![trigger out1[k], out2[k]] 0 <= k < out1.len() ==> out1[k].0@ == out2[k].0@ && out1[k].1 == out2[k].1,
{
    assert forall|k: int| #![trigger out1[k], out2[k]] 0 <= k < out1.len() implies out1[k].0@ == out2[k].0@ && out1[k].1 == out2[k].1 by {
        assert((out1[k].0@, out1[k].1) == projection(p, r, t)[k]);
        assert((out2[k].0@, out2[k].1) == projection(p, r, t)[k]);
    }
}

proof fn lemma_fill_run(m: Seq<Span>, n: nat)
    ensures
        0 <= fill_run(m, n).0 <= n,
        forall|k: int| #![trigger fill_run(m, n).1[k]] 0 <= k < fill_run(m, n).1.len() ==>
            fill_run(m, n).1[k].0 < fill_run(m, n).1[k].1 <= n,
        forall|k: int| 0 <= k < fill_run(m, n).1.len() - 1 ==> #[trigger] fill_run(m, n).1[k].1 == fill_run(m, n).1[k + 1].0,
        fill_run(m, n).1.len() > 0 ==> fill_run(m, n).1[0].0 == 0 && fill_run(m, n).1.last().1 == fill_run(m, n).0,
        fill_run(m, n).1.len() == 0 ==> fill_run(m, n).0 == 0,
    decreases m.len(),
{
    if m.len() > 0 {
        lemma_fill_run(m.drop_last(), n);
        let acc = fill_run(m.drop_last(), n);
        let (s, e) = m.last();
        if acc.0 <= s && s <= e && e <= n {
            let with_gap = if acc.0 < s { acc.1.push((acc.0 as usize, s, false)) } else { acc.1 };
            let with_match = if s < e { with_gap.push((s, e, true)) } else { with_gap };
            assert(fill_run(m, n) == (e as int, with_match));
            assert(forall|k: int| 0 <= k < acc.1.len() ==> with_gap[k] == #[trigger] acc.1[k]);
            assert(forall|k: int| 0 <= k < with_gap.len() ==> with_match[k] == #[trigger] with_gap[k]);
        }
    }
}

/// Every partition of `[0, n)` by matches, inverted or not, tiles it.
pub proof fn lemma_partition_tiles(m: Seq<Span>, n: nat, inverted: bool)
    requires
        n <= usize::MAX,
    ensures
        tiles(if inverted { invert(partition_of(m, n)) } else { partition_of(m, n) }, n),
{
    lemma_fill_run(m, n);
    let acc = fill_run(m, n);
    let ps = partition_of(m, n);
    if acc.0 < n {
        assert(ps == acc.1.push((acc.0 as usize, n as usize, false)));
        assert(forall|k: int| 0 <= k < acc.1.len() ==> ps[k] == #[trigger] acc.1[k]);
        assert(ps.last().1 == n);
        if acc.1.len() > 0 {
            assert(ps[acc.1.len() - 1].1 == ps[acc.1.len() as int].0);
        }
    } else {
        assert(ps == acc.1);
    }
    assert(tiles(ps, n));
    let q = invert(ps);
    assert(forall|k: int| 0 <= k < ps.len() ==> #[trigger] q[k] == (ps[k].0, ps[k].1, !ps[k].2));
}

/// Split coverage for the splitter itself: when splitting a well-formed
/// buffer with delimiters removed succeeds, the fragments keep their order in
/// the text they came from, and do not overlap when the buffer's spans do not.
pub proof fn lemma_split_in_order(v: NormalizedView, rule: RuleSpec, inverted: bool)
    requires
        v.wf(),
        v.normalized.len() <= usize::MAX,
        split_result(v, rule, inverted, SplitDelimiterBehavior::Removed) is Ok,
    ensures
        forall|k1: int, k2: int, i: int, j: int|
            #![trigger absolute(split_result(v, rule, inverted, SplitDelimiterBehavior::Removed)->Ok_0[k1], i),
                absolute(split_result(v, rule, inverted, SplitDelimiterBehavior::Removed)->Ok_0[k2], j)]
            0 <= k1 < k2 < split_result(v, rule, inverted, SplitDelimiterBehavior::Removed)->Ok_0.len()
            && 0 <= i < split_result(v, rule, inverted, SplitDelimiterBehavior::Removed)->Ok_0[k1].alignments.len()
            && 0 <= j < split_result(v, rule, inverted, SplitDelimiterBehavior::Removed)->Ok_0[k2].alignments.len() ==> {
                let a = absolute(split_result(v, rule, inverted, SplitDelimiterBehavior::Removed)->Ok_0[k1], i);
                let b = absolute(split_result(v, rule, inverted, SplitDelimiterBehavior::Removed)->Ok_0[k2], j);
                &&& a.0 <= b.0 && a.1 <= b.1
                &&& disjoint(v.alignments) ==> a.1 <= b.0
            },
{
    let ps = pattern_pieces(rule, inverted, v.normalized)->Ok_0;
    let m: Seq<Span> = match rule {
        RuleSpec::WhitespaceChar => crate::pattern::char_matches(v.normalized, |c: char| crate::pattern::is_ws(c)),
        RuleSpec::Regex(p) => crate::pattern::char_spans(v.normalized, crate::pattern::regex_byte_matches(p, v.normalized)),
    };
    assert(ps == if inverted { invert(partition_of(m, v.normalized.len())) } else { partition_of(m, v.normalized.len()) });
    lemma_partition_tiles(m, v.normalized.len(), inverted);
    lemma_split_coverage(v, ps);
    assert(split_result(v, rule, inverted, SplitDelimiterBehavior::Removed)->Ok_0 == removed_split(v, ps));
}

/// No empty fragments: whatever step is applied to a collection, every
/// fragment it leaves has a non-empty current text.
pub proof fn lemma_no_empty_fragments(op: OpSpec, vs: Seq<NormalizedView>)
    requires
        op_all(op, vs) is Ok,
    ensures
        forall|k: int| 0 <= k < op_all(op, vs)->Ok_0.len() ==> (#[trigger] op_all(op, vs)->Ok_0[k]).normalized.len() > 0,
    decreases vs.len(),
{
    if vs.len() > 0 {
        lemma_no_empty_fragments(op, vs.drop_last());
        let a = op_all(op, vs.drop_last())->Ok_0;
        let b = op_result(op, vs.last())->Ok_0;
        lemma_non_empty(b);
        assert(op_all(op, vs)->Ok_0 == a + non_empty(b));
        assert forall|k: int| 0 <= k < op_all(op, vs)->Ok_0.len() implies (#[trigger] op_all(op, vs)->Ok_0[k]).normalized.len() > 0 by {
            if k < a.len() {
                assert(op_all(op, vs)->Ok_0[k] == a[k]);
            } else {
                assert(op_all(op, vs)->Ok_0[k] == non_empty(b)[k - a.len()]);
            }
        }
    }
}

proof fn lemma_non_empty(s: Seq<NormalizedView>)
    ensures
        forall|k: int| 0 <= k < non_empty(s).len() ==> (#[trigger] non_empty(s)[k]).normalized.len() > 0,
    decreases s.len(),
{
    if s.len() > 0 {
        lemma_non_empty(s.drop_last());
        let r = non_empty(s.drop_last());
        if s.last().normalized.len() > 0 {
            assert forall|k: int| 0 <= k < non_empty(s).len() implies (#[trigger] non_empty(s)[k]).normalized.len() > 0 by {
                if k < r.len() {
                    assert(non_empty(s)[k] == r[k]);
                }
            }
        }
    }
}

/// Round trip in bytes: a collection made from a non-empty text `t`, with no
/// step applied, reads out one fragment holding `t` whose offsets are
/// `(0, byte length of t)` in the original and in the normalized referential.
pub proof fn lemma_round_trip_bytes(t: Seq<char>, p: PreTokenizedView)
    requires
        p.wf(),
        t.len() > 0,
        p.original == t,
        p.splits.len() == 1,
        p.splits[0].original == t && p.splits[0].normalized == t && p.splits[0].shift == 0,
        p.splits[0].alignments == identity_alignments(t.len()),
    ensures
        projection(p, OffsetReferential::Original, OffsetType::Byte) == seq![(t, (0usize, crate::text::byte_len(t) as usize))],
        projection(p, OffsetReferential::Normalized, OffsetType::Byte) == seq![(t, (0usize, crate::text::byte_len(t) as usize))],
{
    let v = p.splits[0];
    assert(v.alignments[0].0 == 0);
    assert(v.alignments[t.len() - 1].1 == t.len());
    assert(crate::pretokenizer::extent(v) == (0usize, t.len() as usize));
    assert(t.take(0) =~= Seq::<char>::empty());
    assert(t.take(t.len() as int) =~= t);
    assert(crate::pretokenizer::laid_start(p.splits, 0, OffsetType::Byte) == 0);
    assert(projection(p, OffsetReferential::Original, OffsetType::Byte) =~= seq![(t, (0usize, crate::text::byte_len(t) as usize))]);
    assert(projection(p, OffsetReferential::Normalized, OffsetType::Byte) =~= seq![(t, (0usize, crate::text::byte_len(t) as usize))]);
}

/// Split coverage in bytes: fragments whose original character extents are
/// in order and within the input have byte offsets in the same order.
pub proof fn lemma_byte_projection_order(p: PreTokenizedView, k1: int, k2: int)
    requires
        p.wf(),
        0 <= k1 < p.splits.len(),
        0 <= k2 < p.splits.len(),
        crate::pretokenizer::extent(p.splits[k1]).0 <= crate::pretokenizer::extent(p.splits[k1]).1,
        crate::pretokenizer::extent(p.splits[k1]).1 <= crate::pretokenizer::extent(p.splits[k2]).0,
        crate::pretokenizer::extent(p.splits[k2]).0 <= crate::pretokenizer::extent(p.splits[k2]).1 <= p.original.len(),
    ensures
        projection(p, OffsetReferential::Original, OffsetType::Byte)[k1].1.0
            <= projection(p, OffsetReferential::Original, OffsetType::Byte)[k1].1.1
            <= projection(p, OffsetReferential::Original, OffsetType::Byte)[k2].1.0
            <= projection(p, OffsetReferential::Original, OffsetType::Byte)[k2].1.1
            <= crate::text::byte_len(p.original),
{
    let e1 = crate::pretokenizer::extent(p.splits[k1]);
    let e2 = crate::pretokenizer::extent(p.splits[k2]);
    let o = p.original;
    crate::text::lemma_byte_offset_mono(o, e1.0 as int, e1.1 as int);
    crate::text::lemma_byte_offset_mono(o, e1.1 as int, e2.0 as int);
    crate::text::lemma_byte_offset_mono(o, e2.0 as int, e2.1 as int);
    crate::text::lemma_byte_offset_total(o, e2.1 as int);
}

} // verus!
