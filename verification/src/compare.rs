//! Agreement between a predicted and a reference timeline.  The library computes
//! the exact integer counts; the ratios reported to users are quotients of them.
use vstd::prelude::*;
use crate::segment::{Segment, SegmentKind};
use crate::intervals::{
    canonical, covers, lemma_canonical_unique, lemma_self_overlap, interval_intersection_duration, overlap, lemma_intersection_is_pairwise_overlap,
    merged_intervals, pair_overlap, row_overlap, total_duration, total_len,
};

verus! {

/// Spans (start, end) of the segments of one kind, in order.
pub open spec fn kind_spans(s: Seq<Segment>, kind: SegmentKind) -> Seq<(u64, u64)>
    decreases s.len(),
{
    if s.len() == 0 {
        Seq::empty()
    } else if s.last().kind == kind {
        kind_spans(s.drop_last(), kind).push((s.last().start_ms, s.last().end_ms))
    } else {
        kind_spans(s.drop_last(), kind)
    }
}

/// Spans (start, end) of all segments, in order.
pub open spec fn all_spans(s: Seq<Segment>) -> Seq<(u64, u64)> {
    s.map_values(|x: Segment| (x.start_ms, x.end_ms))
}

pub open spec fn abs_diff(a: u64, b: u64) -> int {
    if a >= b { a - b } else { b - a }
}

/// Index of the first span of `t[..n]` whose start is nearest to `x`.
pub open spec fn nearest_start(t: Seq<(u64, u64)>, x: u64, n: int) -> int
    decreases n,
{
    if n <= 1 {
        0
    } else {
        let b = nearest_start(t, x, n - 1);
        if abs_diff(x, t[n - 1].0) < abs_diff(x, t[b].0) { n - 1 } else { b }
    }
}

/// Sum over the predicted spans of the start and end distance to the reference
/// span whose start is nearest.
pub open spec fn boundary_sum(p: Seq<(u64, u64)>, t: Seq<(u64, u64)>) -> int
    decreases p.len(),
{
    if p.len() == 0 {
        0
    } else {
        let x = p.last();
        let k = nearest_start(t, x.0, t.len() as int);
        boundary_sum(p.drop_last(), t) + abs_diff(x.0, t[k].0) + abs_diff(x.1, t[k].1)
    }
}

/// A predicted span matches a reference span when both its ends are within `tol`.
pub open spec fn within(p: (u64, u64), t: (u64, u64), tol: u64) -> bool {
    abs_diff(p.0, t.0) <= tol && abs_diff(p.1, t.1) <= tol
}

/// First reference span at index `>= i` that is not yet matched and matches `p`.
pub open spec fn first_match(t: Seq<(u64, u64)>, used: Seq<bool>, p: (u64, u64), tol: u64, i: int) -> Option<int>
    decreases t.len() - i,
{
    if i < 0 || i >= t.len() {
        None
    } else if !used[i] && within(p, t[i], tol) {
        Some(i)
    } else {
        first_match(t, used, p, tol, i + 1)
    }
}

/// Greedy one-to-one matching of predicted spans, in order, each to the first free
/// matching reference span: the marks of used reference spans and the match count.
pub open spec fn greedy_match(p: Seq<(u64, u64)>, t: Seq<(u64, u64)>, tol: u64) -> (Seq<bool>, nat)
    decreases p.len(),
{
    if p.len() == 0 {
        (Seq::new(t.len(), |i: int| false), 0)
    } else {
        let (used, n) = greedy_match(p.drop_last(), t, tol);
        match first_match(t, used, p.last(), tol, 0) {
            Some(k) => (used.update(k, true), n + 1),
            None => (used, n),
        }
    }
}

/// Sizes of the covered time of a predicted and a reference list, and of their intersection.
#[derive(Debug, Clone, Copy)]
pub struct DurationCounts {
    pub overlap_ms: u64,
    pub predicted_ms: u64,
    pub expected_ms: u64,
}

/// Result of greedy one-to-one matching within the tolerance.
#[derive(Debug, Clone, Copy)]
pub struct MatchCounts {
    pub matched: u32,
    pub predicted: usize,
    pub expected: usize,
}

#[derive(Debug, Clone, Copy)]
pub struct CompareCounts {
    /// Over all segments regardless of kind.
    pub coverage: DurationCounts,
    pub boundary_total_ms: u64,
    pub boundary_count: u64,
    pub speech_matches: MatchCounts,
    pub non_voice_matches: MatchCounts,
    pub speech_duration: DurationCounts,
    pub non_voice_duration: DurationCounts,
}

pub open spec fn duration_counts_of(d: DurationCounts, pred: Seq<(u64, u64)>, truth: Seq<(u64, u64)>) -> bool {
    exists|p: Seq<(u64, u64)>, t: Seq<(u64, u64)>|
        {
            &&& canonical(p)
            &&& canonical(t)
            &&& forall|x: int| covers(p, x) == covers(pred, x)
            &&& forall|x: int| covers(t, x) == covers(truth, x)
            &&& d.predicted_ms == total_len(p)
            &&& d.expected_ms == total_len(t)
            &&& d.overlap_ms == pair_overlap(p, t, 0, 0)
        }
}

pub fn spans_of_kind(segments: &[Segment], kind: SegmentKind) -> (r: Vec<(u64, u64)>)
    ensures
        r@ == kind_spans(segments@, kind),
{
    let mut r: Vec<(u64, u64)> = Vec::new();
    let mut i: usize = 0;
    while i < segments.len()
        invariant
            i <= segments.len(),
            r@ == kind_spans(segments@.take(i as int), kind),
        decreases segments.len() - i,
    {
        proof {
            assert(segments@.take(i + 1).drop_last() =~= segments@.take(i as int));
        }
        if segments[i].kind == kind {
            r.push((segments[i].start_ms, segments[i].end_ms));
        }
        i += 1;
    }
    assert(segments@.take(segments.len() as int) =~= segments@);
    r
}

pub fn all_spans_of(segments: &[Segment]) -> (r: Vec<(u64, u64)>)
    ensures
        r@ == all_spans(segments@),
{
    let mut r: Vec<(u64, u64)> = Vec::new();
    let mut i: usize = 0;
    while i < segments.len()
        invariant
            i <= segments.len(),
            r@ == all_spans(segments@).take(i as int),
        decreases segments.len() - i,
    {
        r.push((segments[i].start_ms, segments[i].end_ms));
        i += 1;
        assert(r@ =~= all_spans(segments@).take(i as int));
    }
    assert(all_spans(segments@).take(segments.len() as int) =~= all_spans(segments@));
    r
}

/// The canonical intervals covered by the segments of one kind.
pub fn merged_intervals_for_kind(segments: &[Segment], kind: SegmentKind) -> (r: Vec<(u64, u64)>)
    ensures
        canonical(r@),
        forall|t: int| covers(r@, t) == covers(kind_spans(segments@, kind), t),
{
    merged_intervals(spans_of_kind(segments, kind))
}

proof fn lemma_canonical_total(s: Seq<(u64, u64)>)
    requires
        canonical(s),
        s.len() > 0,
    ensures
        total_len(s) <= s.last().1 - s[0].0,
    decreases s.len(),
{
    let d = s.drop_last();
    assert(s[s.len() - 1].0 < s[s.len() - 1].1);
    if s.len() == 1 {
        assert(total_len(d) == 0);
    } else {
        assert(canonical(d)) by {
            assert forall|k: int| 0 <= k < d.len() implies (#[trigger] d[k]).0 < d[k].1 by {
                assert(d[k] == s[k]);
            }
            assert forall|k: int, l: int| 0 <= k < l < d.len() implies (#[trigger] d[k]).1 < (
            #[trigger] d[l]).0 by {
                assert(d[k] == s[k] && d[l] == s[l]);
            }
        }
        lemma_canonical_total(d);
        assert(s[s.len() - 2].1 < s[s.len() - 1].0);
        assert(d.last() == s[s.len() - 2]);
        assert(d[0] == s[0]);
    }
}

/// Length of the part of `x` at or after `from`.
pub open spec fn tail_len(x: (u64, u64), from: int) -> int {
    let lo = if x.0 > from { x.0 as int } else { from };
    if x.1 > lo { x.1 - lo } else { 0 }
}

proof fn lemma_row_bound(x: (u64, u64), b: Seq<(u64, u64)>, j: int)
    requires
        canonical(b),
        0 <= j < b.len(),
    ensures
        0 <= row_overlap(x, b, j) <= tail_len(x, b[j].0 as int),
    decreases b.len() - j,
{
    assert(b[j].0 < b[j].1);
    let o = overlap(x.0 as int, x.1 as int, b[j].0 as int, b[j].1 as int);
    assert(row_overlap(x, b, j) == o + row_overlap(x, b, j + 1));
    if j + 1 < b.len() {
        lemma_row_bound(x, b, j + 1);
        assert(b[j].1 < b[j + 1].0);
        assert(tail_len(x, b[j + 1].0 as int) <= tail_len(x, b[j].1 as int));
    } else {
        assert(row_overlap(x, b, j + 1) == 0);
    }
}

proof fn lemma_pair_bound(a: Seq<(u64, u64)>, b: Seq<(u64, u64)>, i: int)
    requires
        canonical(a),
        canonical(b),
        0 <= i < a.len(),
    ensures
        0 <= pair_overlap(a, b, i, 0) <= a.last().1 - a[i].0,
    decreases a.len() - i,
{
    assert(a[i].0 < a[i].1);
    assert(pair_overlap(a, b, i, 0) == row_overlap(a[i], b, 0) + pair_overlap(a, b, i + 1, 0));
    if b.len() > 0 {
        lemma_row_bound(a[i], b, 0);
    } else {
        assert(row_overlap(a[i], b, 0) == 0);
    }
    if i + 1 < a.len() {
        lemma_pair_bound(a, b, i + 1);
        assert(a[i].1 < a[i + 1].0);
    } else {
        assert(pair_overlap(a, b, i + 1, 0) == 0);
    }
}

/// The covered time of two span lists and of their intersection.
pub fn duration_counts(pred: Vec<(u64, u64)>, truth: Vec<(u64, u64)>) -> (d: DurationCounts)
    ensures
        duration_counts_of(d, pred@, truth@),
{
    let ghost pv = pred@;
    let ghost tv = truth@;
    let p = merged_intervals(pred);
    let t = merged_intervals(truth);
    proof {
        if p@.len() > 0 {
            lemma_canonical_total(p@);
        }
        if t@.len() > 0 {
            lemma_canonical_total(t@);
        }
        lemma_intersection_is_pairwise_overlap(p@, t@);
        if p@.len() > 0 {
            lemma_pair_bound(p@, t@, 0);
        }
    }
    let predicted_ms = total_duration(&p);
    let expected_ms = total_duration(&t);
    let overlap_ms = interval_intersection_duration(&p, &t);
    let d = DurationCounts { overlap_ms, predicted_ms, expected_ms };
    assert(duration_counts_of(d, pv, tv)) by {
        assert(canonical(p@) && canonical(t@));
    }
    d
}

/// Greedy matching of predicted to reference spans of one kind.
pub fn match_counts(pred: &[Segment], truth: &[Segment], kind: SegmentKind, tol: u64) -> (m: MatchCounts)
    requires
        pred@.len() <= u32::MAX,
    ensures
        m.predicted == kind_spans(pred@, kind).len(),
        m.expected == kind_spans(truth@, kind).len(),
        m.matched == greedy_match(kind_spans(pred@, kind), kind_spans(truth@, kind), tol).1,
{
    let p = spans_of_kind(pred, kind);
    let t = spans_of_kind(truth, kind);
    proof {
        lemma_kind_spans_len(pred@, kind);
    }
    let mut used: Vec<bool> = Vec::new();
    let mut k: usize = 0;
    while k < t.len()
        invariant
            k <= t.len(),
            used@ == Seq::new(k as nat, |i: int| false),
        decreases t.len() - k,
    {
        used.push(false);
        k += 1;
        assert(used@ =~= Seq::new(k as nat, |i: int| false));
    }
    let mut tp: u32 = 0;
    let mut i: usize = 0;
    while i < p.len()
        invariant
            i <= p.len(),
            p.len() <= u32::MAX,
            used@.len() == t@.len(),
            (used@, tp as nat) == greedy_match(p@.take(i as int), t@, tol),
            tp <= i,
        decreases p.len() - i,
    {
        let x = p[i];
        proof {
            assert(p@.take(i + 1).drop_last() =~= p@.take(i as int));
            assert(p@.take(i + 1).last() == x);
        }
        let found = find_match(&t, &used, x, tol);
        match found {
            Some(j) => {
                used.set(j, true);
                tp = tp + 1;
            },
            None => {},
        }
        i += 1;
    }
    assert(p@.take(p.len() as int) =~= p@);
    MatchCounts { matched: tp, predicted: p.len(), expected: t.len() }
}

/// Index of the first unused reference span that matches `x`.
fn find_match(t: &Vec<(u64, u64)>, used: &Vec<bool>, x: (u64, u64), tol: u64) -> (r: Option<usize>)
    requires
        used@.len() == t@.len(),
    ensures
        match r {
            Some(j) => first_match(t@, used@, x, tol, 0) == Some(j as int) && j < t@.len(),
            None => first_match(t@, used@, x, tol, 0) == None::<int>,
        },
{
    let mut j: usize = 0;
    while j < t.len()
        invariant
            j <= t.len(),
            used@.len() == t@.len(),
            first_match(t@, used@, x, tol, 0) == first_match(t@, used@, x, tol, j as int),
        decreases t.len() - j,
    {
        let y = t[j];
        let d0 = if x.0 >= y.0 { x.0 - y.0 } else { y.0 - x.0 };
        let d1 = if x.1 >= y.1 { x.1 - y.1 } else { y.1 - x.1 };
        if !used[j] && d0 <= tol && d1 <= tol {
            return Some(j);
        }
        j += 1;
    }
    None
}

proof fn lemma_kind_spans_len(s: Seq<Segment>, kind: SegmentKind)
    ensures
        kind_spans(s, kind).len() <= s.len(),
    decreases s.len(),
{
    if s.len() > 0 {
        lemma_kind_spans_len(s.drop_last(), kind);
    }
}

/// Total start and end distance of each predicted span to the reference span
/// whose start is nearest, and the number of distances added.
pub fn boundary_error_counts(pred: &[Segment], truth: &[Segment]) -> (r: (u64, u64))
    requires
        boundary_sum(all_spans(pred@), all_spans(truth@)) <= u64::MAX,
        pred@.len() <= u32::MAX,
    ensures
        truth@.len() == 0 ==> r == (0u64, 0u64),
        truth@.len() > 0 ==> r.0 == boundary_sum(all_spans(pred@), all_spans(truth@)) && r.1 == 2
            * pred@.len(),
{
    if pred.len() == 0 || truth.len() == 0 {
        return (0, 0);
    }
    let p = all_spans_of(pred);
    let t = all_spans_of(truth);
    let mut total: u64 = 0;
    let mut count: u64 = 0;
    let mut i: usize = 0;
    while i < p.len()
        invariant
            i <= p.len(),
            p.len() <= u32::MAX,
            t.len() > 0,
            total == boundary_sum(p@.take(i as int), t@),
            count == 2 * i,
            boundary_sum(p@, t@) <= u64::MAX,
        decreases p.len() - i,
    {
        let x = p[i];
        let mut best: usize = 0;
        let mut k: usize = 1;
        while k < t.len()
            invariant
                1 <= k <= t.len(),
                best == nearest_start(t@, x.0, k as int),
                0 <= best < k,
            decreases t.len() - k,
        {
            let dk = if x.0 >= t[k].0 { x.0 - t[k].0 } else { t[k].0 - x.0 };
            let db = if x.0 >= t[best].0 { x.0 - t[best].0 } else { t[best].0 - x.0 };
            if dk < db {
                best = k;
            }
            k += 1;
        }
        proof {
            assert(p@.take(i + 1).drop_last() =~= p@.take(i as int));
            assert(p@.take(i + 1).last() == x);
            lemma_boundary_prefix(p@, t@, i + 1);
        }
        let y = t[best];
        let d0 = if x.0 >= y.0 { x.0 - y.0 } else { y.0 - x.0 };
        let d1 = if x.1 >= y.1 { x.1 - y.1 } else { y.1 - x.1 };
        total = total + d0 + d1;
        count = count + 2;
        i += 1;
    }
    assert(p@.take(p.len() as int) =~= p@);
    (total, count)
}

proof fn lemma_boundary_prefix(p: Seq<(u64, u64)>, t: Seq<(u64, u64)>, n: int)
    requires
        0 <= n <= p.len(),
    ensures
        0 <= boundary_sum(p.take(n), t) <= boundary_sum(p, t),
    decreases p.len(),
{
    if p.len() > 0 {
        if n == p.len() {
            assert(p.take(n) =~= p);
            lemma_boundary_prefix(p.drop_last(), t, p.len() - 1);
            assert(p.drop_last().take(p.len() - 1) =~= p.drop_last());
        } else {
            lemma_boundary_prefix(p.drop_last(), t, n);
            assert(p.drop_last().take(n) =~= p.take(n));
        }
    }
}

/// All integer counts behind the agreement metrics of a predicted timeline.
pub fn score_counts(pred: &[Segment], truth: &[Segment], tolerance_ms: u64) -> (c: CompareCounts)
    requires
        boundary_sum(all_spans(pred@), all_spans(truth@)) <= u64::MAX,
        pred@.len() <= u32::MAX,
    ensures
        duration_counts_of(c.coverage, all_spans(pred@), all_spans(truth@)),
        duration_counts_of(c.speech_duration, kind_spans(pred@, SegmentKind::Speech), kind_spans(truth@, SegmentKind::Speech)),
        duration_counts_of(c.non_voice_duration, kind_spans(pred@, SegmentKind::NonVoice), kind_spans(truth@, SegmentKind::NonVoice)),
        c.speech_matches.predicted == kind_spans(pred@, SegmentKind::Speech).len(),
        c.speech_matches.expected == kind_spans(truth@, SegmentKind::Speech).len(),
        c.speech_matches.matched == greedy_match(kind_spans(pred@, SegmentKind::Speech), kind_spans(truth@, SegmentKind::Speech), tolerance_ms).1,
        c.non_voice_matches.predicted == kind_spans(pred@, SegmentKind::NonVoice).len(),
        c.non_voice_matches.expected == kind_spans(truth@, SegmentKind::NonVoice).len(),
        c.non_voice_matches.matched == greedy_match(kind_spans(pred@, SegmentKind::NonVoice), kind_spans(truth@, SegmentKind::NonVoice), tolerance_ms).1,
        truth@.len() == 0 ==> c.boundary_total_ms == 0 && c.boundary_count == 0,
        truth@.len() > 0 ==> c.boundary_total_ms == boundary_sum(all_spans(pred@), all_spans(truth@))
            && c.boundary_count == 2 * pred@.len(),
{
    let coverage = duration_counts(all_spans_of(pred), all_spans_of(truth));
    let (boundary_total_ms, boundary_count) = boundary_error_counts(pred, truth);
    let speech_matches = match_counts(pred, truth, SegmentKind::Speech, tolerance_ms);
    let non_voice_matches = match_counts(pred, truth, SegmentKind::NonVoice, tolerance_ms);
    let speech_duration = duration_counts(
        spans_of_kind(pred, SegmentKind::Speech),
        spans_of_kind(truth, SegmentKind::Speech),
    );
    let non_voice_duration = duration_counts(
        spans_of_kind(pred, SegmentKind::NonVoice),
        spans_of_kind(truth, SegmentKind::NonVoice),
    );
    CompareCounts {
        coverage,
        boundary_total_ms,
        boundary_count,
        speech_matches,
        non_voice_matches,
        speech_duration,
        non_voice_duration,
    }
}


proof fn lemma_first_match_at(t: Seq<(u64, u64)>, used: Seq<bool>, x: (u64, u64), tol: u64, i: int, n: int)
    requires
        0 <= i <= n < t.len(),
        n < used.len(),
        forall|k: int| i <= k < n ==> used[k],
        !used[n],
        within(x, t[n], tol),
    ensures
        first_match(t, used, x, tol, i) == Some(n),
    decreases n - i,
{
    if i < n {
        lemma_first_match_at(t, used, x, tol, i + 1, n);
    }
}

proof fn lemma_greedy_self_prefix(s: Seq<(u64, u64)>, tol: u64, n: int)
    requires
        0 <= n <= s.len(),
    ensures
        greedy_match(s.take(n), s, tol).1 == n,
        greedy_match(s.take(n), s, tol).0.len() == s.len(),
        forall|k: int| 0 <= k < s.len() ==> greedy_match(s.take(n), s, tol).0[k] == (k < n),
    decreases n,
{
    if n > 0 {
        lemma_greedy_self_prefix(s, tol, n - 1);
        let q = s.take(n);
        assert(q.drop_last() =~= s.take(n - 1));
        assert(q.last() == s[n - 1]);
        let used = greedy_match(s.take(n - 1), s, tol).0;
        assert(within(s[n - 1], s[n - 1], tol));
        lemma_first_match_at(s, used, s[n - 1], tol, 0, n - 1);
    } else {
        assert(s.take(0).len() == 0);
    }
}

/// Comparing a list of spans with itself matches every span, whatever the
/// tolerance.
pub proof fn lemma_self_match_complete(s: Seq<(u64, u64)>, tol: u64)
    ensures
        greedy_match(s, s, tol).1 == s.len(),
{
    lemma_greedy_self_prefix(s, tol, s.len() as int);
    assert(s.take(s.len() as int) =~= s);
}

/// Comparing the covered time of a list with itself: the overlap is the
/// whole covered time, predicted and expected alike.
pub proof fn lemma_self_coverage(d: DurationCounts, s: Seq<(u64, u64)>)
    requires
        duration_counts_of(d, s, s),
    ensures
        d.overlap_ms == d.predicted_ms,
        d.predicted_ms == d.expected_ms,
{
    let (p, t) = choose|p: Seq<(u64, u64)>, t: Seq<(u64, u64)>|
        {
            &&& canonical(p)
            &&& canonical(t)
            &&& forall|x: int| covers(p, x) == covers(s, x)
            &&& forall|x: int| covers(t, x) == covers(s, x)
            &&& d.predicted_ms == total_len(p)
            &&& d.expected_ms == total_len(t)
            &&& d.overlap_ms == pair_overlap(p, t, 0, 0)
        };
    lemma_canonical_unique(p, t);
    lemma_self_overlap(p);
}


/// Against a single reference span, each predicted span adds the distance
/// between the two starts plus the distance between the two ends: adding a
/// predicted span `x` to the list raises the boundary total by
/// `|x.start - y.start| + |x.end - y.end|`.
pub proof fn lemma_boundary_against_one_span(p: Seq<(u64, u64)>, x: (u64, u64), y: (u64, u64))
    ensures
        boundary_sum(p.push(x), seq![y]) == boundary_sum(p, seq![y]) + (if x.0 >= y.0 {
            x.0 - y.0
        } else {
            y.0 - x.0
        }) + (if x.1 >= y.1 {
            x.1 - y.1
        } else {
            y.1 - x.1
        }),
        boundary_sum(seq![x], seq![y]) == (if x.0 >= y.0 {
            x.0 - y.0
        } else {
            y.0 - x.0
        }) + (if x.1 >= y.1 {
            x.1 - y.1
        } else {
            y.1 - x.1
        }),
{
    assert(p.push(x).drop_last() =~= p);
    assert(seq![x].drop_last() =~= Seq::<(u64, u64)>::empty());
    assert(boundary_sum(Seq::<(u64, u64)>::empty(), seq![y]) == 0);
    assert(nearest_start(seq![y], x.0, 1) == 0);
    assert(seq![x].last() == x);
}

} // verus!
