//! Outcomes of the spectral check of non-voice segments, and what the pipeline
//! does with them.
use vstd::prelude::*;
use crate::segment::{Segment, SegmentKind, SegmentView, seg_views, score_lt, score_less};

verus! {

/// Bit pattern of the `f32` score 0.55: segments scored above it skip the check.
pub const FILTER_SEGMENT_CONFIDENCE_CEILING: u32 = 0x3F0C_CCCDu32;

#[derive(Debug, Clone, Copy, PartialEq, Eq, Structural)]
pub enum VerificationStatus {
    Verified,
    Suspicious,
    Rejected,
    Inconclusive,
}

pub open spec fn is_suspicious_status(s: VerificationStatus) -> bool {
    s == VerificationStatus::Suspicious || s == VerificationStatus::Inconclusive
}

impl VerificationStatus {
    pub fn is_verified(&self) -> (r: bool)
        ensures
            r == (*self == VerificationStatus::Verified),
    {
        *self == VerificationStatus::Verified
    }

    /// Suspicious and inconclusive checks both count as suspicious.
    pub fn is_suspicious(&self) -> (r: bool)
        ensures
            r == is_suspicious_status(*self),
    {
        *self == VerificationStatus::Suspicious || *self == VerificationStatus::Inconclusive
    }
}

/// How many checks verified, were suspicious, and rejected a segment.
#[derive(Debug, Clone, Copy)]
pub struct VerificationTally {
    pub verified: usize,
    pub suspicious: usize,
    pub rejected: usize,
}

pub open spec fn count_status(s: Seq<VerificationStatus>, p: spec_fn(VerificationStatus) -> bool) -> nat
    decreases s.len(),
{
    if s.len() == 0 {
        0
    } else {
        count_status(s.drop_last(), p) + if p(s.last()) { 1nat } else { 0nat }
    }
}

pub open spec fn verified_p() -> spec_fn(VerificationStatus) -> bool {
    |x: VerificationStatus| x == VerificationStatus::Verified
}

pub open spec fn suspicious_p() -> spec_fn(VerificationStatus) -> bool {
    |x: VerificationStatus| is_suspicious_status(x)
}

pub open spec fn rejected_p() -> spec_fn(VerificationStatus) -> bool {
    |x: VerificationStatus| x != VerificationStatus::Verified && !is_suspicious_status(x)
}

/// Counts the outcomes of a verification run.
pub fn tally(statuses: &[VerificationStatus]) -> (t: VerificationTally)
    ensures
        t.verified == count_status(statuses@, verified_p()),
        t.suspicious == count_status(statuses@, suspicious_p()),
        t.rejected == count_status(statuses@, rejected_p()),
{
    let mut t = VerificationTally { verified: 0, suspicious: 0, rejected: 0 };
    let mut i: usize = 0;
    while i < statuses.len()
        invariant
            i <= statuses.len(),
            t.verified == count_status(statuses@.take(i as int), verified_p()),
            t.suspicious == count_status(statuses@.take(i as int), suspicious_p()),
            t.rejected == count_status(statuses@.take(i as int), rejected_p()),
            t.verified + t.suspicious + t.rejected == i,
        decreases statuses.len() - i,
    {
        proof {
            assert(statuses@.take(i + 1).drop_last() =~= statuses@.take(i as int));
        }
        let s = statuses[i];
        if s.is_verified() {
            t.verified = t.verified + 1;
        } else if s.is_suspicious() {
            t.suspicious = t.suspicious + 1;
        } else {
            t.rejected = t.rejected + 1;
        }
        i += 1;
    }
    assert(statuses@.take(i as int) =~= statuses@);
    t
}

/// Every outcome falls in exactly one of the three counts.
pub proof fn lemma_tally_partitions(s: Seq<VerificationStatus>)
    ensures
        count_status(s, verified_p()) + count_status(s, suspicious_p()) + count_status(s, rejected_p())
            == s.len(),
    decreases s.len(),
{
    if s.len() > 0 {
        lemma_tally_partitions(s.drop_last());
    }
}

/// The spans whose check verified them, in order.
pub open spec fn verified_spans(r: Seq<(u64, u64, VerificationStatus)>) -> Seq<(u64, u64)>
    decreases r.len(),
{
    if r.len() == 0 {
        Seq::empty()
    } else if r.last().2 == VerificationStatus::Verified {
        verified_spans(r.drop_last()).push((r.last().0, r.last().1))
    } else {
        verified_spans(r.drop_last())
    }
}

/// The keys of the verified segments of a report.
pub fn verified_keys(results: &[(u64, u64, VerificationStatus)]) -> (keys: Vec<(u64, u64)>)
    ensures
        keys@ == verified_spans(results@),
{
    let mut keys: Vec<(u64, u64)> = Vec::new();
    let mut i: usize = 0;
    while i < results.len()
        invariant
            i <= results.len(),
            keys@ == verified_spans(results@.take(i as int)),
        decreases results.len() - i,
    {
        proof {
            assert(results@.take(i + 1).drop_last() =~= results@.take(i as int));
        }
        let (s, e, st) = results[i];
        if st == VerificationStatus::Verified {
            keys.push((s, e));
        }
        i += 1;
    }
    assert(results@.take(i as int) =~= results@);
    keys
}

/// A segment goes through the spectral check when it is non-voice and its
/// score is not above the ceiling (a NaN score is not above it).
pub open spec fn needs_check(v: SegmentView, ceiling: u32) -> bool {
    v.kind == SegmentKind::NonVoice && !score_lt(ceiling, v.confidence)
}

pub fn needs_verification(segment: &Segment, ceiling: u32) -> (r: bool)
    ensures
        r == needs_check(segment@, ceiling),
{
    segment.kind == SegmentKind::NonVoice && !score_less(ceiling, segment.confidence)
}

pub open spec fn kept_after_check(s: Seq<SegmentView>, keep: Seq<bool>, ceiling: u32) -> Seq<SegmentView>
    decreases s.len(),
{
    if s.len() == 0 {
        Seq::empty()
    } else {
        let prev = kept_after_check(s.drop_last(), keep.take(s.len() - 1), ceiling);
        if !needs_check(s.last(), ceiling) || keep[s.len() - 1] {
            prev.push(s.last())
        } else {
            prev
        }
    }
}

/// Drops the checked segments whose check did not keep them.  `keep[i]` is the
/// check's answer for segment `i` (verified, or the check could not run); it is
/// read only for segments that need the check.
pub fn filter_low_confidence_non_voice_segments(segments: &[Segment], ceiling: u32, keep: &[bool]) -> (out: Vec<Segment>)
    requires
        keep@.len() == segments@.len(),
    ensures
        seg_views(out@) == kept_after_check(seg_views(segments@), keep@, ceiling),
{
    let ghost sv = seg_views(segments@);
    let mut out: Vec<Segment> = Vec::new();
    let mut i: usize = 0;
    while i < segments.len()
        invariant
            i <= segments.len(),
            keep@.len() == segments@.len(),
            sv == seg_views(segments@),
            seg_views(out@) == kept_after_check(sv.take(i as int), keep@.take(i as int), ceiling),
        decreases segments.len() - i,
    {
        proof {
            assert(sv.take(i + 1).drop_last() =~= sv.take(i as int));
            assert(keep@.take(i + 1).take(i as int) =~= keep@.take(i as int));
            assert(sv.take(i + 1).last() == segments@[i as int]@);
        }
        if !needs_verification(&segments[i], ceiling) || keep[i] {
            let ghost before = seg_views(out@);
            let x = segments[i].duplicate();
            out.push(x);
            assert(seg_views(out@) =~= before.push(segments@[i as int]@));
        }
        i += 1;
    }
    assert(sv.take(i as int) =~= sv);
    assert(keep@.take(i as int) =~= keep@);
    out
}

} // verus!
