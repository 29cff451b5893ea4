//! Dropping speech segments whose frames do not look like speech.  Which
//! segments look implausible is measured on their frames by the caller; this
//! decides which segments are asked about and which stay.
use vstd::prelude::*;
use crate::segment::{Segment, SegmentKind, SegmentView, seg_views, score_ge, score_at_least};

verus! {

/// Speech longer than this is always kept.
pub const MAX_REVIEW_SPEECH_MS: u64 = 12000;

/// Bit pattern of the `f32` score 0.9: speech scored at least this is kept.
pub const MIN_CONFIDENCE_TO_KEEP: u32 = 0x3F66_6666u32;

/// A speech segment whose frames are examined: not confident and not long.
pub open spec fn under_review(v: SegmentView) -> bool {
    v.kind == SegmentKind::Speech && !score_ge(v.confidence, MIN_CONFIDENCE_TO_KEEP) && (if v.end_ms >= v.start_ms {
        v.end_ms - v.start_ms
    } else {
        0
    }) <= MAX_REVIEW_SPEECH_MS
}

pub fn needs_speech_review(segment: &Segment) -> (r: bool)
    ensures
        r == under_review(segment@),
{
    let duration = if segment.end_ms >= segment.start_ms {
        segment.end_ms - segment.start_ms
    } else {
        0
    };
    segment.kind == SegmentKind::Speech && !score_at_least(segment.confidence, MIN_CONFIDENCE_TO_KEEP) && duration
        <= MAX_REVIEW_SPEECH_MS
}

pub open spec fn plausible_only(s: Seq<SegmentView>, implausible: Seq<bool>) -> Seq<SegmentView>
    decreases s.len(),
{
    if s.len() == 0 {
        Seq::empty()
    } else {
        let prev = plausible_only(s.drop_last(), implausible.take(s.len() - 1));
        if !under_review(s.last()) || !implausible[s.len() - 1] {
            prev.push(s.last())
        } else {
            prev
        }
    }
}

/// Keeps every segment except the reviewed speech segments found implausible
/// (`implausible[i]` belongs to segment `i` and is read only for reviewed ones).
pub fn filter_implausible_speech_segments(segments: &[Segment], implausible: &[bool]) -> (out: Vec<Segment>)
    requires
        implausible@.len() == segments@.len(),
    ensures
        seg_views(out@) == plausible_only(seg_views(segments@), implausible@),
{
    let ghost sv = seg_views(segments@);
    let mut out: Vec<Segment> = Vec::new();
    let mut i: usize = 0;
    while i < segments.len()
        invariant
            i <= segments.len(),
            implausible@.len() == segments@.len(),
            sv == seg_views(segments@),
            seg_views(out@) == plausible_only(sv.take(i as int), implausible@.take(i as int)),
        decreases segments.len() - i,
    {
        proof {
            assert(sv.take(i + 1).drop_last() =~= sv.take(i as int));
            assert(implausible@.take(i + 1).take(i as int) =~= implausible@.take(i as int));
            assert(sv.take(i + 1).last() == segments@[i as int]@);
        }
        if !needs_speech_review(&segments[i]) || !implausible[i] {
            let ghost before = seg_views(out@);
            let x = segments[i].duplicate();
            out.push(x);
            assert(seg_views(out@) =~= before.push(segments@[i as int]@));
        }
        i += 1;
    }
    assert(sv.take(i as int) =~= sv);
    assert(implausible@.take(i as int) =~= implausible@);
    out
}

} // verus!
