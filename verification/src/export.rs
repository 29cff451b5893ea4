//! Edit-list (EDL) and WebVTT exports of the verified non-voice segments of a
//! timeline.
use vstd::prelude::*;
use crate::fmt::{pad, dec, append_str, push_padded, push_decimal};
use crate::merge::{contains_key, key_view};
use crate::segment::{Segment, SegmentKind, SegmentView, TimelineOutput, seg_views, text_seq, copy_strings};
use crate::text::from_chars;

verus! {

broadcast use vstd::string::group_string_axioms;

/// `HH:MM:SS:FF` at 30 frames per second, each field at least two digits.
pub open spec fn timecode(ms: u64) -> Seq<char> {
    pad((ms / 3_600_000) as nat, 2) + seq![':'] + pad(((ms % 3_600_000) / 60_000) as nat, 2)
        + seq![':'] + pad(((ms / 1000) % 60) as nat, 2) + seq![':'] + pad(
        ((ms % 1000) * 30 / 1000) as nat,
        2,
    )
}

/// `HH:MM:SS.mmm`.
pub open spec fn vtt_timestamp(ms: u64) -> Seq<char> {
    pad((ms / 3_600_000) as nat, 2) + seq![':'] + pad(((ms % 3_600_000) / 60_000) as nat, 2)
        + seq![':'] + pad(((ms / 1000) % 60) as nat, 2) + seq!['.'] + pad((ms % 1000) as nat, 3)
}

/// A segment is exported when it is non-voice and its span is among the
/// verified keys; without keys nothing is exported.
pub open spec fn exported(v: SegmentView, keys: Option<Seq<(u64, u64)>>) -> bool {
    v.kind == SegmentKind::NonVoice && keys is Some && keys->0.contains((v.start_ms, v.end_ms))
}

/// Every exported segment ends no earlier than it starts.
pub open spec fn exported_ordered(s: Seq<SegmentView>, keys: Option<Seq<(u64, u64)>>) -> bool {
    forall|k: int| 0 <= k < s.len() && exported(#[trigger] s[k], keys) ==> s[k].start_ms <= s[k].end_ms
}

pub open spec fn count_exported(s: Seq<SegmentView>, keys: Option<Seq<(u64, u64)>>) -> nat
    decreases s.len(),
{
    if s.len() == 0 {
        0
    } else {
        count_exported(s.drop_last(), keys) + if exported(s.last(), keys) { 1nat } else { 0nat }
    }
}

pub open spec fn edl_header() -> Seq<char> {
    "TITLE: Non-Voice Timeline\nFCM: NON-DROP FRAME\n\n"@
}

/// The EDL event numbered `n` for segment `v`.
pub open spec fn edl_event(n: nat, v: SegmentView) -> Seq<char> {
    pad(n, 3) + "  001      V     C        "@ + timecode(v.start_ms) + seq![' '] + timecode(v.end_ms)
        + seq![' '] + timecode((v.end_ms - v.start_ms) as u64) + " EVENT VERIFIED\n"@
        + "* FROM CLIP NAME: Non-voice segment\n\n"@
}

pub open spec fn edl_events(s: Seq<SegmentView>, keys: Option<Seq<(u64, u64)>>) -> Seq<char>
    decreases s.len(),
{
    if s.len() == 0 {
        Seq::empty()
    } else if exported(s.last(), keys) {
        edl_events(s.drop_last(), keys) + edl_event(count_exported(s.drop_last(), keys) + 1, s.last())
    } else {
        edl_events(s.drop_last(), keys)
    }
}

pub open spec fn edl_text(s: Seq<SegmentView>, keys: Option<Seq<(u64, u64)>>) -> Seq<char> {
    edl_header() + edl_events(s, keys)
}

pub open spec fn vtt_header() -> Seq<char> {
    "WEBVTT\n\nNOTE Non-Voice Timeline Export\n\n"@
}

/// The cue for segment `v` at position `i` of the timeline; `ct` writes a confidence.
pub open spec fn vtt_cue(i: nat, v: SegmentView, ct: spec_fn(u32) -> Seq<char>) -> Seq<char> {
    vtt_timestamp(v.start_ms) + " --> "@ + vtt_timestamp(v.end_ms) + "\nNon-voice segment #"@ + dec(
        i + 1,
    ) + " ("@ + dec((v.end_ms - v.start_ms) as nat) + "ms, confidence: "@ + ct(v.confidence)
        + ") [VERIFIED]\n\n"@
}

pub open spec fn vtt_cues(s: Seq<SegmentView>, keys: Option<Seq<(u64, u64)>>, ct: spec_fn(u32) -> Seq<char>) -> Seq<char>
    decreases s.len(),
{
    if s.len() == 0 {
        Seq::empty()
    } else if exported(s.last(), keys) {
        vtt_cues(s.drop_last(), keys, ct) + vtt_cue((s.len() - 1) as nat, s.last(), ct)
    } else {
        vtt_cues(s.drop_last(), keys, ct)
    }
}

pub open spec fn vtt_text(s: Seq<SegmentView>, keys: Option<Seq<(u64, u64)>>, ct: spec_fn(u32) -> Seq<char>) -> Seq<char> {
    vtt_header() + vtt_cues(s, keys, ct)
}

/// `text` computes `g`: every string it can return for a confidence `c` reads `g(c)`.
pub open spec fn computes_text<T: Fn(u32) -> String>(text: T, g: spec_fn(u32) -> Seq<char>) -> bool {
    forall|c: u32, r: String| text.ensures((c,), r) ==> r@ == g(c)
}

fn push_timecode(v: &mut Vec<char>, ms: u64)
    ensures
        final(v)@ == old(v)@ + timecode(ms),
{
    let ghost v0 = v@;
    push_padded(v, ms / 3_600_000, 2);
    v.push(':');
    push_padded(v, (ms % 3_600_000) / 60_000, 2);
    v.push(':');
    push_padded(v, (ms / 1000) % 60, 2);
    v.push(':');
    push_padded(v, (ms % 1000) * 30 / 1000, 2);
    assert(v@ =~= v0 + timecode(ms));
}

fn push_vtt_timestamp(v: &mut Vec<char>, ms: u64)
    ensures
        final(v)@ == old(v)@ + vtt_timestamp(ms),
{
    let ghost v0 = v@;
    push_padded(v, ms / 3_600_000, 2);
    v.push(':');
    push_padded(v, (ms % 3_600_000) / 60_000, 2);
    v.push(':');
    push_padded(v, (ms / 1000) % 60, 2);
    v.push('.');
    push_padded(v, ms % 1000, 3);
    assert(v@ =~= v0 + vtt_timestamp(ms));
}

/// An EDL timecode `HH:MM:SS:FF` (30 frames per second) for a time in milliseconds.
pub fn ms_to_timecode(ms: u64) -> (s: String)
    ensures
        s@ == timecode(ms),
{
    let mut v: Vec<char> = Vec::new();
    push_timecode(&mut v, ms);
    assert(v@ =~= timecode(ms));
    from_chars(&v)
}

/// A WebVTT timestamp `HH:MM:SS.mmm` for a time in milliseconds.
pub fn ms_to_vtt_timestamp(ms: u64) -> (s: String)
    ensures
        s@ == vtt_timestamp(ms),
{
    let mut v: Vec<char> = Vec::new();
    push_vtt_timestamp(&mut v, ms);
    assert(v@ =~= vtt_timestamp(ms));
    from_chars(&v)
}

fn is_exported(s: &Segment, verified: Option<&[(u64, u64)]>) -> (r: bool)
    ensures
        r == exported(s@, key_view(verified)),
{
    s.kind == SegmentKind::NonVoice && match verified {
        Some(keys) => contains_key(keys, s.start_ms, s.end_ms),
        None => false,
    }
}

fn push_edl_event(v: &mut Vec<char>, n: u64, seg: &Segment)
    requires
        seg.start_ms <= seg.end_ms,
    ensures
        final(v)@ == old(v)@ + edl_event(n as nat, seg@),
{
    let ghost v0 = v@;
    push_padded(v, n, 3);
    append_str(v, "  001      V     C        ");
    push_timecode(v, seg.start_ms);
    v.push(' ');
    push_timecode(v, seg.end_ms);
    v.push(' ');
    push_timecode(v, seg.end_ms - seg.start_ms);
    append_str(v, " EVENT VERIFIED\n");
    append_str(v, "* FROM CLIP NAME: Non-voice segment\n\n");
    assert(v@ =~= v0 + edl_event(n as nat, seg@));
}

/// An edit decision list with one event for each verified non-voice segment.
pub fn export_edl(timeline: &TimelineOutput, verified: Option<&[(u64, u64)]>) -> (s: String)
    requires
        exported_ordered(seg_views(timeline.segments@), key_view(verified)),
    ensures
        s@ == edl_text(seg_views(timeline.segments@), key_view(verified)),
{
    let ghost sv = seg_views(timeline.segments@);
    let ghost keys = key_view(verified);
    let mut v: Vec<char> = Vec::new();
    append_str(&mut v, "TITLE: Non-Voice Timeline\nFCM: NON-DROP FRAME\n\n");
    let mut count: usize = 0;
    let mut i: usize = 0;
    while i < timeline.segments.len()
        invariant
            i <= timeline.segments.len(),
            sv == seg_views(timeline.segments@),
            keys == key_view(verified),
            exported_ordered(sv, keys),
            v@ == edl_header() + edl_events(sv.take(i as int), keys),
            count == count_exported(sv.take(i as int), keys),
            count <= i,
        decreases timeline.segments.len() - i,
    {
        let seg = &timeline.segments[i];
        proof {
            assert(sv.take(i + 1).drop_last() =~= sv.take(i as int));
            assert(sv.take(i + 1).last() == seg@);
        }
        if is_exported(seg, verified) {
            assert(sv[i as int] == seg@);
            push_edl_event(&mut v, (count as u64) + 1, seg);
            count += 1;
        }
        i += 1;
    }
    assert(sv.take(i as int) =~= sv);
    from_chars(&v)
}

/// A WebVTT file with one cue for each verified non-voice segment; cues are
/// numbered by the segment's position in the timeline.
pub fn export_vtt<T: Fn(u32) -> String>(
    timeline: &TimelineOutput,
    verified: Option<&[(u64, u64)]>,
    confidence_text: &T,
) -> (s: String)
    requires
        exported_ordered(seg_views(timeline.segments@), key_view(verified)),
        forall|c: u32| confidence_text.requires((c,)),
    ensures
        forall|g: spec_fn(u32) -> Seq<char>| #[trigger] computes_text(*confidence_text, g) ==> s@
            == vtt_text(seg_views(timeline.segments@), key_view(verified), g),
{
    let ghost sv = seg_views(timeline.segments@);
    let ghost keys = key_view(verified);
    let mut v: Vec<char> = Vec::new();
    append_str(&mut v, "WEBVTT\n\nNOTE Non-Voice Timeline Export\n\n");
    let mut i: usize = 0;
    while i < timeline.segments.len()
        invariant
            i <= timeline.segments.len(),
            sv == seg_views(timeline.segments@),
            keys == key_view(verified),
            exported_ordered(sv, keys),
            forall|c: u32| confidence_text.requires((c,)),
            forall|g: spec_fn(u32) -> Seq<char>| #[trigger] computes_text(*confidence_text, g) ==> v@
                == vtt_header() + vtt_cues(sv.take(i as int), keys, g),
        decreases timeline.segments.len() - i,
    {
        let seg = &timeline.segments[i];
        proof {
            assert(sv.take(i + 1).drop_last() =~= sv.take(i as int));
            assert(sv.take(i + 1).last() == seg@);
            assert(sv.take(i + 1).len() - 1 == i);
        }
        if is_exported(seg, verified) {
            assert(sv[i as int] == seg@);
            let ghost v0 = v@;
            push_vtt_timestamp(&mut v, seg.start_ms);
            append_str(&mut v, " --> ");
            push_vtt_timestamp(&mut v, seg.end_ms);
            append_str(&mut v, "\nNon-voice segment #");
            push_decimal(&mut v, (i as u64) + 1);
            append_str(&mut v, " (");
            push_decimal(&mut v, seg.end_ms - seg.start_ms);
            append_str(&mut v, "ms, confidence: ");
            let ghost v1 = v@;
            let t = confidence_text(seg.confidence);
            append_str(&mut v, t.as_str());
            let ghost v2 = v@;
            append_str(&mut v, ") [VERIFIED]\n\n");
            assert forall|g: spec_fn(u32) -> Seq<char>| #[trigger] computes_text(*confidence_text, g) implies v@
                == vtt_header() + vtt_cues(sv.take(i + 1), keys, g) by {
                assert(t@ == g(seg.confidence));
                assert(v@ =~= v0 + vtt_cue(i as nat, seg@, g));
            }
        } else {
            assert forall|g: spec_fn(u32) -> Seq<char>| #[trigger] computes_text(*confidence_text, g) implies v@
                == vtt_header() + vtt_cues(sv.take(i + 1), keys, g) by {}
        }
        i += 1;
    }
    assert(sv.take(i as int) =~= sv);
    from_chars(&v)
}

/// A segment as the JSON export writes it.
#[derive(Debug)]
pub struct ExportSegment {
    pub start_ms: u64,
    pub end_ms: u64,
    pub duration_ms: u64,
    pub kind: String,
    /// `f32` bit pattern of the confidence score.
    pub confidence: u32,
    pub tags: Vec<String>,
    pub is_verified: bool,
}

/// The JSON export of a timeline.
#[derive(Debug)]
pub struct ExportData {
    pub file: String,
    pub analysis_sample_rate: u32,
    pub frame_ms: u32,
    pub segments: Vec<ExportSegment>,
    pub verified_keys: Option<Vec<(u64, u64)>>,
}

pub open spec fn kind_name(k: SegmentKind) -> Seq<char> {
    match k {
        SegmentKind::Speech => "speech"@,
        SegmentKind::NonVoice => "non_voice"@,
    }
}

/// The export entry of segment `v`.
pub open spec fn export_entry(e: ExportSegment, v: SegmentView, keys: Option<Seq<(u64, u64)>>) -> bool {
    &&& e.start_ms == v.start_ms
    &&& e.end_ms == v.end_ms
    &&& e.duration_ms == (if v.end_ms >= v.start_ms { v.end_ms - v.start_ms } else { 0 })
    &&& e.kind@ == kind_name(v.kind)
    &&& e.confidence == v.confidence
    &&& text_seq(e.tags@) == v.tags
    &&& e.is_verified == (keys is Some && keys->0.contains((v.start_ms, v.end_ms)))
}

fn export_segment(s: &Segment, verified: Option<&[(u64, u64)]>) -> (e: ExportSegment)
    ensures
        export_entry(e, s@, key_view(verified)),
{
    let is_verified = match verified {
        Some(keys) => contains_key(keys, s.start_ms, s.end_ms),
        None => false,
    };
    ExportSegment {
        start_ms: s.start_ms,
        end_ms: s.end_ms,
        duration_ms: if s.end_ms >= s.start_ms {
            s.end_ms - s.start_ms
        } else {
            0
        },
        kind: match s.kind {
            SegmentKind::Speech => "speech".to_string(),
            SegmentKind::NonVoice => "non_voice".to_string(),
        },
        confidence: s.confidence,
        tags: copy_strings(&s.tags),
        is_verified,
    }
}

impl ExportData {
    /// Every segment of the timeline with its length, kind name and whether its
    /// span is verified, and the verified keys themselves.
    pub fn from_timeline(timeline: &TimelineOutput, verified: Option<&[(u64, u64)]>) -> (d: ExportData)
        ensures
            d.file@ == timeline.file@,
            d.analysis_sample_rate == timeline.analysis_sample_rate,
            d.frame_ms == timeline.frame_ms,
            d.segments@.len() == timeline.segments@.len(),
            forall|k: int|
                0 <= k < d.segments@.len() ==> export_entry(
                    #[trigger] d.segments@[k],
                    timeline.segments@[k]@,
                    key_view(verified),
                ),
            match verified {
                Some(keys) => d.verified_keys matches Some(v) && v@ == keys@,
                None => d.verified_keys is None,
            },
    {
        let mut segments: Vec<ExportSegment> = Vec::new();
        let mut i: usize = 0;
        while i < timeline.segments.len()
            invariant
                i <= timeline.segments.len(),
                segments@.len() == i,
                forall|k: int|
                    0 <= k < i ==> export_entry(
                        #[trigger] segments@[k],
                        timeline.segments@[k]@,
                        key_view(verified),
                    ),
            decreases timeline.segments.len() - i,
        {
            let e = export_segment(&timeline.segments[i], verified);
            segments.push(e);
            i += 1;
        }
        let verified_keys = match verified {
            Some(keys) => {
                let mut v: Vec<(u64, u64)> = Vec::new();
                let mut k: usize = 0;
                while k < keys.len()
                    invariant
                        k <= keys.len(),
                        v@ == keys@.take(k as int),
                    decreases keys.len() - k,
                {
                    v.push(keys[k]);
                    k += 1;
                    assert(v@ =~= keys@.take(k as int));
                }
                assert(keys@.take(k as int) =~= keys@);
                Some(v)
            },
            None => None,
        };
        ExportData {
            file: timeline.file.clone(),
            analysis_sample_rate: timeline.analysis_sample_rate,
            frame_ms: timeline.frame_ms,
            segments,
            verified_keys,
        }
    }
}

} // verus!
