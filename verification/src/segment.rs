//! Timeline segments: the values every stage of the pipeline reads and writes.
//!
//! A segment's confidence score is carried as the bit pattern of its `f32`
//! value.  Scores are compared and combined by the order of the numbers they
//! stand for (`score_lt`, `score_ge`, `score_min`), whatever their sign: the
//! magnitude bits order like the magnitudes, the sign bit reverses that order,
//! `0.0` and `-0.0` tie, and a NaN compares false with everything.
use vstd::prelude::*;

verus! {

/// The bit pattern stands for a NaN: all exponent bits set and a non-zero
/// fraction.
pub open spec fn score_nan(b: u32) -> bool {
    b % 0x8000_0000 > 0x7F80_0000
}

/// The order position of a non-NaN score: its magnitude bits, negated when the
/// sign bit is set (so `0.0` and `-0.0` both sit at 0).
pub open spec fn score_key(b: u32) -> int {
    if b >= 0x8000_0000 {
        -((b - 0x8000_0000) as int)
    } else {
        b as int
    }
}

/// `a < b` on the scores the bit patterns stand for.
pub open spec fn score_lt(a: u32, b: u32) -> bool {
    !score_nan(a) && !score_nan(b) && score_key(a) < score_key(b)
}

/// `a >= b` on the scores the bit patterns stand for.
pub open spec fn score_ge(a: u32, b: u32) -> bool {
    !score_nan(a) && !score_nan(b) && score_key(a) >= score_key(b)
}

/// The smaller of two scores; a NaN gives way to the other score, and of two
/// equal scores (such as `0.0` and `-0.0`) the first is kept.
pub open spec fn score_min(a: u32, b: u32) -> u32 {
    if score_nan(a) {
        b
    } else if score_nan(b) {
        a
    } else if score_key(b) < score_key(a) {
        b
    } else {
        a
    }
}

fn nan_bits(b: u32) -> (r: bool)
    ensures
        r == score_nan(b),
{
    let m = if b >= 0x8000_0000 {
        b - 0x8000_0000
    } else {
        b
    };
    m > 0x7F80_0000
}

/// Compares the order positions of two non-NaN scores.
fn key_lt(a: u32, b: u32) -> (r: bool)
    ensures
        r == (score_key(a) < score_key(b)),
{
    let a_neg = a >= 0x8000_0000;
    let b_neg = b >= 0x8000_0000;
    let am = if a_neg {
        a - 0x8000_0000
    } else {
        a
    };
    let bm = if b_neg {
        b - 0x8000_0000
    } else {
        b
    };
    if a_neg && b_neg {
        bm < am
    } else if a_neg {
        !(am == 0 && bm == 0)
    } else if b_neg {
        false
    } else {
        am < bm
    }
}

/// `a < b` on scores.
pub fn score_less(a: u32, b: u32) -> (r: bool)
    ensures
        r == score_lt(a, b),
{
    !nan_bits(a) && !nan_bits(b) && key_lt(a, b)
}

/// `a >= b` on scores.
pub fn score_at_least(a: u32, b: u32) -> (r: bool)
    ensures
        r == score_ge(a, b),
{
    !nan_bits(a) && !nan_bits(b) && !key_lt(a, b)
}

/// The smaller of two scores, as `f32::min` picks it.
pub fn score_smaller(a: u32, b: u32) -> (r: u32)
    ensures
        r == score_min(a, b),
{
    if nan_bits(a) {
        b
    } else if nan_bits(b) {
        a
    } else if key_lt(b, a) {
        b
    } else {
        a
    }
}

/// Bit pattern of the `f32` score 1.0.
pub const CONFIDENCE_ONE: u32 = 0x3F80_0000u32;

/// Bit pattern of the `f32` score 0.5, the score of a range with no evidence.
pub const CONFIDENCE_HALF: u32 = 0x3F00_0000u32;

#[derive(Debug, Clone, Copy, PartialEq, Eq, Structural)]
pub enum SegmentKind {
    Speech,
    NonVoice,
}

#[derive(Debug, Clone, Copy, PartialEq, Eq, Structural)]
pub enum SegmentTag {
    Music,
    MusicWithVoice,
    Speech,
    Ambience,
}

pub open spec fn segment_tag_text(tag: SegmentTag) -> Seq<char> {
    match tag {
        SegmentTag::Music => "music"@,
        SegmentTag::MusicWithVoice => "music_with_voice"@,
        SegmentTag::Speech => "speech"@,
        SegmentTag::Ambience => "ambience"@,
    }
}

impl SegmentTag {
    /// The tag's name as it appears in a timeline.
    pub fn to_text(&self) -> (s: String)
        ensures
            s@ == segment_tag_text(*self),
    {
        let s = match self {
            SegmentTag::Music => "music",
            SegmentTag::MusicWithVoice => "music_with_voice",
            SegmentTag::Speech => "speech",
            SegmentTag::Ambience => "ambience",
        };
        s.to_string()
    }
}

/// Abstract value of a segment: its integer fields and the text of its tags and prompt.
pub struct SegmentView {
    pub start_ms: u64,
    pub end_ms: u64,
    pub kind: SegmentKind,
    pub confidence: u32,
    pub tags: Seq<Seq<char>>,
    pub prompt: Option<Seq<char>>,
}

#[derive(Debug)]
pub struct Segment {
    pub start_ms: u64,
    pub end_ms: u64,
    pub kind: SegmentKind,
    /// `f32` bit pattern of the confidence score.
    pub confidence: u32,
    pub tags: Vec<String>,
    pub prompt: Option<String>,
}

pub open spec fn text_seq(v: Seq<String>) -> Seq<Seq<char>> {
    v.map_values(|s: String| s@)
}

pub open spec fn opt_text(o: Option<String>) -> Option<Seq<char>> {
    match o {
        Some(s) => Some(s@),
        None => None,
    }
}

impl View for Segment {
    type V = SegmentView;

    open spec fn view(&self) -> SegmentView {
        SegmentView {
            start_ms: self.start_ms,
            end_ms: self.end_ms,
            kind: self.kind,
            confidence: self.confidence,
            tags: text_seq(self.tags@),
            prompt: opt_text(self.prompt),
        }
    }
}

/// Views of a sequence of segments.
pub open spec fn seg_views(s: Seq<Segment>) -> Seq<SegmentView> {
    s.map_values(|x: Segment| x@)
}

/// Copies a list of strings.
pub fn copy_strings(v: &Vec<String>) -> (r: Vec<String>)
    ensures
        text_seq(r@) == text_seq(v@),
{
    let mut r: Vec<String> = Vec::new();
    let mut i: usize = 0;
    while i < v.len()
        invariant
            i <= v.len(),
            r.len() == i,
            forall|k: int| 0 <= k < i ==> (#[trigger] r@[k])@ == v@[k]@,
        decreases v.len() - i,
    {
        let s = v[i].clone();
        r.push(s);
        i += 1;
    }
    assert(text_seq(r@) =~= text_seq(v@));
    r
}

/// Appends copies of `extra` to `v`.
pub fn append_strings(v: &mut Vec<String>, extra: &Vec<String>)
    ensures
        text_seq(final(v)@) == text_seq(old(v)@) + text_seq(extra@),
{
    let ghost v0 = v@;
    let mut i: usize = 0;
    while i < extra.len()
        invariant
            i <= extra.len(),
            v.len() == v0.len() + i,
            forall|k: int| 0 <= k < v0.len() ==> (#[trigger] v@[k])@ == v0[k]@,
            forall|k: int| 0 <= k < i ==> (#[trigger] v@[v0.len() + k])@ == extra@[k]@,
        decreases extra.len() - i,
    {
        let s = extra[i].clone();
        v.push(s);
        i += 1;
    }
    assert forall|k: int| 0 <= k < v.len() implies (#[trigger] text_seq(v@)[k]) == (text_seq(v0) + text_seq(extra@))[k] by {
        if k >= v0.len() {
            assert(v@[v0.len() + (k - v0.len())] == v@[k]);
        }
    }
    assert(text_seq(v@) =~= text_seq(v0) + text_seq(extra@));
}

pub fn copy_opt_string(o: &Option<String>) -> (r: Option<String>)
    ensures
        opt_text(r) == opt_text(*o),
{
    match o {
        Some(s) => Some(s.clone()),
        None => None,
    }
}

impl Segment {
    /// A copy of the segment with equal fields, tags and prompt.
    pub fn duplicate(&self) -> (r: Segment)
        ensures
            r@ == self@,
    {
        Segment {
            start_ms: self.start_ms,
            end_ms: self.end_ms,
            kind: self.kind,
            confidence: self.confidence,
            tags: copy_strings(&self.tags),
            prompt: copy_opt_string(&self.prompt),
        }
    }

    /// A segment with no tags and no prompt.
    pub fn bare(start_ms: u64, end_ms: u64, kind: SegmentKind, confidence: u32) -> (r: Segment)
        ensures
            r@ == bare_view(start_ms, end_ms, kind, confidence),
    {
        let r = Segment { start_ms, end_ms, kind, confidence, tags: Vec::new(), prompt: None };
        assert(r@.tags =~= Seq::<Seq<char>>::empty());
        r
    }
}

pub open spec fn bare_view(start_ms: u64, end_ms: u64, kind: SegmentKind, confidence: u32) -> SegmentView {
    SegmentView { start_ms, end_ms, kind, confidence, tags: Seq::empty(), prompt: None }
}

/// Copies a list of segments.
pub fn copy_segments(s: &[Segment]) -> (r: Vec<Segment>)
    ensures
        seg_views(r@) == seg_views(s@),
{
    let mut r: Vec<Segment> = Vec::new();
    let mut i: usize = 0;
    while i < s.len()
        invariant
            i <= s.len(),
            r.len() == i,
            forall|k: int| 0 <= k < i ==> (#[trigger] r@[k])@ == s@[k]@,
        decreases s.len() - i,
    {
        let x = s[i].duplicate();
        r.push(x);
        i += 1;
    }
    assert(seg_views(r@) =~= seg_views(s@));
    r
}

/// The segments that a timeline file holds, with the analysis settings it was made with.
#[derive(Debug)]
pub struct TimelineOutput {
    pub file: String,
    pub analysis_sample_rate: u32,
    pub frame_ms: u32,
    pub segments: Vec<Segment>,
}

/// The speech segments of a timeline, handed to voice replacement.
#[derive(Debug)]
pub struct AiVoiceOutput {
    pub file: String,
    pub analysis_sample_rate: u32,
    pub frame_ms: u32,
    pub segments: Vec<Segment>,
}

/// Wall-clock time spent in each stage of the pipeline, in milliseconds.
#[derive(Debug, Clone, Copy)]
pub struct StageDurations {
    pub decode_ms: u128,
    pub resample_ms: u128,
    pub frame_ms: u128,
    pub vad_ms: u128,
    pub smooth_ms: u128,
    pub speech_ms: u128,
    pub merge_ms: u128,
    pub invert_ms: u128,
}

impl Default for StageDurations {
    fn default() -> (r: Self)
        ensures
            r.decode_ms == 0 && r.resample_ms == 0 && r.frame_ms == 0 && r.vad_ms == 0,
            r.smooth_ms == 0 && r.speech_ms == 0 && r.merge_ms == 0 && r.invert_ms == 0,
    {
        StageDurations {
            decode_ms: 0,
            resample_ms: 0,
            frame_ms: 0,
            vad_ms: 0,
            smooth_ms: 0,
            speech_ms: 0,
            merge_ms: 0,
            invert_ms: 0,
        }
    }
}

#[derive(Debug)]
pub struct BenchmarkResult {
    pub input_file: String,
    pub total_ms: u128,
    pub decode_ms: u128,
    pub frame_count: usize,
    pub segment_count: usize,
    pub stage_ms: StageDurations,
}

} // verus!
