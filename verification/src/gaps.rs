//! Finding the non-voice stretches of a timeline where a narrator could
//! describe what happens on screen.
//!
//! Each non-voice segment collects evidence in tenths of confidence: its
//! length, its tags, dialogue on both sides, a change of sound environment
//! around it, and a gap in the subtitles that contains it.  A segment with more
//! than three tenths becomes a gap; gaps come out by priority, highest first,
//! then by start time.
use vstd::prelude::*;
use crate::fmt::{dec, append_str, push_decimal};
use crate::segment::{Segment, SegmentKind, SegmentView, TimelineOutput, seg_views, text_seq};
use crate::srt::{SrtError, SrtScan, parse_srt_segments, srt_blocks, srt_scan, speech_views};
use crate::text::{str_eq, from_chars};

verus! {

broadcast use vstd::string::group_string_axioms;

/// Settings of the gap search.  `high_confidence_threshold` is the `f32` bit
/// pattern of a score the search reports alongside; it does not take part in it.
#[derive(Debug, Clone, Copy)]
pub struct GapIdentifier {
    pub min_silence_duration_ms: u64,
    pub high_confidence_threshold: u32,
}

/// A place for narration.
#[derive(Debug)]
pub struct VisualGap {
    pub start_ms: u64,
    pub end_ms: u64,
    /// Confidence in tenths, at most ten.
    pub confidence_tenths: u32,
    pub reason: String,
    pub priority: u32,
}

pub struct GapView {
    pub start_ms: u64,
    pub end_ms: u64,
    pub confidence_tenths: u32,
    pub reason: Seq<char>,
    pub priority: u32,
}

impl View for VisualGap {
    type V = GapView;

    open spec fn view(&self) -> GapView {
        GapView {
            start_ms: self.start_ms,
            end_ms: self.end_ms,
            confidence_tenths: self.confidence_tenths,
            reason: self.reason@,
            priority: self.priority,
        }
    }
}

pub open spec fn gap_views(g: Seq<VisualGap>) -> Seq<GapView> {
    g.map_values(|x: VisualGap| x@)
}

#[derive(Debug)]
pub struct GapAnalysisOutput {
    pub file: String,
    pub gaps: Vec<VisualGap>,
}

pub open spec fn dur(v: SegmentView) -> int {
    v.end_ms - v.start_ms
}

pub open spec fn long_sig(v: SegmentView, min_silence: u64) -> bool {
    dur(v) > min_silence
}

pub open spec fn short_sig(v: SegmentView, min_silence: u64) -> bool {
    !long_sig(v, min_silence) && dur(v) > 1000
}

pub open spec fn ambience_sig(v: SegmentView) -> bool {
    v.tags.contains("ambience"@) && dur(v) > 2000
}

pub open spec fn sfx_sig(v: SegmentView) -> bool {
    v.tags.contains("impact_heavy"@) || v.tags.contains("machinery_like"@)
}

pub open spec fn music_sig(v: SegmentView) -> bool {
    v.tags.contains("music_bed"@) && dur(v) > 5000
}

/// Speech directly before and directly after segment `i`.
pub open spec fn dialogue_sig(s: Seq<SegmentView>, i: int) -> bool {
    i > 0 && s[i - 1].kind == SegmentKind::Speech && i + 1 < s.len() && s[i + 1].kind
        == SegmentKind::Speech
}

pub open spec fn tags_disjoint(a: Seq<Seq<char>>, b: Seq<Seq<char>>) -> bool {
    forall|j: int, k: int| 0 <= j < a.len() && 0 <= k < b.len() ==> a[j] != b[k]
}

/// The neighbours of segment `i` both carry tags and share none.
pub open spec fn environment_sig(s: Seq<SegmentView>, i: int) -> bool {
    0 < i && i + 1 < s.len() && tags_disjoint(s[i - 1].tags, s[i + 1].tags) && s[i - 1].tags.len()
        > 0 && s[i + 1].tags.len() > 0
}

/// Two consecutive subtitles enclose the segment.
pub open spec fn subtitle_sig(subs: Option<Seq<SegmentView>>, v: SegmentView) -> bool {
    match subs {
        Some(sp) => exists|j: int|
            0 <= j && j + 1 < sp.len() && #[trigger] sp[j].end_ms <= v.start_ms && sp[j + 1].start_ms
                >= v.end_ms,
        None => false,
    }
}

/// The evidence found for one segment.
#[derive(Debug, Clone, Copy)]
pub struct Signals {
    pub duration: u64,
    pub long: bool,
    pub short: bool,
    pub ambience: bool,
    pub sfx: bool,
    pub music: bool,
    pub dialogue: bool,
    pub environment: bool,
    pub subtitle: bool,
}

pub open spec fn signals_at(s: Seq<SegmentView>, i: int, subs: Option<Seq<SegmentView>>, min_silence: u64) -> Signals {
    let v = s[i];
    Signals {
        duration: dur(v) as u64,
        long: long_sig(v, min_silence),
        short: short_sig(v, min_silence),
        ambience: ambience_sig(v),
        sfx: sfx_sig(v),
        music: music_sig(v),
        dialogue: dialogue_sig(s, i),
        environment: environment_sig(s, i),
        subtitle: subtitle_sig(subs, v),
    }
}

pub open spec fn tenths_if(b: bool, t: nat) -> nat {
    if b {
        t
    } else {
        0
    }
}

/// The evidence in tenths; none for a segment under half a second.
pub open spec fn score_of(g: Signals) -> nat {
    if g.duration < 500 {
        0
    } else {
        (if g.long {
            4nat
        } else if g.short {
            1nat
        } else {
            0nat
        }) + tenths_if(g.ambience, 2) + tenths_if(g.sfx, 3) + tenths_if(g.music, 1) + tenths_if(
            g.dialogue,
            2,
        ) + tenths_if(g.environment, 3) + tenths_if(g.subtitle, 2)
    }
}

pub open spec fn gap_score(s: Seq<SegmentView>, i: int, subs: Option<Seq<SegmentView>>, min_silence: u64) -> nat {
    score_of(signals_at(s, i, subs, min_silence))
}

pub open spec fn reason_if(b: bool, r: Seq<char>) -> Seq<Seq<char>> {
    if b {
        seq![r]
    } else {
        Seq::empty()
    }
}

/// The reasons given, in the order the evidence is weighed.
pub open spec fn reasons_of(g: Signals) -> Seq<Seq<char>> {
    reason_if(g.long, "Duration ("@ + dec(g.duration as nat) + "ms) > 3s"@) + reason_if(
        g.ambience,
        "Extended ambience"@,
    ) + reason_if(g.sfx, "Ambiguous SFX needing description"@) + reason_if(
        g.dialogue,
        "Gap between dialogue blocks"@,
    ) + reason_if(g.environment, "Audio environment change detected"@) + reason_if(
        g.subtitle,
        "Confirmed by subtitle gap"@,
    )
}

pub open spec fn gap_reasons(s: Seq<SegmentView>, i: int, subs: Option<Seq<SegmentView>>, min_silence: u64) -> Seq<Seq<char>> {
    reasons_of(signals_at(s, i, subs, min_silence))
}

/// The pieces separated by `sep`.
pub open spec fn join(parts: Seq<Seq<char>>, sep: Seq<char>) -> Seq<char>
    decreases parts.len(),
{
    if parts.len() == 0 {
        Seq::empty()
    } else if parts.len() == 1 {
        parts[0]
    } else {
        join(parts.drop_last(), sep) + sep + parts.last()
    }
}

/// The gap that segment `i` gives, if it gives one.
pub open spec fn gap_at(s: Seq<SegmentView>, i: int, subs: Option<Seq<SegmentView>>, min_silence: u64) -> Option<GapView> {
    let v = s[i];
    let score = gap_score(s, i, subs, min_silence);
    if v.kind == SegmentKind::NonVoice && score > 3 {
        Some(
            GapView {
                start_ms: v.start_ms,
                end_ms: v.end_ms,
                confidence_tenths: if score > 10 {
                    10
                } else {
                    score as u32
                },
                reason: join(gap_reasons(s, i, subs, min_silence), "; "@),
                priority: if score + dur(v) / 5000 > 15 {
                    15
                } else {
                    (score + dur(v) / 5000) as u32
                },
            },
        )
    } else {
        None
    }
}

/// The gaps of segments `0..n`, in timeline order.
pub open spec fn candidates(s: Seq<SegmentView>, n: int, subs: Option<Seq<SegmentView>>, min_silence: u64) -> Seq<GapView>
    decreases n,
{
    if n <= 0 {
        Seq::empty()
    } else {
        let prev = candidates(s, n - 1, subs, min_silence);
        match gap_at(s, n - 1, subs, min_silence) {
            Some(g) => prev.push(g),
            None => prev,
        }
    }
}

/// `a` comes strictly before `b`: higher priority, or equal priority and earlier start.
pub open spec fn gap_before(a: GapView, b: GapView) -> bool {
    a.priority > b.priority || (a.priority == b.priority && a.start_ms < b.start_ms)
}

/// Where `x` goes into `sorted`: before the first element it comes strictly before.
pub open spec fn insert_pos(sorted: Seq<GapView>, x: GapView, k: int) -> int
    decreases sorted.len() - k,
{
    if k >= sorted.len() || k < 0 {
        sorted.len() as int
    } else if gap_before(x, sorted[k]) {
        k
    } else {
        insert_pos(sorted, x, k + 1)
    }
}

/// Stable sort by priority (highest first), then start time.
pub open spec fn gap_sort(g: Seq<GapView>) -> Seq<GapView>
    decreases g.len(),
{
    if g.len() == 0 {
        Seq::empty()
    } else {
        let s = gap_sort(g.drop_last());
        s.insert(insert_pos(s, g.last(), 0), g.last())
    }
}

pub open spec fn ref_views(o: Option<&Vec<Segment>>) -> Option<Seq<SegmentView>> {
    match o {
        Some(x) => Some(seg_views(x@)),
        None => None,
    }
}

pub open spec fn owned_views(o: Option<Vec<Segment>>) -> Option<Seq<SegmentView>> {
    match o {
        Some(x) => Some(seg_views(x@)),
        None => None,
    }
}


/// No gap comes strictly before an earlier one in the list.
pub open spec fn gaps_sorted(g: Seq<GapView>) -> bool {
    forall|i: int, j: int| 0 <= i < j < g.len() ==> !gap_before(#[trigger] g[j], #[trigger] g[i])
}

proof fn lemma_insert_pos(sorted: Seq<GapView>, x: GapView, k: int)
    requires
        0 <= k <= sorted.len(),
    ensures
        k <= insert_pos(sorted, x, k) <= sorted.len(),
        forall|m: int| k <= m < insert_pos(sorted, x, k) ==> !gap_before(x, #[trigger] sorted[m]),
        insert_pos(sorted, x, k) < sorted.len() ==> gap_before(x, sorted[insert_pos(sorted, x, k)]),
    decreases sorted.len() - k,
{
    if k < sorted.len() && !gap_before(x, sorted[k]) {
        lemma_insert_pos(sorted, x, k + 1);
    }
}

/// The gaps come out ordered: by priority, highest first, then by start time;
/// and sorting loses and adds no gap.
pub proof fn lemma_gap_sort_sorted(g: Seq<GapView>)
    ensures
        gaps_sorted(gap_sort(g)),
        gap_sort(g).len() == g.len(),
        gap_sort(g).to_multiset() == g.to_multiset(),
    decreases g.len(),
{
    if g.len() > 0 {
        lemma_gap_sort_sorted(g.drop_last());
        let s = gap_sort(g.drop_last());
        let x = g.last();
        let p = insert_pos(s, x, 0);
        lemma_insert_pos(s, x, 0);
        let out = s.insert(p, x);
        assert(out == gap_sort(g));
        vstd::seq_lib::to_multiset_insert(s, p, x);
        vstd::seq_lib::to_multiset_build(g.drop_last(), x);
        assert(g.drop_last().push(x) =~= g);
        assert(out.to_multiset() == g.to_multiset());
        assert forall|i: int, j: int| 0 <= i < j < out.len() implies !gap_before(#[trigger] out[j], #[trigger] out[i]) by {
            if j < p {
                assert(out[i] == s[i] && out[j] == s[j]);
            } else if j == p {
                assert(out[i] == s[i] && out[j] == x);
            } else if i < p {
                assert(out[i] == s[i] && out[j] == s[j - 1]);
            } else if i == p {
                assert(out[i] == x && out[j] == s[j - 1]);
                assert(gap_before(x, s[p]));
                if j - 1 > p {
                    assert(!gap_before(s[j - 1], s[p]));
                }
            } else {
                assert(out[i] == s[i - 1] && out[j] == s[j - 1]);
            }
        }
    } else {
        assert(g =~= Seq::<GapView>::empty());
    }
}

/// Every non-voice segment ends no earlier than it starts.
pub open spec fn non_voice_ordered(s: Seq<SegmentView>) -> bool {
    forall|k: int| 0 <= k < s.len() && (#[trigger] s[k]).kind == SegmentKind::NonVoice ==> s[k].start_ms <= s[k].end_ms
}

pub open spec fn default_gap_identifier() -> GapIdentifier {
    GapIdentifier { min_silence_duration_ms: 3000, high_confidence_threshold: 0x3F4C_CCCDu32 }
}

impl Default for GapIdentifier {
    fn default() -> (r: Self)
        ensures
            r == default_gap_identifier(),
    {
        GapIdentifier { min_silence_duration_ms: 3000, high_confidence_threshold: 0x3F4C_CCCDu32 }
    }
}

/// Whether `tags` holds `t`.
pub fn has_tag(tags: &Vec<String>, t: &str) -> (r: bool)
    ensures
        r == text_seq(tags@).contains(t@),
{
    let mut i: usize = 0;
    while i < tags.len()
        invariant
            i <= tags.len(),
            forall|k: int| 0 <= k < i ==> tags@[k]@ != t@,
        decreases tags.len() - i,
    {
        if str_eq(tags[i].as_str(), t) {
            assert(text_seq(tags@)[i as int] == t@);
            return true;
        }
        i += 1;
    }
    assert forall|k: int| 0 <= k < text_seq(tags@).len() implies text_seq(tags@)[k] != t@ by {
        assert(tags@[k]@ != t@);
    }
    false
}

fn disjoint_tags(a: &Vec<String>, b: &Vec<String>) -> (r: bool)
    ensures
        r == tags_disjoint(text_seq(a@), text_seq(b@)),
{
    let mut j: usize = 0;
    while j < a.len()
        invariant
            j <= a.len(),
            forall|x: int, y: int| 0 <= x < j && 0 <= y < b.len() ==> a@[x]@ != b@[y]@,
        decreases a.len() - j,
    {
        let mut k: usize = 0;
        while k < b.len()
            invariant
                j < a.len(),
                k <= b.len(),
                forall|x: int, y: int| 0 <= x < j && 0 <= y < b.len() ==> a@[x]@ != b@[y]@,
                forall|y: int| 0 <= y < k ==> a@[j as int]@ != b@[y]@,
            decreases b.len() - k,
        {
            if str_eq(a[j].as_str(), b[k].as_str()) {
                assert(text_seq(a@)[j as int] == text_seq(b@)[k as int]);
                return false;
            }
            k += 1;
        }
        j += 1;
    }
    assert forall|x: int, y: int| 0 <= x < text_seq(a@).len() && 0 <= y < text_seq(b@).len() implies text_seq(a@)[x] != text_seq(b@)[y] by {
        assert(a@[x]@ != b@[y]@);
    }
    true
}

fn subtitle_gap(subs: Option<&Vec<Segment>>, start: u64, end: u64, v: Ghost<SegmentView>) -> (r: bool)
    requires
        v@.start_ms == start,
        v@.end_ms == end,
    ensures
        r == subtitle_sig(ref_views(subs), v@),
{
    match subs {
        None => false,
        Some(sp) => {
            let mut j: usize = 0;
            while j < sp.len() && sp.len() - j > 1
                invariant
                    j <= sp.len(),
                    v@.start_ms == start,
                    v@.end_ms == end,
                    ref_views(subs) == Some(seg_views(sp@)),
                    forall|k: int| 0 <= k < j && k + 1 < sp.len() ==> !(sp@[k].end_ms <= start && sp@[k + 1].start_ms >= end),
                decreases sp.len() - j,
            {
                if sp[j].end_ms <= start && sp[j + 1].start_ms >= end {
                    let ghost w = seg_views(sp@);
                    assert(w[j as int] == sp@[j as int]@);
                    assert(w[j + 1] == sp@[j + 1]@);
                    assert(w[j as int].end_ms <= v@.start_ms && w[j + 1].start_ms >= v@.end_ms);
                    assert(subtitle_sig(ref_views(subs), v@));
                    return true;
                }
                j += 1;
            }
            assert forall|k: int| 0 <= k && k + 1 < seg_views(sp@).len() implies !(#[trigger] seg_views(sp@)[k].end_ms
                <= v@.start_ms && seg_views(sp@)[k + 1].start_ms >= v@.end_ms) by {
                assert(seg_views(sp@)[k] == sp@[k]@);
                assert(seg_views(sp@)[k + 1] == sp@[k + 1]@);
            }
            false
        },
    }
}

/// The evidence for segment `i`.
fn signals(segs: &Vec<Segment>, i: usize, subs: Option<&Vec<Segment>>, min_silence: u64) -> (g: Signals)
    requires
        i < segs.len(),
        segs@[i as int].start_ms <= segs@[i as int].end_ms,
    ensures
        g == signals_at(seg_views(segs@), i as int, ref_views(subs), min_silence),
{
    let ghost sv = seg_views(segs@);
    let seg = &segs[i];
    assert(sv[i as int] == seg@);
    proof {
        if i > 0 {
            assert(sv[i - 1] == segs@[i - 1]@);
        }
        if i + 1 < segs.len() {
            assert(sv[i + 1] == segs@[i + 1]@);
        }
    }
    let duration = seg.end_ms - seg.start_ms;
    let long = duration > min_silence;
    let short = !long && duration > 1000;
    let ambience = has_tag(&seg.tags, "ambience") && duration > 2000;
    let sfx = has_tag(&seg.tags, "impact_heavy") || has_tag(&seg.tags, "machinery_like");
    let music = has_tag(&seg.tags, "music_bed") && duration > 5000;
    let dialogue = i > 0 && segs[i - 1].kind == SegmentKind::Speech && i + 1 < segs.len() && segs[i
        + 1].kind == SegmentKind::Speech;
    let environment = i > 0 && i + 1 < segs.len() && disjoint_tags(&segs[i - 1].tags, &segs[i + 1].tags)
        && segs[i - 1].tags.len() > 0 && segs[i + 1].tags.len() > 0;
    let subtitle = subtitle_gap(subs, seg.start_ms, seg.end_ms, Ghost(seg@));
    Signals { duration, long, short, ambience, sfx, music, dialogue, environment, subtitle }
}

/// The evidence in tenths.
fn score(g: &Signals) -> (r: u64)
    ensures
        r == score_of(*g),
{
    if g.duration < 500 {
        return 0;
    }
    let mut score: u64 = 0;
    if g.long {
        score += 4;
    } else if g.short {
        score += 1;
    }
    if g.ambience {
        score += 2;
    }
    if g.sfx {
        score += 3;
    }
    if g.music {
        score += 1;
    }
    if g.dialogue {
        score += 2;
    }
    if g.environment {
        score += 3;
    }
    if g.subtitle {
        score += 2;
    }
    score
}

fn push_reason(reasons: &mut Vec<String>, found: bool, text: &str)
    ensures
        text_seq(final(reasons)@) == text_seq(old(reasons)@) + reason_if(found, text@),
{
    let ghost r0 = text_seq(reasons@);
    if found {
        reasons.push(text.to_string());
        assert(text_seq(reasons@) =~= r0 + reason_if(found, text@));
    } else {
        assert(text_seq(reasons@) =~= r0 + reason_if(found, text@));
    }
}

/// The reasons for the evidence found.
fn reasons(g: &Signals) -> (r: Vec<String>)
    ensures
        text_seq(r@) == reasons_of(*g),
{
    let mut r: Vec<String> = Vec::new();
    assert(text_seq(r@) =~= Seq::<Seq<char>>::empty());
    if g.long {
        let mut v: Vec<char> = Vec::new();
        append_str(&mut v, "Duration (");
        push_decimal(&mut v, g.duration);
        append_str(&mut v, "ms) > 3s");
        r.push(from_chars(&v));
    }
    assert(text_seq(r@) =~= reason_if(g.long, "Duration ("@ + dec(g.duration as nat) + "ms) > 3s"@));
    push_reason(&mut r, g.ambience, "Extended ambience");
    push_reason(&mut r, g.sfx, "Ambiguous SFX needing description");
    push_reason(&mut r, g.dialogue, "Gap between dialogue blocks");
    push_reason(&mut r, g.environment, "Audio environment change detected");
    push_reason(&mut r, g.subtitle, "Confirmed by subtitle gap");
    r
}

/// The parts separated by `sep` (`parts.join(sep)`).
pub fn join_strings(parts: &Vec<String>, sep: &str) -> (r: String)
    ensures
        r@ == join(text_seq(parts@), sep@),
{
    let ghost t = text_seq(parts@);
    let mut v: Vec<char> = Vec::new();
    let mut i: usize = 0;
    while i < parts.len()
        invariant
            i <= parts.len(),
            t == text_seq(parts@),
            v@ == join(t.take(i as int), sep@),
        decreases parts.len() - i,
    {
        proof {
            assert(t.take(i + 1).drop_last() =~= t.take(i as int));
            assert(t.take(i + 1).last() == parts@[i as int]@);
        }
        if i > 0 {
            append_str(&mut v, sep);
        }
        append_str(&mut v, parts[i].as_str());
        proof {
            if i == 0 {
                assert(v@ =~= join(t.take(1), sep@));
            }
        }
        i += 1;
    }
    assert(t.take(i as int) =~= t);
    from_chars(&v)
}

impl GapIdentifier {
    /// The gap that segment `i` of `segs` gives, if any.
    fn gap_for(&self, segs: &Vec<Segment>, i: usize, subs: Option<&Vec<Segment>>) -> (r: Option<VisualGap>)
        requires
            i < segs.len(),
            non_voice_ordered(seg_views(segs@)),
        ensures
            match r {
                Some(g) => gap_at(seg_views(segs@), i as int, ref_views(subs), self.min_silence_duration_ms)
                    == Some(g@),
                None => gap_at(seg_views(segs@), i as int, ref_views(subs), self.min_silence_duration_ms) is None,
            },
    {
        let ghost sv = seg_views(segs@);
        let seg = &segs[i];
        assert(sv[i as int] == seg@);
        if seg.kind != SegmentKind::NonVoice {
            return None;
        }
        let g = signals(segs, i, subs, self.min_silence_duration_ms);
        let sc = score(&g);
        if sc <= 3 {
            return None;
        }
        let rs = reasons(&g);
        let reason = join_strings(&rs, "; ");
        let confidence_tenths: u32 = if sc > 10 {
            10
        } else {
            sc as u32
        };
        let p = sc + g.duration / 5000;
        let priority: u32 = if p > 15 {
            15
        } else {
            p as u32
        };
        Some(VisualGap { start_ms: seg.start_ms, end_ms: seg.end_ms, confidence_tenths, reason, priority })
    }

    /// The visual gaps of a timeline, highest priority first.  With subtitles,
    /// those are read first and their first unreadable timing line is the error.
    pub fn identify_gaps(&self, timeline: &TimelineOutput, subtitles_srt: Option<&str>) -> (r: Result<GapAnalysisOutput, SrtError>)
        requires
            non_voice_ordered(seg_views(timeline.segments@)),
            subtitles_srt matches Some(t) ==> !(srt_scan(srt_blocks(t@)) is Overflow),
        ensures
            match r {
                Ok(out) => out.file@ == timeline.file@ && match subtitles_srt {
                    None => gap_views(out.gaps@) == gap_sort(
                        candidates(
                            seg_views(timeline.segments@),
                            timeline.segments@.len() as int,
                            None,
                            self.min_silence_duration_ms,
                        ),
                    ),
                    Some(t) => srt_scan(srt_blocks(t@)) matches SrtScan::Spans(sp) && gap_views(out.gaps@)
                        == gap_sort(
                        candidates(
                            seg_views(timeline.segments@),
                            timeline.segments@.len() as int,
                            Some(speech_views(sp)),
                            self.min_silence_duration_ms,
                        ),
                    ),
                },
                Err(SrtError::InvalidTimingLine(l)) => subtitles_srt matches Some(t) && srt_scan(
                    srt_blocks(t@),
                ) == SrtScan::Invalid(l@),
            },
    {
        let subs: Option<Vec<Segment>> = match subtitles_srt {
            Some(t) => match parse_srt_segments(t) {
                Ok(v) => Some(v),
                Err(e) => return Err(e),
            },
            None => None,
        };
        let ghost subv = owned_views(subs);
        let ghost sv = seg_views(timeline.segments@);
        let ghost min = self.min_silence_duration_ms;
        let mut gaps: Vec<VisualGap> = Vec::new();
        let mut i: usize = 0;
        while i < timeline.segments.len()
            invariant
                i <= timeline.segments.len(),
                sv == seg_views(timeline.segments@),
                non_voice_ordered(sv),
                subv == owned_views(subs),
                min == self.min_silence_duration_ms,
                gap_views(gaps@) == gap_sort(candidates(sv, i as int, subv, min)),
            decreases timeline.segments.len() - i,
        {
            let found = self.gap_for(&timeline.segments, i, subs.as_ref());
            match found {
                Some(g) => {
                    let ghost gv = g@;
                    insert_sorted(&mut gaps, g);
                    assert(gap_views(gaps@) == gap_sort(candidates(sv, i + 1, subv, min))) by {
                        let c = candidates(sv, i as int, subv, min);
                        assert(candidates(sv, i + 1, subv, min) == c.push(gv));
                        assert(c.push(gv).drop_last() =~= c);
                    }
                },
                None => {
                    assert(candidates(sv, i + 1, subv, min) == candidates(sv, i as int, subv, min));
                },
            }
            i += 1;
        }
        Ok(GapAnalysisOutput { file: timeline.file.clone(), gaps })
    }
}

/// Inserts a gap after every gap it does not come strictly before.
fn insert_sorted(gaps: &mut Vec<VisualGap>, g: VisualGap)
    ensures
        gap_views(final(gaps)@) == gap_views(old(gaps)@).insert(
            insert_pos(gap_views(old(gaps)@), g@, 0),
            g@,
        ),
{
    let ghost gv = gap_views(gaps@);
    let mut k: usize = 0;
    while k < gaps.len() && !(g.priority > gaps[k].priority || (g.priority == gaps[k].priority && g.start_ms
        < gaps[k].start_ms))
        invariant
            k <= gaps.len(),
            gv == gap_views(gaps@),
            insert_pos(gv, g@, 0) == insert_pos(gv, g@, k as int),
        decreases gaps.len() - k,
    {
        assert(gv[k as int] == gaps@[k as int]@);
        k += 1;
    }
    proof {
        if k < gaps.len() {
            assert(gv[k as int] == gaps@[k as int]@);
        }
    }
    let ghost x = g@;
    gaps.insert(k, g);
    assert(gap_views(gaps@) =~= gv.insert(k as int, x));
}


/// The environment-change evidence of segment `i` holds exactly when it has a
/// neighbour on both sides, both carry tags, and no tag of the previous
/// segment is a tag of the next one.
pub proof fn lemma_environment_change(s: Seq<SegmentView>, i: int, subs: Option<Seq<SegmentView>>, min_silence: u64)
    ensures
        signals_at(s, i, subs, min_silence).environment <==> (0 < i && i + 1 < s.len() && s[i - 1].tags.len() > 0
            && s[i + 1].tags.len() > 0 && forall|t: Seq<char>| #[trigger] s[i - 1].tags.contains(t) ==> !s[i
            + 1].tags.contains(t)),
{
    if 0 < i && i + 1 < s.len() {
        let a = s[i - 1].tags;
        let b = s[i + 1].tags;
        if tags_disjoint(a, b) {
            assert forall|t: Seq<char>| #[trigger] a.contains(t) implies !b.contains(t) by {
                if b.contains(t) {
                    let j = choose|j: int| 0 <= j < a.len() && a[j] == t;
                    let k = choose|k: int| 0 <= k < b.len() && b[k] == t;
                    assert(a[j] != b[k]);
                }
            }
        } else {
            let (j, k) = choose|j: int, k: int| 0 <= j < a.len() && 0 <= k < b.len() && a[j] == b[k];
            assert(a.contains(a[j]));
            assert(b.contains(b[k]));
        }
    }
}

/// What each piece of evidence adds to a gap's score, in tenths, once the gap
/// lasts at least half a second: ambience 2, unclear sound effects 3, music 1,
/// a dialogue gap 2, an environment change 3, a subtitle gap 2.
pub proof fn lemma_evidence_weights(g: Signals)
    requires
        g.duration >= 500,
    ensures
        score_of(Signals { ambience: true, ..g }) == score_of(Signals { ambience: false, ..g }) + 2,
        score_of(Signals { sfx: true, ..g }) == score_of(Signals { sfx: false, ..g }) + 3,
        score_of(Signals { music: true, ..g }) == score_of(Signals { music: false, ..g }) + 1,
        score_of(Signals { dialogue: true, ..g }) == score_of(Signals { dialogue: false, ..g }) + 2,
        score_of(Signals { environment: true, ..g }) == score_of(Signals { environment: false, ..g }) + 3,
        score_of(Signals { subtitle: true, ..g }) == score_of(Signals { subtitle: false, ..g }) + 2,
        score_of(Signals { long: true, ..g }) == score_of(Signals { long: false, short: false, ..g }) + 4,
{
    let rest = tenths_if(g.ambience, 2) + tenths_if(g.sfx, 3) + tenths_if(g.music, 1) + tenths_if(g.dialogue, 2)
        + tenths_if(g.environment, 3) + tenths_if(g.subtitle, 2);
    let base: nat = if g.long {
        4nat
    } else if g.short {
        1nat
    } else {
        0nat
    };
    assert(score_of(g) == base + rest);
}

/// The reasons name the environment change exactly when that evidence holds,
/// after the reasons weighed before it.
pub proof fn lemma_environment_reason(g: Signals)
    ensures
        reasons_of(Signals { environment: true, ..g }) == reasons_of(Signals { environment: false, subtitle: false, ..g })
            + seq!["Audio environment change detected"@] + reason_if(g.subtitle, "Confirmed by subtitle gap"@),
{
    let a = Signals { environment: true, ..g };
    let b = Signals { environment: false, subtitle: false, ..g };
    assert(reasons_of(a) =~= reasons_of(b) + seq!["Audio environment change detected"@] + reason_if(
        g.subtitle,
        "Confirmed by subtitle gap"@,
    ));
}

} // verus!
