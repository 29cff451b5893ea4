//! Timeline transformations behind the command-line subcommands: tagging,
//! narration prompts, merging and extraction of the speech segments.
use vstd::prelude::*;
use crate::config::{MergeOptions, MergeStrategy};
use crate::merge::{key_view, merge_nonvoice_segments, ordered_spans, select_spec};
use crate::segment::{
    AiVoiceOutput, Segment, SegmentKind, SegmentView, TimelineOutput, seg_views, text_seq, score_lt, score_less,
};
use crate::gaps::has_tag;
use crate::verification::{VerificationStatus, verified_keys, verified_spans};

verus! {

broadcast use vstd::string::group_string_axioms;

/// Shortest non-voice segment that gets a prompt.
pub const PROMPT_MIN_DURATION_MS: u64 = 2500;

/// Bit pattern of the `f32` score 0.65, the lowest confidence that gets a prompt.
pub const PROMPT_MIN_CONFIDENCE: u32 = 0x3F26_6666u32;

/// Which tag rules fired for a segment's audio features.
#[derive(Debug, Clone, Copy)]
pub struct TagEvidence {
    pub ambience: bool,
    pub music_bed: bool,
    pub impact_heavy: bool,
    pub machinery_like: bool,
    pub crowd_like: bool,
    pub nature_like: bool,
    pub tonal: bool,
    pub music_like: bool,
    pub speech_like: bool,
}

pub open spec fn tag_if(b: bool, t: Seq<char>) -> Seq<Seq<char>> {
    if b {
        seq![t]
    } else {
        Seq::empty()
    }
}

pub open spec fn no_rule_fired(e: TagEvidence) -> bool {
    !e.ambience && !e.music_bed && !e.impact_heavy && !e.machinery_like && !e.crowd_like
        && !e.nature_like && !e.tonal && !e.music_like && !e.speech_like
}

/// The tags of the fired rules, sorted and without repeats (the names below are
/// in ascending order); `ambience` when no rule fired.
pub open spec fn tag_list(e: TagEvidence) -> Seq<Seq<char>> {
    tag_if(e.ambience || no_rule_fired(e), "ambience"@) + tag_if(e.crowd_like, "crowd_like"@) + tag_if(
        e.impact_heavy,
        "impact_heavy"@,
    ) + tag_if(e.machinery_like, "machinery_like"@) + tag_if(e.music_bed, "music_bed"@) + tag_if(
        e.music_like,
        "music_like"@,
    ) + tag_if(e.nature_like, "nature_like"@) + tag_if(e.speech_like, "speech_like"@) + tag_if(
        e.tonal,
        "tonal"@,
    )
}

fn push_tag(tags: &mut Vec<String>, fired: bool, name: &str)
    ensures
        text_seq(final(tags)@) == text_seq(old(tags)@) + tag_if(fired, name@),
{
    let ghost t0 = text_seq(tags@);
    if fired {
        tags.push(name.to_string());
    }
    assert(text_seq(tags@) =~= t0 + tag_if(fired, name@));
}

/// The tags for a segment from the rules that fired.
pub fn map_tags(e: &TagEvidence) -> (tags: Vec<String>)
    ensures
        text_seq(tags@) == tag_list(*e),
{
    let mut tags: Vec<String> = Vec::new();
    assert(text_seq(tags@) =~= Seq::<Seq<char>>::empty());
    let none = !e.ambience && !e.music_bed && !e.impact_heavy && !e.machinery_like && !e.crowd_like
        && !e.nature_like && !e.tonal && !e.music_like && !e.speech_like;
    push_tag(&mut tags, e.ambience || none, "ambience");
    push_tag(&mut tags, e.crowd_like, "crowd_like");
    push_tag(&mut tags, e.impact_heavy, "impact_heavy");
    push_tag(&mut tags, e.machinery_like, "machinery_like");
    push_tag(&mut tags, e.music_bed, "music_bed");
    push_tag(&mut tags, e.music_like, "music_like");
    push_tag(&mut tags, e.nature_like, "nature_like");
    push_tag(&mut tags, e.speech_like, "speech_like");
    push_tag(&mut tags, e.tonal, "tonal");
    tags
}

/// The segments with the non-voice ones re-tagged from their evidence.
pub open spec fn tagged(s: Seq<SegmentView>, e: Seq<TagEvidence>) -> Seq<SegmentView> {
    Seq::new(
        s.len(),
        |i: int|
            if s[i].kind == SegmentKind::NonVoice {
                SegmentView { tags: tag_list(e[i]), ..s[i] }
            } else {
                s[i]
            },
    )
}

/// Sets the tags of every non-voice segment from the evidence found for it
/// (`evidence[i]` belongs to segment `i`; it is read for non-voice segments only).
pub fn add_tags(timeline: &mut TimelineOutput, evidence: &[TagEvidence])
    requires
        evidence@.len() == old(timeline).segments@.len(),
    ensures
        seg_views(final(timeline).segments@) == tagged(seg_views(old(timeline).segments@), evidence@),
        final(timeline).file@ == old(timeline).file@,
        final(timeline).analysis_sample_rate == old(timeline).analysis_sample_rate,
        final(timeline).frame_ms == old(timeline).frame_ms,
{
    let ghost sv = seg_views(timeline.segments@);
    let mut out: Vec<Segment> = Vec::new();
    let mut i: usize = 0;
    while i < timeline.segments.len()
        invariant
            i <= timeline.segments.len(),
            evidence@.len() == timeline.segments@.len(),
            sv == seg_views(timeline.segments@),
            out@.len() == i,
            forall|k: int| 0 <= k < i ==> (#[trigger] out@[k])@ == tagged(sv, evidence@)[k],
        decreases timeline.segments.len() - i,
    {
        let mut x = timeline.segments[i].duplicate();
        if x.kind == SegmentKind::NonVoice {
            x.tags = map_tags(&evidence[i]);
        }
        assert(x@ == tagged(sv, evidence@)[i as int]);
        out.push(x);
        i += 1;
    }
    timeline.segments = out;
    assert(seg_views(timeline.segments@) =~= tagged(sv, evidence@));
}

/// The tagging step of the `tag` command: the timeline with its non-voice
/// segments tagged from their evidence.
pub fn handle_tag(timeline: TimelineOutput, evidence: &[TagEvidence]) -> (r: TimelineOutput)
    requires
        evidence@.len() == timeline.segments@.len(),
    ensures
        seg_views(r.segments@) == tagged(seg_views(timeline.segments@), evidence@),
        r.file@ == timeline.file@,
        r.analysis_sample_rate == timeline.analysis_sample_rate,
        r.frame_ms == timeline.frame_ms,
{
    let mut t = timeline;
    add_tags(&mut t, evidence);
    t
}

/// The narration prompt for a segment's tags: the first of impact, music bed
/// and nature that is present decides; otherwise a general ambience prompt.
pub open spec fn prompt_text(tags: Seq<Seq<char>>) -> Seq<char> {
    if tags.contains("impact_heavy"@) {
        "No dialogue. Energetic impact-forward soundscape."@
    } else if tags.contains("music_bed"@) {
        "No dialogue. Background music bed without spoken words."@
    } else if tags.contains("nature_like"@) {
        "No dialogue. Ambient natural atmosphere."@
    } else {
        "No dialogue. Ambient environmental sound."@
    }
}

pub fn prompt_for_tags(tags: &Vec<String>) -> (p: String)
    ensures
        p@ == prompt_text(text_seq(tags@)),
{
    if has_tag(tags, "impact_heavy") {
        return "No dialogue. Energetic impact-forward soundscape.".to_string();
    }
    if has_tag(tags, "music_bed") {
        return "No dialogue. Background music bed without spoken words.".to_string();
    }
    if has_tag(tags, "nature_like") {
        return "No dialogue. Ambient natural atmosphere.".to_string();
    }
    "No dialogue. Ambient environmental sound.".to_string()
}

/// Saturating length of a segment.
pub open spec fn span_len(v: SegmentView) -> int {
    if v.end_ms >= v.start_ms {
        v.end_ms - v.start_ms
    } else {
        0
    }
}

/// A non-voice segment long and confident enough gets the prompt for its tags,
/// any other non-voice segment loses its prompt; speech is left alone.
pub open spec fn prompted(v: SegmentView, min_ms: u64, min_conf: u32) -> SegmentView {
    if v.kind != SegmentKind::NonVoice {
        v
    } else if span_len(v) < min_ms || score_lt(v.confidence, min_conf) {
        SegmentView { prompt: None, ..v }
    } else {
        SegmentView { prompt: Some(prompt_text(v.tags)), ..v }
    }
}

pub open spec fn prompted_all(s: Seq<SegmentView>, min_ms: u64, min_conf: u32) -> Seq<SegmentView> {
    s.map_values(|v: SegmentView| prompted(v, min_ms, min_conf))
}

/// Sets or clears the prompts of the non-voice segments with the given limits.
pub fn add_prompts_with(timeline: &mut TimelineOutput, min_duration_ms: u64, min_confidence: u32)
    ensures
        seg_views(final(timeline).segments@) == prompted_all(
            seg_views(old(timeline).segments@),
            min_duration_ms,
            min_confidence,
        ),
        final(timeline).file@ == old(timeline).file@,
        final(timeline).analysis_sample_rate == old(timeline).analysis_sample_rate,
        final(timeline).frame_ms == old(timeline).frame_ms,
{
    let ghost sv = seg_views(timeline.segments@);
    let mut out: Vec<Segment> = Vec::new();
    let mut i: usize = 0;
    while i < timeline.segments.len()
        invariant
            i <= timeline.segments.len(),
            sv == seg_views(timeline.segments@),
            out@.len() == i,
            forall|k: int|
                0 <= k < i ==> (#[trigger] out@[k])@ == prompted(sv[k], min_duration_ms, min_confidence),
        decreases timeline.segments.len() - i,
    {
        let mut x = timeline.segments[i].duplicate();
        assert(sv[i as int] == x@);
        if x.kind == SegmentKind::NonVoice {
            let dur = if x.end_ms >= x.start_ms {
                x.end_ms - x.start_ms
            } else {
                0
            };
            if dur < min_duration_ms || score_less(x.confidence, min_confidence) {
                x.prompt = None;
            } else {
                x.prompt = Some(prompt_for_tags(&x.tags));
            }
        }
        out.push(x);
        i += 1;
    }
    timeline.segments = out;
    assert(seg_views(timeline.segments@) =~= prompted_all(sv, min_duration_ms, min_confidence));
}

/// Sets or clears the prompts with the default limits: at least 2.5 s and a
/// score of at least 0.65.
pub fn add_prompts(timeline: &mut TimelineOutput)
    ensures
        seg_views(final(timeline).segments@) == prompted_all(
            seg_views(old(timeline).segments@),
            PROMPT_MIN_DURATION_MS,
            PROMPT_MIN_CONFIDENCE,
        ),
        final(timeline).file@ == old(timeline).file@,
        final(timeline).analysis_sample_rate == old(timeline).analysis_sample_rate,
        final(timeline).frame_ms == old(timeline).frame_ms,
{
    add_prompts_with(timeline, PROMPT_MIN_DURATION_MS, PROMPT_MIN_CONFIDENCE);
}

/// The prompting step of the `prompt` command, with the configured limits:
/// the shortest duration and the lowest score that get a prompt.
pub fn handle_prompt(timeline: TimelineOutput, min_duration_ms: u64, min_confidence: u32) -> (r: TimelineOutput)
    ensures
        seg_views(r.segments@) == prompted_all(seg_views(timeline.segments@), min_duration_ms, min_confidence),
        r.file@ == timeline.file@,
        r.analysis_sample_rate == timeline.analysis_sample_rate,
        r.frame_ms == timeline.frame_ms,
{
    let mut t = timeline;
    add_prompts_with(&mut t, min_duration_ms, min_confidence);
    t
}

/// The segments of one kind, in order.
pub open spec fn of_kind(s: Seq<SegmentView>, kind: SegmentKind) -> Seq<SegmentView>
    decreases s.len(),
{
    if s.len() == 0 {
        Seq::empty()
    } else if s.last().kind == kind {
        of_kind(s.drop_last(), kind).push(s.last())
    } else {
        of_kind(s.drop_last(), kind)
    }
}

/// The `ai-voice-extract` result: the speech segments of a timeline with its
/// file name and analysis settings.
pub fn handle_ai_voice_extract(timeline: TimelineOutput) -> (r: AiVoiceOutput)
    ensures
        seg_views(r.segments@) == of_kind(seg_views(timeline.segments@), SegmentKind::Speech),
        r.file@ == timeline.file@,
        r.analysis_sample_rate == timeline.analysis_sample_rate,
        r.frame_ms == timeline.frame_ms,
{
    let ghost sv = seg_views(timeline.segments@);
    let mut speech: Vec<Segment> = Vec::new();
    let mut i: usize = 0;
    while i < timeline.segments.len()
        invariant
            i <= timeline.segments.len(),
            sv == seg_views(timeline.segments@),
            seg_views(speech@) == of_kind(sv.take(i as int), SegmentKind::Speech),
        decreases timeline.segments.len() - i,
    {
        proof {
            assert(sv.take(i + 1).drop_last() =~= sv.take(i as int));
            assert(sv.take(i + 1).last() == timeline.segments@[i as int]@);
        }
        if timeline.segments[i].kind == SegmentKind::Speech {
            let ghost before = seg_views(speech@);
            let x = timeline.segments[i].duplicate();
            speech.push(x);
            assert(seg_views(speech@) =~= before.push(timeline.segments@[i as int]@));
        }
        i += 1;
    }
    assert(sv.take(i as int) =~= sv);
    AiVoiceOutput {
        file: timeline.file,
        analysis_sample_rate: timeline.analysis_sample_rate,
        frame_ms: timeline.frame_ms,
        segments: speech,
    }
}

/// The merging step of the `merge-timeline` command: with a verification report
/// (span and outcome of each check), only the verified spans take part.
pub fn handle_merge_timeline<G: Fn(Vec<u32>) -> u32, H: Fn(u32, u32) -> u32>(
    timeline: &TimelineOutput,
    options: &MergeOptions,
    report: Option<&[(u64, u64, VerificationStatus)]>,
    mean: &G,
    combine: &H,
) -> (r: TimelineOutput)
    requires
        forall|v: Vec<u32>| mean.requires((v,)),
        forall|a: u32, b: u32| combine.requires((a, b)),
        options.merge_strategy != MergeStrategy::All ==> ordered_spans(
            select_spec(
                seg_views(timeline.segments@),
                match report {
                    Some(rp) => Some(verified_spans(rp@)),
                    None => None,
                },
            ),
        ),
    ensures
        r.file@ == timeline.file@,
        r.analysis_sample_rate == timeline.analysis_sample_rate,
        r.frame_ms == timeline.frame_ms,
        crate::merge::merge_outcome(
            seg_views(r.segments@),
            select_spec(
                seg_views(timeline.segments@),
                match report {
                    Some(rp) => Some(verified_spans(rp@)),
                    None => None,
                },
            ),
            *options,
            *mean,
            *combine,
        ),
{
    match report {
        Some(rp) => {
            let keys = verified_keys(rp);
            merge_nonvoice_segments(timeline, options, Some(keys.as_slice()), mean, combine)
        },
        None => merge_nonvoice_segments(timeline, options, None, mean, combine),
    }
}


proof fn lemma_concat_contains(a: Seq<Seq<char>>, b: Seq<Seq<char>>, x: Seq<char>)
    ensures
        (a + b).contains(x) <==> (a.contains(x) || b.contains(x)),
{
    if a.contains(x) {
        let i = choose|i: int| 0 <= i < a.len() && a[i] == x;
        assert((a + b)[i] == x);
    }
    if b.contains(x) {
        let j = choose|j: int| 0 <= j < b.len() && b[j] == x;
        assert((a + b)[a.len() + j] == x);
    }
    if (a + b).contains(x) {
        let i = choose|i: int| 0 <= i < (a + b).len() && (a + b)[i] == x;
        if i < a.len() {
            assert(a[i] == x);
        } else {
            assert(b[i - a.len()] == x);
        }
    }
}

proof fn lemma_tag_if_contains(b: bool, t: Seq<char>, x: Seq<char>)
    ensures
        tag_if(b, t).contains(x) <==> (b && t == x),
{
    if b {
        assert(tag_if(b, t)[0] == t);
    }
}

/// The names whose flags are set, in order.
pub open spec fn named_if(f: Seq<bool>, n: Seq<Seq<char>>) -> Seq<Seq<char>>
    decreases f.len(),
{
    if f.len() == 0 || n.len() == 0 {
        Seq::empty()
    } else {
        named_if(f.drop_last(), n.drop_last()) + tag_if(f.last(), n.last())
    }
}

proof fn lemma_named_if_contains(f: Seq<bool>, n: Seq<Seq<char>>, m: int)
    requires
        f.len() == n.len(),
        0 <= m < n.len(),
        forall|i: int, j: int| 0 <= i < j < n.len() ==> n[i] != n[j],
    ensures
        named_if(f, n).contains(n[m]) <==> f[m],
    decreases f.len(),
{
    let l = f.len() - 1;
    lemma_concat_contains(named_if(f.drop_last(), n.drop_last()), tag_if(f.last(), n.last()), n[m]);
    lemma_tag_if_contains(f.last(), n.last(), n[m]);
    if m < l {
        assert(n[m] != n[l]);
        lemma_named_if_contains(f.drop_last(), n.drop_last(), m);
        assert(n.drop_last()[m] == n[m] && f.drop_last()[m] == f[m]);
    } else if l > 0 {
        assert forall|k: int| 0 <= k < l implies n.drop_last()[k] != n[m] by {
            assert(n[k] != n[l]);
        }
        if named_if(f.drop_last(), n.drop_last()).contains(n[m]) {
            lemma_named_if_absent(f.drop_last(), n.drop_last(), n[m]);
        }
    } else {
        assert(named_if(f.drop_last(), n.drop_last()) =~= Seq::<Seq<char>>::empty());
    }
}

proof fn lemma_named_if_absent(f: Seq<bool>, n: Seq<Seq<char>>, x: Seq<char>)
    requires
        f.len() == n.len(),
        forall|k: int| 0 <= k < n.len() ==> n[k] != x,
    ensures
        !named_if(f, n).contains(x),
    decreases f.len(),
{
    if f.len() > 0 {
        lemma_concat_contains(named_if(f.drop_last(), n.drop_last()), tag_if(f.last(), n.last()), x);
        lemma_tag_if_contains(f.last(), n.last(), x);
        assert(n[n.len() - 1] != x);
        lemma_named_if_absent(f.drop_last(), n.drop_last(), x);
    }
}

/// The tag names, in the order of the tag list.
pub open spec fn tag_names() -> Seq<Seq<char>> {
    seq![
        "ambience"@,
        "crowd_like"@,
        "impact_heavy"@,
        "machinery_like"@,
        "music_bed"@,
        "music_like"@,
        "nature_like"@,
        "speech_like"@,
        "tonal"@,
    ]
}

proof fn lemma_tag_names_distinct()
    ensures
        forall|i: int, j: int| 0 <= i < j < tag_names().len() ==> tag_names()[i] != tag_names()[j],
{
    reveal_strlit("ambience");
    reveal_strlit("crowd_like");
    reveal_strlit("impact_heavy");
    reveal_strlit("machinery_like");
    reveal_strlit("music_bed");
    reveal_strlit("music_like");
    reveal_strlit("nature_like");
    reveal_strlit("speech_like");
    reveal_strlit("tonal");
    let n = tag_names();
    assert(n[0].len() == 8 && n[1].len() == 10 && n[2].len() == 12 && n[3].len() == 14 && n[4].len() == 9
        && n[5].len() == 10 && n[6].len() == 11 && n[7].len() == 11 && n[8].len() == 5);
    assert(n[1][0] != n[5][0] && n[6][0] != n[7][0]);
    assert forall|i: int, j: int| 0 <= i < j < n.len() implies n[i] != n[j] by {
        if (i == 1 && j == 5) || (i == 6 && j == 7) {
            assert(n[i][0] != n[j][0]);
        } else {
            assert(n[i].len() != n[j].len());
        }
    }
}

proof fn lemma_named_if_step(f: Seq<bool>, n: Seq<Seq<char>>, k: int)
    requires
        f.len() == n.len(),
        0 <= k < f.len(),
    ensures
        named_if(f.take(k + 1), n.take(k + 1)) == named_if(f.take(k), n.take(k)) + tag_if(f[k], n[k]),
{
    assert(f.take(k + 1).drop_last() =~= f.take(k));
    assert(n.take(k + 1).drop_last() =~= n.take(k));
}

proof fn lemma_tag_list_named(e: TagEvidence, f: Seq<bool>)
    requires
        f == seq![
            e.ambience || no_rule_fired(e),
            e.crowd_like,
            e.impact_heavy,
            e.machinery_like,
            e.music_bed,
            e.music_like,
            e.nature_like,
            e.speech_like,
            e.tonal,
        ],
    ensures
        named_if(f, tag_names()) == tag_list(e),
{
    let n = tag_names();
    assert(named_if(f.take(0), n.take(0)) =~= Seq::<Seq<char>>::empty());
    lemma_named_if_step(f, n, 0);
    lemma_named_if_step(f, n, 1);
    lemma_named_if_step(f, n, 2);
    lemma_named_if_step(f, n, 3);
    lemma_named_if_step(f, n, 4);
    lemma_named_if_step(f, n, 5);
    lemma_named_if_step(f, n, 6);
    lemma_named_if_step(f, n, 7);
    lemma_named_if_step(f, n, 8);
    assert(f.take(9) =~= f);
    assert(n.take(9) =~= n);
    assert(Seq::<Seq<char>>::empty() + tag_if(f[0], n[0]) =~= tag_if(f[0], n[0]));
}

/// Every rule that fired gives its tag and no other rule's tag appears; when
/// no rule fired the segment is tagged `ambience`, so the list is never
/// empty.
pub proof fn lemma_tags_name_the_fired_rules(e: TagEvidence)
    ensures
        tag_list(e).len() > 0,
        tag_list(e).contains("ambience"@) <==> (e.ambience || !(e.music_bed || e.impact_heavy || e.machinery_like
            || e.crowd_like || e.nature_like || e.tonal || e.music_like || e.speech_like)),
        tag_list(e).contains("crowd_like"@) <==> e.crowd_like,
        tag_list(e).contains("impact_heavy"@) <==> e.impact_heavy,
        tag_list(e).contains("machinery_like"@) <==> e.machinery_like,
        tag_list(e).contains("music_bed"@) <==> e.music_bed,
        tag_list(e).contains("music_like"@) <==> e.music_like,
        tag_list(e).contains("nature_like"@) <==> e.nature_like,
        tag_list(e).contains("speech_like"@) <==> e.speech_like,
        tag_list(e).contains("tonal"@) <==> e.tonal,
{
    let n = tag_names();
    let f = seq![
        e.ambience || no_rule_fired(e),
        e.crowd_like,
        e.impact_heavy,
        e.machinery_like,
        e.music_bed,
        e.music_like,
        e.nature_like,
        e.speech_like,
        e.tonal,
    ];
    lemma_tag_names_distinct();
    lemma_tag_list_named(e, f);
    lemma_named_if_contains(f, n, 0);
    lemma_named_if_contains(f, n, 1);
    lemma_named_if_contains(f, n, 2);
    lemma_named_if_contains(f, n, 3);
    lemma_named_if_contains(f, n, 4);
    lemma_named_if_contains(f, n, 5);
    lemma_named_if_contains(f, n, 6);
    lemma_named_if_contains(f, n, 7);
    lemma_named_if_contains(f, n, 8);
    if tag_list(e).len() == 0 {
        assert(!tag_list(e).contains(n[0]));
    }
}

/// The prompt a long and confident enough non-voice segment gets: impacts
/// first, then a music bed, then nature, else general ambience; a segment too
/// short or not confident enough gets none, and speech keeps its prompt.
pub proof fn lemma_prompt_choice(s: Seq<SegmentView>, min_ms: u64, min_conf: u32, k: int)
    requires
        0 <= k < s.len(),
    ensures
        ({
            let v = s[k];
            let r = prompted_all(s, min_ms, min_conf)[k];
            let duration = if v.end_ms >= v.start_ms {
                v.end_ms - v.start_ms
            } else {
                0
            };
            let eligible = v.kind == SegmentKind::NonVoice && duration >= min_ms && !score_lt(v.confidence, min_conf);
            &&& v.kind != SegmentKind::NonVoice ==> r == v
            &&& v.kind == SegmentKind::NonVoice && !eligible ==> r.prompt is None
            &&& eligible && v.tags.contains("impact_heavy"@) ==> r.prompt == Some(
                "No dialogue. Energetic impact-forward soundscape."@,
            )
            &&& eligible && !v.tags.contains("impact_heavy"@) && v.tags.contains("music_bed"@) ==> r.prompt == Some(
                "No dialogue. Background music bed without spoken words."@,
            )
            &&& eligible && !v.tags.contains("impact_heavy"@) && !v.tags.contains("music_bed"@) && v.tags.contains(
                "nature_like"@,
            ) ==> r.prompt == Some("No dialogue. Ambient natural atmosphere."@)
            &&& eligible && !v.tags.contains("impact_heavy"@) && !v.tags.contains("music_bed"@) && !v.tags.contains(
                "nature_like"@,
            ) ==> r.prompt == Some("No dialogue. Ambient environmental sound."@)
            &&& r.start_ms == v.start_ms && r.end_ms == v.end_ms && r.kind == v.kind && r.tags == v.tags
                && r.confidence == v.confidence
        }),
{
}

} // verus!
