//! The segment passes of an analysis run, chained in the order the tool
//! applies them: from per-frame states to speech segments, from speech to
//! non-voice segments, and the clean-up after the audio check.
//!
//! What needs the audio (frame scores, the implausibility of a speech span, the
//! result of checking a segment's audio) comes in as closures or flags.
use vstd::prelude::*;
use crate::config::{MergeOptions, MergeStrategy};
use crate::evidence::{filter_implausible_speech_segments, plausible_only};
use crate::expand::{
    expand_non_voice_segments_into_ambiguous, expandable_inputs, expanded_view, extend_terminal_non_voice_segment,
    frame_len, lemma_growth_never_shrinks, max_frames, tail_spec,
};
use crate::segment::{Segment, SegmentKind, SegmentView, bare_view, seg_views};
use crate::segmenter::{
    apply_non_voice_merge_policy, bridge_non_voice_segments, bridge_residual_non_voice_gaps, bridge_spec,
    computes2, computes_mean, confidences, gap_join_spec, invert_spans, invert_to_non_voice, merge_all_view,
    merge_close_segments, merge_close_spec, policy_gap, prune_short_speech_segments, prune_spec,
    smoothed_frame, sparse_spec, speech_runs, speech_segments, split_long_segments, split_plan,
    SplitItem, POST_FILTER_BRIDGE_MAX_GAP_MS, bridge_step, gap_join_step, sparse_step, with_end_conf,
    invert_scan, nv_span, nv_pieces, speech_in_order, lemma_non_voice_spans_last_min, split_items,
    true_runs, long_runs, max_u64, survives_prune,
};
use crate::tri_state::{hard_non_speech, pre_speech_seq, smooth_states, FrameState};
use crate::verification::{
    filter_low_confidence_non_voice_segments, kept_after_check, FILTER_SEGMENT_CONFIDENCE_CEILING,
};

verus! {

/// The settings that the segment passes read.
#[derive(Debug, Clone, Copy)]
pub struct PassSettings {
    pub frame_ms: u32,
    pub speech_hangover_ms: u32,
    pub min_speech_ms: u32,
    pub merge_gap_ms: u32,
    pub min_non_voice_ms: u32,
    pub max_non_voice_ms: Option<u32>,
    pub merge_options: Option<MergeOptions>,
}

/// `f` is what the millisecond-range score computes.
pub open spec fn computes_span_score<F: Fn(u64, u64) -> u32>(score: F, f: spec_fn(u64, u64) -> u32) -> bool {
    forall|a: u64, b: u64, r: u32| score.ensures((a, b), r) ==> r == f(a, b)
}

/// Non-voice segments over the spans, scored with `f`.
pub open spec fn scored_spans(spans: Seq<(u64, u64)>, f: spec_fn(u64, u64) -> u32) -> Seq<SegmentView> {
    spans.map_values(|sp: (u64, u64)| bare_view(sp.0, sp.1, SegmentKind::NonVoice, f(sp.0, sp.1)))
}

/// Gaps up to this long between non-voice segments are bridged: the merge
/// options' shortest speech, or none without merge options.
pub open spec fn bridge_ms_of(settings: PassSettings) -> u32 {
    match settings.merge_options {
        Some(o) => o.min_speech_duration,
        None => 0,
    }
}

/// The merge policy of the options applied to a list of non-voice segments.
pub open spec fn policy_spec(
    s: Seq<SegmentView>,
    o: MergeOptions,
    m: spec_fn(Seq<u32>) -> u32,
    c: spec_fn(u32, u32) -> u32,
) -> Seq<SegmentView> {
    match o.merge_strategy {
        MergeStrategy::All => if s.len() == 0 {
            s
        } else {
            seq![merge_all_view(s, m(confidences(s)))]
        },
        MergeStrategy::Longest => gap_join_spec(s, policy_gap(o) as int),
        MergeStrategy::Sparse => sparse_spec(s, policy_gap(o) as int, c),
    }
}

/// The non-voice segments between the speech segments, bridged and merged as
/// the settings say, before they grow into ambiguous frames.
pub open spec fn merged_non_voice_spec(
    speech: Seq<SegmentView>,
    total_ms: u64,
    settings: PassSettings,
    f: spec_fn(u64, u64) -> u32,
    m: spec_fn(Seq<u32>) -> u32,
    c: spec_fn(u32, u32) -> u32,
) -> Seq<SegmentView> {
    let inv = scored_spans(invert_spans(speech, total_ms, settings.min_non_voice_ms as int), f);
    let br = if bridge_ms_of(settings) == 0 {
        inv
    } else {
        bridge_spec(inv, bridge_ms_of(settings) as int)
    };
    match settings.merge_options {
        Some(o) => policy_spec(br, o, m, c),
        None => br,
    }
}

/// Each segment grown over the ambiguous frames next to it.
pub open spec fn grown_spec(s: Seq<SegmentView>, exp: Seq<bool>, frame_ms: u32) -> Seq<SegmentView> {
    if s.len() == 0 || exp.len() == 0 {
        s
    } else {
        s.map_values(|v: SegmentView| expanded_view(v, exp, frame_len(frame_ms), max_frames(None, frame_len(frame_ms))))
    }
}

/// The segments of a split plan, new pieces scored with `f`.
pub open spec fn realized(plan: Seq<SplitItem>, f: spec_fn(u64, u64) -> u32) -> Seq<SegmentView> {
    plan.map_values(
        |it: SplitItem|
            match it {
                SplitItem::Keep(v) => v,
                SplitItem::Piece(a, b) => bare_view(a, b, SegmentKind::NonVoice, f(a, b)),
            },
    )
}

/// The non-voice segments of a run before the audio check.
pub open spec fn non_voice_spec(
    speech: Seq<SegmentView>,
    total_ms: u64,
    settings: PassSettings,
    exp: Seq<bool>,
    f: spec_fn(u64, u64) -> u32,
    m: spec_fn(Seq<u32>) -> u32,
    c: spec_fn(u32, u32) -> u32,
) -> Seq<SegmentView> {
    let grown = grown_spec(merged_non_voice_spec(speech, total_ms, settings, f, m, c), exp, settings.frame_ms);
    match settings.max_non_voice_ms {
        Some(max_ms) => realized(split_plan(grown, max_ms as u64, settings.min_non_voice_ms as int), f),
        None => grown,
    }
}

/// Whether the segments can grow over the frame flags: there is nothing to
/// grow, or they start within the frames and their ends leave room for one
/// more frame.
pub open spec fn growth_fits_spec(s: Seq<SegmentView>, exp: Seq<bool>, frame_ms: u32) -> bool {
    s.len() == 0 || exp.len() == 0 || expandable_inputs(s, exp, frame_ms, None)
}

pub fn growth_fits(segments: &[Segment], expandable: &[bool], frame_ms: u32) -> (b: bool)
    ensures
        b == growth_fits_spec(seg_views(segments@), expandable@, frame_ms),
{
    if segments.len() == 0 || expandable.len() == 0 {
        return true;
    }
    let frame: u64 = if frame_ms == 0 {
        1
    } else {
        frame_ms as u64
    };
    let n: u64 = expandable.len() as u64;
    if n.checked_mul(frame).is_none() {
        return false;
    }
    let mut i: usize = 0;
    while i < segments.len()
        invariant
            i <= segments.len(),
            segments@.len() > 0,
            expandable@.len() > 0,
            frame == frame_len(frame_ms),
            n == expandable@.len(),
            forall|k: int|
                0 <= k < i ==> (#[trigger] seg_views(segments@)[k]).start_ms as int / (frame as int) <= n
                    && seg_views(segments@)[k].end_ms + frame <= u64::MAX,
        decreases segments.len() - i,
    {
        if segments[i].start_ms / frame > n || segments[i].end_ms > u64::MAX - frame {
            assert(seg_views(segments@)[i as int] == segments@[i as int]@);
            return false;
        }
        i += 1;
    }
    true
}

/// The segments after the audio check (`keep` tells, per segment, whether its
/// audio passed), the bridging of small remaining gaps and the extension of a
/// segment near the end of the recording.
pub open spec fn finished_spec(
    s: Seq<SegmentView>,
    keep: Seq<bool>,
    strong: Seq<bool>,
    frame_ms: u32,
    total_ms: u64,
) -> Seq<SegmentView> {
    tail_spec(
        bridge_spec(
            kept_after_check(s, keep, FILTER_SEGMENT_CONFIDENCE_CEILING),
            POST_FILTER_BRIDGE_MAX_GAP_MS as int,
        ),
        strong,
        frame_ms,
        total_ms,
    )
}

/// The last passes of a run: drops the low-confidence segments whose audio
/// did not pass the check, bridges the small gaps that remain and extends a
/// final segment towards the end of the recording.
pub fn finish_non_voice(
    segments: &[Segment],
    keep: &[bool],
    strong_speech: &[bool],
    frame_ms: u32,
    total_ms: u64,
) -> (out: Vec<Segment>)
    requires
        keep@.len() == segments@.len(),
    ensures
        seg_views(out@) == finished_spec(seg_views(segments@), keep@, strong_speech@, frame_ms, total_ms),
{
    let kept = filter_low_confidence_non_voice_segments(segments, FILTER_SEGMENT_CONFIDENCE_CEILING, keep);
    let bridged = bridge_residual_non_voice_gaps(&kept);
    extend_terminal_non_voice_segment(&bridged, strong_speech, frame_ms, total_ms)
}


/// The non-voice segments of a run before the audio check: the spans between
/// the speech segments (scored by `score`), bridged over short speech, merged
/// by the settings' merge policy, grown into ambiguous frames (`expandable`
/// flags each frame) and split when longer than the settings allow.  `None`
/// when a segment would grow from outside the frames or past the largest
/// time.
pub fn non_voice_from_speech<F: Fn(u64, u64) -> u32, G: Fn(Vec<u32>) -> u32, H: Fn(u32, u32) -> u32>(
    speech: &[Segment],
    total_ms: u64,
    settings: &PassSettings,
    score: &F,
    expandable: &[bool],
    mean: &G,
    combine: &H,
) -> (r: Option<Vec<Segment>>)
    requires
        forall|a: u64, b: u64| score.requires((a, b)),
        forall|v: Vec<u32>| mean.requires((v,)),
        forall|a: u32, b: u32| combine.requires((a, b)),
        settings.max_non_voice_ms matches Some(m) ==> m > 0,
    ensures
        forall|f: spec_fn(u64, u64) -> u32, m: spec_fn(Seq<u32>) -> u32, c: spec_fn(u32, u32) -> u32|
            #![trigger computes_span_score(*score, f), computes_mean(*mean, m), computes2(*combine, c)]
            computes_span_score(*score, f) && computes_mean(*mean, m) && computes2(*combine, c) ==> {
                let merged = merged_non_voice_spec(seg_views(speech@), total_ms, *settings, f, m, c);
                match r {
                    None => !growth_fits_spec(merged, expandable@, settings.frame_ms),
                    Some(out) => growth_fits_spec(merged, expandable@, settings.frame_ms) && seg_views(out@)
                        == non_voice_spec(seg_views(speech@), total_ms, *settings, expandable@, f, m, c),
                }
            },
{
    let ghost spans = invert_spans(seg_views(speech@), total_ms, settings.min_non_voice_ms as int);
    let inv = invert_to_non_voice(speech, total_ms, settings.min_non_voice_ms, score);
    let bridge_ms: u32 = match settings.merge_options {
        Some(o) => o.min_speech_duration,
        None => 0,
    };
    let br = bridge_non_voice_segments(&inv, bridge_ms);
    let merged = match settings.merge_options {
        Some(o) => apply_non_voice_merge_policy(&br, &o, mean, combine),
        None => br,
    };
    proof {
        assert forall|f: spec_fn(u64, u64) -> u32, m: spec_fn(Seq<u32>) -> u32, c: spec_fn(u32, u32) -> u32|
            computes_span_score(*score, f) && computes_mean(*mean, m) && computes2(*combine, c) implies seg_views(
            merged@,
        ) == merged_non_voice_spec(seg_views(speech@), total_ms, *settings, f, m, c) by {
            assert(seg_views(inv@) =~= scored_spans(spans, f)) by {
                assert forall|k: int| 0 <= k < spans.len() implies seg_views(inv@)[k] == scored_spans(spans, f)[k] by {
                    assert(seg_views(inv@)[k] == bare_view(spans[k].0, spans[k].1, SegmentKind::NonVoice, seg_views(inv@)[k].confidence));
                    assert(score.ensures((spans[k].0, spans[k].1), seg_views(inv@)[k].confidence));
                }
            }
            match settings.merge_options {
                Some(o) => {
                    let b = seg_views(br@);
                    match o.merge_strategy {
                        MergeStrategy::All => {
                            if b.len() > 0 {
                                assert(seg_views(merged@) =~= seq![merge_all_view(b, m(confidences(b)))]);
                            } else {
                                assert(seg_views(merged@) =~= b);
                            }
                        },
                        MergeStrategy::Longest => {},
                        MergeStrategy::Sparse => {},
                    }
                },
                None => {},
            }
        }
    }
    if !growth_fits(&merged, expandable, settings.frame_ms) {
        return None;
    }
    let grown = expand_non_voice_segments_into_ambiguous(&merged, expandable, settings.frame_ms, None);
    let ghost gv = seg_views(grown@);
    let out = match settings.max_non_voice_ms {
        Some(max_ms) => split_long_segments(grown, max_ms, settings.min_non_voice_ms, score),
        None => grown,
    };
    proof {
        assert forall|f: spec_fn(u64, u64) -> u32, m: spec_fn(Seq<u32>) -> u32, c: spec_fn(u32, u32) -> u32|
            computes_span_score(*score, f) && computes_mean(*mean, m) && computes2(*combine, c) implies seg_views(
            out@,
        ) == non_voice_spec(seg_views(speech@), total_ms, *settings, expandable@, f, m, c) by {
            assert(gv == grown_spec(seg_views(merged@), expandable@, settings.frame_ms));
            match settings.max_non_voice_ms {
                Some(max_ms) => {
                    let plan = split_plan(gv, max_ms as u64, settings.min_non_voice_ms as int);
                    assert(seg_views(out@) =~= realized(plan, f)) by {
                        assert forall|k: int| 0 <= k < plan.len() implies seg_views(out@)[k] == realized(plan, f)[k] by {
                            match plan[k] {
                                SplitItem::Keep(v) => {},
                                SplitItem::Piece(a, b) => {
                                    assert(score.ensures((a, b), seg_views(out@)[k].confidence));
                                },
                            }
                        }
                    }
                },
                None => {},
            }
        }
    }
    Some(out)
}


/// `f` is what the frame-range score computes.
pub open spec fn computes_frame_score<F: Fn(usize, usize) -> u32>(score: F, f: spec_fn(usize, usize) -> u32) -> bool {
    forall|a: usize, b: usize, r: u32| score.ensures((a, b), r) ==> r == f(a, b)
}

/// `g` is what the span test decides.
pub open spec fn decides<P: Fn(u64, u64) -> bool>(test: P, g: spec_fn(u64, u64) -> bool) -> bool {
    forall|a: u64, b: u64, r: bool| test.ensures((a, b), r) ==> r == g(a, b)
}

/// Per frame: speech after hangover smoothing, and not a frame that is surely
/// no speech.
pub open spec fn smoothed_spec(states: Seq<FrameState>, frame_ms: u32, hangover_ms: u32) -> Seq<bool> {
    let hang = (hangover_ms / frame_ms) as int;
    Seq::new(
        states.len(),
        |i: int| smoothed_frame(pre_speech_seq(states, hang), hang, i) && !hard_non_speech(states[i]),
    )
}

/// A speech segment for each long enough run of speech frames, scored with `f`.
pub open spec fn speech_spec(
    smoothed: Seq<bool>,
    frame_ms: u32,
    min_speech_ms: u32,
    f: spec_fn(usize, usize) -> u32,
) -> Seq<SegmentView> {
    let unit = if frame_ms == 0 {
        1
    } else {
        frame_ms as int
    };
    speech_runs(smoothed, frame_ms, min_speech_ms).map_values(
        |r: (int, int)|
            bare_view((r.0 * unit) as u64, (r.1 * unit) as u64, SegmentKind::Speech, f(r.0 as usize, r.1 as usize)),
    )
}

/// Speech shorter than this is pruned unless confident: the merge options'
/// shortest speech, or the settings' one without merge options.
pub open spec fn prune_floor_of(settings: PassSettings) -> u32 {
    match settings.merge_options {
        Some(o) => o.min_speech_duration,
        None => settings.min_speech_ms,
    }
}

/// The speech segments of a run: from the smoothed frame states, merged over
/// small gaps, pruned, and rid of the spans that `g` finds implausible.
pub open spec fn speech_stage_spec(
    states: Seq<FrameState>,
    settings: PassSettings,
    f: spec_fn(usize, usize) -> u32,
    g: spec_fn(u64, u64) -> bool,
) -> Seq<SegmentView> {
    let smoothed = smoothed_spec(states, settings.frame_ms, settings.speech_hangover_ms);
    let sp = speech_spec(smoothed, settings.frame_ms, settings.min_speech_ms, f);
    let pr = prune_spec(merge_close_spec(sp, settings.merge_gap_ms as int), prune_floor_of(settings));
    plausible_only(pr, pr.map_values(|v: SegmentView| g(v.start_ms, v.end_ms)))
}

/// The speech segments of a run, from the per-frame states: smoothing with
/// hangover, one segment per long enough run of speech frames (scored by
/// `score` on the frame range), merging over gaps up to the merge gap, pruning
/// short unconfident ones, and dropping those that `implausible` rejects.
pub fn speech_from_states<F: Fn(usize, usize) -> u32, P: Fn(u64, u64) -> bool>(
    states: &[FrameState],
    settings: &PassSettings,
    score: &F,
    implausible: &P,
) -> (out: Vec<Segment>)
    requires
        settings.frame_ms > 0,
        states@.len() * settings.frame_ms + settings.merge_gap_ms <= u64::MAX,
        forall|a: usize, b: usize| score.requires((a, b)),
        forall|a: u64, b: u64| implausible.requires((a, b)),
    ensures
        forall|f: spec_fn(usize, usize) -> u32, g: spec_fn(u64, u64) -> bool|
            #![trigger computes_frame_score(*score, f), decides(*implausible, g)]
            computes_frame_score(*score, f) && decides(*implausible, g) ==> seg_views(out@) == speech_stage_spec(
                states@,
                *settings,
                f,
                g,
            ),
{
    let smoothed = smooth_states(states, settings.frame_ms, settings.speech_hangover_ms);
    assert(smoothed@ =~= smoothed_spec(states@, settings.frame_ms, settings.speech_hangover_ms));
    let speech = speech_segments(&smoothed, settings.frame_ms, settings.min_speech_ms, score);
    let merged = merge_close_segments(&speech, settings.merge_gap_ms);
    let floor: u32 = match settings.merge_options {
        Some(o) => o.min_speech_duration,
        None => settings.min_speech_ms,
    };
    let pruned = prune_short_speech_segments(&merged, floor);
    let mut flags: Vec<bool> = Vec::new();
    let mut i: usize = 0;
    while i < pruned.len()
        invariant
            i <= pruned.len(),
            flags@.len() == i,
            forall|a: u64, b: u64| implausible.requires((a, b)),
            forall|k: int|
                0 <= k < i ==> implausible.ensures((pruned@[k].start_ms, pruned@[k].end_ms), #[trigger] flags@[k]),
        decreases pruned.len() - i,
    {
        let flag = implausible(pruned[i].start_ms, pruned[i].end_ms);
        flags.push(flag);
        i += 1;
    }
    let out = filter_implausible_speech_segments(&pruned, &flags);
    proof {
        let unit = settings.frame_ms as int;
        let sm = smoothed_spec(states@, settings.frame_ms, settings.speech_hangover_ms);
        assert forall|f: spec_fn(usize, usize) -> u32, g: spec_fn(u64, u64) -> bool|
            computes_frame_score(*score, f) && decides(*implausible, g) implies seg_views(out@) == speech_stage_spec(
            states@,
            *settings,
            f,
            g,
        ) by {
            let runs = speech_runs(sm, settings.frame_ms, settings.min_speech_ms);
            assert(seg_views(speech@) =~= speech_spec(sm, settings.frame_ms, settings.min_speech_ms, f)) by {
                assert forall|k: int| 0 <= k < runs.len() implies seg_views(speech@)[k] == speech_spec(
                    sm,
                    settings.frame_ms,
                    settings.min_speech_ms,
                    f,
                )[k] by {
                    let r = runs[k];
                    assert(score.ensures((r.0 as usize, r.1 as usize), speech@[k].confidence));
                }
            }
            let pr = seg_views(pruned@);
            assert(flags@ =~= pr.map_values(|v: SegmentView| g(v.start_ms, v.end_ms))) by {
                assert forall|k: int| 0 <= k < flags@.len() implies flags@[k] == g(pr[k].start_ms, pr[k].end_ms) by {
                    assert(implausible.ensures((pruned@[k].start_ms, pruned@[k].end_ms), flags@[k]));
                }
            }
        }
    }
    out
}



// ---------------------------------------------------------------------------
// Durations through the merges

/// The segment lasts at least `min_ms` and does not end before it starts.
pub open spec fn lasts(v: SegmentView, min_ms: int) -> bool {
    v.start_ms <= v.end_ms && v.end_ms - v.start_ms >= min_ms
}

pub open spec fn all_last(s: Seq<SegmentView>, min_ms: int) -> bool {
    forall|k: int| 0 <= k < s.len() ==> #[trigger] lasts(s[k], min_ms)
}

/// Segment `k` ends no later than the next one starts.
pub open spec fn ends_before_next(s: Seq<SegmentView>, k: int) -> bool {
    s[k].end_ms <= s[k + 1].start_ms
}

pub open spec fn in_time_order(s: Seq<SegmentView>) -> bool {
    forall|k: int| 0 <= k < s.len() - 1 ==> #[trigger] ends_before_next(s, k)
}

proof fn lemma_prefix_keeps(s: Seq<SegmentView>, min_ms: int)
    requires
        s.len() > 0,
        all_last(s, min_ms),
        in_time_order(s),
    ensures
        all_last(s.drop_last(), min_ms),
        in_time_order(s.drop_last()),
        lasts(s.last(), min_ms),
        s.len() > 1 ==> s.drop_last().last().end_ms <= s.last().start_ms,
{
    let p = s.drop_last();
    assert forall|k: int| 0 <= k < p.len() implies #[trigger] lasts(p[k], min_ms) by {
        assert(lasts(s[k], min_ms));
    }
    assert forall|k: int| 0 <= k < p.len() - 1 implies #[trigger] ends_before_next(p, k) by {
        assert(ends_before_next(s, k));
    }
    assert(lasts(s[s.len() - 1], min_ms));
    if s.len() > 1 {
        assert(ends_before_next(s, s.len() - 2));
    }
}

/// One merge step on ordered, long enough segments: appending `x`, or
/// stretching the last segment to `x`'s end, keeps them ordered and long
/// enough.
proof fn lemma_step_keeps(acc: Seq<SegmentView>, x: SegmentView, y: SegmentView, out: Seq<SegmentView>, min_ms: int)
    requires
        all_last(acc, min_ms),
        in_time_order(acc),
        lasts(x, min_ms),
        acc.len() > 0 ==> acc.last().end_ms <= x.start_ms,
        out == acc.push(x) || (acc.len() > 0 && out == acc.update(acc.len() - 1, y) && y.start_ms
            == acc.last().start_ms && y.end_ms == x.end_ms),
    ensures
        all_last(out, min_ms),
        in_time_order(out),
        out.len() > 0,
        out.last().end_ms == x.end_ms,
{
    if out == acc.push(x) {
        assert forall|k: int| 0 <= k < out.len() implies #[trigger] lasts(out[k], min_ms) by {
            if k < acc.len() {
                assert(lasts(acc[k], min_ms));
            }
        }
        assert forall|k: int| 0 <= k < out.len() - 1 implies #[trigger] ends_before_next(out, k) by {
            if k < acc.len() - 1 {
                assert(ends_before_next(acc, k));
            }
        }
    } else {
        let n = acc.len();
        assert(lasts(acc[n - 1], min_ms));
        assert forall|k: int| 0 <= k < out.len() implies #[trigger] lasts(out[k], min_ms) by {
            if k < n - 1 {
                assert(lasts(acc[k], min_ms));
            }
        }
        assert forall|k: int| 0 <= k < out.len() - 1 implies #[trigger] ends_before_next(out, k) by {
            assert(ends_before_next(acc, k));
        }
    }
}

proof fn lemma_bridge_keeps(s: Seq<SegmentView>, max_gap: int, min_ms: int)
    requires
        all_last(s, min_ms),
        in_time_order(s),
    ensures
        all_last(bridge_spec(s, max_gap), min_ms),
        in_time_order(bridge_spec(s, max_gap)),
        s.len() > 0 ==> bridge_spec(s, max_gap).len() > 0 && bridge_spec(s, max_gap).last().end_ms == s.last().end_ms,
    decreases s.len(),
{
    if s.len() > 0 {
        lemma_prefix_keeps(s, min_ms);
        lemma_bridge_keeps(s.drop_last(), max_gap, min_ms);
        let acc = bridge_spec(s.drop_last(), max_gap);
        let x = s.last();
        let y = if acc.len() > 0 {
            with_end_conf(acc.last(), x.end_ms, crate::segment::score_min(acc.last().confidence, x.confidence))
        } else {
            x
        };
        lemma_step_keeps(acc, x, y, bridge_step(acc, x, max_gap), min_ms);
    }
}

proof fn lemma_gap_join_keeps(s: Seq<SegmentView>, min_gap: int, min_ms: int)
    requires
        all_last(s, min_ms),
        in_time_order(s),
    ensures
        all_last(gap_join_spec(s, min_gap), min_ms),
        in_time_order(gap_join_spec(s, min_gap)),
        s.len() > 0 ==> gap_join_spec(s, min_gap).len() > 0 && gap_join_spec(s, min_gap).last().end_ms
            == s.last().end_ms,
    decreases s.len(),
{
    if s.len() > 0 {
        lemma_prefix_keeps(s, min_ms);
        lemma_gap_join_keeps(s.drop_last(), min_gap, min_ms);
        let acc = gap_join_spec(s.drop_last(), min_gap);
        let x = s.last();
        let y = if acc.len() > 0 {
            with_end_conf(acc.last(), x.end_ms, acc.last().confidence)
        } else {
            x
        };
        lemma_step_keeps(acc, x, y, gap_join_step(acc, x, min_gap), min_ms);
    }
}

proof fn lemma_sparse_keeps(s: Seq<SegmentView>, min_gap: int, f: spec_fn(u32, u32) -> u32, min_ms: int)
    requires
        all_last(s, min_ms),
        in_time_order(s),
    ensures
        all_last(sparse_spec(s, min_gap, f), min_ms),
        in_time_order(sparse_spec(s, min_gap, f)),
        s.len() > 0 ==> sparse_spec(s, min_gap, f).len() > 0 && sparse_spec(s, min_gap, f).last().end_ms
            == s.last().end_ms,
    decreases s.len(),
{
    if s.len() > 0 {
        lemma_prefix_keeps(s, min_ms);
        lemma_sparse_keeps(s.drop_last(), min_gap, f, min_ms);
        let acc = sparse_spec(s.drop_last(), min_gap, f);
        let x = s.last();
        let y = if acc.len() > 0 {
            let l = acc.last();
            SegmentView { end_ms: x.end_ms, confidence: f(l.confidence, x.confidence), tags: l.tags + x.tags, ..l }
        } else {
            x
        };
        lemma_step_keeps(acc, x, y, sparse_step(acc, x, min_gap, f), min_ms);
    }
}

proof fn lemma_first_starts_first(s: Seq<SegmentView>, j: int)
    requires
        0 <= j < s.len(),
        all_last(s, 0),
        in_time_order(s),
    ensures
        s[0].start_ms <= s[j].start_ms,
    decreases j,
{
    if j > 0 {
        lemma_first_starts_first(s, j - 1);
        assert(lasts(s[j - 1], 0));
        assert(ends_before_next(s, j - 1));
    }
}



/// Span `k` ends no later than the next one starts.
pub open spec fn span_before_next(g: Seq<(u64, u64)>, k: int) -> bool {
    g[k].1 <= g[k + 1].0
}

proof fn lemma_scan_in_order(s: Seq<SegmentView>, min_ms: int)
    requires
        speech_in_order(s),
    ensures
        forall|k: int|
            0 <= k < invert_scan(s, min_ms).0.len() - 1 ==> #[trigger] span_before_next(invert_scan(s, min_ms).0, k),
        invert_scan(s, min_ms).0.len() > 0 ==> invert_scan(s, min_ms).0.last().1 <= invert_scan(s, min_ms).1,
        s.len() > 0 ==> invert_scan(s, min_ms).1 == s.last().end_ms,
    decreases s.len(),
{
    if s.len() > 0 {
        let p = s.drop_last();
        assert(speech_in_order(p)) by {
            assert forall|k: int| 0 <= k < p.len() implies (#[trigger] p[k]).start_ms <= p[k].end_ms by {
                assert(s[k].start_ms <= s[k].end_ms);
            }
            assert forall|i: int, j: int| 0 <= i < j < p.len() implies (#[trigger] p[i]).end_ms <= (
            #[trigger] p[j]).start_ms by {
                assert(s[i].end_ms <= s[j].start_ms);
            }
        }
        lemma_scan_in_order(p, min_ms);
        let gaps = invert_scan(p, min_ms).0;
        let cursor = invert_scan(p, min_ms).1;
        let x = s.last();
        assert(x.start_ms <= x.end_ms) by {
            assert(s[s.len() - 1].start_ms <= s[s.len() - 1].end_ms);
        }
        if p.len() > 0 {
            assert(s[s.len() - 2].end_ms <= s[s.len() - 1].start_ms);
        }
        if x.start_ms > cursor {
            let n = nv_span(cursor, x.start_ms, min_ms);
            let g = gaps + n;
            assert forall|k: int| 0 <= k < g.len() - 1 implies #[trigger] span_before_next(g, k) by {
                if k + 1 < gaps.len() {
                    assert(span_before_next(gaps, k));
                } else {
                    assert(g[k] == gaps[k]);
                    assert(g[k + 1] == n[0]);
                }
            }
        }
    }
}

/// The non-voice segments that inverting in-order speech gives are in time
/// order, and each lasts at least the minimum.
proof fn lemma_inverted_keeps(speech: Seq<SegmentView>, total_ms: u64, min_ms: int, f: spec_fn(u64, u64) -> u32)
    requires
        speech_in_order(speech),
    ensures
        all_last(scored_spans(invert_spans(speech, total_ms, min_ms), f), min_ms),
        in_time_order(scored_spans(invert_spans(speech, total_ms, min_ms), f)),
{
    lemma_scan_in_order(speech, min_ms);
    lemma_non_voice_spans_last_min(speech, total_ms, min_ms);
    let gaps = invert_scan(speech, min_ms).0;
    let cursor = invert_scan(speech, min_ms).1;
    let g = invert_spans(speech, total_ms, min_ms);
    assert forall|k: int| 0 <= k < g.len() - 1 implies #[trigger] span_before_next(g, k) by {
        if cursor < total_ms {
            let n = nv_span(cursor, total_ms, min_ms);
            if k + 1 < gaps.len() {
                assert(span_before_next(gaps, k));
            } else {
                assert(g[k] == gaps[k]);
                assert(g[k + 1] == n[0]);
            }
        } else {
            assert(span_before_next(gaps, k));
        }
    }
    let v = scored_spans(g, f);
    assert forall|k: int| 0 <= k < v.len() implies #[trigger] lasts(v[k], min_ms) by {
        assert(g[k].0 < g[k].1 && g[k].1 - g[k].0 >= min_ms);
    }
    assert forall|k: int| 0 <= k < v.len() - 1 implies #[trigger] ends_before_next(v, k) by {
        assert(span_before_next(g, k));
    }
}

/// The merge policy keeps ordered, long enough segments long enough.
proof fn lemma_policy_keeps(
    s: Seq<SegmentView>,
    o: MergeOptions,
    m: spec_fn(Seq<u32>) -> u32,
    c: spec_fn(u32, u32) -> u32,
    min_ms: int,
)
    requires
        min_ms >= 0,
        all_last(s, min_ms),
        in_time_order(s),
    ensures
        all_last(policy_spec(s, o, m, c), min_ms),
{
    match o.merge_strategy {
        MergeStrategy::All => {
            if s.len() > 0 {
                assert(all_last(s, 0)) by {
                    assert forall|k: int| 0 <= k < s.len() implies #[trigger] lasts(s[k], 0) by {
                        assert(lasts(s[k], min_ms));
                    }
                }
                lemma_first_starts_first(s, s.len() - 1);
                assert(lasts(s[s.len() - 1], min_ms));
                let r = policy_spec(s, o, m, c);
                assert forall|k: int| 0 <= k < r.len() implies #[trigger] lasts(r[k], min_ms) by {
                    assert(r[k] == merge_all_view(s, m(confidences(s))));
                }
            }
        },
        MergeStrategy::Longest => lemma_gap_join_keeps(s, policy_gap(o) as int, min_ms),
        MergeStrategy::Sparse => lemma_sparse_keeps(s, policy_gap(o) as int, c, min_ms),
    }
}

/// An entry of a split plan that lasts at least `min_ms`.
pub open spec fn item_lasts(it: SplitItem, min_ms: int) -> bool {
    match it {
        SplitItem::Keep(v) => lasts(v, min_ms),
        SplitItem::Piece(a, b) => a <= b && b - a >= min_ms,
    }
}

proof fn lemma_pieces_last(cursor: u64, end: u64, max_ms: u64, min_ms: int)
    ensures
        forall|k: int|
            0 <= k < nv_pieces(cursor, end, max_ms, min_ms).len() ==> {
                let p = #[trigger] nv_pieces(cursor, end, max_ms, min_ms)[k];
                p.0 <= p.1 && p.1 - p.0 >= min_ms
            },
    decreases end - cursor,
{
    if max_ms > 0 && cursor < end && end - cursor > max_ms {
        let next = (cursor + max_ms) as u64;
        lemma_pieces_last(next, end, max_ms, min_ms);
        let first = nv_span(cursor, next, min_ms);
        let rest = nv_pieces(next, end, max_ms, min_ms);
        assert forall|k: int| 0 <= k < (first + rest).len() implies {
            let p = #[trigger] (first + rest)[k];
            p.0 <= p.1 && p.1 - p.0 >= min_ms
        } by {
            if k >= first.len() {
                assert((first + rest)[k] == rest[k - first.len()]);
            }
        }
    }
}

/// Splitting long enough segments leaves only long enough entries: kept
/// segments as they were, and pieces of at least `min_ms`.
proof fn lemma_split_keeps_min(s: Seq<SegmentView>, max_ms: u64, min_ms: int)
    requires
        all_last(s, min_ms),
    ensures
        forall|k: int|
            0 <= k < split_plan(s, max_ms, min_ms).len() ==> item_lasts(#[trigger] split_plan(s, max_ms, min_ms)[k], min_ms),
    decreases s.len(),
{
    if s.len() > 0 {
        let p = s.drop_last();
        assert(all_last(p, min_ms)) by {
            assert forall|k: int| 0 <= k < p.len() implies #[trigger] lasts(p[k], min_ms) by {
                assert(lasts(s[k], min_ms));
            }
        }
        lemma_split_keeps_min(p, max_ms, min_ms);
        let before = split_plan(p, max_ms, min_ms);
        let x = s.last();
        assert(lasts(s[s.len() - 1], min_ms));
        let items = split_items(x, max_ms, min_ms);
        lemma_pieces_last(x.start_ms, x.end_ms, max_ms, min_ms);
        assert forall|k: int| 0 <= k < (before + items).len() implies item_lasts(#[trigger] (before + items)[k], min_ms) by {
            if k >= before.len() {
                assert((before + items)[k] == items[k - before.len()]);
            }
        }
    }
}

/// When the speech segments are in time order, every non-voice segment of a
/// run before the audio check lasts at least the minimum non-voice duration:
/// the spans between speech are at least that long, and bridging, merging,
/// growing into ambiguous frames and splitting never make a shorter one.
pub proof fn lemma_non_voice_lasts_min(
    speech: Seq<SegmentView>,
    total_ms: u64,
    settings: PassSettings,
    exp: Seq<bool>,
    f: spec_fn(u64, u64) -> u32,
    m: spec_fn(Seq<u32>) -> u32,
    c: spec_fn(u32, u32) -> u32,
)
    requires
        speech_in_order(speech),
        growth_fits_spec(merged_non_voice_spec(speech, total_ms, settings, f, m, c), exp, settings.frame_ms),
    ensures
        forall|k: int|
            0 <= k < non_voice_spec(speech, total_ms, settings, exp, f, m, c).len() ==> #[trigger] lasts(
                non_voice_spec(speech, total_ms, settings, exp, f, m, c)[k],
                settings.min_non_voice_ms as int,
            ),
{
    let min = settings.min_non_voice_ms as int;
    let inv = scored_spans(invert_spans(speech, total_ms, min), f);
    lemma_inverted_keeps(speech, total_ms, min, f);
    let br = if bridge_ms_of(settings) == 0 {
        inv
    } else {
        bridge_spec(inv, bridge_ms_of(settings) as int)
    };
    if bridge_ms_of(settings) != 0 {
        lemma_bridge_keeps(inv, bridge_ms_of(settings) as int, min);
    }
    let merged = merged_non_voice_spec(speech, total_ms, settings, f, m, c);
    match settings.merge_options {
        Some(o) => lemma_policy_keeps(br, o, m, c, min),
        None => {},
    }
    assert(all_last(merged, min));
    let grown = grown_spec(merged, exp, settings.frame_ms);
    assert(all_last(grown, min)) by {
        if merged.len() > 0 && exp.len() > 0 {
            assert forall|k: int| 0 <= k < grown.len() implies #[trigger] lasts(grown[k], min) by {
                let v = merged[k];
                assert(lasts(v, min));
                assert(v.start_ms as int / frame_len(settings.frame_ms) <= exp.len() && v.end_ms + frame_len(
                    settings.frame_ms,
                ) <= u64::MAX);
                lemma_growth_never_shrinks(v, exp, settings.frame_ms, max_frames(None, frame_len(settings.frame_ms)));
            }
        }
    }
    match settings.max_non_voice_ms {
        Some(max_ms) => {
            let plan = split_plan(grown, max_ms as u64, min);
            lemma_split_keeps_min(grown, max_ms as u64, min);
            let out = realized(plan, f);
            assert forall|k: int| 0 <= k < out.len() implies #[trigger] lasts(out[k], min) by {
                assert(item_lasts(plan[k], min));
            }
        },
        None => {},
    }
}


// ---------------------------------------------------------------------------
// Order of the speech segments

/// Frame runs inside `[0, n)`, each non-empty, each ending before the next
/// starts (with at least one frame between).
pub open spec fn runs_apart(r: Seq<(int, int)>, n: int) -> bool {
    &&& forall|k: int| 0 <= k < r.len() ==> 0 <= (#[trigger] r[k]).0 < r[k].1 <= n
    &&& forall|i: int, j: int| 0 <= i < j < r.len() ==> (#[trigger] r[i]).1 < (#[trigger] r[j]).0
}

proof fn lemma_true_runs_apart(b: Seq<bool>)
    ensures
        runs_apart(true_runs(b), b.len() as int),
        true_runs(b).len() > 0 && true_runs(b).last().1 == b.len() ==> b.len() > 0 && b.last(),
        b.len() > 0 && b.last() ==> true_runs(b).len() > 0 && true_runs(b).last().1 == b.len(),
    decreases b.len(),
{
    if b.len() > 0 {
        let p = b.drop_last();
        lemma_true_runs_apart(p);
        let prev = true_runs(p);
        let n = b.len() - 1;
        if b.last() && n > 0 && b[n - 1] {
            assert(p.last() == b[n - 1]);
            let r = true_runs(b);
            assert forall|i: int, j: int| 0 <= i < j < r.len() implies (#[trigger] r[i]).1 < (#[trigger] r[j]).0 by {
                assert(prev[i].1 < prev[j].0);
            }
        } else if b.last() {
            if prev.len() > 0 && prev.last().1 == n {
                assert(p.last() == b[n - 1]);
            }
            let r = true_runs(b);
            assert forall|i: int, j: int| 0 <= i < j < r.len() implies (#[trigger] r[i]).1 < (#[trigger] r[j]).0 by {
                if j < prev.len() {
                    assert(prev[i].1 < prev[j].0);
                } else if i < prev.len() - 1 {
                    assert(prev[i].1 < prev[prev.len() - 1].0);
                }
            }
        }
    }
}

proof fn lemma_long_runs_apart(r: Seq<(int, int)>, frame_ms: int, min_ms: int, n: int)
    requires
        runs_apart(r, n),
    ensures
        runs_apart(long_runs(r, frame_ms, min_ms), n),
        forall|k: int|
            0 <= k < long_runs(r, frame_ms, min_ms).len() ==> exists|j: int|
                0 <= j < r.len() && r[j] == #[trigger] long_runs(r, frame_ms, min_ms)[k],
    decreases r.len(),
{
    if r.len() > 0 {
        let p = r.drop_last();
        assert(runs_apart(p, n)) by {
            assert forall|k: int| 0 <= k < p.len() implies 0 <= (#[trigger] p[k]).0 < p[k].1 <= n by {
                assert(r[k] == p[k]);
            }
            assert forall|i: int, j: int| 0 <= i < j < p.len() implies (#[trigger] p[i]).1 < (#[trigger] p[j]).0 by {
                assert(r[i].1 < r[j].0);
            }
        }
        lemma_long_runs_apart(p, frame_ms, min_ms, n);
        let prev = long_runs(p, frame_ms, min_ms);
        let out = long_runs(r, frame_ms, min_ms);
        let x = r.last();
        assert(0 <= r[r.len() - 1].0 < r[r.len() - 1].1 <= n);
        assert forall|k: int| 0 <= k < out.len() implies exists|j: int| 0 <= j < r.len() && r[j] == #[trigger] out[k] by {
            if k < prev.len() {
                let j = choose|j: int| 0 <= j < p.len() && p[j] == prev[k];
                assert(r[j] == out[k]);
            } else {
                assert(r[r.len() - 1] == out[k]);
            }
        }
        if (x.1 - x.0) * frame_ms >= min_ms {
            assert forall|i: int, j: int| 0 <= i < j < out.len() implies (#[trigger] out[i]).1 < (#[trigger] out[j]).0 by {
                if j < prev.len() {
                    assert(prev[i].1 < prev[j].0);
                } else {
                    let a = choose|a: int| 0 <= a < p.len() && p[a] == prev[i];
                    assert(r[a].1 < r[r.len() - 1].0);
                }
            }
        }
    }
}


proof fn lemma_speech_spec_in_order(sm: Seq<bool>, frame_ms: u32, min_speech_ms: u32, f: spec_fn(usize, usize) -> u32)
    requires
        sm.len() * frame_len(frame_ms) <= u64::MAX,
    ensures
        speech_in_order(speech_spec(sm, frame_ms, min_speech_ms, f)),
{
    let unit = frame_len(frame_ms);
    let n = sm.len() as int;
    lemma_true_runs_apart(sm);
    lemma_long_runs_apart(true_runs(sm), frame_ms as int, min_speech_ms as int, n);
    let runs = speech_runs(sm, frame_ms, min_speech_ms);
    let v = speech_spec(sm, frame_ms, min_speech_ms, f);
    assert forall|k: int| 0 <= k < v.len() implies (#[trigger] v[k]).start_ms <= v[k].end_ms by {
        let r = runs[k];
        assert(0 <= r.0 * unit <= r.1 * unit <= n * unit) by (nonlinear_arith)
            requires
                0 <= r.0 < r.1 <= n,
                unit >= 1,
        ;
    }
    assert forall|i: int, j: int| 0 <= i < j < v.len() implies (#[trigger] v[i]).end_ms <= (#[trigger] v[j]).start_ms by {
        let a = runs[i];
        let b = runs[j];
        assert(a.1 < b.0);
        assert(0 <= a.1 * unit <= b.0 * unit <= n * unit) by (nonlinear_arith)
            requires
                0 <= a.1 < b.0 <= n,
                unit >= 1,
        ;
    }
}

proof fn lemma_merge_close_in_order(s: Seq<SegmentView>, gap: int)
    requires
        speech_in_order(s),
    ensures
        speech_in_order(merge_close_spec(s, gap)),
        s.len() > 0 ==> merge_close_spec(s, gap).len() > 0 && merge_close_spec(s, gap).last().end_ms == s.last().end_ms,
    decreases s.len(),
{
    if s.len() > 0 {
        let p = s.drop_last();
        assert(speech_in_order(p)) by {
            assert forall|k: int| 0 <= k < p.len() implies (#[trigger] p[k]).start_ms <= p[k].end_ms by {
                assert(s[k].start_ms <= s[k].end_ms);
            }
            assert forall|i: int, j: int| 0 <= i < j < p.len() implies (#[trigger] p[i]).end_ms <= (
            #[trigger] p[j]).start_ms by {
                assert(s[i].end_ms <= s[j].start_ms);
            }
        }
        lemma_merge_close_in_order(p, gap);
        let acc = merge_close_spec(p, gap);
        let x = s.last();
        let out = merge_close_spec(s, gap);
        assert(x.start_ms <= x.end_ms) by {
            assert(s[s.len() - 1].start_ms <= s[s.len() - 1].end_ms);
        }
        if acc.len() > 0 {
            assert(s[s.len() - 2].end_ms <= s[s.len() - 1].start_ms);
            assert(acc.last().end_ms <= x.start_ms);
            assert(acc[acc.len() - 1].start_ms <= acc[acc.len() - 1].end_ms);
        }
        if acc.len() > 0 && x.start_ms <= acc.last().end_ms + gap && acc.last().kind == x.kind {
            assert(max_u64(acc.last().end_ms, x.end_ms) == x.end_ms);
            assert forall|k: int| 0 <= k < out.len() implies (#[trigger] out[k]).start_ms <= out[k].end_ms by {
                if k < acc.len() - 1 {
                    assert(out[k] == acc[k]);
                }
            }
            assert forall|i: int, j: int| 0 <= i < j < out.len() implies (#[trigger] out[i]).end_ms <= (
            #[trigger] out[j]).start_ms by {
                assert(out[i] == acc[i]);
                assert(acc[i].end_ms <= acc[j].start_ms);
            }
        } else {
            assert forall|k: int| 0 <= k < out.len() implies (#[trigger] out[k]).start_ms <= out[k].end_ms by {
                if k < acc.len() {
                    assert(out[k] == acc[k]);
                }
            }
            assert forall|i: int, j: int| 0 <= i < j < out.len() implies (#[trigger] out[i]).end_ms <= (
            #[trigger] out[j]).start_ms by {
                assert(out[i] == acc[i]);
                if j < acc.len() {
                    assert(acc[i].end_ms <= acc[j].start_ms);
                } else if i < acc.len() - 1 {
                    assert(acc[i].end_ms <= acc[acc.len() - 1].start_ms);
                    assert(acc[acc.len() - 1].start_ms <= acc[acc.len() - 1].end_ms);
                }
            }
        }
    }
}


proof fn lemma_in_order_prefix(s: Seq<SegmentView>)
    requires
        s.len() > 0,
        speech_in_order(s),
    ensures
        speech_in_order(s.drop_last()),
        s.last().start_ms <= s.last().end_ms,
        s.len() > 1 ==> s.drop_last().last().end_ms <= s.last().start_ms,
        forall|k: int| 0 <= k < s.len() - 1 ==> (#[trigger] s.drop_last()[k]).end_ms <= s.last().start_ms,
{
    let p = s.drop_last();
    assert forall|k: int| 0 <= k < p.len() implies (#[trigger] p[k]).start_ms <= p[k].end_ms by {
        assert(s[k].start_ms <= s[k].end_ms);
    }
    assert forall|i: int, j: int| 0 <= i < j < p.len() implies (#[trigger] p[i]).end_ms <= (#[trigger] p[j]).start_ms by {
        assert(s[i].end_ms <= s[j].start_ms);
    }
    assert(s[s.len() - 1].start_ms <= s[s.len() - 1].end_ms);
    assert forall|k: int| 0 <= k < s.len() - 1 implies (#[trigger] p[k]).end_ms <= s.last().start_ms by {
        assert(s[k].end_ms <= s[s.len() - 1].start_ms);
    }
}

/// Appending a segment that starts after every segment of an ordered list
/// ends keeps it ordered.
proof fn lemma_push_in_order(acc: Seq<SegmentView>, x: SegmentView)
    requires
        speech_in_order(acc),
        x.start_ms <= x.end_ms,
        forall|k: int| 0 <= k < acc.len() ==> (#[trigger] acc[k]).end_ms <= x.start_ms,
    ensures
        speech_in_order(acc.push(x)),
{
    let out = acc.push(x);
    assert forall|k: int| 0 <= k < out.len() implies (#[trigger] out[k]).start_ms <= out[k].end_ms by {
        if k < acc.len() {
            assert(out[k] == acc[k]);
        }
    }
    assert forall|i: int, j: int| 0 <= i < j < out.len() implies (#[trigger] out[i]).end_ms <= (#[trigger] out[j]).start_ms by {
        assert(out[i] == acc[i]);
        if j < acc.len() {
            assert(acc[i].end_ms <= acc[j].start_ms);
        }
    }
}

proof fn lemma_prune_in_order(s: Seq<SegmentView>, min_speech_ms: u32)
    requires
        speech_in_order(s),
    ensures
        speech_in_order(prune_spec(s, min_speech_ms)),
        s.len() > 0 ==> forall|k: int|
            0 <= k < prune_spec(s, min_speech_ms).len() ==> (#[trigger] prune_spec(s, min_speech_ms)[k]).end_ms
                <= s.last().end_ms,
    decreases s.len(),
{
    if s.len() > 0 {
        let p = s.drop_last();
        lemma_in_order_prefix(s);
        lemma_prune_in_order(p, min_speech_ms);
        let acc = prune_spec(p, min_speech_ms);
        let x = s.last();
        assert forall|k: int| 0 <= k < acc.len() implies (#[trigger] acc[k]).end_ms <= x.start_ms by {
            assert(p.len() > 0);
            assert(p.last().end_ms <= x.start_ms);
        }
        if survives_prune(x, min_speech_ms) {
            lemma_push_in_order(acc, x);
        }
        let out = prune_spec(s, min_speech_ms);
        assert forall|k: int| 0 <= k < out.len() implies (#[trigger] out[k]).end_ms <= s.last().end_ms by {
            if k < acc.len() {
                assert(out[k] == acc[k]);
                assert(acc[k].end_ms <= x.start_ms);
            }
        }
    }
}

proof fn lemma_plausible_in_order(s: Seq<SegmentView>, implausible: Seq<bool>)
    requires
        speech_in_order(s),
    ensures
        speech_in_order(plausible_only(s, implausible)),
        s.len() > 0 ==> forall|k: int|
            0 <= k < plausible_only(s, implausible).len() ==> (#[trigger] plausible_only(s, implausible)[k]).end_ms
                <= s.last().end_ms,
    decreases s.len(),
{
    if s.len() > 0 {
        let p = s.drop_last();
        lemma_in_order_prefix(s);
        lemma_plausible_in_order(p, implausible.take(s.len() - 1));
        let acc = plausible_only(p, implausible.take(s.len() - 1));
        let x = s.last();
        assert forall|k: int| 0 <= k < acc.len() implies (#[trigger] acc[k]).end_ms <= x.start_ms by {
            assert(p.len() > 0);
            assert(p.last().end_ms <= x.start_ms);
        }
        lemma_push_in_order(acc, x);
        let out = plausible_only(s, implausible);
        assert forall|k: int| 0 <= k < out.len() implies (#[trigger] out[k]).end_ms <= s.last().end_ms by {
            if k < acc.len() {
                assert(out[k] == acc[k]);
                assert(acc[k].end_ms <= x.start_ms);
            }
        }
    }
}

/// The speech segments of a run come in time order, none ending before it
/// starts (when the frames' total time fits in `u64`).
pub proof fn lemma_speech_stage_in_order(
    states: Seq<FrameState>,
    settings: PassSettings,
    f: spec_fn(usize, usize) -> u32,
    g: spec_fn(u64, u64) -> bool,
)
    requires
        settings.frame_ms > 0,
        states.len() * settings.frame_ms <= u64::MAX,
    ensures
        speech_in_order(speech_stage_spec(states, settings, f, g)),
{
    let sm = smoothed_spec(states, settings.frame_ms, settings.speech_hangover_ms);
    lemma_speech_spec_in_order(sm, settings.frame_ms, settings.min_speech_ms, f);
    let sp = speech_spec(sm, settings.frame_ms, settings.min_speech_ms, f);
    lemma_merge_close_in_order(sp, settings.merge_gap_ms as int);
    let mc = merge_close_spec(sp, settings.merge_gap_ms as int);
    lemma_prune_in_order(mc, prune_floor_of(settings));
    let pr = prune_spec(mc, prune_floor_of(settings));
    lemma_plausible_in_order(pr, pr.map_values(|v: SegmentView| g(v.start_ms, v.end_ms)));
}

/// Every non-voice segment a run finds before the audio check lasts at least
/// the minimum non-voice duration (when the frames' total time fits in `u64`
/// and the growth into ambiguous frames stays inside the frames).
pub proof fn lemma_run_non_voice_lasts_min(
    states: Seq<FrameState>,
    total_ms: u64,
    settings: PassSettings,
    exp: Seq<bool>,
    fs: spec_fn(usize, usize) -> u32,
    g: spec_fn(u64, u64) -> bool,
    f: spec_fn(u64, u64) -> u32,
    m: spec_fn(Seq<u32>) -> u32,
    c: spec_fn(u32, u32) -> u32,
)
    requires
        settings.frame_ms > 0,
        states.len() * settings.frame_ms <= u64::MAX,
        growth_fits_spec(
            merged_non_voice_spec(speech_stage_spec(states, settings, fs, g), total_ms, settings, f, m, c),
            exp,
            settings.frame_ms,
        ),
    ensures
        forall|k: int|
            0 <= k < non_voice_spec(speech_stage_spec(states, settings, fs, g), total_ms, settings, exp, f, m, c).len()
                ==> #[trigger] lasts(
                non_voice_spec(speech_stage_spec(states, settings, fs, g), total_ms, settings, exp, f, m, c)[k],
                settings.min_non_voice_ms as int,
            ),
{
    lemma_speech_stage_in_order(states, settings, fs, g);
    lemma_non_voice_lasts_min(speech_stage_spec(states, settings, fs, g), total_ms, settings, exp, f, m, c);
}

} // verus!
