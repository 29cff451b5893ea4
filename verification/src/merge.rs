//! Merging the non-voice segments of a timeline, optionally only those a
//! verification report confirmed.
use vstd::prelude::*;
use crate::config::{MergeOptions, MergeStrategy};
use crate::segment::{Segment, SegmentKind, SegmentView, TimelineOutput, seg_views};
use crate::segmenter::{
    computes2, computes_mean, confidences, gap_join_spec, merge_all_non_voice, merge_all_view,
    merge_by_gap_threshold, merge_sparse_non_voice, sparse_spec,
};

verus! {

/// Whether `(start, end)` is among `keys`.
pub fn contains_key(keys: &[(u64, u64)], start: u64, end: u64) -> (r: bool)
    ensures
        r == keys@.contains((start, end)),
{
    let mut i: usize = 0;
    while i < keys.len()
        invariant
            i <= keys.len(),
            forall|k: int| 0 <= k < i ==> keys@[k] != (start, end),
        decreases keys.len() - i,
    {
        if keys[i].0 == start && keys[i].1 == end {
            assert(keys@[i as int] == (start, end));
            return true;
        }
        i += 1;
    }
    false
}

/// A segment takes part in the merge when it is non-voice and, if keys are
/// given, its span is one of them.
pub open spec fn selected(v: SegmentView, keys: Option<Seq<(u64, u64)>>) -> bool {
    v.kind == SegmentKind::NonVoice && match keys {
        Some(k) => k.contains((v.start_ms, v.end_ms)),
        None => true,
    }
}

pub open spec fn select_spec(s: Seq<SegmentView>, keys: Option<Seq<(u64, u64)>>) -> Seq<SegmentView>
    decreases s.len(),
{
    if s.len() == 0 {
        Seq::empty()
    } else if selected(s.last(), keys) {
        select_spec(s.drop_last(), keys).push(s.last())
    } else {
        select_spec(s.drop_last(), keys)
    }
}

pub open spec fn key_view(keys: Option<&[(u64, u64)]>) -> Option<Seq<(u64, u64)>> {
    match keys {
        Some(k) => Some(k@),
        None => None,
    }
}

/// The non-voice segments chosen for merging, in order.
pub fn select_non_voice(segments: &[Segment], verified_keys: Option<&[(u64, u64)]>) -> (r: Vec<Segment>)
    ensures
        seg_views(r@) == select_spec(seg_views(segments@), key_view(verified_keys)),
{
    let ghost sv = seg_views(segments@);
    let mut r: Vec<Segment> = Vec::new();
    let mut i: usize = 0;
    while i < segments.len()
        invariant
            i <= segments.len(),
            sv == seg_views(segments@),
            seg_views(r@) == select_spec(sv.take(i as int), key_view(verified_keys)),
        decreases segments.len() - i,
    {
        let s = &segments[i];
        proof {
            assert(sv.take(i + 1).drop_last() =~= sv.take(i as int));
            assert(sv.take(i + 1).last() == s@);
        }
        let keep = s.kind == SegmentKind::NonVoice && match verified_keys {
            Some(keys) => contains_key(keys, s.start_ms, s.end_ms),
            None => true,
        };
        if keep {
            let ghost before = seg_views(r@);
            let x = s.duplicate();
            let ghost xv = x@;
            r.push(x);
            assert(seg_views(r@) =~= before.push(xv));
        }
        i += 1;
    }
    assert(sv.take(segments.len() as int) =~= sv);
    r
}

/// `v` without its prompt.
pub open spec fn without_prompt(v: SegmentView) -> SegmentView {
    SegmentView { prompt: None, ..v }
}

pub open spec fn without_prompts(s: Seq<SegmentView>) -> Seq<SegmentView> {
    s.map_values(|v: SegmentView| without_prompt(v))
}

fn clear_prompts(segments: &mut Vec<Segment>)
    ensures
        seg_views(final(segments)@) == without_prompts(seg_views(old(segments)@)),
{
    let ghost before = seg_views(segments@);
    let mut out: Vec<Segment> = Vec::new();
    while segments.len() > 0
        invariant
            before.len() == out@.len() + segments@.len(),
            forall|k: int| 0 <= k < segments@.len() ==> (#[trigger] segments@[k])@ == before[k],
            forall|k: int| 0 <= k < out@.len() ==> (#[trigger] out@[k])@ == without_prompt(before[before.len() - 1 - k]),
        decreases segments.len(),
    {
        let ghost n = segments@.len();
        let mut s = segments.pop().unwrap();
        proof {
            assert(s@ == before[n - 1]);
        }
        s.prompt = None;
        out.push(s);
    }
    while out.len() > 0
        invariant
            before.len() == out@.len() + segments@.len(),
            forall|k: int| 0 <= k < segments@.len() ==> (#[trigger] segments@[k])@ == without_prompt(before[k]),
            forall|k: int| 0 <= k < out@.len() ==> (#[trigger] out@[k])@ == without_prompt(before[before.len() - 1 - k]),
        decreases out.len(),
    {
        let s = out.pop().unwrap();
        segments.push(s);
    }
    assert(seg_views(segments@) =~= without_prompts(before));
}

/// Consecutive segments do not overlap: each starts no earlier than the
/// previous one ends.
pub open spec fn ordered_spans(s: Seq<SegmentView>) -> bool {
    forall|k: int| 0 <= k < s.len() - 1 ==> (#[trigger] s[k]).end_ms <= s[k + 1].start_ms
}

/// What merging the selected segments `sel` gives (prompts cleared): nothing
/// for nothing; `all` one segment over all of them with the mean confidence;
/// `longest` the gap join; `sparse` the gap join that also collects tags and
/// combines confidences.
pub open spec fn merge_outcome<G: Fn(Vec<u32>) -> u32, H: Fn(u32, u32) -> u32>(
    out: Seq<SegmentView>,
    sel: Seq<SegmentView>,
    options: MergeOptions,
    mean: G,
    combine: H,
) -> bool {
    &&& sel.len() == 0 ==> out.len() == 0
    &&& options.merge_strategy == MergeStrategy::All && sel.len() > 0 ==> out.len() == 1 && out[0]
        == merge_all_view(sel, out[0].confidence) && forall|m: spec_fn(Seq<u32>) -> u32| #[trigger]
        computes_mean(mean, m) ==> out[0].confidence == m(confidences(sel))
    &&& options.merge_strategy == MergeStrategy::Longest ==> out == without_prompts(
        gap_join_spec(sel, options.min_gap_to_merge as int),
    )
    &&& options.merge_strategy == MergeStrategy::Sparse ==> forall|f: spec_fn(u32, u32) -> u32| #[trigger]
        computes2(combine, f) ==> out == without_prompts(sparse_spec(sel, options.min_gap_to_merge as int, f))
}

/// Merges the non-voice segments of a timeline (only those whose span is among
/// `verified_keys`, when given) with the chosen strategy; the result holds only
/// the merged segments, without prompts.  `all` makes one segment with the mean
/// confidence; `longest` and `sparse` join segments whose gap is below
/// `min_gap_to_merge`, `sparse` also collecting tags and averaging confidences.
pub fn merge_nonvoice_segments<G: Fn(Vec<u32>) -> u32, H: Fn(u32, u32) -> u32>(
    timeline: &TimelineOutput,
    options: &MergeOptions,
    verified_keys: Option<&[(u64, u64)]>,
    mean: &G,
    combine: &H,
) -> (r: TimelineOutput)
    requires
        forall|v: Vec<u32>| mean.requires((v,)),
        forall|a: u32, b: u32| combine.requires((a, b)),
        options.merge_strategy != MergeStrategy::All ==> ordered_spans(
            select_spec(seg_views(timeline.segments@), key_view(verified_keys)),
        ),
    ensures
        r.file@ == timeline.file@,
        r.analysis_sample_rate == timeline.analysis_sample_rate,
        r.frame_ms == timeline.frame_ms,
        merge_outcome(
            seg_views(r.segments@),
            select_spec(seg_views(timeline.segments@), key_view(verified_keys)),
            *options,
            *mean,
            *combine,
        ),
{
    let selected = select_non_voice(&timeline.segments, verified_keys);
    let file = timeline.file.clone();
    if selected.len() == 0 {
        let r = TimelineOutput {
            file,
            analysis_sample_rate: timeline.analysis_sample_rate,
            frame_ms: timeline.frame_ms,
            segments: Vec::new(),
        };
        proof {
            let sel = select_spec(seg_views(timeline.segments@), key_view(verified_keys));
            let g = options.min_gap_to_merge as int;
            assert(sel.len() == 0);
            assert(seg_views(r.segments@) =~= Seq::<SegmentView>::empty());
            assert(without_prompts(gap_join_spec(sel, g)) =~= Seq::<SegmentView>::empty());
            assert forall|f: spec_fn(u32, u32) -> u32| #[trigger] computes2(*combine, f) implies seg_views(
                r.segments@,
            ) == without_prompts(sparse_spec(sel, g, f)) by {
                assert(without_prompts(sparse_spec(sel, g, f)) =~= Seq::<SegmentView>::empty());
            }
        }
        return r;
    }
    let mut merged = match options.merge_strategy {
        MergeStrategy::All => merge_all_non_voice(&selected, mean),
        MergeStrategy::Longest => merge_by_gap_threshold(&selected, options.min_gap_to_merge as u64),
        MergeStrategy::Sparse => merge_sparse_non_voice(&selected, options.min_gap_to_merge as u64, combine),
    };
    let ghost m0 = seg_views(merged@);
    clear_prompts(&mut merged);
    proof {
        if options.merge_strategy == MergeStrategy::All {
            assert(m0.len() == 1);
            assert(seg_views(merged@)[0] == without_prompt(m0[0]));
            assert(m0[0].prompt is None);
            assert(seg_views(merged@)[0] == m0[0]);
        }
    }
    TimelineOutput {
        file,
        analysis_sample_rate: timeline.analysis_sample_rate,
        frame_ms: timeline.frame_ms,
        segments: merged,
    }
}

} // verus!
