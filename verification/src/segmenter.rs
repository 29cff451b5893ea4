//! Turning per-frame speech decisions into segments, and the merging, pruning,
//! inversion, bridging and splitting passes applied to segment lists.
//!
//! New segments get their confidence from a scoring function supplied by the
//! caller (the score of a frame range or of a millisecond range); merges combine
//! existing confidences as each pass prescribes.
use vstd::prelude::*;
use crate::config::{MergeOptions, MergeStrategy};
use crate::segment::{
    Segment, SegmentKind, SegmentView, bare_view, seg_views, text_seq, opt_text, copy_strings,
    copy_opt_string, append_strings, score_ge, score_at_least, score_min, score_smaller,
};

verus! {

/// Bit pattern of the `f32` score 0.78: a short speech segment scoring at least
/// this is kept by `prune_short_speech_segments`.
pub const SHORT_SPEECH_CONFIDENCE_KEEP_FLOOR: u32 = 0x3F47_AE14u32;

/// Largest gap that `bridge_residual_non_voice_gaps` closes.
pub const POST_FILTER_BRIDGE_MAX_GAP_MS: u64 = 2_500;

// ---------------------------------------------------------------------------
// Hangover smoothing

/// Frame `i` is speech after hangover filling: it was speech, or a speech frame
/// lies at most `hang` frames before it.
pub open spec fn hang_filled(raw: Seq<bool>, hang: int, i: int) -> bool {
    raw[i] || exists|j: int| 0 <= j < i && raw[j] && i - j <= hang
}

/// Hangover filling followed by removal of one-frame flickers: a speech frame
/// whose two neighbours are both non-speech is dropped (the first and last frame
/// are never dropped).
pub open spec fn smoothed_frame(raw: Seq<bool>, hang: int, i: int) -> bool {
    hang_filled(raw, hang, i) && !(1 <= i && i + 1 < raw.len() && !hang_filled(raw, hang, i - 1)
        && !hang_filled(raw, hang, i + 1))
}

/// Index of the last speech frame before `i`.
spec fn last_speech_before(raw: Seq<bool>, i: int) -> Option<int>
    decreases i,
{
    if i <= 0 {
        None
    } else if raw[i - 1] {
        Some(i - 1)
    } else {
        last_speech_before(raw, i - 1)
    }
}

proof fn lemma_last_speech_before(raw: Seq<bool>, i: int)
    requires
        0 <= i <= raw.len(),
    ensures
        match last_speech_before(raw, i) {
            Some(l) => 0 <= l < i && raw[l] && forall|j: int| l < j < i ==> !raw[j],
            None => forall|j: int| 0 <= j < i ==> !raw[j],
        },
    decreases i,
{
    if i > 0 {
        lemma_last_speech_before(raw, i - 1);
    }
}

/// Smooths per-frame speech decisions: frames within the hangover after speech
/// become speech, then isolated single speech frames are removed.
pub fn smooth_speech(raw: &[bool], frame_ms: u32, hangover_ms: u32) -> (out: Vec<bool>)
    requires
        frame_ms > 0,
    ensures
        out@.len() == raw@.len(),
        forall|i: int| 0 <= i < raw@.len() ==> out@[i] == smoothed_frame(raw@, (hangover_ms / frame_ms) as int, i),
{
    let hang = (hangover_ms / frame_ms) as usize;
    let ghost h = (hangover_ms / frame_ms) as int;
    let mut out: Vec<bool> = Vec::new();
    let mut last_speech: Option<usize> = None;
    let mut i: usize = 0;
    while i < raw.len()
        invariant
            i <= raw.len(),
            hang as int == h,
            out@.len() == i,
            forall|k: int| 0 <= k < i ==> out@[k] == hang_filled(raw@, h, k),
            match last_speech {
                Some(l) => last_speech_before(raw@, i as int) == Some(l as int),
                None => last_speech_before(raw@, i as int) == None::<int>,
            },
        decreases raw.len() - i,
    {
        proof {
            lemma_last_speech_before(raw@, i as int);
        }
        let b = raw[i];
        let mut v = b;
        if !b {
            match last_speech {
                Some(l) => {
                    if i - l <= hang {
                        v = true;
                    }
                },
                None => {},
            }
        }
        proof {
            if !b {
                match last_speech {
                    Some(l) => {
                        if !v {
                            assert forall|j: int| 0 <= j < i && raw@[j] implies !(i - j <= h) by {
                                assert(j <= l);
                            }
                        }
                    },
                    None => {},
                }
            }
        }
        out.push(v);
        if b {
            last_speech = Some(i);
        }
        i += 1;
    }
    let n = out.len();
    let upper = if n > 0 { n - 1 } else { 0 };
    let mut k: usize = 1;
    while k < upper
        invariant
            n == raw@.len(),
            upper == (if n > 0 { n - 1 } else { 0 }),
            out@.len() == n,
            1 <= k,
            forall|j: int| 0 <= j < k && j < n ==> out@[j] == smoothed_frame(raw@, h, j),
            forall|j: int| k <= j < n ==> out@[j] == hang_filled(raw@, h, j),
        decreases n - k,
    {
        if out[k] && !out[k - 1] && !out[k + 1] {
            out.set(k, false);
        }
        k += 1;
    }
    proof {
        assert forall|j: int| 0 <= j < n implies out@[j] == smoothed_frame(raw@, h, j) by {
            if j >= k {
                assert(!(1 <= j && j + 1 < n));
            }
        }
    }
    out
}

/// After smoothing no speech frame stands alone between two non-speech frames.
pub proof fn lemma_smoothing_leaves_no_isolated_frame(raw: Seq<bool>, hang: int, i: int)
    requires
        1 <= i,
        i + 1 < raw.len(),
    ensures
        !(smoothed_frame(raw, hang, i) && !smoothed_frame(raw, hang, i - 1) && !smoothed_frame(
            raw,
            hang,
            i + 1,
        )),
{
}

// ---------------------------------------------------------------------------
// Speech runs

/// Maximal runs `[start, end)` of consecutive speech frames, in order.
pub open spec fn true_runs(b: Seq<bool>) -> Seq<(int, int)>
    decreases b.len(),
{
    if b.len() == 0 {
        Seq::empty()
    } else {
        let prev = true_runs(b.drop_last());
        let n = b.len() - 1;
        if !b.last() {
            prev
        } else if n > 0 && b[n - 1] {
            prev.update(prev.len() - 1, (prev.last().0, n + 1))
        } else {
            prev.push((n, n + 1))
        }
    }
}

/// Runs of at least `min_ms` of speech, each `frame_ms` per frame.
pub open spec fn long_runs(runs: Seq<(int, int)>, frame_ms: int, min_ms: int) -> Seq<(int, int)>
    decreases runs.len(),
{
    if runs.len() == 0 {
        Seq::empty()
    } else {
        let prev = long_runs(runs.drop_last(), frame_ms, min_ms);
        let r = runs.last();
        if (r.1 - r.0) * frame_ms >= min_ms { prev.push(r) } else { prev }
    }
}

/// The frame runs that `speech_segments` turns into segments.
pub open spec fn speech_runs(smoothed: Seq<bool>, frame_ms: u32, min_speech_ms: u32) -> Seq<(int, int)> {
    long_runs(true_runs(smoothed), frame_ms as int, min_speech_ms as int)
}

/// Speech segments for the maximal runs of speech frames that last at least
/// `min_speech_ms`.  A run `[s, e)` becomes `[s * frame_ms, e * frame_ms)` (a
/// frame counts 1 ms when `frame_ms` is 0) with confidence `score(s, e)`.
pub fn speech_segments<F: Fn(usize, usize) -> u32>(
    smoothed: &[bool],
    frame_ms: u32,
    min_speech_ms: u32,
    score: &F,
) -> (segs: Vec<Segment>)
    requires
        smoothed@.len() * (if frame_ms == 0 { 1 } else { frame_ms as int }) <= u64::MAX,
        forall|a: usize, b: usize| score.requires((a, b)),
    ensures
        segs@.len() == speech_runs(smoothed@, frame_ms, min_speech_ms).len(),
        forall|k: int| 0 <= k < segs@.len() ==> {
            let r = #[trigger] speech_runs(smoothed@, frame_ms, min_speech_ms)[k];
            let unit = if frame_ms == 0 { 1 } else { frame_ms as int };
            &&& segs@[k]@ == bare_view((r.0 * unit) as u64, (r.1 * unit) as u64, SegmentKind::Speech, segs@[k].confidence)
            &&& score.ensures((r.0 as usize, r.1 as usize), segs@[k].confidence)
        },
        forall|k: int|
            0 <= k < segs@.len() ==> (#[trigger] segs@[k]).end_ms <= smoothed@.len() * (if frame_ms == 0 {
                1
            } else {
                frame_ms as int
            }),
{
    let ghost unit: int = if frame_ms == 0 { 1 } else { frame_ms as int };
    let mut segs: Vec<Segment> = Vec::new();
    let mut start: Option<usize> = None;
    let mut i: usize = 0;
    let ghost mut closed: Seq<(int, int)> = Seq::empty();
    while i < smoothed.len()
        invariant
            i <= smoothed.len(),
            smoothed@.len() * unit <= u64::MAX,
            unit == (if frame_ms == 0 { 1 } else { frame_ms as int }),
            forall|a: usize, b: usize| score.requires((a, b)),
            match start {
                Some(s) => closed.push((s as int, i as int)) == true_runs(smoothed@.take(i as int))
                    && s < i && smoothed@[i - 1],
                None => closed == true_runs(smoothed@.take(i as int)) && (i > 0 ==> !smoothed@[i - 1]),
            },
            segs@.len() == long_runs(closed, frame_ms as int, min_speech_ms as int).len(),
            forall|k: int| 0 <= k < segs@.len() ==> {
                let r = #[trigger] long_runs(closed, frame_ms as int, min_speech_ms as int)[k];
                &&& segs@[k]@ == bare_view((r.0 * unit) as u64, (r.1 * unit) as u64, SegmentKind::Speech, segs@[k].confidence)
                &&& score.ensures((r.0 as usize, r.1 as usize), segs@[k].confidence)
            },
            forall|k: int| 0 <= k < segs@.len() ==> (#[trigger] segs@[k]).end_ms <= i * unit,
        decreases smoothed.len() - i,
    {
        let v = smoothed[i];
        proof {
            assert(i * unit <= (i + 1) * unit) by (nonlinear_arith)
                requires
                    unit >= 1,
            ;
        }
        proof {
            assert(smoothed@.take(i + 1).drop_last() =~= smoothed@.take(i as int));
            assert(smoothed@.take(i + 1).last() == v);
            if i > 0 {
                assert(smoothed@.take(i + 1)[i - 1] == smoothed@[i - 1]);
            }
        }
        match start {
            None => {
                if v {
                    start = Some(i);
                }
            },
            Some(s) => {
                if !v {
                    proof {
                        assert(i * unit <= smoothed@.len() * unit) by (nonlinear_arith)
                            requires
                                i <= smoothed@.len(),
                                unit >= 1,
                        ;
                    }
                    let seg_opt = run_segment(s, i, frame_ms, min_speech_ms, score);
                    let ghost old_segs = segs@;
                    match seg_opt {
                        Some(seg) => segs.push(seg),
                        None => {},
                    }
                    proof {
                        let nc = closed.push((s as int, i as int));
                        assert(nc.drop_last() =~= closed);
                        assert forall|k: int| 0 <= k < segs@.len() implies {
                            let r = #[trigger] long_runs(nc, frame_ms as int, min_speech_ms as int)[k];
                            &&& segs@[k]@ == bare_view((r.0 * unit) as u64, (r.1 * unit) as u64, SegmentKind::Speech, segs@[k].confidence)
                            &&& score.ensures((r.0 as usize, r.1 as usize), segs@[k].confidence)
                        } by {
                            if k < old_segs.len() {
                                assert(segs@[k] == old_segs[k]);
                            }
                        }
                        closed = nc;
                    }
                    start = None;
                }
            },
        }
        i += 1;
    }
    match start {
        Some(s) => {
            let n = smoothed.len();
            let seg_opt = run_segment(s, n, frame_ms, min_speech_ms, score);
            let ghost old_segs = segs@;
            match seg_opt {
                Some(seg) => segs.push(seg),
                None => {},
            }
            proof {
                let nc = closed.push((s as int, n as int));
                assert(nc.drop_last() =~= closed);
                assert forall|k: int| 0 <= k < segs@.len() implies {
                    let r = #[trigger] long_runs(nc, frame_ms as int, min_speech_ms as int)[k];
                    &&& segs@[k]@ == bare_view((r.0 * unit) as u64, (r.1 * unit) as u64, SegmentKind::Speech, segs@[k].confidence)
                    &&& score.ensures((r.0 as usize, r.1 as usize), segs@[k].confidence)
                } by {
                    if k < old_segs.len() {
                        assert(segs@[k] == old_segs[k]);
                    }
                }
                closed = nc;
            }
        },
        None => {},
    }
    assert(smoothed@.take(smoothed.len() as int) =~= smoothed@);
    segs
}

/// The segment for run `[s, e)` when it lasts long enough.
fn run_segment<F: Fn(usize, usize) -> u32>(s: usize, e: usize, frame_ms: u32, min_speech_ms: u32, score: &F) -> (r: Option<Segment>)
    requires
        s < e,
        e * (if frame_ms == 0 { 1 } else { frame_ms as int }) <= u64::MAX,
        score.requires((s, e)),
    ensures
        ((e - s) * frame_ms >= min_speech_ms) == r is Some,
        r matches Some(seg) ==> {
            let unit = if frame_ms == 0 { 1 } else { frame_ms as int };
            &&& seg@ == bare_view((s * unit) as u64, (e * unit) as u64, SegmentKind::Speech, seg.confidence)
            &&& score.ensures((s, e), seg.confidence)
        },
{
    let unit: u64 = if frame_ms == 0 { 1 } else { frame_ms as u64 };
    proof {
        assert((e - s) * frame_ms <= e * unit) by (nonlinear_arith)
            requires
                s < e,
                unit >= frame_ms,
        ;
        assert(s * unit <= e * unit) by (nonlinear_arith)
            requires
                s < e,
        ;
    }
    let duration_ms = ((e - s) as u64) * (frame_ms as u64);
    if duration_ms >= min_speech_ms as u64 {
        let confidence = score(s, e);
        Some(Segment::bare((s as u64) * unit, (e as u64) * unit, SegmentKind::Speech, confidence))
    } else {
        None
    }
}

// ---------------------------------------------------------------------------
// Passes over segment lists

pub open spec fn max_u64(a: u64, b: u64) -> u64 {
    if a > b { a } else { b }
}

pub open spec fn sat_sub(a: u64, b: u64) -> int {
    if a > b { a - b } else { 0 }
}

/// `v` with its end and confidence replaced.
pub open spec fn with_end_conf(v: SegmentView, end_ms: u64, confidence: u32) -> SegmentView {
    SegmentView { end_ms, confidence, ..v }
}

/// One step of `merge_close_segments`: a segment of the same kind that starts at
/// most `gap` after the current last segment ends is absorbed into it.
pub open spec fn merge_close_step(acc: Seq<SegmentView>, x: SegmentView, gap: int) -> Seq<SegmentView> {
    if acc.len() > 0 && x.start_ms <= acc.last().end_ms + gap && acc.last().kind == x.kind {
        let l = acc.last();
        acc.update(acc.len() - 1, with_end_conf(l, max_u64(l.end_ms, x.end_ms), score_min(l.confidence, x.confidence)))
    } else {
        acc.push(x)
    }
}

pub open spec fn merge_close_spec(s: Seq<SegmentView>, gap: int) -> Seq<SegmentView>
    decreases s.len(),
{
    if s.len() == 0 {
        Seq::empty()
    } else {
        merge_close_step(merge_close_spec(s.drop_last(), gap), s.last(), gap)
    }
}

/// Replaces the last segment of `v` by `x`.
fn replace_last(v: &mut Vec<Segment>, x: Segment)
    requires
        old(v)@.len() > 0,
    ensures
        seg_views(final(v)@) == seg_views(old(v)@).update(old(v)@.len() - 1, x@),
{
    let ghost before = seg_views(v@);
    let _ = v.pop();
    v.push(x);
    assert(seg_views(v@) =~= before.update(before.len() - 1, x@));
}

/// Appends `x` to `v`.
fn push_segment(v: &mut Vec<Segment>, x: Segment)
    ensures
        seg_views(final(v)@) == seg_views(old(v)@).push(x@),
{
    let ghost before = seg_views(v@);
    v.push(x);
    assert(seg_views(v@) =~= before.push(x@));
}

/// The last segment of a non-empty list with a new end and confidence.
fn last_with_end_conf(v: &Vec<Segment>, end_ms: u64, confidence: u32) -> (r: Segment)
    requires
        v@.len() > 0,
    ensures
        r@ == with_end_conf(v@.last()@, end_ms, confidence),
{
    let l = &v[v.len() - 1];
    let r = Segment {
        start_ms: l.start_ms,
        end_ms,
        kind: l.kind,
        confidence,
        tags: copy_strings(&l.tags),
        prompt: copy_opt_string(&l.prompt),
    };
    r
}

/// Joins consecutive segments of the same kind separated by at most `merge_gap_ms`;
/// a joined segment keeps the first one's tags and prompt, ends at the later end
/// and takes the lower confidence.
pub fn merge_close_segments(segments: &[Segment], merge_gap_ms: u32) -> (merged: Vec<Segment>)
    requires
        forall|k: int| 0 <= k < segments@.len() ==> (#[trigger] segments@[k]).end_ms + merge_gap_ms <= u64::MAX,
    ensures
        seg_views(merged@) == merge_close_spec(seg_views(segments@), merge_gap_ms as int),
{
    let ghost sv = seg_views(segments@);
    let mut merged: Vec<Segment> = Vec::new();
    let mut i: usize = 0;
    while i < segments.len()
        invariant
            i <= segments.len(),
            sv == seg_views(segments@),
            forall|k: int| 0 <= k < segments@.len() ==> (#[trigger] segments@[k]).end_ms + merge_gap_ms <= u64::MAX,
            seg_views(merged@) == merge_close_spec(sv.take(i as int), merge_gap_ms as int),
            forall|k: int| 0 <= k < merged@.len() ==> (#[trigger] seg_views(merged@)[k]).end_ms + merge_gap_ms <= u64::MAX,
        decreases segments.len() - i,
    {
        let seg = &segments[i];
        proof {
            assert(sv.take(i + 1).drop_last() =~= sv.take(i as int));
            assert(sv.take(i + 1).last() == seg@);
        }
        let ghost before = seg_views(merged@);
        proof {
            if merged@.len() > 0 {
                assert(seg_views(merged@)[merged@.len() - 1] == merged@[merged@.len() - 1]@);
            }
        }
        if merged.len() > 0 && seg.start_ms <= merged[merged.len() - 1].end_ms + merge_gap_ms as u64
            && merged[merged.len() - 1].kind == seg.kind {
            let l_end = merged[merged.len() - 1].end_ms;
            let l_conf = merged[merged.len() - 1].confidence;
            let end = if l_end > seg.end_ms { l_end } else { seg.end_ms };
            let conf = score_smaller(l_conf, seg.confidence);
            let updated = last_with_end_conf(&merged, end, conf);
            let ghost uv = updated@;
            replace_last(&mut merged, updated);
            proof {
                assert(seg_views(merged@) == before.update(before.len() - 1, uv));
                assert forall|k: int| 0 <= k < merged@.len() implies (#[trigger] seg_views(merged@)[k]).end_ms + merge_gap_ms <= u64::MAX by {
                    if k < merged@.len() - 1 {
                        assert(seg_views(merged@)[k] == before[k]);
                    }
                }
            }
        } else {
            let x = seg.duplicate();
            let ghost xv = x@;
            push_segment(&mut merged, x);
            proof {
                assert(seg_views(merged@) == before.push(xv));
                assert(seg_views(merged@).len() == before.len() + 1);
                assert forall|k: int| 0 <= k < merged@.len() implies (#[trigger] seg_views(merged@)[k]).end_ms + merge_gap_ms <= u64::MAX by {
                    if k < before.len() {
                        assert(seg_views(merged@)[k] == before[k]);
                    }
                }
            }
        }
        i += 1;
    }
    assert(sv.take(segments.len() as int) =~= sv);
    merged
}

/// A segment survives pruning unless it is short, low-confidence speech.
pub open spec fn survives_prune(v: SegmentView, min_speech_ms: u32) -> bool {
    v.kind != SegmentKind::Speech || sat_sub(v.end_ms, v.start_ms) >= min_speech_ms
        || score_ge(v.confidence, SHORT_SPEECH_CONFIDENCE_KEEP_FLOOR)
}

pub open spec fn prune_spec(s: Seq<SegmentView>, min_speech_ms: u32) -> Seq<SegmentView>
    decreases s.len(),
{
    if s.len() == 0 {
        Seq::empty()
    } else if survives_prune(s.last(), min_speech_ms) {
        prune_spec(s.drop_last(), min_speech_ms).push(s.last())
    } else {
        prune_spec(s.drop_last(), min_speech_ms)
    }
}

/// Drops speech segments shorter than `min_speech_ms` unless their confidence
/// reaches `SHORT_SPEECH_CONFIDENCE_KEEP_FLOOR`; other segments are kept in order.
pub fn prune_short_speech_segments(segments: &[Segment], min_speech_ms: u32) -> (out: Vec<Segment>)
    ensures
        seg_views(out@) == prune_spec(seg_views(segments@), min_speech_ms),
{
    let ghost sv = seg_views(segments@);
    let mut out: Vec<Segment> = Vec::new();
    let mut i: usize = 0;
    while i < segments.len()
        invariant
            i <= segments.len(),
            sv == seg_views(segments@),
            seg_views(out@) == prune_spec(sv.take(i as int), min_speech_ms),
        decreases segments.len() - i,
    {
        let seg = &segments[i];
        proof {
            assert(sv.take(i + 1).drop_last() =~= sv.take(i as int));
            assert(sv.take(i + 1).last() == seg@);
        }
        let duration_ms = if seg.end_ms > seg.start_ms { seg.end_ms - seg.start_ms } else { 0 };
        if seg.kind != SegmentKind::Speech || duration_ms >= min_speech_ms as u64
            || score_at_least(seg.confidence, SHORT_SPEECH_CONFIDENCE_KEEP_FLOOR) {
            let x = seg.duplicate();
            push_segment(&mut out, x);
        }
        i += 1;
    }
    assert(sv.take(segments.len() as int) =~= sv);
    out
}

/// One step of bridging: a segment starting at most `max_gap` after the last
/// segment ends extends it to its own end, with the lower confidence.
pub open spec fn bridge_step(acc: Seq<SegmentView>, x: SegmentView, max_gap: int) -> Seq<SegmentView> {
    if acc.len() > 0 && sat_sub(x.start_ms, acc.last().end_ms) <= max_gap {
        let l = acc.last();
        acc.update(acc.len() - 1, with_end_conf(l, x.end_ms, score_min(l.confidence, x.confidence)))
    } else {
        acc.push(x)
    }
}

pub open spec fn bridge_spec(s: Seq<SegmentView>, max_gap: int) -> Seq<SegmentView>
    decreases s.len(),
{
    if s.len() == 0 {
        Seq::empty()
    } else {
        bridge_step(bridge_spec(s.drop_last(), max_gap), s.last(), max_gap)
    }
}

/// Closes gaps of at most `max_gap_ms` between consecutive segments.
fn bridge_gaps(segments: &[Segment], max_gap_ms: u64) -> (merged: Vec<Segment>)
    ensures
        seg_views(merged@) == bridge_spec(seg_views(segments@), max_gap_ms as int),
{
    let ghost sv = seg_views(segments@);
    let mut merged: Vec<Segment> = Vec::new();
    let mut i: usize = 0;
    while i < segments.len()
        invariant
            i <= segments.len(),
            sv == seg_views(segments@),
            seg_views(merged@) == bridge_spec(sv.take(i as int), max_gap_ms as int),
        decreases segments.len() - i,
    {
        let seg = &segments[i];
        proof {
            assert(sv.take(i + 1).drop_last() =~= sv.take(i as int));
            assert(sv.take(i + 1).last() == seg@);
            if merged@.len() > 0 {
                assert(seg_views(merged@)[merged@.len() - 1] == merged@[merged@.len() - 1]@);
            }
        }
        let mut bridged = false;
        if merged.len() > 0 {
            let l_end = merged[merged.len() - 1].end_ms;
            let gap = if seg.start_ms > l_end { seg.start_ms - l_end } else { 0 };
            if gap <= max_gap_ms {
                let l_conf = merged[merged.len() - 1].confidence;
                let conf = score_smaller(l_conf, seg.confidence);
                let updated = last_with_end_conf(&merged, seg.end_ms, conf);
                replace_last(&mut merged, updated);
                bridged = true;
            }
        }
        if !bridged {
            let x = seg.duplicate();
            push_segment(&mut merged, x);
        }
        i += 1;
    }
    assert(sv.take(segments.len() as int) =~= sv);
    merged
}

/// Joins non-voice segments separated by short speech: a gap of at most
/// `max_speech_bridge_ms` is closed (a bound of 0 leaves the list unchanged).
pub fn bridge_non_voice_segments(segments: &[Segment], max_speech_bridge_ms: u32) -> (merged: Vec<Segment>)
    ensures
        max_speech_bridge_ms == 0 ==> seg_views(merged@) == seg_views(segments@),
        max_speech_bridge_ms > 0 ==> seg_views(merged@) == bridge_spec(seg_views(segments@), max_speech_bridge_ms as int),
{
    if segments.len() == 0 || max_speech_bridge_ms == 0 {
        proof {
            if segments.len() == 0 {
                assert(seg_views(segments@) =~= Seq::<SegmentView>::empty());
            }
        }
        return crate::segment::copy_segments(segments);
    }
    bridge_gaps(segments, max_speech_bridge_ms as u64)
}

/// Closes the gaps of at most `POST_FILTER_BRIDGE_MAX_GAP_MS` left after filtering.
pub fn bridge_residual_non_voice_gaps(segments: &[Segment]) -> (merged: Vec<Segment>)
    ensures
        seg_views(merged@) == bridge_spec(seg_views(segments@), POST_FILTER_BRIDGE_MAX_GAP_MS as int),
{
    bridge_gaps(segments, POST_FILTER_BRIDGE_MAX_GAP_MS)
}

/// One step of joining by gap threshold: a segment starting less than `min_gap`
/// after the last one ends extends it to its own end; the joined segment keeps
/// its confidence, tags and prompt.
pub open spec fn gap_join_step(acc: Seq<SegmentView>, x: SegmentView, min_gap: int) -> Seq<SegmentView> {
    if acc.len() > 0 && sat_sub(x.start_ms, acc.last().end_ms) < min_gap {
        let l = acc.last();
        acc.update(acc.len() - 1, with_end_conf(l, x.end_ms, l.confidence))
    } else {
        acc.push(x)
    }
}

pub open spec fn gap_join_spec(s: Seq<SegmentView>, min_gap: int) -> Seq<SegmentView>
    decreases s.len(),
{
    if s.len() == 0 {
        Seq::empty()
    } else {
        gap_join_step(gap_join_spec(s.drop_last(), min_gap), s.last(), min_gap)
    }
}

/// Joins consecutive segments whose gap is below `min_gap_ms`.
pub fn merge_by_gap_threshold(segments: &[Segment], min_gap_ms: u64) -> (merged: Vec<Segment>)
    ensures
        seg_views(merged@) == gap_join_spec(seg_views(segments@), min_gap_ms as int),
{
    let ghost sv = seg_views(segments@);
    let mut merged: Vec<Segment> = Vec::new();
    let mut i: usize = 0;
    while i < segments.len()
        invariant
            i <= segments.len(),
            sv == seg_views(segments@),
            seg_views(merged@) == gap_join_spec(sv.take(i as int), min_gap_ms as int),
        decreases segments.len() - i,
    {
        let seg = &segments[i];
        proof {
            assert(sv.take(i + 1).drop_last() =~= sv.take(i as int));
            assert(sv.take(i + 1).last() == seg@);
            if merged@.len() > 0 {
                assert(seg_views(merged@)[merged@.len() - 1] == merged@[merged@.len() - 1]@);
            }
        }
        let mut joined = false;
        if merged.len() > 0 {
            let l_end = merged[merged.len() - 1].end_ms;
            let gap = if seg.start_ms > l_end { seg.start_ms - l_end } else { 0 };
            if gap < min_gap_ms {
                let l_conf = merged[merged.len() - 1].confidence;
                let updated = last_with_end_conf(&merged, seg.end_ms, l_conf);
                replace_last(&mut merged, updated);
                joined = true;
            }
        }
        if !joined {
            let x = seg.duplicate();
            push_segment(&mut merged, x);
        }
        i += 1;
    }
    assert(sv.take(segments.len() as int) =~= sv);
    merged
}

/// `combine` computes `f`: every result it can return for `(a, b)` is `f(a, b)`.
pub open spec fn computes2<H: Fn(u32, u32) -> u32>(combine: H, f: spec_fn(u32, u32) -> u32) -> bool {
    forall|a: u32, b: u32, r: u32| combine.ensures((a, b), r) ==> r == f(a, b)
}

/// One step of the sparse merge: a segment starting less than `min_gap` after the
/// last one ends extends it to its own end, adds its tags to it and combines the
/// two confidences with `f`; otherwise it is appended.
pub open spec fn sparse_step(acc: Seq<SegmentView>, x: SegmentView, min_gap: int, f: spec_fn(u32, u32) -> u32) -> Seq<SegmentView> {
    if acc.len() > 0 && sat_sub(x.start_ms, acc.last().end_ms) < min_gap {
        let l = acc.last();
        acc.update(
            acc.len() - 1,
            SegmentView { end_ms: x.end_ms, confidence: f(l.confidence, x.confidence), tags: l.tags + x.tags, ..l },
        )
    } else {
        acc.push(x)
    }
}

pub open spec fn sparse_spec(s: Seq<SegmentView>, min_gap: int, f: spec_fn(u32, u32) -> u32) -> Seq<SegmentView>
    decreases s.len(),
{
    if s.len() == 0 {
        Seq::empty()
    } else {
        sparse_step(sparse_spec(s.drop_last(), min_gap, f), s.last(), min_gap, f)
    }
}

/// Like `merge_by_gap_threshold`, but a joined segment also collects the tags of
/// the segments it absorbs and its confidence is `combine(current, absorbed)`.
pub fn merge_sparse_non_voice<H: Fn(u32, u32) -> u32>(segments: &[Segment], min_gap_ms: u64, combine: &H) -> (merged: Vec<Segment>)
    requires
        forall|a: u32, b: u32| combine.requires((a, b)),
    ensures
        forall|f: spec_fn(u32, u32) -> u32| #[trigger] computes2(*combine, f) ==> seg_views(merged@)
            == sparse_spec(seg_views(segments@), min_gap_ms as int, f),
{
    let ghost sv = seg_views(segments@);
    let mut merged: Vec<Segment> = Vec::new();
    let mut i: usize = 0;
    while i < segments.len()
        invariant
            i <= segments.len(),
            sv == seg_views(segments@),
            forall|a: u32, b: u32| combine.requires((a, b)),
            forall|f: spec_fn(u32, u32) -> u32| #[trigger] computes2(*combine, f) ==> seg_views(merged@)
                == sparse_spec(sv.take(i as int), min_gap_ms as int, f),
        decreases segments.len() - i,
    {
        let seg = &segments[i];
        let ghost before = seg_views(merged@);
        proof {
            assert(sv.take(i + 1).drop_last() =~= sv.take(i as int));
            assert(sv.take(i + 1).last() == seg@);
            if merged@.len() > 0 {
                assert(before[merged@.len() - 1] == merged@[merged@.len() - 1]@);
            }
        }
        let mut joined = false;
        if merged.len() > 0 {
            let l_end = merged[merged.len() - 1].end_ms;
            let gap = if seg.start_ms > l_end { seg.start_ms - l_end } else { 0 };
            if gap < min_gap_ms {
                let l_conf = merged[merged.len() - 1].confidence;
                let conf = combine(l_conf, seg.confidence);
                let mut updated = last_with_end_conf(&merged, seg.end_ms, conf);
                append_strings(&mut updated.tags, &seg.tags);
                let ghost uv = updated@;
                replace_last(&mut merged, updated);
                joined = true;
                proof {
                    assert forall|f: spec_fn(u32, u32) -> u32| #[trigger] computes2(*combine, f) implies seg_views(merged@)
                        == sparse_spec(sv.take(i + 1), min_gap_ms as int, f) by {
                        assert(conf == f(l_conf, seg.confidence));
                        assert(seg_views(merged@) =~= sparse_step(before, seg@, min_gap_ms as int, f));
                    }
                }
            }
        }
        if !joined {
            let x = seg.duplicate();
            push_segment(&mut merged, x);
            proof {
                assert forall|f: spec_fn(u32, u32) -> u32| #[trigger] computes2(*combine, f) implies seg_views(merged@)
                    == sparse_spec(sv.take(i + 1), min_gap_ms as int, f) by {
                    assert(seg_views(merged@) =~= sparse_step(before, seg@, min_gap_ms as int, f));
                }
            }
        }
        i += 1;
    }
    assert(sv.take(segments.len() as int) =~= sv);
    merged
}

/// Concatenation of the tags of all segments, in order.
pub open spec fn all_tags(s: Seq<SegmentView>) -> Seq<Seq<char>>
    decreases s.len(),
{
    if s.len() == 0 {
        Seq::empty()
    } else {
        all_tags(s.drop_last()) + s.last().tags
    }
}

pub open spec fn confidences(s: Seq<SegmentView>) -> Seq<u32> {
    s.map_values(|v: SegmentView| v.confidence)
}

/// `mean` computes `m`: every result it can return for a list is `m` of the list.
pub open spec fn computes_mean<G: Fn(Vec<u32>) -> u32>(mean: G, m: spec_fn(Seq<u32>) -> u32) -> bool {
    forall|v: Vec<u32>, r: u32| mean.ensures((v,), r) ==> r == m(v@)
}

/// The single segment that `merge_all_non_voice` makes of a non-empty list, up
/// to its confidence.
pub open spec fn merge_all_view(s: Seq<SegmentView>, confidence: u32) -> SegmentView {
    SegmentView {
        start_ms: s[0].start_ms,
        end_ms: s.last().end_ms,
        kind: SegmentKind::NonVoice,
        confidence,
        tags: all_tags(s),
        prompt: None,
    }
}

/// Merges all segments into one non-voice segment from the first start to the
/// last end, with all tags and the confidence `mean` gives for the list of
/// confidences.
pub fn merge_all_non_voice<G: Fn(Vec<u32>) -> u32>(segments: &[Segment], mean: &G) -> (merged: Vec<Segment>)
    requires
        forall|v: Vec<u32>| mean.requires((v,)),
    ensures
        segments@.len() == 0 ==> merged@.len() == 0,
        segments@.len() > 0 ==> merged@.len() == 1 && merged@[0]@ == merge_all_view(seg_views(segments@), merged@[0].confidence),
        segments@.len() > 0 ==> forall|m: spec_fn(Seq<u32>) -> u32| #[trigger] computes_mean(*mean, m)
            ==> merged@[0].confidence == m(confidences(seg_views(segments@))),
{
    if segments.len() == 0 {
        return Vec::new();
    }
    let ghost sv = seg_views(segments@);
    let mut confs: Vec<u32> = Vec::new();
    let mut tags: Vec<String> = Vec::new();
    let mut i: usize = 0;
    while i < segments.len()
        invariant
            i <= segments.len(),
            sv == seg_views(segments@),
            confs@ == confidences(sv).take(i as int),
            text_seq(tags@) == all_tags(sv.take(i as int)),
        decreases segments.len() - i,
    {
        proof {
            assert(sv.take(i + 1).drop_last() =~= sv.take(i as int));
            assert(sv.take(i + 1).last() == segments@[i as int]@);
        }
        confs.push(segments[i].confidence);
        append_strings(&mut tags, &segments[i].tags);
        i += 1;
        assert(confs@ =~= confidences(sv).take(i as int));
    }
    proof {
        assert(sv.take(segments.len() as int) =~= sv);
        assert(confidences(sv).take(segments.len() as int) =~= confidences(sv));
    }
    let ghost cv = confs;
    let confidence = mean(confs);
    let seg = Segment {
        start_ms: segments[0].start_ms,
        end_ms: segments[segments.len() - 1].end_ms,
        kind: SegmentKind::NonVoice,
        confidence,
        tags,
        prompt: None,
    };
    let mut merged: Vec<Segment> = Vec::new();
    merged.push(seg);
    assert(merged@[0]@ == merge_all_view(sv, confidence));
    assert(cv@ == confidences(sv) && mean.ensures((cv,), confidence));
    assert forall|m: spec_fn(Seq<u32>) -> u32| #[trigger] computes_mean(*mean, m) implies confidence == m(confidences(sv)) by {
        assert(mean.ensures((cv,), confidence));
    }
    merged
}

// ---------------------------------------------------------------------------
// New non-voice segments

/// `out` are non-voice segments over `spans`, each with a confidence that
/// `score` gives for its span.
pub open spec fn scored_non_voice<F: Fn(u64, u64) -> u32>(out: Seq<SegmentView>, spans: Seq<(u64, u64)>, score: F) -> bool {
    &&& out.len() == spans.len()
    &&& forall|k: int| 0 <= k < out.len() ==> {
        &&& #[trigger] out[k] == bare_view(spans[k].0, spans[k].1, SegmentKind::NonVoice, out[k].confidence)
        &&& score.ensures((spans[k].0, spans[k].1), out[k].confidence)
    }
}

/// The span `[start, end)` if it lasts at least `min_ms`.
pub open spec fn nv_span(start: u64, end: u64, min_ms: int) -> Seq<(u64, u64)> {
    if sat_sub(end, start) >= min_ms { seq![(start, end)] } else { Seq::empty() }
}

proof fn lemma_scored_push<F: Fn(u64, u64) -> u32>(
    out: Seq<SegmentView>,
    spans: Seq<(u64, u64)>,
    score: F,
    x: SegmentView,
    sp: (u64, u64),
)
    requires
        scored_non_voice(out, spans, score),
        x == bare_view(sp.0, sp.1, SegmentKind::NonVoice, x.confidence),
        score.ensures((sp.0, sp.1), x.confidence),
    ensures
        scored_non_voice(out.push(x), spans.push(sp), score),
{
    assert forall|k: int| 0 <= k < out.push(x).len() implies {
        &&& #[trigger] out.push(x)[k] == bare_view(spans.push(sp)[k].0, spans.push(sp)[k].1, SegmentKind::NonVoice, out.push(x)[k].confidence)
        &&& score.ensures((spans.push(sp)[k].0, spans.push(sp)[k].1), out.push(x)[k].confidence)
    } by {
        if k < out.len() {
            assert(out.push(x)[k] == out[k]);
            assert(spans.push(sp)[k] == spans[k]);
        }
    }
}

/// Appends a non-voice segment over `[start, end)` when it lasts at least `min_ms`.
fn push_nv<F: Fn(u64, u64) -> u32>(out: &mut Vec<Segment>, start: u64, end: u64, min_ms: u32, score: &F, ghost_spans: Ghost<Seq<(u64, u64)>>)
    requires
        score.requires((start, end)),
        scored_non_voice(seg_views(old(out)@), ghost_spans@, *score),
    ensures
        scored_non_voice(seg_views(final(out)@), ghost_spans@ + nv_span(start, end, min_ms as int), *score),
{
    let ghost before = seg_views(out@);
    let dur = if end > start { end - start } else { 0 };
    if dur >= min_ms as u64 {
        let confidence = score(start, end);
        let seg = Segment::bare(start, end, SegmentKind::NonVoice, confidence);
        let ghost xv = seg@;
        push_segment(out, seg);
        proof {
            lemma_scored_push(before, ghost_spans@, *score, xv, (start, end));
            assert(ghost_spans@ + nv_span(start, end, min_ms as int) =~= ghost_spans@.push((start, end)));
        }
    } else {
        assert(ghost_spans@ + nv_span(start, end, min_ms as int) =~= ghost_spans@);
    }
}

/// Gaps between consecutive speech segments, scanning with a cursor that starts
/// at 0 and moves to each segment's end: the gaps found so far and the cursor.
pub open spec fn invert_scan(s: Seq<SegmentView>, min_ms: int) -> (Seq<(u64, u64)>, u64)
    decreases s.len(),
{
    if s.len() == 0 {
        (Seq::empty(), 0)
    } else {
        let (gaps, cursor) = invert_scan(s.drop_last(), min_ms);
        let x = s.last();
        let g = if x.start_ms > cursor { gaps + nv_span(cursor, x.start_ms, min_ms) } else { gaps };
        (g, x.end_ms)
    }
}

/// The non-voice spans of `invert_to_non_voice`: the gaps before, between and
/// after the speech segments, up to `total_ms`, that last at least `min_ms`.
pub open spec fn invert_spans(s: Seq<SegmentView>, total_ms: u64, min_ms: int) -> Seq<(u64, u64)> {
    let (gaps, cursor) = invert_scan(s, min_ms);
    if cursor < total_ms { gaps + nv_span(cursor, total_ms, min_ms) } else { gaps }
}


proof fn lemma_scan_spans_long(s: Seq<SegmentView>, min_ms: int)
    ensures
        forall|i: int|
            0 <= i < invert_scan(s, min_ms).0.len() ==> {
                let g = #[trigger] invert_scan(s, min_ms).0[i];
                g.0 < g.1 && g.1 - g.0 >= min_ms
            },
    decreases s.len(),
{
    if s.len() > 0 {
        lemma_scan_spans_long(s.drop_last(), min_ms);
        let (gaps, cursor) = invert_scan(s.drop_last(), min_ms);
        let x = s.last();
        if x.start_ms > cursor {
            let n = nv_span(cursor, x.start_ms, min_ms);
            assert forall|i: int| 0 <= i < (gaps + n).len() implies {
                let g = #[trigger] (gaps + n)[i];
                g.0 < g.1 && g.1 - g.0 >= min_ms
            } by {
                if i >= gaps.len() {
                    assert((gaps + n)[i] == n[i - gaps.len()]);
                }
            }
        }
    }
}

/// Every non-voice span that inverting speech gives is non-empty and lasts at
/// least the minimum non-voice duration.
pub proof fn lemma_non_voice_spans_last_min(s: Seq<SegmentView>, total_ms: u64, min_ms: int)
    ensures
        forall|i: int|
            0 <= i < invert_spans(s, total_ms, min_ms).len() ==> {
                let g = #[trigger] invert_spans(s, total_ms, min_ms)[i];
                g.0 < g.1 && g.1 - g.0 >= min_ms
            },
{
    lemma_scan_spans_long(s, min_ms);
    let (gaps, cursor) = invert_scan(s, min_ms);
    if cursor < total_ms {
        let n = nv_span(cursor, total_ms, min_ms);
        assert forall|i: int| 0 <= i < (gaps + n).len() implies {
            let g = #[trigger] (gaps + n)[i];
            g.0 < g.1 && g.1 - g.0 >= min_ms
        } by {
            if i >= gaps.len() {
                assert((gaps + n)[i] == n[i - gaps.len()]);
            }
        }
    }
}

/// A span and a segment share no time.
pub open spec fn apart(g: (u64, u64), v: SegmentView) -> bool {
    g.1 <= v.start_ms || v.end_ms <= g.0
}

/// Speech segments in time order: none ends before it starts, and each ends
/// no later than any later one starts.
pub open spec fn speech_in_order(s: Seq<SegmentView>) -> bool {
    &&& forall|k: int| 0 <= k < s.len() ==> (#[trigger] s[k]).start_ms <= s[k].end_ms
    &&& forall|i: int, j: int| 0 <= i < j < s.len() ==> (#[trigger] s[i]).end_ms <= (#[trigger] s[j]).start_ms
}

pub open spec fn scan_gaps(s: Seq<SegmentView>, min_ms: int, n: int) -> Seq<(u64, u64)> {
    invert_scan(s.take(n), min_ms).0
}

pub open spec fn scan_cursor(s: Seq<SegmentView>, min_ms: int, n: int) -> u64 {
    invert_scan(s.take(n), min_ms).1
}

proof fn lemma_scan_step(s: Seq<SegmentView>, min_ms: int, n: int)
    requires
        0 < n <= s.len(),
    ensures
        scan_cursor(s, min_ms, n) == s[n - 1].end_ms,
        scan_gaps(s, min_ms, n) == (if s[n - 1].start_ms > scan_cursor(s, min_ms, n - 1) {
            scan_gaps(s, min_ms, n - 1) + nv_span(scan_cursor(s, min_ms, n - 1), s[n - 1].start_ms, min_ms)
        } else {
            scan_gaps(s, min_ms, n - 1)
        }),
{
    assert(s.take(n).drop_last() =~= s.take(n - 1));
    assert(s.take(n).last() == s[n - 1]);
}

proof fn lemma_invert_scan(s: Seq<SegmentView>, min_ms: int, n: int)
    requires
        0 <= n <= s.len(),
        speech_in_order(s),
    ensures
        n == 0 ==> scan_cursor(s, min_ms, n) == 0,
        forall|j: int| 0 <= j < n ==> (#[trigger] s[j]).end_ms <= scan_cursor(s, min_ms, n),
        forall|j: int| n <= j < s.len() ==> scan_cursor(s, min_ms, n) <= (#[trigger] s[j]).start_ms,
        forall|i: int|
            0 <= i < scan_gaps(s, min_ms, n).len() ==> (#[trigger] scan_gaps(s, min_ms, n)[i]).1 <= scan_cursor(
                s,
                min_ms,
                n,
            ) && scan_gaps(s, min_ms, n)[i].0 < scan_gaps(s, min_ms, n)[i].1,
        forall|i: int, j: int|
            0 <= i < scan_gaps(s, min_ms, n).len() && 0 <= j < s.len() ==> apart(
                #[trigger] scan_gaps(s, min_ms, n)[i],
                #[trigger] s[j],
            ),
    decreases n,
{
    if n > 0 {
        lemma_invert_scan(s, min_ms, n - 1);
        lemma_scan_step(s, min_ms, n);
        let gaps = scan_gaps(s, min_ms, n - 1);
        let cursor = scan_cursor(s, min_ms, n - 1);
        let x = s[n - 1];
        let g = scan_gaps(s, min_ms, n);
        assert(cursor <= x.start_ms);
        assert forall|j: int| 0 <= j < n implies (#[trigger] s[j]).end_ms <= x.end_ms by {
            if j < n - 1 {
                assert(s[j].end_ms <= s[n - 1].start_ms);
            }
        }
        assert forall|j: int| n <= j < s.len() implies x.end_ms <= (#[trigger] s[j]).start_ms by {
            assert(s[n - 1].end_ms <= s[j].start_ms);
        }
        assert forall|i: int| 0 <= i < g.len() implies (#[trigger] g[i]).1 <= x.end_ms && g[i].0 < g[i].1 by {
            if i < gaps.len() {
                assert(g[i] == gaps[i]);
            }
        }
        assert forall|i: int, j: int| 0 <= i < g.len() && 0 <= j < s.len() implies apart(
            #[trigger] g[i],
            #[trigger] s[j],
        ) by {
            if i < gaps.len() {
                assert(g[i] == gaps[i]);
            } else {
                assert(g[i] == (cursor, x.start_ms));
                if j < n - 1 {
                    assert(s[j].end_ms <= s[n - 1].start_ms);
                    assert(s[j].end_ms <= cursor);
                } else if j > n - 1 {
                    assert(s[n - 1].end_ms <= s[j].start_ms);
                }
            }
        }
    }
}

/// The non-voice spans that inverting speech gives are non-empty and share no
/// time with any speech segment, when the speech segments are in order.
pub proof fn lemma_non_voice_avoids_speech(s: Seq<SegmentView>, total_ms: u64, min_ms: int)
    requires
        speech_in_order(s),
    ensures
        forall|i: int|
            0 <= i < invert_spans(s, total_ms, min_ms).len() ==> (#[trigger] invert_spans(s, total_ms, min_ms)[i]).0
                < invert_spans(s, total_ms, min_ms)[i].1,
        forall|i: int, j: int|
            0 <= i < invert_spans(s, total_ms, min_ms).len() && 0 <= j < s.len() ==> apart(
                #[trigger] invert_spans(s, total_ms, min_ms)[i],
                #[trigger] s[j],
            ),
{
    let n = s.len() as int;
    lemma_invert_scan(s, min_ms, n);
    assert(s.take(n) =~= s);
    let gaps = scan_gaps(s, min_ms, n);
    let cursor = scan_cursor(s, min_ms, n);
    let sp = invert_spans(s, total_ms, min_ms);
    assert(sp == (if cursor < total_ms { gaps + nv_span(cursor, total_ms, min_ms) } else { gaps }));
    assert forall|i: int| 0 <= i < sp.len() implies (#[trigger] sp[i]).0 < sp[i].1 by {
        if i < gaps.len() {
            assert(sp[i] == gaps[i]);
        }
    }
    assert forall|i: int, j: int| 0 <= i < sp.len() && 0 <= j < s.len() implies apart(#[trigger] sp[i], #[trigger] s[j]) by {
        if i < gaps.len() {
            assert(sp[i] == gaps[i]);
        } else {
            assert(sp[i] == (cursor, total_ms));
            assert(s[j].end_ms <= cursor);
        }
    }
}

/// Non-voice segments for the time not covered by speech, from 0 to
/// `total_ms`; gaps shorter than `min_non_voice_ms` are dropped and each new
/// segment's confidence is `score(start, end)`.
pub fn invert_to_non_voice<F: Fn(u64, u64) -> u32>(
    speech: &[Segment],
    total_ms: u64,
    min_non_voice_ms: u32,
    score: &F,
) -> (out: Vec<Segment>)
    requires
        forall|a: u64, b: u64| score.requires((a, b)),
    ensures
        scored_non_voice(seg_views(out@), invert_spans(seg_views(speech@), total_ms, min_non_voice_ms as int), *score),
{
    let ghost sv = seg_views(speech@);
    let ghost min = min_non_voice_ms as int;
    let mut out: Vec<Segment> = Vec::new();
    let mut cursor: u64 = 0;
    let mut i: usize = 0;
    proof {
        assert(scored_non_voice(seg_views(out@), Seq::empty(), *score));
    }
    while i < speech.len()
        invariant
            i <= speech.len(),
            sv == seg_views(speech@),
            min == min_non_voice_ms as int,
            forall|a: u64, b: u64| score.requires((a, b)),
            invert_scan(sv.take(i as int), min).1 == cursor,
            scored_non_voice(seg_views(out@), invert_scan(sv.take(i as int), min).0, *score),
        decreases speech.len() - i,
    {
        let s = &speech[i];
        proof {
            assert(sv.take(i + 1).drop_last() =~= sv.take(i as int));
            assert(sv.take(i + 1).last() == s@);
        }
        let ghost spans = invert_scan(sv.take(i as int), min).0;
        if s.start_ms > cursor {
            push_nv(&mut out, cursor, s.start_ms, min_non_voice_ms, score, Ghost(spans));
        }
        cursor = s.end_ms;
        i += 1;
    }
    assert(sv.take(speech.len() as int) =~= sv);
    if cursor < total_ms {
        let ghost spans = invert_scan(sv, min).0;
        push_nv(&mut out, cursor, total_ms, min_non_voice_ms, score, Ghost(spans));
    }
    out
}

/// The pieces of `[cursor, end)` cut every `max_ms` from the left, the last
/// piece taking the remainder; pieces shorter than `min_ms` are dropped.
pub open spec fn nv_pieces(cursor: u64, end: u64, max_ms: u64, min_ms: int) -> Seq<(u64, u64)>
    decreases end - cursor,
{
    if max_ms == 0 || cursor >= end {
        Seq::empty()
    } else if end - cursor <= max_ms {
        nv_span(cursor, end, min_ms)
    } else {
        nv_span(cursor, (cursor + max_ms) as u64, min_ms) + nv_pieces((cursor + max_ms) as u64, end, max_ms, min_ms)
    }
}

/// An entry of the output of `split_long_segments`: a segment kept as it was,
/// or a new non-voice piece.
pub enum SplitItem {
    Keep(SegmentView),
    Piece(u64, u64),
}

pub open spec fn split_items(x: SegmentView, max_ms: u64, min_ms: int) -> Seq<SplitItem> {
    if sat_sub(x.end_ms, x.start_ms) <= max_ms {
        seq![SplitItem::Keep(x)]
    } else {
        nv_pieces(x.start_ms, x.end_ms, max_ms, min_ms).map_values(|p: (u64, u64)| SplitItem::Piece(p.0, p.1))
    }
}

pub open spec fn split_plan(s: Seq<SegmentView>, max_ms: u64, min_ms: int) -> Seq<SplitItem>
    decreases s.len(),
{
    if s.len() == 0 {
        Seq::empty()
    } else {
        split_plan(s.drop_last(), max_ms, min_ms) + split_items(s.last(), max_ms, min_ms)
    }
}

/// `out` carries out `plan`: kept segments unchanged, pieces as non-voice
/// segments scored by `score`.
pub open spec fn realizes<F: Fn(u64, u64) -> u32>(out: Seq<SegmentView>, plan: Seq<SplitItem>, score: F) -> bool {
    &&& out.len() == plan.len()
    &&& forall|k: int| 0 <= k < out.len() ==> match #[trigger] plan[k] {
        SplitItem::Keep(v) => out[k] == v,
        SplitItem::Piece(a, b) => out[k] == bare_view(a, b, SegmentKind::NonVoice, out[k].confidence)
            && score.ensures((a, b), out[k].confidence),
    }
}

proof fn lemma_realizes_append<F: Fn(u64, u64) -> u32>(
    out: Seq<SegmentView>,
    plan: Seq<SplitItem>,
    extra_out: Seq<SegmentView>,
    extra_plan: Seq<SplitItem>,
    score: F,
)
    requires
        realizes(out, plan, score),
        realizes(extra_out, extra_plan, score),
    ensures
        realizes(out + extra_out, plan + extra_plan, score),
{
    assert forall|k: int| 0 <= k < (out + extra_out).len() implies match #[trigger] (plan + extra_plan)[k] {
        SplitItem::Keep(v) => (out + extra_out)[k] == v,
        SplitItem::Piece(a, b) => (out + extra_out)[k] == bare_view(a, b, SegmentKind::NonVoice, (out + extra_out)[k].confidence)
            && score.ensures((a, b), (out + extra_out)[k].confidence),
    } by {
        if k < out.len() {
            assert((plan + extra_plan)[k] == plan[k]);
            assert((out + extra_out)[k] == out[k]);
        } else {
            assert((plan + extra_plan)[k] == extra_plan[k - out.len()]);
            assert((out + extra_out)[k] == extra_out[k - out.len()]);
        }
    }
}

proof fn lemma_scored_realizes<F: Fn(u64, u64) -> u32>(out: Seq<SegmentView>, spans: Seq<(u64, u64)>, score: F)
    requires
        scored_non_voice(out, spans, score),
    ensures
        realizes(out, spans.map_values(|p: (u64, u64)| SplitItem::Piece(p.0, p.1)), score),
{
    let plan = spans.map_values(|p: (u64, u64)| SplitItem::Piece(p.0, p.1));
    assert forall|k: int| 0 <= k < out.len() implies match #[trigger] plan[k] {
        SplitItem::Keep(v) => out[k] == v,
        SplitItem::Piece(a, b) => out[k] == bare_view(a, b, SegmentKind::NonVoice, out[k].confidence)
            && score.ensures((a, b), out[k].confidence),
    } by {
        assert(plan[k] == SplitItem::Piece(spans[k].0, spans[k].1));
    }
}

/// Non-voice segments for the pieces of `[start, end)` (see `nv_pieces`).
fn push_pieces<F: Fn(u64, u64) -> u32>(start: u64, end: u64, max_ms: u64, min_ms: u32, score: &F) -> (out: Vec<Segment>)
    requires
        max_ms > 0,
        forall|a: u64, b: u64| score.requires((a, b)),
    ensures
        scored_non_voice(seg_views(out@), nv_pieces(start, end, max_ms, min_ms as int), *score),
{
    let mut out: Vec<Segment> = Vec::new();
    let mut cursor = start;
    let mut done = false;
    let ghost mut emitted: Seq<(u64, u64)> = Seq::empty();
    proof {
        assert(scored_non_voice(seg_views(out@), emitted, *score));
    }
    while !done && cursor < end
        invariant
            max_ms > 0,
            forall|a: u64, b: u64| score.requires((a, b)),
            scored_non_voice(seg_views(out@), emitted, *score),
            nv_pieces(start, end, max_ms, min_ms as int) == emitted + (if done { Seq::empty() } else { nv_pieces(cursor, end, max_ms, min_ms as int) }),
        decreases end - cursor, (if done { 0int } else { 1int }),
    {
        if end - cursor <= max_ms {
            push_nv(&mut out, cursor, end, min_ms, score, Ghost(emitted));
            proof {
                assert(nv_pieces(cursor, end, max_ms, min_ms as int) == nv_span(cursor, end, min_ms as int));
                assert(emitted + nv_span(cursor, end, min_ms as int) + Seq::<(u64, u64)>::empty() =~= emitted + nv_span(cursor, end, min_ms as int));
                emitted = emitted + nv_span(cursor, end, min_ms as int);
            }
            done = true;
        } else {
            let split_end = cursor + max_ms;
            push_nv(&mut out, cursor, split_end, min_ms, score, Ghost(emitted));
            proof {
                assert(nv_pieces(cursor, end, max_ms, min_ms as int) == nv_span(cursor, split_end, min_ms as int) + nv_pieces(split_end, end, max_ms, min_ms as int));
                assert(emitted + (nv_span(cursor, split_end, min_ms as int) + nv_pieces(split_end, end, max_ms, min_ms as int))
                    =~= (emitted + nv_span(cursor, split_end, min_ms as int)) + nv_pieces(split_end, end, max_ms, min_ms as int));
                emitted = emitted + nv_span(cursor, split_end, min_ms as int);
            }
            cursor = split_end;
        }
    }
    proof {
        if !done {
            assert(nv_pieces(cursor, end, max_ms, min_ms as int) =~= Seq::<(u64, u64)>::empty());
        }
        assert(emitted + Seq::<(u64, u64)>::empty() =~= emitted);
    }
    out
}

/// An entry of a split plan lasting at most `max_ms`: a kept segment no
/// longer than that, or a non-empty piece no longer than that.
pub open spec fn item_within(it: SplitItem, max_ms: u64) -> bool {
    match it {
        SplitItem::Keep(v) => sat_sub(v.end_ms, v.start_ms) <= max_ms,
        SplitItem::Piece(a, b) => a < b && b - a <= max_ms,
    }
}

proof fn lemma_pieces_within(cursor: u64, end: u64, max_ms: u64, min_ms: int)
    requires
        max_ms > 0,
    ensures
        forall|k: int|
            0 <= k < nv_pieces(cursor, end, max_ms, min_ms).len() ==> {
                let p = #[trigger] nv_pieces(cursor, end, max_ms, min_ms)[k];
                &&& cursor <= p.0 < p.1 <= end
                &&& p.1 - p.0 <= max_ms
            },
    decreases end - cursor,
{
    if cursor < end && end - cursor > max_ms {
        let next = (cursor + max_ms) as u64;
        lemma_pieces_within(next, end, max_ms, min_ms);
        let first = nv_span(cursor, next, min_ms);
        let rest = nv_pieces(next, end, max_ms, min_ms);
        assert forall|k: int| 0 <= k < (first + rest).len() implies {
            let p = #[trigger] (first + rest)[k];
            &&& cursor <= p.0 < p.1 <= end
            &&& p.1 - p.0 <= max_ms
        } by {
            if k >= first.len() {
                assert((first + rest)[k] == rest[k - first.len()]);
            }
        }
    }
}

/// A split never leaves anything longer than the limit: segments up to
/// `max_ms` are kept, longer ones become pieces of at most `max_ms` inside
/// them.
pub proof fn lemma_split_respects_max(s: Seq<SegmentView>, max_ms: u64, min_ms: int)
    requires
        max_ms > 0,
    ensures
        forall|k: int|
            0 <= k < split_plan(s, max_ms, min_ms).len() ==> item_within(
                #[trigger] split_plan(s, max_ms, min_ms)[k],
                max_ms,
            ),
    decreases s.len(),
{
    if s.len() > 0 {
        lemma_split_respects_max(s.drop_last(), max_ms, min_ms);
        let before = split_plan(s.drop_last(), max_ms, min_ms);
        let x = s.last();
        let items = split_items(x, max_ms, min_ms);
        if sat_sub(x.end_ms, x.start_ms) > max_ms {
            lemma_pieces_within(x.start_ms, x.end_ms, max_ms, min_ms);
        }
        assert forall|k: int| 0 <= k < (before + items).len() implies item_within(
            #[trigger] (before + items)[k],
            max_ms,
        ) by {
            if k >= before.len() {
                assert((before + items)[k] == items[k - before.len()]);
            }
        }
    }
}

/// Cuts non-voice segments longer than `max_non_voice_ms` into consecutive pieces
/// of at most that length (dropping pieces shorter than `min_non_voice_ms`);
/// shorter segments are kept as they are.
pub fn split_long_segments<F: Fn(u64, u64) -> u32>(
    segments: Vec<Segment>,
    max_non_voice_ms: u32,
    min_non_voice_ms: u32,
    score: &F,
) -> (out: Vec<Segment>)
    requires
        max_non_voice_ms > 0,
        forall|a: u64, b: u64| score.requires((a, b)),
    ensures
        realizes(seg_views(out@), split_plan(seg_views(segments@), max_non_voice_ms as u64, min_non_voice_ms as int), *score),
        forall|k: int| 0 <= k < out@.len() ==> sat_sub((#[trigger] out@[k]).end_ms, out@[k].start_ms) <= max_non_voice_ms,
{
    let ghost sv = seg_views(segments@);
    let max = max_non_voice_ms as u64;
    let mut out: Vec<Segment> = Vec::new();
    let mut i: usize = 0;
    while i < segments.len()
        invariant
            i <= segments.len(),
            sv == seg_views(segments@),
            max == max_non_voice_ms as u64,
            max > 0,
            forall|a: u64, b: u64| score.requires((a, b)),
            realizes(seg_views(out@), split_plan(sv.take(i as int), max, min_non_voice_ms as int), *score),
        decreases segments.len() - i,
    {
        let seg = &segments[i];
        proof {
            assert(sv.take(i + 1).drop_last() =~= sv.take(i as int));
            assert(sv.take(i + 1).last() == seg@);
        }
        let ghost before = seg_views(out@);
        let ghost plan0 = split_plan(sv.take(i as int), max, min_non_voice_ms as int);
        let duration_ms = if seg.end_ms > seg.start_ms { seg.end_ms - seg.start_ms } else { 0 };
        if duration_ms <= max {
            let x = seg.duplicate();
            let ghost xv = x@;
            push_segment(&mut out, x);
            proof {
                assert(realizes(seq![xv], split_items(seg@, max, min_non_voice_ms as int), *score)) by {
                    assert(split_items(seg@, max, min_non_voice_ms as int)[0] == SplitItem::Keep(xv));
                }
                lemma_realizes_append(before, plan0, seq![xv], split_items(seg@, max, min_non_voice_ms as int), *score);
                assert(before + seq![xv] =~= before.push(xv));
            }
        } else {
            let mut pieces = push_pieces(seg.start_ms, seg.end_ms, max, min_non_voice_ms, score);
            let ghost pv = seg_views(pieces@);
            proof {
                lemma_scored_realizes(pv, nv_pieces(seg.start_ms, seg.end_ms, max, min_non_voice_ms as int), *score);
                lemma_realizes_append(before, plan0, pv, split_items(seg@, max, min_non_voice_ms as int), *score);
            }
            append_segments(&mut out, &mut pieces);
        }
        i += 1;
    }
    assert(sv.take(segments.len() as int) =~= sv);
    proof {
        let plan = split_plan(sv, max, min_non_voice_ms as int);
        lemma_split_respects_max(sv, max, min_non_voice_ms as int);
        assert forall|k: int| 0 <= k < out@.len() implies sat_sub((#[trigger] out@[k]).end_ms, out@[k].start_ms)
            <= max_non_voice_ms by {
            assert(item_within(plan[k], max));
            assert(seg_views(out@)[k] == out@[k]@);
        }
    }
    out
}

/// Moves the segments of `extra` to the end of `v`.
fn append_segments(v: &mut Vec<Segment>, extra: &mut Vec<Segment>)
    ensures
        seg_views(final(v)@) == seg_views(old(v)@) + seg_views(old(extra)@),
{
    let ghost a = seg_views(v@);
    let ghost b = seg_views(extra@);
    v.append(extra);
    assert(seg_views(v@) =~= a + b);
}

/// Consecutive segments of the same kind lie more than `gap` apart.
pub open spec fn kind_spaced(s: Seq<SegmentView>, gap: int) -> bool {
    forall|k: int|
        0 <= k < s.len() - 1 && (#[trigger] s[k + 1]).kind == s[k].kind ==> s[k + 1].start_ms > s[k].end_ms + gap
}

/// After merging close segments, consecutive segments of one kind lie more than
/// the merge gap apart, and there are no more segments than before.
pub proof fn lemma_merge_close_spaced(s: Seq<SegmentView>, gap: int)
    ensures
        kind_spaced(merge_close_spec(s, gap), gap),
        merge_close_spec(s, gap).len() <= s.len(),
    decreases s.len(),
{
    if s.len() > 0 {
        lemma_merge_close_spaced(s.drop_last(), gap);
        let acc = merge_close_spec(s.drop_last(), gap);
        let out = merge_close_spec(s, gap);
        assert forall|k: int|
            0 <= k < out.len() - 1 && (#[trigger] out[k + 1]).kind == out[k].kind implies out[k + 1].start_ms
            > out[k].end_ms + gap by {
            if k + 1 < acc.len() {
                assert(out[k] == acc[k]);
                assert(out[k + 1].start_ms == acc[k + 1].start_ms && out[k + 1].kind == acc[k + 1].kind);
                assert(acc[k + 1].kind == acc[k].kind ==> acc[k + 1].start_ms > acc[k].end_ms + gap);
            }
        }
    }
}

/// The time between segment `k` and the next one.
pub open spec fn gap_after(s: Seq<SegmentView>, k: int) -> int {
    sat_sub(s[k + 1].start_ms, s[k].end_ms)
}

/// Consecutive segments are at least `gap` apart.
pub open spec fn spaced(s: Seq<SegmentView>, gap: int) -> bool {
    forall|k: int| 0 <= k < s.len() - 1 ==> #[trigger] gap_after(s, k) >= gap
}

/// After joining by gap threshold, consecutive segments are at least the
/// threshold apart, and there are no more segments than before.
pub proof fn lemma_gap_join_spaced(s: Seq<SegmentView>, min_gap: int)
    ensures
        spaced(gap_join_spec(s, min_gap), min_gap),
        gap_join_spec(s, min_gap).len() <= s.len(),
    decreases s.len(),
{
    if s.len() > 0 {
        lemma_gap_join_spaced(s.drop_last(), min_gap);
        let acc = gap_join_spec(s.drop_last(), min_gap);
        let out = gap_join_spec(s, min_gap);
        assert forall|k: int| 0 <= k < out.len() - 1 implies #[trigger] gap_after(out, k) >= min_gap by {
            if k + 1 < acc.len() {
                assert(gap_after(acc, k) >= min_gap);
                assert(out[k] == acc[k]);
                assert(out[k + 1].start_ms == acc[k + 1].start_ms);
            }
        }
    }
}

/// The sparse merge leaves consecutive segments at least the threshold apart,
/// whatever the confidences are combined with.
pub proof fn lemma_sparse_spaced(s: Seq<SegmentView>, min_gap: int, f: spec_fn(u32, u32) -> u32)
    ensures
        spaced(sparse_spec(s, min_gap, f), min_gap),
        sparse_spec(s, min_gap, f).len() <= s.len(),
    decreases s.len(),
{
    if s.len() > 0 {
        lemma_sparse_spaced(s.drop_last(), min_gap, f);
        let acc = sparse_spec(s.drop_last(), min_gap, f);
        let out = sparse_spec(s, min_gap, f);
        assert forall|k: int| 0 <= k < out.len() - 1 implies #[trigger] gap_after(out, k) >= min_gap by {
            if k + 1 < acc.len() {
                assert(gap_after(acc, k) >= min_gap);
                assert(out[k] == acc[k]);
                assert(out[k + 1].start_ms == acc[k + 1].start_ms);
            }
        }
    }
}

/// After bridging, consecutive segments are more than the bridged gap apart.
pub proof fn lemma_bridge_spaced(s: Seq<SegmentView>, max_gap: int)
    ensures
        spaced(bridge_spec(s, max_gap), max_gap + 1),
        bridge_spec(s, max_gap).len() <= s.len(),
    decreases s.len(),
{
    if s.len() > 0 {
        lemma_bridge_spaced(s.drop_last(), max_gap);
        let acc = bridge_spec(s.drop_last(), max_gap);
        let out = bridge_spec(s, max_gap);
        assert forall|k: int| 0 <= k < out.len() - 1 implies #[trigger] gap_after(out, k) >= max_gap + 1 by {
            if k + 1 < acc.len() {
                assert(gap_after(acc, k) >= max_gap + 1);
                assert(out[k] == acc[k]);
                assert(out[k + 1].start_ms == acc[k + 1].start_ms);
            }
        }
    }
}

/// The larger of the two gaps that bound the `longest` and `sparse` strategies.
pub open spec fn policy_gap(options: MergeOptions) -> u64 {
    if options.min_gap_to_merge > options.min_silence_duration {
        options.min_gap_to_merge as u64
    } else {
        options.min_silence_duration as u64
    }
}

/// Applies the configured merge strategy to non-voice segments: `all` merges
/// everything into one segment, `longest` joins segments whose gap is below the
/// larger of the minimum gap and minimum silence, and `sparse` does the same
/// while collecting tags and averaging confidences.
pub fn apply_non_voice_merge_policy<G: Fn(Vec<u32>) -> u32, H: Fn(u32, u32) -> u32>(
    segments: &[Segment],
    options: &MergeOptions,
    mean: &G,
    combine: &H,
) -> (merged: Vec<Segment>)
    requires
        forall|v: Vec<u32>| mean.requires((v,)),
        forall|a: u32, b: u32| combine.requires((a, b)),
    ensures
        segments@.len() == 0 ==> merged@.len() == 0,
        options.merge_strategy == MergeStrategy::All && segments@.len() > 0 ==> merged@.len() == 1
            && merged@[0]@ == merge_all_view(seg_views(segments@), merged@[0].confidence)
            && forall|m: spec_fn(Seq<u32>) -> u32| #[trigger] computes_mean(*mean, m)
                ==> merged@[0].confidence == m(confidences(seg_views(segments@))),
        options.merge_strategy == MergeStrategy::Longest ==> seg_views(merged@) == gap_join_spec(seg_views(segments@), policy_gap(*options) as int),
        options.merge_strategy == MergeStrategy::Sparse ==> forall|f: spec_fn(u32, u32) -> u32| #[trigger] computes2(*combine, f)
            ==> seg_views(merged@) == sparse_spec(seg_views(segments@), policy_gap(*options) as int, f),
{
    if segments.len() == 0 {
        return Vec::new();
    }
    let gap: u64 = if options.min_gap_to_merge > options.min_silence_duration {
        options.min_gap_to_merge as u64
    } else {
        options.min_silence_duration as u64
    };
    match options.merge_strategy {
        MergeStrategy::All => merge_all_non_voice(segments, mean),
        MergeStrategy::Longest => merge_by_gap_threshold(segments, gap),
        MergeStrategy::Sparse => merge_sparse_non_voice(segments, gap, combine),
    }
}


/// The sparse merge loses, adds and reorders no tag: the tags of the merged
/// segments, read in order, are the tags of the input segments read in order.
pub proof fn lemma_sparse_keeps_tags(s: Seq<SegmentView>, min_gap: int, f: spec_fn(u32, u32) -> u32)
    ensures
        all_tags(sparse_spec(s, min_gap, f)) == all_tags(s),
    decreases s.len(),
{
    if s.len() > 0 {
        lemma_sparse_keeps_tags(s.drop_last(), min_gap, f);
        let acc = sparse_spec(s.drop_last(), min_gap, f);
        let x = s.last();
        let out = sparse_spec(s, min_gap, f);
        if acc.len() > 0 && sat_sub(x.start_ms, acc.last().end_ms) < min_gap {
            let l = acc.last();
            assert(out.drop_last() =~= acc.drop_last());
            assert(out.last().tags == l.tags + x.tags);
            assert(acc.drop_last().push(l) =~= acc);
            assert(all_tags(acc) == all_tags(acc.drop_last()) + l.tags);
            assert(all_tags(out) =~= all_tags(acc.drop_last()) + (l.tags + x.tags));
            assert(all_tags(out) =~= all_tags(acc) + x.tags);
        } else {
            assert(out.drop_last() =~= acc);
        }
    } else {
        assert(sparse_spec(s, min_gap, f) =~= s);
    }
}

} // verus!
