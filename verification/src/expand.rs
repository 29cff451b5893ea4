//! Widening non-voice segments over neighbouring frames.
//!
//! The per-frame questions ("is this frame ambiguous but leaning away from
//! speech", "is this frame strongly speech") are answered from the frame
//! likelihoods by the caller; these functions decide how far a segment grows.
use vstd::prelude::*;
use crate::segment::{Segment, SegmentView, seg_views, copy_segments};

verus! {

/// Frames a segment may not stop growing before the end of a recording.
pub const TAIL_NEAR_END_MS: u64 = 5_000;

/// Farthest a terminal segment grows to the left.
pub const MAX_LEFT_EXTENSION_MS: u64 = 70_000;

/// Consecutive strong-speech frames that stop the growth.
pub const STRONG_SPEECH_STOP_FRAMES: u64 = 40;

pub open spec fn frame_len(frame_ms: u32) -> int {
    if frame_ms == 0 {
        1
    } else {
        frame_ms as int
    }
}

/// Start frame after walking left over expandable frames, at most `max` steps.
pub open spec fn walk_back(exp: Seq<bool>, idx: int, max: Option<int>, steps: int) -> int
    decreases idx,
{
    if idx <= 0 || idx > exp.len() {
        idx
    } else if max is Some && steps >= max->0 {
        idx
    } else if !exp[idx - 1] {
        idx
    } else {
        walk_back(exp, idx - 1, max, steps + 1)
    }
}

/// End frame after walking right over expandable frames, at most `max` steps.
pub open spec fn walk_forward(exp: Seq<bool>, idx: int, max: Option<int>, steps: int) -> int
    decreases exp.len() - idx,
{
    if idx < 0 || idx >= exp.len() {
        idx
    } else if max is Some && steps >= max->0 {
        idx
    } else if !exp[idx] {
        idx
    } else {
        walk_forward(exp, idx + 1, max, steps + 1)
    }
}

/// The frame budget of a growth limit: `ceil(ms / frame)`, at least one.
pub open spec fn max_frames(max_expand_ms: Option<u64>, frame: int) -> Option<int> {
    match max_expand_ms {
        Some(ms) => Some(
            if (ms + frame - 1) / frame >= 1 {
                (ms + frame - 1) / frame
            } else {
                1
            },
        ),
        None => None,
    }
}

pub open spec fn ceil_div(a: int, b: int) -> int {
    (a + b - 1) / b
}

/// A segment grown over expandable frames on both sides, its bounds snapped to frames.
pub open spec fn expanded_view(v: SegmentView, exp: Seq<bool>, frame: int, max: Option<int>) -> SegmentView {
    SegmentView {
        start_ms: (walk_back(exp, v.start_ms as int / frame, max, 0) * frame) as u64,
        end_ms: (walk_forward(exp, ceil_div(v.end_ms as int, frame), max, 0) * frame) as u64,
        ..v
    }
}

/// Growing a segment never shrinks it: on inputs where the growth stays
/// inside the frames and inside `u64`, the grown segment starts no later and
/// ends no earlier than the segment did.
pub proof fn lemma_growth_never_shrinks(v: SegmentView, exp: Seq<bool>, frame_ms: u32, max: Option<int>)
    requires
        exp.len() * frame_len(frame_ms) <= u64::MAX,
        v.start_ms as int / frame_len(frame_ms) <= exp.len(),
        v.end_ms + frame_len(frame_ms) <= u64::MAX,
    ensures
        expanded_view(v, exp, frame_len(frame_ms), max).start_ms <= v.start_ms,
        expanded_view(v, exp, frame_len(frame_ms), max).end_ms >= v.end_ms,
{
    let frame = frame_len(frame_ms);
    let si = v.start_ms as int / frame;
    lemma_walk_back(exp, si, max, 0);
    let wb = walk_back(exp, si, max, 0);
    assert(si * frame <= v.start_ms) by (nonlinear_arith)
        requires
            si == v.start_ms as int / frame,
            frame >= 1,
    ;
    assert(0 <= wb * frame <= si * frame) by (nonlinear_arith)
        requires
            0 <= wb <= si,
            frame >= 1,
    ;
    let ei = ceil_div(v.end_ms as int, frame);
    assert(ei >= 0 && ei * frame >= v.end_ms && ei * frame <= v.end_ms + frame - 1) by (nonlinear_arith)
        requires
            ei == (v.end_ms as int + frame - 1) / frame,
            frame >= 1,
            v.end_ms >= 0,
    ;
    lemma_walk_forward(exp, ei, max, 0);
    let wf = walk_forward(exp, ei, max, 0);
    assert(ei * frame <= wf * frame) by (nonlinear_arith)
        requires
            ei <= wf,
            frame >= 1,
    ;
    if wf != ei {
        assert(wf * frame <= exp.len() * frame) by (nonlinear_arith)
            requires
                wf <= exp.len(),
                frame >= 1,
        ;
    }
}

/// Inputs on which the growth stays inside the frames and inside `u64`.
pub open spec fn expandable_inputs(s: Seq<SegmentView>, exp: Seq<bool>, frame_ms: u32, max_expand_ms: Option<u64>) -> bool {
    let frame = frame_len(frame_ms);
    &&& exp.len() * frame <= u64::MAX
    &&& max_expand_ms matches Some(ms) ==> ms + frame - 1 <= u64::MAX
    &&& forall|k: int|
        0 <= k < s.len() ==> (#[trigger] s[k]).start_ms as int / frame <= exp.len() && s[k].end_ms + frame <= u64::MAX
}

proof fn lemma_walk_back(exp: Seq<bool>, idx: int, max: Option<int>, steps: int)
    requires
        0 <= idx <= exp.len(),
    ensures
        0 <= walk_back(exp, idx, max, steps) <= idx,
    decreases idx,
{
    if idx > 0 && !(max is Some && steps >= max->0) && exp[idx - 1] {
        lemma_walk_back(exp, idx - 1, max, steps + 1);
    }
}

proof fn lemma_walk_forward(exp: Seq<bool>, idx: int, max: Option<int>, steps: int)
    requires
        0 <= idx,
    ensures
        idx <= walk_forward(exp, idx, max, steps),
        walk_forward(exp, idx, max, steps) == idx || walk_forward(exp, idx, max, steps) <= exp.len(),
    decreases exp.len() - idx,
{
    if idx < exp.len() && !(max is Some && steps >= max->0) && exp[idx] {
        lemma_walk_forward(exp, idx + 1, max, steps + 1);
    }
}

fn expand_one(seg: &Segment, expandable: &[bool], frame: u64, max: Option<u64>) -> (r: Segment)
    requires
        frame >= 1,
        expandable@.len() * frame <= u64::MAX,
        seg.start_ms / frame <= expandable@.len(),
        seg.end_ms + frame <= u64::MAX,
    ensures
        r@ == expanded_view(
            seg@,
            expandable@,
            frame as int,
            match max {
                Some(m) => Some(m as int),
                None => None,
            },
        ),
{
    let ghost gmax: Option<int> = match max {
        Some(m) => Some(m as int),
        None => None,
    };
    let n = expandable.len() as u64;
    let mut start_idx: u64 = seg.start_ms / frame;
    let mut back: u64 = 0;
    let mut done = false;
    while start_idx > 0 && !done
        invariant
            frame >= 1,
            start_idx <= n,
            n == expandable@.len(),
            back + start_idx == seg.start_ms / frame,
            walk_back(expandable@, (seg.start_ms / frame) as int, gmax, 0) == walk_back(
                expandable@,
                start_idx as int,
                gmax,
                back as int,
            ),
            done ==> walk_back(expandable@, start_idx as int, gmax, back as int) == start_idx,
            gmax == match max {
                Some(m) => Some(m as int),
                None => None::<int>,
            },
        decreases start_idx, (if done { 0int } else { 1int }),
    {
        let limited = match max {
            Some(m) => back >= m,
            None => false,
        };
        if limited {
            done = true;
        } else {
            let idx = start_idx - 1;
            if !expandable[idx as usize] {
                done = true;
            } else {
                assert(back < seg.start_ms / frame);
                assert(seg.start_ms / frame <= seg.start_ms) by (nonlinear_arith)
                    requires
                        frame >= 1,
                ;
                start_idx = idx;
                back += 1;
            }
        }
    }
    let mut end_idx: u64 = seg.end_ms / frame + if seg.end_ms % frame == 0 { 0 } else { 1 };
    assert(end_idx == ceil_div(seg.end_ms as int, frame as int)) by (nonlinear_arith)
        requires
            frame >= 1,
            end_idx == seg.end_ms / frame + if seg.end_ms % frame == 0 { 0int } else { 1int },
    ;
    let ghost e0 = end_idx;
    let mut fwd: u64 = 0;
    let mut done = false;
    while end_idx < n && !done
        invariant
            n == expandable@.len(),
            e0 <= end_idx,
            fwd <= end_idx - e0,
            walk_forward(expandable@, e0 as int, gmax, 0) == walk_forward(
                expandable@,
                end_idx as int,
                gmax,
                fwd as int,
            ),
            done ==> walk_forward(expandable@, end_idx as int, gmax, fwd as int) == end_idx,
            gmax == match max {
                Some(m) => Some(m as int),
                None => None::<int>,
            },
        decreases n - end_idx, (if done { 0int } else { 1int }),
    {
        let limited = match max {
            Some(m) => fwd >= m,
            None => false,
        };
        if limited {
            done = true;
        } else if !expandable[end_idx as usize] {
            done = true;
        } else {
            end_idx += 1;
            fwd += 1;
        }
    }
    proof {
        lemma_walk_back(expandable@, (seg.start_ms / frame) as int, gmax, 0);
        lemma_walk_forward(expandable@, e0 as int, gmax, 0);
        assert(start_idx * frame <= seg.start_ms) by (nonlinear_arith)
            requires
                start_idx <= seg.start_ms / frame,
                frame >= 1,
        ;
        if end_idx == e0 {
            assert(e0 * frame <= seg.end_ms + frame) by (nonlinear_arith)
                requires
                    e0 == ceil_div(seg.end_ms as int, frame as int),
                    frame >= 1,
            ;
        } else {
            assert(end_idx * frame <= n * frame) by (nonlinear_arith)
                requires
                    end_idx <= n,
            ;
        }
    }
    let mut r = seg.duplicate();
    r.start_ms = start_idx * frame;
    r.end_ms = end_idx * frame;
    r
}

/// Grows each non-voice segment into the expandable frames next to it (frames
/// whose likelihood is ambiguous but below the speech guard), at most the
/// given time on each side, and snaps its bounds to frame boundaries.
pub fn expand_non_voice_segments_into_ambiguous(
    segments: &[Segment],
    expandable: &[bool],
    frame_ms: u32,
    max_expand_ms: Option<u64>,
) -> (out: Vec<Segment>)
    requires
        segments@.len() > 0 && expandable@.len() > 0 ==> expandable_inputs(
            seg_views(segments@),
            expandable@,
            frame_ms,
            max_expand_ms,
        ),
    ensures
        segments@.len() == 0 || expandable@.len() == 0 ==> seg_views(out@) == seg_views(segments@),
        segments@.len() > 0 && expandable@.len() > 0 ==> seg_views(out@) == seg_views(segments@).map_values(
            |v: SegmentView|
                expanded_view(v, expandable@, frame_len(frame_ms), max_frames(max_expand_ms, frame_len(frame_ms))),
        ),
{
    if segments.len() == 0 || expandable.len() == 0 {
        return copy_segments(segments);
    }
    let frame: u64 = if frame_ms == 0 {
        1
    } else {
        frame_ms as u64
    };
    let max: Option<u64> = match max_expand_ms {
        Some(ms) => {
            let f = (ms + (frame - 1)) / frame;
            Some(
                if f >= 1 {
                    f
                } else {
                    1
                },
            )
        },
        None => None,
    };
    let ghost sv = seg_views(segments@);
    let ghost gmax = max_frames(max_expand_ms, frame_len(frame_ms));
    assert(gmax == match max {
        Some(m) => Some(m as int),
        None => None::<int>,
    });
    let mut out: Vec<Segment> = Vec::new();
    let mut i: usize = 0;
    while i < segments.len()
        invariant
            i <= segments.len(),
            sv == seg_views(segments@),
            frame as int == frame_len(frame_ms),
            gmax == match max {
                Some(m) => Some(m as int),
                None => None::<int>,
            },
            expandable_inputs(sv, expandable@, frame_ms, max_expand_ms),
            out@.len() == i,
            forall|k: int|
                0 <= k < i ==> (#[trigger] out@[k])@ == expanded_view(sv[k], expandable@, frame as int, gmax),
        decreases segments.len() - i,
    {
        assert(sv[i as int] == segments@[i as int]@);
        let r = expand_one(&segments[i], expandable, frame, max);
        out.push(r);
        i += 1;
    }
    assert(seg_views(out@) =~= sv.map_values(
        |v: SegmentView| expanded_view(v, expandable@, frame_len(frame_ms), gmax),
    ));
    out
}

/// Start frame of a terminal segment after walking left: frames past the end
/// of the list count as strong speech; the walk stops after `max` frames, or on
/// the last of a run of strong-speech frames that reaches the stop length
/// (that frame is not taken).
pub open spec fn tail_walk(strong: Seq<bool>, idx: int, extended: int, run: int, max: int) -> int
    decreases idx,
{
    if idx <= 0 || extended >= max {
        idx
    } else {
        let st = if idx - 1 < strong.len() {
            strong[idx - 1]
        } else {
            true
        };
        if st {
            if run + 1 >= STRONG_SPEECH_STOP_FRAMES {
                idx
            } else {
                tail_walk(strong, idx - 1, extended + 1, run + 1, max)
            }
        } else {
            tail_walk(strong, idx - 1, extended + 1, 0, max)
        }
    }
}

/// The segment list after tail recovery.
pub open spec fn tail_spec(s: Seq<SegmentView>, strong: Seq<bool>, frame_ms: u32, total_ms: u64) -> Seq<SegmentView> {
    let frame = frame_len(frame_ms);
    if s.len() != 1 || strong.len() == 0 || total_ms - s[0].end_ms > TAIL_NEAR_END_MS {
        s
    } else {
        seq![
            SegmentView {
                start_ms: (tail_walk(strong, s[0].start_ms as int / frame, 0, 0, MAX_LEFT_EXTENSION_MS as int / frame) * frame) as u64,
                ..s[0]
            },
        ]
    }
}

proof fn lemma_tail_walk(strong: Seq<bool>, idx: int, extended: int, run: int, max: int)
    requires
        0 <= idx,
    ensures
        0 <= tail_walk(strong, idx, extended, run, max) <= idx,
    decreases idx,
{
    if idx > 0 && extended < max {
        let st = if idx - 1 < strong.len() {
            strong[idx - 1]
        } else {
            true
        };
        if st {
            if run + 1 < STRONG_SPEECH_STOP_FRAMES {
                lemma_tail_walk(strong, idx - 1, extended + 1, run + 1, max);
            }
        } else {
            lemma_tail_walk(strong, idx - 1, extended + 1, 0, max);
        }
    }
}

/// When the timeline is a single non-voice segment that ends within five
/// seconds of the end of the recording, grows it to the left over up to seventy
/// seconds of frames, stopping at a long run of strong-speech frames.
pub fn extend_terminal_non_voice_segment(
    segments: &[Segment],
    strong_speech: &[bool],
    frame_ms: u32,
    total_ms: u64,
) -> (out: Vec<Segment>)
    ensures
        seg_views(out@) == tail_spec(seg_views(segments@), strong_speech@, frame_ms, total_ms),
{
    let ghost sv = seg_views(segments@);
    if segments.len() != 1 || strong_speech.len() == 0 {
        return copy_segments(segments);
    }
    let segment = &segments[0];
    assert(sv[0] == segment@);
    let tail_gap = if total_ms > segment.end_ms {
        total_ms - segment.end_ms
    } else {
        0
    };
    if tail_gap > TAIL_NEAR_END_MS {
        return copy_segments(segments);
    }
    let frame: u64 = if frame_ms == 0 {
        1
    } else {
        frame_ms as u64
    };
    let max_extend = MAX_LEFT_EXTENSION_MS / frame;
    let mut start_idx: u64 = segment.start_ms / frame;
    let mut extended: u64 = 0;
    let mut run: u64 = 0;
    let ghost s0 = start_idx;
    let mut done = false;
    while start_idx > 0 && extended < max_extend && !done
        invariant
            run < STRONG_SPEECH_STOP_FRAMES,
            tail_walk(strong_speech@, s0 as int, 0, 0, max_extend as int) == (if done {
                start_idx as int
            } else {
                tail_walk(strong_speech@, start_idx as int, extended as int, run as int, max_extend as int)
            }),
            extended <= max_extend,
            start_idx <= s0,
        decreases start_idx, (if done { 0int } else { 1int }),
    {
        let idx = start_idx - 1;
        let strong = if idx < (strong_speech.len() as u64) {
            strong_speech[idx as usize]
        } else {
            true
        };
        if strong && run + 1 >= STRONG_SPEECH_STOP_FRAMES {
            done = true;
        } else {
            if strong {
                run += 1;
            } else {
                run = 0;
            }
            start_idx = idx;
            extended += 1;
        }
    }
    proof {
        lemma_tail_walk(strong_speech@, s0 as int, 0, 0, max_extend as int);
        assert(start_idx * frame <= segment.start_ms) by (nonlinear_arith)
            requires
                start_idx <= segment.start_ms / frame,
                frame >= 1,
        ;
    }
    let mut updated = segment.duplicate();
    updated.start_ms = start_idx * frame;
    let mut out: Vec<Segment> = Vec::new();
    out.push(updated);
    assert(seg_views(out@) =~= tail_spec(sv, strong_speech@, frame_ms, total_ms));
    out
}

} // verus!
