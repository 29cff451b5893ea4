//! Speech decisions from three-way frame states: speech, clearly not speech
//! (music-like or noise-like), or ambiguous.  Ambiguous frames join speech
//! that surrounds them or that ended within the hangover; clear non-speech
//! frames are never speech.
use vstd::prelude::*;
use crate::segmenter::{smooth_speech, smoothed_frame};

verus! {

#[derive(Debug, Clone, Copy, PartialEq, Eq, Structural)]
pub enum FrameState {
    Speech,
    MusicLike,
    NoiseLike,
    Ambiguous,
}

pub open spec fn hard_non_speech(s: FrameState) -> bool {
    s == FrameState::MusicLike || s == FrameState::NoiseLike
}

/// A speech frame lies at most `hang` frames before frame `i`.
pub open spec fn near_speech(states: Seq<FrameState>, hang: int, i: int) -> bool {
    exists|j: int| 0 <= j < i && states[j] == FrameState::Speech && i - j <= hang
}

/// The speech decision of frame `i` before smoothing: speech frames are speech;
/// an ambiguous frame is speech between a speech decision on its left and a
/// speech frame on its right, or close after a speech frame.
pub open spec fn pre_speech(states: Seq<FrameState>, hang: int, i: int) -> bool
    decreases i,
{
    if i < 0 || i >= states.len() {
        false
    } else {
        match states[i] {
            FrameState::Speech => true,
            FrameState::Ambiguous => (i > 0 && pre_speech(states, hang, i - 1) && i + 1 < states.len()
                && states[i + 1] == FrameState::Speech) || near_speech(states, hang, i),
            _ => false,
        }
    }
}

pub open spec fn pre_speech_seq(states: Seq<FrameState>, hang: int) -> Seq<bool> {
    Seq::new(states.len(), |i: int| pre_speech(states, hang, i))
}

/// Resolves frame states to speech decisions: ambiguous frames are decided as
/// above, the decisions are smoothed as `smooth_speech` does, and music-like or
/// noise-like frames end as non-speech whatever the smoothing did.
pub fn smooth_states(states: &[FrameState], frame_ms: u32, hangover_ms: u32) -> (out: Vec<bool>)
    requires
        frame_ms > 0,
    ensures
        out@.len() == states@.len(),
        forall|i: int|
            0 <= i < states@.len() ==> out@[i] == (smoothed_frame(
                pre_speech_seq(states@, (hangover_ms / frame_ms) as int),
                (hangover_ms / frame_ms) as int,
                i,
            ) && !hard_non_speech(states@[i])),
{
    let hang = (hangover_ms / frame_ms) as usize;
    let ghost h = (hangover_ms / frame_ms) as int;
    let mut pre: Vec<bool> = Vec::new();
    let mut last_speech: Option<usize> = None;
    let mut idx: usize = 0;
    while idx < states.len()
        invariant
            idx <= states.len(),
            hang as int == h,
            pre@.len() == idx,
            forall|k: int| 0 <= k < idx ==> pre@[k] == pre_speech(states@, h, k),
            match last_speech {
                Some(l) => l < idx && states@[l as int] == FrameState::Speech && forall|j: int|
                    l < j < idx ==> states@[j] != FrameState::Speech,
                None => forall|j: int| 0 <= j < idx ==> states@[j] != FrameState::Speech,
            },
        decreases states.len() - idx,
    {
        let st = states[idx];
        let v = match st {
            FrameState::Speech => true,
            FrameState::Ambiguous => {
                let left = idx > 0 && pre[idx - 1];
                let right = idx + 1 < states.len() && states[idx + 1] == FrameState::Speech;
                let near = match last_speech {
                    Some(l) => idx - l <= hang,
                    None => false,
                };
                proof {
                    match last_speech {
                        Some(l) => {
                            if near {
                                assert(states@[l as int] == FrameState::Speech && idx - l <= h);
                            } else {
                                assert forall|j: int| 0 <= j < idx && states@[j] == FrameState::Speech implies !(
                                idx - j <= h) by {
                                    assert(j <= l);
                                }
                            }
                        },
                        None => {},
                    }
                }
                (left && right) || near
            },
            _ => false,
        };
        assert(v == pre_speech(states@, h, idx as int));
        pre.push(v);
        if st == FrameState::Speech {
            last_speech = Some(idx);
        }
        idx += 1;
    }
    assert(pre@ =~= pre_speech_seq(states@, h));
    let mut smoothed = smooth_speech(&pre, frame_ms, hangover_ms);
    let mut k: usize = 0;
    while k < states.len()
        invariant
            k <= states.len(),
            smoothed@.len() == states@.len(),
            pre@ == pre_speech_seq(states@, h),
            h == (hangover_ms / frame_ms) as int,
            forall|i: int|
                0 <= i < k ==> smoothed@[i] == (smoothed_frame(pre@, h, i) && !hard_non_speech(states@[i])),
            forall|i: int| k <= i < states@.len() ==> smoothed@[i] == smoothed_frame(pre@, h, i),
        decreases states.len() - k,
    {
        if states[k] == FrameState::MusicLike || states[k] == FrameState::NoiseLike {
            smoothed.set(k, false);
        }
        k += 1;
    }
    smoothed
}

} // verus!
