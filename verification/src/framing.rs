//! Sizes of the analysis: frame lengths, frame counts, recording length,
//! transform sizes, and the stage limits the merge options set.
use vstd::prelude::*;
use vstd::arithmetic::power2::{pow2, lemma_pow2_unfold};
use crate::config::MergeOptions;

verus! {

/// Sample rate of the synthetic fixtures.
pub const FIXTURE_SAMPLE_RATE: usize = 16_000;

/// Samples in one frame: `sample_rate * frame_ms / 1000`.
pub fn frame_len(sample_rate: u32, frame_ms: u32) -> (n: usize)
    requires
        sample_rate as int * frame_ms as int <= usize::MAX,
    ensures
        n == (sample_rate as int * frame_ms as int) / 1000,
{
    (sample_rate as usize * frame_ms as usize) / 1000
}

/// Frames cut from `samples` samples, the last one possibly short; none when
/// frames would be empty.
pub fn frame_count(samples: usize, frame_len: usize) -> (n: usize)
    ensures
        frame_len == 0 ==> n == 0,
        frame_len > 0 ==> n == (samples + frame_len - 1) / frame_len as int,
{
    if frame_len == 0 {
        return 0;
    }
    let whole = samples / frame_len;
    let n = if samples % frame_len == 0 {
        whole
    } else {
        assert(whole < usize::MAX) by (nonlinear_arith)
            requires
                frame_len > 0,
                whole == samples / frame_len,
                samples % frame_len != 0,
                samples <= usize::MAX,
        ;
        whole + 1
    };
    assert(n == (samples + frame_len - 1) / frame_len as int) by (nonlinear_arith)
        requires
            frame_len > 0,
            whole == samples / frame_len,
            n == whole + if samples % frame_len == 0 { 0int } else { 1int },
    ;
    n
}

/// Length of a recording in milliseconds: `samples * 1000 / sample_rate`.
pub fn total_audio_ms(samples: u64, sample_rate: u32) -> (ms: u64)
    requires
        sample_rate > 0,
        samples * 1000 <= u64::MAX,
    ensures
        ms == samples * 1000 / sample_rate as int,
{
    samples * 1000 / sample_rate as u64
}

/// Samples for `ms` milliseconds of a fixture.
pub fn ms_to_len(ms: usize) -> (n: usize)
    requires
        ms * FIXTURE_SAMPLE_RATE <= usize::MAX,
    ensures
        n == ms * FIXTURE_SAMPLE_RATE / 1000,
{
    ms * FIXTURE_SAMPLE_RATE / 1000
}

/// `p` is the least power of two that is at least `n` (and at least one).
pub open spec fn least_pow2_at_least(n: int, p: int) -> bool {
    exists|k: nat| #[trigger] pow2(k) == p && n <= p && (k == 0 || pow2((k - 1) as nat) < n)
}

/// The transform size for `n` samples: the least power of two not below it.
pub fn next_power_of_2(n: usize) -> (p: usize)
    requires
        n <= usize::MAX / 2 + 1,
    ensures
        least_pow2_at_least(n as int, p as int),
{
    let mut p: usize = 1;
    let ghost mut k: nat = 0;
    proof {
        vstd::arithmetic::power::lemma_pow0(2);
        vstd::arithmetic::power2::lemma_pow2(0);
    }
    while p < n
        invariant
            n <= usize::MAX / 2 + 1,
            p >= 1,
            p == pow2(k),
            k == 0 || pow2((k - 1) as nat) < n,
        decreases usize::MAX - p,
    {
        proof {
            lemma_pow2_unfold(k + 1);
        }
        p = p * 2;
        proof {
            k = k + 1;
        }
    }
    assert(pow2(k) == p && n <= p && (k == 0 || pow2((k - 1) as nat) < n));
    p
}

/// Shortest speech that survives pruning: the merge options' minimum speech
/// duration when there are options, else the analysis minimum.
pub fn prune_floor_ms(merge_options: &Option<MergeOptions>, min_speech_ms: u32) -> (ms: u32)
    ensures
        ms == match merge_options {
            Some(o) => o.min_speech_duration,
            None => min_speech_ms,
        },
{
    match merge_options {
        Some(o) => o.min_speech_duration,
        None => min_speech_ms,
    }
}

/// Longest speech that non-voice segments bridge: the merge options' minimum
/// speech duration, or nothing without options.
pub fn bridge_speech_ms(merge_options: &Option<MergeOptions>) -> (ms: u32)
    ensures
        ms == match merge_options {
            Some(o) => o.min_speech_duration,
            None => 0,
        },
{
    match merge_options {
        Some(o) => o.min_speech_duration,
        None => 0,
    }
}

} // verus!
