use timeline::config::{MergeOptions, MergeStrategy};
use timeline::evidence::filter_implausible_speech_segments;
use timeline::expand::{expand_non_voice_segments_into_ambiguous, extend_terminal_non_voice_segment};
use timeline::segment::{Segment, SegmentKind};
use timeline::segmenter::{
    apply_non_voice_merge_policy, bridge_non_voice_segments, bridge_residual_non_voice_gaps,
    invert_to_non_voice, merge_close_segments, prune_short_speech_segments, smooth_speech,
    speech_segments, split_long_segments,
};
use timeline::tri_state::{smooth_states, FrameState};

fn seg(start_ms: u64, end_ms: u64, kind: SegmentKind, confidence: f32) -> Segment {
    Segment {
        start_ms,
        end_ms,
        kind,
        confidence: confidence.to_bits(),
        tags: vec![],
        prompt: None,
    }
}

fn fake_speech(start_ms: u64, end_ms: u64) -> Segment {
    seg(start_ms, end_ms, SegmentKind::Speech, 0.8)
}

fn mean_bits(v: Vec<u32>) -> u32 {
    let sum: f32 = v.iter().map(|b| f32::from_bits(*b)).sum();
    (sum / v.len().max(1) as f32).to_bits()
}

fn average_bits(a: u32, b: u32) -> u32 {
    ((f32::from_bits(a) + f32::from_bits(b)) / 2.0).to_bits()
}

#[test]
fn merge_gap_works() {
    let speech = vec![fake_speech(0, 200), fake_speech(300, 500)];
    let merged = merge_close_segments(&speech, 120);
    assert_eq!(merged.len(), 1);
}

#[test]
fn prune_short_low_confidence_speech_segments() {
    let short_low = seg(100, 260, SegmentKind::Speech, 0.55);
    let short_high = seg(300, 450, SegmentKind::Speech, 0.9);
    let long = fake_speech(600, 1200);
    let pruned = prune_short_speech_segments(&[short_low, short_high, long], 300);
    assert_eq!(pruned.len(), 2);
    assert_eq!(pruned[0].start_ms, 300);
    assert_eq!(pruned[1].start_ms, 600);
}

#[test]
fn bridges_non_voice_across_short_speech_gap() {
    let nv = vec![
        seg(0, 2000, SegmentKind::NonVoice, 0.8),
        seg(2150, 4000, SegmentKind::NonVoice, 0.7),
    ];
    let bridged = bridge_non_voice_segments(&nv, 200);
    assert_eq!(bridged.len(), 1);
    assert_eq!(bridged[0].start_ms, 0);
    assert_eq!(bridged[0].end_ms, 4000);
}

#[test]
fn sparse_merge_policy_merges_close_non_voice_segments() {
    let opts = MergeOptions {
        min_gap_to_merge: 400,
        merge_strategy: MergeStrategy::Sparse,
        min_speech_duration: 500,
        min_silence_duration: 300,
        silence_threshold_db: -42,
    };
    let segments = vec![
        seg(0, 1000, SegmentKind::NonVoice, 0.8),
        seg(1200, 2000, SegmentKind::NonVoice, 0.6),
    ];
    let merged = apply_non_voice_merge_policy(&segments, &opts, &mean_bits, &average_bits);
    assert_eq!(merged.len(), 1);
    assert_eq!(merged[0].start_ms, 0);
    assert_eq!(merged[0].end_ms, 2000);
}

#[test]
fn residual_gap_bridge_merges_tiny_final_gap() {
    let segments = vec![
        seg(1000, 2000, SegmentKind::NonVoice, 0.8),
        seg(3500, 5000, SegmentKind::NonVoice, 0.7),
    ];
    let bridged = bridge_residual_non_voice_gaps(&segments);
    assert_eq!(bridged.len(), 1);
    assert_eq!(bridged[0].start_ms, 1000);
    assert_eq!(bridged[0].end_ms, 5000);
}

#[test]
fn residual_gap_bridge_keeps_gap_above_limit() {
    let segments = vec![
        seg(0, 1000, SegmentKind::NonVoice, 0.8),
        seg(3501, 5000, SegmentKind::NonVoice, 0.7),
    ];
    let bridged = bridge_residual_non_voice_gaps(&segments);
    assert_eq!(bridged.len(), 2);
}

fn is_expandable(l: f32) -> bool {
    (0.35..0.65).contains(&l) && l < 0.52
}

#[test]
fn expands_into_adjacent_ambiguous_frames() {
    let segments = vec![seg(40, 80, SegmentKind::NonVoice, 0.8)];
    let likelihoods = [0.2f32, 0.4, 0.1, 0.5, 0.8];
    let expandable: Vec<bool> = likelihoods.iter().map(|l| is_expandable(*l)).collect();
    let expanded = expand_non_voice_segments_into_ambiguous(&segments, &expandable, 20, None);
    assert_eq!(expanded[0].start_ms, 20);
    assert_eq!(expanded[0].end_ms, 80);
}

#[test]
fn does_not_expand_into_speech_leaning_ambiguous_frames() {
    let segments = vec![seg(40, 80, SegmentKind::NonVoice, 0.8)];
    let likelihoods = [0.2f32, 0.6, 0.1, 0.58, 0.8];
    let expandable: Vec<bool> = likelihoods.iter().map(|l| is_expandable(*l)).collect();
    let expanded = expand_non_voice_segments_into_ambiguous(&segments, &expandable, 20, None);
    assert_eq!(expanded[0].start_ms, 40);
    assert_eq!(expanded[0].end_ms, 80);
}

#[test]
fn expansion_respects_step_limit() {
    let segments = vec![seg(100, 120, SegmentKind::NonVoice, 0.8)];
    let expandable = vec![true; 20];
    let expanded = expand_non_voice_segments_into_ambiguous(&segments, &expandable, 20, Some(30));
    assert_eq!(expanded[0].start_ms, 60);
    assert_eq!(expanded[0].end_ms, 160);
}

#[test]
fn extends_single_terminal_segment_left() {
    let segments = vec![seg(100_000, 120_000, SegmentKind::NonVoice, 0.8)];
    let strong = vec![0.4f32 > 0.82; 6000];
    let out = extend_terminal_non_voice_segment(&segments, &strong, 20, 120_000);
    assert!(out[0].start_ms < 100_000);
    assert_eq!(out[0].end_ms, 120_000);
    assert_eq!(out[0].start_ms, 30_000);
}

#[test]
fn terminal_extension_stops_at_strong_speech_run() {
    let segments = vec![seg(2_000, 3_000, SegmentKind::NonVoice, 0.8)];
    let mut strong = vec![false; 150];
    for s in strong.iter_mut().take(100).skip(40) {
        *s = true;
    }
    let out = extend_terminal_non_voice_segment(&segments, &strong, 20, 3_000);
    assert_eq!(out[0].start_ms, 61 * 20);
}

#[test]
fn terminal_extension_skips_segment_far_from_end() {
    let segments = vec![seg(2_000, 3_000, SegmentKind::NonVoice, 0.8)];
    let strong = vec![false; 150];
    let out = extend_terminal_non_voice_segment(&segments, &strong, 20, 9_000);
    assert_eq!(out[0].start_ms, 2_000);
}

#[test]
fn ambiguous_frames_bridge_neighboring_speech() {
    let states = [FrameState::Speech, FrameState::Ambiguous, FrameState::Speech];
    assert_eq!(smooth_states(&states, 20, 60), vec![true, true, true]);
}

#[test]
fn low_likelihood_frames_stay_non_voice() {
    let states = [FrameState::Speech, FrameState::NoiseLike, FrameState::NoiseLike];
    assert_eq!(smooth_states(&states, 20, 60), vec![true, false, false]);
}

#[test]
fn music_like_frame_stays_non_speech() {
    let states = [FrameState::Speech, FrameState::MusicLike, FrameState::Speech];
    assert_eq!(smooth_states(&states, 20, 60), vec![true, false, true]);
}

#[test]
fn smoothing_fills_hangover_and_drops_flicker() {
    let raw = [true, false, false, false, false, false, true, false, false, false];
    let out = smooth_speech(&raw, 20, 40);
    assert_eq!(out, vec![true, true, true, false, false, false, true, true, true, false]);
    let flicker = [false, true, false, false];
    assert_eq!(smooth_speech(&flicker, 20, 0), vec![false, false, false, false]);
}

#[test]
fn speech_segments_follow_runs() {
    let smoothed = [false, true, true, true, false, true, false];
    let segs = speech_segments(&smoothed, 20, 40, &|_a: usize, _b: usize| 0.75f32.to_bits());
    assert_eq!(segs.len(), 1);
    assert_eq!(segs[0].start_ms, 20);
    assert_eq!(segs[0].end_ms, 80);
    assert_eq!(segs[0].kind, SegmentKind::Speech);
}

#[test]
fn inversion_covers_gaps_between_speech() {
    let speech = vec![fake_speech(1000, 2000), fake_speech(5000, 6000)];
    let nv = invert_to_non_voice(&speech, 10_000, 1500, &|_a: u64, _b: u64| 0.5f32.to_bits());
    let spans: Vec<(u64, u64)> = nv.iter().map(|s| (s.start_ms, s.end_ms)).collect();
    assert_eq!(spans, vec![(2000, 5000), (6000, 10_000)]);
    assert!(nv.iter().all(|s| s.kind == SegmentKind::NonVoice));
}

#[test]
fn long_segments_are_split() {
    let nv = vec![seg(0, 25_000, SegmentKind::NonVoice, 0.8)];
    let out = split_long_segments(nv, 10_000, 1_000, &|_a: u64, _b: u64| 0.5f32.to_bits());
    let spans: Vec<(u64, u64)> = out.iter().map(|s| (s.start_ms, s.end_ms)).collect();
    assert_eq!(spans, vec![(0, 10_000), (10_000, 20_000), (20_000, 25_000)]);
}

#[test]
fn filters_low_confidence_non_speech_like_segments() {
    let segments = vec![
        seg(0, 400, SegmentKind::Speech, 0.6),
        seg(1000, 2000, SegmentKind::Speech, 0.8),
    ];
    let implausible = vec![true, false];
    let kept = filter_implausible_speech_segments(&segments, &implausible);
    assert_eq!(kept.len(), 1);
    assert_eq!(kept[0].start_ms, 1000);
}

#[test]
fn confident_speech_is_never_reviewed() {
    let segments = vec![seg(0, 400, SegmentKind::Speech, 0.95)];
    let kept = filter_implausible_speech_segments(&segments, &[true]);
    assert_eq!(kept.len(), 1);
}
