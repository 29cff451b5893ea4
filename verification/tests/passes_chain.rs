use timeline::config::{MergeOptions, MergeStrategy};
use timeline::expand::{expand_non_voice_segments_into_ambiguous, extend_terminal_non_voice_segment};
use timeline::passes::{finish_non_voice, non_voice_from_speech, speech_from_states, PassSettings};
use timeline::segment::{Segment, SegmentKind};
use timeline::segmenter::{
    apply_non_voice_merge_policy, bridge_non_voice_segments, bridge_residual_non_voice_gaps, invert_to_non_voice,
};
use timeline::tri_state::FrameState;
use timeline::verification::{filter_low_confidence_non_voice_segments, FILTER_SEGMENT_CONFIDENCE_CEILING};

fn settings(max_non_voice_ms: Option<u32>, merge_options: Option<MergeOptions>) -> PassSettings {
    PassSettings {
        frame_ms: 20,
        speech_hangover_ms: 0,
        min_speech_ms: 100,
        merge_gap_ms: 100,
        min_non_voice_ms: 1000,
        max_non_voice_ms,
        merge_options,
    }
}

fn spans(v: &[Segment]) -> Vec<(u64, u64, SegmentKind, u32)> {
    v.iter().map(|s| (s.start_ms, s.end_ms, s.kind, s.confidence)).collect()
}

fn states() -> Vec<FrameState> {
    let mut s = vec![FrameState::NoiseLike; 10];
    s.extend(vec![FrameState::Speech; 50]);
    s.extend(vec![FrameState::NoiseLike; 100]);
    s.extend(vec![FrameState::Speech; 50]);
    s.extend(vec![FrameState::NoiseLike; 10]);
    s
}

fn speech(start_ms: u64, end_ms: u64) -> Segment {
    Segment { start_ms, end_ms, kind: SegmentKind::Speech, confidence: 0.9f32.to_bits(), tags: vec![], prompt: None }
}

fn mean(v: Vec<u32>) -> u32 {
    v.first().copied().unwrap_or(0)
}

fn first(a: u32, _b: u32) -> u32 {
    a
}

#[test]
fn speech_comes_from_runs_of_speech_frames() {
    let out = speech_from_states(&states(), &settings(None, None), &|_a: usize, _b: usize| 0.9f32.to_bits(), &|_a: u64, _b: u64| false);
    let c = 0.9f32.to_bits();
    assert_eq!(spans(&out), vec![(200, 1200, SegmentKind::Speech, c), (3200, 4200, SegmentKind::Speech, c)]);
}

#[test]
fn implausible_unconfident_speech_is_dropped() {
    let out = speech_from_states(&states(), &settings(None, None), &|_a: usize, _b: usize| 0.3f32.to_bits(), &|a: u64, _b: u64| a == 200);
    assert_eq!(out.iter().map(|s| (s.start_ms, s.end_ms)).collect::<Vec<_>>(), vec![(3200, 4200)]);
}

#[test]
fn non_voice_lies_between_speech() {
    let sp = vec![speech(200, 1200), speech(3200, 4200)];
    let c = 0.7f32.to_bits();
    let out = non_voice_from_speech(&sp, 10_000, &settings(None, None), &|_a: u64, _b: u64| c, &[], &mean, &first)
        .expect("fits");
    assert_eq!(spans(&out), vec![(1200, 3200, SegmentKind::NonVoice, c), (4200, 10_000, SegmentKind::NonVoice, c)]);
    let split = non_voice_from_speech(&sp, 10_000, &settings(Some(3000), None), &|_a: u64, _b: u64| c, &[], &mean, &first)
        .expect("fits");
    assert_eq!(
        split.iter().map(|s| (s.start_ms, s.end_ms)).collect::<Vec<_>>(),
        vec![(1200, 3200), (4200, 7200), (7200, 10_000)]
    );
}

#[test]
fn non_voice_chain_equals_its_passes() {
    let sp = vec![speech(200, 1200), speech(1500, 1700), speech(3200, 4200)];
    let opts = MergeOptions {
        min_gap_to_merge: 2000,
        merge_strategy: MergeStrategy::Longest,
        min_speech_duration: 400,
        min_silence_duration: 1000,
        silence_threshold_db: -40,
    };
    let score = |a: u64, b: u64| ((a + b) as u32) % 1000;
    let mut exp = vec![false; 500];
    exp[59] = true;
    let s = settings(None, Some(opts));
    let chained = non_voice_from_speech(&sp, 10_000, &s, &score, &exp, &mean, &first).expect("fits");
    let inv = invert_to_non_voice(&sp, 10_000, 1000, &score);
    let br = bridge_non_voice_segments(&inv, 400);
    let po = apply_non_voice_merge_policy(&br, &opts, &mean, &first);
    let by_hand = expand_non_voice_segments_into_ambiguous(&po, &exp, 20, None);
    assert_eq!(spans(&chained), spans(&by_hand));
}

#[test]
fn growth_outside_the_frames_is_refused() {
    let sp = vec![speech(200, 1200)];
    let r = non_voice_from_speech(&sp, 100_000, &settings(None, None), &|_a: u64, _b: u64| 0, &[false; 10], &mean, &first);
    assert!(r.is_none());
}

#[test]
fn finishing_equals_its_passes() {
    let low = 0.2f32.to_bits();
    let segs = vec![
        Segment { start_ms: 0, end_ms: 1000, kind: SegmentKind::NonVoice, confidence: low, tags: vec![], prompt: None },
        Segment { start_ms: 2000, end_ms: 4000, kind: SegmentKind::NonVoice, confidence: low, tags: vec![], prompt: None },
        Segment { start_ms: 5000, end_ms: 9000, kind: SegmentKind::NonVoice, confidence: low, tags: vec![], prompt: None },
    ];
    let keep = vec![true, false, true];
    let strong = vec![false; 500];
    let chained = finish_non_voice(&segs, &keep, &strong, 20, 10_000);
    let kept = filter_low_confidence_non_voice_segments(&segs, FILTER_SEGMENT_CONFIDENCE_CEILING, &keep);
    assert_eq!(kept.len(), 2);
    let by_hand = extend_terminal_non_voice_segment(&bridge_residual_non_voice_gaps(&kept), &strong, 20, 10_000);
    assert_eq!(spans(&chained), spans(&by_hand));
}

#[test]
fn non_voice_never_shorter_than_the_minimum() {
    let sp = vec![speech(200, 1200), speech(2000, 2100), speech(2500, 2600), speech(8000, 9000)];
    for strategy in [MergeStrategy::All, MergeStrategy::Longest, MergeStrategy::Sparse] {
        let opts = MergeOptions {
            min_gap_to_merge: 900,
            merge_strategy: strategy,
            min_speech_duration: 150,
            min_silence_duration: 1000,
            silence_threshold_db: -40,
        };
        let mut exp = vec![false; 1000];
        for e in exp.iter_mut().skip(100).take(20) {
            *e = true;
        }
        let out = non_voice_from_speech(&sp, 20_000, &settings(Some(4000), Some(opts)), &|_a: u64, _b: u64| 0, &exp, &mean, &first)
            .expect("fits");
        assert!(!out.is_empty());
        assert!(out.iter().all(|s| s.start_ms <= s.end_ms && s.end_ms - s.start_ms >= 1000), "{strategy:?}: {out:?}");
    }
}
