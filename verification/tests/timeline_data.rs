use timeline::compare::score_counts;
use timeline::config::{
    default_true, is_known_vad_engine, validate_frame_settings, FrameSettings, FrameSettingsError,
    MergeOptions, MergeStrategy,
};
use timeline::dataset::{build_truth_from_manifest, parse_manifest, ManifestError};
use timeline::framing::{frame_count, frame_len, ms_to_len, next_power_of_2, total_audio_ms};
use timeline::handlers::{
    add_prompts, handle_ai_voice_extract, handle_merge_timeline, handle_prompt, handle_tag, map_tags,
    prompt_for_tags, TagEvidence,
};
use timeline::intervals::{interval_intersection_duration, merged_intervals, total_duration};
use timeline::learning::{default_version, recent_counts, RecommendationConfidence};
use timeline::review::review_segments;
use timeline::segment::{Segment, SegmentKind, TimelineOutput};
use timeline::verification::{
    filter_low_confidence_non_voice_segments, needs_verification, tally, verified_keys,
    VerificationStatus, FILTER_SEGMENT_CONFIDENCE_CEILING,
};

fn seg(start_ms: u64, end_ms: u64, kind: SegmentKind, confidence: f32, tags: &[&str]) -> Segment {
    Segment {
        start_ms,
        end_ms,
        kind,
        confidence: confidence.to_bits(),
        tags: tags.iter().map(|t| t.to_string()).collect(),
        prompt: None,
    }
}

fn timeline(segments: Vec<Segment>) -> TimelineOutput {
    TimelineOutput { file: "x".into(), analysis_sample_rate: 16000, frame_ms: 20, segments }
}

fn mean_bits(v: Vec<u32>) -> u32 {
    let sum: f32 = v.iter().map(|b| f32::from_bits(*b)).sum();
    (sum / v.len().max(1) as f32).to_bits()
}

fn average_bits(a: u32, b: u32) -> u32 {
    ((f32::from_bits(a) + f32::from_bits(b)) / 2.0).to_bits()
}

fn no_rules() -> TagEvidence {
    TagEvidence {
        ambience: false,
        music_bed: false,
        impact_heavy: false,
        machinery_like: false,
        crowd_like: false,
        nature_like: false,
        tonal: false,
        music_like: false,
        speech_like: false,
    }
}

#[test]
fn prompts_set_for_eligible_segments() {
    let mut t = timeline(vec![seg(0, 4000, SegmentKind::NonVoice, 0.9, &["ambience"])]);
    add_prompts(&mut t);
    assert_eq!(t.segments[0].prompt.clone().unwrap_or_default(), "No dialogue. Ambient environmental sound.");
}

#[test]
fn prompts_follow_limits_and_tags() {
    let mut low = seg(0, 4000, SegmentKind::NonVoice, 0.6, &["music_bed"]);
    low.prompt = Some("old".into());
    let t = timeline(vec![
        low,
        seg(5000, 6000, SegmentKind::NonVoice, 0.9, &[]),
        seg(7000, 12000, SegmentKind::NonVoice, 0.65, &["nature_like", "impact_heavy"]),
        seg(12000, 20000, SegmentKind::Speech, 0.9, &[]),
    ]);
    let t = handle_prompt(t, 2500, 0.65f32.to_bits());
    assert_eq!(t.segments[0].prompt, None);
    assert_eq!(t.segments[1].prompt, None);
    assert_eq!(t.segments[2].prompt.as_deref(), Some("No dialogue. Energetic impact-forward soundscape."));
    assert_eq!(t.segments[3].prompt, None);
    assert_eq!(
        prompt_for_tags(&vec!["music_bed".to_string()]),
        "No dialogue. Background music bed without spoken words."
    );
}

#[test]
fn tag_mapping_stable() {
    let rms = 0.0f32;
    let low = 0.2f32;
    let high = 0.0f32;
    let e = TagEvidence {
        ambience: rms < 0.012,
        music_bed: low > 0.25 && rms > 0.015,
        impact_heavy: false,
        machinery_like: false,
        crowd_like: false,
        nature_like: high < 0.1 && rms < 0.03,
        tonal: false,
        music_like: false,
        speech_like: false,
    };
    assert!(map_tags(&e).contains(&"ambience".to_string()));
}

#[test]
fn tags_are_sorted_and_default_to_ambience() {
    assert_eq!(map_tags(&no_rules()), vec!["ambience"]);
    let mut e = no_rules();
    e.tonal = true;
    e.crowd_like = true;
    e.music_like = true;
    e.music_bed = true;
    let tags = map_tags(&e);
    assert_eq!(tags, vec!["crowd_like", "music_bed", "music_like", "tonal"]);
    let mut sorted = tags.clone();
    sorted.sort();
    assert_eq!(tags, sorted);
}

#[test]
fn tagging_touches_only_non_voice() {
    let t = timeline(vec![
        seg(0, 1000, SegmentKind::Speech, 1.0, &["speech"]),
        seg(1000, 5000, SegmentKind::NonVoice, 0.8, &["old"]),
    ]);
    let mut e = no_rules();
    e.impact_heavy = true;
    let t = handle_tag(t, &[no_rules(), e]);
    assert_eq!(t.segments[0].tags, vec!["speech"]);
    assert_eq!(t.segments[1].tags, vec!["impact_heavy"]);
}

#[test]
fn ai_voice_extract_keeps_speech() {
    let t = timeline(vec![
        seg(0, 1000, SegmentKind::Speech, 1.0, &[]),
        seg(1000, 5000, SegmentKind::NonVoice, 0.8, &[]),
        seg(5000, 6000, SegmentKind::Speech, 1.0, &[]),
    ]);
    let out = handle_ai_voice_extract(t);
    assert_eq!(out.segments.len(), 2);
    assert!(out.segments.iter().all(|s| s.kind == SegmentKind::Speech));
    assert_eq!(out.file, "x");
}

#[test]
fn merge_timeline_with_verified_report() {
    let t = timeline(vec![
        seg(0, 1000, SegmentKind::NonVoice, 0.8, &["a"]),
        seg(1100, 2000, SegmentKind::NonVoice, 0.6, &["b"]),
        seg(2000, 3000, SegmentKind::Speech, 1.0, &[]),
        seg(9000, 9500, SegmentKind::NonVoice, 0.4, &["c"]),
    ]);
    let opts = MergeOptions {
        min_gap_to_merge: 400,
        merge_strategy: MergeStrategy::Longest,
        min_speech_duration: 250,
        min_silence_duration: 300,
        silence_threshold_db: -42,
    };
    let merged = handle_merge_timeline(&t, &opts, None, &mean_bits, &average_bits);
    let spans: Vec<(u64, u64)> = merged.segments.iter().map(|s| (s.start_ms, s.end_ms)).collect();
    assert_eq!(spans, vec![(0, 2000), (9000, 9500)]);
    let report = vec![
        (0u64, 1000u64, VerificationStatus::Verified),
        (1100, 2000, VerificationStatus::Suspicious),
        (9000, 9500, VerificationStatus::Verified),
    ];
    let all = MergeOptions { merge_strategy: MergeStrategy::All, ..opts };
    let merged = handle_merge_timeline(&t, &all, Some(&report), &mean_bits, &average_bits);
    assert_eq!(merged.segments.len(), 1);
    assert_eq!((merged.segments[0].start_ms, merged.segments[0].end_ms), (0, 9500));
    assert_eq!(merged.segments[0].tags, vec!["a", "c"]);
    assert!((f32::from_bits(merged.segments[0].confidence) - 0.6).abs() < 1e-6);
}

#[test]
fn verification_outcomes() {
    let s = [
        VerificationStatus::Verified,
        VerificationStatus::Suspicious,
        VerificationStatus::Inconclusive,
        VerificationStatus::Rejected,
        VerificationStatus::Verified,
    ];
    let t = tally(&s);
    assert_eq!((t.verified, t.suspicious, t.rejected), (2, 2, 1));
    let report = vec![(0u64, 10u64, VerificationStatus::Verified), (10, 20, VerificationStatus::Rejected)];
    assert_eq!(verified_keys(&report), vec![(0, 10)]);
    let segs = vec![
        seg(0, 10, SegmentKind::NonVoice, 0.5, &[]),
        seg(10, 20, SegmentKind::NonVoice, 0.9, &[]),
        seg(20, 30, SegmentKind::Speech, 0.1, &[]),
        seg(30, 40, SegmentKind::NonVoice, 0.55, &[]),
    ];
    assert!(needs_verification(&segs[0], FILTER_SEGMENT_CONFIDENCE_CEILING));
    assert!(!needs_verification(&segs[1], FILTER_SEGMENT_CONFIDENCE_CEILING));
    assert!(needs_verification(&segs[3], FILTER_SEGMENT_CONFIDENCE_CEILING));
    let kept = filter_low_confidence_non_voice_segments(
        &segs,
        FILTER_SEGMENT_CONFIDENCE_CEILING,
        &[false, false, false, true],
    );
    let spans: Vec<u64> = kept.iter().map(|s| s.start_ms).collect();
    assert_eq!(spans, vec![10, 20, 30]);
}

#[test]
fn manifest_rows_and_errors() {
    let text = "start_ms,end_ms\n1000,2000\n\n  5000 , 6000 ,extra\n";
    let speech = parse_manifest(text).unwrap();
    let spans: Vec<(u64, u64)> = speech.iter().map(|s| (s.start_ms, s.end_ms)).collect();
    assert_eq!(spans, vec![(1000, 2000), (5000, 6000)]);
    assert_eq!(parse_manifest("1000\n").unwrap_err(), ManifestError::TooFewColumns(1));
    assert_eq!(parse_manifest("1,2\nx,2\n").unwrap_err(), ManifestError::InvalidStart(2));
    assert_eq!(parse_manifest("1,2\n3,y\n").unwrap_err(), ManifestError::InvalidEnd(2));
    assert_eq!(ManifestError::InvalidEnd(2).message(), "invalid end_ms at line 2");
    assert_eq!(
        ManifestError::TooFewColumns(7).message(),
        "invalid manifest row at line 7: expected at least 2 columns"
    );
    let truth = build_truth_from_manifest(text, "movie.mkv", 16000, 20, 10_000, 500).unwrap();
    let nv: Vec<(u64, u64)> = truth.segments.iter().map(|s| (s.start_ms, s.end_ms)).collect();
    assert_eq!(nv, vec![(0, 1000), (2000, 5000), (6000, 10_000)]);
    assert!(truth.segments.iter().all(|s| s.confidence == 0.5f32.to_bits()));
    assert_eq!(truth.file, "movie.mkv");
}

#[test]
fn frame_count_is_stable() {
    let len = frame_len(16000, 20);
    assert_eq!(len, 320);
    assert_eq!(frame_count(3200, len), 10);
}

#[test]
fn frame_count_parallel_is_stable() {
    assert_eq!(frame_count(3200, frame_len(16000, 20)), 10);
    assert_eq!(frame_count(3201, 320), 11);
    assert_eq!(frame_count(3200, 0), 0);
}

#[test]
fn sizes() {
    assert_eq!(next_power_of_2(0), 1);
    assert_eq!(next_power_of_2(1), 1);
    assert_eq!(next_power_of_2(5), 8);
    assert_eq!(next_power_of_2(1024), 1024);
    assert_eq!(next_power_of_2(1025), 2048);
    assert_eq!(ms_to_len(1500), 24000);
    assert_eq!(total_audio_ms(48000, 16000), 3000);
    assert_eq!(default_version(), 1);
    assert!(default_true());
}

#[test]
fn recent_fp_rate_calculation() {
    let flags: Vec<bool> = (0..10).map(|i| i % 3 == 0).collect();
    let (n, fp) = recent_counts(&flags, 5);
    assert_eq!(n, 5);
    assert_eq!(fp, 2);
    assert_eq!(recent_counts(&flags, 50), (10, 4));
    assert_eq!(RecommendationConfidence::from_recent_false_positives(fp), RecommendationConfidence::Medium);
    assert_eq!(RecommendationConfidence::from_sample_size(20), RecommendationConfidence::High);
    assert_eq!(RecommendationConfidence::from_sample_size(4), RecommendationConfidence::Low);
}

fn frame_settings(min_non_voice_ms: u32, max_non_voice_ms: Option<u32>) -> FrameSettings {
    FrameSettings {
        sample_rate_hz: 16000,
        frame_ms: 20,
        speech_hangover_ms: 300,
        min_speech_ms: 120,
        min_non_voice_ms,
        max_non_voice_ms,
    }
}

#[test]
fn default_config_valid() {
    assert!(validate_frame_settings(&frame_settings(10000, None)).is_ok());
    assert!(is_known_vad_engine("energy"));
}

#[test]
fn hybrid_vad_engine_is_accepted() {
    assert!(is_known_vad_engine("hybrid"));
}

#[test]
fn min_non_voice_must_be_at_least_frame_ms() {
    assert_eq!(
        validate_frame_settings(&frame_settings(10, None)),
        Err(FrameSettingsError::MinNonVoiceBelowFrame)
    );
}

#[test]
fn max_non_voice_must_be_at_least_frame_ms() {
    assert_eq!(
        validate_frame_settings(&frame_settings(10000, Some(10))),
        Err(FrameSettingsError::MaxNonVoiceBelowFrame)
    );
}

#[test]
fn min_must_not_exceed_max() {
    assert_eq!(
        validate_frame_settings(&frame_settings(15000, Some(10000))),
        Err(FrameSettingsError::MinNonVoiceAboveMax)
    );
}

#[test]
fn invalid_vad_engine_is_rejected() {
    assert!(!is_known_vad_engine("bogus"));
}

#[test]
fn metrics_are_stable() {
    let pred = vec![
        seg(0, 1000, SegmentKind::Speech, 1.0, &[]),
        seg(1000, 3000, SegmentKind::NonVoice, 1.0, &[]),
    ];
    let truth = vec![
        seg(0, 1000, SegmentKind::Speech, 1.0, &[]),
        seg(1000, 3000, SegmentKind::NonVoice, 1.0, &[]),
    ];
    let c = score_counts(&pred, &truth, 100);
    assert_eq!(c.speech_matches.matched as usize, c.speech_matches.predicted);
    assert_eq!(c.non_voice_matches.matched as usize, c.non_voice_matches.expected);
    assert_eq!(c.non_voice_duration.overlap_ms, c.non_voice_duration.predicted_ms);
    assert_eq!(c.non_voice_duration.overlap_ms, c.non_voice_duration.expected_ms);
    assert_eq!(c.coverage.overlap_ms, 3000);
    assert_eq!(c.boundary_total_ms, 0);
}

#[test]
fn duration_metrics_handle_many_to_one_matches() {
    let pred = vec![
        seg(0, 1000, SegmentKind::NonVoice, 1.0, &[]),
        seg(1000, 2000, SegmentKind::NonVoice, 1.0, &[]),
        seg(2000, 3000, SegmentKind::NonVoice, 1.0, &[]),
    ];
    let truth = vec![seg(0, 3000, SegmentKind::NonVoice, 1.0, &[])];
    let c = score_counts(&pred, &truth, 100);
    assert_eq!(c.non_voice_matches.matched, 0);
    assert_eq!(c.non_voice_duration.overlap_ms, 3000);
    assert_eq!(c.non_voice_duration.predicted_ms, 3000);
    assert_eq!(c.non_voice_duration.expected_ms, 3000);
}

#[test]
fn intervals_merge_and_measure() {
    let m = merged_intervals(vec![(5, 10), (0, 3), (3, 4), (9, 12), (20, 20)]);
    assert_eq!(m, vec![(0, 4), (5, 12)]);
    assert_eq!(total_duration(&m), 11);
    assert_eq!(interval_intersection_duration(&m, &[(2, 6), (11, 30)]), 2 + 1 + 1);
}

#[test]
fn review_entries() {
    let t = timeline(vec![
        seg(0, 1000, SegmentKind::NonVoice, 0.5, &["a"]),
        seg(1000, 2000, SegmentKind::Speech, 1.0, &[]),
        seg(2000, 4000, SegmentKind::NonVoice, 1.0, &["b"]),
    ]);
    let statuses = vec![
        (2000u64, 4000u64, "suspicious".to_string()),
        (2000, 4000, "verified".to_string()),
    ];
    let list = review_segments(&t, &statuses, false, &mean_bits);
    assert_eq!(list.len(), 2);
    assert_eq!(list[1].index, 2);
    assert_eq!(list[0].verification_status, None);
    assert_eq!(list[1].verification_status.as_deref(), Some("verified"));
    let merged = review_segments(&t, &statuses, true, &mean_bits);
    assert_eq!(merged.len(), 1);
    assert_eq!((merged[0].start_ms, merged[0].end_ms, merged[0].duration_ms), (0, 4000, 4000));
    assert_eq!(merged[0].tags, vec!["a", "b"]);
    assert_eq!(merged[0].confidence, 0.75f32.to_bits());
}

#[test]
fn prompt_limits_come_from_the_configuration() {
    let t = timeline(vec![seg(0, 2000, SegmentKind::NonVoice, 0.7, &["ambience"])]);
    let strict = handle_prompt(timeline(vec![seg(0, 2000, SegmentKind::NonVoice, 0.7, &["ambience"])]), 2500, 0.65f32.to_bits());
    assert_eq!(strict.segments[0].prompt, None);
    let relaxed = handle_prompt(t, 1000, 0.5f32.to_bits());
    assert_eq!(relaxed.segments[0].prompt.as_deref(), Some("No dialogue. Ambient environmental sound."));
}
