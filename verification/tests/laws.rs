use timeline::compare::score_counts;
use timeline::config::MergeStrategy;
use timeline::fmt::decimal_string;
use timeline::intervals::merged_intervals;
use timeline::learning::{count_corrections, RecommendationConfidence};
use timeline::segment::{score_at_least, score_less, score_smaller, Segment, SegmentKind};
use timeline::segmenter::{
    bridge_non_voice_segments, invert_to_non_voice, merge_by_gap_threshold, merge_close_segments,
    merge_sparse_non_voice, smooth_speech, split_long_segments,
};
use timeline::text::{parse_u64_chars, to_chars};
use timeline::verification::{needs_verification, tally, VerificationStatus};

fn nv(start_ms: u64, end_ms: u64) -> Segment {
    Segment {
        start_ms,
        end_ms,
        kind: SegmentKind::NonVoice,
        confidence: 0.5f32.to_bits(),
        tags: vec![],
        prompt: None,
    }
}

fn speech(start_ms: u64, end_ms: u64) -> Segment {
    Segment { kind: SegmentKind::Speech, ..nv(start_ms, end_ms) }
}

fn gaps(v: &[Segment]) -> Vec<u64> {
    v.windows(2).map(|w| w[1].start_ms.saturating_sub(w[0].end_ms)).collect()
}

#[test]
fn gap_join_leaves_segments_at_least_the_threshold_apart() {
    let input = vec![nv(0, 1000), nv(1200, 2000), nv(2100, 3000), nv(4000, 5000), nv(5100, 6000)];
    let out = merge_by_gap_threshold(&input, 500);
    assert!(out.len() <= input.len());
    assert!(gaps(&out).iter().all(|g| *g >= 500));
    let spans: Vec<(u64, u64)> = out.iter().map(|s| (s.start_ms, s.end_ms)).collect();
    assert_eq!(spans, vec![(0, 3000), (4000, 6000)]);
}

#[test]
fn sparse_merge_leaves_segments_at_least_the_threshold_apart() {
    let input = vec![nv(0, 1000), nv(1100, 2000), nv(5000, 6000), nv(6050, 7000)];
    let out = merge_sparse_non_voice(&input, 300, &|a: u32, _b: u32| a);
    assert!(out.len() <= input.len());
    assert!(gaps(&out).iter().all(|g| *g >= 300));
    assert_eq!(out.len(), 2);
}

#[test]
fn bridging_leaves_segments_more_than_the_bridge_apart() {
    let input = vec![nv(0, 1000), nv(1300, 2000), nv(2900, 4000), nv(4100, 5000)];
    let out = bridge_non_voice_segments(&input, 400);
    assert!(out.len() <= input.len());
    assert!(gaps(&out).iter().all(|g| *g > 400));
}

#[test]
fn close_speech_merge_leaves_same_kind_segments_apart() {
    let input = vec![speech(0, 200), speech(300, 500), speech(900, 1000), speech(1050, 1200)];
    let out = merge_close_segments(&input, 120);
    assert!(out.len() <= input.len());
    assert!(out.windows(2).all(|w| w[1].start_ms > w[0].end_ms + 120));
}

#[test]
fn merged_intervals_do_not_depend_on_order_or_repeats() {
    let a = merged_intervals(vec![(500, 900), (0, 100), (50, 300), (800, 1000)]);
    let b = merged_intervals(vec![(0, 300), (500, 1000), (0, 100), (600, 700)]);
    assert_eq!(a, b);
    assert_eq!(a, vec![(0, 300), (500, 1000)]);
    assert_eq!(merged_intervals(a.clone()), a);
}

#[test]
fn tally_counts_every_outcome_once() {
    let statuses = vec![
        VerificationStatus::Verified,
        VerificationStatus::Suspicious,
        VerificationStatus::Rejected,
        VerificationStatus::Verified,
        VerificationStatus::Inconclusive,
    ];
    let t = tally(&statuses);
    assert_eq!((t.verified, t.suspicious, t.rejected), (2, 2, 1));
    assert_eq!(t.verified + t.suspicious + t.rejected, statuses.len());
}

#[test]
fn strategy_names_read_back() {
    for s in [MergeStrategy::All, MergeStrategy::Longest, MergeStrategy::Sparse] {
        assert_eq!(MergeStrategy::from_name(&s.to_text()), Some(s));
    }
}

#[test]
fn more_false_positives_never_lower_confidence() {
    let levels: Vec<RecommendationConfidence> = (0..30).map(RecommendationConfidence::from_sample_size).collect();
    let rank = |c: &RecommendationConfidence| match c {
        RecommendationConfidence::Low => 0,
        RecommendationConfidence::Medium => 1,
        RecommendationConfidence::High => 2,
    };
    assert!(levels.windows(2).all(|w| rank(&w[0]) <= rank(&w[1])));
}

#[test]
fn decimal_text_parses_to_the_same_number() {
    for n in [0u64, 7, 10, 1234567890, u64::MAX] {
        assert_eq!(parse_u64_chars(&to_chars(&decimal_string(n))), Some(n));
    }
}

#[test]
fn smoothing_leaves_no_single_speech_frame() {
    let raw = vec![false, true, false, false, false, true, true, true, false, false, false, true, false];
    let out = smooth_speech(&raw, 20, 40);
    for i in 1..out.len() - 1 {
        assert!(!(out[i] && !out[i - 1] && !out[i + 1]), "isolated frame at {i}: {out:?}");
    }
}

#[test]
fn non_voice_spans_never_overlap_speech() {
    let sp = vec![speech(1000, 2000), speech(2600, 3000), speech(5000, 6000)];
    let out = invert_to_non_voice(&sp, 9000, 500, &|_a: u64, _b: u64| 0);
    assert!(!out.is_empty());
    for n in &out {
        assert!(n.start_ms < n.end_ms);
        for s in &sp {
            assert!(n.end_ms <= s.start_ms || s.end_ms <= n.start_ms);
        }
    }
}

#[test]
fn split_pieces_never_exceed_the_limit() {
    let input = vec![nv(0, 25_500), nv(30_000, 31_000), nv(40_000, 47_000)];
    let out = split_long_segments(input, 6000, 500, &|_a: u64, _b: u64| 0);
    assert!(out.iter().all(|s| s.start_ms < s.end_ms && s.end_ms - s.start_ms <= 6000));
    assert_eq!(out.len(), 5 + 1 + 2);
}

#[test]
fn non_voice_spans_last_at_least_the_minimum() {
    let sp = vec![speech(100, 900), speech(1500, 2000), speech(2100, 5000)];
    let out = invert_to_non_voice(&sp, 8000, 550, &|_a: u64, _b: u64| 0);
    assert!(out.iter().all(|s| s.end_ms - s.start_ms >= 550));
    let spans: Vec<(u64, u64)> = out.iter().map(|s| (s.start_ms, s.end_ms)).collect();
    assert_eq!(spans, vec![(900, 1500), (5000, 8000)]);
}

#[test]
fn comparing_a_timeline_with_itself_is_perfect() {
    let segs = vec![speech(0, 1000), nv(1000, 3000), nv(2500, 4000), speech(4000, 4500), nv(5000, 5000)];
    let c = score_counts(&segs, &segs, 0);
    assert_eq!(c.speech_matches.matched as usize, c.speech_matches.predicted);
    assert_eq!(c.non_voice_matches.matched as usize, c.non_voice_matches.expected);
    assert_eq!(c.non_voice_matches.matched, 3);
    assert_eq!(c.coverage.overlap_ms, c.coverage.predicted_ms);
    assert_eq!(c.coverage.predicted_ms, c.coverage.expected_ms);
    assert_eq!(c.coverage.overlap_ms, 4500);
    assert_eq!(c.non_voice_duration.overlap_ms, c.non_voice_duration.expected_ms);
}

#[test]
fn scores_compare_as_the_numbers_they_stand_for() {
    let b = |x: f32| x.to_bits();
    for (x, y) in [(0.5f32, 0.7f32), (-0.5, 0.1), (-0.7, -0.2), (-0.0, 0.0), (0.3, 0.3), (f32::NAN, 0.5), (-1.0, f32::NEG_INFINITY)] {
        assert_eq!(score_less(b(x), b(y)), x < y, "{x} < {y}");
        assert_eq!(score_at_least(b(x), b(y)), x >= y, "{x} >= {y}");
        assert_eq!(score_less(b(y), b(x)), y < x, "{y} < {x}");
        let m = f32::from_bits(score_smaller(b(x), b(y)));
        let want = x.min(y);
        assert!(m == want || (m.is_nan() && want.is_nan()), "min {x} {y}");
    }
}

#[test]
fn negative_and_nan_scores_follow_float_order() {
    let mut s = nv(0, 1000);
    s.confidence = (-0.3f32).to_bits();
    assert!(needs_verification(&s, 0.55f32.to_bits()));
    s.confidence = f32::NAN.to_bits();
    assert!(needs_verification(&s, 0.55f32.to_bits()));
    s.confidence = 0.8f32.to_bits();
    assert!(!needs_verification(&s, 0.55f32.to_bits()));
}

#[test]
fn corrections_are_counted_by_direction() {
    let r = |a: &str, b: &str| (a.to_string(), b.to_string());
    let records = vec![
        r("speech", "non_voice"),
        r("non_voice", "speech"),
        r("speech", "speech"),
        r("speech", "non_voice"),
        r("music", "speech"),
    ];
    assert_eq!(count_corrections(&records), (2, 1));
    assert_eq!(count_corrections(&[]), (0, 0));
}
