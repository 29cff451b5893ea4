use timeline::assemble::{first_overlap, placement};
use timeline::gaps::{GapIdentifier, join_strings};
use timeline::goap::WorldState;
use timeline::segment::{Segment, SegmentKind, TimelineOutput};
use timeline::srt::SrtError;
use timeline::voice::{
    default_language, elevenlabs_capabilities, modal_capabilities, Emotion, KokoroConfig,
    KokoroProvider, OrpheusConfig, OrpheusProvider, PocketTtsConfig, PocketTtsProvider, Qwen3Config,
    Qwen3Provider,
};

fn seg(start_ms: u64, end_ms: u64, kind: SegmentKind, tags: &[&str]) -> Segment {
    Segment {
        start_ms,
        end_ms,
        kind,
        confidence: 1.0f32.to_bits(),
        tags: tags.iter().map(|t| t.to_string()).collect(),
        prompt: None,
    }
}

fn timeline(segments: Vec<Segment>) -> TimelineOutput {
    TimelineOutput { file: "test.mp3".to_string(), analysis_sample_rate: 16000, frame_ms: 20, segments }
}

#[test]
fn test_identify_long_gap() {
    let t = timeline(vec![
        seg(0, 1000, SegmentKind::Speech, &[]),
        seg(1000, 5000, SegmentKind::NonVoice, &["ambience"]),
        seg(5000, 6000, SegmentKind::Speech, &[]),
    ]);
    let identifier = GapIdentifier::default();
    let output = identifier.identify_gaps(&t, None).unwrap();
    assert!(!output.gaps.is_empty());
    assert_eq!(output.gaps[0].start_ms, 1000);
    assert!(output.gaps[0].confidence_tenths as f32 / 10.0 >= 0.79);
    assert_eq!(output.gaps[0].confidence_tenths, 8);
    assert_eq!(output.gaps[0].priority, 8);
    assert_eq!(
        output.gaps[0].reason,
        "Duration (4000ms) > 3s; Extended ambience; Gap between dialogue blocks"
    );
    assert_eq!(output.file, "test.mp3");
}

#[test]
fn gaps_come_out_by_priority_then_start() {
    let t = timeline(vec![
        seg(0, 1500, SegmentKind::NonVoice, &["impact_heavy"]),
        seg(1500, 2000, SegmentKind::Speech, &[]),
        seg(2000, 12000, SegmentKind::NonVoice, &["ambience"]),
        seg(12000, 13000, SegmentKind::Speech, &[]),
        seg(13000, 13400, SegmentKind::NonVoice, &["impact_heavy"]),
        seg(20000, 21500, SegmentKind::NonVoice, &["machinery_like"]),
    ]);
    let out = GapIdentifier::default().identify_gaps(&t, None).unwrap();
    let order: Vec<(u64, u32, u32)> =
        out.gaps.iter().map(|g| (g.start_ms, g.confidence_tenths, g.priority)).collect();
    assert_eq!(order, vec![(2000, 8, 10), (0, 4, 4), (20000, 4, 4)]);
}

#[test]
fn subtitle_gap_confirms_and_bad_subtitles_fail() {
    let t = timeline(vec![seg(4000, 8000, SegmentKind::NonVoice, &[])]);
    let srt = "1\n00:00:01,000 --> 00:00:03,000\nA\n\n2\n00:00:09,000 --> 00:00:10,000\nB\n";
    let out = GapIdentifier::default().identify_gaps(&t, Some(srt)).unwrap();
    assert_eq!(out.gaps.len(), 1);
    assert_eq!(out.gaps[0].confidence_tenths, 6);
    assert_eq!(out.gaps[0].reason, "Duration (4000ms) > 3s; Confirmed by subtitle gap");
    let bad = "1\nnope\n";
    assert!(matches!(
        GapIdentifier::default().identify_gaps(&t, Some(bad)),
        Err(SrtError::InvalidTimingLine(_))
    ));
}

#[test]
fn joins_reasons() {
    let parts = vec!["a".to_string(), "".to_string(), "c".to_string()];
    assert_eq!(join_strings(&parts, "; "), "a; ; c");
    assert_eq!(join_strings(&vec![], "; "), "");
}

#[test]
fn world_state_goals_and_effects() {
    let mut s = WorldState::default();
    let mut goal = WorldState::default();
    assert!(s.meets(&goal));
    goal.movie_decoded = true;
    goal.gpu_available = true;
    assert!(!s.meets(&goal));
    let after = s.apply_effects(&goal);
    assert!(after.meets(&goal));
    assert!(after.meets(&s));
    assert_eq!(after.apply_effects(&goal), after);
    s.quality_verified = true;
    assert!(s.apply_effects(&goal).quality_verified);
    assert!(after.allows(&goal));
}

#[test]
fn test_no_overlap_validation() {
    let spans = [(100usize, 300usize), (150, 350)];
    assert_eq!(first_overlap(&spans), Some((0, 1)));
    assert_eq!(first_overlap(&[(0, 10), (10, 20), (25, 30)]), None);
    assert_eq!(first_overlap(&[(0, 10), (20, 30), (5, 25)]), Some((0, 2)));
}

#[test]
fn narration_placement_is_clamped() {
    assert_eq!(placement(1000, 1500, 16000, 500), Some((1000, 1500, 500)));
    assert_eq!(placement(15900, 16500, 16000, 600), Some((15900, 16000, 100)));
    assert_eq!(placement(17000, 18000, 16000, 1000), None);
    assert_eq!(placement(10, 20, 100, 4), Some((10, 20, 4)));
}

#[test]
fn providers_and_emotions() {
    assert_eq!(default_language(), "de");
    let o = OrpheusProvider::new(OrpheusConfig { model_path: "m".into(), device: "cuda".into() });
    assert_eq!(o.wrap_with_emotion_tags("Hallo", &Emotion::Whisper), "[whispers] Hallo");
    assert_eq!(o.wrap_with_emotion_tags("Hallo", &Emotion::Neutral), "Hallo");
    assert_eq!(o.wrap_with_emotion_tags("Hallo", &Emotion::Custom("[laughs]".into())), "[laughs] Hallo");
    assert_eq!(o.capabilities().max_text_length, 4000);
    let q = Qwen3Provider::new(Qwen3Config {
        model_path: "m".into(),
        vocoder_path: "v".into(),
        device: "cpu".into(),
        voice_description: "warm".into(),
    });
    assert_eq!(q.get_emotion_prompt(&Emotion::Sad), "Sprich traurig und langsam.");
    assert_eq!(q.get_emotion_prompt(&Emotion::Custom("Sprich laut.".into())), "Sprich laut.");
    assert_eq!(q.capabilities().languages, vec!["de", "en", "zh"]);
    let k = KokoroProvider::new(KokoroConfig { model_path: "k.onnx".into(), device: "cpu".into() });
    assert_eq!(k.config.model_path, "k.onnx");
    assert!(k.capabilities().supports_emotion);
    let p = PocketTtsProvider::new(PocketTtsConfig { model_path: "p".into(), device: "cpu".into() });
    assert_eq!(p.capabilities().languages.len(), 4);
    assert!(p.capabilities().supports_streaming);
    assert_eq!(elevenlabs_capabilities().max_text_length, 10000);
    assert!(modal_capabilities().requires_gpu);
}
