use timeline::export::{export_edl, export_vtt, ms_to_timecode, ms_to_vtt_timestamp, ExportData};
use timeline::extract::{ffmpeg_segment_args, seconds_string};
use timeline::fmt::decimal_string;
use timeline::review::escape_json_for_script;
use timeline::segment::{Segment, SegmentKind, TimelineOutput};
use timeline::srt::{parse_srt_segments, parse_stamp, parse_time_span, read_srt, SrtError, SrtReading};
use timeline::text::{concat_str, parse_u64_chars, to_chars};

fn nv(start_ms: u64, end_ms: u64, confidence: f32) -> Segment {
    Segment {
        start_ms,
        end_ms,
        kind: SegmentKind::NonVoice,
        confidence: confidence.to_bits(),
        tags: vec![],
        prompt: None,
    }
}

fn timeline(segments: Vec<Segment>) -> TimelineOutput {
    TimelineOutput {
        file: "test.mp4".to_string(),
        analysis_sample_rate: 16000,
        frame_ms: 20,
        segments,
    }
}

fn two_decimals(bits: u32) -> String {
    format!("{:.2}", f32::from_bits(bits))
}

#[test]
fn parses_basic_srt() {
    let srt = "1\n00:00:00,000 --> 00:00:01,000\nHello\n\n2\n00:00:02,000 --> 00:00:03,000\nWorld\n";
    let segs = parse_srt_segments(srt).unwrap_or_default();
    assert_eq!(segs.len(), 2);
    assert_eq!(segs[1].start_ms, 2000);
}

#[test]
fn srt_timing_line_may_come_first_and_blocks_may_be_empty() {
    let srt = "\n\n00:01:02,500 --> 01:00:00,001\ntext\n\n\n\n3\n\n";
    let segs = parse_srt_segments(srt).unwrap();
    assert_eq!(segs.len(), 1);
    assert_eq!(segs[0].start_ms, 62_500);
    assert_eq!(segs[0].end_ms, 3_600_001);
    assert_eq!(segs[0].kind, SegmentKind::Speech);
    assert_eq!(segs[0].confidence, 1.0f32.to_bits());
}

#[test]
fn srt_bad_timing_line_is_reported() {
    let srt = "1\n00:00:00,000 --> 00:00:01,000\nHello\n\n2\nnot a time\nWorld\n";
    match parse_srt_segments(srt) {
        Err(SrtError::InvalidTimingLine(l)) => {
            assert_eq!(l, "not a time");
            let e = SrtError::InvalidTimingLine(l);
            assert_eq!(e.message(), "invalid srt timing line: not a time");
        }
        Ok(_) => panic!("expected an error"),
    }
}

#[test]
fn srt_overflowing_stamp_is_told_apart() {
    let srt = "1\n99999999999999999:00:00,000 --> 00:00:01,000\n";
    assert!(matches!(read_srt(srt), SrtReading::Overflow));
}

#[test]
fn stamps_and_spans_read() {
    assert_eq!(parse_stamp("01:02:03,004 trailing"), Some(3_723_004));
    assert_eq!(parse_stamp("1:2"), None);
    assert_eq!(parse_stamp("+1:00:00,5"), Some(3_600_005));
    assert_eq!(parse_time_span(" 00:00:01,000-->00:00:02,500 "), Some((1000, 2500)));
    assert_eq!(parse_time_span("00:00:01,000"), None);
}

#[test]
fn decimal_text_reads_back() {
    for n in [0u64, 7, 10, 1234567890, u64::MAX] {
        let s = decimal_string(n);
        assert_eq!(s, n.to_string());
        assert_eq!(parse_u64_chars(&to_chars(&s)), Some(n));
    }
    assert_eq!(parse_u64_chars(&to_chars("18446744073709551616")), None);
    assert_eq!(parse_u64_chars(&to_chars("")), None);
    assert_eq!(parse_u64_chars(&to_chars("-1")), None);
}

#[test]
fn timecodes() {
    assert_eq!(ms_to_timecode(0), "00:00:00:00");
    assert_eq!(ms_to_timecode(3_723_500), "01:02:03:15");
    assert_eq!(ms_to_timecode(999), "00:00:00:29");
    assert_eq!(ms_to_vtt_timestamp(3_723_004), "01:02:03.004");
    assert_eq!(ms_to_vtt_timestamp(360_000_000), "100:00:00.000");
}

#[test]
fn edl_export_basic() {
    let t = timeline(vec![nv(0, 5000, 0.9)]);
    let verified = vec![(0u64, 5000u64)];
    let output = export_edl(&t, Some(&verified));
    assert!(output.contains("TITLE: Non-Voice Timeline"));
}

#[test]
fn edl_lists_only_verified_non_voice_events() {
    let mut speech = nv(5000, 6000, 1.0);
    speech.kind = SegmentKind::Speech;
    let t = timeline(vec![nv(0, 5000, 0.9), speech, nv(6000, 7500, 0.7), nv(8000, 9000, 0.7)]);
    let verified = vec![(0u64, 5000u64), (5000, 6000), (8000, 9000)];
    let out = export_edl(&t, Some(&verified));
    let expected = "TITLE: Non-Voice Timeline\nFCM: NON-DROP FRAME\n\n\
001  001      V     C        00:00:00:00 00:00:05:00 00:00:05:00 EVENT VERIFIED\n\
* FROM CLIP NAME: Non-voice segment\n\n\
002  001      V     C        00:00:08:00 00:00:09:00 00:00:01:00 EVENT VERIFIED\n\
* FROM CLIP NAME: Non-voice segment\n\n";
    assert_eq!(out, expected);
    assert_eq!(export_edl(&t, None), "TITLE: Non-Voice Timeline\nFCM: NON-DROP FRAME\n\n");
}

#[test]
fn vtt_export_basic() {
    let t = timeline(vec![nv(0, 5000, 0.9)]);
    let verified = vec![(0u64, 5000u64)];
    let output = export_vtt(&t, Some(&verified), &two_decimals);
    assert!(output.starts_with("WEBVTT"));
}

#[test]
fn vtt_cues_number_by_timeline_position() {
    let mut speech = nv(0, 1000, 1.0);
    speech.kind = SegmentKind::Speech;
    let t = timeline(vec![speech, nv(1000, 2500, 0.75)]);
    let verified = vec![(1000u64, 2500u64)];
    let out = export_vtt(&t, Some(&verified), &two_decimals);
    assert_eq!(
        out,
        "WEBVTT\n\nNOTE Non-Voice Timeline Export\n\n00:00:01.000 --> 00:00:02.500\nNon-voice segment #2 (1500ms, confidence: 0.75) [VERIFIED]\n\n"
    );
}

#[test]
fn json_export_marks_verified_segments() {
    let t = timeline(vec![nv(0, 5000, 0.9), nv(6000, 5000, 0.1)]);
    let verified = vec![(0u64, 5000u64)];
    let d = ExportData::from_timeline(&t, Some(&verified));
    assert_eq!(d.segments.len(), 2);
    assert!(d.segments[0].is_verified);
    assert!(!d.segments[1].is_verified);
    assert_eq!(d.segments[0].duration_ms, 5000);
    assert_eq!(d.segments[1].duration_ms, 0);
    assert_eq!(d.segments[0].kind, "non_voice");
    assert_eq!(d.verified_keys, Some(vec![(0, 5000)]));
    assert!(ExportData::from_timeline(&t, None).verified_keys.is_none());
}

#[test]
fn seconds_text_is_shortest_decimal() {
    assert_eq!(seconds_string(1500), "1.5");
    assert_eq!(seconds_string(2000), "2");
    assert_eq!(seconds_string(20), "0.02");
    assert_eq!(seconds_string(0), "0");
    assert_eq!(seconds_string(1001), "1.001");
}

#[test]
fn segment_duration_validation() {
    assert!(ffmpeg_segment_args("nonexistent.mp4", 1000, 500, "out.wav").is_err());
    assert!(ffmpeg_segment_args("nonexistent.mp4", 1000, 1000, "out.wav").is_err());
}

#[test]
fn ffmpeg_arguments_for_a_segment() {
    let args = ffmpeg_segment_args("in.mkv", 1500, 4000, "seg.wav").unwrap();
    let expected = [
        "-hide_banner", "-loglevel", "error", "-ss", "1.5", "-i", "in.mkv", "-t", "2.5", "-vn", "-ac", "1",
        "-ar", "16000", "-acodec", "pcm_s16le", "-y", "seg.wav",
    ];
    assert_eq!(args, expected);
}

#[test]
fn test_xss_escaping_in_review_html() {
    let tag = escape_json_for_script("\"<script>alert(2)</script>\"");
    assert_eq!(tag, r#""\u003cscript\u003ealert(2)\u003c/script\u003e""#);
    let prompt = escape_json_for_script("</SCRIPT><script>alert(3)</script>");
    assert!(prompt.contains(r"\u003c/SCRIPT\u003e\u003cscript\u003ealert(3)\u003c/script\u003e"));
    assert_eq!(escape_json_for_script("rock & roll"), r"rock \u0026 roll");
    assert_eq!(
        escape_json_for_script("line\u{2028}para\u{2029}back`tick"),
        r"line\u2028para\u2029back\u0060tick"
    );
    let all = escape_json_for_script("<>&`\u{2028}\u{2029} plain");
    assert!(!all.contains('<') && !all.contains('>') && !all.contains('&'));
    assert_eq!(escape_json_for_script("plain text"), "plain text");
}

#[test]
fn concatenation() {
    assert_eq!(concat_str("ab", "cd"), "abcd");
    assert_eq!(concat_str("", ""), "");
}
