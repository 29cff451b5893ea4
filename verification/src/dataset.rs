//! Ground-truth timelines for validation, from speech spans: a CSV manifest of
//! `start_ms,end_ms` rows, or a list of speech segments, turned into the
//! non-voice timeline they imply.
use vstd::prelude::*;
use crate::fmt::{dec, append_str, push_decimal};
use crate::segment::{Segment, SegmentKind, SegmentView, TimelineOutput, seg_views, bare_view, CONFIDENCE_ONE, CONFIDENCE_HALF};
use crate::segmenter::{invert_spans, invert_to_non_voice, scored_non_voice};
use crate::srt::speech_views;
use crate::text::{
    vv, trim, trim_chars, split_on, split_chars, lines, lines_chars, parse_u64_spec, parse_u64_chars,
    find_from, contains_chars, to_chars, from_chars,
};

verus! {

broadcast use vstd::string::group_string_axioms;

/// A speech segment of full confidence.
pub fn speech_segment(start_ms: u64, end_ms: u64) -> (s: Segment)
    ensures
        s@ == bare_view(start_ms, end_ms, SegmentKind::Speech, CONFIDENCE_ONE),
{
    Segment::bare(start_ms, end_ms, SegmentKind::Speech, CONFIDENCE_ONE)
}

/// The confidence of a span for which there is no frame evidence.
pub fn no_evidence_score(start_ms: u64, end_ms: u64) -> (c: u32)
    ensures
        c == CONFIDENCE_HALF,
{
    CONFIDENCE_HALF
}

/// Non-voice segments for the spans between speech, of confidence one half.
pub open spec fn half_confidence_non_voice(spans: Seq<(u64, u64)>) -> Seq<SegmentView> {
    spans.map_values(|p: (u64, u64)| bare_view(p.0, p.1, SegmentKind::NonVoice, CONFIDENCE_HALF))
}

/// The timeline of non-voice segments that a list of speech segments implies
/// over `total_ms`, dropping gaps shorter than `min_non_voice_ms`.
pub fn timeline_from_speech_segments(
    file: String,
    sample_rate: u32,
    frame_ms: u32,
    speech: &[Segment],
    total_ms: u64,
    min_non_voice_ms: u32,
) -> (t: TimelineOutput)
    ensures
        t.file@ == file@,
        t.analysis_sample_rate == sample_rate,
        t.frame_ms == frame_ms,
        seg_views(t.segments@) == half_confidence_non_voice(
            invert_spans(seg_views(speech@), total_ms, min_non_voice_ms as int),
        ),
{
    let segments = invert_to_non_voice(speech, total_ms, min_non_voice_ms, &no_evidence_score);
    proof {
        let spans = invert_spans(seg_views(speech@), total_ms, min_non_voice_ms as int);
        assert(scored_non_voice(seg_views(segments@), spans, no_evidence_score));
        assert(seg_views(segments@) =~= half_confidence_non_voice(spans));
    }
    TimelineOutput { file, analysis_sample_rate: sample_rate, frame_ms, segments }
}

#[derive(Debug, Clone, Copy, PartialEq, Eq, Structural)]
pub enum ManifestError {
    /// A row with fewer than two columns (line number from one).
    TooFewColumns(usize),
    InvalidStart(usize),
    InvalidEnd(usize),
}

pub open spec fn manifest_message(e: ManifestError) -> Seq<char> {
    match e {
        ManifestError::TooFewColumns(n) => "invalid manifest row at line "@ + dec(n as nat)
            + ": expected at least 2 columns"@,
        ManifestError::InvalidStart(n) => "invalid start_ms at line "@ + dec(n as nat),
        ManifestError::InvalidEnd(n) => "invalid end_ms at line "@ + dec(n as nat),
    }
}

impl ManifestError {
    pub fn message(&self) -> (s: String)
        ensures
            s@ == manifest_message(*self),
    {
        let mut v: Vec<char> = Vec::new();
        match self {
            ManifestError::TooFewColumns(n) => {
                append_str(&mut v, "invalid manifest row at line ");
                push_decimal(&mut v, *n as u64);
                append_str(&mut v, ": expected at least 2 columns");
            },
            ManifestError::InvalidStart(n) => {
                append_str(&mut v, "invalid start_ms at line ");
                push_decimal(&mut v, *n as u64);
            },
            ManifestError::InvalidEnd(n) => {
                append_str(&mut v, "invalid end_ms at line ");
                push_decimal(&mut v, *n as u64);
            },
        }
        assert(v@ =~= manifest_message(*self));
        from_chars(&v)
    }
}

/// What one manifest line gives.
pub enum RowOutcome {
    Skip,
    Row(u64, u64),
    Bad(ManifestError),
}

/// Line `idx` (from zero): blank lines and a first line naming `start_ms` are
/// skipped; otherwise the first two comma-separated columns, trimmed, are the
/// start and end in milliseconds.
pub open spec fn row_outcome(line: Seq<char>, idx: int) -> RowOutcome {
    let t = trim(line);
    if t.len() == 0 {
        RowOutcome::Skip
    } else if idx == 0 && find_from(t, "start_ms"@, 0) >= 0 {
        RowOutcome::Skip
    } else {
        let cols = split_on(t, seq![',']);
        if cols.len() < 2 {
            RowOutcome::Bad(ManifestError::TooFewColumns((idx + 1) as usize))
        } else {
            match parse_u64_spec(trim(cols[0])) {
                None => RowOutcome::Bad(ManifestError::InvalidStart((idx + 1) as usize)),
                Some(s) => match parse_u64_spec(trim(cols[1])) {
                    None => RowOutcome::Bad(ManifestError::InvalidEnd((idx + 1) as usize)),
                    Some(e) => RowOutcome::Row(s, e),
                },
            }
        }
    }
}

/// The rows of the first `n` lines, or the first error among them.
pub open spec fn manifest_rows(ls: Seq<Seq<char>>, n: int) -> Result<Seq<(u64, u64)>, ManifestError>
    decreases n,
{
    if n <= 0 {
        Ok(Seq::empty())
    } else {
        match manifest_rows(ls, n - 1) {
            Ok(rows) => match row_outcome(ls[n - 1], n - 1) {
                RowOutcome::Skip => Ok(rows),
                RowOutcome::Row(s, e) => Ok(rows.push((s, e))),
                RowOutcome::Bad(err) => Err(err),
            },
            Err(err) => Err(err),
        }
    }
}

fn row_of(line: &[char], idx: usize) -> (r: Result<Option<(u64, u64)>, ManifestError>)
    requires
        idx < usize::MAX,
    ensures
        match row_outcome(line@, idx as int) {
            RowOutcome::Skip => r == Ok::<Option<(u64, u64)>, ManifestError>(None),
            RowOutcome::Row(s, e) => r == Ok::<Option<(u64, u64)>, ManifestError>(Some((s, e))),
            RowOutcome::Bad(err) => r == Err::<Option<(u64, u64)>, ManifestError>(err),
        },
{
    let t = trim_chars(line);
    if t.len() == 0 {
        return Ok(None);
    }
    let key = to_chars("start_ms");
    if idx == 0 && contains_chars(&t, &key) {
        return Ok(None);
    }
    let comma: Vec<char> = vec![','];
    assert(comma@ =~= seq![',']);
    let cols = split_chars(&t, &comma);
    if cols.len() < 2 {
        return Err(ManifestError::TooFewColumns(idx + 1));
    }
    assert(vv(cols@)[0] == cols@[0]@ && vv(cols@)[1] == cols@[1]@);
    let c0 = trim_chars(&cols[0]);
    let s = match parse_u64_chars(&c0) {
        None => return Err(ManifestError::InvalidStart(idx + 1)),
        Some(s) => s,
    };
    let c1 = trim_chars(&cols[1]);
    let e = match parse_u64_chars(&c1) {
        None => return Err(ManifestError::InvalidEnd(idx + 1)),
        Some(e) => e,
    };
    Ok(Some((s, e)))
}

/// The speech spans of a manifest, or the first bad row.
pub fn parse_manifest(data: &str) -> (r: Result<Vec<Segment>, ManifestError>)
    ensures
        match manifest_rows(lines(data@), lines(data@).len() as int) {
            Ok(rows) => r matches Ok(v) && seg_views(v@) == speech_views(rows),
            Err(err) => r == Err::<Vec<Segment>, ManifestError>(err),
        },
{
    let chars = to_chars(data);
    let ls = lines_chars(&chars);
    let ghost lv = vv(ls@);
    let mut speech: Vec<Segment> = Vec::new();
    let mut i: usize = 0;
    while i < ls.len()
        invariant
            i <= ls.len(),
            lv == vv(ls@),
            lv == lines(data@),
            manifest_rows(lv, i as int) matches Ok(rows) && seg_views(speech@) == speech_views(rows),
        decreases ls.len() - i,
    {
        let ghost rows = manifest_rows(lv, i as int)->Ok_0;
        assert(lv[i as int] == ls@[i as int]@);
        match row_of(&ls[i], i) {
            Ok(None) => {},
            Ok(Some((s, e))) => {
                let ghost before = speech@;
                speech.push(speech_segment(s, e));
                proof {
                    assert(seg_views(speech@) =~= seg_views(before).push(
                        bare_view(s, e, SegmentKind::Speech, CONFIDENCE_ONE),
                    ));
                    assert(speech_views(rows.push((s, e))) =~= speech_views(rows).push(
                        bare_view(s, e, SegmentKind::Speech, CONFIDENCE_ONE),
                    ));
                }
            },
            Err(err) => {
                proof {
                    lemma_rows_stick(lv, i + 1, lv.len() as int);
                }
                return Err(err);
            },
        }
        i += 1;
    }
    Ok(speech)
}

proof fn lemma_rows_stick(ls: Seq<Seq<char>>, i: int, j: int)
    requires
        0 <= i <= j,
        manifest_rows(ls, i) is Err,
    ensures
        manifest_rows(ls, j) == manifest_rows(ls, i),
    decreases j - i,
{
    if j > i {
        lemma_rows_stick(ls, i, j - 1);
    }
}

/// A ground-truth timeline from a manifest of speech spans (the manifest's text).
pub fn build_truth_from_manifest(
    manifest: &str,
    media_name: &str,
    sample_rate: u32,
    frame_ms: u32,
    total_ms: u64,
    min_non_voice_ms: u32,
) -> (r: Result<TimelineOutput, ManifestError>)
    ensures
        match manifest_rows(lines(manifest@), lines(manifest@).len() as int) {
            Ok(rows) => r matches Ok(t) && t.file@ == media_name@ && t.analysis_sample_rate == sample_rate
                && t.frame_ms == frame_ms && seg_views(t.segments@) == half_confidence_non_voice(
                invert_spans(speech_views(rows), total_ms, min_non_voice_ms as int),
            ),
            Err(err) => r == Err::<TimelineOutput, ManifestError>(err),
        },
{
    let speech = match parse_manifest(manifest) {
        Ok(v) => v,
        Err(e) => return Err(e),
    };
    Ok(
        timeline_from_speech_segments(
            media_name.to_string(),
            sample_rate,
            frame_ms,
            &speech,
            total_ms,
            min_non_voice_ms,
        ),
    )
}

} // verus!
