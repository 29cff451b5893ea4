//! Subtitle timings: the speech segments that an `.srt` file marks.
//!
//! A file is read block by block (blocks are separated by an empty line).  The
//! timing line of a block is its first non-blank line when that line holds
//! `-->`, else its second non-blank line; a block without one is skipped.  A
//! timing line reads `HH:MM:SS,mmm --> HH:MM:SS,mmm`.
use vstd::prelude::*;
use crate::segment::{Segment, SegmentKind, SegmentView, seg_views, bare_view, CONFIDENCE_ONE};
use crate::text::{
    vv, trim, trim_chars, split_on, split_from, split_chars, lines, lines_chars, first_word,
    first_word_chars, parse_u64_spec, parse_u64_chars, find_from, contains_chars, slice_chars,
    to_chars, from_chars, concat_str,
};

verus! {

broadcast use vstd::string::group_string_axioms;

/// Milliseconds of a stamp `H:M:S,ms` (the first whitespace-separated word of the
/// text; further `:` or `,` pieces are ignored).  `None` when it does not read as
/// one; the value is not bounded.
pub open spec fn stamp_value(stamp: Seq<char>) -> Option<int> {
    match first_word(stamp) {
        None => None,
        Some(w) => {
            let parts = split_on(w, seq![':']);
            if parts.len() < 3 {
                None
            } else {
                let secs = split_on(parts[2], seq![',']);
                let h = parse_u64_spec(parts[0]);
                let m = parse_u64_spec(parts[1]);
                if secs.len() < 2 {
                    None
                } else {
                    let s = parse_u64_spec(secs[0]);
                    let ms = parse_u64_spec(secs[1]);
                    if h is Some && m is Some && s is Some && ms is Some {
                        Some(((h->0 * 60 + m->0) * 60 + s->0) * 1000 + ms->0)
                    } else {
                        None
                    }
                }
            }
        }
    }
}

/// What reading a timing line gives: no span, a value past `u64`, or the span.
pub enum SpanOutcome {
    Malformed,
    Overflow,
    Span(u64, u64),
}

pub open spec fn arrow() -> Seq<char> {
    seq!['-', '-', '>']
}

/// The start stamp is read before the end stamp; the first failure decides.
pub open spec fn span_outcome(line: Seq<char>) -> SpanOutcome {
    let parts = split_on(line, arrow());
    match stamp_value(trim(parts[0])) {
        None => SpanOutcome::Malformed,
        Some(a) => if a > u64::MAX {
            SpanOutcome::Overflow
        } else if parts.len() < 2 {
            SpanOutcome::Malformed
        } else {
            match stamp_value(trim(parts[1])) {
                None => SpanOutcome::Malformed,
                Some(b) => if b > u64::MAX {
                    SpanOutcome::Overflow
                } else {
                    SpanOutcome::Span(a as u64, b as u64)
                },
            }
        },
    }
}

/// The lines that hold something besides whitespace.
pub open spec fn nonblank(ls: Seq<Seq<char>>) -> Seq<Seq<char>>
    decreases ls.len(),
{
    if ls.len() == 0 {
        Seq::empty()
    } else if trim(ls.last()).len() > 0 {
        nonblank(ls.drop_last()).push(ls.last())
    } else {
        nonblank(ls.drop_last())
    }
}

/// The timing line of a block, if it has one.
pub open spec fn time_line(block: Seq<char>) -> Option<Seq<char>> {
    let nb = nonblank(lines(block));
    if nb.len() == 0 {
        None
    } else if find_from(nb[0], arrow(), 0) >= 0 {
        Some(nb[0])
    } else if nb.len() >= 2 {
        Some(nb[1])
    } else {
        None
    }
}

/// State of a reading of the blocks, in order.
pub enum SrtScan {
    Spans(Seq<(u64, u64)>),
    Invalid(Seq<char>),
    Overflow,
}

pub open spec fn srt_scan(blocks: Seq<Seq<char>>) -> SrtScan
    decreases blocks.len(),
{
    if blocks.len() == 0 {
        SrtScan::Spans(Seq::empty())
    } else {
        match srt_scan(blocks.drop_last()) {
            SrtScan::Spans(sp) => match time_line(blocks.last()) {
                None => SrtScan::Spans(sp),
                Some(tl) => match span_outcome(tl) {
                    SpanOutcome::Malformed => SrtScan::Invalid(tl),
                    SpanOutcome::Overflow => SrtScan::Overflow,
                    SpanOutcome::Span(a, b) => SrtScan::Spans(sp.push((a, b))),
                },
            },
            other => other,
        }
    }
}

pub open spec fn srt_blocks(input: Seq<char>) -> Seq<Seq<char>> {
    split_on(input, seq!['\n', '\n'])
}

/// A speech segment of full confidence for each span.
pub open spec fn speech_views(sp: Seq<(u64, u64)>) -> Seq<SegmentView> {
    sp.map_values(|p: (u64, u64)| bare_view(p.0, p.1, SegmentKind::Speech, CONFIDENCE_ONE))
}

pub open spec fn fitted(v: Option<int>) -> Option<u64> {
    match v {
        Some(x) => Some(x as u64),
        None => None,
    }
}

pub open spec fn span_of(o: SpanOutcome) -> Option<(u64, u64)> {
    match o {
        SpanOutcome::Span(a, b) => Some((a, b)),
        _ => None,
    }
}

#[derive(Debug)]
pub enum SrtError {
    InvalidTimingLine(String),
}

impl SrtError {
    pub fn message(&self) -> (s: String)
        ensures
            match self {
                SrtError::InvalidTimingLine(l) => s@ == "invalid srt timing line: "@ + l@,
            },
    {
        match self {
            SrtError::InvalidTimingLine(l) => concat_str("invalid srt timing line: ", l.as_str()),
        }
    }
}

/// What reading a stamp gives: `None` when it does not read as one, `Some(None)`
/// when its value does not fit in `u64`, else the value.
pub open spec fn stamp_reading(stamp: Seq<char>) -> Option<Option<u64>> {
    match stamp_value(stamp) {
        None => None,
        Some(v) => if v > u64::MAX {
            Some(None)
        } else {
            Some(Some(v as u64))
        },
    }
}

/// Reads one stamp, telling a value past `u64` apart from a malformed stamp.
pub fn read_stamp(stamp: &[char]) -> (r: Option<Option<u64>>)
    ensures
        r == stamp_reading(stamp@),
{
    let w = match first_word_chars(stamp) {
        None => return None,
        Some(w) => w,
    };
    let colon: Vec<char> = vec![':'];
    assert(colon@ =~= seq![':']);
    let parts = split_chars(&w, &colon);
    if parts.len() < 3 {
        return None;
    }
    assert(vv(parts@)[0] == parts@[0]@ && vv(parts@)[1] == parts@[1]@ && vv(parts@)[2] == parts@[2]@);
    let comma: Vec<char> = vec![','];
    assert(comma@ =~= seq![',']);
    let secs = split_chars(&parts[2], &comma);
    let h = match parse_u64_chars(&parts[0]) {
        None => return None,
        Some(h) => h,
    };
    let m = match parse_u64_chars(&parts[1]) {
        None => return None,
        Some(m) => m,
    };
    if secs.len() < 2 {
        return None;
    }
    assert(vv(secs@)[0] == secs@[0]@ && vv(secs@)[1] == secs@[1]@);
    let s = match parse_u64_chars(&secs[0]) {
        None => return None,
        Some(s) => s,
    };
    let ms = match parse_u64_chars(&secs[1]) {
        None => return None,
        Some(ms) => ms,
    };
    assert(stamp_value(stamp@) == Some(((h * 60 + m) * 60 + s) * 1000 + ms));
    let h2 = h as u128;
    let m2 = m as u128;
    let s2 = s as u128;
    let ms2 = ms as u128;
    proof {
        assert(((h2 * 60 + m2) * 60 + s2) * 1000 + ms2 <= 0x1_0000_0000_0000_0000_0000_0000u128)
            by (nonlinear_arith)
            requires
                h2 <= u64::MAX,
                m2 <= u64::MAX,
                s2 <= u64::MAX,
                ms2 <= u64::MAX,
        ;
    }
    let v: u128 = ((h2 * 60 + m2) * 60 + s2) * 1000 + ms2;
    if v > u64::MAX as u128 {
        Some(None)
    } else {
        Some(Some(v as u64))
    }
}

/// Reads one stamp.
pub fn parse_stamp_chars(stamp: &[char]) -> (r: Option<u64>)
    requires
        stamp_value(stamp@) is Some ==> stamp_value(stamp@)->0 <= u64::MAX,
    ensures
        r == fitted(stamp_value(stamp@)),
{
    match read_stamp(stamp) {
        Some(Some(v)) => Some(v),
        _ => None,
    }
}

/// Reads one stamp (`HH:MM:SS,mmm`) in milliseconds.
pub fn parse_stamp(stamp: &str) -> (r: Option<u64>)
    requires
        stamp_value(stamp@) is Some ==> stamp_value(stamp@)->0 <= u64::MAX,
    ensures
        r == fitted(stamp_value(stamp@)),
{
    let c = to_chars(stamp);
    parse_stamp_chars(&c)
}

proof fn lemma_split_nonempty(s: Seq<char>, p: Seq<char>)
    ensures
        split_on(s, p).len() >= 1,
{
    assert(split_from(s, p, 0).len() >= 1);
}

/// Reads a timing line, telling values past `u64` apart.
pub fn read_time_span(line: &[char]) -> (r: SpanOutcome)
    ensures
        r == span_outcome(line@),
{
    let arrow_v: Vec<char> = vec!['-', '-', '>'];
    assert(arrow_v@ =~= arrow());
    let parts = split_chars(line, &arrow_v);
    proof {
        lemma_split_nonempty(line@, arrow());
    }
    assert(vv(parts@)[0] == parts@[0]@);
    let p0 = trim_chars(&parts[0]);
    let a = match read_stamp(&p0) {
        None => return SpanOutcome::Malformed,
        Some(None) => return SpanOutcome::Overflow,
        Some(Some(a)) => a,
    };
    if parts.len() < 2 {
        return SpanOutcome::Malformed;
    }
    assert(vv(parts@)[1] == parts@[1]@);
    let p1 = trim_chars(&parts[1]);
    match read_stamp(&p1) {
        None => SpanOutcome::Malformed,
        Some(None) => SpanOutcome::Overflow,
        Some(Some(b)) => SpanOutcome::Span(a, b),
    }
}

/// Reads a timing line `start --> end`.
pub fn parse_time_span_chars(line: &[char]) -> (r: Option<(u64, u64)>)
    requires
        !(span_outcome(line@) is Overflow),
    ensures
        r == span_of(span_outcome(line@)),
{
    match read_time_span(line) {
        SpanOutcome::Span(a, b) => Some((a, b)),
        _ => None,
    }
}

/// Reads a timing line `HH:MM:SS,mmm --> HH:MM:SS,mmm` into its two stamps.
pub fn parse_time_span(line: &str) -> (r: Option<(u64, u64)>)
    requires
        !(span_outcome(line@) is Overflow),
    ensures
        r == span_of(span_outcome(line@)),
{
    let c = to_chars(line);
    parse_time_span_chars(&c)
}

/// The timing line of one block.
fn block_time_line(block: &[char]) -> (r: Option<Vec<char>>)
    ensures
        r is None <==> time_line(block@) is None,
        r is Some ==> time_line(block@) == Some(r->0@),
{
    let ls = lines_chars(block);
    let mut nb: Vec<Vec<char>> = Vec::new();
    let mut j: usize = 0;
    while j < ls.len()
        invariant
            j <= ls.len(),
            vv(nb@) == nonblank(vv(ls@).take(j as int)),
        decreases ls.len() - j,
    {
        let t = trim_chars(&ls[j]);
        proof {
            assert(vv(ls@).take(j + 1).drop_last() =~= vv(ls@).take(j as int));
            assert(vv(ls@).take(j + 1).last() == ls@[j as int]@);
        }
        if t.len() > 0 {
            let copy = slice_chars(&ls[j], 0, ls[j].len());
            assert(copy@ =~= ls@[j as int]@);
            nb.push(copy);
            assert(vv(nb@) =~= nonblank(vv(ls@).take(j as int)).push(ls@[j as int]@));
        }
        j += 1;
    }
    assert(vv(ls@).take(ls.len() as int) =~= vv(ls@));
    if nb.len() == 0 {
        return None;
    }
    assert(vv(nb@)[0] == nb@[0]@);
    let arrow_v: Vec<char> = vec!['-', '-', '>'];
    assert(arrow_v@ =~= arrow());
    if contains_chars(&nb[0], &arrow_v) {
        let r = slice_chars(&nb[0], 0, nb[0].len());
        assert(r@ =~= nb@[0]@);
        Some(r)
    } else if nb.len() >= 2 {
        assert(vv(nb@)[1] == nb@[1]@);
        let r = slice_chars(&nb[1], 0, nb[1].len());
        assert(r@ =~= nb@[1]@);
        Some(r)
    } else {
        None
    }
}

/// Once a reading has failed, later blocks do not change its result.
proof fn lemma_scan_sticks(bl: Seq<Seq<char>>, i: int, j: int)
    requires
        0 <= i <= j <= bl.len(),
        !(srt_scan(bl.take(i)) is Spans),
    ensures
        srt_scan(bl.take(j)) == srt_scan(bl.take(i)),
    decreases j - i,
{
    if j > i {
        lemma_scan_sticks(bl, i, j - 1);
        assert(bl.take(j).drop_last() =~= bl.take(j - 1));
    }
}

/// The outcome of reading an `.srt` text: its speech segments, the first
/// timing line that does not read, or a stamp whose value does not fit in `u64`.
#[derive(Debug)]
pub enum SrtReading {
    Segments(Vec<Segment>),
    Invalid(String),
    Overflow,
}

/// Reads an `.srt` text block by block; the first block whose timing line does
/// not read, or holds a value past `u64`, stops the reading.
pub fn read_srt(input: &str) -> (r: SrtReading)
    ensures
        match r {
            SrtReading::Segments(v) => srt_scan(srt_blocks(input@)) matches SrtScan::Spans(sp) && seg_views(v@)
                == speech_views(sp),
            SrtReading::Invalid(l) => srt_scan(srt_blocks(input@)) == SrtScan::Invalid(l@),
            SrtReading::Overflow => srt_scan(srt_blocks(input@)) is Overflow,
        },
{
    let chars = to_chars(input);
    let sep: Vec<char> = vec!['\n', '\n'];
    assert(sep@ =~= seq!['\n', '\n']);
    let blocks = split_chars(&chars, &sep);
    let ghost bl = vv(blocks@);
    let mut speech: Vec<Segment> = Vec::new();
    let mut i: usize = 0;
    while i < blocks.len()
        invariant
            i <= blocks.len(),
            bl == vv(blocks@),
            bl == srt_blocks(input@),
            srt_scan(bl.take(i as int)) matches SrtScan::Spans(sp) && seg_views(speech@)
                == speech_views(sp),
        decreases blocks.len() - i,
    {
        let ghost sp = srt_scan(bl.take(i as int))->Spans_0;
        proof {
            assert(bl.take(i + 1).drop_last() =~= bl.take(i as int));
            assert(bl.take(i + 1).last() == blocks@[i as int]@);
            assert(bl.take(bl.len() as int) =~= bl);
        }
        match block_time_line(&blocks[i]) {
            None => {},
            Some(tl) => {
                match read_time_span(&tl) {
                    SpanOutcome::Malformed => {
                        proof {
                            lemma_scan_sticks(bl, i + 1, bl.len() as int);
                        }
                        return SrtReading::Invalid(from_chars(&tl));
                    },
                    SpanOutcome::Overflow => {
                        proof {
                            lemma_scan_sticks(bl, i + 1, bl.len() as int);
                        }
                        return SrtReading::Overflow;
                    },
                    SpanOutcome::Span(a, b) => {
                        let seg = Segment::bare(a, b, SegmentKind::Speech, CONFIDENCE_ONE);
                        let ghost before = speech@;
                        speech.push(seg);
                        proof {
                            assert(seg_views(speech@) =~= seg_views(before).push(seg@));
                            assert(speech_views(sp.push((a, b))) =~= speech_views(sp).push(
                                bare_view(a, b, SegmentKind::Speech, CONFIDENCE_ONE),
                            ));
                        }
                    },
                }
            },
        }
        i += 1;
    }
    assert(bl.take(i as int) =~= bl);
    SrtReading::Segments(speech)
}

/// The speech segments of an `.srt` text, each of full confidence; the first
/// block whose timing line does not read stops the reading with an error.
pub fn parse_srt_segments(input: &str) -> (r: Result<Vec<Segment>, SrtError>)
    requires
        !(srt_scan(srt_blocks(input@)) is Overflow),
    ensures
        match r {
            Ok(v) => srt_scan(srt_blocks(input@)) matches SrtScan::Spans(sp) && seg_views(v@)
                == speech_views(sp),
            Err(SrtError::InvalidTimingLine(l)) => srt_scan(srt_blocks(input@)) == SrtScan::Invalid(
                l@,
            ),
        },
{
    match read_srt(input) {
        SrtReading::Segments(v) => Ok(v),
        SrtReading::Invalid(l) => Err(SrtError::InvalidTimingLine(l)),
        SrtReading::Overflow => {
            proof {
                assert(false);
            }
            Ok(Vec::new())
        },
    }
}

} // verus!
