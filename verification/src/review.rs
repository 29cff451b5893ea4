//! Data of the listening page: the non-voice segments a person steps through
//! by ear, and the escaping that makes JSON safe inside an HTML `<script>`.
use vstd::prelude::*;
use crate::handlers::of_kind;
use crate::segment::{
    Segment, SegmentKind, SegmentView, TimelineOutput, seg_views, text_seq, opt_text, copy_strings,
    copy_opt_string, append_strings,
};
use crate::segmenter::{all_tags, confidences, computes_mean};
use crate::text::{to_chars, from_chars};

verus! {

broadcast use vstd::string::group_string_axioms;

/// The text that stands for `c` in escaped JSON: the characters that could end
/// a script element or start an entity, and the ones JavaScript reads as line
/// breaks or template quotes, become `\uXXXX` escapes.
pub open spec fn escape_char(c: char) -> Seq<char> {
    if c == '<' {
        seq!['\\', 'u', '0', '0', '3', 'c']
    } else if c == '>' {
        seq!['\\', 'u', '0', '0', '3', 'e']
    } else if c == '&' {
        seq!['\\', 'u', '0', '0', '2', '6']
    } else if c == '\u{2028}' {
        seq!['\\', 'u', '2', '0', '2', '8']
    } else if c == '\u{2029}' {
        seq!['\\', 'u', '2', '0', '2', '9']
    } else if c == '`' {
        seq!['\\', 'u', '0', '0', '6', '0']
    } else {
        seq![c]
    }
}

pub open spec fn escaped(s: Seq<char>) -> Seq<char>
    decreases s.len(),
{
    if s.len() == 0 {
        Seq::empty()
    } else {
        escaped(s.drop_last()) + escape_char(s.last())
    }
}

pub open spec fn script_unsafe(c: char) -> bool {
    c == '<' || c == '>' || c == '&' || c == '\u{2028}' || c == '\u{2029}' || c == '`'
}

fn push_escaped(v: &mut Vec<char>, c: char)
    ensures
        final(v)@ == old(v)@ + escape_char(c),
{
    let ghost v0 = v@;
    if c == '<' {
        v.push('\\');
        v.push('u');
        v.push('0');
        v.push('0');
        v.push('3');
        v.push('c');
    } else if c == '>' {
        v.push('\\');
        v.push('u');
        v.push('0');
        v.push('0');
        v.push('3');
        v.push('e');
    } else if c == '&' {
        v.push('\\');
        v.push('u');
        v.push('0');
        v.push('0');
        v.push('2');
        v.push('6');
    } else if c == '\u{2028}' {
        v.push('\\');
        v.push('u');
        v.push('2');
        v.push('0');
        v.push('2');
        v.push('8');
    } else if c == '\u{2029}' {
        v.push('\\');
        v.push('u');
        v.push('2');
        v.push('0');
        v.push('2');
        v.push('9');
    } else if c == '`' {
        v.push('\\');
        v.push('u');
        v.push('0');
        v.push('0');
        v.push('6');
        v.push('0');
    } else {
        v.push(c);
    }
    assert(v@ =~= v0 + escape_char(c));
}

/// Escapes serialized JSON for embedding in a `<script>` element.
pub fn escape_json_for_script(json: &str) -> (r: String)
    ensures
        r@ == escaped(json@),
{
    let cs = to_chars(json);
    let mut v: Vec<char> = Vec::new();
    let mut i: usize = 0;
    while i < cs.len()
        invariant
            i <= cs.len(),
            cs@ == json@,
            v@ == escaped(cs@.take(i as int)),
        decreases cs.len() - i,
    {
        proof {
            assert(cs@.take(i + 1).drop_last() =~= cs@.take(i as int));
        }
        push_escaped(&mut v, cs[i]);
        i += 1;
    }
    assert(cs@.take(i as int) =~= cs@);
    from_chars(&v)
}

/// Escaped text holds none of the characters that escaping removes.
pub proof fn lemma_escaped_is_script_safe(s: Seq<char>)
    ensures
        forall|k: int| 0 <= k < escaped(s).len() ==> !script_unsafe(#[trigger] escaped(s)[k]),
    decreases s.len(),
{
    if s.len() > 0 {
        lemma_escaped_is_script_safe(s.drop_last());
        let p = escaped(s.drop_last());
        let e = escape_char(s.last());
        assert forall|k: int| 0 <= k < escaped(s).len() implies !script_unsafe(#[trigger] escaped(s)[k]) by {
            if k >= p.len() {
                assert(escaped(s)[k] == e[k - p.len()]);
            } else {
                assert(escaped(s)[k] == p[k]);
            }
        }
    }
}

/// Text without characters to escape comes out unchanged.
pub proof fn lemma_escape_keeps_safe_text(s: Seq<char>)
    requires
        forall|k: int| 0 <= k < s.len() ==> !script_unsafe(#[trigger] s[k]),
    ensures
        escaped(s) == s,
    decreases s.len(),
{
    if s.len() > 0 {
        lemma_escape_keeps_safe_text(s.drop_last());
        assert(s.drop_last().push(s.last()) =~= s);
    }
}

/// One entry of the review list.
#[derive(Debug)]
pub struct ReviewSegment {
    pub index: usize,
    pub start_ms: u64,
    pub end_ms: u64,
    pub duration_ms: u64,
    /// `f32` bit pattern of the confidence score.
    pub confidence: u32,
    pub tags: Vec<String>,
    pub prompt: Option<String>,
    pub verification_status: Option<String>,
}

pub struct ReviewView {
    pub index: int,
    pub start_ms: u64,
    pub end_ms: u64,
    pub duration_ms: u64,
    pub confidence: u32,
    pub tags: Seq<Seq<char>>,
    pub prompt: Option<Seq<char>>,
    pub verification_status: Option<Seq<char>>,
}

impl View for ReviewSegment {
    type V = ReviewView;

    open spec fn view(&self) -> ReviewView {
        ReviewView {
            index: self.index as int,
            start_ms: self.start_ms,
            end_ms: self.end_ms,
            duration_ms: self.duration_ms,
            confidence: self.confidence,
            tags: text_seq(self.tags@),
            prompt: opt_text(self.prompt),
            verification_status: opt_text(self.verification_status),
        }
    }
}

pub open spec fn review_views(r: Seq<ReviewSegment>) -> Seq<ReviewView> {
    r.map_values(|x: ReviewSegment| x@)
}

pub open spec fn status_views(s: Seq<(u64, u64, String)>) -> Seq<(u64, u64, Seq<char>)> {
    s.map_values(|x: (u64, u64, String)| (x.0, x.1, x.2@))
}

/// The status recorded last for a span, if any.
pub open spec fn status_for(s: Seq<(u64, u64, Seq<char>)>, start: u64, end: u64) -> Option<Seq<char>>
    decreases s.len(),
{
    if s.len() == 0 {
        None
    } else if s.last().0 == start && s.last().1 == end {
        Some(s.last().2)
    } else {
        status_for(s.drop_last(), start, end)
    }
}

pub open spec fn sat_len(start: u64, end: u64) -> u64 {
    if end >= start {
        (end - start) as u64
    } else {
        0
    }
}

/// One entry per non-voice segment, numbered from one, with the status the
/// report gives its span.
pub open spec fn review_list(nv: Seq<SegmentView>, st: Seq<(u64, u64, Seq<char>)>) -> Seq<ReviewView> {
    Seq::new(
        nv.len(),
        |i: int|
            ReviewView {
                index: i + 1,
                start_ms: nv[i].start_ms,
                end_ms: nv[i].end_ms,
                duration_ms: sat_len(nv[i].start_ms, nv[i].end_ms),
                confidence: nv[i].confidence,
                tags: nv[i].tags,
                prompt: nv[i].prompt,
                verification_status: status_for(st, nv[i].start_ms, nv[i].end_ms),
            },
    )
}

/// The single entry of a merged review, up to its confidence.
pub open spec fn merged_review(nv: Seq<SegmentView>, confidence: u32) -> ReviewView {
    ReviewView {
        index: 1,
        start_ms: nv[0].start_ms,
        end_ms: nv.last().end_ms,
        duration_ms: sat_len(nv[0].start_ms, nv.last().end_ms),
        confidence,
        tags: all_tags(nv),
        prompt: None,
        verification_status: None,
    }
}

fn lookup_status(statuses: &[(u64, u64, String)], start: u64, end: u64) -> (r: Option<String>)
    ensures
        opt_text(r) == status_for(status_views(statuses@), start, end),
{
    let ghost sv = status_views(statuses@);
    let mut i: usize = statuses.len();
    assert(sv.take(i as int) =~= sv);
    while i > 0
        invariant
            i <= statuses.len(),
            sv == status_views(statuses@),
            status_for(sv, start, end) == status_for(sv.take(i as int), start, end),
        decreases i,
    {
        proof {
            assert(sv.take(i as int).drop_last() =~= sv.take(i - 1));
            assert(sv.take(i as int).last() == (statuses@[i - 1].0, statuses@[i - 1].1, statuses@[i - 1].2@));
        }
        if statuses[i - 1].0 == start && statuses[i - 1].1 == end {
            return Some(statuses[i - 1].2.clone());
        }
        i -= 1;
    }
    None
}

/// The entries of the review page.  Unmerged: each non-voice segment with the
/// status that `statuses` (span and status of each check; the last one for a
/// span counts) gives it.  Merged: one entry over all non-voice segments with
/// all their tags and the confidence `mean` gives for their confidences.
pub fn review_segments<G: Fn(Vec<u32>) -> u32>(
    timeline: &TimelineOutput,
    statuses: &[(u64, u64, String)],
    merged: bool,
    mean: &G,
) -> (r: Vec<ReviewSegment>)
    requires
        forall|v: Vec<u32>| mean.requires((v,)),
    ensures
        ({
            let nv = of_kind(seg_views(timeline.segments@), SegmentKind::NonVoice);
            &&& !merged ==> review_views(r@) == review_list(nv, status_views(statuses@))
            &&& merged && nv.len() == 0 ==> r@.len() == 0
            &&& merged && nv.len() > 0 ==> r@.len() == 1 && r@[0]@ == merged_review(nv, r@[0].confidence)
                && forall|m: spec_fn(Seq<u32>) -> u32| #[trigger] computes_mean(*mean, m) ==> r@[0].confidence
                == m(confidences(nv))
        }),
{
    let ghost sv = seg_views(timeline.segments@);
    let mut nv: Vec<&Segment> = Vec::new();
    let mut i: usize = 0;
    while i < timeline.segments.len()
        invariant
            i <= timeline.segments.len(),
            sv == seg_views(timeline.segments@),
            nv@.map_values(|x: &Segment| x@) == of_kind(sv.take(i as int), SegmentKind::NonVoice),
        decreases timeline.segments.len() - i,
    {
        proof {
            assert(sv.take(i + 1).drop_last() =~= sv.take(i as int));
            assert(sv.take(i + 1).last() == timeline.segments@[i as int]@);
        }
        if timeline.segments[i].kind == SegmentKind::NonVoice {
            let ghost before = nv@.map_values(|x: &Segment| x@);
            nv.push(&timeline.segments[i]);
            assert(nv@.map_values(|x: &Segment| x@) =~= before.push(timeline.segments@[i as int]@));
        }
        i += 1;
    }
    assert(sv.take(i as int) =~= sv);
    let ghost nvv = nv@.map_values(|x: &Segment| x@);
    let mut out: Vec<ReviewSegment> = Vec::new();
    if !merged {
        let mut k: usize = 0;
        while k < nv.len()
            invariant
                k <= nv.len(),
                nvv == nv@.map_values(|x: &Segment| x@),
                out@.len() == k,
                forall|j: int| 0 <= j < k ==> (#[trigger] out@[j])@ == review_list(nvv, status_views(statuses@))[j],
            decreases nv.len() - k,
        {
            let s = nv[k];
            assert(nvv[k as int] == s@);
            let status = lookup_status(statuses, s.start_ms, s.end_ms);
            let e = ReviewSegment {
                index: k + 1,
                start_ms: s.start_ms,
                end_ms: s.end_ms,
                duration_ms: if s.end_ms >= s.start_ms {
                    s.end_ms - s.start_ms
                } else {
                    0
                },
                confidence: s.confidence,
                tags: copy_strings(&s.tags),
                prompt: copy_opt_string(&s.prompt),
                verification_status: status,
            };
            out.push(e);
            k += 1;
        }
        assert(review_views(out@) =~= review_list(nvv, status_views(statuses@)));
        return out;
    }
    if nv.len() == 0 {
        return out;
    }
    let mut confs: Vec<u32> = Vec::new();
    let mut tags: Vec<String> = Vec::new();
    let mut k: usize = 0;
    while k < nv.len()
        invariant
            k <= nv.len(),
            nvv == nv@.map_values(|x: &Segment| x@),
            confs@ == confidences(nvv).take(k as int),
            text_seq(tags@) == all_tags(nvv.take(k as int)),
        decreases nv.len() - k,
    {
        proof {
            assert(nvv.take(k + 1).drop_last() =~= nvv.take(k as int));
            assert(nvv.take(k + 1).last() == nv@[k as int]@);
        }
        confs.push(nv[k].confidence);
        append_strings(&mut tags, &nv[k].tags);
        k += 1;
        assert(confs@ =~= confidences(nvv).take(k as int));
    }
    proof {
        assert(nvv.take(k as int) =~= nvv);
        assert(confidences(nvv).take(k as int) =~= confidences(nvv));
    }
    let ghost cv = confs;
    let confidence = mean(confs);
    let first = nv[0].start_ms;
    let last = nv[nv.len() - 1].end_ms;
    let e = ReviewSegment {
        index: 1,
        start_ms: first,
        end_ms: last,
        duration_ms: if last >= first {
            last - first
        } else {
            0
        },
        confidence,
        tags,
        prompt: None,
        verification_status: None,
    };
    out.push(e);
    assert(out@[0]@ == merged_review(nvv, confidence));
    assert forall|m: spec_fn(Seq<u32>) -> u32| #[trigger] computes_mean(*mean, m) implies confidence == m(
        confidences(nvv),
    ) by {
        assert(mean.ensures((cv,), confidence));
    }
    out
}

} // verus!
