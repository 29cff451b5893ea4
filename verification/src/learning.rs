//! Bookkeeping of the threshold learning: how recent verifications are counted
//! and how much a recommendation can be trusted.
use vstd::prelude::*;
use crate::text::str_eq;

verus! {

/// Version of a calibration profile that names none.
pub fn default_version() -> (v: u32)
    ensures
        v == 1,
{
    1
}

#[derive(Debug, Clone, Copy, PartialEq, Eq, Structural)]
pub enum RecommendationConfidence {
    Low,
    Medium,
    High,
}

pub open spec fn confidence_level(n: int, high_at: int, medium_at: int) -> RecommendationConfidence {
    if n >= high_at {
        RecommendationConfidence::High
    } else if n >= medium_at {
        RecommendationConfidence::Medium
    } else {
        RecommendationConfidence::Low
    }
}

impl RecommendationConfidence {
    /// From the false positives among the recent verifications: five or more
    /// is high, two or more medium.
    pub fn from_recent_false_positives(n: usize) -> (c: RecommendationConfidence)
        ensures
            c == confidence_level(n as int, 5, 2),
    {
        if n >= 5 {
            RecommendationConfidence::High
        } else if n >= 2 {
            RecommendationConfidence::Medium
        } else {
            RecommendationConfidence::Low
        }
    }

    /// From the number of recorded false positives: twenty or more is high,
    /// five or more medium.
    pub fn from_sample_size(n: i64) -> (c: RecommendationConfidence)
        ensures
            c == confidence_level(n as int, 20, 5),
    {
        if n >= 20 {
            RecommendationConfidence::High
        } else if n >= 5 {
            RecommendationConfidence::Medium
        } else {
            RecommendationConfidence::Low
        }
    }
}

/// The last `window` entries of a history (all of it when shorter).
pub open spec fn recent(h: Seq<bool>, window: int) -> Seq<bool> {
    if h.len() <= window {
        h
    } else {
        h.subrange(h.len() - window, h.len() as int)
    }
}

pub open spec fn count_true(s: Seq<bool>) -> nat
    decreases s.len(),
{
    if s.len() == 0 {
        0
    } else {
        count_true(s.drop_last()) + if s.last() { 1nat } else { 0nat }
    }
}

/// How many of the last `window` verifications there are, and how many of
/// them were false positives.
pub fn recent_counts(false_positive: &[bool], window: usize) -> (r: (usize, usize))
    ensures
        r.0 == recent(false_positive@, window as int).len(),
        r.1 == count_true(recent(false_positive@, window as int)),
{
    let n = false_positive.len();
    let from: usize = if n <= window {
        0
    } else {
        n - window
    };
    let ghost h = false_positive@;
    assert(recent(h, window as int) =~= h.subrange(from as int, n as int));
    let mut count: usize = 0;
    let mut i = from;
    while i < n
        invariant
            from <= i <= n,
            n == h.len(),
            h == false_positive@,
            count == count_true(h.subrange(from as int, i as int)),
            count <= i - from,
        decreases n - i,
    {
        assert(h.subrange(from as int, i + 1).drop_last() =~= h.subrange(from as int, i as int));
        if false_positive[i] {
            count += 1;
        }
        i += 1;
    }
    (n - from, count)
}

/// More false positives never lower the confidence.
pub proof fn lemma_confidence_monotone(a: int, b: int, high_at: int, medium_at: int)
    requires
        a <= b,
        medium_at <= high_at,
    ensures
        confidence_level(a, high_at, medium_at) == RecommendationConfidence::High ==> confidence_level(
            b,
            high_at,
            medium_at,
        ) == RecommendationConfidence::High,
        confidence_level(a, high_at, medium_at) != RecommendationConfidence::Low ==> confidence_level(
            b,
            high_at,
            medium_at,
        ) != RecommendationConfidence::Low,
{
}


/// A correction turning `from` into `to`, as kind names.
pub open spec fn is_correction(r: (Seq<char>, Seq<char>), from: Seq<char>, to: Seq<char>) -> bool {
    r.0 == from && r.1 == to
}

/// How many corrections turn `from` into `to`.
pub open spec fn count_corrections_spec(r: Seq<(Seq<char>, Seq<char>)>, from: Seq<char>, to: Seq<char>) -> nat
    decreases r.len(),
{
    if r.len() == 0 {
        0
    } else {
        count_corrections_spec(r.drop_last(), from, to) + if is_correction(r.last(), from, to) {
            1nat
        } else {
            0nat
        }
    }
}

pub open spec fn record_views(r: Seq<(String, String)>) -> Seq<(Seq<char>, Seq<char>)> {
    r.map_values(|p: (String, String)| (p.0@, p.1@))
}

/// Counts hand corrections given as (original kind, corrected kind): first
/// those from speech to non-voice, then those from non-voice to speech.
pub fn count_corrections(records: &[(String, String)]) -> (r: (usize, usize))
    ensures
        r.0 == count_corrections_spec(record_views(records@), "speech"@, "non_voice"@),
        r.1 == count_corrections_spec(record_views(records@), "non_voice"@, "speech"@),
{
    let ghost rv = record_views(records@);
    let mut to_non_voice: usize = 0;
    let mut to_speech: usize = 0;
    let mut i: usize = 0;
    while i < records.len()
        invariant
            i <= records.len(),
            rv == record_views(records@),
            to_non_voice == count_corrections_spec(rv.take(i as int), "speech"@, "non_voice"@),
            to_speech == count_corrections_spec(rv.take(i as int), "non_voice"@, "speech"@),
            to_non_voice <= i,
            to_speech <= i,
        decreases records.len() - i,
    {
        proof {
            assert(rv.take(i + 1).drop_last() =~= rv.take(i as int));
            assert(rv.take(i + 1).last() == (records@[i as int].0@, records@[i as int].1@));
        }
        let (orig, corr) = (&records[i].0, &records[i].1);
        if str_eq(orig.as_str(), "speech") && str_eq(corr.as_str(), "non_voice") {
            to_non_voice += 1;
        }
        if str_eq(orig.as_str(), "non_voice") && str_eq(corr.as_str(), "speech") {
            to_speech += 1;
        }
        i += 1;
    }
    assert(rv.take(records.len() as int) =~= rv);
    (to_non_voice, to_speech)
}

} // verus!
