//! Placement of narration clips in the radio-play mix: clips may not overlap,
//! and each is cut to the part that falls inside the recording.
use vstd::prelude::*;

verus! {

/// Two sample ranges `[start, end)` share a sample.
pub open spec fn ranges_overlap(a: (usize, usize), b: (usize, usize)) -> bool {
    a.0 < b.1 && b.0 < a.1
}

/// Pair `(i, j)` with `i < j` comes before pair `(x, y)`, row by row.
pub open spec fn pair_before(i: int, j: int, x: int, y: int) -> bool {
    i < x || (i == x && j < y)
}

pub open spec fn overlapping_pair(s: Seq<(usize, usize)>, i: int, j: int) -> bool {
    0 <= i < j < s.len() && ranges_overlap(s[i], s[j])
}

/// The first overlapping pair of clips, row by row, if there is one.
pub fn first_overlap(spans: &[(usize, usize)]) -> (r: Option<(usize, usize)>)
    ensures
        match r {
            Some((i, j)) => overlapping_pair(spans@, i as int, j as int) && forall|x: int, y: int|
                #![trigger overlapping_pair(spans@, x, y)]
                overlapping_pair(spans@, x, y) ==> !pair_before(x, y, i as int, j as int),
            None => forall|x: int, y: int| !(#[trigger] overlapping_pair(spans@, x, y)),
        },
{
    let mut i: usize = 0;
    while i < spans.len()
        invariant
            i <= spans.len(),
            forall|x: int, y: int| 0 <= x < i ==> !(#[trigger] overlapping_pair(spans@, x, y)),
        decreases spans.len() - i,
    {
        let mut j: usize = i + 1;
        while j < spans.len()
            invariant
                i < spans.len(),
                i + 1 <= j <= spans.len(),
                forall|x: int, y: int| 0 <= x < i ==> !(#[trigger] overlapping_pair(spans@, x, y)),
                forall|y: int| i < y < j ==> !(#[trigger] overlapping_pair(spans@, i as int, y)),
            decreases spans.len() - j,
        {
            let a = spans[i];
            let b = spans[j];
            if a.0 < b.1 && b.0 < a.1 {
                assert(overlapping_pair(spans@, i as int, j as int));
                return Some((i, j));
            }
            j += 1;
        }
        assert forall|x: int, y: int| 0 <= x < i + 1 implies !(#[trigger] overlapping_pair(spans@, x, y)) by {
            if x == i {
                if i < y < spans.len() {
                    assert(!overlapping_pair(spans@, i as int, y));
                }
            }
        }
        i += 1;
    }
    None
}

/// Where a clip lands in a recording of `total` samples: its range clamped to
/// the recording, and how many of its `available` samples are mixed in.
pub open spec fn placement_spec(start: usize, end: usize, total: usize, available: usize) -> Option<(usize, usize, usize)> {
    let s = if start < total { start } else { total };
    let e = if end < total { end } else { total };
    let len = if e > s { (e - s) as usize } else { 0usize };
    if len == 0 {
        None
    } else {
        Some((s, e, if len < available { len } else { available }))
    }
}

pub fn placement(start: usize, end: usize, total: usize, available: usize) -> (r: Option<(usize, usize, usize)>)
    ensures
        r == placement_spec(start, end, total, available),
{
    let s = if start < total {
        start
    } else {
        total
    };
    let e = if end < total {
        end
    } else {
        total
    };
    let len = if e > s {
        e - s
    } else {
        0
    };
    if len == 0 {
        None
    } else {
        Some((
            s,
            e,
            if len < available {
                len
            } else {
                available
            },
        ))
    }
}

} // verus!
