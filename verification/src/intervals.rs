//! Half-open millisecond intervals `[start, end)`: normalisation, total length and
//! the length of the intersection of two interval lists.
use vstd::prelude::*;

verus! {

/// Length of the overlap of `[a_s, a_e)` and `[b_s, b_e)`.
pub open spec fn overlap(a_s: int, a_e: int, b_s: int, b_e: int) -> int {
    let s = if a_s > b_s { a_s } else { b_s };
    let e = if a_e < b_e { a_e } else { b_e };
    if e > s { e - s } else { 0 }
}

/// Point `t` lies in the interval `iv`.
pub open spec fn in_iv(iv: (u64, u64), t: int) -> bool {
    iv.0 <= t < iv.1
}

/// Point `t` lies in some interval of `s`.
pub open spec fn covers(s: Seq<(u64, u64)>, t: int) -> bool {
    exists|k: int| 0 <= k < s.len() && #[trigger] in_iv(s[k], t)
}

/// Non-empty intervals in increasing order, each ending strictly before the next begins.
pub open spec fn canonical(s: Seq<(u64, u64)>) -> bool {
    &&& forall|k: int| 0 <= k < s.len() ==> (#[trigger] s[k]).0 < s[k].1
    &&& forall|k: int, l: int| 0 <= k < l < s.len() ==> (#[trigger] s[k]).1 < (#[trigger] s[l]).0
}

pub open spec fn sorted_by_start(s: Seq<(u64, u64)>) -> bool {
    forall|k: int, l: int| 0 <= k <= l < s.len() ==> (#[trigger] s[k]).0 <= (#[trigger] s[l]).0
}

/// Sum of the lengths `end - start` (zero for an empty interval).
pub open spec fn total_len(s: Seq<(u64, u64)>) -> int
    decreases s.len(),
{
    if s.len() == 0 {
        0
    } else {
        total_len(s.drop_last()) + (if s.last().1 > s.last().0 { s.last().1 - s.last().0 } else { 0 })
    }
}

/// The merge sweep over two interval lists: add the overlap of the current pair,
/// then advance past whichever interval ends first (`a`'s on a tie).
pub open spec fn sweep(a: Seq<(u64, u64)>, b: Seq<(u64, u64)>, i: int, j: int) -> int
    decreases a.len() - i + b.len() - j,
{
    if i < 0 || j < 0 || i >= a.len() || j >= b.len() {
        0
    } else {
        overlap(a[i].0 as int, a[i].1 as int, b[j].0 as int, b[j].1 as int) + if a[i].1 <= b[j].1 {
            sweep(a, b, i + 1, j)
        } else {
            sweep(a, b, i, j + 1)
        }
    }
}

/// Sum of the overlaps of `x` with `b[j..]`.
pub open spec fn row_overlap(x: (u64, u64), b: Seq<(u64, u64)>, j: int) -> int
    decreases b.len() - j,
{
    if j < 0 || j >= b.len() {
        0
    } else {
        overlap(x.0 as int, x.1 as int, b[j].0 as int, b[j].1 as int) + row_overlap(x, b, j + 1)
    }
}

/// Sum of the overlaps of every pair of `a[i..]` and `b[j..]`.
pub open spec fn pair_overlap(a: Seq<(u64, u64)>, b: Seq<(u64, u64)>, i: int, j: int) -> int
    decreases a.len() - i,
{
    if i < 0 || i >= a.len() {
        0
    } else {
        row_overlap(a[i], b, j) + pair_overlap(a, b, i + 1, j)
    }
}

pub fn overlap_ms(a_start: u64, a_end: u64, b_start: u64, b_end: u64) -> (r: u64)
    ensures
        r == overlap(a_start as int, a_end as int, b_start as int, b_end as int),
{
    let start = if a_start > b_start { a_start } else { b_start };
    let end = if a_end < b_end { a_end } else { b_end };
    if end > start { end - start } else { 0 }
}

proof fn lemma_covers_push(s: Seq<(u64, u64)>, x: (u64, u64), t: int)
    ensures
        covers(s.push(x), t) == (covers(s, t) || in_iv(x, t)),
{
    if covers(s, t) {
        let k = choose|k: int| 0 <= k < s.len() && #[trigger] in_iv(s[k], t);
        assert(s.push(x)[k] == s[k]);
    }
    if in_iv(x, t) {
        assert(s.push(x)[s.len() as int] == x);
    }
    if covers(s.push(x), t) {
        let k = choose|k: int| 0 <= k < s.push(x).len() && #[trigger] in_iv(s.push(x)[k], t);
        if k < s.len() {
            assert(s.push(x)[k] == s[k]);
        }
    }
}

proof fn lemma_covers_insert(s: Seq<(u64, u64)>, p: int, x: (u64, u64), t: int)
    requires
        0 <= p <= s.len(),
    ensures
        covers(s.insert(p, x), t) == (covers(s, t) || in_iv(x, t)),
{
    s.insert_ensures(p, x);
    let u = s.insert(p, x);
    if covers(s, t) {
        let k = choose|k: int| 0 <= k < s.len() && #[trigger] in_iv(s[k], t);
        if k < p {
            assert(u[k] == s[k]);
        } else {
            assert(u[k + 1] == s[k]);
        }
    }
    if in_iv(x, t) {
        assert(u[p] == x);
    }
    if covers(u, t) {
        let k = choose|k: int| 0 <= k < u.len() && #[trigger] in_iv(u[k], t);
        if k < p {
            assert(u[k] == s[k]);
        } else if k > p {
            assert(u[(k - 1) + 1] == s[k - 1]);
        }
    }
}

/// Sorts intervals by start, keeping the set of covered points.
fn sort_by_start(v: Vec<(u64, u64)>) -> (r: Vec<(u64, u64)>)
    ensures
        sorted_by_start(r@),
        forall|t: int| covers(r@, t) == covers(v@, t),
{
    let mut out: Vec<(u64, u64)> = Vec::new();
    let mut i: usize = 0;
    while i < v.len()
        invariant
            i <= v.len(),
            sorted_by_start(out@),
            forall|t: int| covers(out@, t) == covers(v@.take(i as int), t),
        decreases v.len() - i,
    {
        let x = v[i];
        let mut p: usize = 0;
        while p < out.len() && out[p].0 <= x.0
            invariant
                p <= out.len(),
                forall|k: int| 0 <= k < p ==> (#[trigger] out@[k]).0 <= x.0,
            decreases out.len() - p,
        {
            p += 1;
        }
        let ghost old_out = out@;
        out.insert(p, x);
        proof {
            old_out.insert_ensures(p as int, x);
            assert forall|k: int, l: int| 0 <= k <= l < out@.len() implies (#[trigger] out@[k]).0
                <= (#[trigger] out@[l]).0 by {
                if k < p && l < p {
                    assert(out@[k] == old_out[k] && out@[l] == old_out[l]);
                } else if k < p && l == p {
                    assert(out@[k] == old_out[k]);
                } else if k < p && l > p {
                    assert(out@[k] == old_out[k] && out@[l] == old_out[l - 1]);
                } else if k == p && l > p {
                    assert(out@[l] == old_out[(l - 1)]);
                    assert(old_out[l - 1].0 > x.0);
                } else if k > p {
                    assert(out@[k] == old_out[k - 1] && out@[l] == old_out[l - 1]);
                }
            }
            assert forall|t: int| covers(out@, t) == covers(v@.take(i + 1), t) by {
                lemma_covers_insert(old_out, p as int, x, t);
                assert(v@.take(i + 1) =~= v@.take(i as int).push(x));
                lemma_covers_push(v@.take(i as int), x, t);
            }
        }
        i += 1;
    }
    assert(v@.take(v.len() as int) =~= v@);
    out
}

proof fn lemma_canonical_start_bound(a: Seq<(u64, u64)>, t: int)
    requires
        canonical(a),
        covers(a, t),
    ensures
        a.len() > 0,
        t >= a[0].0,
{
    let k = choose|k: int| 0 <= k < a.len() && #[trigger] in_iv(a[k], t);
    if k > 0 {
        assert(a[0].1 < a[k].0);
    }
}

proof fn lemma_canonical_tail(a: Seq<(u64, u64)>, t: int)
    requires
        canonical(a),
        a.len() > 0,
    ensures
        covers(a.drop_first(), t) == (covers(a, t) && t >= a[0].1),
{
    let r = a.drop_first();
    if covers(r, t) {
        let k = choose|k: int| 0 <= k < r.len() && #[trigger] in_iv(r[k], t);
        assert(r[k] == a[k + 1]);
        assert(in_iv(a[k + 1], t));
        assert(a[0].1 < a[k + 1].0);
    }
    if covers(a, t) && t >= a[0].1 {
        let k = choose|k: int| 0 <= k < a.len() && #[trigger] in_iv(a[k], t);
        assert(k != 0);
        assert(r[k - 1] == a[k]);
        assert(in_iv(r[k - 1], t));
    }
}

/// A canonical list is determined by the points it covers: two canonical lists
/// covering the same points are equal.  So the normal form of a list of
/// intervals does not depend on their order, repeats or overlaps.
pub proof fn lemma_canonical_unique(a: Seq<(u64, u64)>, b: Seq<(u64, u64)>)
    requires
        canonical(a),
        canonical(b),
        forall|t: int| covers(a, t) == covers(b, t),
    ensures
        a == b,
    decreases a.len() + b.len(),
{
    if a.len() == 0 || b.len() == 0 {
        if a.len() > 0 {
            assert(in_iv(a[0], a[0].0 as int));
            assert(covers(a, a[0].0 as int));
            lemma_canonical_start_bound(b, a[0].0 as int);
        }
        if b.len() > 0 {
            assert(in_iv(b[0], b[0].0 as int));
            assert(covers(b, b[0].0 as int));
            lemma_canonical_start_bound(a, b[0].0 as int);
        }
        assert(a =~= b);
    } else {
        let x = a[0];
        let y = b[0];
        assert(in_iv(a[0], x.0 as int));
        assert(covers(a, x.0 as int));
        lemma_canonical_start_bound(b, x.0 as int);
        assert(in_iv(b[0], y.0 as int));
        assert(covers(b, y.0 as int));
        lemma_canonical_start_bound(a, y.0 as int);
        assert(x.0 == y.0);
        if x.1 < y.1 {
            assert(in_iv(b[0], x.1 as int));
            assert(covers(b, x.1 as int));
            let k = choose|k: int| 0 <= k < a.len() && #[trigger] in_iv(a[k], x.1 as int);
            if k > 0 {
                assert(a[0].1 < a[k].0);
            }
        }
        if y.1 < x.1 {
            assert(in_iv(a[0], y.1 as int));
            assert(covers(a, y.1 as int));
            let k = choose|k: int| 0 <= k < b.len() && #[trigger] in_iv(b[k], y.1 as int);
            if k > 0 {
                assert(b[0].1 < b[k].0);
            }
        }
        assert(x.1 == y.1);
        let ra = a.drop_first();
        let rb = b.drop_first();
        assert forall|t: int| covers(ra, t) == covers(rb, t) by {
            lemma_canonical_tail(a, t);
            lemma_canonical_tail(b, t);
        }
        assert(canonical(ra)) by {
            assert forall|k: int, l: int| 0 <= k < l < ra.len() implies (#[trigger] ra[k]).1 < (#[trigger] ra[l]).0 by {
                assert(ra[k] == a[k + 1] && ra[l] == a[l + 1]);
            }
        }
        assert(canonical(rb)) by {
            assert forall|k: int, l: int| 0 <= k < l < rb.len() implies (#[trigger] rb[k]).1 < (#[trigger] rb[l]).0 by {
                assert(rb[k] == b[k + 1] && rb[l] == b[l + 1]);
            }
        }
        lemma_canonical_unique(ra, rb);
        assert(a =~= seq![x] + ra);
        assert(b =~= seq![y] + rb);
    }
}

/// Normalises a list of intervals: drops empty ones, sorts by start and joins
/// intervals that overlap or touch.  The result is the canonical list covering
/// exactly the points the input covers.
pub fn merged_intervals(intervals: Vec<(u64, u64)>) -> (r: Vec<(u64, u64)>)
    ensures
        canonical(r@),
        forall|t: int| covers(r@, t) == covers(intervals@, t),
{
    let ghost orig = intervals@;
    let s = sort_by_start(intervals);
    let mut merged: Vec<(u64, u64)> = Vec::new();
    let mut i: usize = 0;
    while i < s.len()
        invariant
            i <= s.len(),
            sorted_by_start(s@),
            canonical(merged@),
            forall|t: int| covers(merged@, t) == covers(s@.take(i as int), t),
            merged@.len() > 0 ==> forall|j: int| i <= j < s@.len() ==> merged@.last().0 <= (
            #[trigger] s@[j]).0,
        decreases s.len() - i,
    {
        let (start, end) = s[i];
        let ghost prev = merged@;
        proof {
            assert(s@.take(i + 1) =~= s@.take(i as int).push((start, end)));
        }
        if end <= start {
            proof {
                assert forall|t: int| covers(merged@, t) == covers(s@.take(i + 1), t) by {
                    lemma_covers_push(s@.take(i as int), (start, end), t);
                }
            }
        } else if merged.len() > 0 && start <= merged[merged.len() - 1].1 {
            let last = merged.len() - 1;
            let (ls, le) = merged[last];
            let ne = if le > end { le } else { end };
            merged.set(last, (ls, ne));
            proof {
                assert(merged@ =~= prev.drop_last().push((ls, ne)));
                assert(prev =~= prev.drop_last().push((ls, le)));
                assert forall|t: int| covers(merged@, t) == covers(s@.take(i + 1), t) by {
                    lemma_covers_push(prev.drop_last(), (ls, ne), t);
                    lemma_covers_push(prev.drop_last(), (ls, le), t);
                    lemma_covers_push(s@.take(i as int), (start, end), t);
                }
                assert forall|k: int, l: int| 0 <= k < l < merged@.len() implies (
                #[trigger] merged@[k]).1 < (#[trigger] merged@[l]).0 by {
                    assert(prev[k] == merged@[k]);
                    assert(prev[l].0 == merged@[l].0);
                }
                assert forall|j: int| i + 1 <= j < s@.len() implies merged@.last().0 <= (
                #[trigger] s@[j]).0 by {
                    assert(s@[i as int].0 <= s@[j].0);
                }
            }
        } else {
            merged.push((start, end));
            proof {
                assert forall|t: int| covers(merged@, t) == covers(s@.take(i + 1), t) by {
                    lemma_covers_push(prev, (start, end), t);
                    lemma_covers_push(s@.take(i as int), (start, end), t);
                }
                assert forall|k: int, l: int| 0 <= k < l < merged@.len() implies (
                #[trigger] merged@[k]).1 < (#[trigger] merged@[l]).0 by {
                    if l == prev.len() {
                        assert(merged@[k] == prev[k]);
                        if k < prev.len() - 1 {
                            assert(prev[k].1 < prev[prev.len() - 1].0);
                        }
                    } else {
                        assert(merged@[k] == prev[k] && merged@[l] == prev[l]);
                    }
                }
                assert forall|j: int| i + 1 <= j < s@.len() implies merged@.last().0 <= (
                #[trigger] s@[j]).0 by {
                    assert(s@[i as int].0 <= s@[j].0);
                }
            }
        }
        i += 1;
    }
    assert(s@.take(s.len() as int) =~= s@);
    merged
}

/// Sum of the interval lengths.
pub fn total_duration(intervals: &[(u64, u64)]) -> (r: u64)
    requires
        total_len(intervals@) <= u64::MAX,
    ensures
        r == total_len(intervals@),
{
    let mut total: u64 = 0;
    let mut i: usize = 0;
    while i < intervals.len()
        invariant
            i <= intervals.len(),
            total == total_len(intervals@.take(i as int)),
            total_len(intervals@) <= u64::MAX,
        decreases intervals.len() - i,
    {
        proof {
            assert(intervals@.take(i + 1).drop_last() =~= intervals@.take(i as int));
            lemma_total_len_prefix(intervals@, i + 1);
        }
        let (start, end) = intervals[i];
        let d = if end > start { end - start } else { 0 };
        total = total + d;
        i += 1;
    }
    assert(intervals@.take(intervals.len() as int) =~= intervals@);
    total
}

proof fn lemma_total_len_prefix(s: Seq<(u64, u64)>, n: int)
    requires
        0 <= n <= s.len(),
    ensures
        0 <= total_len(s.take(n)) <= total_len(s),
    decreases s.len(),
{
    if s.len() > 0 {
        if n == s.len() {
            assert(s.take(n) =~= s);
            lemma_total_len_prefix(s.drop_last(), s.len() - 1);
            assert(s.drop_last().take(s.len() - 1) =~= s.drop_last());
        } else {
            lemma_total_len_prefix(s.drop_last(), n);
            assert(s.drop_last().take(n) =~= s.take(n));
        }
    }
}

proof fn lemma_sweep_bounds(a: Seq<(u64, u64)>, b: Seq<(u64, u64)>, i: int, j: int)
    ensures
        sweep(a, b, i, j) >= 0,
    decreases a.len() - i + b.len() - j,
{
    if !(i < 0 || j < 0 || i >= a.len() || j >= b.len()) {
        if a[i].1 <= b[j].1 {
            lemma_sweep_bounds(a, b, i + 1, j);
        } else {
            lemma_sweep_bounds(a, b, i, j + 1);
        }
    }
}

/// Length of time covered by both lists, computed by a merge sweep.  For
/// canonical lists this is the total overlap of every pair (see
/// `lemma_intersection_is_pairwise_overlap`).
pub fn interval_intersection_duration(a: &[(u64, u64)], b: &[(u64, u64)]) -> (r: u64)
    requires
        sweep(a@, b@, 0, 0) <= u64::MAX,
    ensures
        r == sweep(a@, b@, 0, 0),
{
    let mut i: usize = 0;
    let mut j: usize = 0;
    let mut total: u64 = 0;
    while i < a.len() && j < b.len()
        invariant
            i <= a.len(),
            j <= b.len(),
            total + sweep(a@, b@, i as int, j as int) == sweep(a@, b@, 0, 0),
            sweep(a@, b@, 0, 0) <= u64::MAX,
        decreases a.len() - i + b.len() - j,
    {
        let (a_start, a_end) = a[i];
        let (b_start, b_end) = b[j];
        proof {
            if a_end <= b_end {
                lemma_sweep_bounds(a@, b@, i + 1, j as int);
            } else {
                lemma_sweep_bounds(a@, b@, i as int, j + 1);
            }
        }
        total = total + overlap_ms(a_start, a_end, b_start, b_end);
        if a_end <= b_end {
            i += 1;
        } else {
            j += 1;
        }
    }
    total
}

proof fn lemma_row_tail_zero(x: (u64, u64), b: Seq<(u64, u64)>, j: int)
    requires
        canonical(b),
        0 <= j,
        j < b.len() ==> x.1 <= b[j].0,
    ensures
        row_overlap(x, b, j) == 0,
    decreases b.len() - j,
{
    if j < b.len() {
        if j + 1 < b.len() {
            assert(b[j].1 < b[j + 1].0);
            assert(b[j].0 < b[j].1);
        }
        lemma_row_tail_zero(x, b, j + 1);
    }
}

proof fn lemma_col_tail_zero(a: Seq<(u64, u64)>, y: (u64, u64), i: int, j: int, b: Seq<(u64, u64)>)
    requires
        canonical(a),
        0 <= i,
        0 <= j < b.len(),
        b[j] == y,
        i < a.len() ==> y.1 <= a[i].0,
    ensures
        pair_overlap(a, b, i, j) == pair_overlap(a, b, i, j + 1),
    decreases a.len() - i,
{
    if i < a.len() {
        if i + 1 < a.len() {
            assert(a[i].1 < a[i + 1].0);
            assert(a[i].0 < a[i].1);
        }
        lemma_col_tail_zero(a, y, i + 1, j, b);
    }
}

proof fn lemma_pair_overlap_empty(a: Seq<(u64, u64)>, b: Seq<(u64, u64)>, i: int, j: int)
    requires
        j >= b.len(),
    ensures
        pair_overlap(a, b, i, j) == 0,
    decreases a.len() - i,
{
    if !(i < 0 || i >= a.len()) {
        lemma_pair_overlap_empty(a, b, i + 1, j);
    }
}

proof fn lemma_sweep_pairs(a: Seq<(u64, u64)>, b: Seq<(u64, u64)>, i: int, j: int)
    requires
        canonical(a),
        canonical(b),
        0 <= i,
        0 <= j,
    ensures
        sweep(a, b, i, j) == pair_overlap(a, b, i, j),
    decreases a.len() - i + b.len() - j,
{
    if i >= a.len() {
    } else if j >= b.len() {
        lemma_pair_overlap_empty(a, b, i, j);
    } else if a[i].1 <= b[j].1 {
        lemma_sweep_pairs(a, b, i + 1, j);
        if j + 1 < b.len() {
            assert(b[j].1 < b[j + 1].0);
        }
        lemma_row_tail_zero(a[i], b, j + 1);
    } else {
        lemma_sweep_pairs(a, b, i, j + 1);
        if i + 1 < a.len() {
            assert(a[i].1 < a[i + 1].0);
        }
        lemma_col_tail_zero(a, b[j], i + 1, j, b);
        assert(pair_overlap(a, b, i, j) == row_overlap(a[i], b, j) + pair_overlap(a, b, i + 1, j));
        assert(row_overlap(a[i], b, j) == overlap(
            a[i].0 as int,
            a[i].1 as int,
            b[j].0 as int,
            b[j].1 as int,
        ) + row_overlap(a[i], b, j + 1));
    }
}

/// For canonical lists, the sweep of `interval_intersection_duration` adds up
/// the overlap of every pair of intervals, one from each list.
pub proof fn lemma_intersection_is_pairwise_overlap(a: Seq<(u64, u64)>, b: Seq<(u64, u64)>)
    requires
        canonical(a),
        canonical(b),
    ensures
        sweep(a, b, 0, 0) == pair_overlap(a, b, 0, 0),
{
    lemma_sweep_pairs(a, b, 0, 0);
}


proof fn lemma_row_self(p: Seq<(u64, u64)>, i: int, j: int)
    requires
        canonical(p),
        0 <= i < p.len(),
        0 <= j <= p.len(),
    ensures
        row_overlap(p[i], p, j) == (if j <= i { p[i].1 - p[i].0 } else { 0 }),
    decreases p.len() - j,
{
    if j < p.len() {
        lemma_row_self(p, i, j + 1);
        assert(p[i].0 < p[i].1);
        if j < i {
            assert(p[j].1 < p[i].0);
        } else if j > i {
            assert(p[i].1 < p[j].0);
        }
    }
}

proof fn lemma_pair_self(p: Seq<(u64, u64)>, i: int)
    requires
        canonical(p),
        0 <= i <= p.len(),
    ensures
        pair_overlap(p, p, i, 0) == total_len(p) - total_len(p.take(i)),
    decreases p.len() - i,
{
    if i < p.len() {
        lemma_pair_self(p, i + 1);
        lemma_row_self(p, i, 0);
        assert(p.take(i + 1).drop_last() =~= p.take(i));
        assert(p.take(i + 1).last() == p[i]);
        assert(p[i].0 < p[i].1);
    } else {
        assert(p.take(i) =~= p);
    }
}

/// A list in normal form overlaps itself in exactly its own length: the
/// pairwise overlaps of distinct intervals are all zero.
pub proof fn lemma_self_overlap(p: Seq<(u64, u64)>)
    requires
        canonical(p),
    ensures
        pair_overlap(p, p, 0, 0) == total_len(p),
{
    lemma_pair_self(p, 0);
    assert(p.take(0) =~= Seq::<(u64, u64)>::empty());
}

} // verus!
