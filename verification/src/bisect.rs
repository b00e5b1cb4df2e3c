//! Partition points by iterative bisection.
//!
//! Points are numbered `0..n`; a distance function gives, for a centre and
//! a point, a distance as an unsigned integer (any totally ordered distance
//! can be mapped to one). The points are first ordered around a corner,
//! the point farthest from point 0. Then each region is split at its median
//! distance from its centre: the nearer half, with the centre, becomes one
//! region and the farther half another, `depth` times over. The centre of a
//! region is its point farthest from the centre of the region it was split
//! from.
use vstd::prelude::*;

use crate::counting::{count_of, lemma_count_of_append};
use crate::make_partition::{is_power_of_two, lemma_two_pow_positive, two_pow};
use vstd::seq_lib::group_to_multiset_ensures;

verus! {

/// Whether `dist` can be called on any two points and always gives the
/// same distance for them.
pub open spec fn is_distance<F: Fn(usize, usize) -> u64>(dist: F) -> bool {
    &&& forall|a: usize, b: usize| #[trigger] dist.requires((a, b))
    &&& forall|a: usize, b: usize, x: u64, y: u64|
        #![trigger dist.ensures((a, b), x), dist.ensures((a, b), y)]
        dist.ensures((a, b), x) && dist.ensures((a, b), y) ==> x == y
}

/// The distance `dist` gives from centre `a` to point `b`.
pub open spec fn dist_value<F: Fn(usize, usize) -> u64>(dist: F, a: usize, b: usize) -> u64 {
    choose|r: u64| dist.ensures((a, b), r)
}

proof fn lemma_dist_value<F: Fn(usize, usize) -> u64>(dist: F, a: usize, b: usize, r: u64)
    requires
        is_distance(dist),
        dist.ensures((a, b), r),
    ensures
        dist_value(dist, a, b) == r,
{
}

/// The regions, as ranges of positions, that bisecting the positions
/// `lo..lo+len` `depth` times gives, nearer halves first.
pub open spec fn leaf_ranges(lo: int, len: nat, depth: nat) -> Seq<(usize, usize)>
    decreases depth,
{
    if depth == 0 || len < 2 {
        seq![(lo as usize, (lo + len) as usize)]
    } else {
        leaf_ranges(lo, len / 2, (depth - 1) as nat) + leaf_ranges(
            lo + len / 2,
            (len - len / 2) as nat,
            (depth - 1) as nat,
        )
    }
}

/// The depths at which the bisection steps of `len` points, bisected
/// `depth` times, are done, in the order they finish: each step reports
/// its depth before the two halves are bisected, the nearer half first.
pub open spec fn progress_log(len: nat, depth: nat) -> Seq<u32>
    decreases depth,
{
    if depth == 0 || len < 2 {
        Seq::empty()
    } else {
        seq![depth as u32] + progress_log(len / 2, (depth - 1) as nat) + progress_log(
            (len - len / 2) as nat,
            (depth - 1) as nat,
        )
    }
}

/// Whether the points at positions `lo..lo+len` of `order` were bisected
/// `depth` times under the distance `d`: the first `len / 2` points hold a
/// centre that is no farther from any of the others among them than from
/// any of the remaining points, and both halves are bisected once less.
pub open spec fn bisected(
    order: Seq<usize>,
    lo: int,
    len: nat,
    depth: nat,
    d: spec_fn(usize, usize) -> u64,
) -> bool
    decreases depth,
{
    if depth == 0 || len < 2 {
        true
    } else {
        let m = lo + len / 2;
        let inner = order.subrange(lo, m);
        let outer = order.subrange(m, lo + len);
        &&& exists|c: usize|
            #![trigger inner.contains(c)]
            inner.contains(c) && forall|x: usize, y: usize|
                #![trigger inner.contains(x), outer.contains(y)]
                inner.contains(x) && x != c && outer.contains(y) ==> d(c, x) <= d(c, y)
        &&& bisected(order, lo, len / 2, (depth - 1) as nat, d)
        &&& bisected(order, m, (len - len / 2) as nat, (depth - 1) as nat, d)
    }
}

/// Whether the points at positions `lo..lo+len` of `order`, split from a
/// region whose centre is `pc`, were bisected `depth` times around the
/// centres the bisection picks: the centre `c` of the range is, among its
/// points other than `pc`, one farthest from `pc`; it stands in the first
/// `len / 2` points, and no other point among them is farther from it than
/// any of the remaining points; and both halves are bisected once less,
/// as regions split from a region with centre `c`.
pub open spec fn bisected_around(
    order: Seq<usize>,
    lo: int,
    len: nat,
    depth: nat,
    d: spec_fn(usize, usize) -> u64,
    pc: usize,
) -> bool
    decreases depth,
{
    if depth == 0 || len < 2 {
        true
    } else {
        let m = lo + len / 2;
        let region = order.subrange(lo, lo + len);
        let inner = order.subrange(lo, m);
        let outer = order.subrange(m, lo + len);
        exists|c: usize|
            #![trigger inner.contains(c)]
            {
                &&& inner.contains(c)
                &&& c != pc
                &&& forall|x: usize|
                    #![trigger region.contains(x)]
                    region.contains(x) && x != pc ==> d(pc, x) <= d(pc, c)
                &&& forall|x: usize, y: usize|
                    #![trigger inner.contains(x), outer.contains(y)]
                    inner.contains(x) && x != c && outer.contains(y) ==> d(c, x) <= d(c, y)
                &&& bisected_around(order, lo, len / 2, (depth - 1) as nat, d, c)
                &&& bisected_around(order, m, (len - len / 2) as nat, (depth - 1) as nat, d, c)
            }
    }
}

/// Bisection around centres of a range only depends on the points in it.
proof fn lemma_bisected_around_frame(
    s: Seq<usize>,
    t: Seq<usize>,
    lo: int,
    len: nat,
    depth: nat,
    d: spec_fn(usize, usize) -> u64,
    pc: usize,
)
    requires
        0 <= lo,
        lo + len <= s.len(),
        lo + len <= t.len(),
        s.subrange(lo, lo + len) == t.subrange(lo, lo + len),
        bisected_around(s, lo, len, depth, d, pc),
    ensures
        bisected_around(t, lo, len, depth, d, pc),
    decreases depth,
{
    if depth > 0 && len >= 2 {
        let m = lo + len / 2;
        assert(s.subrange(lo, m) == s.subrange(lo, lo + len).subrange(0, (len / 2) as int));
        assert(t.subrange(lo, m) == t.subrange(lo, lo + len).subrange(0, (len / 2) as int));
        assert(s.subrange(m, lo + len) == s.subrange(lo, lo + len).subrange((len / 2) as int, len as int));
        assert(t.subrange(m, lo + len) == t.subrange(lo, lo + len).subrange((len / 2) as int, len as int));
        let inner = s.subrange(lo, m);
        let c = choose|c: usize|
            #![trigger inner.contains(c)]
            {
                &&& inner.contains(c)
                &&& c != pc
                &&& forall|x: usize|
                    #![trigger s.subrange(lo, lo + len).contains(x)]
                    s.subrange(lo, lo + len).contains(x) && x != pc ==> d(pc, x) <= d(pc, c)
                &&& forall|x: usize, y: usize|
                    #![trigger inner.contains(x), s.subrange(m, lo + len).contains(y)]
                    inner.contains(x) && x != c && s.subrange(m, lo + len).contains(y) ==> d(c, x) <= d(c, y)
                &&& bisected_around(s, lo, len / 2, (depth - 1) as nat, d, c)
                &&& bisected_around(s, m, (len - len / 2) as nat, (depth - 1) as nat, d, c)
            };
        lemma_bisected_around_frame(s, t, lo, len / 2, (depth - 1) as nat, d, c);
        lemma_bisected_around_frame(s, t, m, (len - len / 2) as nat, (depth - 1) as nat, d, c);
        assert(t.subrange(lo, m).contains(c));
    }
}

/// The points of a sequence of (distance, point) pairs.
pub open spec fn points(s: Seq<(u64, usize)>) -> Seq<usize> {
    s.map_values(|p: (u64, usize)| p.1)
}

/// Pairs in ascending order of distance, then point.
pub open spec fn pair_le(a: (u64, usize), b: (u64, usize)) -> bool {
    a.0 < b.0 || (a.0 == b.0 && a.1 <= b.1)
}

/// The pairs are in increasing order.
pub open spec fn sorted_pairs(s: Seq<(u64, usize)>) -> bool {
    forall|i: int, j: int| 0 <= i < j < s.len() ==> pair_le(#[trigger] s[i], #[trigger] s[j])
}

/// Calls `slice::sort_unstable` on (distance, point) pairs, which sorts
/// them in ascending order, by distance and then by point.
#[verifier::external_body]
fn sort_pairs(v: &mut Vec<(u64, usize)>)
    ensures
        final(v)@.to_multiset() == old(v)@.to_multiset(),
        sorted_pairs(final(v)@),
{
    v.sort_unstable();
}

/// Sorting pairs whose points are distinct keeps the set of points, and
/// they stay distinct.
proof fn lemma_sorted_points(old_s: Seq<(u64, usize)>, new_s: Seq<(u64, usize)>)
    requires
        new_s.to_multiset() == old_s.to_multiset(),
        points(old_s).no_duplicates(),
    ensures
        points(new_s).no_duplicates(),
        forall|x: usize| points(new_s).contains(x) <==> points(old_s).contains(x),
        new_s.len() == old_s.len(),
{
    broadcast use group_to_multiset_ensures;

    assert(old_s.no_duplicates()) by {
        assert forall|i: int, j: int|
            0 <= i < old_s.len() && 0 <= j < old_s.len() && i != j implies old_s[i] != old_s[j] by {
            assert(points(old_s)[i] == old_s[i].1);
            assert(points(old_s)[j] == old_s[j].1);
        }
    }
    old_s.lemma_multiset_has_no_duplicates();
    new_s.lemma_multiset_has_no_duplicates_conv();
    assert(new_s.len() == new_s.to_multiset().len());
    assert(old_s.len() == old_s.to_multiset().len());
    assert forall|x: usize| points(new_s).contains(x) implies points(old_s).contains(x) by {
        let i = choose|i: int| 0 <= i < new_s.len() && points(new_s)[i] == x;
        assert(new_s.contains(new_s[i]));
        assert(new_s.to_multiset().count(new_s[i]) > 0);
        assert(old_s.contains(new_s[i]));
        let j = choose|j: int| 0 <= j < old_s.len() && old_s[j] == new_s[i];
        assert(points(old_s)[j] == x);
    }
    assert forall|x: usize| points(old_s).contains(x) implies points(new_s).contains(x) by {
        let i = choose|i: int| 0 <= i < old_s.len() && points(old_s)[i] == x;
        assert(old_s.contains(old_s[i]));
        assert(old_s.to_multiset().count(old_s[i]) > 0);
        assert(new_s.contains(old_s[i]));
        let j = choose|j: int| 0 <= j < new_s.len() && new_s[j] == old_s[i];
        assert(points(new_s)[j] == x);
    }
    assert forall|i: int, j: int|
        0 <= i < new_s.len() && 0 <= j < new_s.len() && i != j implies points(new_s)[i] != points(
        new_s,
    )[j] by {
        if points(new_s)[i] == points(new_s)[j] {
            assert(new_s.contains(new_s[i]));
            assert(new_s.contains(new_s[j]));
            assert(new_s.to_multiset().count(new_s[i]) > 0);
            assert(new_s.to_multiset().count(new_s[j]) > 0);
            assert(old_s.contains(new_s[i]));
            assert(old_s.contains(new_s[j]));
            let a = choose|a: int| 0 <= a < old_s.len() && old_s[a] == new_s[i];
            let b = choose|b: int| 0 <= b < old_s.len() && old_s[b] == new_s[j];
            assert(points(old_s)[a] == points(old_s)[b]);
        }
    }
}

/// Whether `t` holds the same points as `s` at positions `lo..hi`.
pub open spec fn same_points(s: Seq<usize>, t: Seq<usize>, lo: int, hi: int) -> bool {
    forall|x: usize| #[trigger] t.subrange(lo, hi).contains(x) <==> s.subrange(lo, hi).contains(x)
}

proof fn lemma_split_contains(s: Seq<usize>, lo: int, m: int, hi: int, x: usize)
    requires
        0 <= lo <= m <= hi <= s.len(),
    ensures
        s.subrange(lo, hi).contains(x) <==> (s.subrange(lo, m).contains(x) || s.subrange(
            m,
            hi,
        ).contains(x)),
{
    if s.subrange(lo, hi).contains(x) {
        let i = choose|i: int| 0 <= i < hi - lo && s.subrange(lo, hi)[i] == x;
        if i < m - lo {
            assert(s.subrange(lo, m)[i] == x);
        } else {
            assert(s.subrange(m, hi)[i - (m - lo)] == x);
        }
    }
    if s.subrange(lo, m).contains(x) {
        let i = choose|i: int| 0 <= i < m - lo && s.subrange(lo, m)[i] == x;
        assert(s.subrange(lo, hi)[i] == x);
    }
    if s.subrange(m, hi).contains(x) {
        let i = choose|i: int| 0 <= i < hi - m && s.subrange(m, hi)[i] == x;
        assert(s.subrange(lo, hi)[i + (m - lo)] == x);
    }
}

/// Bisection of a range only depends on the points in it.
proof fn lemma_bisected_frame(
    s: Seq<usize>,
    t: Seq<usize>,
    lo: int,
    len: nat,
    depth: nat,
    d: spec_fn(usize, usize) -> u64,
)
    requires
        0 <= lo,
        lo + len <= s.len(),
        lo + len <= t.len(),
        s.subrange(lo, lo + len) == t.subrange(lo, lo + len),
        bisected(s, lo, len, depth, d),
    ensures
        bisected(t, lo, len, depth, d),
    decreases depth,
{
    if depth > 0 && len >= 2 {
        let m = lo + len / 2;
        assert(s.subrange(lo, m) == s.subrange(lo, lo + len).subrange(0, (len / 2) as int));
        assert(t.subrange(lo, m) == t.subrange(lo, lo + len).subrange(0, (len / 2) as int));
        assert(s.subrange(m, lo + len) == s.subrange(lo, lo + len).subrange((len / 2) as int, len as int));
        assert(t.subrange(m, lo + len) == t.subrange(lo, lo + len).subrange((len / 2) as int, len as int));
        lemma_bisected_frame(s, t, lo, len / 2, (depth - 1) as nat, d);
        lemma_bisected_frame(s, t, m, (len - len / 2) as nat, (depth - 1) as nat, d);
    }
}

/// The halves of a range without repeated points have none either.
proof fn lemma_halves_no_duplicates(s: Seq<usize>, lo: int, m: int, hi: int)
    requires
        0 <= lo <= m <= hi <= s.len(),
        s.subrange(lo, hi).no_duplicates(),
    ensures
        s.subrange(lo, m).no_duplicates(),
        s.subrange(m, hi).no_duplicates(),
{
    assert forall|a: int, b: int|
        0 <= a < m - lo && 0 <= b < m - lo && a != b implies s.subrange(lo, m)[a] != s.subrange(
        lo,
        m,
    )[b] by {
        assert(s.subrange(lo, hi)[a] == s.subrange(lo, m)[a]);
        assert(s.subrange(lo, hi)[b] == s.subrange(lo, m)[b]);
    }
    assert forall|a: int, b: int|
        0 <= a < hi - m && 0 <= b < hi - m && a != b implies s.subrange(m, hi)[a] != s.subrange(
        m,
        hi,
    )[b] by {
        assert(s.subrange(lo, hi)[a + (m - lo)] == s.subrange(m, hi)[a]);
        assert(s.subrange(lo, hi)[b + (m - lo)] == s.subrange(m, hi)[b]);
    }
}

/// Swap the points at positions `lo` and `hi - 1`.
fn swap_ends(pts: &mut Vec<(u64, usize)>, lo: usize, hi: usize)
    requires
        lo < hi <= old(pts)@.len(),
        points(old(pts)@).subrange(lo as int, hi as int).no_duplicates(),
    ensures
        final(pts)@.len() == old(pts)@.len(),
        forall|k: int|
            0 <= k < old(pts)@.len() && !(lo <= k < hi) ==> final(pts)@[k] == old(pts)@[k],
        final(pts)@[lo as int] == old(pts)@[hi - 1],
        final(pts)@[hi - 1] == old(pts)@[lo as int],
        same_points(points(old(pts)@), points(final(pts)@), lo as int, hi as int),
        points(final(pts)@).subrange(lo as int, hi as int).no_duplicates(),
{
    let ghost s0 = pts@;
    let first = pts[lo];
    let last = pts[hi - 1];
    pts.set(lo, last);
    pts.set(hi - 1, first);
    let ghost s1 = pts@;
    proof {
        let t0 = points(s0).subrange(lo as int, hi as int);
        let t1 = points(s1).subrange(lo as int, hi as int);
        let n = hi - lo;
        assert forall|i: int| 0 <= i < n implies #[trigger] t1[i] == t0[if i == 0 {
            n - 1
        } else if i == n - 1 {
            0
        } else {
            i
        }] by {}
        assert forall|x: usize| t1.contains(x) <==> t0.contains(x) by {
            if t1.contains(x) {
                let i = choose|i: int| 0 <= i < n && t1[i] == x;
                let j = if i == 0 {
                    n - 1
                } else if i == n - 1 {
                    0
                } else {
                    i
                };
                assert(t0[j] == x);
            }
            if t0.contains(x) {
                let i = choose|i: int| 0 <= i < n && t0[i] == x;
                let j = if i == 0 {
                    n - 1
                } else if i == n - 1 {
                    0
                } else {
                    i
                };
                assert(t1[j] == x);
            }
        }
    }
}

/// Put the points at positions `lo + 1..hi` in ascending order of their
/// distance from the centre at position `lo`, with that distance.
fn sort_around_centre<F: Fn(usize, usize) -> u64>(
    pts: &mut Vec<(u64, usize)>,
    lo: usize,
    hi: usize,
    dist: &F,
)
    requires
        lo < hi <= old(pts)@.len(),
        is_distance(*dist),
        points(old(pts)@).subrange(lo as int, hi as int).no_duplicates(),
    ensures
        final(pts)@.len() == old(pts)@.len(),
        forall|k: int|
            0 <= k < old(pts)@.len() && !(lo < k < hi) ==> final(pts)@[k] == old(pts)@[k],
        same_points(points(old(pts)@), points(final(pts)@), lo as int, hi as int),
        points(final(pts)@).subrange(lo as int, hi as int).no_duplicates(),
        forall|k: int|
            lo < k < hi ==> (#[trigger] final(pts)@[k]).0 == dist_value(
                *dist,
                final(pts)@[lo as int].1,
                final(pts)@[k].1,
            ),
        forall|i: int, j: int|
            lo < i < j < hi ==> (#[trigger] final(pts)@[i]).0 <= (#[trigger] final(pts)@[j]).0,
{
    let ghost s1 = pts@;
    let c = pts[lo].1;
    let mut rest: Vec<(u64, usize)> = Vec::new();
    let mut i = lo + 1;
    while i < hi
        invariant
            lo < i <= hi <= pts@.len(),
            pts@ == s1,
            c == s1[lo as int].1,
            is_distance(*dist),
            rest@.len() == i - lo - 1,
            forall|k: int|
                0 <= k < rest@.len() ==> (#[trigger] rest@[k]).1 == s1[lo + 1 + k].1
                    && rest@[k].0 == dist_value(*dist, c, rest@[k].1),
        decreases hi - i,
    {
        let p = pts[i].1;
        let dp = dist(c, p);
        proof {
            lemma_dist_value(*dist, c, p, dp);
        }
        rest.push((dp, p));
        i = i + 1;
    }
    let ghost rest0 = rest@;
    proof {
        assert(points(rest0) == points(s1).subrange(lo + 1, hi as int));
        lemma_halves_no_duplicates(points(s1), lo as int, lo + 1, hi as int);
    }
    sort_pairs(&mut rest);
    let ghost rest1 = rest@;
    proof {
        lemma_sorted_points(rest0, rest1);
        broadcast use group_to_multiset_ensures;

        assert forall|k: int| 0 <= k < rest1.len() implies (#[trigger] rest1[k]).0 == dist_value(
            *dist,
            c,
            rest1[k].1,
        ) by {
            assert(rest1.contains(rest1[k]));
            assert(rest1.to_multiset().count(rest1[k]) > 0);
            assert(rest0.contains(rest1[k]));
        }
    }
    let mut k: usize = 0;
    while k < rest.len()
        invariant
            rest@ == rest1,
            rest1.len() == hi - lo - 1,
            lo + 1 + rest1.len() <= pts@.len(),
            k <= rest1.len(),
            pts@.len() == s1.len(),
            forall|j: int| 0 <= j < s1.len() && !(lo + 1 <= j < lo + 1 + k) ==> pts@[j] == s1[j],
            forall|j: int| 0 <= j < k ==> pts@[lo + 1 + j] == rest1[j],
        decreases rest1.len() - k,
    {
        pts.set(lo + 1 + k, rest[k]);
        k = k + 1;
    }
    let ghost s2 = pts@;
    proof {
        let t1 = points(s1).subrange(lo as int, hi as int);
        let t2 = points(s2).subrange(lo as int, hi as int);
        assert(points(s2).subrange(lo + 1, hi as int) == points(rest1));
        assert(t2[0] == c && t1[0] == c);
        assert forall|x: usize| t2.contains(x) <==> t1.contains(x) by {
            lemma_split_contains(points(s2), lo as int, lo + 1, hi as int, x);
            lemma_split_contains(points(s1), lo as int, lo + 1, hi as int, x);
            assert(points(s2).subrange(lo as int, lo + 1) == points(s1).subrange(
                lo as int,
                lo + 1,
            ));
        }
        assert forall|a: int, b: int|
            0 <= a < hi - lo && 0 <= b < hi - lo && a != b implies t2[a] != t2[b] by {
            if a > 0 && b > 0 {
                assert(points(rest1)[a - 1] != points(rest1)[b - 1]);
            } else {
                let e = if a == 0 {
                    b
                } else {
                    a
                };
                assert(points(rest1).contains(points(rest1)[e - 1]));
                assert(points(s1).subrange(lo + 1, hi as int).contains(points(rest1)[e - 1]));
                let q = choose|q: int|
                    0 <= q < hi - lo - 1 && #[trigger] points(s1).subrange(lo + 1, hi as int)[q]
                        == points(rest1)[e - 1];
                assert(t1[q + 1] == points(rest1)[e - 1]);
            }
        }
        assert forall|k: int| lo < k < hi implies (#[trigger] s2[k]).0 == dist_value(
            *dist,
            s2[lo as int].1,
            s2[k].1,
        ) by {
            assert(s2[k] == rest1[k - lo - 1]);
        }
        assert forall|i: int, j: int| lo < i < j < hi implies (#[trigger] s2[i]).0 <= (
        #[trigger] s2[j]).0 by {
            assert(pair_le(rest1[i - lo - 1], rest1[j - lo - 1]));
        }
    }
}

/// Right after sorting around the centre, the nearer half of a range holds
/// the centre and no point of it is farther from the centre than a point of
/// the farther half.
proof fn lemma_split_after_sort(
    s: Seq<(u64, usize)>,
    lo: int,
    m: int,
    hi: int,
    d: spec_fn(usize, usize) -> u64,
)
    requires
        0 <= lo < m <= hi <= s.len(),
        points(s).subrange(lo, hi).no_duplicates(),
        forall|k: int| lo < k < hi ==> (#[trigger] s[k]).0 == d(s[lo].1, s[k].1),
        forall|i: int, j: int| lo < i < j < hi ==> (#[trigger] s[i]).0 <= (#[trigger] s[j]).0,
    ensures
        ({
            let inner = points(s).subrange(lo, m);
            let outer = points(s).subrange(m, hi);
            let c = s[lo].1;
            inner.contains(c) && forall|x: usize, y: usize|
                #![trigger inner.contains(x), outer.contains(y)]
                inner.contains(x) && x != c && outer.contains(y) ==> d(c, x) <= d(c, y)
        }),
{
    let inner = points(s).subrange(lo, m);
    let outer = points(s).subrange(m, hi);
    let c = s[lo].1;
    assert(inner[0] == c);
    assert forall|x: usize, y: usize|
        inner.contains(x) && x != c && outer.contains(y) implies d(c, x) <= d(c, y) by {
        let a = choose|a: int| 0 <= a < m - lo && inner[a] == x;
        let b = choose|b: int| 0 <= b < hi - m && outer[b] == y;
        assert(a > 0);
        assert(s[lo + a].0 <= s[m + b].0);
    }
}

/// After the halves were bisected each within itself, the range still
/// splits as it did before, its points are those it had, and none repeats.
proof fn lemma_join_halves(
    p2: Seq<usize>,
    p4: Seq<usize>,
    lo: int,
    m: int,
    hi: int,
    c: usize,
    d: spec_fn(usize, usize) -> u64,
)
    requires
        0 <= lo <= m <= hi <= p2.len(),
        p4.len() == p2.len(),
        same_points(p2, p4, lo, m),
        same_points(p2, p4, m, hi),
        p2.subrange(lo, hi).no_duplicates(),
        p4.subrange(lo, m).no_duplicates(),
        p4.subrange(m, hi).no_duplicates(),
        p2.subrange(lo, m).contains(c),
        forall|x: usize, y: usize|
            #![trigger p2.subrange(lo, m).contains(x), p2.subrange(m, hi).contains(y)]
            p2.subrange(lo, m).contains(x) && x != c && p2.subrange(m, hi).contains(y) ==> d(c, x)
                <= d(c, y),
    ensures
        same_points(p2, p4, lo, hi),
        p4.subrange(lo, hi).no_duplicates(),
        p4.subrange(lo, m).contains(c),
        forall|x: usize, y: usize|
            #![trigger p4.subrange(lo, m).contains(x), p4.subrange(m, hi).contains(y)]
            p4.subrange(lo, m).contains(x) && x != c && p4.subrange(m, hi).contains(y) ==> d(c, x)
                <= d(c, y),
{
    let inner = p4.subrange(lo, m);
    let outer = p4.subrange(m, hi);
    assert forall|x: usize| p4.subrange(lo, hi).contains(x) <==> p2.subrange(lo, hi).contains(x) by {
        lemma_split_contains(p4, lo, m, hi, x);
        lemma_split_contains(p2, lo, m, hi, x);
    }
    assert forall|x: usize, y: usize|
        inner.contains(x) && x != c && outer.contains(y) implies d(c, x) <= d(c, y) by {
        assert(p2.subrange(lo, m).contains(x));
        assert(p2.subrange(m, hi).contains(y));
    }
    assert forall|a: int, b: int|
        0 <= a < hi - lo && 0 <= b < hi - lo && a != b implies p4.subrange(lo, hi)[a]
        != p4.subrange(lo, hi)[b] by {
        let x = p4.subrange(lo, hi)[a];
        let y = p4.subrange(lo, hi)[b];
        if a < m - lo && b < m - lo {
            assert(inner[a] == x && inner[b] == y);
        } else if a >= m - lo && b >= m - lo {
            assert(outer[a - (m - lo)] == x && outer[b - (m - lo)] == y);
        } else if x == y {
            let (ia, ob) = if a < m - lo {
                (a, b)
            } else {
                (b, a)
            };
            assert(inner[ia] == x);
            assert(outer[ob - (m - lo)] == x);
            assert(inner.contains(x));
            assert(outer.contains(x));
            assert(p2.subrange(lo, m).contains(x));
            assert(p2.subrange(m, hi).contains(x));
            let i2 = choose|i2: int| 0 <= i2 < m - lo && p2.subrange(lo, m)[i2] == x;
            let j2 = choose|j2: int| 0 <= j2 < hi - m && p2.subrange(m, hi)[j2] == x;
            assert(p2.subrange(lo, hi)[i2] == x);
            assert(p2.subrange(lo, hi)[j2 + (m - lo)] == x);
        }
    }
}

/// Bisect the points at positions `lo..hi` `depth` times and append the
/// regions, as ranges of positions, to `ranges`.
#[verifier::rlimit(50)]
#[verifier::spinoff_prover]
fn partition<F: Fn(usize, usize) -> u64>(
    pts: &mut Vec<(u64, usize)>,
    lo: usize,
    hi: usize,
    dist: &F,
    depth: u32,
    ranges: &mut Vec<(usize, usize)>,
    progress: &mut Vec<u32>,
    Ghost(pc): Ghost<usize>,
)
    requires
        lo <= hi <= old(pts)@.len(),
        is_distance(*dist),
        points(old(pts)@).subrange(lo as int, hi as int).no_duplicates(),
        depth > 0 && hi - lo >= 2 ==> points(old(pts)@)[hi - 1] != pc && forall|k: int|
            lo <= k < hi && #[trigger] points(old(pts)@)[k] != pc ==> dist_value(*dist, pc, points(old(pts)@)[k])
                <= dist_value(*dist, pc, points(old(pts)@)[hi - 1]),
    ensures
        final(pts)@.len() == old(pts)@.len(),
        forall|k: int|
            0 <= k < old(pts)@.len() && !(lo <= k < hi) ==> final(pts)@[k] == old(pts)@[k],
        same_points(points(old(pts)@), points(final(pts)@), lo as int, hi as int),
        points(final(pts)@).subrange(lo as int, hi as int).no_duplicates(),
        final(ranges)@ == old(ranges)@ + leaf_ranges(lo as int, (hi - lo) as nat, depth as nat),
        final(progress)@ == old(progress)@ + progress_log((hi - lo) as nat, depth as nat),
        bisected(
            points(final(pts)@),
            lo as int,
            (hi - lo) as nat,
            depth as nat,
            |a: usize, b: usize| dist_value(*dist, a, b),
        ),
        bisected_around(
            points(final(pts)@),
            lo as int,
            (hi - lo) as nat,
            depth as nat,
            |a: usize, b: usize| dist_value(*dist, a, b),
            pc,
        ),
    decreases depth,
{
    let ghost d = |a: usize, b: usize| dist_value(*dist, a, b);
    if depth == 0 || hi - lo < 2 {
        ranges.push((lo, hi));
        proof {
            assert(progress@ =~= progress@ + progress_log((hi - lo) as nat, depth as nat));
        }
        return;
    }
    let ghost s0 = pts@;
    // the last point becomes the centre
    swap_ends(pts, lo, hi);
    let ghost s1 = pts@;
    sort_around_centre(pts, lo, hi, dist);
    let ghost s2 = pts@;
    let c = pts[lo].1;
    let m = lo + (hi - lo) / 2;
    proof {
        lemma_split_after_sort(s2, lo as int, m as int, hi as int, d);
        lemma_halves_no_duplicates(points(s2), lo as int, m as int, hi as int);
    }
    let ghost r0 = ranges@;
    let ghost g0 = progress@;
    progress.push(depth);
    proof {
        let p2 = points(s2);
        if depth - 1 > 0 && m - lo >= 2 {
            assert(p2.subrange(lo as int, hi as int)[m - 1 - lo] == p2[m - 1]);
            assert(p2.subrange(lo as int, hi as int)[0] == p2[lo as int]);
            assert(p2[m - 1] != c);
            assert forall|k: int| lo <= k < m && #[trigger] points(s2)[k] != c implies dist_value(*dist, c, points(s2)[k])
                <= dist_value(*dist, c, points(s2)[m - 1]) by {
                assert(k != lo);
                assert(s2[k].0 <= s2[m - 1].0);
            }
        }
    }
    partition(pts, lo, m, dist, depth - 1, ranges, progress, Ghost(c));
    let ghost s3 = pts@;
    proof {
        assert(points(s3).subrange(m as int, hi as int) == points(s2).subrange(m as int, hi as int));
        let p2 = points(s2);
        let p3 = points(s3);
        if depth - 1 > 0 && hi - m >= 2 {
            assert(p3[hi - 1] == p3.subrange(m as int, hi as int)[hi - 1 - m]);
            assert(p2[hi - 1] == p2.subrange(m as int, hi as int)[hi - 1 - m]);
            assert(p2.subrange(lo as int, hi as int)[hi - 1 - lo] == p2[hi - 1]);
            assert(p2.subrange(lo as int, hi as int)[0] == p2[lo as int]);
            assert(p3[hi - 1] != c);
            assert forall|k: int| m <= k < hi && #[trigger] points(s3)[k] != c implies dist_value(*dist, c, points(s3)[k])
                <= dist_value(*dist, c, points(s3)[hi - 1]) by {
                assert(p3[k] == p3.subrange(m as int, hi as int)[k - m]);
                assert(p2[k] == p2.subrange(m as int, hi as int)[k - m]);
                assert(s2[k].0 <= s2[hi - 1].0);
            }
        }
    }
    partition(pts, m, hi, dist, depth - 1, ranges, progress, Ghost(c));
    let ghost s4 = pts@;
    proof {
        let p2 = points(s2);
        let p3 = points(s3);
        let p4 = points(s4);
        assert(p4.subrange(lo as int, m as int) == p3.subrange(lo as int, m as int));
        lemma_join_halves(p2, p4, lo as int, m as int, hi as int, c, d);
        lemma_bisected_frame(p3, p4, lo as int, (m - lo) as nat, (depth - 1) as nat, d);
        assert((hi - lo) as nat / 2 == m - lo);
        assert forall|x: usize|
            #[trigger] p4.subrange(lo as int, hi as int).contains(x) <==> points(s0).subrange(
                lo as int,
                hi as int,
            ).contains(x) by {}
        lemma_bisected_around_frame(p3, p4, lo as int, (m - lo) as nat, (depth - 1) as nat, d, c);
        assert(c == points(s0)[hi - 1]);
        let region = p4.subrange(lo as int, hi as int);
        assert forall|x: usize| #[trigger] region.contains(x) && x != pc implies d(pc, x) <= d(pc, c) by {
            assert(points(s0).subrange(lo as int, hi as int).contains(x));
            let k = choose|k: int| 0 <= k < hi - lo && points(s0).subrange(lo as int, hi as int)[k] == x;
            assert(points(s0)[lo + k] == x);
        }
        assert(p4.subrange(lo as int, m as int).contains(c));
        assert(bisected_around(p4, lo as int, (hi - lo) as nat, depth as nat, d, pc));
        assert(ranges@ == r0 + leaf_ranges(lo as int, (m - lo) as nat, (depth - 1) as nat)
            + leaf_ranges(m as int, (hi - m) as nat, (depth - 1) as nat));
        assert(progress@ =~= g0 + progress_log((hi - lo) as nat, depth as nat));
    }
}

/// Find the corner to start from: the point farthest from the first one
/// (the last such point if several are equally far), or the first point if
/// it is the only one; `None` for no points. The distance of every other
/// point from the first one is stored with it.
pub fn find_corner<F: Fn(usize, usize) -> u64>(pts: &mut Vec<(u64, usize)>, dist: &F) -> (r:
    Option<usize>)
    requires
        is_distance(*dist),
    ensures
        points(final(pts)@) == points(old(pts)@),
        final(pts)@.len() == old(pts)@.len(),
        old(pts)@.len() == 0 ==> r is None,
        old(pts)@.len() == 1 ==> r == Some(0usize),
        old(pts)@.len() > 1 ==> (r matches Some(k) && 1 <= k < old(pts)@.len() && (forall|j: int|
            1 <= j < old(pts)@.len() ==> dist_value(*dist, old(pts)@[0].1, #[trigger] old(pts)@[j].1)
                <= dist_value(*dist, old(pts)@[0].1, old(pts)@[k as int].1)) && (forall|j: int|
            k < j < old(pts)@.len() ==> dist_value(*dist, old(pts)@[0].1, #[trigger] old(pts)@[j].1)
                < dist_value(*dist, old(pts)@[0].1, old(pts)@[k as int].1))),
        forall|j: int|
            1 <= j < final(pts)@.len() ==> (#[trigger] final(pts)@[j]).0 == dist_value(
                *dist,
                final(pts)@[0].1,
                final(pts)@[j].1,
            ),
{
    let ghost s0 = pts@;
    let n = pts.len();
    if n == 0 {
        return None;
    }
    let first = pts[0].1;
    let mut best: usize = 0;
    let mut best_d: u64 = 0;
    let mut i: usize = 1;
    while i < n
        invariant
            n == pts@.len() == s0.len(),
            1 <= i <= n,
            first == s0[0].1,
            is_distance(*dist),
            points(pts@) == points(s0),
            forall|j: int| i <= j < n ==> pts@[j] == s0[j],
            pts@[0] == s0[0],
            forall|j: int| 1 <= j < i ==> (#[trigger] pts@[j]).0 == dist_value(*dist, first, pts@[j].1),
            i == 1 ==> best == 0,
            i > 1 ==> 1 <= best < i && best_d == dist_value(*dist, first, s0[best as int].1),
            i > 1 ==> forall|j: int|
                1 <= j < i ==> dist_value(*dist, first, #[trigger] s0[j].1) <= best_d,
            i > 1 ==> forall|j: int|
                best < j < i ==> dist_value(*dist, first, #[trigger] s0[j].1) < best_d,
        decreases n - i,
    {
        let p = pts[i].1;
        let dp = dist(first, p);
        proof {
            lemma_dist_value(*dist, first, p, dp);
        }
        pts.set(i, (dp, p));
        if i == 1 || dp >= best_d {
            best = i;
            best_d = dp;
        }
        i = i + 1;
        proof {
            assert(points(pts@) =~= points(s0));
        }
    }
    Some(best)
}

/// The order of the points `0..n` after bisecting them `depth` times, and
/// the regions as ranges of positions in that order: each region follows
/// the one before it, nearer halves first.
///
/// The points are first arranged around the corner (see `find_corner`),
/// which becomes the centre of the first split: among the points other
/// than point 0, one farthest from point 0. The centre of every later
/// split is, among the points of its region other than the centre of the
/// region it was split from, one farthest from that centre
/// (`bisected_around`).
pub fn circle_partition<F: Fn(usize, usize) -> u64>(n: usize, dist: F, depth: u32) -> (r: (
    Vec<usize>,
    Vec<(usize, usize)>,
))
    requires
        is_distance(dist),
    ensures
        r.0@.len() == n,
        r.0@.no_duplicates(),
        forall|i: int| 0 <= i < n ==> #[trigger] r.0@[i] < n,
        r.1@ == leaf_ranges(0, n as nat, depth as nat),
        bisected(r.0@, 0, n as nat, depth as nat, |a: usize, b: usize| dist_value(dist, a, b)),
        bisected_around(r.0@, 0, n as nat, depth as nat, |a: usize, b: usize| dist_value(dist, a, b), 0usize),
{
    let (order, ranges, _) = circle_partition_with_progress(n, dist, depth);
    (order, ranges)
}

/// `circle_partition`, with the progress it makes: the depth of each
/// bisection step, in the order the steps finish (what the original hands
/// its progress callback), for the caller to report.
pub fn circle_partition_with_progress<F: Fn(usize, usize) -> u64>(n: usize, dist: F, depth: u32) -> (r: (
    Vec<usize>,
    Vec<(usize, usize)>,
    Vec<u32>,
))
    requires
        is_distance(dist),
    ensures
        r.0@.len() == n,
        r.0@.no_duplicates(),
        forall|i: int| 0 <= i < n ==> #[trigger] r.0@[i] < n,
        r.1@ == leaf_ranges(0, n as nat, depth as nat),
        bisected(r.0@, 0, n as nat, depth as nat, |a: usize, b: usize| dist_value(dist, a, b)),
        bisected_around(r.0@, 0, n as nat, depth as nat, |a: usize, b: usize| dist_value(dist, a, b), 0usize),
        r.2@ == progress_log(n as nat, depth as nat),
{
    let mut pts: Vec<(u64, usize)> = Vec::new();
    let mut i: usize = 0;
    while i < n
        invariant
            i <= n,
            pts@.len() == i,
            forall|j: int| 0 <= j < i ==> (#[trigger] pts@[j]).1 == j,
        decreases n - i,
    {
        pts.push((0, i));
        i = i + 1;
    }
    let ghost s0 = pts@;
    proof {
        assert(points(s0).subrange(0, n as int) == points(s0));
        assert forall|x: usize| #[trigger] points(s0).contains(x) <==> x < n by {
            if x < n {
                assert(points(s0)[x as int] == x);
            }
        }
    }
    let mut ranges: Vec<(usize, usize)> = Vec::new();
    if depth > 0 {
        match find_corner(&mut pts, &dist) {
            None => {},
            Some(corner) => {
                let ghost s1 = pts@;
                proof {
                    assert(points(s1).subrange(corner as int, n as int).no_duplicates());
                }
                swap_ends(&mut pts, corner, n);
                let ghost s2 = pts@;
                proof {
                    assert forall|x: usize| #[trigger] points(s2).contains(x) <==> x < n by {
                        assert(points(s2) == points(s2).subrange(0, n as int));
                        assert(points(s1) == points(s1).subrange(0, n as int));
                        lemma_split_contains(points(s2), 0, corner as int, n as int, x);
                        lemma_split_contains(points(s1), 0, corner as int, n as int, x);
                        assert(points(s2).subrange(0, corner as int) == points(s1).subrange(
                            0,
                            corner as int,
                        ));
                    }
                    assert(points(s2).subrange(0, n as int) == points(s2));
                    lemma_join_no_duplicates(points(s1), points(s2), corner as int, n as int);
                    if n >= 2 {
                        assert(points(s1)[corner as int] == points(s0)[corner as int]);
                        assert(points(s0)[corner as int] == corner);
                        assert(points(s2)[n - 1] == corner);
                        assert forall|k: int| 0 <= k < n && #[trigger] points(s2)[k] != 0 implies dist_value(dist, 0, points(s2)[k])
                            <= dist_value(dist, 0, points(s2)[n - 1]) by {
                            let x = points(s2)[k];
                            assert(points(s2).contains(x));
                            assert(x < n);
                            assert(s0[x as int].1 == x);
                            assert(points(s0)[x as int] == x);
                        }
                    }
                }
            },
        }
    }
    let ghost s3 = pts@;
    proof {
        assert(points(s3).subrange(0, n as int) == points(s3));
    }
    let mut progress: Vec<u32> = Vec::new();
    partition(&mut pts, 0, n, &dist, depth, &mut ranges, &mut progress, Ghost(0usize));
    proof {
        assert(progress@ =~= progress_log(n as nat, depth as nat));
    }
    let ghost s4 = pts@;
    let mut order: Vec<usize> = Vec::new();
    let mut k: usize = 0;
    while k < n
        invariant
            pts@ == s4,
            s4.len() == n,
            k <= n,
            order@ == points(s4).subrange(0, k as int),
        decreases n - k,
    {
        order.push(pts[k].1);
        k = k + 1;
    }
    proof {
        assert(points(s4).subrange(0, n as int) == points(s4));
        assert(order@ == points(s4));
        assert forall|i: int| 0 <= i < n implies #[trigger] order@[i] < n by {
            assert(points(s4).subrange(0, n as int).contains(order@[i]));
            assert(points(s3).subrange(0, n as int).contains(order@[i]));
        }
    }
    (order, ranges, progress)
}

/// Swapping two points of a sequence without repeated points keeps it
/// without repeated points.
proof fn lemma_join_no_duplicates(s1: Seq<usize>, s2: Seq<usize>, c: int, n: int)
    requires
        0 <= c < n == s1.len() == s2.len(),
        s1.no_duplicates(),
        forall|k: int| 0 <= k < c ==> s2[k] == s1[k],
        same_points(s1, s2, c, n),
        s2.subrange(c, n).no_duplicates(),
    ensures
        s2.no_duplicates(),
{
    assert forall|a: int, b: int| 0 <= a < n && 0 <= b < n && a != b implies s2[a] != s2[b] by {
        if a >= c && b >= c {
            assert(s2.subrange(c, n)[a - c] == s2[a]);
            assert(s2.subrange(c, n)[b - c] == s2[b]);
        } else if a < c && b < c {
        } else if s2[a] == s2[b] {
            let (p, q) = if a < c {
                (a, b)
            } else {
                (b, a)
            };
            assert(s2.subrange(c, n)[q - c] == s2[q]);
            assert(s2.subrange(c, n).contains(s2[q]));
            assert(s1.subrange(c, n).contains(s2[q]));
            let w = choose|w: int| 0 <= w < n - c && s1.subrange(c, n)[w] == s2[q];
            assert(s1[w + c] == s1[p]);
        }
    }
}

/// The regions tile the points: the first region starts at `lo`, each
/// region starts where the one before it ends, and the last one ends at
/// `lo + len`.
pub proof fn law_regions_tile(lo: int, len: nat, depth: nat)
    requires
        0 <= lo,
        lo + len <= usize::MAX,
    ensures
        leaf_ranges(lo, len, depth).len() >= 1,
        leaf_ranges(lo, len, depth)[0].0 == lo,
        leaf_ranges(lo, len, depth).last().1 == lo + len,
        forall|i: int|
            0 <= i < leaf_ranges(lo, len, depth).len() ==> (#[trigger] leaf_ranges(
                lo,
                len,
                depth,
            )[i]).0 <= leaf_ranges(lo, len, depth)[i].1,
        forall|i: int|
            0 < i < leaf_ranges(lo, len, depth).len() ==> (#[trigger] leaf_ranges(
                lo,
                len,
                depth,
            )[i]).0 == leaf_ranges(lo, len, depth)[i - 1].1,
    decreases depth,
{
    if depth > 0 && len >= 2 {
        let h = len / 2;
        law_regions_tile(lo, h, (depth - 1) as nat);
        law_regions_tile(lo + h, (len - h) as nat, (depth - 1) as nat);
        let a = leaf_ranges(lo, h, (depth - 1) as nat);
        let b = leaf_ranges(lo + h, (len - h) as nat, (depth - 1) as nat);
        let r = leaf_ranges(lo, len, depth);
        assert(r == a + b);
        assert forall|i: int| 0 < i < r.len() implies (#[trigger] r[i]).0 == r[i - 1].1 by {
            if i == a.len() {
                assert(r[i] == b[0]);
                assert(r[i - 1] == a.last());
            } else if i < a.len() {
                assert(r[i] == a[i]);
                assert(r[i - 1] == a[i - 1]);
            } else {
                assert(r[i] == b[i - a.len()]);
                assert(r[i - 1] == b[i - 1 - a.len()]);
            }
        }
        assert forall|i: int| 0 <= i < r.len() implies (#[trigger] r[i]).0 <= r[i].1 by {
            if i < a.len() {
                assert(r[i] == a[i]);
            } else {
                assert(r[i] == b[i - a.len()]);
            }
        }
    }
}

/// With at least `2^depth` points, bisecting `depth` times gives `2^depth`
/// regions, none of them empty.
pub proof fn law_region_count(lo: int, len: nat, depth: nat)
    requires
        0 <= lo,
        lo + len <= usize::MAX,
        len >= two_pow(depth),
    ensures
        leaf_ranges(lo, len, depth).len() == two_pow(depth),
        forall|i: int|
            0 <= i < leaf_ranges(lo, len, depth).len() ==> (#[trigger] leaf_ranges(
                lo,
                len,
                depth,
            )[i]).0 < leaf_ranges(lo, len, depth)[i].1,
    decreases depth,
{
    if depth == 0 {
        assert(two_pow(0) == 1);
    } else {
        let h = len / 2;
        assert(two_pow(depth) == 2 * two_pow((depth - 1) as nat));
        lemma_two_pow_positive((depth - 1) as nat);
        law_region_count(lo, h, (depth - 1) as nat);
        law_region_count(lo + h, (len - h) as nat, (depth - 1) as nat);
        let a = leaf_ranges(lo, h, (depth - 1) as nat);
        let b = leaf_ranges(lo + h, (len - h) as nat, (depth - 1) as nat);
        let r = leaf_ranges(lo, len, depth);
        assert(r == a + b);
        assert forall|i: int| 0 <= i < r.len() implies (#[trigger] r[i]).0 < r[i].1 by {
            if i < a.len() {
                assert(r[i] == a[i]);
            } else {
                assert(r[i] == b[i - a.len()]);
            }
        }
    }
}

/// Arrange the items of `s` in the given order of their positions: item `i`
/// of the result is item `order[i]` of `s`.
pub fn permute<T>(s: Vec<T>, order: &Vec<usize>) -> (r: Vec<T>)
    requires
        order@.len() == s@.len(),
        order@.no_duplicates(),
        forall|i: int| 0 <= i < order@.len() ==> #[trigger] order@[i] < s@.len(),
    ensures
        r@.len() == s@.len(),
        forall|i: int| 0 <= i < r@.len() ==> #[trigger] r@[i] == s@[order@[i] as int],
{
    let ghost orig = s@;
    let n = s.len();
    let mut s = s;
    let mut rev: Vec<T> = Vec::new();
    while s.len() > 0
        invariant
            s@.len() + rev@.len() == n,
            n == orig.len(),
            forall|k: int| 0 <= k < s@.len() ==> s@[k] == orig[k],
            forall|k: int| 0 <= k < rev@.len() ==> #[trigger] rev@[k] == orig[n - 1 - k],
        decreases s@.len(),
    {
        let x = s.pop().unwrap();
        rev.push(x);
    }
    let mut slots: Vec<Option<T>> = Vec::new();
    while rev.len() > 0
        invariant
            slots@.len() + rev@.len() == n,
            n == orig.len(),
            forall|k: int| 0 <= k < rev@.len() ==> #[trigger] rev@[k] == orig[n - 1 - k],
            forall|k: int| 0 <= k < slots@.len() ==> #[trigger] slots@[k] == Some(orig[k]),
        decreases rev@.len(),
    {
        let x = rev.pop().unwrap();
        slots.push(Some(x));
    }
    let mut r: Vec<T> = Vec::new();
    let mut i: usize = 0;
    while i < n
        invariant
            i <= n == order@.len() == slots@.len() == orig.len(),
            order@.no_duplicates(),
            forall|j: int| 0 <= j < order@.len() ==> #[trigger] order@[j] < n,
            r@.len() == i,
            forall|j: int| 0 <= j < i ==> #[trigger] r@[j] == orig[order@[j] as int],
            forall|k: int|
                0 <= k < n ==> (#[trigger] slots@[k] == Some(orig[k]) || exists|j: int|
                    0 <= j < i && order@[j] == k),
        decreases n - i,
    {
        let k = order[i];
        proof {
            assert forall|j: int| 0 <= j < i implies order@[j] != k by {
                assert(order@[j] != order@[i as int]);
            }
        }
        let mut tmp: Option<T> = None;
        slots.set_and_swap(k, &mut tmp);
        let x = tmp.unwrap();
        r.push(x);
        i = i + 1;
        proof {
            assert forall|q: int| 0 <= q < n implies (#[trigger] slots@[q] == Some(orig[q])
                || exists|j: int| 0 <= j < i && order@[j] == q) by {
                if q == k {
                    assert(order@[i - 1] == q);
                }
            }
        }
    }
    r
}

/// A power of two is `2^e` for some `e`.
pub proof fn lemma_power_of_two_exp(n: nat) -> (e: nat)
    requires
        is_power_of_two(n),
    ensures
        two_pow(e) == n,
    decreases n,
{
    if n == 1 {
        0
    } else {
        let e = lemma_power_of_two_exp(n / 2);
        (e + 1) as nat
    }
}

/// `2^a < 2^b` exactly when `a < b`.
pub proof fn lemma_two_pow_strictly_increasing(a: nat, b: nat)
    requires
        a < b,
    ensures
        two_pow(a) < two_pow(b),
    decreases b,
{
    lemma_two_pow_positive((b - 1) as nat);
    if a < b - 1 {
        lemma_two_pow_strictly_increasing(a, (b - 1) as nat);
    }
}

/// Splitting a sample into a number of partitions that is a power of two,
/// by bisecting as often as its base-2 logarithm says, gives exactly that
/// many regions, none of them empty, as long as there are at least as many
/// events as partitions.
pub proof fn law_partitions_make_regions(partitions: nat, depth: nat, nevents: nat)
    requires
        is_power_of_two(partitions),
        two_pow(depth) <= partitions < two_pow(depth + 1),
        nevents >= partitions,
        nevents <= usize::MAX,
    ensures
        leaf_ranges(0, nevents, depth).len() == partitions,
        forall|i: int|
            0 <= i < partitions ==> (#[trigger] leaf_ranges(0, nevents, depth)[i]).0 < leaf_ranges(
                0,
                nevents,
                depth,
            )[i].1,
{
    let e = lemma_power_of_two_exp(partitions);
    if e < depth {
        lemma_two_pow_strictly_increasing(e, depth);
    } else if e > depth {
        lemma_two_pow_strictly_increasing(depth + 1, e + 1);
        if e > depth + 1 {
            lemma_two_pow_strictly_increasing(depth + 1, e);
        }
    }
    assert(e == depth);
    law_region_count(0, nevents, depth);
}


/// With at least `2^depth` points, the bisection reports depth `k` exactly
/// `2^(depth - k)` times for each `k` from 1 to `depth`, and no other depth.
pub proof fn law_progress_counts(n: nat, depth: nat, k: nat)
    requires
        n >= two_pow(depth),
        depth <= u32::MAX,
        k <= u32::MAX,
    ensures
        1 <= k <= depth ==> count_of(progress_log(n, depth), k as u32) == two_pow((depth - k) as nat),
        (k == 0 || k > depth) ==> count_of(progress_log(n, depth), k as u32) == 0,
    decreases depth,
{
    if depth == 0 {
        assert(progress_log(n, depth) =~= Seq::<u32>::empty());
    } else {
        lemma_two_pow_positive((depth - 1) as nat);
        assert(two_pow(depth) == 2 * two_pow((depth - 1) as nat));
        let h1 = n / 2;
        let h2 = (n - n / 2) as nat;
        assert(h1 >= two_pow((depth - 1) as nat));
        assert(h2 >= two_pow((depth - 1) as nat));
        law_progress_counts(h1, (depth - 1) as nat, k);
        law_progress_counts(h2, (depth - 1) as nat, k);
        let l1 = progress_log(h1, (depth - 1) as nat);
        let l2 = progress_log(h2, (depth - 1) as nat);
        let head = seq![depth as u32];
        assert(progress_log(n, depth) == head + l1 + l2);
        lemma_count_of_append(head + l1, l2, k as u32);
        lemma_count_of_append(head, l1, k as u32);
        assert(head.drop_last() =~= Seq::<u32>::empty());
        assert(count_of(head.drop_last(), k as u32) == 0);
        assert(head.last() == depth as u32);
        assert((depth as u32 == k as u32) == (depth == k));
        assert(count_of(head, k as u32) == if depth == k { 1nat } else { 0nat });
        if 1 <= k < depth {
            assert(two_pow((depth - k) as nat) == 2 * two_pow((depth - 1 - k) as nat));
        }
    }
}

} // verus!
