//! How often each set of particle multiplicities occurs among events: the
//! summary shown to users after the events were read.
use vstd::prelude::*;

use crate::text::{concat_str, decimal, decimal_string};
use crate::counting::{count_of, lemma_count_of_bound, lemma_count_positive_found, lemma_sum_counts_all, sum_counts};

verus! {

/// The order of `(id, count)` pairs.
pub open spec fn pair_lt(a: (i32, usize), b: (i32, usize)) -> bool {
    a.0 < b.0 || (a.0 == b.0 && a.1 < b.1)
}

/// The lexicographic order of multiplicities, as `Vec` orders them: the
/// first pair that differs decides, and a proper prefix comes first.
pub open spec fn mult_lt(a: Seq<(i32, usize)>, b: Seq<(i32, usize)>) -> bool
    decreases a.len(),
{
    if b.len() == 0 {
        false
    } else if a.len() == 0 {
        true
    } else if pair_lt(a[0], b[0]) {
        true
    } else if a[0] == b[0] {
        mult_lt(a.drop_first(), b.drop_first())
    } else {
        false
    }
}

/// `a` is listed before `b`: it has more events, or as many and lower
/// multiplicities.
pub open spec fn listed_before(a: (Seq<(i32, usize)>, nat), b: (Seq<(i32, usize)>, nat)) -> bool {
    a.1 > b.1 || (a.1 == b.1 && mult_lt(a.0, b.0))
}

/// Multiplicities of events, as the model sees them.
pub open spec fn events_view(events: Seq<Vec<(i32, usize)>>) -> Seq<Seq<(i32, usize)>> {
    events.map_values(|e: Vec<(i32, usize)>| e@)
}

/// A listing of multiplicities with their numbers of events, as the model
/// sees it.
pub open spec fn counts_view(r: Seq<(Vec<(i32, usize)>, usize)>) -> Seq<(Seq<(i32, usize)>, nat)> {
    r.map_values(|c: (Vec<(i32, usize)>, usize)| (c.0@, c.1 as nat))
}

/// Some entry of the listing has the multiplicities `m`.
pub open spec fn has_entry(v: Seq<(Seq<(i32, usize)>, nat)>, m: Seq<(i32, usize)>) -> bool {
    exists|i: int| 0 <= i < v.len() && (#[trigger] v[i]).0 == m
}

proof fn lemma_mult_lt_irreflexive(a: Seq<(i32, usize)>)
    ensures
        !mult_lt(a, a),
    decreases a.len(),
{
    if a.len() > 0 {
        lemma_mult_lt_irreflexive(a.drop_first());
    }
}

proof fn lemma_mult_lt_transitive(a: Seq<(i32, usize)>, b: Seq<(i32, usize)>, c: Seq<(i32, usize)>)
    requires
        mult_lt(a, b),
        mult_lt(b, c),
    ensures
        mult_lt(a, c),
    decreases a.len(),
{
    if a.len() > 0 && b.len() > 0 && c.len() > 0 && a[0] == b[0] && b[0] == c[0] {
        lemma_mult_lt_transitive(a.drop_first(), b.drop_first(), c.drop_first());
    }
}

proof fn lemma_mult_lt_total(a: Seq<(i32, usize)>, b: Seq<(i32, usize)>)
    requires
        a != b,
    ensures
        mult_lt(a, b) || mult_lt(b, a),
    decreases a.len(),
{
    if a.len() > 0 && b.len() > 0 && a[0] == b[0] {
        if a.drop_first() == b.drop_first() {
            assert(a =~= seq![a[0]] + a.drop_first());
            assert(b =~= seq![b[0]] + b.drop_first());
        }
        lemma_mult_lt_total(a.drop_first(), b.drop_first());
    } else if a.len() == 0 && b.len() == 0 {
        assert(a =~= b);
    }
}

/// Whether two sets of multiplicities are the same.
fn mult_eq(a: &Vec<(i32, usize)>, b: &Vec<(i32, usize)>) -> (r: bool)
    ensures
        r == (a@ == b@),
{
    if a.len() != b.len() {
        return false;
    }
    let mut i: usize = 0;
    while i < a.len()
        invariant
            i <= a@.len(),
            a@.len() == b@.len(),
            a@.subrange(0, i as int) == b@.subrange(0, i as int),
        decreases a.len() - i,
    {
        if a[i].0 != b[i].0 || a[i].1 != b[i].1 {
            assert(a@[i as int] != b@[i as int]);
            return false;
        }
        assert(a@.subrange(0, i + 1) =~= a@.subrange(0, i as int).push(a@[i as int]));
        assert(b@.subrange(0, i + 1) =~= b@.subrange(0, i as int).push(b@[i as int]));
        i = i + 1;
    }
    assert(a@ =~= a@.subrange(0, i as int));
    assert(b@ =~= b@.subrange(0, i as int));
    true
}

/// Whether the multiplicities `a` come before `b`.
fn mult_less(a: &Vec<(i32, usize)>, b: &Vec<(i32, usize)>) -> (r: bool)
    ensures
        r == mult_lt(a@, b@),
{
    assert(a@.subrange(0, a@.len() as int) =~= a@);
    assert(b@.subrange(0, b@.len() as int) =~= b@);
    let mut i: usize = 0;
    while i < a.len() && i < b.len() && a[i].0 == b[i].0 && a[i].1 == b[i].1
        invariant
            i <= a@.len(),
            i <= b@.len(),
            mult_lt(a@, b@) == mult_lt(a@.subrange(i as int, a@.len() as int), b@.subrange(i as int, b@.len() as int)),
        decreases a.len() - i,
    {
        let ghost sa = a@.subrange(i as int, a@.len() as int);
        let ghost sb = b@.subrange(i as int, b@.len() as int);
        assert(sa.drop_first() =~= a@.subrange(i + 1, a@.len() as int));
        assert(sb.drop_first() =~= b@.subrange(i + 1, b@.len() as int));
        assert(sa[0] == sb[0]);
        i = i + 1;
    }
    let ghost sa = a@.subrange(i as int, a@.len() as int);
    let ghost sb = b@.subrange(i as int, b@.len() as int);
    if i == b.len() {
        false
    } else if i == a.len() {
        true
    } else {
        assert(sa[0] == a@[i as int] && sb[0] == b@[i as int]);
        a[i].0 < b[i].0 || (a[i].0 == b[i].0 && a[i].1 < b[i].1)
    }
}

/// Whether `a` is listed before `b`.
fn listed_first(a: &(Vec<(i32, usize)>, usize), b: &(Vec<(i32, usize)>, usize)) -> (r: bool)
    ensures
        r == listed_before((a.0@, a.1 as nat), (b.0@, b.1 as nat)),
{
    a.1 > b.1 || (a.1 == b.1 && mult_less(&a.0, &b.0))
}

/// The multiplicities of the events, each kind once, with the number of
/// events that have it.
fn group_multiplicities(events: &Vec<Vec<(i32, usize)>>) -> (r: Vec<(Vec<(i32, usize)>, usize)>)
    ensures
        forall|i: int, j: int| 0 <= i < j < r@.len() ==> (#[trigger] r@[i]).0@ != (#[trigger] r@[j]).0@,
        forall|i: int| 0 <= i < r@.len() ==> (#[trigger] r@[i]).1 == count_of(events_view(events@), r@[i].0@) && r@[i].1 > 0,
        forall|k: int| 0 <= k < events@.len() ==> has_entry(counts_view(r@), #[trigger] events_view(events@)[k]),
{
    let ghost ev = events_view(events@);
    let mut table: Vec<(Vec<(i32, usize)>, usize)> = Vec::new();
    let mut k: usize = 0;
    while k < events.len()
        invariant
            k <= events@.len(),
            ev == events_view(events@),
            forall|i: int, j: int| 0 <= i < j < table@.len() ==> (#[trigger] table@[i]).0@ != (#[trigger] table@[j]).0@,
            forall|i: int| 0 <= i < table@.len() ==> (#[trigger] table@[i]).1 == count_of(ev.subrange(0, k as int), table@[i].0@) && table@[i].1 > 0,
            forall|m: int| 0 <= m < k ==> has_entry(counts_view(table@), #[trigger] ev[m]),
        decreases events.len() - k,
    {
        let ghost t0 = table@;
        let ghost pre = ev.subrange(0, k as int);
        let ghost pre1 = ev.subrange(0, k + 1);
        let ghost e = ev[k as int];
        proof {
            assert(pre1.drop_last() =~= pre);
            assert(pre1.last() == e);
            assert(events@[k as int]@ == e);
            lemma_count_of_bound(pre, e);
        }
        let mut i: usize = 0;
        while i < table.len() && !mult_eq(&table[i].0, &events[k])
            invariant
                i <= table@.len(),
                k < events@.len(),
                table@ == t0,
                e == events@[k as int]@,
                forall|j: int| 0 <= j < i ==> (#[trigger] table@[j]).0@ != e,
            decreases table.len() - i,
        {
            i = i + 1;
        }
        if i < table.len() {
            let c = table[i].1;
            proof {
                assert(t0[i as int].0@ == e);
                assert(c == count_of(pre, e));
            }
            let (key, _) = table.remove(i);
            table.insert(i, (key, c + 1));
            proof {
                assert(table@ =~= t0.update(i as int, (t0[i as int].0, (c + 1) as usize)));
                assert forall|a: int| 0 <= a < table@.len() implies (#[trigger] table@[a]).1 == count_of(pre1, table@[a].0@) && table@[a].1 > 0 by {
                    if a != i {
                        assert(t0[a].0@ != e);
                    }
                }
                assert forall|m: int| 0 <= m < k + 1 implies has_entry(counts_view(table@), #[trigger] ev[m]) by {
                    if m == k {
                        assert(counts_view(table@)[i as int].0 == ev[m]);
                    } else {
                        let a = choose|a: int| 0 <= a < t0.len() && (#[trigger] counts_view(t0)[a]).0 == ev[m];
                        assert(counts_view(table@)[a].0 == ev[m]);
                    }
                }
            }
        } else {
            proof {
                assert(count_of(pre, e) == 0) by {
                    if count_of(pre, e) > 0 {
                        lemma_count_positive_found(pre, e);
                        let m = choose|m: int| 0 <= m < pre.len() && pre[m] == e;
                        assert(ev[m] == e);
                        let a = choose|a: int| 0 <= a < t0.len() && (#[trigger] counts_view(t0)[a]).0 == ev[m];
                        assert(counts_view(t0)[a].0 == t0[a].0@);
                        assert(t0[a].0@ != e);
                    }
                }
            }
            let key = copy_multiplicities(&events[k]);
            table.push((key, 1));
            proof {
                assert forall|a: int| 0 <= a < table@.len() implies (#[trigger] table@[a]).1 == count_of(pre1, table@[a].0@) && table@[a].1 > 0 by {
                    if a < t0.len() {
                        assert(table@[a] == t0[a]);
                        assert(t0[a].0@ != e);
                    }
                }
                assert forall|a: int, b: int| 0 <= a < b < table@.len() implies (#[trigger] table@[a]).0@ != (#[trigger] table@[b]).0@ by {
                    if b < t0.len() {
                        assert(table@[a] == t0[a] && table@[b] == t0[b]);
                    } else {
                        assert(table@[a] == t0[a]);
                    }
                }
                assert forall|m: int| 0 <= m < k + 1 implies has_entry(counts_view(table@), #[trigger] ev[m]) by {
                    if m == k {
                        assert(counts_view(table@)[t0.len() as int].0 == ev[m]);
                    } else {
                        let a = choose|a: int| 0 <= a < t0.len() && (#[trigger] counts_view(t0)[a]).0 == ev[m];
                        assert(table@[a] == t0[a]);
                        assert(counts_view(table@)[a].0 == ev[m]);
                    }
                }
            }
        }
        k = k + 1;
    }
    proof {
        assert(ev.subrange(0, events@.len() as int) =~= ev);
        assert forall|m: int| 0 <= m < events@.len() implies has_entry(counts_view(table@), #[trigger] events_view(events@)[m]) by {
            assert(ev[m] == events_view(events@)[m]);
        }
    }
    table
}

/// The multiplicities of an event, copied.
fn copy_multiplicities(v: &Vec<(i32, usize)>) -> (r: Vec<(i32, usize)>)
    ensures
        r@ == v@,
{
    let mut r: Vec<(i32, usize)> = Vec::new();
    let mut k: usize = 0;
    while k < v.len()
        invariant
            k <= v.len(),
            r@ == v@.subrange(0, k as int),
        decreases v.len() - k,
    {
        r.push(v[k]);
        k = k + 1;
    }
    assert(v@.subrange(0, v.len() as int) == v@);
    r
}


proof fn lemma_listed_transitive(
    a: (Seq<(i32, usize)>, nat),
    b: (Seq<(i32, usize)>, nat),
    c: (Seq<(i32, usize)>, nat),
)
    requires
        listed_before(a, b),
        listed_before(b, c),
    ensures
        listed_before(a, c),
{
    if a.1 == b.1 && b.1 == c.1 {
        lemma_mult_lt_transitive(a.0, b.0, c.0);
    }
}

proof fn lemma_listed_total(a: (Seq<(i32, usize)>, nat), b: (Seq<(i32, usize)>, nat))
    requires
        a.0 != b.0,
    ensures
        listed_before(a, b) || listed_before(b, a),
{
    lemma_mult_lt_total(a.0, b.0);
}

/// The listing is in order: each entry before the next.
pub open spec fn in_listing_order(s: Seq<(Seq<(i32, usize)>, nat)>) -> bool {
    forall|a: int, b: int| 0 <= a < b < s.len() ==> listed_before(#[trigger] s[a], #[trigger] s[b])
}

/// Each entry of `out` is an entry of `tv` from `lo` on.
#[verifier::opaque]
spec fn from_table(out: Seq<(Seq<(i32, usize)>, nat)>, tv: Seq<(Seq<(i32, usize)>, nat)>, lo: int) -> bool {
    forall|x: int| 0 <= x < out.len() ==> exists|j: int| lo <= j < tv.len() && #[trigger] tv[j] == #[trigger] out[x]
}

/// Each entry of `tv` from `lo` on is an entry of `out`.
#[verifier::opaque]
spec fn all_listed(out: Seq<(Seq<(i32, usize)>, nat)>, tv: Seq<(Seq<(i32, usize)>, nat)>, lo: int) -> bool {
    forall|j: int| lo <= j < tv.len() ==> exists|x: int| 0 <= x < out.len() && #[trigger] tv[j] == #[trigger] out[x]
}

/// No two entries of `tv` have the same multiplicities.
spec fn keys_distinct(tv: Seq<(Seq<(i32, usize)>, nat)>) -> bool {
    forall|i: int, j: int| 0 <= i < j < tv.len() ==> (#[trigger] tv[i]).0 != (#[trigger] tv[j]).0
}

/// The entry `n` of the table has multiplicities that no listed entry has.
proof fn lemma_fresh_key(out: Seq<(Seq<(i32, usize)>, nat)>, tv: Seq<(Seq<(i32, usize)>, nat)>, n: int)
    requires
        0 <= n < tv.len(),
        keys_distinct(tv),
        from_table(out, tv, n + 1),
    ensures
        forall|x: int| 0 <= x < out.len() ==> (#[trigger] out[x]).0 != tv[n].0,
{
    reveal(from_table);
    assert forall|x: int| 0 <= x < out.len() implies (#[trigger] out[x]).0 != tv[n].0 by {
        let j = choose|j: int| n + 1 <= j < tv.len() && #[trigger] tv[j] == #[trigger] out[x];
        assert(tv[n].0 != tv[j].0);
    }
}

/// Putting an entry in its place keeps the listing in order.
proof fn lemma_listing_order(o0: Seq<(Seq<(i32, usize)>, nat)>, e: (Seq<(i32, usize)>, nat), i: int)
    requires
        0 <= i <= o0.len(),
        in_listing_order(o0),
        forall|j: int| 0 <= j < i ==> listed_before(#[trigger] o0[j], e),
        forall|j: int| i <= j < o0.len() ==> listed_before(e, #[trigger] o0[j]),
    ensures
        in_listing_order(o0.insert(i, e)),
{
    let o1 = o0.insert(i, e);
    assert forall|a: int, b: int| 0 <= a < b < o1.len() implies listed_before(#[trigger] o1[a], #[trigger] o1[b]) by {
        if b < i {
            assert(o1[a] == o0[a] && o1[b] == o0[b]);
        } else if b == i {
            assert(o1[a] == o0[a]);
        } else if a < i {
            assert(o1[a] == o0[a] && o1[b] == o0[b - 1]);
            lemma_listed_transitive(o0[a], e, o0[b - 1]);
        } else if a == i {
            assert(o1[b] == o0[b - 1]);
        } else {
            assert(o1[a] == o0[a - 1] && o1[b] == o0[b - 1]);
        }
    }
}

/// Putting entry `n` of the table in the listing keeps it made of the
/// table's entries from `n` on.
proof fn lemma_listing_from_table(o0: Seq<(Seq<(i32, usize)>, nat)>, tv: Seq<(Seq<(i32, usize)>, nat)>, n: int, i: int)
    requires
        0 <= n < tv.len(),
        0 <= i <= o0.len(),
        from_table(o0, tv, n + 1),
    ensures
        from_table(o0.insert(i, tv[n]), tv, n),
{
    reveal(from_table);
    let o1 = o0.insert(i, tv[n]);
    assert forall|x: int| 0 <= x < o1.len() implies exists|j: int| n <= j < tv.len() && #[trigger] tv[j] == #[trigger] o1[x] by {
        if x < i {
            assert(o1[x] == o0[x]);
            let j = choose|j: int| n + 1 <= j < tv.len() && #[trigger] tv[j] == #[trigger] o0[x];
            assert(tv[j] == o1[x]);
        } else if x == i {
            assert(tv[n] == o1[x]);
        } else {
            assert(o1[x] == o0[x - 1]);
            let j = choose|j: int| n + 1 <= j < tv.len() && #[trigger] tv[j] == #[trigger] o0[x - 1];
            assert(tv[j] == o1[x]);
        }
    }
}

/// Putting entry `n` of the table in the listing leaves every entry of the
/// table from `n` on listed.
proof fn lemma_listing_all(o0: Seq<(Seq<(i32, usize)>, nat)>, tv: Seq<(Seq<(i32, usize)>, nat)>, n: int, i: int)
    requires
        0 <= n < tv.len(),
        0 <= i <= o0.len(),
        all_listed(o0, tv, n + 1),
    ensures
        all_listed(o0.insert(i, tv[n]), tv, n),
{
    reveal(all_listed);
    let o1 = o0.insert(i, tv[n]);
    assert forall|j: int| n <= j < tv.len() implies exists|x: int| 0 <= x < o1.len() && #[trigger] tv[j] == #[trigger] o1[x] by {
        if j == n {
            assert(tv[j] == o1[i]);
        } else {
            let x = choose|x: int| 0 <= x < o0.len() && #[trigger] tv[j] == #[trigger] o0[x];
            if x < i {
                assert(o1[x] == o0[x]);
            } else {
                assert(o1[x + 1] == o0[x]);
            }
        }
    }
}

/// A listing made of all the entries of the table, and of nothing else,
/// has the table's exact counts and every event's multiplicities.
proof fn lemma_listing_result(
    t: Seq<(Vec<(i32, usize)>, usize)>,
    ov: Seq<(Seq<(i32, usize)>, nat)>,
    ev: Seq<Seq<(i32, usize)>>,
)
    requires
        from_table(ov, counts_view(t), 0),
        all_listed(ov, counts_view(t), 0),
        forall|k: int| 0 <= k < ev.len() ==> has_entry(counts_view(t), #[trigger] ev[k]),
        forall|i: int| 0 <= i < t.len() ==> (#[trigger] t[i]).1 == count_of(ev, t[i].0@) && t[i].1 > 0,
    ensures
        forall|i: int| 0 <= i < ov.len() ==> (#[trigger] ov[i]).1 == count_of(ev, ov[i].0) && ov[i].1 > 0,
        forall|k: int| 0 <= k < ev.len() ==> has_entry(ov, #[trigger] ev[k]),
{
    reveal(from_table);
    reveal(all_listed);
    let tv = counts_view(t);
    assert forall|i: int| 0 <= i < ov.len() implies (#[trigger] ov[i]).1 == count_of(ev, ov[i].0) && ov[i].1 > 0 by {
        let j = choose|j: int| 0 <= j < tv.len() && #[trigger] tv[j] == #[trigger] ov[i];
        assert(tv[j] == (t[j].0@, t[j].1 as nat));
    }
    assert forall|k: int| 0 <= k < ev.len() implies has_entry(ov, #[trigger] ev[k]) by {
        let j = choose|j: int| 0 <= j < tv.len() && (#[trigger] tv[j]).0 == ev[k];
        let x = choose|x: int| 0 <= x < ov.len() && #[trigger] tv[j] == #[trigger] ov[x];
        assert(ov[x].0 == ev[k]);
    }
}

/// How many events have each set of multiplicities: each set that occurs
/// once, with its number of events, the sets with most events first and
/// those with as many in increasing order.
pub fn multiplicity_counts(events: &Vec<Vec<(i32, usize)>>) -> (r: Vec<(Vec<(i32, usize)>, usize)>)
    ensures
        in_listing_order(counts_view(r@)),
        forall|i: int| 0 <= i < r@.len() ==> (#[trigger] counts_view(r@)[i]).1 == count_of(events_view(events@), counts_view(r@)[i].0)
            && counts_view(r@)[i].1 > 0,
        forall|k: int| 0 <= k < events@.len() ==> has_entry(counts_view(r@), #[trigger] events_view(events@)[k]),
{
    let mut table = group_multiplicities(events);
    let ghost t = table@;
    let ghost tv = counts_view(t);
    let mut out: Vec<(Vec<(i32, usize)>, usize)> = Vec::new();
    proof {
        assert(forall|i: int| 0 <= i < t.len() ==> (#[trigger] t[i]).1 == count_of(events_view(events@), t[i].0@) && t[i].1 > 0);
        reveal(from_table);
        reveal(all_listed);
        assert(keys_distinct(tv)) by {
            assert forall|i: int, j: int| 0 <= i < j < tv.len() implies (#[trigger] tv[i]).0 != (#[trigger] tv[j]).0 by {
                assert(t[i].0@ != t[j].0@);
            }
        }
    }
    while table.len() > 0
        invariant
            table@.len() <= t.len(),
            table@ == t.subrange(0, table@.len() as int),
            tv == counts_view(t),
            keys_distinct(tv),
            from_table(counts_view(out@), tv, table@.len() as int),
            all_listed(counts_view(out@), tv, table@.len() as int),
            in_listing_order(counts_view(out@)),
        decreases table.len(),
    {
        let ghost o0 = counts_view(out@);
        let ghost n = table@.len() - 1;
        let entry = table.pop().unwrap();
        let ghost e = tv[n];
        proof {
            assert(table@ =~= t.subrange(0, n));
            assert(e == (entry.0@, entry.1 as nat));
            lemma_fresh_key(o0, tv, n);
        }
        let mut i: usize = 0;
        while i < out.len() && listed_first(&out[i], &entry)
            invariant
                i <= out@.len(),
                counts_view(out@) == o0,
                e == (entry.0@, entry.1 as nat),
                forall|j: int| 0 <= j < i ==> listed_before(#[trigger] o0[j], e),
            decreases out.len() - i,
        {
            i = i + 1;
        }
        proof {
            assert forall|j: int| i <= j < o0.len() implies listed_before(e, #[trigger] o0[j]) by {
                assert(!listed_before(o0[i as int], e));
                assert(o0[i as int].0 != e.0);
                lemma_listed_total(o0[i as int], e);
                if j > i {
                    lemma_listed_transitive(e, o0[i as int], o0[j]);
                }
            }
            lemma_listing_order(o0, e, i as int);
            lemma_listing_from_table(o0, tv, n, i as int);
            lemma_listing_all(o0, tv, n, i as int);
        }
        out.insert(i, entry);
        proof {
            assert(counts_view(out@) =~= o0.insert(i as int, e));
        }
    }
    proof {
        lemma_listing_result(t, counts_view(out@), events_view(events@));
    }
    out
}


/// The number of events a listing counts.
pub open spec fn total(v: Seq<(Seq<(i32, usize)>, nat)>) -> nat
    decreases v.len(),
{
    if v.len() == 0 {
        0
    } else {
        total(v.drop_last()) + v.last().1
    }
}

proof fn lemma_total_is_sum(v: Seq<(Seq<(i32, usize)>, nat)>, events: Seq<Seq<(i32, usize)>>)
    requires
        forall|i: int| 0 <= i < v.len() ==> (#[trigger] v[i]).1 == count_of(events, v[i].0),
    ensures
        total(v) == sum_counts(v.map_values(|e: (Seq<(i32, usize)>, nat)| e.0), events),
    decreases v.len(),
{
    if v.len() > 0 {
        let t = v.drop_last();
        assert forall|i: int| 0 <= i < t.len() implies (#[trigger] t[i]).1 == count_of(events, t[i].0) by {
            assert(t[i] == v[i]);
        }
        lemma_total_is_sum(t, events);
        let keys = v.map_values(|e: (Seq<(i32, usize)>, nat)| e.0);
        assert(keys.drop_last() =~= t.map_values(|e: (Seq<(i32, usize)>, nat)| e.0));
        assert(v.last().1 == count_of(events, v.last().0));
    }
}

/// Every event is counted once: the numbers of events of a listing in order,
/// with exact counts, that has the multiplicities of every event, add up to
/// the number of events.
pub proof fn law_counts_cover_events(events: Seq<Seq<(i32, usize)>>, v: Seq<(Seq<(i32, usize)>, nat)>)
    requires
        in_listing_order(v),
        forall|i: int| 0 <= i < v.len() ==> (#[trigger] v[i]).1 == count_of(events, v[i].0),
        forall|k: int| 0 <= k < events.len() ==> has_entry(v, #[trigger] events[k]),
    ensures
        total(v) == events.len(),
{
    let keys = v.map_values(|e: (Seq<(i32, usize)>, nat)| e.0);
    assert forall|i: int, j: int| 0 <= i < j < keys.len() implies keys[i] != keys[j] by {
        assert(listed_before(v[i], v[j]));
        if keys[i] == keys[j] {
            assert(v[i].1 == v[j].1);
            lemma_mult_lt_irreflexive(v[i].0);
        }
    }
    assert forall|k: int| 0 <= k < events.len() implies keys.contains(#[trigger] events[k]) by {
        assert(has_entry(v, events[k]));
        let i = choose|i: int| 0 <= i < v.len() && (#[trigger] v[i]).0 == events[k];
        assert(keys[i] == events[k]);
    }
    lemma_sum_counts_all(keys, events);
    lemma_total_is_sum(v, events);
}

/// The id an event gets from its position in the input: an event read with
/// an id other than zero is an error that carries that id.
pub fn assign_id(current: usize, pos: usize) -> (r: Result<usize, usize>)
    ensures
        r == if current == 0 {
            Ok::<usize, usize>(pos)
        } else {
            Err::<usize, usize>(current)
        },
{
    if current != 0 {
        Err(current)
    } else {
        Ok(pos)
    }
}

/// The message of the error for an event read with the id `id`.
pub fn id_error_message(id: usize) -> (r: String)
    ensures
        r@ == "Encountered event with non-zero id "@ + decimal(id as nat),
{
    concat_str("Encountered event with non-zero id ", decimal_string(id as u64).as_str())
}

} // verus!
