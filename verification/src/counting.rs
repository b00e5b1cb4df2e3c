//! Counting how often an item occurs in a sequence.
use vstd::prelude::*;

verus! {

/// How often `m` occurs in `s`.
pub open spec fn count_of<K>(s: Seq<K>, m: K) -> nat
    decreases s.len(),
{
    if s.len() == 0 {
        0
    } else {
        count_of(s.drop_last(), m) + if s.last() == m {
            1nat
        } else {
            0nat
        }
    }
}

/// An item occurs no more often than the sequence is long.
pub proof fn lemma_count_of_bound<K>(s: Seq<K>, m: K)
    ensures
        count_of(s, m) <= s.len(),
    decreases s.len(),
{
    if s.len() > 0 {
        lemma_count_of_bound(s.drop_last(), m);
    }
}

/// An item that occurs stands somewhere in the sequence.
pub proof fn lemma_count_positive_found<K>(s: Seq<K>, m: K)
    requires
        count_of(s, m) > 0,
    ensures
        exists|k: int| 0 <= k < s.len() && s[k] == m,
    decreases s.len(),
{
    if s.last() == m {
        assert(s[s.len() - 1] == m);
    } else {
        lemma_count_positive_found(s.drop_last(), m);
        let k = choose|k: int| 0 <= k < s.drop_last().len() && s.drop_last()[k] == m;
        assert(s[k] == m);
    }
}

/// How often each of `keys` occurs in `items`, added up.
pub open spec fn sum_counts<K>(keys: Seq<K>, items: Seq<K>) -> nat
    decreases keys.len(),
{
    if keys.len() == 0 {
        0
    } else {
        sum_counts(keys.drop_last(), items) + count_of(items, keys.last())
    }
}

proof fn lemma_sum_counts_step<K>(keys: Seq<K>, items: Seq<K>)
    requires
        items.len() > 0,
    ensures
        sum_counts(keys, items) == sum_counts(keys, items.drop_last()) + count_of(keys, items.last()),
    decreases keys.len(),
{
    if keys.len() > 0 {
        lemma_sum_counts_step(keys.drop_last(), items);
    }
}

proof fn lemma_count_one<K>(keys: Seq<K>, m: K)
    requires
        forall|i: int, j: int| 0 <= i < j < keys.len() ==> keys[i] != keys[j],
        keys.contains(m),
    ensures
        count_of(keys, m) == 1,
    decreases keys.len(),
{
    let t = keys.drop_last();
    assert forall|i: int, j: int| 0 <= i < j < t.len() implies t[i] != t[j] by {
        assert(t[i] == keys[i] && t[j] == keys[j]);
    }
    if keys.last() == m {
        if t.contains(m) {
            let i = choose|i: int| 0 <= i < t.len() && t[i] == m;
            assert(keys[i] == keys[keys.len() - 1]);
        }
        lemma_count_zero(t, m);
    } else {
        let i = choose|i: int| 0 <= i < keys.len() && keys[i] == m;
        assert(t[i] == m);
        lemma_count_one(t, m);
    }
}

proof fn lemma_count_zero<K>(keys: Seq<K>, m: K)
    requires
        !keys.contains(m),
    ensures
        count_of(keys, m) == 0,
    decreases keys.len(),
{
    if keys.len() > 0 {
        assert(keys[keys.len() - 1] != m);
        let t = keys.drop_last();
        assert(!t.contains(m)) by {
            if t.contains(m) {
                let i = choose|i: int| 0 <= i < t.len() && t[i] == m;
                assert(keys[i] == m);
            }
        }
        lemma_count_zero(t, m);
    }
}

proof fn lemma_sum_counts_none<K>(keys: Seq<K>, items: Seq<K>)
    requires
        items.len() == 0,
    ensures
        sum_counts(keys, items) == 0,
    decreases keys.len(),
{
    if keys.len() > 0 {
        lemma_sum_counts_none(keys.drop_last(), items);
    }
}

/// Distinct keys that include every item count all items between them.
pub proof fn lemma_sum_counts_all<K>(keys: Seq<K>, items: Seq<K>)
    requires
        forall|i: int, j: int| 0 <= i < j < keys.len() ==> keys[i] != keys[j],
        forall|k: int| 0 <= k < items.len() ==> keys.contains(#[trigger] items[k]),
    ensures
        sum_counts(keys, items) == items.len(),
    decreases items.len(),
{
    if items.len() == 0 {
        lemma_sum_counts_none(keys, items);
    } else {
        let t = items.drop_last();
        assert forall|k: int| 0 <= k < t.len() implies keys.contains(#[trigger] t[k]) by {
            assert(t[k] == items[k]);
        }
        lemma_sum_counts_all(keys, t);
        lemma_sum_counts_step(keys, items);
        assert(keys.contains(items[items.len() - 1]));
        lemma_count_one(keys, items.last());
    }
}


/// Counting in two sequences one after the other adds up.
pub proof fn lemma_count_of_append<K>(a: Seq<K>, b: Seq<K>, m: K)
    ensures
        count_of(a + b, m) == count_of(a, m) + count_of(b, m),
    decreases b.len(),
{
    if b.len() == 0 {
        assert(a + b =~= a);
    } else {
        assert((a + b).drop_last() =~= a + b.drop_last());
        lemma_count_of_append(a, b.drop_last(), m);
    }
}

} // verus!
