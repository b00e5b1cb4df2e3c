//! A record of cells of interest, kept while cells are built: the first
//! ones, a random sample, and those with the largest radius, number of
//! members and accumulated weight.
use vstd::prelude::*;

use rand::distributions::{Distribution, Uniform};
use rand::rngs::StdRng;
use std::collections::HashMap;

verus! {

/// How many cells each record keeps.
pub const NCELLS: usize = 10;

/// What the collector reads of a cell. The radius and the weight sum are
/// given by order keys: integers that order as the radii and weight sums
/// of cells do.
pub struct CellInfo {
    pub radius: u64,
    pub weight_sum: u64,
    pub event_ids: Vec<usize>,
}

/// A cell as the collector sees it: order keys of its radius and weight
/// sum, and the ids of its events (whose number is its number of members).
pub ghost struct CellModel {
    pub radius: int,
    pub weight_sum: int,
    pub events: Seq<usize>,
}

impl CellInfo {
    /// The cell as the collector sees it.
    pub open spec fn model(&self) -> CellModel {
        CellModel { radius: self.radius as int, weight_sum: self.weight_sum as int, events: self.event_ids@ }
    }
}

/// What a collector holds. A kept cell is its number, counted from 0 in the
/// order the cells came, with its event ids; a ranked cell has an order key
/// in front of these.
pub ghost struct CollectorModel {
    pub count: int,
    pub first: Seq<(int, Seq<usize>)>,
    pub random: Seq<(int, Seq<usize>)>,
    pub by_radius: Seq<(int, int, Seq<usize>)>,
    pub by_members: Seq<(int, int, Seq<usize>)>,
    pub by_weight: Seq<(int, int, Seq<usize>)>,
}

/// Order of ranked cells: by key, then by cell number.
pub open spec fn ranked_lt(a: (int, int, Seq<usize>), b: (int, int, Seq<usize>)) -> bool {
    a.0 < b.0 || (a.0 == b.0 && a.1 < b.1)
}

/// The ranked cells stand in strictly increasing order.
pub open spec fn increasing(s: Seq<(int, int, Seq<usize>)>) -> bool {
    forall|i: int, j: int| 0 <= i < j < s.len() ==> ranked_lt(#[trigger] s[i], #[trigger] s[j])
}

/// Where a ranked cell goes among those of `s`: after all that are smaller.
pub open spec fn rank_pos(s: Seq<(int, int, Seq<usize>)>, e: (int, int, Seq<usize>)) -> int
    decreases s.len(),
{
    if s.len() == 0 {
        0
    } else {
        rank_pos(s.drop_last(), e) + if ranked_lt(s.last(), e) {
            1int
        } else {
            0int
        }
    }
}

/// `s` with `e` put in its place.
pub open spec fn insert_ranked(s: Seq<(int, int, Seq<usize>)>, e: (int, int, Seq<usize>)) -> Seq<
    (int, int, Seq<usize>),
> {
    s.insert(rank_pos(s, e), e)
}

/// The least of the ranked cells gives way to `e` if the key of `e` is
/// larger than its own.
pub open spec fn replace_smallest(s: Seq<(int, int, Seq<usize>)>, e: (int, int, Seq<usize>)) -> Seq<
    (int, int, Seq<usize>),
> {
    if s.len() > 0 && e.0 > s[0].0 {
        insert_ranked(s.drop_first(), e)
    } else {
        s
    }
}

/// One ranked record after a cell came: while fewer than `NCELLS` cells
/// came, it takes every cell; after that, `replace_smallest`.
pub open spec fn rank_step(s: Seq<(int, int, Seq<usize>)>, count: int, e: (int, int, Seq<usize>)) -> Seq<
    (int, int, Seq<usize>),
> {
    if count < NCELLS {
        insert_ranked(s, e)
    } else {
        replace_smallest(s, e)
    }
}

/// How many cells a record holds after `count` cells came.
pub open spec fn record_len(count: int) -> int {
    if count < NCELLS {
        count
    } else {
        NCELLS as int
    }
}

impl CollectorModel {
    /// The records agree with the count of cells: each kept cell number is
    /// below it, the ranked records are in increasing order, and each
    /// record holds no more than `NCELLS` cells, and as many as came if
    /// fewer came.
    pub open spec fn wf(self) -> bool {
        &&& 0 <= self.count
        &&& self.first.len() <= NCELLS && self.first.len() <= self.count
        &&& self.random.len() == record_len(self.count)
        &&& self.by_radius.len() == record_len(self.count)
        &&& self.by_members.len() == record_len(self.count)
        &&& self.by_weight.len() == record_len(self.count)
        &&& increasing(self.by_radius) && increasing(self.by_members) && increasing(self.by_weight)
        &&& forall|i: int| 0 <= i < self.first.len() ==> 0 <= #[trigger] self.first[i].0 < self.count
        &&& forall|i: int| 0 <= i < self.random.len() ==> 0 <= #[trigger] self.random[i].0 < self.count
        &&& forall|i: int| 0 <= i < self.by_radius.len() ==> 0 <= #[trigger] self.by_radius[i].1 < self.count
        &&& forall|i: int| 0 <= i < self.by_members.len() ==> 0 <= #[trigger] self.by_members[i].1 < self.count
        &&& forall|i: int| 0 <= i < self.by_weight.len() ==> 0 <= #[trigger] self.by_weight[i].1 < self.count
    }
}

/// The model of a collector that has seen no cell.
pub open spec fn empty_model() -> CollectorModel {
    CollectorModel {
        count: 0,
        first: Seq::empty(),
        random: Seq::empty(),
        by_radius: Seq::empty(),
        by_members: Seq::empty(),
        by_weight: Seq::empty(),
    }
}

/// What `collect` makes of the collector `m` and the cell `c`, where `draw`
/// is the number drawn from 0 to the count of cells. While fewer than
/// `NCELLS` cells came, every record takes the cell; after that the
/// ranked records replace their least cell if the new one ranks above it,
/// and the random sample puts the cell in place `draw` if there is one.
pub open spec fn spec_collect(m: CollectorModel, c: CellModel, draw: int) -> CollectorModel {
    let n = m.count;
    CollectorModel {
        count: n + 1,
        first: if n < NCELLS {
            m.first.push((n, c.events))
        } else {
            m.first
        },
        random: if n < NCELLS {
            m.random.push((n, c.events))
        } else if draw < m.random.len() {
            m.random.update(draw, (n, c.events))
        } else {
            m.random
        },
        by_radius: rank_step(m.by_radius, n, (c.radius, n, c.events)),
        by_members: rank_step(m.by_members, n, (c.events.len() as int, n, c.events)),
        by_weight: rank_step(m.by_weight, n, (c.weight_sum, n, c.events)),
    }
}


/// The collector after it was given the cells `cells` in turn, the draws
/// `draws` picking the places in the random sample.
pub open spec fn collect_all(cells: Seq<CellModel>, draws: Seq<int>) -> CollectorModel
    decreases cells.len(),
{
    if cells.len() == 0 {
        empty_model()
    } else {
        spec_collect(collect_all(cells.drop_last(), draws.drop_last()), cells.last(), draws.last())
    }
}

/// The radius keys of the cells.
pub open spec fn radius_keys(cells: Seq<CellModel>) -> Seq<int> {
    cells.map_values(|c: CellModel| c.radius)
}

/// The numbers of members of the cells.
pub open spec fn member_keys(cells: Seq<CellModel>) -> Seq<int> {
    cells.map_values(|c: CellModel| c.events.len() as int)
}

/// The weight sum keys of the cells.
pub open spec fn weight_keys(cells: Seq<CellModel>) -> Seq<int> {
    cells.map_values(|c: CellModel| c.weight_sum)
}

/// Cell `i` is among the ranked cells `l`.
pub open spec fn ranks(l: Seq<(int, int, Seq<usize>)>, i: int) -> bool {
    exists|j: int| 0 <= j < l.len() && (#[trigger] l[j]).1 == i
}

/// The ranked record `l` of the cells `cells`, whose keys are `keys`,
/// holds the largest: each entry is the key, number and event ids of one of
/// the cells, and a cell that is not there has a key no larger than that
/// of any entry.
pub open spec fn keeps_largest(l: Seq<(int, int, Seq<usize>)>, keys: Seq<int>, cells: Seq<CellModel>) -> bool {
    &&& forall|j: int| 0 <= j < l.len() ==> {
        &&& 0 <= (#[trigger] l[j]).1 < cells.len()
        &&& l[j].0 == keys[l[j].1]
        &&& l[j].2 == cells[l[j].1].events
    }
    &&& forall|i: int| 0 <= i < cells.len() && !ranks(l, i) ==> below_all(l, #[trigger] keys[i])
}

/// The key `k` is no larger than the key of any of the ranked cells `l`.
pub open spec fn below_all(l: Seq<(int, int, Seq<usize>)>, k: int) -> bool {
    forall|j: int| 0 <= j < l.len() ==> k <= (#[trigger] l[j]).0
}


/// In an increasing record no key is below that of the first entry.
proof fn lemma_first_least(l: Seq<(int, int, Seq<usize>)>)
    requires
        increasing(l),
        l.len() > 0,
    ensures
        below_all(l, l[0].0),
{
    assert forall|j: int| 0 <= j < l.len() implies l[0].0 <= (#[trigger] l[j]).0 by {
        if j > 0 {
            assert(ranked_lt(l[0], l[j]));
        }
    }
}

/// One step of a ranked record keeps the largest of the cells, and, while
/// fewer than `NCELLS` cells came, every cell.
proof fn lemma_step_keeps(
    l: Seq<(int, int, Seq<usize>)>,
    keys: Seq<int>,
    cells: Seq<CellModel>,
    c: CellModel,
    k: int,
)
    requires
        keys.len() == cells.len(),
        keeps_largest(l, keys, cells),
        increasing(l),
        l.len() == record_len(cells.len() as int),
        cells.len() < NCELLS ==> forall|i: int| 0 <= i < cells.len() ==> #[trigger] ranks(l, i),
    ensures
        ({
            let n = cells.len() as int;
            let l2 = rank_step(l, n, (k, n, c.events));
            &&& keeps_largest(l2, keys.push(k), cells.push(c))
            &&& n + 1 < NCELLS ==> forall|i: int| 0 <= i < n + 1 ==> #[trigger] ranks(l2, i)
        }),
{
    let n = cells.len() as int;
    let e = (k, n, c.events);
    let keys2 = keys.push(k);
    let cells2 = cells.push(c);
    let l2 = rank_step(l, n, e);
    assert forall|j: int| 0 <= j < l.len() implies (#[trigger] l[j]).1 < e.1 by {}
    if n < NCELLS {
        lemma_insert_fresh(l, e);
        let p = rank_pos(l, e);
        assert forall|j: int| 0 <= j < l2.len() implies {
            &&& 0 <= (#[trigger] l2[j]).1 < cells2.len()
            &&& l2[j].0 == keys2[l2[j].1]
            &&& l2[j].2 == cells2[l2[j].1].events
        } by {
            if j < p {
                assert(l2[j] == l[j]);
            } else if j > p {
                assert(l2[j] == l[j - 1]);
            }
        }
        assert forall|i: int| 0 <= i < n + 1 implies #[trigger] ranks(l2, i) by {
            if i == n {
                assert(l2[p].1 == i);
            } else {
                assert(ranks(l, i));
                let j = choose|j: int| 0 <= j < l.len() && (#[trigger] l[j]).1 == i;
                if j < p {
                    assert(l2[j] == l[j]);
                } else {
                    assert(l2[j + 1] == l[j]);
                }
            }
        }
    } else if k > l[0].0 {
        let t = l.drop_first();
        assert(increasing(t)) by {
            assert forall|a: int, b: int| 0 <= a < b < t.len() implies ranked_lt(#[trigger] t[a], #[trigger] t[b]) by {
                assert(t[a] == l[a + 1] && t[b] == l[b + 1]);
            }
        }
        assert forall|j: int| 0 <= j < t.len() implies (#[trigger] t[j]).1 < e.1 by {
            assert(t[j] == l[j + 1]);
        }
        lemma_insert_fresh(t, e);
        lemma_first_least(l);
        let p = rank_pos(t, e);
        assert forall|j: int| 0 <= j < l2.len() implies {
            &&& 0 <= (#[trigger] l2[j]).1 < cells2.len()
            &&& l2[j].0 == keys2[l2[j].1]
            &&& l2[j].2 == cells2[l2[j].1].events
        } by {
            if j < p {
                assert(l2[j] == t[j] && t[j] == l[j + 1]);
            } else if j > p {
                assert(l2[j] == t[j - 1] && t[j - 1] == l[j]);
            }
        }
        assert forall|i: int| 0 <= i < cells2.len() && !ranks(l2, i) implies below_all(l2, #[trigger] keys2[i]) by {
            if i == n {
                assert(l2[p].1 == i);
            } else {
                assert(keys2[i] == keys[i]);
                if ranks(l, i) {
                    let j = choose|j: int| 0 <= j < l.len() && (#[trigger] l[j]).1 == i;
                    if j > 0 {
                        if j - 1 < p {
                            assert(l2[j - 1] == t[j - 1]);
                        } else {
                            assert(l2[j] == t[j - 1]);
                        }
                        assert(false);
                    }
                    assert(keys[i] == l[0].0);
                } else {
                    assert(below_all(l, keys[i]));
                }
                assert forall|j: int| 0 <= j < l2.len() implies keys2[i] <= (#[trigger] l2[j]).0 by {
                    if j < p {
                        assert(l2[j] == t[j] && t[j] == l[j + 1]);
                    } else if j > p {
                        assert(l2[j] == t[j - 1] && t[j - 1] == l[j]);
                    }
                }
            }
        }
    } else {
        lemma_first_least(l);
        assert forall|j: int| 0 <= j < l2.len() implies {
            &&& 0 <= (#[trigger] l2[j]).1 < cells2.len()
            &&& l2[j].0 == keys2[l2[j].1]
            &&& l2[j].2 == cells2[l2[j].1].events
        } by {}
        assert forall|i: int| 0 <= i < cells2.len() && !ranks(l2, i) implies below_all(l2, #[trigger] keys2[i]) by {
            if i < n {
                assert(keys2[i] == keys[i]);
            }
        }
    }
}


/// What collecting the cells in turn keeps, with the fact that while fewer
/// than `NCELLS` cells came every ranked record holds all of them.
proof fn lemma_collect_all(cells: Seq<CellModel>, draws: Seq<int>)
    requires
        draws.len() == cells.len(),
        forall|i: int| 0 <= i < draws.len() ==> 0 <= #[trigger] draws[i] <= i,
    ensures
        ({
            let m = collect_all(cells, draws);
            let n = cells.len() as int;
            &&& m.wf()
            &&& m.count == n
            &&& m.first.len() == record_len(n)
            &&& forall|i: int| 0 <= i < m.first.len() ==> #[trigger] m.first[i] == (i, cells[i].events)
            &&& forall|j: int| 0 <= j < m.random.len() ==> 0 <= (#[trigger] m.random[j]).0 < n && m.random[j].1 == cells[m.random[j].0].events
            &&& keeps_largest(m.by_radius, radius_keys(cells), cells)
            &&& keeps_largest(m.by_members, member_keys(cells), cells)
            &&& keeps_largest(m.by_weight, weight_keys(cells), cells)
            &&& n < NCELLS ==> forall|i: int| 0 <= i < n ==> #[trigger] ranks(m.by_radius, i)
            &&& n < NCELLS ==> forall|i: int| 0 <= i < n ==> #[trigger] ranks(m.by_members, i)
            &&& n < NCELLS ==> forall|i: int| 0 <= i < n ==> #[trigger] ranks(m.by_weight, i)
        }),
    decreases cells.len(),
{
    let m = collect_all(cells, draws);
    if cells.len() == 0 {
        assert(m.first =~= Seq::empty());
        assert(m.random =~= Seq::empty());
        assert(m.by_radius =~= Seq::empty());
        assert(m.by_members =~= Seq::empty());
        assert(m.by_weight =~= Seq::empty());
    } else {
        let pc = cells.drop_last();
        let pd = draws.drop_last();
        let c = cells.last();
        let d = draws.last();
        let n = pc.len() as int;
        assert forall|i: int| 0 <= i < pd.len() implies 0 <= #[trigger] pd[i] <= i by {
            assert(pd[i] == draws[i]);
        }
        lemma_collect_all(pc, pd);
        let pm = collect_all(pc, pd);
        assert(0 <= d <= n) by {
            assert(draws[n] == d);
        }
        lemma_collect_wf(pm, c, d);
        assert(cells == pc.push(c));
        assert(radius_keys(cells) =~= radius_keys(pc).push(c.radius));
        assert(member_keys(cells) =~= member_keys(pc).push(c.events.len() as int));
        assert(weight_keys(cells) =~= weight_keys(pc).push(c.weight_sum));
        lemma_step_keeps(pm.by_radius, radius_keys(pc), pc, c, c.radius);
        lemma_step_keeps(pm.by_members, member_keys(pc), pc, c, c.events.len() as int);
        lemma_step_keeps(pm.by_weight, weight_keys(pc), pc, c, c.weight_sum);
        assert forall|i: int| 0 <= i < m.first.len() implies #[trigger] m.first[i] == (i, cells[i].events) by {
            if i < pm.first.len() {
                assert(m.first[i] == pm.first[i]);
                assert(cells[i] == pc[i]);
            }
        }
        assert forall|j: int| 0 <= j < m.random.len() implies 0 <= (#[trigger] m.random[j]).0 < n + 1 && m.random[j].1
            == cells[m.random[j].0].events by {
            if n < NCELLS {
                if j < pm.random.len() {
                    assert(m.random[j] == pm.random[j]);
                    assert(cells[pm.random[j].0] == pc[pm.random[j].0]);
                }
            } else if j != d {
                assert(m.random[j] == pm.random[j]);
                assert(cells[pm.random[j].0] == pc[pm.random[j].0]);
            }
        }
    }
}

/// The records of a collector that was given the cells `cells` in turn,
/// with any draws: the record of first cells holds the first cells in
/// order; each cell of the random sample is one of the cells, with its
/// event ids; and each ranked record keeps the cells with the largest
/// radius, number of members and weight sum, in that a cell left out has
/// a key no larger than that of any cell kept.
pub proof fn law_collect_keeps_largest(cells: Seq<CellModel>, draws: Seq<int>)
    requires
        draws.len() == cells.len(),
        forall|i: int| 0 <= i < draws.len() ==> 0 <= #[trigger] draws[i] <= i,
    ensures
        ({
            let m = collect_all(cells, draws);
            &&& m.wf()
            &&& m.count == cells.len()
            &&& m.first.len() == record_len(cells.len() as int)
            &&& forall|i: int| 0 <= i < m.first.len() ==> #[trigger] m.first[i] == (i, cells[i].events)
            &&& forall|j: int| 0 <= j < m.random.len() ==> 0 <= (#[trigger] m.random[j]).0 < cells.len() && m.random[j].1
                == cells[m.random[j].0].events
            &&& keeps_largest(m.by_radius, radius_keys(cells), cells)
            &&& keeps_largest(m.by_members, member_keys(cells), cells)
            &&& keeps_largest(m.by_weight, weight_keys(cells), cells)
        }),
{
    lemma_collect_all(cells, draws);
}


/// How a cell enters the random sample. While fewer than `NCELLS` cells
/// came, it is added. After that, of the `count + 1` numbers from 0 to the
/// count that the place can be drawn from, exactly the `NCELLS` numbers
/// below `NCELLS` put the cell in the sample, at that place and in place of
/// the cell there, and the others leave the sample as it was; so a draw
/// uniform over those numbers takes the cell with a chance of `NCELLS` in
/// `count + 1`.
pub proof fn law_collect_random_sample(m: CollectorModel, c: CellModel, draw: int)
    requires
        m.wf(),
        0 <= draw <= m.count,
    ensures
        ({
            let r = spec_collect(m, c, draw);
            let entry = (m.count, c.events);
            &&& m.count < NCELLS ==> r.random == m.random.push(entry)
            &&& m.count >= NCELLS ==> (r.random.contains(entry) <==> draw < NCELLS)
            &&& m.count >= NCELLS && draw < NCELLS ==> r.random == m.random.update(draw, entry)
            &&& m.count >= NCELLS && draw >= NCELLS ==> r.random == m.random
        }),
{
    let r = spec_collect(m, c, draw);
    let entry = (m.count, c.events);
    if m.count >= NCELLS {
        if draw < NCELLS {
            assert(r.random[draw] == entry);
        } else {
            assert forall|j: int| 0 <= j < r.random.len() implies r.random[j] != entry by {
                assert(m.random[j].0 < m.count);
            }
        }
    }
}

/// Kept cells with their numbers raised by `by`.
pub open spec fn shift_kept(s: Seq<(int, Seq<usize>)>, by: int) -> Seq<(int, Seq<usize>)> {
    s.map_values(|c: (int, Seq<usize>)| (c.0 + by, c.1))
}

/// Ranked cells with their numbers raised by `by`.
pub open spec fn shift_ranked(s: Seq<(int, int, Seq<usize>)>, by: int) -> Seq<(int, int, Seq<usize>)> {
    s.map_values(|c: (int, int, Seq<usize>)| (c.0, c.1 + by, c.2))
}

/// `s` with the cells of `t` put in their places, one after the other.
pub open spec fn insert_all(s: Seq<(int, int, Seq<usize>)>, t: Seq<(int, int, Seq<usize>)>) -> Seq<
    (int, int, Seq<usize>),
>
    decreases t.len(),
{
    if t.len() == 0 {
        s
    } else {
        insert_all(insert_ranked(s, t[0]), t.drop_first())
    }
}

/// The last `NCELLS` ranked cells, the greatest ones.
pub open spec fn truncated(s: Seq<(int, int, Seq<usize>)>) -> Seq<(int, int, Seq<usize>)> {
    if s.len() <= NCELLS {
        s
    } else {
        s.subrange(s.len() - NCELLS, s.len() as int)
    }
}

/// `s` without its cell `i`, the last one taking its place.
pub open spec fn swap_removed(s: Seq<(int, Seq<usize>)>, i: int) -> Seq<(int, Seq<usize>)> {
    s.update(i, s.last()).drop_last()
}

/// `s` after each of `draws` in turn picked a cell to go.
pub open spec fn remove_drawn(s: Seq<(int, Seq<usize>)>, draws: Seq<int>) -> Seq<(int, Seq<usize>)>
    decreases draws.len(),
{
    if draws.len() == 0 {
        s
    } else {
        remove_drawn(swap_removed(s, draws[0]), draws.drop_first())
    }
}

/// The draws that bring a random sample of `len` cells down to `NCELLS`:
/// one for each cell too many, each below the number of cells left then.
pub open spec fn draws_fit(len: int, draws: Seq<int>) -> bool {
    &&& draws.len() == if len > NCELLS {
        len - NCELLS
    } else {
        0
    }
    &&& forall|k: int| 0 <= k < draws.len() ==> 0 <= #[trigger] draws[k] < len - k
}

/// What `combine` makes of the collectors `a` and `b`: the cells of `b`
/// count after those of `a`; the first cells are those of `a`; the ranked
/// records take the cells of both and keep the `NCELLS` greatest; the random
/// samples are joined, and the draws pick cells to leave until `NCELLS`
/// are left.
pub open spec fn spec_combine(a: CollectorModel, b: CollectorModel, draws: Seq<int>) -> CollectorModel {
    CollectorModel {
        count: a.count + b.count,
        first: a.first,
        random: remove_drawn(a.random + shift_kept(b.random, a.count), draws),
        by_radius: truncated(insert_all(a.by_radius, shift_ranked(b.by_radius, a.count))),
        by_members: truncated(insert_all(a.by_members, shift_ranked(b.by_members, a.count))),
        by_weight: truncated(insert_all(a.by_weight, shift_ranked(b.by_weight, a.count))),
    }
}


/// No cell of `s` has the key and number of a cell of `t`.
pub open spec fn apart(s: Seq<(int, int, Seq<usize>)>, t: Seq<(int, int, Seq<usize>)>) -> bool {
    forall|i: int, j: int| 0 <= i < s.len() && 0 <= j < t.len() ==> (#[trigger] s[i]).0 != (#[trigger] t[j]).0 || s[i].1 != t[j].1
}

/// Each cell number of `s` lies in `lo .. hi`.
pub open spec fn numbers_within(s: Seq<(int, int, Seq<usize>)>, lo: int, hi: int) -> bool {
    forall|j: int| 0 <= j < s.len() ==> lo <= (#[trigger] s[j]).1 < hi
}

proof fn lemma_increasing_drop_first(s: Seq<(int, int, Seq<usize>)>)
    requires
        increasing(s),
        s.len() > 0,
    ensures
        increasing(s.drop_first()),
{
    let t = s.drop_first();
    assert forall|a: int, b: int| 0 <= a < b < t.len() implies ranked_lt(#[trigger] t[a], #[trigger] t[b]) by {
        assert(t[a] == s[a + 1] && t[b] == s[b + 1]);
    }
}

/// Putting the cells of `t` in their places keeps the order and the bounds
/// on the cell numbers, and adds up the lengths.
proof fn lemma_insert_all(s: Seq<(int, int, Seq<usize>)>, t: Seq<(int, int, Seq<usize>)>, lo: int, hi: int)
    requires
        increasing(s),
        increasing(t),
        apart(s, t),
        numbers_within(s, lo, hi),
        numbers_within(t, lo, hi),
    ensures
        increasing(insert_all(s, t)),
        insert_all(s, t).len() == s.len() + t.len(),
        numbers_within(insert_all(s, t), lo, hi),
    decreases t.len(),
{
    if t.len() > 0 {
        let e = t[0];
        assert forall|j: int| 0 <= j < s.len() implies (#[trigger] s[j]).0 != e.0 || s[j].1 != e.1 by {
            assert(t[0] == e);
        }
        lemma_insert_fresh(s, e);
        let s2 = insert_ranked(s, e);
        let t2 = t.drop_first();
        let p = rank_pos(s, e);
        lemma_increasing_drop_first(t);
        assert forall|i: int, j: int| 0 <= i < s2.len() && 0 <= j < t2.len() implies (#[trigger] s2[i]).0 != (
        #[trigger] t2[j]).0 || s2[i].1 != t2[j].1 by {
            assert(t2[j] == t[j + 1]);
            if i < p {
                assert(s2[i] == s[i]);
            } else if i == p {
                assert(ranked_lt(t[0], t[j + 1]));
            } else {
                assert(s2[i] == s[i - 1]);
            }
        }
        assert forall|j: int| 0 <= j < s2.len() implies lo <= (#[trigger] s2[j]).1 < hi by {
            if j < p {
                assert(s2[j] == s[j]);
            } else if j > p {
                assert(s2[j] == s[j - 1]);
            }
        }
        assert forall|j: int| 0 <= j < t2.len() implies lo <= (#[trigger] t2[j]).1 < hi by {
            assert(t2[j] == t[j + 1]);
        }
        lemma_insert_all(s2, t2, lo, hi);
    }
}

/// Cutting a ranked record to `NCELLS` cells keeps its order and bounds.
proof fn lemma_truncated(s: Seq<(int, int, Seq<usize>)>, lo: int, hi: int)
    requires
        increasing(s),
        numbers_within(s, lo, hi),
    ensures
        increasing(truncated(s)),
        numbers_within(truncated(s), lo, hi),
        truncated(s).len() == if s.len() <= NCELLS {
            s.len() as int
        } else {
            NCELLS as int
        },
{
    let r = truncated(s);
    let off: int = if s.len() <= NCELLS {
        0
    } else {
        s.len() - NCELLS
    };
    assert forall|a: int, b: int| 0 <= a < b < r.len() implies ranked_lt(#[trigger] r[a], #[trigger] r[b]) by {
        assert(r[a] == s[a + off] && r[b] == s[b + off]);
    }
    assert forall|j: int| 0 <= j < r.len() implies lo <= (#[trigger] r[j]).1 < hi by {
        assert(r[j] == s[j + off]);
    }
}

/// The draws take the random sample down to the length they fit, and the
/// cells left are cells it had.
proof fn lemma_remove_drawn(s: Seq<(int, Seq<usize>)>, draws: Seq<int>, hi: int)
    requires
        forall|k: int| 0 <= k < draws.len() ==> 0 <= #[trigger] draws[k] < s.len() - k,
        forall|j: int| 0 <= j < s.len() ==> 0 <= (#[trigger] s[j]).0 < hi,
    ensures
        remove_drawn(s, draws).len() == s.len() - draws.len() || draws.len() > s.len(),
        forall|j: int| 0 <= j < remove_drawn(s, draws).len() ==> 0 <= (#[trigger] remove_drawn(s, draws)[j]).0 < hi,
    decreases draws.len(),
{
    if draws.len() > 0 {
        assert(0 <= draws[0] < s.len());
        let s2 = swap_removed(s, draws[0]);
        let d2 = draws.drop_first();
        assert forall|k: int| 0 <= k < d2.len() implies 0 <= #[trigger] d2[k] < s2.len() - k by {
            assert(d2[k] == draws[k + 1]);
        }
        assert forall|j: int| 0 <= j < s2.len() implies 0 <= (#[trigger] s2[j]).0 < hi by {
            if j == draws[0] {
                assert(s2[j] == s[s.len() - 1]);
            } else {
                assert(s2[j] == s[j]);
            }
        }
        lemma_remove_drawn(s2, d2, hi);
    }
}

/// The ranked cells of a second collector, their numbers raised past those
/// of the first, keep their order and stand apart from those of the first.
proof fn lemma_shift_ok(l: Seq<(int, int, Seq<usize>)>, m: Seq<(int, int, Seq<usize>)>, ca: int, cb: int)
    requires
        0 <= ca,
        0 <= cb,
        increasing(l),
        increasing(m),
        numbers_within(l, 0, ca),
        numbers_within(m, 0, cb),
    ensures
        increasing(shift_ranked(m, ca)),
        apart(l, shift_ranked(m, ca)),
        numbers_within(shift_ranked(m, ca), 0, ca + cb),
        numbers_within(l, 0, ca + cb),
{
    let n = ca + cb;
    let sm = shift_ranked(m, ca);
    assert(increasing(sm)) by {
        assert forall|i: int, j: int| 0 <= i < j < sm.len() implies ranked_lt(#[trigger] sm[i], #[trigger] sm[j]) by {
            assert(ranked_lt(m[i], m[j]));
        }
    }
    assert(apart(l, sm)) by {
        assert forall|i: int, j: int| 0 <= i < l.len() && 0 <= j < sm.len() implies (#[trigger] l[i]).0 != (
        #[trigger] sm[j]).0 || l[i].1 != sm[j].1 by {
            assert(sm[j].1 == m[j].1 + ca);
        }
    }
    assert(numbers_within(sm, 0, n)) by {
        assert forall|j: int| 0 <= j < sm.len() implies 0 <= (#[trigger] sm[j]).1 < n by {
            assert(sm[j].1 == m[j].1 + ca);
        }
    }
    assert(numbers_within(l, 0, n)) by {
        assert forall|j: int| 0 <= j < l.len() implies 0 <= (#[trigger] l[j]).1 < n by {
            assert(l[j].1 < ca);
        }
    }
}

/// The ranked cell `x` stands in `l`.
pub open spec fn holds(l: Seq<(int, int, Seq<usize>)>, x: (int, int, Seq<usize>)) -> bool {
    exists|j: int| 0 <= j < l.len() && l[j] == x
}

/// Putting the cells of `t` in their places keeps every cell of `s` and of `t`.
proof fn lemma_insert_all_holds(s: Seq<(int, int, Seq<usize>)>, t: Seq<(int, int, Seq<usize>)>, lo: int, hi: int)
    requires
        increasing(s),
        increasing(t),
        apart(s, t),
        numbers_within(s, lo, hi),
        numbers_within(t, lo, hi),
    ensures
        forall|i: int| 0 <= i < s.len() ==> holds(insert_all(s, t), #[trigger] s[i]),
        forall|i: int| 0 <= i < t.len() ==> holds(insert_all(s, t), #[trigger] t[i]),
    decreases t.len(),
{
    let r = insert_all(s, t);
    if t.len() == 0 {
        assert forall|i: int| 0 <= i < s.len() implies holds(r, #[trigger] s[i]) by {
            assert(r[i] == s[i]);
        }
    } else {
        let e = t[0];
        assert forall|j: int| 0 <= j < s.len() implies (#[trigger] s[j]).0 != e.0 || s[j].1 != e.1 by {
            assert(t[0] == e);
        }
        lemma_insert_fresh(s, e);
        let s2 = insert_ranked(s, e);
        let t2 = t.drop_first();
        let p = rank_pos(s, e);
        lemma_increasing_drop_first(t);
        assert forall|i: int, j: int| 0 <= i < s2.len() && 0 <= j < t2.len() implies (#[trigger] s2[i]).0 != (
        #[trigger] t2[j]).0 || s2[i].1 != t2[j].1 by {
            assert(t2[j] == t[j + 1]);
            if i < p {
                assert(s2[i] == s[i]);
            } else if i == p {
                assert(ranked_lt(t[0], t[j + 1]));
            } else {
                assert(s2[i] == s[i - 1]);
            }
        }
        assert forall|j: int| 0 <= j < s2.len() implies lo <= (#[trigger] s2[j]).1 < hi by {
            if j < p {
                assert(s2[j] == s[j]);
            } else if j > p {
                assert(s2[j] == s[j - 1]);
            }
        }
        assert forall|j: int| 0 <= j < t2.len() implies lo <= (#[trigger] t2[j]).1 < hi by {
            assert(t2[j] == t[j + 1]);
        }
        lemma_insert_all_holds(s2, t2, lo, hi);
        assert(r == insert_all(s2, t2));
        assert forall|i: int| 0 <= i < s.len() implies holds(r, #[trigger] s[i]) by {
            if i < p {
                assert(s2[i] == s[i]);
                assert(holds(r, s2[i]));
            } else {
                assert(s2[i + 1] == s[i]);
                assert(holds(r, s2[i + 1]));
            }
        }
        assert forall|i: int| 0 <= i < t.len() implies holds(r, #[trigger] t[i]) by {
            if i == 0 {
                assert(s2[p] == t[0]);
                assert(holds(r, s2[p]));
            } else {
                assert(t2[i - 1] == t[i]);
                assert(holds(r, t2[i - 1]));
            }
        }
    }
}

/// Keeping the last `NCELLS` of an increasing record keeps each cell or
/// leaves out one whose key is no larger than any kept.
proof fn lemma_truncated_keeps_largest(s: Seq<(int, int, Seq<usize>)>)
    requires
        increasing(s),
    ensures
        forall|x: (int, int, Seq<usize>)| holds(s, x) ==> holds(truncated(s), x) || below_all(truncated(s), x.0),
{
    let r = truncated(s);
    assert forall|x: (int, int, Seq<usize>)| holds(s, x) implies holds(r, x) || below_all(r, x.0) by {
        let i = choose|i: int| 0 <= i < s.len() && s[i] == x;
        if s.len() > NCELLS {
            let off = s.len() - NCELLS;
            if i >= off {
                assert(r[i - off] == x);
            } else {
                assert forall|j: int| 0 <= j < r.len() implies x.0 <= (#[trigger] r[j]).0 by {
                    assert(r[j] == s[j + off]);
                    assert(ranked_lt(s[i], s[j + off]));
                }
            }
        } else {
            assert(r[i] == x);
        }
    }
}

/// Each cell of `s` with the cells of `t` put in their places is a cell of
/// `s` or of `t`.
proof fn lemma_insert_all_from(s: Seq<(int, int, Seq<usize>)>, t: Seq<(int, int, Seq<usize>)>)
    ensures
        forall|x: (int, int, Seq<usize>)| holds(insert_all(s, t), x) ==> holds(s, x) || holds(t, x),
    decreases t.len(),
{
    if t.len() > 0 {
        let e = t[0];
        let p = rank_pos(s, e);
        lemma_rank_pos_bounds(s, e);
        s.insert_ensures(p, e);
        let s2 = insert_ranked(s, e);
        let t2 = t.drop_first();
        lemma_insert_all_from(s2, t2);
        assert forall|x: (int, int, Seq<usize>)| holds(insert_all(s, t), x) implies holds(s, x) || holds(t, x) by {
            if holds(s2, x) {
                let j = choose|j: int| 0 <= j < s2.len() && s2[j] == x;
                if j < p {
                    assert(s[j] == x);
                } else if j == p {
                    assert(t[0] == x);
                } else {
                    assert(s2[(j - 1) + 1] == s[j - 1]);
                }
            } else {
                let j = choose|j: int| 0 <= j < t2.len() && t2[j] == x;
                assert(t[j + 1] == x);
            }
        }
    }
}

/// Each cell kept when a record is cut to `NCELLS` cells was in it.
proof fn lemma_truncated_from(s: Seq<(int, int, Seq<usize>)>)
    ensures
        forall|x: (int, int, Seq<usize>)| holds(truncated(s), x) ==> holds(s, x),
{
    assert forall|x: (int, int, Seq<usize>)| holds(truncated(s), x) implies holds(s, x) by {
        let j = choose|j: int| 0 <= j < truncated(s).len() && truncated(s)[j] == x;
        if s.len() > NCELLS {
            assert(s[j + (s.len() - NCELLS)] == x);
        }
    }
}

/// The ranked record `r` made of the records `l` and `m` holds only their
/// cells, and keeps each of them or holds only cells with keys no smaller.
pub open spec fn keeps_greatest_of(
    r: Seq<(int, int, Seq<usize>)>,
    l: Seq<(int, int, Seq<usize>)>,
    m: Seq<(int, int, Seq<usize>)>,
) -> bool {
    &&& forall|x: (int, int, Seq<usize>)| #[trigger] holds(r, x) ==> holds(l, x) || holds(m, x)
    &&& forall|x: (int, int, Seq<usize>)| holds(l, x) || holds(m, x) ==> #[trigger] holds(r, x) || below_all(r, x.0)
}

/// Combining two collectors: the count is the sum of their counts; the
/// first cells are those of the first collector; the random sample and
/// each ranked record hold `NCELLS` cells, or all cells if fewer came; and
/// each ranked record holds the greatest of the cells of the ranked
/// records of the two collectors (those of the second with their numbers
/// raised by the count of the first): it holds only such cells, and each
/// such cell is kept or has a key no larger than that of any kept cell.
pub proof fn law_combine_keeps_largest(a: CollectorModel, b: CollectorModel, draws: Seq<int>)
    requires
        a.wf(),
        b.wf(),
        draws_fit(a.random.len() + b.random.len() as int, draws),
    ensures
        ({
            let r = spec_combine(a, b, draws);
            &&& r.wf()
            &&& r.count == a.count + b.count
            &&& r.first == a.first
            &&& r.random.len() == record_len(a.count + b.count)
            &&& r.by_radius.len() == record_len(a.count + b.count)
            &&& keeps_greatest_of(r.by_radius, a.by_radius, shift_ranked(b.by_radius, a.count))
            &&& keeps_greatest_of(r.by_members, a.by_members, shift_ranked(b.by_members, a.count))
            &&& keeps_greatest_of(r.by_weight, a.by_weight, shift_ranked(b.by_weight, a.count))
        }),
{
    lemma_combine_wf(a, b, draws);
    assert forall|l: Seq<(int, int, Seq<usize>)>, m: Seq<(int, int, Seq<usize>)>|
        increasing(l) && increasing(m) && numbers_within(l, 0, a.count) && numbers_within(m, 0, b.count) implies
        #[trigger] keeps_greatest_of(truncated(insert_all(l, shift_ranked(m, a.count))), l, shift_ranked(m, a.count)) by {
        let sm = shift_ranked(m, a.count);
        let n = a.count + b.count;
        lemma_shift_ok(l, m, a.count, b.count);
        lemma_insert_all(l, sm, 0, n);
        lemma_insert_all_holds(l, sm, 0, n);
        let full = insert_all(l, sm);
        lemma_truncated_keeps_largest(full);
        lemma_insert_all_from(l, sm);
        lemma_truncated_from(full);
        assert forall|x: (int, int, Seq<usize>)| holds(l, x) || holds(sm, x) implies holds(full, x) by {
            if holds(l, x) {
                let i = choose|i: int| 0 <= i < l.len() && l[i] == x;
                assert(holds(full, l[i]));
            } else {
                let i = choose|i: int| 0 <= i < sm.len() && sm[i] == x;
                assert(holds(full, sm[i]));
            }
        }
    }
    assert(numbers_within(a.by_radius, 0, a.count));
    assert(numbers_within(b.by_radius, 0, b.count));
    assert(numbers_within(a.by_members, 0, a.count));
    assert(numbers_within(b.by_members, 0, b.count));
    assert(numbers_within(a.by_weight, 0, a.count));
    assert(numbers_within(b.by_weight, 0, b.count));
}

/// `combine` gives a well-formed collector.
proof fn lemma_combine_wf(a: CollectorModel, b: CollectorModel, draws: Seq<int>)
    requires
        a.wf(),
        b.wf(),
        draws_fit(a.random.len() + b.random.len() as int, draws),
    ensures
        spec_combine(a, b, draws).wf(),
{
    let n = a.count + b.count;
    let r = spec_combine(a, b, draws);
    assert forall|l: Seq<(int, int, Seq<usize>)>, m: Seq<(int, int, Seq<usize>)>|
        increasing(l) && increasing(m) && l.len() == record_len(a.count) && m.len() == record_len(b.count)
        && numbers_within(l, 0, a.count) && numbers_within(m, 0, b.count) implies {
        let x = truncated(#[trigger] insert_all(l, #[trigger] shift_ranked(m, a.count)));
        &&& increasing(x)
        &&& numbers_within(x, 0, n)
        &&& x.len() == record_len(n)
    } by {
        let sm = shift_ranked(m, a.count);
        lemma_shift_ok(l, m, a.count, b.count);
        lemma_insert_all(l, sm, 0, n);
        lemma_truncated(insert_all(l, sm), 0, n);
    }
    assert(numbers_within(a.by_radius, 0, a.count));
    assert(numbers_within(b.by_radius, 0, b.count));
    assert(numbers_within(a.by_members, 0, a.count));
    assert(numbers_within(b.by_members, 0, b.count));
    assert(numbers_within(a.by_weight, 0, a.count));
    assert(numbers_within(b.by_weight, 0, b.count));
    let joined = a.random + shift_kept(b.random, a.count);
    assert forall|j: int| 0 <= j < joined.len() implies 0 <= (#[trigger] joined[j]).0 < n by {
        if j < a.random.len() {
            assert(joined[j] == a.random[j]);
        } else {
            assert(joined[j] == (b.random[j - a.random.len()].0 + a.count, b.random[j - a.random.len()].1));
        }
    }
    lemma_remove_drawn(joined, draws, n);
    assert forall|i: int| 0 <= i < r.first.len() implies 0 <= #[trigger] r.first[i].0 < r.count by {
        assert(r.first[i] == a.first[i]);
    }
}


/// Ranked cells without their keys.
pub open spec fn unranked(s: Seq<(int, int, Seq<usize>)>) -> Seq<(int, Seq<usize>)> {
    s.map_values(|c: (int, int, Seq<usize>)| (c.1, c.2))
}

/// The kept cells of every record, in this order: the first cells, the
/// random sample, then the records by radius, by number of members and by
/// weight, each from its least cell up.
pub open spec fn all_kept(m: CollectorModel) -> Seq<(int, Seq<usize>)> {
    m.first + m.random + unranked(m.by_radius) + unranked(m.by_members) + unranked(m.by_weight)
}

/// The map from cell numbers to event ids that `m` becomes when the kept
/// cells are entered one after the other (a cell entered again keeps its
/// last ids).
pub open spec fn insert_cells(m: Map<int, Seq<usize>>, cells: Seq<(int, Seq<usize>)>) -> Map<int, Seq<usize>>
    decreases cells.len(),
{
    if cells.len() == 0 {
        m
    } else {
        insert_cells(m, cells.drop_last()).insert(cells.last().0, cells.last().1)
    }
}

/// The event ids of each kept cell, by cell number.
pub open spec fn cell_map(cells: Seq<(int, Seq<usize>)>) -> Map<int, Seq<usize>> {
    insert_cells(Map::empty(), cells)
}

/// The exec map holds, for each cell number, what the model map holds.
pub open spec fn agrees(m: Map<usize, Vec<usize>>, c: Map<int, Seq<usize>>) -> bool {
    forall|n: usize|
        #![trigger m.contains_key(n)]
        #![trigger c.contains_key(n as int)]
        (m.contains_key(n) <==> c.contains_key(n as int)) && (m.contains_key(n) ==> m[n]@ == c[n as int])
}

proof fn lemma_insert_cells_append(m: Map<int, Seq<usize>>, a: Seq<(int, Seq<usize>)>, b: Seq<(int, Seq<usize>)>)
    ensures
        insert_cells(m, a + b) == insert_cells(insert_cells(m, a), b),
    decreases b.len(),
{
    if b.len() == 0 {
        assert(a + b =~= a);
    } else {
        assert((a + b).drop_last() =~= a + b.drop_last());
        lemma_insert_cells_append(m, a, b.drop_last());
        assert((a + b).last() == b.last());
    }
}

/// Kept cells as the model sees them.
pub open spec fn kept_view(s: Seq<(usize, Vec<usize>)>) -> Seq<(int, Seq<usize>)> {
    s.map_values(|c: (usize, Vec<usize>)| (c.0 as int, c.1@))
}

/// Ranked cells as the model sees them.
pub open spec fn ranked_view(s: Seq<(u64, usize, Vec<usize>)>) -> Seq<(int, int, Seq<usize>)> {
    s.map_values(|c: (u64, usize, Vec<usize>)| (c.0 as int, c.1 as int, c.2@))
}

/// Cells of interest: the first `NCELLS` cells, a uniform random sample of
/// `NCELLS` cells, and the `NCELLS` cells with the largest radius, number
/// of members and accumulated weight.
#[derive(Clone, Debug)]
pub struct CellCollector {
    first: Vec<(usize, Vec<usize>)>,
    random: Vec<(usize, Vec<usize>)>,
    largest_by_radius: Vec<(u64, usize, Vec<usize>)>,
    largest_by_members: Vec<(u64, usize, Vec<usize>)>,
    largest_by_weight: Vec<(u64, usize, Vec<usize>)>,
    count: usize,
}

impl View for CellCollector {
    type V = CollectorModel;

    closed spec fn view(&self) -> CollectorModel {
        CollectorModel {
            count: self.count as int,
            first: kept_view(self.first@),
            random: kept_view(self.random@),
            by_radius: ranked_view(self.largest_by_radius@),
            by_members: ranked_view(self.largest_by_members@),
            by_weight: ranked_view(self.largest_by_weight@),
        }
    }
}

/// The ids of the events of a cell, copied.
fn copy_ids(v: &Vec<usize>) -> (r: Vec<usize>)
    ensures
        r@ == v@,
{
    let mut r: Vec<usize> = Vec::new();
    let mut k: usize = 0;
    while k < v.len()
        invariant
            k <= v.len(),
            r@ == v@.subrange(0, k as int),
        decreases v.len() - k,
    {
        r.push(v[k]);
        k = k + 1;
    }
    assert(v@.subrange(0, v.len() as int) == v@);
    r
}

proof fn lemma_rank_pos_bounds(s: Seq<(int, int, Seq<usize>)>, e: (int, int, Seq<usize>))
    ensures
        0 <= rank_pos(s, e) <= s.len(),
    decreases s.len(),
{
    if s.len() > 0 {
        lemma_rank_pos_bounds(s.drop_last(), e);
    }
}

/// In an increasing sequence, the place of `e` is the first index whose
/// cell does not rank below `e`.
proof fn lemma_rank_pos_at(s: Seq<(int, int, Seq<usize>)>, e: (int, int, Seq<usize>), i: int)
    requires
        increasing(s),
        0 <= i <= s.len(),
        forall|j: int| 0 <= j < i ==> ranked_lt(#[trigger] s[j], e),
        i < s.len() ==> !ranked_lt(s[i], e),
    ensures
        rank_pos(s, e) == i,
    decreases s.len(),
{
    if s.len() > 0 {
        let t = s.drop_last();
        if i == s.len() {
            lemma_rank_pos_at(t, e, i - 1);
            assert(ranked_lt(s[i - 1], e));
        } else {
            assert(increasing(t));
            if i < t.len() {
                assert(t[i] == s[i]);
            }
            lemma_rank_pos_at(t, e, i);
            if i < s.len() - 1 {
                assert(ranked_lt(s[i], s[s.len() - 1]));
            }
            assert(!ranked_lt(s.last(), e));
        }
    }
}

/// Putting a cell in its place keeps the order, if no cell of the same
/// key and number is there.
proof fn lemma_insert_ranked(s: Seq<(int, int, Seq<usize>)>, e: (int, int, Seq<usize>), i: int)
    requires
        increasing(s),
        0 <= i <= s.len(),
        forall|j: int| 0 <= j < i ==> ranked_lt(#[trigger] s[j], e),
        forall|j: int| i <= j < s.len() ==> ranked_lt(e, #[trigger] s[j]),
    ensures
        rank_pos(s, e) == i,
        insert_ranked(s, e) == s.insert(i, e),
        increasing(s.insert(i, e)),
{
    if i < s.len() {
        assert(!ranked_lt(s[i], e));
    }
    lemma_rank_pos_at(s, e, i);
    let r = s.insert(i, e);
    assert forall|a: int, b: int| 0 <= a < b < r.len() implies ranked_lt(#[trigger] r[a], #[trigger] r[b]) by {
        if b < i {
            assert(r[a] == s[a] && r[b] == s[b]);
        } else if b == i {
            assert(r[a] == s[a]);
        } else if a < i {
            assert(r[a] == s[a] && r[b] == s[b - 1]);
        } else if a == i {
            assert(r[b] == s[b - 1]);
        } else {
            assert(r[a] == s[a - 1] && r[b] == s[b - 1]);
        }
    }
}


/// The cells before the place of `e` rank below it, the others do not.
proof fn lemma_rank_pos_split(s: Seq<(int, int, Seq<usize>)>, e: (int, int, Seq<usize>))
    requires
        increasing(s),
    ensures
        0 <= rank_pos(s, e) <= s.len(),
        forall|j: int| 0 <= j < rank_pos(s, e) ==> ranked_lt(#[trigger] s[j], e),
        forall|j: int| rank_pos(s, e) <= j < s.len() ==> !ranked_lt(#[trigger] s[j], e),
    decreases s.len(),
{
    if s.len() > 0 {
        let t = s.drop_last();
        assert(increasing(t)) by {
            assert forall|a: int, b: int| 0 <= a < b < t.len() implies ranked_lt(#[trigger] t[a], #[trigger] t[b]) by {
                assert(t[a] == s[a] && t[b] == s[b]);
            }
        }
        lemma_rank_pos_split(t, e);
        let p = rank_pos(t, e);
        if ranked_lt(s.last(), e) {
            assert forall|j: int| 0 <= j < s.len() implies ranked_lt(#[trigger] s[j], e) by {
                if j < s.len() - 1 {
                    assert(ranked_lt(s[j], s[s.len() - 1]));
                    assert(t[j] == s[j]);
                }
            }
        } else {
            assert forall|j: int| p <= j < s.len() implies !ranked_lt(#[trigger] s[j], e) by {
                if j < s.len() - 1 {
                    assert(t[j] == s[j]);
                }
            }
            assert forall|j: int| 0 <= j < p implies ranked_lt(#[trigger] s[j], e) by {
                assert(t[j] == s[j]);
            }
        }
    }
}

/// A cell whose key and number no cell of an increasing sequence has goes
/// in its place so that the sequence stays increasing, one longer, and with
/// the cells it had and the new one.
proof fn lemma_insert_fresh(s: Seq<(int, int, Seq<usize>)>, e: (int, int, Seq<usize>))
    requires
        increasing(s),
        forall|j: int| 0 <= j < s.len() ==> (#[trigger] s[j]).0 != e.0 || s[j].1 != e.1,
    ensures
        increasing(insert_ranked(s, e)),
        insert_ranked(s, e).len() == s.len() + 1,
        0 <= rank_pos(s, e) <= s.len(),
        forall|j: int| 0 <= j < s.len() + 1 ==> #[trigger] insert_ranked(s, e)[j] == if j < rank_pos(s, e) {
            s[j]
        } else if j == rank_pos(s, e) {
            e
        } else {
            s[j - 1]
        },
{
    lemma_rank_pos_split(s, e);
    let p = rank_pos(s, e);
    assert forall|j: int| p <= j < s.len() implies ranked_lt(e, #[trigger] s[j]) by {
        assert(!ranked_lt(s[j], e));
    }
    lemma_insert_ranked(s, e, p);
}


/// A ranked record after `rank_step` stays increasing, has the length that
/// `record_len` gives and holds the numbers it had or that of `e`.
proof fn lemma_rank_step(s: Seq<(int, int, Seq<usize>)>, count: int, e: (int, int, Seq<usize>))
    requires
        0 <= count,
        e.1 == count,
        increasing(s),
        s.len() == record_len(count),
        forall|j: int| 0 <= j < s.len() ==> 0 <= #[trigger] s[j].1 < count,
    ensures
        increasing(rank_step(s, count, e)),
        rank_step(s, count, e).len() == record_len(count + 1),
        forall|j: int| 0 <= j < rank_step(s, count, e).len() ==> 0 <= #[trigger] rank_step(s, count, e)[j].1 < count + 1,
{
    if count < NCELLS {
        lemma_insert_fresh(s, e);
    } else if e.0 > s[0].0 {
        let t = s.drop_first();
        assert(increasing(t)) by {
            assert forall|a: int, b: int| 0 <= a < b < t.len() implies ranked_lt(#[trigger] t[a], #[trigger] t[b]) by {
                assert(t[a] == s[a + 1] && t[b] == s[b + 1]);
            }
        }
        assert forall|j: int| 0 <= j < t.len() implies (#[trigger] t[j]).1 < e.1 by {
            assert(t[j] == s[j + 1]);
        }
        lemma_insert_fresh(t, e);
        let r = insert_ranked(t, e);
        assert forall|j: int| 0 <= j < r.len() implies 0 <= #[trigger] r[j].1 < count + 1 by {
            if j < rank_pos(t, e) {
                assert(r[j] == t[j] && t[j] == s[j + 1]);
            } else if j > rank_pos(t, e) {
                assert(r[j] == t[j - 1] && t[j - 1] == s[j]);
            }
        }
    }
}

/// `collect` keeps a collector well formed.
proof fn lemma_collect_wf(m: CollectorModel, c: CellModel, draw: int)
    requires
        m.wf(),
        0 <= draw <= m.count,
    ensures
        spec_collect(m, c, draw).wf(),
{
    let n = m.count;
    lemma_rank_step(m.by_radius, n, (c.radius, n, c.events));
    lemma_rank_step(m.by_members, n, (c.events.len() as int, n, c.events));
    lemma_rank_step(m.by_weight, n, (c.weight_sum, n, c.events));
    let r = spec_collect(m, c, draw);
    assert forall|i: int| 0 <= i < r.first.len() implies 0 <= #[trigger] r.first[i].0 < r.count by {
        if i < m.first.len() {
            assert(r.first[i] == m.first[i]);
        }
    }
    assert forall|i: int| 0 <= i < r.random.len() implies 0 <= #[trigger] r.random[i].0 < r.count by {
        if n < NCELLS {
            if i < m.random.len() {
                assert(r.random[i] == m.random[i]);
            }
        } else if i != draw {
            assert(r.random[i] == m.random[i]);
        }
    }
}

/// Put a ranked cell in its place; no cell there has its key and number.
fn insert_ranked_exec(list: &mut Vec<(u64, usize, Vec<usize>)>, key: u64, number: usize, events: Vec<usize>)
    requires
        increasing(ranked_view(old(list)@)),
        forall|j: int| 0 <= j < old(list)@.len() ==> (#[trigger] old(list)@[j]).0 != key || old(list)@[j].1 != number,
    ensures
        ranked_view(final(list)@) == insert_ranked(ranked_view(old(list)@), (key as int, number as int, events@)),
        increasing(ranked_view(final(list)@)),
        final(list)@.len() == old(list)@.len() + 1,
{
    let ghost s = ranked_view(list@);
    let ghost e = (key as int, number as int, events@);
    let mut i: usize = 0;
    while i < list.len() && (list[i].0 < key || (list[i].0 == key && list[i].1 < number))
        invariant
            i <= list@.len(),
            s == ranked_view(list@),
            e == (key as int, number as int, events@),
            increasing(s),
            forall|j: int| 0 <= j < i ==> ranked_lt(#[trigger] s[j], e),
        decreases list.len() - i,
    {
        assert(s[i as int] == (list@[i as int].0 as int, list@[i as int].1 as int, list@[i as int].2@));
        i = i + 1;
    }
    proof {
        assert forall|j: int| i <= j < s.len() implies ranked_lt(e, #[trigger] s[j]) by {
            assert(s[j] == (list@[j].0 as int, list@[j].1 as int, list@[j].2@));
            assert(s[i as int] == (list@[i as int].0 as int, list@[i as int].1 as int, list@[i as int].2@));
            if j > i {
                assert(ranked_lt(s[i as int], s[j]));
            }
        }
        lemma_insert_ranked(s, e, i as int);
    }
    list.insert(i, (key, number, events));
    proof {
        assert(ranked_view(list@) =~= s.insert(i as int, e));
    }
}

/// Let the least ranked cell give way to a new one whose key is larger.
fn replace_smallest_exec(list: &mut Vec<(u64, usize, Vec<usize>)>, key: u64, number: usize, events: &Vec<usize>)
    requires
        increasing(ranked_view(old(list)@)),
        forall|j: int| 0 <= j < old(list)@.len() ==> (#[trigger] old(list)@[j]).1 < number,
    ensures
        ranked_view(final(list)@) == replace_smallest(ranked_view(old(list)@), (key as int, number as int, events@)),
{
    let ghost s = ranked_view(list@);
    if list.len() > 0 && key > list[0].0 {
        list.remove(0);
        proof {
            assert(ranked_view(list@) =~= s.drop_first());
            assert(increasing(s.drop_first())) by {
                let t = s.drop_first();
                assert forall|a: int, b: int| 0 <= a < b < t.len() implies ranked_lt(#[trigger] t[a], #[trigger] t[b]) by {
                    assert(t[a] == s[a + 1] && t[b] == s[b + 1]);
                }
            }
        }
        insert_ranked_exec(list, key, number, copy_ids(events));
    }
}

/// The random number generator of `rand` that draws for the collector.
#[verifier::external_type_specification]
#[verifier::external_body]
pub struct ExStdRng(rand::rngs::StdRng);

/// Calls `Uniform::from(0..=n).sample(rng)` of `rand`: a number drawn
/// from 0 to `n`, both included. Which number comes is not stated.
#[verifier::external_body]
fn draw_up_to(rng: &mut StdRng, n: usize) -> (r: usize)
    ensures
        r <= n,
{
    Uniform::from(0..=n).sample(rng)
}

/// Calls `Uniform::from(0..n).sample(rng)` of `rand`: a number drawn from
/// 0 up to `n`, `n` left out. Which number comes is not stated.
#[verifier::external_body]
fn draw_below(rng: &mut StdRng, n: usize) -> (r: usize)
    requires
        n > 0,
    ensures
        r < n,
{
    Uniform::from(0..n).sample(rng)
}


/// Put the ranked cells of `other`, their numbers raised by `shift`, in
/// their places, then keep the `NCELLS` greatest.
fn merge_ranked(list: &mut Vec<(u64, usize, Vec<usize>)>, other: Vec<(u64, usize, Vec<usize>)>, shift: usize)
    requires
        increasing(ranked_view(old(list)@)),
        increasing(ranked_view(other@)),
        forall|j: int| 0 <= j < old(list)@.len() ==> (#[trigger] old(list)@[j]).1 < shift,
        forall|j: int| 0 <= j < other@.len() ==> (#[trigger] other@[j]).1 + shift <= usize::MAX,
    ensures
        ranked_view(final(list)@) == truncated(
            insert_all(ranked_view(old(list)@), shift_ranked(ranked_view(other@), shift as int)),
        ),
{
    let ghost target = insert_all(ranked_view(list@), shift_ranked(ranked_view(other@), shift as int));
    let mut other = other;
    proof {
        let t = shift_ranked(ranked_view(other@), shift as int);
        let l = ranked_view(list@);
        assert forall|i: int, j: int| 0 <= i < l.len() && 0 <= j < t.len() implies (#[trigger] l[i]).0 != (
        #[trigger] t[j]).0 || l[i].1 != t[j].1 by {
            assert(l[i].1 == list@[i].1);
            assert(t[j].1 == other@[j].1 + shift);
        }
    }
    while other.len() > 0
        invariant
            increasing(ranked_view(list@)),
            increasing(ranked_view(other@)),
            apart(ranked_view(list@), shift_ranked(ranked_view(other@), shift as int)),
            insert_all(ranked_view(list@), shift_ranked(ranked_view(other@), shift as int)) == target,
            forall|j: int| 0 <= j < other@.len() ==> (#[trigger] other@[j]).1 + shift <= usize::MAX,
        decreases other.len(),
    {
        let ghost l0 = ranked_view(list@);
        let ghost o0 = ranked_view(other@);
        let ghost t0 = shift_ranked(o0, shift as int);
        let ghost raw0 = other@;
        let (key, number, events) = other.remove(0);
        let ghost e = t0[0];
        proof {
            assert(o0[0] == (key as int, number as int, events@));
            assert(e == (key as int, (number + shift) as int, events@));
            assert(ranked_view(other@) =~= o0.drop_first());
            assert(shift_ranked(ranked_view(other@), shift as int) =~= t0.drop_first());
            assert forall|j: int| 0 <= j < list@.len() implies (#[trigger] list@[j]).0 != key || list@[j].1 != (number
                + shift) as usize by {
                assert(l0[j].0 == list@[j].0 && l0[j].1 == list@[j].1);
            }
            lemma_increasing_drop_first(o0);
            assert forall|j: int| 0 <= j < other@.len() implies (#[trigger] other@[j]).1 + shift <= usize::MAX by {
                assert(other@[j] == raw0[j + 1]);
            }
        }
        insert_ranked_exec(list, key, number + shift, events);
        proof {
            let l1 = ranked_view(list@);
            let t1 = shift_ranked(ranked_view(other@), shift as int);
            lemma_insert_fresh(l0, e);
            let p = rank_pos(l0, e);
            assert forall|i: int, j: int| 0 <= i < l1.len() && 0 <= j < t1.len() implies (#[trigger] l1[i]).0 != (
            #[trigger] t1[j]).0 || l1[i].1 != t1[j].1 by {
                assert(t1[j] == t0[j + 1]);
                if i < p {
                    assert(l1[i] == l0[i]);
                } else if i == p {
                    assert(ranked_lt(o0[0], o0[j + 1]));
                } else {
                    assert(l1[i] == l0[i - 1]);
                }
            }
        }
    }
    proof {
        assert(shift_ranked(ranked_view(other@), shift as int) =~= Seq::empty());
        assert(ranked_view(list@) == target);
    }
    while list.len() > NCELLS
        invariant
            NCELLS <= list@.len() <= target.len() || list@.len() == target.len(),
            ranked_view(list@) == target.subrange(target.len() - list@.len(), target.len() as int),
        decreases list.len(),
    {
        let ghost l0 = list@;
        list.remove(0);
        proof {
            let t = target.subrange(target.len() - list@.len(), target.len() as int);
            assert forall|j: int| 0 <= j < list@.len() implies #[trigger] ranked_view(list@)[j] == t[j] by {
                assert(list@[j] == l0[j + 1]);
                assert(ranked_view(l0)[j + 1] == target[target.len() - l0.len() + j + 1]);
            }
            assert(ranked_view(list@) =~= t);
        }
    }
    proof {
        assert(ranked_view(list@) =~= truncated(target));
    }
}


/// Draws as the model sees them.
pub open spec fn draws_view(d: Seq<usize>) -> Seq<int> {
    d.map_values(|x: usize| x as int)
}

/// Join the random samples, those of `other` with their numbers raised by
/// `shift` after those of `random`; then each of the draws in turn picks a
/// cell to go, the last taking its place, until `NCELLS` are left.
fn merge_random(random: &mut Vec<(usize, Vec<usize>)>, other: Vec<(usize, Vec<usize>)>, shift: usize, draws: &Vec<usize>)
    requires
        forall|j: int| 0 <= j < other@.len() ==> (#[trigger] other@[j]).0 + shift <= usize::MAX,
        draws_fit(old(random)@.len() + other@.len() as int, draws_view(draws@)),
    ensures
        kept_view(final(random)@) == remove_drawn(
            kept_view(old(random)@) + shift_kept(kept_view(other@), shift as int),
            draws_view(draws@),
        ),
{
    let ghost joined = kept_view(random@) + shift_kept(kept_view(other@), shift as int);
    let ghost total = joined.len();
    let ghost dv = draws_view(draws@);
    let mut other = other;
    proof {
        assert(joined.len() == random@.len() + other@.len());
    }
    while other.len() > 0
        invariant
            kept_view(random@) + shift_kept(kept_view(other@), shift as int) == joined,
            forall|j: int| 0 <= j < other@.len() ==> (#[trigger] other@[j]).0 + shift <= usize::MAX,
        decreases other.len(),
    {
        let ghost r0 = random@;
        let ghost raw0 = other@;
        let (number, events) = other.remove(0);
        proof {
            assert forall|j: int| 0 <= j < other@.len() implies (#[trigger] other@[j]).0 + shift <= usize::MAX by {
                assert(other@[j] == raw0[j + 1]);
            }
        }
        random.push((number + shift, events));
        proof {
            let a = kept_view(random@) + shift_kept(kept_view(other@), shift as int);
            let b = kept_view(r0) + shift_kept(kept_view(raw0), shift as int);
            assert(a =~= b) by {
                assert forall|j: int| 0 <= j < a.len() implies a[j] == b[j] by {
                    if j < r0.len() {
                        assert(a[j] == kept_view(r0)[j]);
                    } else if j == r0.len() {
                        assert(raw0[0] == (number, events));
                    } else {
                        assert(other@[j - r0.len() - 1] == raw0[j - r0.len()]);
                    }
                }
            }
        }
    }
    proof {
        assert(shift_kept(kept_view(other@), shift as int) =~= Seq::empty());
        assert(kept_view(random@) =~= joined);
        assert(dv.subrange(0, dv.len() as int) =~= dv);
    }
    let nd = draws.len();
    let mut k: usize = 0;
    while random.len() > NCELLS
        invariant
            k <= dv.len(),
            dv == draws_view(draws@),
            dv.len() == draws@.len(),
            nd == draws@.len(),
            draws_fit(total as int, dv),
            random@.len() == total - k,
            remove_drawn(kept_view(random@), dv.subrange(k as int, dv.len() as int)) == remove_drawn(joined, dv),
        decreases random.len(),
    {
        assert(k < dv.len());
        let d = draws[k];
        assert(d as int == dv[k as int]);
        let ghost r0 = random@;
        random.swap_remove(d);
        proof {
            assert(kept_view(random@) =~= swap_removed(kept_view(r0), d as int));
            let rest = dv.subrange(k as int, dv.len() as int);
            assert(rest[0] == d as int);
            assert(rest.drop_first() =~= dv.subrange(k + 1, dv.len() as int));
        }
        k = k + 1;
    }
    proof {
        assert(k == dv.len());
        assert(dv.subrange(k as int, dv.len() as int) =~= Seq::empty());
    }
}


/// Enter the kept cells into the map: each cell number gets the ids of its
/// events.
fn add_kept(result: &mut HashMap<usize, Vec<usize>>, cells: &Vec<(usize, Vec<usize>)>, Ghost(c): Ghost<Map<int, Seq<usize>>>)
    requires
        agrees(old(result)@, c),
    ensures
        agrees(final(result)@, insert_cells(c, kept_view(cells@))),
{
    broadcast use vstd::std_specs::hash::group_hash_axioms;
    let ghost kv = kept_view(cells@);
    let mut i: usize = 0;
    proof {
        assert(kv.subrange(0, 0) =~= Seq::<(int, Seq<usize>)>::empty());
    }
    while i < cells.len()
        invariant
            i <= cells@.len(),
            kv == kept_view(cells@),
            agrees(result@, insert_cells(c, kv.subrange(0, i as int))),
        decreases cells.len() - i,
    {
        let ghost m1 = result@;
        let ids = copy_ids(&cells[i].1);
        result.insert(cells[i].0, ids);
        proof {
            let t = kv.subrange(0, i + 1);
            assert(t.drop_last() =~= kv.subrange(0, i as int));
            assert(t.last() == (cells@[i as int].0 as int, cells@[i as int].1@));
        }
        i = i + 1;
    }
    proof {
        assert(kv.subrange(0, cells@.len() as int) =~= kv);
    }
}

/// Enter the ranked cells into the map: each cell number gets the ids of
/// its events.
fn add_ranked(result: &mut HashMap<usize, Vec<usize>>, cells: &Vec<(u64, usize, Vec<usize>)>, Ghost(c): Ghost<Map<int, Seq<usize>>>)
    requires
        agrees(old(result)@, c),
    ensures
        agrees(final(result)@, insert_cells(c, unranked(ranked_view(cells@)))),
{
    broadcast use vstd::std_specs::hash::group_hash_axioms;
    let ghost kv = unranked(ranked_view(cells@));
    let mut i: usize = 0;
    proof {
        assert(kv.subrange(0, 0) =~= Seq::<(int, Seq<usize>)>::empty());
    }
    while i < cells.len()
        invariant
            i <= cells@.len(),
            kv == unranked(ranked_view(cells@)),
            agrees(result@, insert_cells(c, kv.subrange(0, i as int))),
        decreases cells.len() - i,
    {
        let ids = copy_ids(&cells[i].2);
        result.insert(cells[i].1, ids);
        proof {
            let t = kv.subrange(0, i + 1);
            assert(t.drop_last() =~= kv.subrange(0, i as int));
            assert(t.last() == (cells@[i as int].1 as int, cells@[i as int].2@));
        }
        i = i + 1;
    }
    proof {
        assert(kv.subrange(0, cells@.len() as int) =~= kv);
    }
}

impl CellCollector {
    /// A collector that has seen no cell.
    pub fn new() -> (r: Self)
        ensures
            r@ == empty_model(),
            r@.wf(),
    {
        let r = CellCollector {
            first: Vec::new(),
            random: Vec::new(),
            largest_by_radius: Vec::new(),
            largest_by_members: Vec::new(),
            largest_by_weight: Vec::new(),
            count: 0,
        };
        proof {
            assert(r@.first =~= Seq::empty());
            assert(r@.random =~= Seq::empty());
            assert(r@.by_radius =~= Seq::empty());
            assert(r@.by_members =~= Seq::empty());
            assert(r@.by_weight =~= Seq::empty());
        }
        r
    }

    /// Combine two collectors into one, with `draws` picking the cells that
    /// leave the joined random sample: the cells of `other` count after
    /// those of `self`.
    pub fn combine_drawn(self, other: Self, draws: &Vec<usize>) -> (r: Self)
        requires
            self@.wf(),
            other@.wf(),
            self@.count + other@.count <= usize::MAX,
            draws_fit(self@.random.len() + other@.random.len() as int, draws_view(draws@)),
        ensures
            r@ == spec_combine(self@, other@, draws_view(draws@)),
            r@.wf(),
    {
        let ghost a = self@;
        let ghost b = other@;
        let mut this = self;
        let shift = this.count;
        proof {
            assert forall|j: int| 0 <= j < this.largest_by_radius@.len() implies (#[trigger] this.largest_by_radius@[j]).1 < shift by {
                assert(a.by_radius[j].1 == this.largest_by_radius@[j].1);
            }
            assert forall|j: int| 0 <= j < this.largest_by_members@.len() implies (#[trigger] this.largest_by_members@[j]).1 < shift by {
                assert(a.by_members[j].1 == this.largest_by_members@[j].1);
            }
            assert forall|j: int| 0 <= j < this.largest_by_weight@.len() implies (#[trigger] this.largest_by_weight@[j]).1 < shift by {
                assert(a.by_weight[j].1 == this.largest_by_weight@[j].1);
            }
            assert forall|j: int| 0 <= j < other.largest_by_radius@.len() implies (#[trigger] other.largest_by_radius@[j]).1 + shift <= usize::MAX by {
                assert(b.by_radius[j].1 == other.largest_by_radius@[j].1);
            }
            assert forall|j: int| 0 <= j < other.largest_by_members@.len() implies (#[trigger] other.largest_by_members@[j]).1 + shift <= usize::MAX by {
                assert(b.by_members[j].1 == other.largest_by_members@[j].1);
            }
            assert forall|j: int| 0 <= j < other.largest_by_weight@.len() implies (#[trigger] other.largest_by_weight@[j]).1 + shift <= usize::MAX by {
                assert(b.by_weight[j].1 == other.largest_by_weight@[j].1);
            }
            assert forall|j: int| 0 <= j < other.random@.len() implies (#[trigger] other.random@[j]).0 + shift <= usize::MAX by {
                assert(b.random[j].0 == other.random@[j].0);
            }
        }
        let CellCollector {
            first: _,
            random: other_random,
            largest_by_radius: other_radius,
            largest_by_members: other_members,
            largest_by_weight: other_weight,
            count: other_count,
        } = other;
        merge_ranked(&mut this.largest_by_members, other_members, shift);
        merge_ranked(&mut this.largest_by_radius, other_radius, shift);
        merge_ranked(&mut this.largest_by_weight, other_weight, shift);
        merge_random(&mut this.random, other_random, shift, draws);
        this.count = shift + other_count;
        proof {
            lemma_combine_wf(a, b, draws_view(draws@));
            assert(this@ == spec_combine(a, b, draws_view(draws@)));
        }
        this
    }

    /// Combine two collectors into one: the cells of `other` count after
    /// those of `self`; the first cells are those of `self`; each ranked
    /// record takes the cells of both and keeps the `NCELLS` with the
    /// greatest keys; the random samples are joined, and cells drawn at
    /// random leave until `NCELLS` are left.
    pub fn combine(self, other: Self, rng: &mut StdRng) -> (r: Self)
        requires
            self@.wf(),
            other@.wf(),
            self@.count + other@.count <= usize::MAX,
        ensures
            exists|draws: Seq<int>|
                draws_fit(self@.random.len() + other@.random.len() as int, draws) && r@ == spec_combine(
                    self@,
                    other@,
                    draws,
                ),
            r@.wf(),
    {
        let total = self.random.len() + other.random.len();
        let mut draws: Vec<usize> = Vec::new();
        let mut len = total;
        while len > NCELLS
            invariant
                NCELLS <= len <= total || len == total,
                total == self@.random.len() + other@.random.len(),
                len > NCELLS ==> draws@.len() == total - len,
                len <= NCELLS ==> draws@.len() == (if total > NCELLS { total - NCELLS } else { 0 }),
                forall|k: int| 0 <= k < draws@.len() ==> 0 <= #[trigger] draws@[k] < total - k,
            decreases len,
        {
            let d = draw_below(rng, len);
            draws.push(d);
            len = len - 1;
        }
        proof {
            assert forall|k: int| 0 <= k < draws_view(draws@).len() implies 0 <= #[trigger] draws_view(draws@)[k] < total - k by {
                assert(draws_view(draws@)[k] == draws@[k] as int);
            }
        }
        self.combine_drawn(other, &draws)
    }

    /// The saved cells: for each kept cell, its number mapped to the ids of
    /// its events (a cell kept in several records appears once).
    pub fn event_cells(&self) -> (r: HashMap<usize, Vec<usize>>)
        ensures
            forall|n: usize| #[trigger] r@.contains_key(n) <==> cell_map(all_kept(self@)).contains_key(n as int),
            forall|n: usize| #[trigger] r@.contains_key(n) ==> r@[n]@ == cell_map(all_kept(self@))[n as int],
    {
        broadcast use vstd::std_specs::hash::group_hash_axioms;
        let ghost m = self@;
        let mut result: HashMap<usize, Vec<usize>> = HashMap::new();
        let ghost e = Map::<int, Seq<usize>>::empty();
        let ghost c1 = insert_cells(e, m.first);
        let ghost c2 = insert_cells(c1, m.random);
        let ghost c3 = insert_cells(c2, unranked(m.by_radius));
        let ghost c4 = insert_cells(c3, unranked(m.by_members));
        add_kept(&mut result, &self.first, Ghost(e));
        add_kept(&mut result, &self.random, Ghost(c1));
        add_ranked(&mut result, &self.largest_by_radius, Ghost(c2));
        add_ranked(&mut result, &self.largest_by_members, Ghost(c3));
        add_ranked(&mut result, &self.largest_by_weight, Ghost(c4));
        proof {
            lemma_insert_cells_append(e, m.first, m.random);
            lemma_insert_cells_append(e, m.first + m.random, unranked(m.by_radius));
            lemma_insert_cells_append(e, m.first + m.random + unranked(m.by_radius), unranked(m.by_members));
            lemma_insert_cells_append(
                e,
                m.first + m.random + unranked(m.by_radius) + unranked(m.by_members),
                unranked(m.by_weight),
            );
            assert(agrees(result@, cell_map(all_kept(m))));
        }
        result
    }

    /// Collect a cell, with `draw` the number drawn from 0 to the count of
    /// cells so far, which picks the place in the random sample.
    pub fn collect_drawn(&mut self, cell: &CellInfo, draw: usize)
        requires
            old(self)@.wf(),
            old(self)@.count < usize::MAX,
            draw <= old(self)@.count,
        ensures
            final(self)@ == spec_collect(old(self)@, cell.model(), draw as int),
            final(self)@.wf(),
    {
        let ghost m = self@;
        let ghost c = cell.model();
        let count = self.count;
        let nmembers = cell.event_ids.len() as u64;
        proof {
            assert forall|j: int| 0 <= j < self.largest_by_radius@.len() implies (#[trigger] self.largest_by_radius@[j]).1 < count by {
                assert(m.by_radius[j].1 == self.largest_by_radius@[j].1);
            }
            assert forall|j: int| 0 <= j < self.largest_by_members@.len() implies (#[trigger] self.largest_by_members@[j]).1 < count by {
                assert(m.by_members[j].1 == self.largest_by_members@[j].1);
            }
            assert forall|j: int| 0 <= j < self.largest_by_weight@.len() implies (#[trigger] self.largest_by_weight@[j]).1 < count by {
                assert(m.by_weight[j].1 == self.largest_by_weight@[j].1);
            }
        }
        if count < NCELLS {
            let ghost f0 = self.first@;
            let ghost r0 = self.random@;
            self.first.push((count, copy_ids(&cell.event_ids)));
            self.random.push((count, copy_ids(&cell.event_ids)));
            proof {
                assert(kept_view(self.first@) =~= kept_view(f0).push((count as int, c.events)));
                assert(kept_view(self.random@) =~= kept_view(r0).push((count as int, c.events)));
            }
            insert_ranked_exec(&mut self.largest_by_radius, cell.radius, count, copy_ids(&cell.event_ids));
            insert_ranked_exec(&mut self.largest_by_members, nmembers, count, copy_ids(&cell.event_ids));
            insert_ranked_exec(&mut self.largest_by_weight, cell.weight_sum, count, copy_ids(&cell.event_ids));
        } else {
            replace_smallest_exec(&mut self.largest_by_radius, cell.radius, count, &cell.event_ids);
            replace_smallest_exec(&mut self.largest_by_members, nmembers, count, &cell.event_ids);
            replace_smallest_exec(&mut self.largest_by_weight, cell.weight_sum, count, &cell.event_ids);
            if draw < self.random.len() {
                let ghost r0 = self.random@;
                self.random.set(draw, (count, copy_ids(&cell.event_ids)));
                proof {
                    assert(kept_view(self.random@) =~= kept_view(r0).update(draw as int, (count as int, c.events)));
                }
            }
        }
        self.count = count + 1;
        proof {
            lemma_collect_wf(m, c, draw as int);
            assert(self@ == spec_collect(m, c, draw as int));
        }
    }

    /// Collect a cell. The cell is kept in each ranked record where it
    /// ranks among the largest so far, and, with the first `NCELLS`
    /// cells, in the random sample; a later cell takes a random place of
    /// the sample with a chance of `NCELLS` in the number of cells so far.
    pub fn collect(&mut self, cell: &CellInfo, rng: &mut StdRng)
        requires
            old(self)@.wf(),
            old(self)@.count < usize::MAX,
        ensures
            exists|draw: int| 0 <= draw <= old(self)@.count && final(self)@ == spec_collect(old(self)@, cell.model(), draw),
            final(self)@.wf(),
    {
        let draw = if self.count < NCELLS {
            0
        } else {
            draw_up_to(rng, self.count)
        };
        self.collect_drawn(cell, draw);
    }

    /// The number of cells collected.
    pub fn count(&self) -> (r: usize)
        ensures
            r == self@.count,
    {
        self.count
    }

    /// The first cells, in the order they came.
    pub fn first(&self) -> (r: &Vec<(usize, Vec<usize>)>)
        ensures
            kept_view(r@) == self@.first,
    {
        &self.first
    }

    /// The random sample of cells.
    pub fn random(&self) -> (r: &Vec<(usize, Vec<usize>)>)
        ensures
            kept_view(r@) == self@.random,
    {
        &self.random
    }

    /// The cells with the largest radius, from the least up, each with the
    /// order key of its radius.
    pub fn largest_by_radius(&self) -> (r: &Vec<(u64, usize, Vec<usize>)>)
        ensures
            ranked_view(r@) == self@.by_radius,
    {
        &self.largest_by_radius
    }

    /// The cells with the most members, from the least up, each with its
    /// number of members.
    pub fn largest_by_members(&self) -> (r: &Vec<(u64, usize, Vec<usize>)>)
        ensures
            ranked_view(r@) == self@.by_members,
    {
        &self.largest_by_members
    }

    /// The cells with the largest weight sum, from the least up, each with
    /// the order key of its weight sum.
    pub fn largest_by_weight(&self) -> (r: &Vec<(u64, usize, Vec<usize>)>)
        ensures
            ranked_view(r@) == self@.by_weight,
    {
        &self.largest_by_weight
    }
}

impl Default for CellCollector {
    fn default() -> (r: Self)
        ensures
            r@ == empty_model(),
    {
        CellCollector::new()
    }
}

} // verus!
