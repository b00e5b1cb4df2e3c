//! Names of particle classes and of the directories that events are split
//! into by their particle multiplicities.
use vstd::prelude::*;

use crate::cluster::{PID_DRESSED_LEPTON, PID_ISOLATED_PHOTON, PID_JET};
use crate::counting::{count_of, lemma_count_of_bound, lemma_sum_counts_all, sum_counts};
use crate::text::{concat_str, decimal, decimal_string, signed_decimal, signed_decimal_string};

verus! {

/// The name `particle_id::ParticleID::name` gives the particle with this id.
pub uninterp spec fn particle_name(id: i32) -> Option<Seq<char>>;

/// Calls `particle_id::ParticleID::name` on the particle with this id.
#[verifier::external_body]
fn particle_id_name(id: i32) -> (r: Option<&'static str>)
    ensures
        match r {
            Some(n) => particle_name(id) == Some(n@),
            None => particle_name(id) == None::<Seq<char>>,
        },
{
    particle_id::ParticleID::new(id).name()
}

/// `s` with every `from` replaced by `to`.
pub open spec fn replace_char_spec(s: Seq<char>, from: char, to: char) -> Seq<char> {
    s.map_values(|c: char| if c == from { to } else { c })
}

/// `s` with every space replaced by `_`.
pub open spec fn underscore_spaces(s: Seq<char>) -> Seq<char> {
    replace_char_spec(s, ' ', '_')
}

/// Calls `str::replace(from, to)`, which replaces every `from` by the text
/// of `to`.
#[verifier::external_body]
fn replace_char(s: &str, from: char, to: char) -> (r: String)
    ensures
        r@ == replace_char_spec(s@, from, to),
{
    s.replace(from, to.to_string().as_str())
}

/// The name of a class of particles: the plural of the particle's name, or
/// one of the classes the clustering makes.
pub open spec fn spec_name(id: i32) -> Seq<char> {
    match particle_name(id) {
        Some(n) => n + "s"@,
        None => if id == PID_JET {
            "jets"@
        } else if id == PID_DRESSED_LEPTON {
            "dressed leptons"@
        } else if id == PID_ISOLATED_PHOTON {
            "isolated photons"@
        } else {
            "particles with id "@ + signed_decimal(id as int)
        },
    }
}

/// The name of a class of particles, as it is shown to users.
pub fn name(id: i32) -> (r: String)
    ensures
        r@ == spec_name(id),
{
    match particle_id_name(id) {
        Some(n) => concat_str(n, "s"),
        None => {
            if id == PID_JET {
                "jets".to_owned()
            } else if id == PID_DRESSED_LEPTON {
                "dressed leptons".to_owned()
            } else if id == PID_ISOLATED_PHOTON {
                "isolated photons".to_owned()
            } else {
                concat_str("particles with id ", signed_decimal_string(id as i64).as_str())
            }
        },
    }
}

/// One multiplicity: the number, `_`, and the class name with `_` for spaces.
pub open spec fn multiplicity_entry(m: (i32, usize)) -> Seq<char> {
    decimal(m.1 as nat) + "_"@ + underscore_spaces(spec_name(m.0))
}

/// The multiplicities, joined by `_`.
pub open spec fn multiplicity_join(ms: Seq<(i32, usize)>) -> Seq<char>
    decreases ms.len(),
{
    if ms.len() == 0 {
        Seq::empty()
    } else if ms.len() == 1 {
        multiplicity_entry(ms[0])
    } else {
        multiplicity_join(ms.drop_last()) + "_"@ + multiplicity_entry(ms.last())
    }
}

/// The directory for events with the given multiplicities of particle
/// classes: `no_particles` if there are none.
pub open spec fn spec_multiplicity_dir(ms: Seq<(i32, usize)>) -> Seq<char> {
    if ms.len() == 0 {
        "no_particles"@
    } else {
        multiplicity_join(ms)
    }
}

/// The name of the directory that events with the given multiplicities of
/// particle classes (class id and number) are written to, such as
/// `2_jets_1_photons`.
pub fn multiplicity_dir(ms: &[(i32, usize)]) -> (r: String)
    ensures
        r@ == spec_multiplicity_dir(ms@),
{
    if ms.len() == 0 {
        return "no_particles".to_owned();
    }
    let mut out = String::new();
    let mut i: usize = 0;
    while i < ms.len()
        invariant
            0 < ms.len(),
            i <= ms.len(),
            out@ == multiplicity_join(ms@.subrange(0, i as int)),
        decreases ms.len() - i,
    {
        let (id, n) = ms[i];
        let count = decimal_string(n as u64);
        let label = name(id);
        let label = replace_char(label.as_str(), ' ', '_');
        let entry = concat_str(count.as_str(), "_");
        let entry = concat_str(entry.as_str(), label.as_str());
        proof {
            assert(ms@.subrange(0, i + 1).drop_last() == ms@.subrange(0, i as int));
            assert(entry@ == multiplicity_entry(ms@[i as int]));
        }
        if i == 0 {
            out = entry;
        } else {
            let joined = concat_str(out.as_str(), "_");
            out = concat_str(joined.as_str(), entry.as_str());
        }
        i = i + 1;
    }
    assert(ms@.subrange(0, ms.len() as int) == ms@);
    out
}


/// The multiplicities of the outgoing particles of an event whose particles
/// have the ids `pids`: each id that occurs, with the number of its
/// particles, in decreasing order of the ids (the order in which events
/// keep their particles).
pub fn multiplicities(pids: &Vec<i32>) -> (r: Vec<(i32, usize)>)
    ensures
        forall|i: int, j: int| 0 <= i < j < r@.len() ==> (#[trigger] r@[i]).0 > (#[trigger] r@[j]).0,
        forall|i: int| 0 <= i < r@.len() ==> (#[trigger] r@[i]).1 == count_of(pids@, r@[i].0) && r@[i].1 > 0,
        forall|k: int| 0 <= k < pids@.len() ==> exists|i: int| 0 <= i < r@.len() && (#[trigger] r@[i]).0 == #[trigger] pids@[k],
{
    let mut table: Vec<(i32, usize)> = Vec::new();
    let mut k: usize = 0;
    while k < pids.len()
        invariant
            k <= pids@.len(),
            forall|i: int, j: int| 0 <= i < j < table@.len() ==> (#[trigger] table@[i]).0 > (#[trigger] table@[j]).0,
            forall|i: int| 0 <= i < table@.len() ==> (#[trigger] table@[i]).1 == count_of(pids@.subrange(0, k as int), table@[i].0) && table@[i].1 > 0,
            forall|m: int| 0 <= m < k ==> exists|i: int| 0 <= i < table@.len() && (#[trigger] table@[i]).0 == #[trigger] pids@[m],
            forall|x: i32| count_of(pids@.subrange(0, k as int), x) > 0 ==> exists|i: int| 0 <= i < table@.len() && (#[trigger] table@[i]).0 == x,
        decreases pids.len() - k,
    {
        let id = pids[k];
        let ghost t0 = table@;
        let ghost pre = pids@.subrange(0, k as int);
        let ghost pre1 = pids@.subrange(0, k + 1);
        proof {
            assert(pre1.drop_last() =~= pre);
            assert(pre1.last() == id);
            lemma_count_of_bound(pre, id);
        }
        let mut i: usize = 0;
        while i < table.len() && table[i].0 > id
            invariant
                i <= table@.len(),
                table@ == t0,
                forall|j: int| 0 <= j < i ==> (#[trigger] table@[j]).0 > id,
            decreases table.len() - i,
        {
            i = i + 1;
        }
        if i < table.len() && table[i].0 == id {
            let c = table[i].1;
            proof {
                assert(t0[i as int].1 == count_of(pre, id));
            }
            table.set(i, (id, c + 1));
            proof {
                assert forall|a: int, b: int| 0 <= a < b < table@.len() implies (#[trigger] table@[a]).0 > (#[trigger] table@[b]).0 by {
                    assert(t0[a].0 > t0[b].0);
                }
                assert forall|a: int| 0 <= a < table@.len() implies (#[trigger] table@[a]).1 == count_of(pre1, table@[a].0) && table@[a].1 > 0 by {
                    if a != i {
                        assert(t0[a].0 != id) by {
                            if a < i {
                                assert(t0[a].0 > t0[i as int].0);
                            } else {
                                assert(t0[i as int].0 > t0[a].0);
                            }
                        }
                    }
                }
                assert forall|m: int| 0 <= m < k + 1 implies exists|a: int| 0 <= a < table@.len() && (#[trigger] table@[a]).0 == #[trigger] pids@[m] by {
                    if m == k {
                        assert(table@[i as int].0 == pids@[m]);
                    } else {
                        let a = choose|a: int| 0 <= a < t0.len() && (#[trigger] t0[a]).0 == pids@[m];
                        assert(table@[a].0 == pids@[m]);
                    }
                }
                assert forall|x: i32| count_of(pre1, x) > 0 implies exists|a: int| 0 <= a < table@.len() && (#[trigger] table@[a]).0 == x by {
                    if x == id {
                        assert(table@[i as int].0 == x);
                    } else {
                        assert(count_of(pre, x) > 0);
                        let a = choose|a: int| 0 <= a < t0.len() && (#[trigger] t0[a]).0 == x;
                        assert(table@[a].0 == x);
                    }
                }
            }
        } else {
            proof {
                assert(count_of(pre, id) == 0) by {
                    if count_of(pre, id) > 0 {
                        let a = choose|a: int| 0 <= a < t0.len() && (#[trigger] t0[a]).0 == id;
                        if a < i {
                            assert(t0[a].0 > id);
                        } else if a > i {
                            assert(t0[i as int].0 > t0[a].0);
                            assert(t0[i as int].0 < id);
                        }
                    }
                }
            }
            table.insert(i, (id, 1));
            proof {
                assert forall|a: int, b: int| 0 <= a < b < table@.len() implies (#[trigger] table@[a]).0 > (#[trigger] table@[b]).0 by {
                    if b < i {
                        assert(table@[a] == t0[a] && table@[b] == t0[b]);
                    } else if b == i {
                        assert(table@[a] == t0[a]);
                    } else if a < i {
                        assert(table@[a] == t0[a] && table@[b] == t0[b - 1]);
                    } else if a == i {
                        assert(table@[b] == t0[b - 1]);
                        assert(t0[i as int].0 <= id);
                        if b - 1 > i {
                            assert(t0[i as int].0 > t0[b - 1].0);
                        }
                    } else {
                        assert(table@[a] == t0[a - 1] && table@[b] == t0[b - 1]);
                    }
                }
                assert forall|a: int| 0 <= a < table@.len() implies (#[trigger] table@[a]).1 == count_of(pre1, table@[a].0) && table@[a].1 > 0 by {
                    if a < i {
                        assert(table@[a] == t0[a]);
                        assert(t0[a].0 != id);
                    } else if a > i {
                        assert(table@[a] == t0[a - 1]);
                        assert(t0[a - 1].0 != id) by {
                            assert(t0[i as int].0 <= id);
                            if a - 1 > i {
                                assert(t0[i as int].0 > t0[a - 1].0);
                            }
                            if t0[a - 1].0 == id {
                                assert(t0[i as int].0 == id || t0[i as int].0 < id);
                            }
                        }
                    }
                }
                assert forall|m: int| 0 <= m < k + 1 implies exists|a: int| 0 <= a < table@.len() && (#[trigger] table@[a]).0 == #[trigger] pids@[m] by {
                    if m == k {
                        assert(table@[i as int].0 == pids@[m]);
                    } else {
                        let a = choose|a: int| 0 <= a < t0.len() && (#[trigger] t0[a]).0 == pids@[m];
                        if a < i {
                            assert(table@[a].0 == pids@[m]);
                        } else {
                            assert(table@[a + 1].0 == pids@[m]);
                        }
                    }
                }
                assert forall|x: i32| count_of(pre1, x) > 0 implies exists|a: int| 0 <= a < table@.len() && (#[trigger] table@[a]).0 == x by {
                    if x == id {
                        assert(table@[i as int].0 == x);
                    } else {
                        assert(count_of(pre, x) > 0);
                        let a = choose|a: int| 0 <= a < t0.len() && (#[trigger] t0[a]).0 == x;
                        if a < i {
                            assert(table@[a].0 == x);
                        } else {
                            assert(table@[a + 1].0 == x);
                        }
                    }
                }
            }
        }
        k = k + 1;
    }
    proof {
        assert(pids@.subrange(0, pids@.len() as int) =~= pids@);
    }
    table
}


/// The number of particles that multiplicities count.
pub open spec fn total_particles(v: Seq<(i32, usize)>) -> nat
    decreases v.len(),
{
    if v.len() == 0 {
        0
    } else {
        total_particles(v.drop_last()) + v.last().1 as nat
    }
}

proof fn lemma_total_particles_is_sum(v: Seq<(i32, usize)>, pids: Seq<i32>)
    requires
        forall|i: int| 0 <= i < v.len() ==> (#[trigger] v[i]).1 == count_of(pids, v[i].0),
    ensures
        total_particles(v) == sum_counts(v.map_values(|e: (i32, usize)| e.0), pids),
    decreases v.len(),
{
    if v.len() > 0 {
        let t = v.drop_last();
        assert forall|i: int| 0 <= i < t.len() implies (#[trigger] t[i]).1 == count_of(pids, t[i].0) by {
            assert(t[i] == v[i]);
        }
        lemma_total_particles_is_sum(t, pids);
        let keys = v.map_values(|e: (i32, usize)| e.0);
        assert(keys.drop_last() =~= t.map_values(|e: (i32, usize)| e.0));
        assert(v.last().1 == count_of(pids, v.last().0));
    }
}

/// Every particle is counted once: multiplicities with distinct ids, each
/// with the number of particles of its id, that have the id of every
/// particle, add up to the number of particles.
pub proof fn law_multiplicities_cover_particles(pids: Seq<i32>, v: Seq<(i32, usize)>)
    requires
        forall|i: int, j: int| 0 <= i < j < v.len() ==> (#[trigger] v[i]).0 > (#[trigger] v[j]).0,
        forall|i: int| 0 <= i < v.len() ==> (#[trigger] v[i]).1 == count_of(pids, v[i].0),
        forall|k: int| 0 <= k < pids.len() ==> exists|i: int| 0 <= i < v.len() && (#[trigger] v[i]).0 == #[trigger] pids[k],
    ensures
        total_particles(v) == pids.len(),
{
    let keys = v.map_values(|e: (i32, usize)| e.0);
    assert forall|i: int, j: int| 0 <= i < j < keys.len() implies keys[i] != keys[j] by {
        assert(v[i].0 > v[j].0);
    }
    assert forall|k: int| 0 <= k < pids.len() implies keys.contains(#[trigger] pids[k]) by {
        let i = choose|i: int| 0 <= i < v.len() && (#[trigger] v[i]).0 == pids[k];
        assert(keys[i] == pids[k]);
    }
    lemma_sum_counts_all(keys, pids);
    lemma_total_particles_is_sum(v, pids);
}

} // verus!
