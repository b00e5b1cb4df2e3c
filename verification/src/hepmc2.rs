//! HepMC2 (`IO_GenEvent`) event records.
//!
//! A record starts with an `E` line; after the first ten fields and the
//! random states it lists the number of weights and then the weights. The
//! following lines describe vertices (`V`), particles (`P`), units (`U`),
//! weight names (`N`), cross sections (`C`), heavy ions (`H`) and PDF
//! information (`F`). Only outgoing particles (status 1) are kept.
use vstd::prelude::*;

/// Writer of HepMC2 event files.
pub mod writer;
/// Records with several weights.
pub mod weights;

use crate::io::{concat, Entry, HeaderStep, ReadError, Span, SplitStep};
use crate::text::{
    any_entry, blanks_end, bytes_end_with, ends_with, push_all, double_entry, find_byte, find_byte_from, float_at, i32_entry, is_blank,
    lemma_any_entry_bounds, lemma_field_end_bounds, lemma_field_end_stops, lemma_find_byte_found, lemma_float_at_embed, no_lf, lemma_entries_no_lf, lemma_skip_no_lf, lemma_ws_run_no_p, lemma_find_byte_first,
    lemma_skip_entries_bounds, lemma_skip_entries_prefix, lemma_u32_entry_bounds,
    lemma_u32_entry_prefix, parse_any_entry, parse_double_entry, parse_i32_entry,
    parse_skip_entries, parse_u32_entry, skip_entries, skip_ws, u32_entry, ws_run_end,
};

verus! {

/// Energy unit of an event record.
#[derive(Debug, Copy, Clone, PartialEq, Eq, Structural)]
pub enum EnergyUnit {
    MeV,
    GeV,
}

/// An outgoing particle: its id and where its momentum components stand.
#[derive(Debug, Copy, Clone, PartialEq, Eq, Structural)]
pub struct ParticleLine {
    pub id: i32,
    pub px: Span,
    pub py: Span,
    pub pz: Span,
    pub e: Span,
}

/// What an event record holds: where the central weight stands, the
/// outgoing particles in record order and the energy unit.
#[derive(Debug)]
pub struct HepMCEvent {
    pub weight: Span,
    pub particles: Vec<ParticleLine>,
    pub energy_unit: EnergyUnit,
}

/// The span from `a` to `b`.
pub open spec fn span(a: int, b: int) -> Span {
    Span { start: a as usize, end: b as usize }
}

/// Position after the entries that precede the weights of an `E` line:
/// ten fields, the number of random states and the random states.
pub open spec fn spec_non_weight_entries(s: Seq<u8>) -> Option<int> {
    match skip_entries(s, 1, 10) {
        Some(p) => match u32_entry(s, p) {
            Some((q, n)) => skip_entries(s, q, n as nat),
            None => None,
        },
        None => None,
    }
}

/// Where the central weight of a record stands.
pub open spec fn spec_extract_weight(s: Seq<u8>) -> Result<Span, ReadError> {
    if s.len() == 0 || s[0] != 69u8 {
        Err(ReadError::UnrecognisedEntry(Entry::StartOfRecord, 0))
    } else {
        match spec_non_weight_entries(s) {
            None => Err(ReadError::ParseEntry(Entry::EntriesBeforeWeight, 0)),
            Some(p) => match u32_entry(s, p) {
                None => Err(ReadError::ParseEntry(Entry::NumberOfWeights, p as usize)),
                Some((q, _)) => match double_entry(s, q) {
                    None => Err(ReadError::ParseEntry(Entry::EventWeight, q as usize)),
                    Some((a, b)) => Ok(span(a, b)),
                },
            },
        }
    }
}

/// The text from `a` to `b` is `GEV`.
pub open spec fn is_gev(s: Seq<u8>, a: int, b: int) -> bool {
    b == a + 3 && s[a] == 71u8 && s[a + 1] == 69u8 && s[a + 2] == 86u8
}

/// The text from `a` to `b` is `MEV`.
pub open spec fn is_mev(s: Seq<u8>, a: int, b: int) -> bool {
    b == a + 3 && s[a] == 77u8 && s[a + 1] == 69u8 && s[a + 2] == 86u8
}

/// A `U` line starting at `q`: the energy unit and the position after it.
#[verifier::opaque]
pub open spec fn spec_units_line(s: Seq<u8>, q: int) -> Result<(EnergyUnit, int), ReadError> {
    match any_entry(s, q + 1) {
        None => Err(ReadError::ParseEntry(Entry::EnergyUnit, q as usize)),
        Some((a, b)) => if is_gev(s, a, b) {
            Ok((EnergyUnit::GeV, b))
        } else if is_mev(s, a, b) {
            Ok((EnergyUnit::MeV, b))
        } else {
            Err(
                ReadError::InvalidEntry {
                    value: span(a, b),
                    entry: Entry::EnergyUnit,
                    record: q as usize,
                },
            )
        },
    }
}

/// Fields of a `P` line after the particle id: momentum, energy, mass and
/// status; the particle is returned when its status is 1 (outgoing).
#[verifier::opaque]
pub open spec fn spec_particle_rest(s: Seq<u8>, q: int, id: i32, i: int) -> Result<
    (int, Option<ParticleLine>),
    ReadError,
> {
    match double_entry(s, i) {
        None => Err(ReadError::ParseEntry(Entry::Px, q as usize)),
        Some((x0, x1)) => match double_entry(s, x1) {
            None => Err(ReadError::ParseEntry(Entry::Py, q as usize)),
            Some((y0, y1)) => match double_entry(s, y1) {
                None => Err(ReadError::ParseEntry(Entry::Pz, q as usize)),
                Some((z0, z1)) => match double_entry(s, z1) {
                    None => Err(ReadError::ParseEntry(Entry::Energy, q as usize)),
                    Some((e0, e1)) => match any_entry(s, e1) {
                        None => Err(ReadError::ParseEntry(Entry::Mass, q as usize)),
                        Some((_, m1)) => match i32_entry(s, m1) {
                            None => Err(ReadError::ParseEntry(Entry::ParticleStatus, q as usize)),
                            Some((t, status)) => if status != 1 {
                                Ok((t, None))
                            } else {
                                Ok(
                                    (
                                        t,
                                        Some(
                                            ParticleLine {
                                                id,
                                                px: span(x0, x1),
                                                py: span(y0, y1),
                                                pz: span(z0, z1),
                                                e: span(e0, e1),
                                            },
                                        ),
                                    ),
                                )
                            },
                        },
                    },
                },
            },
        },
    }
}

/// A `P` line starting at `q`: the position after its status field and the
/// particle if it is outgoing.
#[verifier::opaque]
pub open spec fn spec_particle_line(s: Seq<u8>, q: int) -> Result<
    (int, Option<ParticleLine>),
    ReadError,
> {
    match any_entry(s, q + 1) {
        None => Err(ReadError::ParseEntry(Entry::Barcode, q as usize)),
        Some((_, b)) => match i32_entry(s, b) {
            None => Err(ReadError::ParseEntry(Entry::ParticleId, q as usize)),
            Some((i, id)) => spec_particle_rest(s, q, id, i),
        },
    }
}

/// A line that starts with this byte holds nothing the event needs.
pub open spec fn starts_ignored_line(b: u8) -> bool {
    b == 86u8 || b == 70u8 || b == 72u8 || b == 67u8 || b == 78u8
}

/// The particles, with `p` after them if there is one.
pub open spec fn push_opt(parts: Seq<ParticleLine>, p: Option<ParticleLine>) -> Seq<ParticleLine> {
    match p {
        Some(x) => parts.push(x),
        None => parts,
    }
}

/// The lines after position `p`, each starting after a line feed: `V`, `F`,
/// `H`, `C` and `N` lines are skipped, `P` and `U` lines are read, and
/// anything else must be white space up to the end of the record.
pub open spec fn spec_scan_lines(
    s: Seq<u8>,
    p: int,
    unit: EnergyUnit,
    parts: Seq<ParticleLine>,
) -> Result<(EnergyUnit, Seq<ParticleLine>), ReadError>
    decreases s.len() - p,
{
    match find_byte(s, p, 10u8) {
        None => Ok((unit, parts)),
        Some(n) => {
            let q = n + 1;
            if !(p < q <= s.len()) {
                Ok((unit, parts))
            } else if q < s.len() && starts_ignored_line(s[q]) {
                spec_scan_lines(s, q, unit, parts)
            } else if q < s.len() && s[q] == 80u8 {
                match spec_particle_line(s, q) {
                    Err(e) => Err(e),
                    Ok((r, pl)) => if p < r <= s.len() {
                        spec_scan_lines(s, r, unit, push_opt(parts, pl))
                    } else {
                        Ok((unit, parts))
                    },
                }
            } else if q < s.len() && s[q] == 85u8 {
                match spec_units_line(s, q) {
                    Err(e) => Err(e),
                    Ok((u, r)) => if p < r <= s.len() {
                        spec_scan_lines(s, r, u, parts)
                    } else {
                        Ok((unit, parts))
                    },
                }
            } else if ws_run_end(s, q) == s.len() {
                spec_scan_lines(s, q, unit, parts)
            } else {
                Err(ReadError::UnrecognisedEntry(Entry::Start, q as usize))
            }
        },
    }
}

/// What a HepMC2 event record holds, or why it cannot be read.
pub open spec fn spec_parse_hepmc(s: Seq<u8>) -> Result<
    (Span, EnergyUnit, Seq<ParticleLine>),
    ReadError,
> {
    match spec_extract_weight(s) {
        Err(e) => Err(e),
        Ok(w) => match spec_scan_lines(s, w.end as int, EnergyUnit::GeV, Seq::empty()) {
            Err(e) => Err(e),
            Ok((u, parts)) => Ok((w, u, parts)),
        },
    }
}

/// The id and the status of the `P` line starting at `q`: its third and
/// ninth fields, after the barcode, the id, the four momentum components
/// and the mass.
pub open spec fn hepmc_id_status(s: Seq<u8>, q: int) -> Option<(i32, i32)> {
    match any_entry(s, q + 1) {
        None => None,
        Some((_, b)) => match i32_entry(s, b) {
            None => None,
            Some((i, id)) => match double_entry(s, i) {
                None => None,
                Some((_, x1)) => match double_entry(s, x1) {
                    None => None,
                    Some((_, y1)) => match double_entry(s, y1) {
                        None => None,
                        Some((_, z1)) => match double_entry(s, z1) {
                            None => None,
                            Some((_, e1)) => match any_entry(s, e1) {
                                None => None,
                                Some((_, m1)) => match i32_entry(s, m1) {
                                    None => None,
                                    Some((_, status)) => Some((id, status)),
                                },
                            },
                        },
                    },
                },
            },
        },
    }
}

/// Only outgoing particles are kept: a `P` line gives a particle exactly
/// when its status reads 1, and the particle has the id of the line; a
/// line with another status gives none.
pub proof fn law_hepmc_keeps_outgoing(s: Seq<u8>, q: int)
    ensures
        spec_particle_line(s, q) matches Ok((_, Some(p))) ==> hepmc_id_status(s, q) == Some((p.id, 1i32)),
        spec_particle_line(s, q) matches Ok((_, None)) ==> hepmc_id_status(s, q) matches Some((_, st))
            && st != 1,
        hepmc_id_status(s, q) matches Some((_, st)) && st != 1 ==> spec_particle_line(s, q) matches Ok(
            (_, None),
        ),
        match hepmc_id_status(s, q) {
            Some((id, st)) => st == 1 ==> (spec_particle_line(s, q) matches Ok((_, Some(p))) && p.id
                == id),
            None => true,
        },
{
    reveal(spec_particle_line);
    reveal(spec_particle_rest);
}

/// Each of the particles stands on a `P` line of `s`, right after a line
/// feed, whose id is its id and whose status reads 1.
pub open spec fn from_outgoing_p_lines(s: Seq<u8>, parts: Seq<ParticleLine>) -> bool {
    forall|k: int|
        #![trigger parts[k]]
        0 <= k < parts.len() ==> exists|q: int|
            0 < q < s.len() && s[q - 1] == 10u8 && s[q] == 80u8 && #[trigger] hepmc_id_status(s, q)
                == Some((parts[k].id, 1i32))
}

proof fn lemma_scan_outgoing(s: Seq<u8>, p: int, unit: EnergyUnit, parts: Seq<ParticleLine>)
    requires
        0 <= p,
        from_outgoing_p_lines(s, parts),
    ensures
        spec_scan_lines(s, p, unit, parts) matches Ok((_, res)) ==> from_outgoing_p_lines(s, res),
    decreases s.len() - p,
{
    lemma_find_byte_found(s, p, 10u8);
    match find_byte(s, p, 10u8) {
        None => {},
        Some(n) => {
            let q = n + 1;
            if !(p < q <= s.len()) {
            } else if q < s.len() && starts_ignored_line(s[q]) {
                lemma_scan_outgoing(s, q, unit, parts);
            } else if q < s.len() && s[q] == 80u8 {
                law_hepmc_keeps_outgoing(s, q);
                match spec_particle_line(s, q) {
                    Err(_) => {},
                    Ok((r, pl)) => {
                        if p < r <= s.len() {
                            let next = push_opt(parts, pl);
                            assert(from_outgoing_p_lines(s, next)) by {
                                assert forall|j: int| #![trigger next[j]] 0 <= j < next.len() implies exists|m: int|
                                    0 < m < s.len() && s[m - 1] == 10u8 && s[m] == 80u8
                                        && #[trigger] hepmc_id_status(s, m) == Some((next[j].id, 1i32)) by {
                                    if j < parts.len() {
                                        assert(next[j] == parts[j]);
                                    } else {
                                        assert(hepmc_id_status(s, q) == Some((next[j].id, 1i32)));
                                    }
                                }
                            }
                            lemma_scan_outgoing(s, r, unit, next);
                        }
                    },
                }
            } else if q < s.len() && s[q] == 85u8 {
                match spec_units_line(s, q) {
                    Err(_) => {},
                    Ok((u, r)) => {
                        if p < r <= s.len() {
                            lemma_scan_outgoing(s, r, u, parts);
                        }
                    },
                }
            } else if ws_run_end(s, q) == s.len() {
                lemma_scan_outgoing(s, q, unit, parts);
            }
        },
    }
}

/// A `P` line is read without passing a line feed.
proof fn lemma_particle_line_no_lf(s: Seq<u8>, q: int)
    requires
        0 <= q < s.len(),
    ensures
        spec_particle_line(s, q) matches Ok((r, _)) ==> q + 1 < r <= s.len() && no_lf(s, q + 1, r),
{
    reveal(spec_particle_line);
    reveal(spec_particle_rest);
    lemma_entries_no_lf(s, q + 1);
    if let Some((_, b)) = any_entry(s, q + 1) {
        lemma_entries_no_lf(s, b);
        if let Some((i, _)) = i32_entry(s, b) {
            lemma_entries_no_lf(s, i);
            if let Some((_, x1)) = double_entry(s, i) {
                lemma_entries_no_lf(s, x1);
                if let Some((_, y1)) = double_entry(s, x1) {
                    lemma_entries_no_lf(s, y1);
                    if let Some((_, z1)) = double_entry(s, y1) {
                        lemma_entries_no_lf(s, z1);
                        if let Some((_, e1)) = double_entry(s, z1) {
                            lemma_entries_no_lf(s, e1);
                            if let Some((_, m1)) = any_entry(s, e1) {
                                lemma_entries_no_lf(s, m1);
                            }
                        }
                    }
                }
            }
        }
    }
}

/// A `U` line is read without passing a line feed.
proof fn lemma_units_line_no_lf(s: Seq<u8>, q: int)
    requires
        0 <= q < s.len(),
    ensures
        spec_units_line(s, q) matches Ok((_, r)) ==> q + 1 < r <= s.len() && no_lf(s, q + 1, r),
{
    reveal(spec_units_line);
    lemma_entries_no_lf(s, q + 1);
}

/// The `E` line is read up to its weight without passing a line feed.
proof fn lemma_weight_no_lf(s: Seq<u8>)
    requires
        s.len() <= usize::MAX,
    ensures
        spec_extract_weight(s) matches Ok(w) ==> w.end <= s.len() && no_lf(s, 0, w.end as int),
{
    if s.len() > 0 && s[0] == 69u8 {
        lemma_skip_no_lf(s, 1, 10);
        if let Some(p) = skip_entries(s, 1, 10) {
            lemma_entries_no_lf(s, p);
            if let Some((q, n)) = u32_entry(s, p) {
                lemma_skip_no_lf(s, q, n as nat);
                if let Some(p2) = skip_entries(s, q, n as nat) {
                    lemma_entries_no_lf(s, p2);
                    if let Some((q2, _)) = u32_entry(s, p2) {
                        lemma_entries_no_lf(s, q2);
                        if let Some((a, b)) = double_entry(s, q2) {
                            assert(span(a, b).end as int == b);
                        }
                    }
                }
            }
        }
    }
}

/// Scanning lines only adds particles after those already read.
proof fn lemma_scan_prefix(s: Seq<u8>, p: int, unit: EnergyUnit, parts: Seq<ParticleLine>)
    requires
        0 <= p,
    ensures
        spec_scan_lines(s, p, unit, parts) matches Ok((_, res)) ==> parts.len() <= res.len() && forall|k: int|
            0 <= k < parts.len() ==> #[trigger] res[k] == parts[k],
    decreases s.len() - p,
{
    lemma_find_byte_found(s, p, 10u8);
    match find_byte(s, p, 10u8) {
        None => {},
        Some(n) => {
            let q = n + 1;
            if !(p < q <= s.len()) {
            } else if q < s.len() && starts_ignored_line(s[q]) {
                lemma_scan_prefix(s, q, unit, parts);
            } else if q < s.len() && s[q] == 80u8 {
                match spec_particle_line(s, q) {
                    Err(_) => {},
                    Ok((r, pl)) => {
                        if p < r <= s.len() {
                            let next = push_opt(parts, pl);
                            lemma_scan_prefix(s, r, unit, next);
                            assert forall|k: int| 0 <= k < parts.len() implies next[k] == parts[k] by {}
                        }
                    },
                }
            } else if q < s.len() && s[q] == 85u8 {
                match spec_units_line(s, q) {
                    Err(_) => {},
                    Ok((u, r)) => {
                        if p < r <= s.len() {
                            lemma_scan_prefix(s, r, u, parts);
                        }
                    },
                }
            } else if ws_run_end(s, q) == s.len() {
                lemma_scan_prefix(s, q, unit, parts);
            }
        },
    }
}

/// Scanning lines from `p` reads every outgoing particle of a `P` line that
/// starts after `p`.
proof fn lemma_scan_complete(s: Seq<u8>, p: int, unit: EnergyUnit, parts: Seq<ParticleLine>, l: int, x: ParticleLine)
    requires
        0 <= p < l < s.len(),
        s[l - 1] == 10u8,
        s[l] == 80u8,
        spec_particle_line(s, l) == Ok::<(int, Option<ParticleLine>), ReadError>((
            (spec_particle_line(s, l)->Ok_0).0,
            Some(x),
        )),
    ensures
        spec_scan_lines(s, p, unit, parts) matches Ok((_, res)) ==> res.contains(x),
    decreases s.len() - p,
{
    lemma_find_byte_found(s, p, 10u8);
    lemma_find_byte_first(s, p, 10u8);
    let n = find_byte(s, p, 10u8)->0;
    assert(find_byte(s, p, 10u8) is Some);
    assert(n <= l - 1);
    let q = n + 1;
    if q == l {
        let r = (spec_particle_line(s, l)->Ok_0).0;
        lemma_particle_line_no_lf(s, l);
        let next = push_opt(parts, Some(x));
        lemma_scan_prefix(s, r, unit, next);
        if let Ok((_, res)) = spec_scan_lines(s, p, unit, parts) {
            assert(res[parts.len() as int] == x);
        }
    } else {
        assert(q < l);
        if starts_ignored_line(s[q]) {
            lemma_scan_complete(s, q, unit, parts, l, x);
        } else if s[q] == 80u8 {
            lemma_particle_line_no_lf(s, q);
            if let Ok((r, pl)) = spec_particle_line(s, q) {
                assert(r <= l - 1);
                lemma_scan_complete(s, r, unit, push_opt(parts, pl), l, x);
            }
        } else if s[q] == 85u8 {
            lemma_units_line_no_lf(s, q);
            if let Ok((u, r)) = spec_units_line(s, q) {
                assert(r <= l - 1);
                lemma_scan_complete(s, r, u, parts, l, x);
            }
        } else if ws_run_end(s, q) == s.len() {
            lemma_ws_run_no_p(s, q, l);
        }
    }
}

/// Every outgoing particle is read from a record: each `P` line whose
/// status reads 1 gives a particle, with the id of the line, among the
/// particles of the record.
pub proof fn law_hepmc_reads_every_outgoing(s: Seq<u8>, l: int)
    requires
        s.len() <= usize::MAX,
        0 < l < s.len(),
        s[l - 1] == 10u8,
        s[l] == 80u8,
        hepmc_id_status(s, l) matches Some((_, st)) && st == 1,
    ensures
        spec_parse_hepmc(s) matches Ok((_, _, parts)) ==> exists|k: int|
            0 <= k < parts.len() && parts[k].id == (hepmc_id_status(s, l)->0).0 && spec_particle_line(s, l)
                == Ok::<(int, Option<ParticleLine>), ReadError>((
                (spec_particle_line(s, l)->Ok_0).0,
                Some(parts[k]),
            )),
{
    law_hepmc_keeps_outgoing(s, l);
    let x = (spec_particle_line(s, l)->Ok_0).1->0;
    lemma_weight_no_lf(s);
    if let Ok(w) = spec_extract_weight(s) {
        let b = w.end as int;
        assert(b <= l - 1);
        lemma_scan_complete(s, b, EnergyUnit::GeV, Seq::empty(), l, x);
        if let Ok((_, _, parts)) = spec_parse_hepmc(s) {
            let k = choose|k: int| 0 <= k < parts.len() && parts[k] == x;
            assert(parts[k] == x);
        }
    }
}

/// Only outgoing particles are read from a record: each particle of the
/// record stands on a `P` line whose status reads 1 and whose id is its
/// id.
pub proof fn law_hepmc_particles_outgoing(s: Seq<u8>)
    ensures
        spec_parse_hepmc(s) matches Ok((_, _, parts)) ==> from_outgoing_p_lines(s, parts),
{
    match spec_extract_weight(s) {
        Err(_) => {},
        Ok(w) => {
            lemma_scan_outgoing(s, w.end as int, EnergyUnit::GeV, Seq::empty());
        },
    }
}

/// Position after the entries that precede the weights of an `E` line.
pub fn non_weight_entries(record: &[u8]) -> (r: Option<usize>)
    requires
        record.len() >= 1,
    ensures
        match r {
            Some(p) => spec_non_weight_entries(record@) == Some(p as int),
            None => spec_non_weight_entries(record@) is None,
        },
        r matches Some(p) ==> p <= record.len(),
{
    match parse_skip_entries(record, 1, 10) {
        None => None,
        Some(p) => match parse_u32_entry(record, p) {
            None => None,
            Some((q, n)) => parse_skip_entries(record, q, n),
        },
    }
}

/// Where the central weight of an event record stands.
pub fn extract_weights(record: &[u8]) -> (r: Result<Span, ReadError>)
    ensures
        r == spec_extract_weight(record@),
        r matches Ok(w) ==> w.start < w.end <= record.len(),
{
    if record.len() == 0 || record[0] != 69u8 {
        return Err(ReadError::UnrecognisedEntry(Entry::StartOfRecord, 0));
    }
    match non_weight_entries(record) {
        None => Err(ReadError::ParseEntry(Entry::EntriesBeforeWeight, 0)),
        Some(p) => match parse_u32_entry(record, p) {
            None => Err(ReadError::ParseEntry(Entry::NumberOfWeights, p)),
            Some((q, _)) => match parse_double_entry(record, q) {
                None => Err(ReadError::ParseEntry(Entry::EventWeight, q)),
                Some((a, b)) => Ok(Span { start: a, end: b }),
            },
        },
    }
}

/// Read a `U` line starting at `q`.
pub fn parse_units_line(record: &[u8], q: usize) -> (r: Result<(EnergyUnit, usize), ReadError>)
    requires
        q < record.len(),
    ensures
        match r {
            Ok((u, e)) => spec_units_line(record@, q as int) == Ok::<
                (EnergyUnit, int),
                ReadError,
            >((u, e as int)) && q < e <= record.len(),
            Err(err) => spec_units_line(record@, q as int) == Err::<(EnergyUnit, int), ReadError>(
                err,
            ),
        },
{
    reveal(spec_units_line);
    match parse_any_entry(record, q + 1) {
        None => Err(ReadError::ParseEntry(Entry::EnergyUnit, q)),
        Some((a, b)) => {
            if b - a == 3 && record[a] == 71u8 && record[a + 1] == 69u8 && record[a + 2] == 86u8 {
                Ok((EnergyUnit::GeV, b))
            } else if b - a == 3 && record[a] == 77u8 && record[a + 1] == 69u8 && record[a + 2]
                == 86u8 {
                Ok((EnergyUnit::MeV, b))
            } else {
                Err(
                    ReadError::InvalidEntry {
                        value: Span { start: a, end: b },
                        entry: Entry::EnergyUnit,
                        record: q,
                    },
                )
            }
        },
    }
}

/// Read a `P` line starting at `q`.
pub fn parse_particle_line(record: &[u8], q: usize) -> (r: Result<
    (usize, Option<ParticleLine>),
    ReadError,
>)
    requires
        q < record.len(),
    ensures
        match r {
            Ok((e, pl)) => spec_particle_line(record@, q as int) == Ok::<
                (int, Option<ParticleLine>),
                ReadError,
            >((e as int, pl)) && q < e <= record.len(),
            Err(err) => spec_particle_line(record@, q as int) == Err::<
                (int, Option<ParticleLine>),
                ReadError,
            >(err),
        },
{
    reveal(spec_particle_line);
    reveal(spec_particle_rest);
    let s = record;
    let b = match parse_any_entry(s, q + 1) {
        None => return Err(ReadError::ParseEntry(Entry::Barcode, q)),
        Some((_, b)) => b,
    };
    let (i, id) = match parse_i32_entry(s, b) {
        None => return Err(ReadError::ParseEntry(Entry::ParticleId, q)),
        Some(x) => x,
    };
    let (x0, x1) = match parse_double_entry(s, i) {
        None => return Err(ReadError::ParseEntry(Entry::Px, q)),
        Some(x) => x,
    };
    let (y0, y1) = match parse_double_entry(s, x1) {
        None => return Err(ReadError::ParseEntry(Entry::Py, q)),
        Some(x) => x,
    };
    let (z0, z1) = match parse_double_entry(s, y1) {
        None => return Err(ReadError::ParseEntry(Entry::Pz, q)),
        Some(x) => x,
    };
    let (e0, e1) = match parse_double_entry(s, z1) {
        None => return Err(ReadError::ParseEntry(Entry::Energy, q)),
        Some(x) => x,
    };
    let m1 = match parse_any_entry(s, e1) {
        None => return Err(ReadError::ParseEntry(Entry::Mass, q)),
        Some((_, m1)) => m1,
    };
    let (t, status) = match parse_i32_entry(s, m1) {
        None => return Err(ReadError::ParseEntry(Entry::ParticleStatus, q)),
        Some(x) => x,
    };
    if status != 1 {
        Ok((t, None))
    } else {
        Ok(
            (
                t,
                Some(
                    ParticleLine {
                        id,
                        px: Span { start: x0, end: x1 },
                        py: Span { start: y0, end: y1 },
                        pz: Span { start: z0, end: z1 },
                        e: Span { start: e0, end: e1 },
                    },
                ),
            ),
        )
    }
}

/// Read a HepMC2 event record: the central weight, the outgoing particles
/// and the energy unit.
pub fn parse_hepmc(record: &[u8]) -> (r: Result<HepMCEvent, ReadError>)
    ensures
        match r {
            Ok(ev) => spec_parse_hepmc(record@) == Ok::<
                (Span, EnergyUnit, Seq<ParticleLine>),
                ReadError,
            >((ev.weight, ev.energy_unit, ev.particles@)),
            Err(err) => spec_parse_hepmc(record@) == Err::<
                (Span, EnergyUnit, Seq<ParticleLine>),
                ReadError,
            >(err),
        },
{
    let s = record;
    let w = match extract_weights(s) {
        Err(e) => return Err(e),
        Ok(w) => w,
    };
    let mut pos = w.end;
    let mut unit = EnergyUnit::GeV;
    let mut parts: Vec<ParticleLine> = Vec::new();
    loop
        invariant
            pos <= s.len(),
            s@ == record@,
            spec_extract_weight(s@) == Ok::<Span, ReadError>(w),
            spec_scan_lines(s@, w.end as int, EnergyUnit::GeV, Seq::empty()) == spec_scan_lines(
                s@,
                pos as int,
                unit,
                parts@,
            ),
        ensures
            spec_scan_lines(s@, w.end as int, EnergyUnit::GeV, Seq::empty()) == Ok::<
                (EnergyUnit, Seq<ParticleLine>),
                ReadError,
            >((unit, parts@)),
        decreases s.len() - pos,
    {
        let n = match find_byte_from(s, pos, 10u8) {
            None => break ,
            Some(n) => n,
        };
        let q = n + 1;
        if q < s.len() && (s[q] == 86u8 || s[q] == 70u8 || s[q] == 72u8 || s[q] == 67u8 || s[q]
            == 78u8) {
            pos = q;
        } else if q < s.len() && s[q] == 80u8 {
            match parse_particle_line(s, q) {
                Err(e) => return Err(e),
                Ok((r, pl)) => {
                    match pl {
                        Some(x) => parts.push(x),
                        None => {},
                    }
                    pos = r;
                },
            }
        } else if q < s.len() && s[q] == 85u8 {
            match parse_units_line(s, q) {
                Err(e) => return Err(e),
                Ok((u, r)) => {
                    unit = u;
                    pos = r;
                },
            }
        } else if skip_ws(s, q) == s.len() {
            pos = q;
        } else {
            return Err(ReadError::UnrecognisedEntry(Entry::Start, q));
        }
    }
    Ok(HepMCEvent { weight: w, particles: parts, energy_unit: unit })
}

/// The record with the field that follows `pos` replaced by `w`: the bytes
/// up to and including `pos` stay, then come `w` and everything after the
/// field. Blanks between `pos + 1` and the field are replaced too.
pub open spec fn spec_replace_entry(s: Seq<u8>, pos: int, w: Seq<u8>) -> Result<Seq<u8>, ReadError> {
    match any_entry(s, pos) {
        None => Err(ReadError::ParseEntry(Entry::CentralWeight, 0)),
        Some((_, e)) => Ok(s.subrange(0, pos + 1) + w + s.subrange(e, s.len() as int)),
    }
}

/// The record with its central weight replaced by the text `w`.
pub open spec fn spec_update_weight(s: Seq<u8>, w: Seq<u8>) -> Result<Seq<u8>, ReadError> {
    match spec_non_weight_entries(s) {
        None => Err(ReadError::ParseEntry(Entry::EntriesBeforeWeight, 0)),
        Some(p) => match u32_entry(s, p) {
            None => Err(ReadError::ParseEntry(Entry::NumberOfWeights, p as usize)),
            Some((q, _)) => spec_replace_entry(s, q, w),
        },
    }
}

/// Replace the field that follows `entry_pos` (after at least one blank) by
/// `weight`, starting one byte after `entry_pos`. On failure the record is
/// left as it was.
pub fn update_central_weight(record: &mut Vec<u8>, entry_pos: usize, weight: &[u8]) -> (r: Result<
    (),
    ReadError,
>)
    requires
        entry_pos <= old(record).len(),
    ensures
        match spec_replace_entry(old(record)@, entry_pos as int, weight@) {
            Ok(t) => r is Ok && final(record)@ == t,
            Err(e) => r == Err::<(), ReadError>(e) && final(record)@ == old(record)@,
        },
{
    let e = match parse_any_entry(record.as_slice(), entry_pos) {
        None => return Err(ReadError::ParseEntry(Entry::CentralWeight, 0)),
        Some((_, e)) => e,
    };
    let ghost s = record@;
    let mut out: Vec<u8> = Vec::new();
    let mut i: usize = 0;
    while i <= entry_pos
        invariant
            record@ == s,
            entry_pos < e <= s.len(),
            i <= entry_pos + 1,
            out@ == s.subrange(0, i as int),
        decreases entry_pos + 1 - i,
    {
        out.push(record[i]);
        i = i + 1;
    }
    let mut k: usize = 0;
    while k < weight.len()
        invariant
            k <= weight.len(),
            out@ == s.subrange(0, entry_pos + 1) + weight@.subrange(0, k as int),
        decreases weight.len() - k,
    {
        out.push(weight[k]);
        k = k + 1;
    }
    assert(weight@.subrange(0, weight.len() as int) == weight@);
    let mut j: usize = e;
    while j < record.len()
        invariant
            record@ == s,
            e <= j <= s.len(),
            out@ == s.subrange(0, entry_pos + 1) + weight@ + s.subrange(e as int, j as int),
        decreases s.len() - j,
    {
        out.push(record[j]);
        j = j + 1;
    }
    *record = out;
    Ok(())
}

/// Replace the central weight of a HepMC2 event record by the text `weight`.
pub fn update_weight(record: &mut Vec<u8>, weight: &[u8]) -> (r: Result<(), ReadError>)
    requires
        old(record).len() >= 1,
        old(record)@[0] == 69u8,
    ensures
        match spec_update_weight(old(record)@, weight@) {
            Ok(t) => r is Ok && final(record)@ == t,
            Err(e) => r == Err::<(), ReadError>(e) && final(record)@ == old(record)@,
        },
{
    let p = match non_weight_entries(record.as_slice()) {
        None => return Err(ReadError::ParseEntry(Entry::EntriesBeforeWeight, 0)),
        Some(p) => p,
    };
    let q = match parse_u32_entry(record.as_slice(), p) {
        None => return Err(ReadError::ParseEntry(Entry::NumberOfWeights, p)),
        Some((q, _)) => q,
    };
    update_central_weight(record, q, weight)
}

/// A weight written into a record is the weight read back from it: when the
/// central weight of an event record is replaced by the text of one number,
/// the central weight of the new record stands exactly where that text was
/// put, and the text there is the number written.
pub proof fn law_weight_read_back(s: Seq<u8>, w: Seq<u8>)
    requires
        s.len() >= 1,
        s[0] == 69u8,
        float_at(w, 0) == Some(w.len() as int),
        s.len() + w.len() <= usize::MAX,
        spec_update_weight(s, w) is Ok,
    ensures
        spec_update_weight(s, w) matches Ok(t) && spec_extract_weight(t) matches Ok(sp)
            && t.subrange(sp.start as int, sp.end as int) == w,
{
    let p1 = skip_entries(s, 1, 10)->0;
    lemma_skip_entries_bounds(s, 1, 10);
    let (p2, nr) = u32_entry(s, p1)->0;
    lemma_u32_entry_bounds(s, p1);
    let p = spec_non_weight_entries(s)->0;
    lemma_skip_entries_bounds(s, p2, nr as nat);
    let (q, _) = u32_entry(s, p)->0;
    lemma_u32_entry_bounds(s, p);
    lemma_any_entry_bounds(s, q);
    let (a, e) = any_entry(s, q)->0;
    let t = s.subrange(0, q + 1) + w + s.subrange(e, s.len() as int);
    assert(spec_update_weight(s, w) == Ok::<Seq<u8>, ReadError>(t));
    assert forall|k: int| 0 <= k <= q implies s[k] == t[k] by {}
    lemma_skip_entries_prefix(s, t, 1, 10, q);
    lemma_u32_entry_prefix(s, t, p1, q);
    lemma_skip_entries_prefix(s, t, p2, nr as nat, q);
    lemma_u32_entry_prefix(s, t, p, q);
    assert(spec_non_weight_entries(t) == Some(p));
    // the weight text starts right after the one blank kept at `q`
    assert(is_blank(s[q]));
    assert(w.len() > 0);
    assert(t[q + 1] == w[0]);
    assert(!is_blank(w[0]));
    assert(blanks_end(t, q + 1) == q + 1);
    assert(blanks_end(t, q) == q + 1);
    // the field ended at `e`, so white space or the end follows the weight
    lemma_field_end_bounds(s, a);
    lemma_field_end_stops(s, a);
    if e < s.len() {
        assert(t[q + 1 + w.len()] == s[e]);
    }
    assert forall|k: int| 0 <= k < w.len() implies t[q + 1 + k] == w[k] by {}
    lemma_float_at_embed(w, t, q + 1);
    assert(double_entry(t, q) == Some((q + 1, q + 1 + w.len())));
    assert(t.subrange(q + 1, q + 1 + w.len()) == w);
    assert(t[0] == s[0]);
    assert(spec_extract_weight(t) == Ok::<Span, ReadError>(span(q + 1, q + 1 + w.len())));
}

/// One step of splitting HepMC2 input: the input read so far and the next
/// chunk give a record if they end with a line feed and an `E`; that `E`
/// is left to start the next record.
pub open spec fn split_step(pending: Seq<u8>, chunk: Seq<u8>) -> (Option<Seq<u8>>, Seq<u8>) {
    let c = pending + chunk;
    if ends_with(c, seq![10u8, 69u8]) {
        (Some(c.drop_last()), seq![69u8])
    } else {
        (None, c)
    }
}

/// Splitting the chunks one after the other: the records and what is left.
pub open spec fn split_all(pending: Seq<u8>, chunks: Seq<Seq<u8>>) -> (Seq<Seq<u8>>, Seq<u8>)
    decreases chunks.len(),
{
    if chunks.len() == 0 {
        (Seq::empty(), pending)
    } else {
        let (records, p) = split_all(pending, chunks.drop_last());
        let (r, q) = split_step(p, chunks.last());
        (
            match r {
                Some(x) => records.push(x),
                None => records,
            },
            q,
        )
    }
}

/// Splitting input into records loses nothing and adds nothing: the
/// records, followed by what is left, are the input.
pub proof fn law_records_cover_input(pending: Seq<u8>, chunks: Seq<Seq<u8>>)
    ensures
        concat(split_all(pending, chunks).0) + split_all(pending, chunks).1 == pending + concat(
            chunks,
        ),
    decreases chunks.len(),
{
    if chunks.len() > 0 {
        law_records_cover_input(pending, chunks.drop_last());
        let (records, p) = split_all(pending, chunks.drop_last());
        let c = p + chunks.last();
        if ends_with(c, seq![10u8, 69u8]) {
            assert(c.drop_last() + seq![69u8] == c) by {
                assert(c.subrange(c.len() - 2, c.len() as int) == seq![10u8, 69u8]);
                assert(c[c.len() - 1] == 69u8);
            }
            assert(concat(records.push(c.drop_last())) == concat(records) + c.drop_last()) by {
                assert(records.push(c.drop_last()).drop_last() == records);
            }
            assert(concat(records) + c.drop_last() + seq![69u8] =~= concat(records) + c);
        }
        assert(concat(chunks) == concat(chunks.drop_last()) + chunks.last());
        assert(concat(records) + c =~= (concat(records) + p) + chunks.last());
        assert(pending + concat(chunks) =~= (pending + concat(chunks.drop_last())) + chunks.last());
    }
}

/// Splitting from a pending text that starts with `E` gives records that
/// start with `E` and leaves a text that starts with `E`.
proof fn lemma_records_start_with_e(pending: Seq<u8>, chunks: Seq<Seq<u8>>)
    requires
        pending.len() > 0,
        pending[0] == 69u8,
    ensures
        forall|i: int| 0 <= i < split_all(pending, chunks).0.len() ==> (#[trigger] split_all(pending, chunks).0[i]).len()
            > 0 && split_all(pending, chunks).0[i][0] == 69u8,
        split_all(pending, chunks).1.len() > 0,
        split_all(pending, chunks).1[0] == 69u8,
    decreases chunks.len(),
{
    if chunks.len() > 0 {
        lemma_records_start_with_e(pending, chunks.drop_last());
        let (records, p) = split_all(pending, chunks.drop_last());
        let c = p + chunks.last();
        assert(c[0] == 69u8);
        if ends_with(c, seq![10u8, 69u8]) {
            assert(c.len() >= 2);
            assert(c.drop_last()[0] == 69u8);
            let r2 = records.push(c.drop_last());
            assert forall|i: int| 0 <= i < r2.len() implies (#[trigger] r2[i]).len() > 0 && r2[i][0] == 69u8 by {
                if i < records.len() {
                    assert(r2[i] == records[i]);
                }
            }
        }
    }
}

/// The header and the records read after it are the input: the header
/// ends where the input read so far ends with a line feed and an `E`,
/// without that `E`; the records are then split starting from that `E`,
/// and the header, the records and what is left after them, one after
/// the other, are the whole input. Each record, and what is left, starts
/// with `E`.
pub proof fn law_header_and_records_cover_input(head: Seq<u8>, chunks: Seq<Seq<u8>>)
    requires
        ends_with(head, seq![10u8, 69u8]),
    ensures
        head.drop_last() + concat(split_all(seq![69u8], chunks).0) + split_all(seq![69u8], chunks).1 == head
            + concat(chunks),
        forall|i: int| 0 <= i < split_all(seq![69u8], chunks).0.len() ==> (#[trigger] split_all(seq![69u8], chunks).0[i])[0]
            == 69u8,
        split_all(seq![69u8], chunks).1[0] == 69u8,
{
    law_records_cover_input(seq![69u8], chunks);
    lemma_records_start_with_e(seq![69u8], chunks);
    let rs = split_all(seq![69u8], chunks);
    assert(head.len() >= 2);
    assert(head.subrange(head.len() - 2, head.len() as int) == seq![10u8, 69u8]);
    assert(head[head.len() - 1] == 69u8);
    assert(head.drop_last() + seq![69u8] =~= head);
    assert(head.drop_last() + concat(rs.0) + rs.1 =~= head.drop_last() + (concat(rs.0) + rs.1));
    assert(head + concat(chunks) =~= head.drop_last() + (seq![69u8] + concat(chunks)));
}

/// `s` has a line after its first that starts with `E`: a line feed
/// followed by an `E`.
pub open spec fn has_inner_e_line(s: Seq<u8>) -> bool {
    exists|k: int| 0 <= k && k + 1 < s.len() && s[k] == 10u8 && #[trigger] s[k + 1] == 69u8
}

/// A chunk as `BufRead::read_until(b'E', ..)` appends it: no `E` but
/// possibly at its end.
pub open spec fn is_until_e_chunk(c: Seq<u8>) -> bool {
    forall|k: int| 0 <= k < c.len() - 1 ==> #[trigger] c[k] != 69u8
}

/// One step of splitting keeps lines that start with `E` out of the
/// records and of what is left.
proof fn lemma_step_one_event(p: Seq<u8>, c: Seq<u8>)
    requires
        !has_inner_e_line(p),
        is_until_e_chunk(c),
    ensures
        !has_inner_e_line(split_step(p, c).1),
        split_step(p, c).0 matches Some(x) ==> !has_inner_e_line(x),
{
    let t = p + c;
    assert forall|k: int| 0 <= k && k + 1 < t.len() && t[k] == 10u8 && #[trigger] t[k + 1] == 69u8 implies k + 1
        == t.len() - 1 by {
        if k + 1 < p.len() {
            assert(p[k] == 10u8 && p[k + 1] == 69u8);
            assert(has_inner_e_line(p));
        } else {
            assert(c[k + 1 - p.len()] == 69u8);
        }
    }
    if ends_with(t, seq![10u8, 69u8]) {
        let x = t.drop_last();
        assert forall|k: int| 0 <= k && k + 1 < x.len() && x[k] == 10u8 implies #[trigger] x[k + 1] != 69u8 by {
            assert(x[k] == t[k] && x[k + 1] == t[k + 1]);
        }
        let e: Seq<u8> = seq![69u8];
        assert(!has_inner_e_line(e));
    } else {
        assert forall|k: int| 0 <= k && k + 1 < t.len() && t[k] == 10u8 implies #[trigger] t[k + 1] != 69u8 by {
            if t[k + 1] == 69u8 {
                assert(t.subrange(t.len() - 2, t.len() as int) =~= seq![10u8, 69u8]);
            }
        }
    }
}

/// Splitting chunks keeps lines that start with `E` out of the records and
/// of what is left, if the pending text has none.
proof fn lemma_records_one_event(pending: Seq<u8>, chunks: Seq<Seq<u8>>)
    requires
        !has_inner_e_line(pending),
        forall|i: int| 0 <= i < chunks.len() ==> is_until_e_chunk(#[trigger] chunks[i]),
    ensures
        forall|i: int| 0 <= i < split_all(pending, chunks).0.len() ==> !has_inner_e_line(
            #[trigger] split_all(pending, chunks).0[i],
        ),
        !has_inner_e_line(split_all(pending, chunks).1),
    decreases chunks.len(),
{
    if chunks.len() > 0 {
        let pc = chunks.drop_last();
        assert forall|i: int| 0 <= i < pc.len() implies is_until_e_chunk(#[trigger] pc[i]) by {
            assert(pc[i] == chunks[i]);
        }
        lemma_records_one_event(pending, pc);
        let (records, p) = split_all(pending, pc);
        assert(is_until_e_chunk(chunks[chunks.len() - 1]));
        lemma_step_one_event(p, chunks.last());
        let rs = split_all(pending, chunks).0;
        assert forall|i: int| 0 <= i < rs.len() implies !has_inner_e_line(#[trigger] rs[i]) by {
            if i < records.len() {
                assert(rs[i] == records[i]);
            }
        }
    }
}

/// Each record holds one event: where the input comes in the chunks that
/// `BufRead::read_until(b'E', ..)` appends, no record, and not what is
/// left at the end (the last record), has a line after its first that
/// starts with `E`.
pub proof fn law_records_hold_one_event(chunks: Seq<Seq<u8>>)
    requires
        forall|i: int| 0 <= i < chunks.len() ==> is_until_e_chunk(#[trigger] chunks[i]),
    ensures
        forall|i: int| 0 <= i < split_all(seq![69u8], chunks).0.len() ==> !has_inner_e_line(
            #[trigger] split_all(seq![69u8], chunks).0[i],
        ),
        !has_inner_e_line(split_all(seq![69u8], chunks).1),
{
    let e: Seq<u8> = seq![69u8];
    assert(!has_inner_e_line(e));
    lemma_records_one_event(e, chunks);
}

/// Splits HepMC2 input into event records. The input comes in the chunks
/// that `BufRead::read_until(b'E', ..)` appends, and an empty chunk marks its
/// end. A record runs from an `E` up to the next `E` that starts a line;
/// the `E` that starts the first record was read with the header.
pub struct RecordSplitter {
    record: Vec<u8>,
}

impl RecordSplitter {
    /// The input read since the last record, after the `E` that starts the
    /// next one.
    pub closed spec fn pending(&self) -> Seq<u8> {
        self.record@
    }

    /// Nothing read yet.
    pub fn new() -> (r: Self)
        ensures
            r.pending() == seq![69u8],
    {
        RecordSplitter { record: vec![69u8] }
    }

    /// Take in the next chunk of input. A record ends where the input read
    /// so far ends with a line feed and an `E`; that `E` starts the next
    /// record. At the end of the input what is left is the last record,
    /// unless it is only the `E`.
    pub fn step(&mut self, chunk: &[u8]) -> (r: SplitStep)
        ensures
            chunk.len() == 0 ==> final(self).pending() == seq![69u8] && if old(self).pending().len()
                > 1 {
                r matches SplitStep::Record(v) && v@ == old(self).pending()
            } else {
                r is End
            },
            chunk.len() > 0 ==> final(self).pending() == split_step(old(self).pending(), chunk@).1,
            chunk.len() > 0 ==> match split_step(old(self).pending(), chunk@).0 {
                Some(x) => r matches SplitStep::Record(v) && v@ == x,
                None => r is Continue,
            },
    {
        if chunk.len() == 0 {
            let mut done: Vec<u8> = vec![69u8];
            std::mem::swap(&mut done, &mut self.record);
            if done.len() > 1 {
                return SplitStep::Record(done);
            } else {
                return SplitStep::End;
            }
        }
        push_all(&mut self.record, chunk);
        let end: [u8; 2] = [10u8, 69u8];
        if bytes_end_with(self.record.as_slice(), &end) {
            let mut done: Vec<u8> = vec![69u8];
            std::mem::swap(&mut done, &mut self.record);
            done.pop();
            SplitStep::Record(done)
        } else {
            SplitStep::Continue
        }
    }
}

/// `s` without its last byte, if it has one.
pub open spec fn drop_last_byte(s: Seq<u8>) -> Seq<u8> {
    if s.len() == 0 {
        s
    } else {
        s.drop_last()
    }
}

/// Splits off the header of HepMC2 input: everything before the `E` that
/// starts the first event record, or all of the input but its last byte if
/// no record starts.
pub struct HeaderSplitter {
    header: Vec<u8>,
}

impl HeaderSplitter {
    /// The input read so far.
    pub closed spec fn pending(&self) -> Seq<u8> {
        self.header@
    }

    /// Nothing read yet.
    pub fn new() -> (r: Self)
        ensures
            r.pending() == Seq::<u8>::empty(),
    {
        HeaderSplitter { header: Vec::new() }
    }

    /// Take in the next chunk of input from `read_until(b'E', ..)`; an
    /// empty chunk marks the end of the input. The header is done once the
    /// input read ends with a line feed and an `E`, or at the end of the
    /// input; its last byte is dropped either way.
    pub fn step(&mut self, chunk: &[u8]) -> (r: HeaderStep)
        ensures
            chunk.len() == 0 ==> (r matches HeaderStep::Done(h) && h@ == drop_last_byte(
                old(self).pending(),
            )),
            chunk.len() > 0 && ends_with(old(self).pending() + chunk@, seq![10u8, 69u8]) ==> (
            r matches HeaderStep::Done(h) && h@ == (old(self).pending() + chunk@).drop_last()),
            chunk.len() > 0 && !ends_with(old(self).pending() + chunk@, seq![10u8, 69u8]) ==> r is Continue
                && final(self).pending() == old(self).pending() + chunk@,
    {
        if chunk.len() > 0 {
            push_all(&mut self.header, chunk);
            let end: [u8; 2] = [10u8, 69u8];
            if !bytes_end_with(self.header.as_slice(), &end) {
                return HeaderStep::Continue;
            }
        }
        let mut done: Vec<u8> = Vec::new();
        std::mem::swap(&mut done, &mut self.header);
        done.pop();
        HeaderStep::Done(done)
    }
}

} // verus!
