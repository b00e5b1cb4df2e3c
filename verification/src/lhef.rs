//! Les Houches Event File records.
//!
//! A record is an `<event>` block. After leading white space comes the
//! opening tag line; the next line lists the number of particles (NUP), the
//! process id (IDRUP) and the event weight (XWGTUP), followed by further
//! entries. Each of the following NUP lines describes a particle: its id
//! (IDUP), status (ISTUP), two mother and two colour entries, momentum,
//! energy and more. Only outgoing particles (status 1) are kept.
//!
//! Particle lines are read within the record: no field, blank run or number
//! extends over a line feed or a carriage return, so reading a line inside
//! the record is reading the line on its own.
use vstd::prelude::*;

use crate::hepmc2::{push_opt, span, spec_replace_entry, update_central_weight, ParticleLine};
use crate::io::{concat, Entry, HeaderStep, ReadError, Span, SplitStep};
use crate::text::{
    any_entry, any_entry0, blanks_end, bytes_end_with, ends_with, push_all, double_entry, find_byte, find_byte_from, float_at,
    i32_entry, i32_entry0, is_ascii_ws, is_blank, lemma_any_entry_bounds, lemma_any_entry_prefix,
    lemma_blanks_end_bounds, lemma_digits_end_bounds, lemma_field_end_bounds,
    lemma_field_end_of_digits, lemma_field_end_stops, lemma_find_byte_found,
    lemma_find_byte_prefix, lemma_float_at_bounds, lemma_float_at_embed, lemma_u32_entry0_prefix,
    lemma_ws_run_end_ge, lemma_ws_run_end_prefix, parse_any_entry, parse_any_entry0,
    parse_double_entry, parse_i32_entry, parse_i32_entry0, parse_skip_entries, parse_u32_entry0,
    skip_entries, skip_ws, u32_entry0, ws_run_end,
};

verus! {

/// What an event record holds: where the event weight stands and the
/// outgoing particles in record order.
#[derive(Debug)]
pub struct LHEFEvent {
    pub weight: Span,
    pub particles: Vec<ParticleLine>,
}

/// The number of particles (NUP) of a record, if the line that lists it
/// can be found and starts with a number.
pub open spec fn spec_lhef_nup(s: Seq<u8>) -> Option<u32> {
    match find_byte(s, ws_run_end(s, 0), 10u8) {
        None => None,
        Some(n) => match u32_entry0(s, n + 1) {
            None => None,
            Some((_, nup)) => Some(nup),
        },
    }
}

/// The start of a record: where the event weight stands and the number of
/// particle lines.
pub open spec fn spec_lhef_head(s: Seq<u8>) -> Result<(int, int, u32), ReadError> {
    let t0 = ws_run_end(s, 0);
    match find_byte(s, t0, 10u8) {
        None => Err(ReadError::FindEntry(Entry::LineBreak, t0 as usize)),
        Some(n) => match u32_entry0(s, n + 1) {
            None => Err(ReadError::ParseEntry(Entry::Nup, (n + 1) as usize)),
            Some((e1, nup)) => match any_entry(s, e1) {
                None => Err(ReadError::ParseEntry(Entry::Idrup, e1 as usize)),
                Some((_, e2)) => match double_entry(s, e2) {
                    None => Err(ReadError::ParseEntry(Entry::Xwgtup, e2 as usize)),
                    Some((a, b)) => Ok((a, b, nup)),
                },
            },
        },
    }
}

/// The particle line starting at `l`: the particle if it is outgoing.
/// A missing `pz` entry is reported as a `py` entry.
#[verifier::opaque]
pub open spec fn spec_lhef_particle(s: Seq<u8>, l: int) -> Result<Option<ParticleLine>, ReadError> {
    match i32_entry0(s, l) {
        None => Err(ReadError::ParseEntry(Entry::Idup, l as usize)),
        Some((i1, id)) => match i32_entry(s, i1) {
            None => Err(ReadError::ParseEntry(Entry::Istup, i1 as usize)),
            Some((i2, status)) => if status != 1 {
                Ok(None)
            } else {
                match skip_entries(s, i2, 4) {
                    None => Err(ReadError::ParseEntry(Entry::EntriesBeforeMomentum, i2 as usize)),
                    Some(x) => match double_entry(s, x) {
                        None => Err(ReadError::ParseEntry(Entry::Px, x as usize)),
                        Some((x0, x1)) => match double_entry(s, x1) {
                            None => Err(ReadError::ParseEntry(Entry::Py, x1 as usize)),
                            Some((y0, y1)) => match double_entry(s, y1) {
                                None => Err(ReadError::ParseEntry(Entry::Py, y1 as usize)),
                                Some((z0, z1)) => match double_entry(s, z1) {
                                    None => Err(ReadError::ParseEntry(Entry::Energy, z1 as usize)),
                                    Some((e0, e1)) => Ok(
                                        Some(
                                            ParticleLine {
                                                id,
                                                px: span(x0, x1),
                                                py: span(y0, y1),
                                                pz: span(z0, z1),
                                                e: span(e0, e1),
                                            },
                                        ),
                                    ),
                                },
                            },
                        },
                    },
                }
            },
        },
    }
}

/// At most `k` particle lines, the first starting at `l`; a line exists
/// where some byte is left.
pub open spec fn spec_lhef_lines(s: Seq<u8>, l: int, k: nat, parts: Seq<ParticleLine>) -> Result<
    Seq<ParticleLine>,
    ReadError,
>
    decreases k,
{
    if k == 0 || !(0 <= l < s.len()) {
        Ok(parts)
    } else {
        match spec_lhef_particle(s, l) {
            Err(e) => Err(e),
            Ok(p) => match find_byte(s, l, 10u8) {
                None => Ok(push_opt(parts, p)),
                Some(n) => spec_lhef_lines(s, n + 1, (k - 1) as nat, push_opt(parts, p)),
            },
        }
    }
}

/// What a Les Houches event record holds, or why it cannot be read: the
/// event weight and the outgoing particles among the NUP lines that follow
/// the line of the weight.
pub open spec fn spec_parse_lhef(s: Seq<u8>) -> Result<(Span, Seq<ParticleLine>), ReadError> {
    match spec_lhef_head(s) {
        Err(e) => Err(e),
        Ok((a, b, nup)) => match find_byte(s, b, 10u8) {
            None => Ok((span(a, b), Seq::empty())),
            Some(n) => match spec_lhef_lines(s, n + 1, nup as nat, Seq::empty()) {
                Err(e) => Err(e),
                Ok(parts) => Ok((span(a, b), parts)),
            },
        },
    }
}

/// The first two numbers of the particle line starting at `l`: its id
/// (IDUP) and its status (ISTUP).
pub open spec fn lhef_id_status(s: Seq<u8>, l: int) -> Option<(i32, i32)> {
    match i32_entry0(s, l) {
        None => None,
        Some((i1, id)) => match i32_entry(s, i1) {
            None => None,
            Some((_, status)) => Some((id, status)),
        },
    }
}

/// Only outgoing particles are kept: a particle line gives a particle
/// exactly when its status reads 1, and the particle has the id of the
/// line; a line with another status gives none.
pub proof fn law_lhef_keeps_outgoing(s: Seq<u8>, l: int)
    ensures
        spec_lhef_particle(s, l) matches Ok(Some(p)) ==> lhef_id_status(s, l) == Some((p.id, 1i32)),
        spec_lhef_particle(s, l) matches Ok(None) ==> lhef_id_status(s, l) matches Some((_, st)) && st
            != 1,
        lhef_id_status(s, l) matches Some((_, st)) && st != 1 ==> spec_lhef_particle(s, l) == Ok::<
            Option<ParticleLine>,
            ReadError,
        >(None),
{
    reveal(spec_lhef_particle);
}

/// Each of the particles stands on a line of `s`, right after a line feed,
/// whose id is its id and whose status reads 1.
pub open spec fn from_outgoing_lines(s: Seq<u8>, parts: Seq<ParticleLine>) -> bool {
    forall|k: int|
        #![trigger parts[k]]
        0 <= k < parts.len() ==> exists|l: int|
            0 < l <= s.len() && s[l - 1] == 10u8 && #[trigger] lhef_id_status(s, l) == Some(
                (parts[k].id, 1i32),
            )
}

proof fn lemma_lhef_lines_outgoing(s: Seq<u8>, l: int, k: nat, parts: Seq<ParticleLine>)
    requires
        0 < l <= s.len(),
        s[l - 1] == 10u8,
        from_outgoing_lines(s, parts),
    ensures
        spec_lhef_lines(s, l, k, parts) matches Ok(res) ==> from_outgoing_lines(s, res),
    decreases k,
{
    if k > 0 && 0 <= l < s.len() {
        law_lhef_keeps_outgoing(s, l);
        match spec_lhef_particle(s, l) {
            Err(_) => {},
            Ok(p) => {
                let next = push_opt(parts, p);
                assert(from_outgoing_lines(s, next)) by {
                    assert forall|j: int| #![trigger next[j]] 0 <= j < next.len() implies exists|m: int|
                        0 < m <= s.len() && s[m - 1] == 10u8 && #[trigger] lhef_id_status(s, m)
                            == Some((next[j].id, 1i32)) by {
                        if j < parts.len() {
                            assert(next[j] == parts[j]);
                        } else {
                            assert(lhef_id_status(s, l) == Some((next[j].id, 1i32)));
                        }
                    }
                }
                lemma_find_byte_found(s, l, 10u8);
                match find_byte(s, l, 10u8) {
                    None => {},
                    Some(n) => {
                        if n + 1 <= s.len() {
                            lemma_lhef_lines_outgoing(s, n + 1, (k - 1) as nat, next);
                        }
                    },
                }
            },
        }
    }
}

/// Only outgoing particles are read from a record: each particle of the
/// record stands on a line whose status reads 1 and whose id is its id.
pub proof fn law_lhef_particles_outgoing(s: Seq<u8>)
    ensures
        spec_parse_lhef(s) matches Ok((_, parts)) ==> from_outgoing_lines(s, parts),
{
    match spec_lhef_head(s) {
        Err(_) => {},
        Ok((a, b, nup)) => {
            if b >= 0 {
                lemma_find_byte_found(s, b, 10u8);
            }
            match find_byte(s, b, 10u8) {
                None => {},
                Some(n) => {
                    lemma_lhef_lines_outgoing(s, n + 1, nup as nat, Seq::empty());
                },
            }
        },
    }
}

/// The start of the line `j` lines after the line starting at `l`, if
/// there are that many line feeds.
pub open spec fn line_after(s: Seq<u8>, l: int, j: nat) -> Option<int>
    decreases j,
{
    if j == 0 {
        Some(l)
    } else {
        match find_byte(s, l, 10u8) {
            None => None,
            Some(n) => line_after(s, n + 1, (j - 1) as nat),
        }
    }
}

/// Reading particle lines only adds particles after those already read.
proof fn lemma_lhef_lines_prefix(s: Seq<u8>, l: int, k: nat, parts: Seq<ParticleLine>)
    ensures
        spec_lhef_lines(s, l, k, parts) matches Ok(res) ==> parts.len() <= res.len() && forall|i: int|
            0 <= i < parts.len() ==> #[trigger] res[i] == parts[i],
    decreases k,
{
    if k > 0 && 0 <= l < s.len() {
        if let Ok(p) = spec_lhef_particle(s, l) {
            let next = push_opt(parts, p);
            assert forall|i: int| 0 <= i < parts.len() implies next[i] == parts[i] by {}
            if let Some(n) = find_byte(s, l, 10u8) {
                lemma_lhef_lines_prefix(s, n + 1, (k - 1) as nat, next);
            }
        }
    }
}

proof fn lemma_lhef_lines_complete(s: Seq<u8>, l: int, k: nat, parts: Seq<ParticleLine>, j: nat, m: int)
    requires
        j < k,
        line_after(s, l, j) == Some(m),
        0 <= m < s.len(),
        lhef_id_status(s, m) matches Some((_, st)) && st == 1,
    ensures
        spec_lhef_lines(s, l, k, parts) matches Ok(res) ==> exists|i: int|
            0 <= i < res.len() && spec_lhef_particle(s, m) == Ok::<Option<ParticleLine>, ReadError>(
                Some(res[i]),
            ),
    decreases j,
{
    law_lhef_keeps_outgoing(s, l);
    if j == 0 {
        if let Ok(Some(x)) = spec_lhef_particle(s, l) {
            let next = parts.push(x);
            if let Some(n) = find_byte(s, l, 10u8) {
                lemma_lhef_lines_prefix(s, n + 1, (k - 1) as nat, next);
            }
            if let Ok(res) = spec_lhef_lines(s, l, k, parts) {
                assert(res[parts.len() as int] == x);
            }
        }
    } else {
        if 0 <= l < s.len() {
            if let Ok(p) = spec_lhef_particle(s, l) {
                if let Some(n) = find_byte(s, l, 10u8) {
                    lemma_lhef_lines_complete(s, n + 1, (k - 1) as nat, push_opt(parts, p), (j - 1) as nat, m);
                }
            }
        } else {
            if l >= 0 {
                lemma_find_byte_found(s, l, 10u8);
            }
            assert(find_byte(s, l, 10u8) is None);
        }
    }
}

/// Every outgoing particle among the NUP particle lines is read: the
/// particle line `j` lines after the first (which follows the line of the
/// event weight), with `j` below NUP, gives a particle of the record when
/// its status reads 1.
pub proof fn law_lhef_reads_every_outgoing(s: Seq<u8>, j: nat, m: int)
    requires
        spec_lhef_head(s) matches Ok((_, b, nup)) && j < nup && (find_byte(s, b, 10u8) matches Some(n)
            && line_after(s, n + 1, j) == Some(m)),
        0 <= m < s.len(),
        lhef_id_status(s, m) matches Some((_, st)) && st == 1,
    ensures
        spec_parse_lhef(s) matches Ok((_, parts)) ==> exists|i: int|
            0 <= i < parts.len() && parts[i].id == (lhef_id_status(s, m)->0).0 && spec_lhef_particle(s, m)
                == Ok::<Option<ParticleLine>, ReadError>(Some(parts[i])),
{
    law_lhef_keeps_outgoing(s, m);
    let (a, b, nup) = spec_lhef_head(s)->Ok_0;
    let n = find_byte(s, b, 10u8)->0;
    lemma_lhef_lines_complete(s, n + 1, nup as nat, Seq::empty(), j, m);
    if let Ok((_, parts)) = spec_parse_lhef(s) {
        assert(spec_lhef_lines(s, n + 1, nup as nat, Seq::empty()) == Ok::<Seq<ParticleLine>, ReadError>(parts));
        let i = choose|i: int|
            0 <= i < parts.len() && spec_lhef_particle(s, m) == Ok::<Option<ParticleLine>, ReadError>(
                Some(parts[i]),
            );
        assert(lhef_id_status(s, m) == Some((parts[i].id, 1i32)));
    }
}

/// The number of particles a record announces, as `parse_lhef` reads it
/// before anything else.
pub fn lhef_nup(record: &[u8]) -> (r: Option<u32>)
    ensures
        r == spec_lhef_nup(record@),
{
    let t0 = skip_ws(record, 0);
    match find_byte_from(record, t0, 10u8) {
        None => None,
        Some(n) => match parse_u32_entry0(record, n + 1) {
            None => None,
            Some((_, nup)) => Some(nup),
        },
    }
}

/// Read the start of a record: the event weight's place and the number of
/// particle lines.
pub fn parse_lhef_head(record: &[u8]) -> (r: Result<(usize, usize, u32), ReadError>)
    ensures
        match r {
            Ok((a, b, nup)) => spec_lhef_head(record@) == Ok::<(int, int, u32), ReadError>(
                (a as int, b as int, nup),
            ) && a < b <= record.len(),
            Err(e) => spec_lhef_head(record@) == Err::<(int, int, u32), ReadError>(e),
        },
{
    let t0 = skip_ws(record, 0);
    let n = match find_byte_from(record, t0, 10u8) {
        None => return Err(ReadError::FindEntry(Entry::LineBreak, t0)),
        Some(n) => n,
    };
    let (e1, nup) = match parse_u32_entry0(record, n + 1) {
        None => return Err(ReadError::ParseEntry(Entry::Nup, n + 1)),
        Some(x) => x,
    };
    let e2 = match parse_any_entry(record, e1) {
        None => return Err(ReadError::ParseEntry(Entry::Idrup, e1)),
        Some((_, e2)) => e2,
    };
    match parse_double_entry(record, e2) {
        None => Err(ReadError::ParseEntry(Entry::Xwgtup, e2)),
        Some((a, b)) => Ok((a, b, nup)),
    }
}

/// Read the particle line starting at `l`.
pub fn parse_lhef_particle(record: &[u8], l: usize) -> (r: Result<Option<ParticleLine>, ReadError>)
    requires
        l <= record.len(),
    ensures
        r == spec_lhef_particle(record@, l as int),
{
    reveal(spec_lhef_particle);
    let s = record;
    let (i1, id) = match parse_i32_entry0(s, l) {
        None => return Err(ReadError::ParseEntry(Entry::Idup, l)),
        Some(x) => x,
    };
    let (i2, status) = match parse_i32_entry(s, i1) {
        None => return Err(ReadError::ParseEntry(Entry::Istup, i1)),
        Some(x) => x,
    };
    if status != 1 {
        return Ok(None);
    }
    let x = match parse_skip_entries(s, i2, 4) {
        None => return Err(ReadError::ParseEntry(Entry::EntriesBeforeMomentum, i2)),
        Some(x) => x,
    };
    let (x0, x1) = match parse_double_entry(s, x) {
        None => return Err(ReadError::ParseEntry(Entry::Px, x)),
        Some(v) => v,
    };
    let (y0, y1) = match parse_double_entry(s, x1) {
        None => return Err(ReadError::ParseEntry(Entry::Py, x1)),
        Some(v) => v,
    };
    let (z0, z1) = match parse_double_entry(s, y1) {
        None => return Err(ReadError::ParseEntry(Entry::Py, y1)),
        Some(v) => v,
    };
    let (e0, e1) = match parse_double_entry(s, z1) {
        None => return Err(ReadError::ParseEntry(Entry::Energy, z1)),
        Some(v) => v,
    };
    Ok(
        Some(
            ParticleLine {
                id,
                px: Span { start: x0, end: x1 },
                py: Span { start: y0, end: y1 },
                pz: Span { start: z0, end: z1 },
                e: Span { start: e0, end: e1 },
            },
        ),
    )
}

/// Read a Les Houches event record: the event weight and the outgoing
/// particles.
pub fn parse_lhef(record: &[u8]) -> (r: Result<LHEFEvent, ReadError>)
    requires
        spec_lhef_nup(record@) matches Some(n) ==> n >= 2,
    ensures
        match r {
            Ok(ev) => spec_parse_lhef(record@) == Ok::<(Span, Seq<ParticleLine>), ReadError>(
                (ev.weight, ev.particles@),
            ),
            Err(e) => spec_parse_lhef(record@) == Err::<(Span, Seq<ParticleLine>), ReadError>(e),
        },
{
    let s = record;
    let (a, b, nup) = match parse_lhef_head(s) {
        Err(e) => return Err(e),
        Ok(x) => x,
    };
    let weight = Span { start: a, end: b };
    let mut parts: Vec<ParticleLine> = Vec::new();
    let n = match find_byte_from(s, b, 10u8) {
        None => return Ok(LHEFEvent { weight, particles: parts }),
        Some(n) => n,
    };
    let mut l = n + 1;
    let mut k: u32 = nup;
    loop
        invariant_except_break
            spec_lhef_lines(s@, n + 1, nup as nat, Seq::empty()) == spec_lhef_lines(
                s@,
                l as int,
                k as nat,
                parts@,
            ),
        invariant
            l <= s.len(),
            s@ == record@,
            spec_lhef_head(s@) == Ok::<(int, int, u32), ReadError>((a as int, b as int, nup)),
            find_byte(s@, b as int, 10u8) == Some(n as int),
        ensures
            spec_lhef_lines(s@, n + 1, nup as nat, Seq::empty()) == Ok::<
                Seq<ParticleLine>,
                ReadError,
            >(parts@),
        decreases k,
    {
        if k == 0 || l >= s.len() {
            break ;
        }
        let p = match parse_lhef_particle(s, l) {
            Err(e) => return Err(e),
            Ok(p) => p,
        };
        match p {
            Some(x) => parts.push(x),
            None => {},
        }
        match find_byte_from(s, l, 10u8) {
            None => break ,
            Some(m) => {
                l = m + 1;
                k = k - 1;
            },
        }
    }
    Ok(LHEFEvent { weight, particles: parts })
}

/// Position after the entries that precede the event weight: after the
/// opening line, the NUP and IDRUP entries.
pub open spec fn spec_lhef_non_weight_entries(s: Seq<u8>) -> Option<int> {
    let n = find_byte(s, ws_run_end(s, 0), 10u8)->0;
    match any_entry0(s, n + 1) {
        None => None,
        Some((_, e1)) => match any_entry(s, e1) {
            None => None,
            Some((_, e2)) => Some(e2),
        },
    }
}

/// The record with its event weight replaced by the text `w`.
pub open spec fn spec_lhef_update_weight(s: Seq<u8>, w: Seq<u8>) -> Result<Seq<u8>, ReadError> {
    match spec_lhef_non_weight_entries(s) {
        None => Err(ReadError::ParseEntry(Entry::EntriesBeforeWeight, 0)),
        Some(p) => spec_replace_entry(s, p, w),
    }
}

/// Position after the entries that precede the event weight.
pub fn lhef_non_weight_entries(record: &[u8]) -> (r: Option<usize>)
    requires
        find_byte(record@, ws_run_end(record@, 0), 10u8) is Some,
    ensures
        match r {
            Some(p) => spec_lhef_non_weight_entries(record@) == Some(p as int) && p <= record.len(),
            None => spec_lhef_non_weight_entries(record@) is None,
        },
{
    let t0 = skip_ws(record, 0);
    let n = match find_byte_from(record, t0, 10u8) {
        Some(n) => n,
        None => return None,
    };
    match parse_any_entry0(record, n + 1) {
        None => None,
        Some((_, e1)) => match parse_any_entry(record, e1) {
            None => None,
            Some((_, e2)) => Some(e2),
        },
    }
}

/// Replace the event weight of a Les Houches event record by the text
/// `weight`. On failure the record is left as it was.
pub fn update_weight(record: &mut Vec<u8>, weight: &[u8]) -> (r: Result<(), ReadError>)
    requires
        find_byte(old(record)@, ws_run_end(old(record)@, 0), 10u8) is Some,
    ensures
        match spec_lhef_update_weight(old(record)@, weight@) {
            Ok(t) => r is Ok && final(record)@ == t,
            Err(e) => r == Err::<(), ReadError>(e) && final(record)@ == old(record)@,
        },
{
    let p = match lhef_non_weight_entries(record.as_slice()) {
        None => return Err(ReadError::ParseEntry(Entry::EntriesBeforeWeight, 0)),
        Some(p) => p,
    };
    update_central_weight(record, p, weight)
}

/// A weight written into a record is the weight read back from it: when
/// the event weight of a record whose start can be read is replaced by the
/// text of one number, the event weight read from the new record is exactly
/// that text, and the number of particle lines stays the same.
pub proof fn law_lhef_weight_read_back(s: Seq<u8>, w: Seq<u8>)
    requires
        spec_lhef_head(s) is Ok,
        float_at(w, 0) == Some(w.len() as int),
    ensures
        spec_lhef_update_weight(s, w) matches Ok(t) && (spec_lhef_head(t) matches Ok((a, b, nup))
            && (t.subrange(a, b) == w && (spec_lhef_head(s) matches Ok((_, _, n0)) && nup == n0))),
{
    let t0 = ws_run_end(s, 0);
    lemma_ws_run_end_ge(s, 0);
    lemma_find_byte_found(s, t0, 10u8);
    let n = find_byte(s, t0, 10u8)->0;
    let j = blanks_end(s, n + 1);
    lemma_blanks_end_bounds(s, n + 1);
    lemma_digits_end_bounds(s, j);
    let (e1, nup) = u32_entry0(s, n + 1)->0;
    lemma_any_entry_bounds(s, e1);
    let (_, e2) = any_entry(s, e1)->0;
    let (a, b) = double_entry(s, e2)->0;
    lemma_blanks_end_bounds(s, e2);
    // NUP is a digit run followed by a blank, so it is also a whole field
    assert(is_blank(s[e1]));
    lemma_field_end_of_digits(s, j);
    assert(any_entry0(s, n + 1) == Some((j, e1)));
    assert(spec_lhef_non_weight_entries(s) == Some(e2));
    // the weight is a field after the blanks that follow IDRUP
    lemma_float_at_bounds(s, a);
    assert(!is_ascii_ws(s[a]));
    lemma_field_end_bounds(s, a + 1);
    lemma_any_entry_bounds(s, e2);
    let (_, e) = any_entry(s, e2)->0;
    let t = s.subrange(0, e2 + 1) + w + s.subrange(e, s.len() as int);
    assert(spec_lhef_update_weight(s, w) == Ok::<Seq<u8>, ReadError>(t));
    // everything up to and including the blank at `e2` is unchanged
    assert forall|k: int| 0 <= k <= e2 implies s[k] == t[k] by {}
    assert(s[t0] != 10u8);
    lemma_ws_run_end_prefix(s, t, 0, e2);
    lemma_find_byte_prefix(s, t, t0, 10u8, e2);
    lemma_u32_entry0_prefix(s, t, n + 1, e2);
    lemma_any_entry_prefix(s, t, e1, e2);
    // the number written starts right after that blank
    assert(is_blank(s[e2]));
    assert(w.len() > 0);
    assert(t[e2 + 1] == w[0]);
    assert(!is_blank(w[0]));
    assert(blanks_end(t, e2 + 1) == e2 + 1);
    assert(blanks_end(t, e2) == e2 + 1);
    lemma_field_end_stops(s, a);
    if e < s.len() {
        assert(t[e2 + 1 + w.len()] == s[e]);
    }
    assert forall|k: int| 0 <= k < w.len() implies t[e2 + 1 + k] == w[k] by {}
    lemma_float_at_embed(w, t, e2 + 1);
    assert(double_entry(t, e2) == Some((e2 + 1, e2 + 1 + w.len())));
    assert(t.subrange(e2 + 1, e2 + 1 + w.len()) == w);
}

/// `</event>`, the end of an event record.
pub open spec fn event_end() -> Seq<u8> {
    seq![60u8, 47u8, 101u8, 118u8, 101u8, 110u8, 116u8, 62u8]
}

/// A line feed and `</init>`, the end of the header.
pub open spec fn init_end() -> Seq<u8> {
    seq![10u8, 60u8, 47u8, 105u8, 110u8, 105u8, 116u8, 62u8]
}

/// One step of splitting Les Houches event input: the input read so far
/// and the next chunk give a record if they end with `</event>`.
pub open spec fn split_step(pending: Seq<u8>, chunk: Seq<u8>) -> (Option<Seq<u8>>, Seq<u8>) {
    let c = pending + chunk;
    if ends_with(c, event_end()) {
        (Some(c), Seq::empty())
    } else {
        (None, c)
    }
}

/// Splitting the chunks one after the other: the records and what is left.
pub open spec fn split_all(pending: Seq<u8>, chunks: Seq<Seq<u8>>) -> (Seq<Seq<u8>>, Seq<u8>)
    decreases chunks.len(),
{
    if chunks.len() == 0 {
        (Seq::empty(), pending)
    } else {
        let (records, p) = split_all(pending, chunks.drop_last());
        let (r, q) = split_step(p, chunks.last());
        (
            match r {
                Some(x) => records.push(x),
                None => records,
            },
            q,
        )
    }
}

/// Splitting input into records loses nothing and adds nothing: the
/// records, followed by what is left, are the input; and every record ends
/// with `</event>`.
pub proof fn law_records_cover_input(pending: Seq<u8>, chunks: Seq<Seq<u8>>)
    ensures
        concat(split_all(pending, chunks).0) + split_all(pending, chunks).1 == pending + concat(
            chunks,
        ),
        forall|i: int|
            0 <= i < split_all(pending, chunks).0.len() ==> ends_with(
                #[trigger] split_all(pending, chunks).0[i],
                event_end(),
            ),
    decreases chunks.len(),
{
    if chunks.len() > 0 {
        law_records_cover_input(pending, chunks.drop_last());
        let (records, p) = split_all(pending, chunks.drop_last());
        let c = p + chunks.last();
        if ends_with(c, event_end()) {
            assert(concat(records.push(c)) == concat(records) + c) by {
                assert(records.push(c).drop_last() == records);
            }
            assert(concat(records) + c + Seq::<u8>::empty() =~= concat(records) + c);
            assert forall|i: int| 0 <= i < records.push(c).len() implies ends_with(
                #[trigger] records.push(c)[i],
                event_end(),
            ) by {
                if i < records.len() {
                    assert(records.push(c)[i] == records[i]);
                }
            }
        }
        assert(concat(chunks) == concat(chunks.drop_last()) + chunks.last());
        assert(concat(records) + c =~= (concat(records) + p) + chunks.last());
        assert(pending + concat(chunks) =~= (pending + concat(chunks.drop_last())) + chunks.last());
    }
}

/// Splits Les Houches event input into event records. The input comes in
/// the chunks that `BufRead::read_until(b'>', ..)` appends, and an empty
/// chunk marks its end. A record ends with `</event>`; input left at the end
/// that does not is dropped.
pub struct RecordSplitter {
    record: Vec<u8>,
}

impl RecordSplitter {
    /// The input read since the last record.
    pub closed spec fn pending(&self) -> Seq<u8> {
        self.record@
    }

    /// Nothing read yet.
    pub fn new() -> (r: Self)
        ensures
            r.pending() == Seq::<u8>::empty(),
    {
        RecordSplitter { record: Vec::new() }
    }

    /// Take in the next chunk of input.
    pub fn step(&mut self, chunk: &[u8]) -> (r: SplitStep)
        ensures
            chunk.len() == 0 ==> r is End && final(self).pending() == Seq::<u8>::empty(),
            chunk.len() > 0 ==> final(self).pending() == split_step(old(self).pending(), chunk@).1,
            chunk.len() > 0 ==> match split_step(old(self).pending(), chunk@).0 {
                Some(x) => r matches SplitStep::Record(v) && v@ == x,
                None => r is Continue,
            },
    {
        let mut done: Vec<u8> = Vec::new();
        if chunk.len() == 0 {
            std::mem::swap(&mut done, &mut self.record);
            return SplitStep::End;
        }
        push_all(&mut self.record, chunk);
        let end: [u8; 8] = [60u8, 47u8, 101u8, 118u8, 101u8, 110u8, 116u8, 62u8];
        assert(end@ == event_end());
        if bytes_end_with(self.record.as_slice(), &end) {
            std::mem::swap(&mut done, &mut self.record);
            SplitStep::Record(done)
        } else {
            SplitStep::Continue
        }
    }
}

/// Splits off the header of Les Houches event input: everything up to and
/// including the line that ends with `</init>`, or all of the input.
pub struct HeaderSplitter {
    header: Vec<u8>,
}

impl HeaderSplitter {
    /// The input read so far.
    pub closed spec fn pending(&self) -> Seq<u8> {
        self.header@
    }

    /// Nothing read yet.
    pub fn new() -> (r: Self)
        ensures
            r.pending() == Seq::<u8>::empty(),
    {
        HeaderSplitter { header: Vec::new() }
    }

    /// Take in the next chunk of input from `read_until(b'>', ..)`; an
    /// empty chunk marks the end of the input.
    pub fn step(&mut self, chunk: &[u8]) -> (r: HeaderStep)
        ensures
            chunk.len() == 0 ==> (r matches HeaderStep::Done(h) && h@ == old(self).pending()),
            chunk.len() > 0 && ends_with(old(self).pending() + chunk@, init_end()) ==> (
            r matches HeaderStep::Done(h) && h@ == old(self).pending() + chunk@),
            chunk.len() > 0 && !ends_with(old(self).pending() + chunk@, init_end()) ==> r is Continue
                && final(self).pending() == old(self).pending() + chunk@,
    {
        if chunk.len() > 0 {
            push_all(&mut self.header, chunk);
            let end: [u8; 8] = [10u8, 60u8, 47u8, 105u8, 110u8, 105u8, 116u8, 62u8];
            assert(end@ == init_end());
            if !bytes_end_with(self.header.as_slice(), &end) {
                return HeaderStep::Continue;
            }
        }
        let mut done: Vec<u8> = Vec::new();
        std::mem::swap(&mut done, &mut self.header);
        HeaderStep::Done(done)
    }
}

} // verus!
