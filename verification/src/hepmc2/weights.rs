//! Records with several weights: all weights of the `E` line, the weight
//! names of the `N` line, and updating the weights chosen by name.
//!
//! Weight names are quoted strings after the number of names; the `n`-th
//! name belongs to the `n`-th weight.
use vstd::prelude::*;

use crate::hepmc2::{span, spec_non_weight_entries, non_weight_entries};
use crate::io::{Entry, ReadError, Span};
use crate::text::{
    blanks_end, bytes_eq, double_entry, field_end, find_byte, find_byte_from, is_ascii_ws,
    lemma_field_end_bounds, lemma_find_byte_found, parse_double_entry, parse_u32_entry, push_all,
    skip_blanks, skip_field, u32_entry,
};
use vstd::slice::slice_subrange;
use vstd::utf8::encode_utf8;

verus! {

/// `n` numbers in a row, each preceded by at least one blank, from `i` on.
pub open spec fn double_entries(s: Seq<u8>, i: int, n: nat, acc: Seq<Span>) -> Option<(int, Seq<Span>)>
    decreases n,
{
    if n == 0 {
        Some((i, acc))
    } else {
        match double_entry(s, i) {
            None => None,
            Some((a, b)) => double_entries(s, b, (n - 1) as nat, acc.push(span(a, b))),
        }
    }
}

/// Where all weights of an event record stand.
pub open spec fn spec_extract_weight_entries(s: Seq<u8>) -> Result<Seq<Span>, ReadError> {
    if s.len() == 0 || s[0] != 69u8 {
        Err(ReadError::UnrecognisedEntry(Entry::StartOfRecord, 0))
    } else {
        match spec_non_weight_entries(s) {
            None => Err(ReadError::ParseEntry(Entry::EntriesBeforeWeight, 0)),
            Some(p) => match u32_entry(s, p) {
                None => Err(ReadError::ParseEntry(Entry::NumberOfWeights, p as usize)),
                Some((q, n)) => match double_entries(s, q, n as nat, Seq::empty()) {
                    None => Err(ReadError::ParseEntry(Entry::EventWeights, q as usize)),
                    Some((_, w)) => Ok(w),
                },
            },
        }
    }
}

/// Where all weights of an event record stand, in record order.
pub fn extract_weight_entries(record: &[u8]) -> (r: Result<Vec<Span>, ReadError>)
    ensures
        match r {
            Ok(w) => spec_extract_weight_entries(record@) == Ok::<Seq<Span>, ReadError>(w@),
            Err(e) => spec_extract_weight_entries(record@) == Err::<Seq<Span>, ReadError>(e),
        },
{
    if record.len() == 0 || record[0] != 69u8 {
        return Err(ReadError::UnrecognisedEntry(Entry::StartOfRecord, 0));
    }
    let p = match non_weight_entries(record) {
        None => return Err(ReadError::ParseEntry(Entry::EntriesBeforeWeight, 0)),
        Some(p) => p,
    };
    let (q, n) = match parse_u32_entry(record, p) {
        None => return Err(ReadError::ParseEntry(Entry::NumberOfWeights, p)),
        Some(x) => x,
    };
    let mut pos = q;
    let mut k: u32 = 0;
    let mut w: Vec<Span> = Vec::new();
    while k < n
        invariant
            q <= pos <= record.len(),
            k <= n,
            record@[0] == 69u8,
            record@.len() > 0,
            spec_non_weight_entries(record@) == Some(p as int),
            u32_entry(record@, p as int) == Some((q as int, n)),
            double_entries(record@, q as int, n as nat, Seq::empty()) == double_entries(
                record@,
                pos as int,
                (n - k) as nat,
                w@,
            ),
        decreases n - k,
    {
        match parse_double_entry(record, pos) {
            None => return Err(ReadError::ParseEntry(Entry::EventWeights, q)),
            Some((a, b)) => {
                w.push(Span { start: a, end: b });
                pos = b;
            },
        }
        k = k + 1;
    }
    Ok(w)
}

/// A quoted name preceded by at least one blank: where its text starts and
/// ends; the closing quote follows the text.
pub open spec fn string_entry(s: Seq<u8>, i: int) -> Option<(int, int)> {
    let j = blanks_end(s, i);
    if j == i || !(0 <= j < s.len() && s[j] == 34u8) {
        None
    } else {
        match find_byte(s, j + 1, 34u8) {
            None => None,
            Some(k) => Some((j + 1, k)),
        }
    }
}

/// Read a quoted name preceded by at least one blank.
pub fn parse_string_entry(s: &[u8], i: usize) -> (r: Option<(usize, usize)>)
    requires
        i <= s.len(),
    ensures
        match r {
            Some((a, b)) => string_entry(s@, i as int) == Some((a as int, b as int)) && i < a <= b
                < s.len(),
            None => string_entry(s@, i as int) is None,
        },
{
    let j = skip_blanks(s, i);
    if j == i || !(j < s.len() && s[j] == 34u8) {
        return None;
    }
    match find_byte_from(s, j + 1, 34u8) {
        None => None,
        Some(k) => Some((j + 1, k)),
    }
}

/// The bytes of the weight names.
pub open spec fn name_bytes(names: Seq<String>) -> Seq<Seq<u8>> {
    names.map_values(|n: String| encode_utf8(n@))
}

/// Read `k` names from `i` on; the names are numbered from `idx`. The
/// numbers of the names that are among `names` are appended to `pos`, the
/// places of all names read to `read`.
pub open spec fn read_names(
    s: Seq<u8>,
    i: int,
    k: nat,
    idx: nat,
    names: Seq<Seq<u8>>,
    pos: Seq<nat>,
    read: Seq<(int, int)>,
) -> Result<(int, Seq<nat>, Seq<(int, int)>), ReadError>
    decreases k,
{
    if k == 0 {
        Ok((i, pos, read))
    } else {
        match string_entry(s, i) {
            None => Err(ReadError::ParseEntry(Entry::WeightName, i as usize)),
            Some((a, b)) => read_names(
                s,
                b + 1,
                (k - 1) as nat,
                idx + 1,
                names,
                if names.contains(s.subrange(a, b)) {
                    pos.push(idx)
                } else {
                    pos
                },
                read.push((a, b)),
            ),
        }
    }
}

/// Whether the name `t` is among the names read at the places `read`.
pub open spec fn was_read(s: Seq<u8>, read: Seq<(int, int)>, t: Seq<u8>) -> bool {
    exists|j: int| 0 <= j < read.len() && s.subrange(#[trigger] read[j].0, read[j].1) == t
}

/// The first of `names`, from `k` on, that is not among the names read.
pub open spec fn first_missing(s: Seq<u8>, read: Seq<(int, int)>, names: Seq<Seq<u8>>, k: int) -> Option<int>
    decreases names.len() - k,
{
    if !(0 <= k < names.len()) {
        None
    } else if !was_read(s, read, names[k]) {
        Some(k)
    } else {
        first_missing(s, read, names, k + 1)
    }
}

/// Whether `t` is one of `names`.
fn is_weight_name(t: &[u8], names: &[String]) -> (r: bool)
    ensures
        r == name_bytes(names@).contains(t@),
{
    let mut i: usize = 0;
    while i < names.len()
        invariant
            i <= names.len(),
            forall|j: int| 0 <= j < i ==> name_bytes(names@)[j] != t@,
        decreases names.len() - i,
    {
        if bytes_eq(names[i].as_str().as_bytes(), t) {
            assert(name_bytes(names@)[i as int] == t@);
            return true;
        }
        i = i + 1;
    }
    false
}

/// The line of weight names, the `N` line starting at `q`: the position
/// after the names of the weights the record has and the numbers of the
/// weights whose names are among `names`; every one of `names` must be
/// there. With no names nothing is read.
pub open spec fn spec_weight_names_line(
    s: Seq<u8>,
    q: int,
    names: Seq<Seq<u8>>,
    nweights: nat,
) -> Result<(int, Seq<nat>), ReadError> {
    if names.len() == 0 {
        Ok((q, Seq::empty()))
    } else {
        match u32_entry(s, q + 1) {
            None => Err(ReadError::ParseEntry(Entry::NumberOfWeightNames, q as usize)),
            Some((p, nnames)) => {
                let k = if nnames < nweights {
                    nnames as nat
                } else {
                    nweights
                };
                match read_names(s, p, k, 0, names, Seq::empty(), Seq::empty()) {
                    Err(e) => Err(e),
                    Ok((after, pos, read)) => match first_missing(s, read, names, 0) {
                        Some(m) => Err(ReadError::FindWeight(m as usize, p as usize)),
                        None => Ok((after, pos)),
                    },
                }
            },
        }
    }
}

fn find_missing(record: &[u8], read: &Vec<(usize, usize)>, names: &[String]) -> (r: Option<usize>)
    requires
        forall|j: int| 0 <= j < read@.len() ==> #[trigger] read@[j].0 <= read@[j].1 <= record.len(),
    ensures
        match r {
            Some(m) => first_missing(
                record@,
                read@.map_values(|x: (usize, usize)| (x.0 as int, x.1 as int)),
                name_bytes(names@),
                0,
            ) == Some(m as int),
            None => first_missing(
                record@,
                read@.map_values(|x: (usize, usize)| (x.0 as int, x.1 as int)),
                name_bytes(names@),
                0,
            ) is None,
        },
{
    let ghost rd = read@.map_values(|x: (usize, usize)| (x.0 as int, x.1 as int));
    let ghost nb = name_bytes(names@);
    let mut k: usize = 0;
    while k < names.len()
        invariant
            k <= names.len(),
            rd == read@.map_values(|x: (usize, usize)| (x.0 as int, x.1 as int)),
            nb == name_bytes(names@),
            forall|j: int| 0 <= j < read@.len() ==> #[trigger] read@[j].0 <= read@[j].1 <= record.len(),
            first_missing(record@, rd, nb, 0) == first_missing(record@, rd, nb, k as int),
        decreases names.len() - k,
    {
        let name = names[k].as_str().as_bytes();
        let mut found = false;
        let mut j: usize = 0;
        while j < read.len()
            invariant
                j <= read@.len(),
                name@ == nb[k as int],
                rd == read@.map_values(|x: (usize, usize)| (x.0 as int, x.1 as int)),
                forall|q: int| 0 <= q < read@.len() ==> #[trigger] read@[q].0 <= read@[q].1 <= record.len(),
                found == exists|q: int| 0 <= q < j && record@.subrange(#[trigger] rd[q].0, rd[q].1) == name@,
            decreases read@.len() - j,
        {
            let (a, b) = read[j];
            if bytes_eq(slice_subrange(record, a, b), name) {
                found = true;
                assert(record@.subrange(rd[j as int].0, rd[j as int].1) == name@);
            }
            j = j + 1;
        }
        if !found {
            return Some(k);
        }
        k = k + 1;
    }
    None
}

/// Read `k` names from `i` on: the position after them, the numbers of
/// those among `names`, and where each name stands.
fn read_weight_names(record: &[u8], p: usize, k: usize, names: &[String]) -> (r: Result<
    (usize, Vec<usize>, Vec<(usize, usize)>),
    ReadError,
>)
    requires
        p <= record.len(),
    ensures
        match r {
            Ok((after, pos, read)) => read_names(
                record@,
                p as int,
                k as nat,
                0,
                name_bytes(names@),
                Seq::empty(),
                Seq::empty(),
            ) == Ok::<(int, Seq<nat>, Seq<(int, int)>), ReadError>(
                (
                    after as int,
                    pos@.map_values(|x: usize| x as nat),
                    read@.map_values(|x: (usize, usize)| (x.0 as int, x.1 as int)),
                ),
            ) && (forall|j: int| 0 <= j < read@.len() ==> #[trigger] read@[j].0 <= read@[j].1
                <= record.len()) && (forall|j: int| 0 <= j < pos@.len() ==> #[trigger] pos@[j] < k),
            Err(e) => read_names(
                record@,
                p as int,
                k as nat,
                0,
                name_bytes(names@),
                Seq::empty(),
                Seq::empty(),
            ) == Err::<(int, Seq<nat>, Seq<(int, int)>), ReadError>(e),
        },
{
    let ghost nb = name_bytes(names@);
    let mut i = p;
    let mut idx: usize = 0;
    let mut pos: Vec<usize> = Vec::new();
    let mut read: Vec<(usize, usize)> = Vec::new();
    assert(pos@.map_values(|x: usize| x as nat) =~= Seq::<nat>::empty());
    assert(read@.map_values(|x: (usize, usize)| (x.0 as int, x.1 as int)) =~= Seq::<(int, int)>::empty());
    while idx < k
        invariant
            p <= i <= record.len(),
            idx <= k,
            nb == name_bytes(names@),
            forall|j: int| 0 <= j < read@.len() ==> #[trigger] read@[j].0 <= read@[j].1 <= record.len(),
            forall|j: int| 0 <= j < pos@.len() ==> #[trigger] pos@[j] < idx,
            read_names(record@, p as int, k as nat, 0, nb, Seq::empty(), Seq::empty()) == read_names(
                record@,
                i as int,
                (k - idx) as nat,
                idx as nat,
                nb,
                pos@.map_values(|x: usize| x as nat),
                read@.map_values(|x: (usize, usize)| (x.0 as int, x.1 as int)),
            ),
        decreases k - idx,
    {
        let (a, b) = match parse_string_entry(record, i) {
            None => return Err(ReadError::ParseEntry(Entry::WeightName, i)),
            Some(x) => x,
        };
        let ghost old_pos = pos@;
        let ghost old_read = read@;
        if is_weight_name(slice_subrange(record, a, b), names) {
            pos.push(idx);
        }
        read.push((a, b));
        proof {
            assert(pos@.map_values(|x: usize| x as nat) =~= if nb.contains(
                record@.subrange(a as int, b as int),
            ) {
                old_pos.map_values(|x: usize| x as nat).push(idx as nat)
            } else {
                old_pos.map_values(|x: usize| x as nat)
            });
            assert(read@.map_values(|x: (usize, usize)| (x.0 as int, x.1 as int)) =~= old_read.map_values(
                |x: (usize, usize)| (x.0 as int, x.1 as int),
            ).push((a as int, b as int)));
            assert forall|j: int| 0 <= j < read@.len() implies #[trigger] read@[j].0 <= read@[j].1
                <= record.len() by {
                if j < old_read.len() {
                    assert(read@[j] == old_read[j]);
                }
            }
            assert forall|j: int| 0 <= j < pos@.len() implies #[trigger] pos@[j] < idx + 1 by {
                if j < old_pos.len() {
                    assert(pos@[j] == old_pos[j]);
                }
            }
        }
        i = b + 1;
        idx = idx + 1;
    }
    Ok((i, pos, read))
}

/// Read the line of weight names, the `N` line starting at `q`, for the
/// weights named `names` among the `nweights` weights of the record.
pub fn parse_weight_names_line(record: &[u8], q: usize, names: &[String], nweights: usize) -> (r:
    Result<(usize, Vec<usize>), ReadError>)
    requires
        q < record.len(),
    ensures
        match r {
            Ok((after, pos)) => spec_weight_names_line(
                record@,
                q as int,
                name_bytes(names@),
                nweights as nat,
            ) == Ok::<(int, Seq<nat>), ReadError>(
                (after as int, pos@.map_values(|x: usize| x as nat)),
            ),
            Err(e) => spec_weight_names_line(record@, q as int, name_bytes(names@), nweights as nat)
                == Err::<(int, Seq<nat>), ReadError>(e),
        },
{
    let ghost nb = name_bytes(names@);
    if names.len() == 0 {
        let pos: Vec<usize> = Vec::new();
        assert(pos@.map_values(|x: usize| x as nat) == Seq::<nat>::empty());
        return Ok((q, pos));
    }
    let (p, nnames) = match parse_u32_entry(record, q + 1) {
        None => return Err(ReadError::ParseEntry(Entry::NumberOfWeightNames, q)),
        Some(x) => x,
    };
    let k: usize = if (nnames as usize) < nweights {
        nnames as usize
    } else {
        nweights
    };
    let (i, pos, read) = match read_weight_names(record, p, k, names) {
        Err(e) => return Err(e),
        Ok(x) => x,
    };
    match find_missing(record, &read, names) {
        Some(m) => Err(ReadError::FindWeight(m, p)),
        None => Ok((i, pos)),
    }
}

/// The first line feed at or after `i` that is followed by `N`.
pub open spec fn find_names_line(s: Seq<u8>, i: int) -> Option<int>
    decreases s.len() - i,
{
    if !(0 <= i && i + 1 < s.len()) {
        None
    } else if s[i] == 10u8 && s[i + 1] == 78u8 {
        Some(i)
    } else {
        find_names_line(s, i + 1)
    }
}

/// End of the ASCII white space that starts at `i`.
pub open spec fn ascii_ws_end(s: Seq<u8>, i: int) -> int
    decreases s.len() - i,
{
    if 0 <= i < s.len() && is_ascii_ws(s[i]) {
        ascii_ws_end(s, i + 1)
    } else {
        i
    }
}

/// The first `n` fields from `i` on that ASCII white space separates (what
/// `split_ascii_whitespace().take(n)` gives), after `acc`.
pub open spec fn ascii_fields(s: Seq<u8>, i: int, n: nat, acc: Seq<(int, int)>) -> Seq<(int, int)>
    decreases n,
{
    let j = ascii_ws_end(s, i);
    if n == 0 || !(0 <= j < s.len()) {
        acc
    } else {
        ascii_fields(s, field_end(s, j), (n - 1) as nat, acc.push((j, field_end(s, j))))
    }
}

/// The numbers of the weights whose names are among `names`, read from the
/// `N` line.
pub open spec fn spec_named_positions(s: Seq<u8>, names: Seq<Seq<u8>>) -> Result<
    Seq<nat>,
    ReadError,
> {
    match find_names_line(s, 0) {
        None => Err(ReadError::FindEntry(Entry::WeightNameLine, 0)),
        Some(st) => match u32_entry(s, st + 2) {
            None => Err(ReadError::ParseEntry(Entry::NumberOfWeightNames, (st + 2) as usize)),
            Some((p, nn)) => match read_names(s, p, nn as nat, 0, names, Seq::empty(), Seq::empty()) {
                Err(e) => Err(e),
                Ok((_, pos, _)) => Ok(pos),
            },
        },
    }
}

/// The texts with the `j`-th text of `new` put in place `pos[j]`, for `j`
/// below `m`, one after the other.
pub open spec fn apply_updates(texts: Seq<Seq<u8>>, pos: Seq<nat>, new: Seq<Seq<u8>>, m: nat) -> Seq<
    Seq<u8>,
>
    decreases m,
{
    if m == 0 {
        texts
    } else {
        apply_updates(texts, pos, new, (m - 1) as nat).update(pos[m - 1] as int, new[m - 1])
    }
}

/// The texts joined by single spaces.
pub open spec fn join_space(ts: Seq<Seq<u8>>) -> Seq<u8>
    decreases ts.len(),
{
    if ts.len() == 0 {
        Seq::empty()
    } else if ts.len() == 1 {
        ts[0]
    } else {
        join_space(ts.drop_last()) + seq![32u8] + ts.last()
    }
}

/// The texts of the fields.
pub open spec fn field_texts(s: Seq<u8>, fields: Seq<(int, int)>) -> Seq<Seq<u8>> {
    fields.map_values(|f: (int, int)| s.subrange(f.0, f.1))
}

/// The smaller of two numbers.
pub open spec fn min_nat(a: nat, b: nat) -> nat {
    if a < b {
        a
    } else {
        b
    }
}

/// Whether updating the weights by name can go through: every weight to be
/// updated is among the `nweights` weights, and the `E` line ends with a
/// line feed.
pub open spec fn named_update_fits(
    s: Seq<u8>,
    ws: int,
    nweights: nat,
    names: Seq<Seq<u8>>,
    new: Seq<Seq<u8>>,
) -> bool {
    names.len() > 0 ==> match spec_named_positions(s, names) {
        Err(_) => true,
        Ok(pos) => (forall|j: int|
            0 <= j < min_nat(pos.len(), new.len()) ==> #[trigger] pos[j] < ascii_fields(
                s,
                ws,
                nweights,
                Seq::empty(),
            ).len()) && find_byte(s, ws + 1, 10u8) is Some,
    }
}

/// The record with the weights named by `names` replaced by the texts `new`
/// (the `j`-th update goes to the `j`-th weight whose name matches): the
/// first `nweights` fields after `ws` are written again, separated by single
/// spaces, in place of the rest of the `E` line.
pub open spec fn spec_update_named_weights(
    s: Seq<u8>,
    ws: int,
    nweights: nat,
    names: Seq<Seq<u8>>,
    new: Seq<Seq<u8>>,
) -> Result<Seq<u8>, ReadError> {
    if names.len() == 0 {
        Ok(s)
    } else {
        match spec_named_positions(s, names) {
            Err(e) => Err(e),
            Ok(pos) => {
                let fields = ascii_fields(s, ws, nweights, Seq::empty());
                let texts = apply_updates(
                    field_texts(s, fields),
                    pos,
                    new,
                    min_nat(pos.len(), new.len()),
                );
                let end = find_byte(s, ws + 1, 10u8)->0;
                Ok(s.subrange(0, ws + 1) + join_space(texts) + s.subrange(end, s.len() as int))
            },
        }
    }
}

fn find_names_line_from(s: &[u8]) -> (r: Option<usize>)
    ensures
        match r {
            Some(k) => find_names_line(s@, 0) == Some(k as int) && k + 1 < s.len(),
            None => find_names_line(s@, 0) is None,
        },
{
    if s.len() < 2 {
        return None;
    }
    let mut i: usize = 0;
    while i < s.len() - 1
        invariant
            s.len() >= 2,
            find_names_line(s@, 0) == find_names_line(s@, i as int),
        decreases s.len() - i,
    {
        if s[i] == 10u8 && s[i + 1] == 78u8 {
            return Some(i);
        }
        i = i + 1;
    }
    None
}

fn skip_ascii_ws(s: &[u8], i: usize) -> (r: usize)
    requires
        i <= s.len(),
    ensures
        r as int == ascii_ws_end(s@, i as int),
        i <= r <= s.len(),
{
    let mut j = i;
    while j < s.len() && (s[j] == 32u8 || s[j] == 9u8 || s[j] == 10u8 || s[j] == 12u8 || s[j]
        == 13u8)
        invariant
            i <= j <= s.len(),
            ascii_ws_end(s@, i as int) == ascii_ws_end(s@, j as int),
        decreases s.len() - j,
    {
        j = j + 1;
    }
    j
}

fn collect_fields(s: &[u8], i: usize, n: usize) -> (r: Vec<(usize, usize)>)
    requires
        i <= s.len(),
    ensures
        r@.map_values(|f: (usize, usize)| (f.0 as int, f.1 as int)) == ascii_fields(
            s@,
            i as int,
            n as nat,
            Seq::empty(),
        ),
        forall|j: int| 0 <= j < r@.len() ==> #[trigger] r@[j].0 <= r@[j].1 <= s.len(),
{
    let mut out: Vec<(usize, usize)> = Vec::new();
    let mut pos = i;
    let mut k: usize = 0;
    assert(out@.map_values(|f: (usize, usize)| (f.0 as int, f.1 as int)) =~= Seq::<(int, int)>::empty());
    while k < n
        invariant
            pos <= s.len(),
            k <= n,
            forall|j: int| 0 <= j < out@.len() ==> #[trigger] out@[j].0 <= out@[j].1 <= s.len(),
            ascii_fields(s@, i as int, n as nat, Seq::empty()) == ascii_fields(
                s@,
                pos as int,
                (n - k) as nat,
                out@.map_values(|f: (usize, usize)| (f.0 as int, f.1 as int)),
            ),
        ensures
            ascii_fields(s@, i as int, n as nat, Seq::empty()) == out@.map_values(
                |f: (usize, usize)| (f.0 as int, f.1 as int),
            ),
        decreases n - k,
    {
        let j = skip_ascii_ws(s, pos);
        if j >= s.len() {
            break ;
        }
        let e = skip_field(s, j);
        let ghost before = out@;
        out.push((j, e));
        proof {
            assert(out@.map_values(|f: (usize, usize)| (f.0 as int, f.1 as int)) =~= before.map_values(
                |f: (usize, usize)| (f.0 as int, f.1 as int),
            ).push((j as int, e as int)));
            assert forall|q: int| 0 <= q < out@.len() implies #[trigger] out@[q].0 <= out@[q].1
                <= s.len() by {
                if q < before.len() {
                    assert(out@[q] == before[q]);
                }
            }
        }
        pos = e;
        k = k + 1;
    }
    out
}

/// Replace the weights named by `names` by the texts `new`: the first match
/// of a name among the weight names of the `N` line gets the first text,
/// the second match the second text, and so on. The `nweights` weights
/// start after `weights_start`; they are written again, separated by single
/// spaces, in place of the rest of the `E` line. On failure the record is
/// left as it was.
pub fn update_named_weights(
    record: &mut Vec<u8>,
    weights_start: usize,
    nweights: usize,
    names: &[String],
    new: &[Vec<u8>],
) -> (r: Result<(), ReadError>)
    requires
        new@.len() == names@.len(),
        weights_start < old(record)@.len(),
        named_update_fits(
            old(record)@,
            weights_start as int,
            nweights as nat,
            name_bytes(names@),
            new@.map_values(|v: Vec<u8>| v@),
        ),
    ensures
        match spec_update_named_weights(
            old(record)@,
            weights_start as int,
            nweights as nat,
            name_bytes(names@),
            new@.map_values(|v: Vec<u8>| v@),
        ) {
            Ok(t) => r is Ok && final(record)@ == t,
            Err(e) => r == Err::<(), ReadError>(e) && final(record)@ == old(record)@,
        },
{
    let ghost s = record@;
    let ghost nb = name_bytes(names@);
    let ghost nw = new@.map_values(|v: Vec<u8>| v@);
    if names.len() == 0 {
        return Ok(());
    }
    let st = match find_names_line_from(record.as_slice()) {
        None => return Err(ReadError::FindEntry(Entry::WeightNameLine, 0)),
        Some(st) => st,
    };
    let (p, nn) = match parse_u32_entry(record.as_slice(), st + 2) {
        None => return Err(ReadError::ParseEntry(Entry::NumberOfWeightNames, st + 2)),
        Some(x) => x,
    };
    let (_, pos, _) = match read_weight_names(record.as_slice(), p, nn as usize, names) {
        Err(e) => return Err(e),
        Ok(x) => x,
    };
    let ghost posv = pos@.map_values(|x: usize| x as nat);
    let fields = collect_fields(record.as_slice(), weights_start, nweights);
    let ghost fv = fields@.map_values(|f: (usize, usize)| (f.0 as int, f.1 as int));
    let ghost texts0 = field_texts(s, fv);
    proof {
        assert(spec_named_positions(s, nb) == Ok::<Seq<nat>, ReadError>(posv));
        assert(fv.len() == fields@.len());
        assert(forall|q: int| 0 <= q < pos@.len() ==> posv[q] == pos@[q]);
    }
    let m: usize = if pos.len() < new.len() {
        pos.len()
    } else {
        new.len()
    };
    // which new text, if any, goes in place of each field
    let mut repl: Vec<Option<usize>> = Vec::new();
    let mut f: usize = 0;
    while f < fields.len()
        invariant
            f <= fields@.len(),
            repl@.len() == f,
            forall|q: int| 0 <= q < f ==> #[trigger] repl@[q] is None,
        decreases fields@.len() - f,
    {
        repl.push(None);
        f = f + 1;
    }
    let mut j: usize = 0;
    while j < m
        invariant
            j <= m == min_nat(posv.len(), nw.len()),
            posv == pos@.map_values(|x: usize| x as nat),
            nw == new@.map_values(|v: Vec<u8>| v@),
            repl@.len() == fields@.len() == texts0.len(),
            forall|q: int| 0 <= q < m ==> #[trigger] posv[q] < fields@.len(),
            j <= pos@.len(),
            forall|q: int| 0 <= q < pos@.len() ==> posv[q] == #[trigger] pos@[q],
            forall|q: int|
                0 <= q < fields@.len() ==> (#[trigger] apply_updates(texts0, posv, nw, j as nat)[q])
                    == match repl@[q] {
                    Some(k) => nw[k as int],
                    None => texts0[q],
                },
            forall|q: int| 0 <= q < fields@.len() ==> (#[trigger] repl@[q] matches Some(k) ==> k < nw.len()),
            apply_updates(texts0, posv, nw, j as nat).len() == texts0.len(),
        decreases m - j,
    {
        let k = pos[j];
        repl.set(k, Some(j));
        j = j + 1;
    }
    let ghost texts = apply_updates(texts0, posv, nw, m as nat);
    let end = match find_byte_from(record.as_slice(), weights_start + 1, 10u8) {
        Some(e) => e,
        None => return Ok(()),
    };
    // the record up to the weights, the weights joined by spaces, and the rest
    let mut out: Vec<u8> = Vec::new();
    push_all(&mut out, slice_subrange(record.as_slice(), 0, weights_start + 1));
    let ghost head = out@;
    let mut q: usize = 0;
    while q < fields.len()
        invariant
            q <= fields@.len() == repl@.len() == texts.len(),
            out@ == head + join_space(texts.subrange(0, q as int)),
            forall|i: int|
                0 <= i < fields@.len() ==> (#[trigger] texts[i]) == match repl@[i] {
                    Some(k) => nw[k as int],
                    None => texts0[i],
                },
            forall|i: int| 0 <= i < fields@.len() ==> (#[trigger] repl@[i] matches Some(k) ==> k < new@.len()),
            forall|i: int| 0 <= i < fields@.len() ==> #[trigger] fields@[i].0 <= fields@[i].1 <= record@.len(),
            nw == new@.map_values(|v: Vec<u8>| v@),
            texts0 == field_texts(s, fv),
            fv == fields@.map_values(|f: (usize, usize)| (f.0 as int, f.1 as int)),
            record@ == s,
        decreases fields@.len() - q,
    {
        if q > 0 {
            out.push(32u8);
        }
        match repl[q] {
            Some(k) => push_all(&mut out, new[k].as_slice()),
            None => {
                let (a, b) = fields[q];
                push_all(&mut out, slice_subrange(record.as_slice(), a, b));
            },
        }
        proof {
            let ts = texts.subrange(0, q + 1);
            assert(ts.drop_last() == texts.subrange(0, q as int));
            assert(ts.last() == texts[q as int]);
        }
        q = q + 1;
    }
    assert(texts.subrange(0, fields@.len() as int) == texts);
    push_all(&mut out, slice_subrange(record.as_slice(), end, record.len()));
    *record = out;
    Ok(())
}


/// A word: a text that is not empty and holds no ASCII white space.
pub open spec fn is_word(w: Seq<u8>) -> bool {
    w.len() > 0 && forall|x: int| 0 <= x < w.len() ==> !is_ascii_ws(#[trigger] w[x])
}

/// Where the `k`-th text starts in `join_space(ts)`.
pub open spec fn word_start(ts: Seq<Seq<u8>>, k: int) -> int
    decreases k,
{
    if k <= 0 {
        0
    } else {
        word_start(ts, k - 1) + ts[k - 1].len() + 1
    }
}

proof fn lemma_word_start_prefix(ts: Seq<Seq<u8>>, k: int)
    requires
        0 <= k < ts.len(),
    ensures
        word_start(ts.drop_last(), k) == word_start(ts, k),
    decreases k,
{
    if k > 0 {
        lemma_word_start_prefix(ts, k - 1);
        assert(ts.drop_last()[k - 1] == ts[k - 1]);
    }
}

proof fn lemma_word_start_grows(ts: Seq<Seq<u8>>, k: int)
    requires
        0 <= k,
    ensures
        word_start(ts, k) >= k,
    decreases k,
{
    if k > 0 {
        lemma_word_start_grows(ts, k - 1);
    }
}

/// The length of texts joined by spaces.
proof fn lemma_join_len(ts: Seq<Seq<u8>>)
    requires
        ts.len() > 0,
    ensures
        join_space(ts).len() == word_start(ts, ts.len() - 1) + ts.last().len(),
    decreases ts.len(),
{
    if ts.len() > 1 {
        let t = ts.drop_last();
        lemma_join_len(t);
        let n = ts.len() - 1;
        lemma_word_start_prefix(ts, n - 1);
        assert(t[n - 1] == ts[n - 1]);
    }
}

/// The `k`-th text stands at `word_start(ts, k)` in the texts joined by
/// spaces.
proof fn lemma_join_word(ts: Seq<Seq<u8>>, k: int)
    requires
        0 <= k < ts.len(),
    ensures
        join_space(ts).subrange(word_start(ts, k), word_start(ts, k) + ts[k].len()) == ts[k],
    decreases ts.len(),
{
    let n = ts.len() - 1;
    if ts.len() == 1 {
        assert(join_space(ts).subrange(0, ts[0].len() as int) =~= ts[0]);
    } else {
        let t = ts.drop_last();
        let j = join_space(t);
        assert(join_space(ts) == j + seq![32u8] + ts.last());
        lemma_word_start_grows(ts, k);
        lemma_join_len(t);
        lemma_word_start_prefix(ts, n - 1);
        assert(t[n - 1] == ts[n - 1]);
        assert(j.len() == word_start(ts, n) - 1);
        if k < n {
            lemma_join_word(t, k);
            lemma_word_start_prefix(ts, k);
            assert(t[k] == ts[k]);
            if k < n - 1 {
                lemma_word_start_monotone(ts, k + 1, n - 1);
            }
            assert(join_space(ts).subrange(word_start(ts, k), word_start(ts, k) + ts[k].len()) =~= j.subrange(
                word_start(ts, k),
                word_start(ts, k) + ts[k].len(),
            ));
        } else {
            assert(join_space(ts).subrange(word_start(ts, k), word_start(ts, k) + ts[k].len()) =~= ts.last());
        }
    }
}

/// A space follows each text but the last in the texts joined by spaces.
proof fn lemma_join_sep(ts: Seq<Seq<u8>>, k: int)
    requires
        0 <= k < ts.len() - 1,
    ensures
        join_space(ts)[word_start(ts, k) + ts[k].len()] == 32u8,
    decreases ts.len(),
{
    let n = ts.len() - 1;
    let t = ts.drop_last();
    let j = join_space(t);
    assert(join_space(ts) == j + seq![32u8] + ts.last());
    lemma_word_start_grows(ts, k);
    lemma_join_len(t);
    lemma_word_start_prefix(ts, n - 1);
    assert(t[n - 1] == ts[n - 1]);
    assert(j.len() == word_start(ts, n) - 1);
    lemma_word_start_prefix(ts, k);
    assert(t[k] == ts[k]);
    if k < n - 1 {
        lemma_join_sep(t, k);
        lemma_word_start_monotone(ts, k + 1, n - 1);
    }
}

proof fn lemma_word_start_monotone(ts: Seq<Seq<u8>>, a: int, b: int)
    requires
        0 <= a <= b,
    ensures
        word_start(ts, a) <= word_start(ts, b),
        a < b ==> word_start(ts, a) + ts[a].len() < word_start(ts, b),
    decreases b - a,
{
    if a < b {
        lemma_word_start_monotone(ts, a + 1, b);
    }
}


/// A field that is a word, followed by white space, ends after the word.
proof fn lemma_field_end_word(u: Seq<u8>, j: int, w: Seq<u8>, m: int)
    requires
        0 <= j,
        0 <= m <= w.len(),
        j + w.len() < u.len(),
        u.subrange(j, j + w.len()) == w,
        forall|x: int| 0 <= x < w.len() ==> !is_ascii_ws(#[trigger] w[x]),
        is_ascii_ws(u[j + w.len()]),
    ensures
        field_end(u, j + m) == j + w.len(),
    decreases w.len() - m,
{
    if m < w.len() {
        assert(u[j + m] == w[m]);
        lemma_field_end_word(u, j, w, m + 1);
    }
}

/// The texts of the fields.
proof fn lemma_fields_of_join(
    u: Seq<u8>,
    p: int,
    ts: Seq<Seq<u8>>,
    k: int,
    acc: Seq<(int, int)>,
)
    requires
        1 <= p,
        0 <= k <= ts.len(),
        forall|i: int| 0 <= i < ts.len() ==> is_word(#[trigger] ts[i]),
        ts.len() > 0 ==> u.subrange(p, p + join_space(ts).len()) == join_space(ts),
        ts.len() > 0 ==> p + join_space(ts).len() < u.len(),
        ts.len() > 0 ==> is_ascii_ws(u[p + join_space(ts).len()]),
        k < ts.len() ==> is_ascii_ws(u[p + word_start(ts, k) - 1]),
    ensures
        ascii_fields(u, p + word_start(ts, k) - 1, (ts.len() - k) as nat, acc) == acc + Seq::new(
            (ts.len() - k) as nat,
            |x: int| (p + word_start(ts, k + x), p + word_start(ts, k + x) + ts[k + x].len()),
        ),
    decreases ts.len() - k,
{
    let e = Seq::new(
        (ts.len() - k) as nat,
        |x: int| (p + word_start(ts, k + x), p + word_start(ts, k + x) + ts[k + x].len()),
    );
    if k == ts.len() {
        assert(acc + e =~= acc);
    } else {
        let n = ts.len();
        let js = join_space(ts);
        let i = p + word_start(ts, k) - 1;
        let j = i + 1;
        let w = ts[k];
        lemma_join_len(ts);
        lemma_join_word(ts, k);
        lemma_word_start_grows(ts, k);
        if k < n - 1 {
            lemma_word_start_monotone(ts, k + 1, n - 1);
        }
        assert(word_start(ts, k) + w.len() <= js.len());
        assert(is_word(w));
        assert(u[j] == js[word_start(ts, k)]);
        assert(js[word_start(ts, k)] == w[0]);
        assert(ascii_ws_end(u, j) == j);
        assert(ascii_ws_end(u, i) == j);
        assert forall|x: int| 0 <= x < w.len() implies u[j + x] == w[x] by {
            assert(u[j + x] == u.subrange(p, p + js.len())[word_start(ts, k) + x]);
            assert(js.subrange(word_start(ts, k), word_start(ts, k) + w.len())[x] == js[word_start(ts, k) + x]);
        }
        assert(u.subrange(j, j + w.len()) =~= w);
        if k < n - 1 {
            lemma_join_sep(ts, k);
            assert(u[j + w.len()] == js[word_start(ts, k) + w.len()]);
        } else {
            assert(j + w.len() == p + js.len());
        }
        lemma_field_end_word(u, j, w, 0);
        assert(field_end(u, j) == j + w.len());
        assert(j + w.len() == p + word_start(ts, k + 1) - 1);
        if k + 1 < n {
            lemma_join_sep(ts, k);
            assert(u[p + word_start(ts, k + 1) - 1] == js[word_start(ts, k) + w.len()]);
        }
        lemma_fields_of_join(u, p, ts, k + 1, acc.push((j, j + w.len())));
        let e2 = Seq::new(
            (ts.len() - (k + 1)) as nat,
            |x: int| (p + word_start(ts, k + 1 + x), p + word_start(ts, k + 1 + x) + ts[k + 1 + x].len()),
        );
        assert(acc.push((j, j + w.len())) + e2 =~= acc + e) by {
            assert(e[0] == (j, j + w.len()));
            assert forall|x: int| 0 <= x < e2.len() implies e2[x] == e[x + 1] by {}
        }
    }
}


proof fn lemma_ascii_ws_end_stops(s: Seq<u8>, i: int)
    requires
        0 <= i,
    ensures
        i <= ascii_ws_end(s, i),
        0 <= ascii_ws_end(s, i) < s.len() ==> !is_ascii_ws(s[ascii_ws_end(s, i)]),
    decreases s.len() - i,
{
    if 0 <= i < s.len() && is_ascii_ws(s[i]) {
        lemma_ascii_ws_end_stops(s, i + 1);
    }
}

proof fn lemma_field_end_run(s: Seq<u8>, j: int)
    requires
        0 <= j <= s.len(),
    ensures
        forall|x: int| j <= x < field_end(s, j) ==> !is_ascii_ws(#[trigger] s[x]),
    decreases s.len() - j,
{
    if j < s.len() && !is_ascii_ws(s[j]) {
        lemma_field_end_run(s, j + 1);
    }
}

/// The fields that `ascii_fields` finds are words of the text.
proof fn lemma_fields_are_words(s: Seq<u8>, i: int, n: nat, acc: Seq<(int, int)>)
    requires
        0 <= i,
        forall|k: int| 0 <= k < acc.len() ==> 0 <= (#[trigger] acc[k]).0 <= acc[k].1 <= s.len() && is_word(s.subrange(acc[k].0, acc[k].1)),
    ensures
        forall|k: int| 0 <= k < ascii_fields(s, i, n, acc).len() ==> 0 <= (#[trigger] ascii_fields(s, i, n, acc)[k]).0
            <= ascii_fields(s, i, n, acc)[k].1 <= s.len() && is_word(s.subrange(ascii_fields(s, i, n, acc)[k].0, ascii_fields(s, i, n, acc)[k].1)),
    decreases n,
{
    let j = ascii_ws_end(s, i);
    lemma_ascii_ws_end_stops(s, i);
    if n > 0 && 0 <= j < s.len() {
        let f = field_end(s, j);
        lemma_field_end_bounds(s, j);
        lemma_field_end_run(s, j);
        assert(f > j) by {
            assert(!is_ascii_ws(s[j]));
            assert(field_end(s, j) == field_end(s, j + 1));
            lemma_field_end_bounds(s, j + 1);
        }
        let w = s.subrange(j, f);
        assert(is_word(w)) by {
            assert forall|x: int| 0 <= x < w.len() implies !is_ascii_ws(#[trigger] w[x]) by {
                assert(w[x] == s[j + x]);
            }
        }
        let acc2 = acc.push((j, f));
        assert forall|k: int| 0 <= k < acc2.len() implies 0 <= (#[trigger] acc2[k]).0 <= acc2[k].1 <= s.len() && is_word(s.subrange(acc2[k].0, acc2[k].1)) by {
            if k < acc.len() {
                assert(acc2[k] == acc[k]);
            }
        }
        lemma_fields_are_words(s, f, (n - 1) as nat, acc2);
        assert(ascii_fields(s, i, n, acc) == ascii_fields(s, f, (n - 1) as nat, acc2));
    }
}

/// Putting words in places of a list of words keeps a list of words of
/// the same length.
proof fn lemma_apply_updates_words(texts: Seq<Seq<u8>>, pos: Seq<nat>, new: Seq<Seq<u8>>, m: nat)
    requires
        m <= pos.len(),
        m <= new.len(),
        forall|j: int| 0 <= j < m ==> #[trigger] pos[j] < texts.len(),
        forall|j: int| 0 <= j < m ==> is_word(#[trigger] new[j]),
        forall|j: int| 0 <= j < texts.len() ==> is_word(#[trigger] texts[j]),
    ensures
        apply_updates(texts, pos, new, m).len() == texts.len(),
        forall|j: int| 0 <= j < texts.len() ==> is_word(#[trigger] apply_updates(texts, pos, new, m)[j]),
    decreases m,
{
    if m > 0 {
        lemma_apply_updates_words(texts, pos, new, (m - 1) as nat);
        assert(pos[m - 1] < texts.len());
        assert(is_word(new[m - 1]));
    }
}

/// Reading the weights back after they were updated by name: the fields of
/// the rewritten `E` line, read from the same place, are the old weight
/// texts with the new texts put in place of the named ones. This holds
/// where the character before the weights is white space, the line had
/// all `nweights` weights and every new text is a word.
pub proof fn law_named_weights_read_back(
    s: Seq<u8>,
    ws: int,
    nweights: nat,
    names: Seq<Seq<u8>>,
    new: Seq<Seq<u8>>,
)
    requires
        0 <= ws < s.len(),
        is_ascii_ws(s[ws]),
        names.len() > 0,
        spec_named_positions(s, names) is Ok,
        named_update_fits(s, ws, nweights, names, new),
        ascii_fields(s, ws, nweights, Seq::empty()).len() == nweights,
        forall|j: int| 0 <= j < new.len() ==> is_word(#[trigger] new[j]),
    ensures
        ({
            let pos = spec_named_positions(s, names)->Ok_0;
            let old_texts = field_texts(s, ascii_fields(s, ws, nweights, Seq::empty()));
            match spec_update_named_weights(s, ws, nweights, names, new) {
                Ok(t) => field_texts(t, ascii_fields(t, ws, nweights, Seq::empty())) == apply_updates(
                    old_texts,
                    pos,
                    new,
                    min_nat(pos.len(), new.len()),
                ),
                Err(_) => false,
            }
        }),
{
    let pos = spec_named_positions(s, names)->Ok_0;
    let fields = ascii_fields(s, ws, nweights, Seq::empty());
    let old_texts = field_texts(s, fields);
    let m = min_nat(pos.len(), new.len());
    let texts = apply_updates(old_texts, pos, new, m);
    lemma_find_byte_found(s, ws + 1, 10u8);
    let end = find_byte(s, ws + 1, 10u8)->0;
    let pre = s.subrange(0, ws + 1);
    let post = s.subrange(end, s.len() as int);
    let js = join_space(texts);
    let t = pre + js + post;
    assert(spec_update_named_weights(s, ws, nweights, names, new) == Ok::<Seq<u8>, ReadError>(t));
    lemma_fields_are_words(s, ws, nweights, Seq::empty());
    assert forall|j: int| 0 <= j < old_texts.len() implies is_word(#[trigger] old_texts[j]) by {
        assert(old_texts[j] == s.subrange(fields[j].0, fields[j].1));
    }
    lemma_apply_updates_words(old_texts, pos, new, m);
    let p = ws + 1;
    assert(t.subrange(p, p + js.len()) =~= js);
    assert(post[0] == 10u8);
    assert(t[p + js.len()] == post[0]);
    assert(t[p - 1] == s[ws]);
    assert(word_start(texts, 0) == 0);
    lemma_fields_of_join(t, p, texts, 0, Seq::empty());
    let tf = ascii_fields(t, ws, nweights, Seq::empty());
    assert(field_texts(t, tf) =~= texts) by {
        assert forall|x: int| 0 <= x < texts.len() implies field_texts(t, tf)[x] == texts[x] by {
            lemma_join_word(texts, x);
            lemma_word_start_grows(texts, x);
            lemma_join_len(texts);
            if x < texts.len() - 1 {
                lemma_word_start_monotone(texts, x + 1, texts.len() - 1);
            }
            assert(tf[x] == (p + word_start(texts, x), p + word_start(texts, x) + texts[x].len()));
            assert(t.subrange(p + word_start(texts, x), p + word_start(texts, x) + texts[x].len()) =~= js.subrange(
                word_start(texts, x),
                word_start(texts, x) + texts[x].len(),
            ));
        }
    }
}

} // verus!
