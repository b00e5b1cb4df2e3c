//! Byte-level building blocks shared by the event record grammars:
//! blanks, fields, decimal numbers, Unicode white space and searching.
//!
//! Records are handled as UTF-8 byte sequences. Fields are separated by
//! blanks (spaces and horizontal tabs); a field is a non-empty run of bytes
//! that are not ASCII white space.
use vstd::prelude::*;
use vstd::string::StringExecFns;
use vstd::utf8::encode_utf8_decode_utf8;

verus! {

/// A blank separates fields on a line: space or horizontal tab.
pub open spec fn is_blank(b: u8) -> bool {
    b == 32u8 || b == 9u8
}

/// ASCII white space ends a field: space, tab, line feed, form feed, carriage return.
pub open spec fn is_ascii_ws(b: u8) -> bool {
    b == 32u8 || b == 9u8 || b == 10u8 || b == 12u8 || b == 13u8
}

/// An ASCII decimal digit.
pub open spec fn is_digit(b: u8) -> bool {
    48u8 <= b <= 57u8
}

/// End of the maximal run of blanks that starts at `i`.
pub open spec fn blanks_end(s: Seq<u8>, i: int) -> int
    decreases s.len() - i,
{
    if 0 <= i < s.len() && is_blank(s[i]) {
        blanks_end(s, i + 1)
    } else {
        i
    }
}

/// End of the maximal run of non-white-space bytes that starts at `i`.
pub open spec fn field_end(s: Seq<u8>, i: int) -> int
    decreases s.len() - i,
{
    if 0 <= i < s.len() && !is_ascii_ws(s[i]) {
        field_end(s, i + 1)
    } else {
        i
    }
}

/// End of the maximal run of decimal digits that starts at `i`.
pub open spec fn digits_end(s: Seq<u8>, i: int) -> int
    decreases s.len() - i,
{
    if 0 <= i < s.len() && is_digit(s[i]) {
        digits_end(s, i + 1)
    } else {
        i
    }
}

/// The number written in decimal by the digits `s[i..j]`.
pub open spec fn digits_value(s: Seq<u8>, i: int, j: int) -> nat
    decreases j - i,
{
    if j <= i {
        0
    } else {
        digits_value(s, i, j - 1) * 10 + (s[j - 1] - 48u8) as nat
    }
}

/// An unsigned 32 bit number written in decimal starting exactly at `i`:
/// its end and value, if there is at least one digit and the value fits.
pub open spec fn u32_at(s: Seq<u8>, i: int) -> Option<(int, u32)> {
    let e = digits_end(s, i);
    if e == i || digits_value(s, i, e) > u32::MAX {
        None
    } else {
        Some((e, digits_value(s, i, e) as u32))
    }
}

/// A signed 32 bit number with an optional `+` or `-` sign starting exactly at `i`.
pub open spec fn i32_at(s: Seq<u8>, i: int) -> Option<(int, i32)> {
    let signed = 0 <= i < s.len() && (s[i] == 45u8 || s[i] == 43u8);
    let negative = 0 <= i < s.len() && s[i] == 45u8;
    let d = if signed {
        i + 1
    } else {
        i
    };
    let e = digits_end(s, d);
    let v = digits_value(s, d, e);
    if e == d {
        None
    } else if negative {
        if v <= 2147483648 {
            Some((e, (-v) as i32))
        } else {
            None
        }
    } else if v <= i32::MAX {
        Some((e, v as i32))
    } else {
        None
    }
}

/// A field preceded by at least one blank: the field's start and end.
pub open spec fn any_entry(s: Seq<u8>, i: int) -> Option<(int, int)> {
    let j = blanks_end(s, i);
    let k = field_end(s, j);
    if j == i || k == j {
        None
    } else {
        Some((j, k))
    }
}

/// A field preceded by any number of blanks: the field's start and end.
pub open spec fn any_entry0(s: Seq<u8>, i: int) -> Option<(int, int)> {
    let j = blanks_end(s, i);
    let k = field_end(s, j);
    if k == j {
        None
    } else {
        Some((j, k))
    }
}

/// An unsigned number preceded by at least one blank.
pub open spec fn u32_entry(s: Seq<u8>, i: int) -> Option<(int, u32)> {
    let j = blanks_end(s, i);
    if j == i {
        None
    } else {
        u32_at(s, j)
    }
}

/// An unsigned number preceded by any number of blanks.
pub open spec fn u32_entry0(s: Seq<u8>, i: int) -> Option<(int, u32)> {
    u32_at(s, blanks_end(s, i))
}

/// A signed number preceded by at least one blank.
pub open spec fn i32_entry(s: Seq<u8>, i: int) -> Option<(int, i32)> {
    let j = blanks_end(s, i);
    if j == i {
        None
    } else {
        i32_at(s, j)
    }
}

/// A signed number preceded by any number of blanks.
pub open spec fn i32_entry0(s: Seq<u8>, i: int) -> Option<(int, i32)> {
    i32_at(s, blanks_end(s, i))
}

/// Position after `n` consecutive fields, each preceded by at least one blank.
pub open spec fn skip_entries(s: Seq<u8>, i: int, n: nat) -> Option<int>
    decreases n,
{
    if n == 0 {
        Some(i)
    } else {
        match any_entry(s, i) {
            Some((_, e)) => skip_entries(s, e, (n - 1) as nat),
            None => None,
        }
    }
}

/// Whether `s[i..i+3]` spells `t0 t1 t2`, ignoring ASCII case.
pub open spec fn tag3_no_case(s: Seq<u8>, i: int, t0: u8, t1: u8, t2: u8) -> bool {
    0 <= i && i + 3 <= s.len() && ascii_lower(s[i]) == t0 && ascii_lower(s[i + 1]) == t1
        && ascii_lower(s[i + 2]) == t2
}

/// ASCII lower case of a byte.
pub open spec fn ascii_lower(b: u8) -> u8 {
    if 65u8 <= b <= 90u8 {
        (b + 32) as u8
    } else {
        b
    }
}

/// End of the mantissa of a floating-point number whose digits start at
/// `a`: digits with an optional `.` and optional further digits, or a `.`
/// followed by at least one digit.
pub open spec fn mantissa_end(s: Seq<u8>, a: int) -> Option<int> {
    let d = digits_end(s, a);
    if d > a {
        if 0 <= d < s.len() && s[d] == 46u8 {
            Some(digits_end(s, d + 1))
        } else {
            Some(d)
        }
    } else if 0 <= a < s.len() && s[a] == 46u8 && digits_end(s, a + 1) > a + 1 {
        Some(digits_end(s, a + 1))
    } else {
        None
    }
}

/// A floating-point number starting exactly at `i`: an optional sign, a
/// mantissa and an optional exponent (`e` or `E`, optional sign, at least one
/// digit), or one of `nan` and `inf` in any case. Returns its end.
pub open spec fn float_at(s: Seq<u8>, i: int) -> Option<int> {
    let a = if 0 <= i < s.len() && (s[i] == 43u8 || s[i] == 45u8) {
        i + 1
    } else {
        i
    };
    match mantissa_end(s, a) {
        None => if tag3_no_case(s, i, 110u8, 97u8, 110u8) || tag3_no_case(s, i, 105u8, 110u8, 102u8) {
            Some(i + 3)
        } else {
            None
        },
        Some(m) => if 0 <= m < s.len() && (s[m] == 101u8 || s[m] == 69u8) {
            let b = if m + 1 < s.len() && (s[m + 1] == 43u8 || s[m + 1] == 45u8) {
                m + 2
            } else {
                m + 1
            };
            if digits_end(s, b) > b {
                Some(digits_end(s, b))
            } else {
                None
            }
        } else {
            Some(m)
        },
    }
}

/// A floating-point number preceded by at least one blank: its start and end.
pub open spec fn double_entry(s: Seq<u8>, i: int) -> Option<(int, int)> {
    let j = blanks_end(s, i);
    if j == i {
        None
    } else {
        match float_at(s, j) {
            Some(e) => Some((j, e)),
            None => None,
        }
    }
}

/// First position at or after `i` that holds the byte `b`.
pub open spec fn find_byte(s: Seq<u8>, i: int, b: u8) -> Option<int>
    decreases s.len() - i,
{
    if !(0 <= i < s.len()) {
        None
    } else if s[i] == b {
        Some(i)
    } else {
        find_byte(s, i + 1, b)
    }
}

/// Whether `s` ends with `t`.
pub open spec fn ends_with(s: Seq<u8>, t: Seq<u8>) -> bool {
    s.len() >= t.len() && s.subrange(s.len() - t.len(), s.len() as int) == t
}

/// Length of the UTF-8 encoding of a Unicode white-space character
/// (property White_Space) starting at `i`, or 0 if there is none.
pub open spec fn ws_len_at(s: Seq<u8>, i: int) -> int {
    if !(0 <= i < s.len()) {
        0
    } else if (9u8 <= s[i] <= 13u8) || s[i] == 32u8 {
        1
    } else if s[i] == 0xC2u8 && i + 1 < s.len() && (s[i + 1] == 0x85u8 || s[i + 1] == 0xA0u8) {
        2
    } else if s[i] == 0xE1u8 && i + 2 < s.len() && s[i + 1] == 0x9Au8 && s[i + 2] == 0x80u8 {
        3
    } else if s[i] == 0xE2u8 && i + 2 < s.len() && ((s[i + 1] == 0x80u8 && ((0x80u8 <= s[i + 2]
        <= 0x8Au8) || s[i + 2] == 0xA8u8 || s[i + 2] == 0xA9u8 || s[i + 2] == 0xAFu8)) || (s[i
        + 1] == 0x81u8 && s[i + 2] == 0x9Fu8)) {
        3
    } else if s[i] == 0xE3u8 && i + 2 < s.len() && s[i + 1] == 0x80u8 && s[i + 2] == 0x80u8 {
        3
    } else {
        0
    }
}

/// End of the white space that starts at `i` (as `str::trim_start` skips it).
pub open spec fn ws_run_end(s: Seq<u8>, i: int) -> int
    decreases s.len() - i,
{
    if 0 <= i && ws_len_at(s, i) > 0 {
        ws_run_end(s, i + ws_len_at(s, i))
    } else {
        i
    }
}

/// Length of a white-space character that ends right before `e`, or 0.
pub open spec fn ws_len_before(s: Seq<u8>, e: int) -> int {
    if e >= 1 && ws_len_at(s, e - 1) == 1 {
        1
    } else if e >= 2 && ws_len_at(s, e - 2) == 2 {
        2
    } else if e >= 3 && ws_len_at(s, e - 3) == 3 {
        3
    } else {
        0
    }
}

/// Start of the white space that ends at `e` (as `str::trim_end` removes it).
pub open spec fn ws_run_start(s: Seq<u8>, e: int) -> int
    decreases e,
{
    if 0 < e <= s.len() && ws_len_before(s, e) > 0 {
        ws_run_start(s, e - ws_len_before(s, e))
    } else {
        e
    }
}

/// A run of blanks ends between its start and the end of the text.
pub proof fn lemma_blanks_end_bounds(s: Seq<u8>, i: int)
    requires
        0 <= i <= s.len(),
    ensures
        i <= blanks_end(s, i) <= s.len(),
    decreases s.len() - i,
{
    if i < s.len() && is_blank(s[i]) {
        lemma_blanks_end_bounds(s, i + 1);
    }
}

/// A field ends between its start and the end of the text.
pub proof fn lemma_field_end_bounds(s: Seq<u8>, i: int)
    requires
        0 <= i <= s.len(),
    ensures
        i <= field_end(s, i) <= s.len(),
    decreases s.len() - i,
{
    if i < s.len() && !is_ascii_ws(s[i]) {
        lemma_field_end_bounds(s, i + 1);
    }
}

/// A run of digits ends between its start and the end of the text.
pub proof fn lemma_digits_end_bounds(s: Seq<u8>, i: int)
    requires
        0 <= i <= s.len(),
    ensures
        i <= digits_end(s, i) <= s.len(),
    decreases s.len() - i,
{
    if i < s.len() && is_digit(s[i]) {
        lemma_digits_end_bounds(s, i + 1);
    }
}

/// A longer digit run never has a smaller value.
pub proof fn lemma_digits_value_mono(s: Seq<u8>, i: int, j: int, k: int)
    requires
        i <= j <= k,
    ensures
        digits_value(s, i, j) <= digits_value(s, i, k),
    decreases k - j,
{
    if j < k {
        lemma_digits_value_mono(s, i, j, k - 1);
    }
}

/// Sequences that agree on `[i, e]` have the same field end, where `e` is
/// the field end of the first one.
pub proof fn lemma_field_end_frame(s: Seq<u8>, t: Seq<u8>, i: int)
    requires
        0 <= i <= s.len(),
        field_end(s, i) < s.len(),
        field_end(s, i) < t.len(),
        forall|k: int| i <= k <= field_end(s, i) ==> s[k] == t[k],
    ensures
        field_end(t, i) == field_end(s, i),
    decreases s.len() - i,
{
    lemma_field_end_bounds(s, i);
    assert(s[i] == t[i]);
    if i < s.len() && !is_ascii_ws(s[i]) {
        lemma_field_end_frame(s, t, i + 1);
    }
}

/// Sequences that agree on `[i, e]` have the same blank-run end `e`.
pub proof fn lemma_blanks_end_frame(s: Seq<u8>, t: Seq<u8>, i: int)
    requires
        0 <= i <= s.len(),
        blanks_end(s, i) < s.len(),
        blanks_end(s, i) < t.len(),
        forall|k: int| i <= k <= blanks_end(s, i) ==> s[k] == t[k],
    ensures
        blanks_end(t, i) == blanks_end(s, i),
    decreases s.len() - i,
{
    lemma_blanks_end_bounds(s, i);
    assert(s[i] == t[i]);
    if i < s.len() && is_blank(s[i]) {
        lemma_blanks_end_frame(s, t, i + 1);
    }
}

/// Sequences that agree on `[i, e]` have the same digit-run end `e` and value.
pub proof fn lemma_digits_frame(s: Seq<u8>, t: Seq<u8>, i: int)
    requires
        0 <= i <= s.len(),
        digits_end(s, i) < s.len(),
        digits_end(s, i) < t.len(),
        forall|k: int| i <= k <= digits_end(s, i) ==> s[k] == t[k],
    ensures
        digits_end(t, i) == digits_end(s, i),
        digits_value(t, i, digits_end(s, i)) == digits_value(s, i, digits_end(s, i)),
    decreases s.len() - i,
{
    lemma_digits_end_bounds(s, i);
    assert(s[i] == t[i]);
    if i < s.len() && is_digit(s[i]) {
        lemma_digits_frame(s, t, i + 1);
    }
    lemma_digits_end_bounds(s, i);
    lemma_digits_value_frame(s, t, i, digits_end(s, i));
}

/// The value of digits depends on those digits alone.
pub proof fn lemma_digits_value_frame(s: Seq<u8>, t: Seq<u8>, i: int, j: int)
    requires
        forall|k: int| i <= k < j ==> s[k] == t[k],
    ensures
        digits_value(t, i, j) == digits_value(s, i, j),
    decreases j - i,
{
    if j > i {
        lemma_digits_value_frame(s, t, i, j - 1);
    }
}

/// An entry lies within the text.
pub proof fn lemma_any_entry_bounds(s: Seq<u8>, i: int)
    requires
        0 <= i <= s.len(),
    ensures
        any_entry(s, i) matches Some((j, k)) ==> i < j < k <= s.len(),
{
    lemma_blanks_end_bounds(s, i);
    lemma_field_end_bounds(s, blanks_end(s, i));
}

/// An integer entry lies within the text.
pub proof fn lemma_u32_entry_bounds(s: Seq<u8>, i: int)
    requires
        0 <= i <= s.len(),
    ensures
        u32_entry(s, i) matches Some((e, v)) ==> i < e <= s.len(),
{
    lemma_blanks_end_bounds(s, i);
    lemma_digits_end_bounds(s, blanks_end(s, i));
}

/// Skipped entries end within the text.
pub proof fn lemma_skip_entries_bounds(s: Seq<u8>, i: int, n: nat)
    requires
        0 <= i <= s.len(),
    ensures
        skip_entries(s, i, n) matches Some(e) ==> i <= e <= s.len(),
    decreases n,
{
    if n > 0 {
        lemma_any_entry_bounds(s, i);
        if let Some((_, e)) = any_entry(s, i) {
            lemma_skip_entries_bounds(s, e, (n - 1) as nat);
        }
    }
}

/// A field ends at white space or at the end of the sequence.
pub proof fn lemma_field_end_stops(s: Seq<u8>, i: int)
    requires
        0 <= i <= s.len(),
    ensures
        field_end(s, i) < s.len() ==> is_ascii_ws(s[field_end(s, i)]),
    decreases s.len() - i,
{
    if i < s.len() && !is_ascii_ws(s[i]) {
        lemma_field_end_stops(s, i + 1);
    }
}

/// A byte that is found is at or after the start, in the text, and the byte sought.
pub proof fn lemma_find_byte_found(s: Seq<u8>, i: int, b: u8)
    requires
        0 <= i,
    ensures
        find_byte(s, i, b) matches Some(n) ==> i <= n < s.len() && s[n] == b,
    decreases s.len() - i,
{
    if 0 <= i < s.len() && s[i] != b {
        lemma_find_byte_found(s, i + 1, b);
    }
}

/// A byte found by `q` is found the same in sequences that agree on `[i, q]`.
pub proof fn lemma_find_byte_prefix(s: Seq<u8>, t: Seq<u8>, i: int, b: u8, q: int)
    requires
        0 <= i,
        q < s.len(),
        q < t.len(),
        forall|k: int| i <= k <= q ==> s[k] == t[k],
        find_byte(s, i, b) matches Some(n) && n <= q,
    ensures
        find_byte(t, i, b) == find_byte(s, i, b),
    decreases s.len() - i,
{
    lemma_find_byte_found(s, i, b);
    if s[i] != b {
        lemma_find_byte_prefix(s, t, i + 1, b, q);
    }
}

/// A run of white space ends at or after its start.
pub proof fn lemma_ws_run_end_ge(s: Seq<u8>, i: int)
    requires
        0 <= i,
    ensures
        i <= ws_run_end(s, i),
        ws_len_at(s, ws_run_end(s, i)) == 0,
    decreases s.len() - i,
{
    if ws_len_at(s, i) > 0 {
        lemma_ws_run_end_ge(s, i + ws_len_at(s, i));
    }
}

/// White space that ends two bytes before `q` ends the same in sequences
/// that agree on `[i, q]`.
pub proof fn lemma_ws_run_end_prefix(s: Seq<u8>, t: Seq<u8>, i: int, q: int)
    requires
        0 <= i,
        ws_run_end(s, i) + 2 <= q,
        q < s.len(),
        q < t.len(),
        forall|k: int| i <= k <= q ==> s[k] == t[k],
    ensures
        ws_run_end(t, i) == ws_run_end(s, i),
    decreases s.len() - i,
{
    lemma_ws_run_end_ge(s, i);
    let l = ws_len_at(s, i);
    assert(s[i] == t[i] && s[i + 1] == t[i + 1] && s[i + 2] == t[i + 2]);
    assert(ws_len_at(t, i) == l);
    if l > 0 {
        lemma_ws_run_end_ge(s, i + l);
        lemma_ws_run_end_prefix(s, t, i + l, q);
    }
}

/// A digit run followed by white space is a whole field.
pub proof fn lemma_field_end_of_digits(s: Seq<u8>, j: int)
    requires
        0 <= j,
        digits_end(s, j) < s.len(),
        is_ascii_ws(s[digits_end(s, j)]),
    ensures
        field_end(s, j) == digits_end(s, j),
    decreases s.len() - j,
{
    if j < s.len() && is_digit(s[j]) {
        lemma_field_end_of_digits(s, j + 1);
    }
}

/// A number starts with a sign, a digit, a point or a letter, never with
/// white space, and ends after its start.
pub proof fn lemma_float_at_bounds(s: Seq<u8>, i: int)
    requires
        0 <= i <= s.len(),
    ensures
        float_at(s, i) matches Some(e) ==> i < e <= s.len() && !is_ascii_ws(s[i]) && !is_blank(
            s[i],
        ),
{
    let a = if 0 <= i < s.len() && (s[i] == 43u8 || s[i] == 45u8) {
        i + 1
    } else {
        i
    };
    lemma_digits_end_bounds(s, a);
    if a + 1 <= s.len() {
        lemma_digits_end_bounds(s, a + 1);
    }
    let d = digits_end(s, a);
    if d + 1 <= s.len() {
        lemma_digits_end_bounds(s, d + 1);
    }
    if let Some(m) = mantissa_end(s, a) {
        if m + 1 <= s.len() {
            lemma_digits_end_bounds(s, m + 1);
        }
        if m + 2 <= s.len() {
            lemma_digits_end_bounds(s, m + 2);
        }
    }
}

/// A number preceded by any blanks that ends by `q` reads the same in
/// sequences that agree on `[i, q]`.
pub proof fn lemma_u32_entry0_prefix(s: Seq<u8>, t: Seq<u8>, i: int, q: int)
    requires
        0 <= i <= s.len(),
        q < s.len(),
        q < t.len(),
        forall|k: int| i <= k <= q ==> s[k] == t[k],
        u32_entry0(s, i) matches Some((e, _)) && e <= q,
    ensures
        u32_entry0(t, i) == u32_entry0(s, i),
{
    lemma_blanks_end_bounds(s, i);
    let j = blanks_end(s, i);
    lemma_digits_end_bounds(s, j);
    lemma_blanks_end_frame(s, t, i);
    lemma_digits_frame(s, t, j);
}

/// A field that ends by `q` reads the same in sequences that agree on `[i, q]`.
pub proof fn lemma_any_entry_prefix(s: Seq<u8>, t: Seq<u8>, i: int, q: int)
    requires
        0 <= i <= s.len(),
        q < s.len(),
        q < t.len(),
        forall|k: int| i <= k <= q ==> s[k] == t[k],
        any_entry(s, i) matches Some((_, e)) && e <= q,
    ensures
        any_entry(t, i) == any_entry(s, i),
{
    lemma_any_entry_bounds(s, i);
    lemma_blanks_end_bounds(s, i);
    lemma_blanks_end_frame(s, t, i);
    let j = blanks_end(s, i);
    lemma_field_end_bounds(s, j);
    lemma_field_end_frame(s, t, j);
}

/// Skipping fields that end by `q` goes the same in sequences that agree on `[i, q]`.
pub proof fn lemma_skip_entries_prefix(s: Seq<u8>, t: Seq<u8>, i: int, n: nat, q: int)
    requires
        0 <= i <= s.len(),
        q < s.len(),
        q < t.len(),
        forall|k: int| i <= k <= q ==> s[k] == t[k],
        skip_entries(s, i, n) matches Some(p) && p <= q,
    ensures
        skip_entries(t, i, n) == skip_entries(s, i, n),
    decreases n,
{
    if n > 0 {
        lemma_any_entry_bounds(s, i);
        let (_, e) = any_entry(s, i)->0;
        lemma_skip_entries_bounds(s, e, (n - 1) as nat);
        lemma_any_entry_prefix(s, t, i, q);
        lemma_skip_entries_prefix(s, t, e, (n - 1) as nat, q);
    }
}

/// A number that ends by `q` reads the same in sequences that agree on `[i, q]`.
pub proof fn lemma_u32_entry_prefix(s: Seq<u8>, t: Seq<u8>, i: int, q: int)
    requires
        0 <= i <= s.len(),
        q < s.len(),
        q < t.len(),
        forall|k: int| i <= k <= q ==> s[k] == t[k],
        u32_entry(s, i) matches Some((e, _)) && e <= q,
    ensures
        u32_entry(t, i) == u32_entry(s, i),
{
    lemma_blanks_end_bounds(s, i);
    let j = blanks_end(s, i);
    lemma_digits_end_bounds(s, j);
    lemma_blanks_end_frame(s, t, i);
    lemma_digits_frame(s, t, j);
}

/// A digit run inside `w`, copied to `t` at offset `off`, ends at the same
/// place when what follows the copy in `t` is not a digit.
pub proof fn lemma_digits_end_embed(w: Seq<u8>, t: Seq<u8>, off: int, i: int)
    requires
        0 <= i <= w.len(),
        0 <= off,
        off + w.len() <= t.len(),
        forall|k: int| 0 <= k < w.len() ==> t[off + k] == w[k],
        off + w.len() == t.len() || !is_digit(t[off + w.len()]),
    ensures
        digits_end(t, off + i) == off + digits_end(w, i),
    decreases w.len() - i,
{
    if i < w.len() {
        assert(t[off + i] == w[i]);
        if is_digit(w[i]) {
            lemma_digits_end_embed(w, t, off, i + 1);
        }
    }
}

/// A number that is all of `w`, copied to `t` at offset `off` and followed
/// there by white space or nothing, reads as the same number in `t`.
pub proof fn lemma_float_at_embed(w: Seq<u8>, t: Seq<u8>, off: int)
    requires
        float_at(w, 0) == Some(w.len() as int),
        0 <= off,
        off + w.len() <= t.len(),
        forall|k: int| 0 <= k < w.len() ==> t[off + k] == w[k],
        off + w.len() == t.len() || is_ascii_ws(t[off + w.len()]),
    ensures
        float_at(t, off) == Some(off + w.len()),
{
    let n = w.len() as int;
    assert forall|i: int| 0 <= i <= n implies digits_end(t, off + i) == off + digits_end(w, i) by {
        lemma_digits_end_embed(w, t, off, i);
    }
    assert forall|i: int| 0 <= i <= n implies digits_end(w, i) <= n by {
        lemma_digits_end_bounds(w, i);
    }
    assert(n > 0);
    assert(t[off] == w[0]);
    let a: int = if w[0] == 43u8 || w[0] == 45u8 {
        1
    } else {
        0
    };
    let d = digits_end(w, a);
    assert(digits_end(t, off + a) == off + d);
    if d < n {
        assert(t[off + d] == w[d]);
    }
    if a < n {
        assert(t[off + a] == w[a]);
    }
    if d + 1 <= n {
        assert(digits_end(t, off + d + 1) == off + digits_end(w, d + 1));
    }
    if a + 1 <= n {
        assert(digits_end(t, off + a + 1) == off + digits_end(w, a + 1));
    }
    match mantissa_end(w, a) {
        None => {
            assert(t[off + 1] == w[1]);
            assert(t[off + 2] == w[2]);
        },
        Some(m) => {
            assert(m <= n);
            assert(mantissa_end(t, off + a) == Some(off + m));
            if m < n {
                assert(t[off + m] == w[m]);
                if m + 1 < n {
                    assert(t[off + m + 1] == w[m + 1]);
                }
                let b = if m + 1 < n && (w[m + 1] == 43u8 || w[m + 1] == 45u8) {
                    m + 2
                } else {
                    m + 1
                };
                assert(digits_end(t, off + b) == off + digits_end(w, b));
            }
        },
    }
}

/// Append `bytes` to `out`.
pub fn push_all(out: &mut Vec<u8>, bytes: &[u8])
    ensures
        final(out)@ == old(out)@ + bytes@,
{
    let ghost start = out@;
    let mut k: usize = 0;
    while k < bytes.len()
        invariant
            k <= bytes.len(),
            out@ == start + bytes@.subrange(0, k as int),
        decreases bytes.len() - k,
    {
        out.push(bytes[k]);
        k = k + 1;
    }
    assert(bytes@.subrange(0, bytes.len() as int) == bytes@);
}

/// The character of the decimal digit `d`.
pub open spec fn digit_char(d: nat) -> char {
    (48 + d) as char
}

/// `n` written in decimal, without leading zeros.
pub open spec fn decimal(n: nat) -> Seq<char>
    decreases n,
{
    if n < 10 {
        seq![digit_char(n)]
    } else {
        decimal(n / 10).push(digit_char(n % 10))
    }
}

/// `v` written in decimal, with a minus sign if it is negative.
pub open spec fn signed_decimal(v: int) -> Seq<char> {
    if v < 0 {
        seq!['-'] + decimal((-v) as nat)
    } else {
        decimal(v as nat)
    }
}

/// `a` followed by `b`.
pub fn concat_str(a: &str, b: &str) -> (r: String)
    ensures
        r@ == a@ + b@,
{
    let mut s = a.to_owned();
    s.append(b);
    s
}

fn digit_str(d: u64) -> (r: &'static str)
    requires
        d < 10,
    ensures
        r@ == seq![digit_char(d as nat)],
{
    proof {
        reveal_strlit("0");
        reveal_strlit("1");
        reveal_strlit("2");
        reveal_strlit("3");
        reveal_strlit("4");
        reveal_strlit("5");
        reveal_strlit("6");
        reveal_strlit("7");
        reveal_strlit("8");
        reveal_strlit("9");
    }
    match d {
        0 => "0",
        1 => "1",
        2 => "2",
        3 => "3",
        4 => "4",
        5 => "5",
        6 => "6",
        7 => "7",
        8 => "8",
        _ => "9",
    }
}

/// `n` written in decimal, as `Display` writes it.
pub fn decimal_string(n: u64) -> (r: String)
    ensures
        r@ == decimal(n as nat),
    decreases n,
{
    if n < 10 {
        digit_str(n).to_owned()
    } else {
        let mut s = decimal_string(n / 10);
        s.append(digit_str(n % 10));
        s
    }
}

/// `v` written in decimal, as `Display` writes it.
pub fn signed_decimal_string(v: i64) -> (r: String)
    ensures
        r@ == signed_decimal(v as int),
{
    if v < 0 {
        let m: u64 = if v == i64::MIN {
            9223372036854775808u64
        } else {
            (-v) as u64
        };
        proof {
            reveal_strlit("-");
        }
        concat_str("-", decimal_string(m).as_str())
    } else {
        decimal_string(v as u64)
    }
}

/// The UTF-8 encoding of joined texts is the joined encodings.
pub proof fn lemma_encode_utf8_concat(a: Seq<char>, b: Seq<char>)
    ensures
        vstd::utf8::encode_utf8(a + b) == vstd::utf8::encode_utf8(a) + vstd::utf8::encode_utf8(b),
    decreases a.len(),
{
    if a.len() > 0 {
        assert((a + b).drop_first() == a.drop_first() + b);
        assert((a + b)[0] == a[0]);
        lemma_encode_utf8_concat(a.drop_first(), b);
    } else {
        assert(a + b == b);
    }
}

/// Byte-wise comparison of two string slices, which is equality of their characters.
pub fn str_eq(a: &str, b: &str) -> (r: bool)
    ensures
        r == (a@ == b@),
{
    let x = a.as_bytes();
    let y = b.as_bytes();
    let r = bytes_eq(x, y);
    proof {
        encode_utf8_decode_utf8(a@);
        encode_utf8_decode_utf8(b@);
    }
    r
}

/// Whether two byte slices are equal.
pub fn bytes_eq(x: &[u8], y: &[u8]) -> (r: bool)
    ensures
        r == (x@ == y@),
{
    if x.len() != y.len() {
        return false;
    }
    let mut i: usize = 0;
    while i < x.len()
        invariant
            i <= x.len() == y.len(),
            forall|k: int| 0 <= k < i ==> x@[k] == y@[k],
        decreases x.len() - i,
    {
        if x[i] != y[i] {
            return false;
        }
        i = i + 1;
    }
    assert(x@ =~= y@);
    true
}

/// Whether `s` ends with `t`.
pub fn bytes_end_with(s: &[u8], t: &[u8]) -> (r: bool)
    ensures
        r == ends_with(s@, t@),
{
    if s.len() < t.len() {
        return false;
    }
    let off = s.len() - t.len();
    let mut i: usize = 0;
    while i < t.len()
        invariant
            off + t.len() == s.len(),
            i <= t.len(),
            forall|k: int| 0 <= k < i ==> s@[off + k] == t@[k],
        decreases t.len() - i,
    {
        if s[off + i] != t[i] {
            assert(s@.subrange(off as int, s.len() as int)[i as int] != t@[i as int]);
            return false;
        }
        i = i + 1;
    }
    assert(s@.subrange(off as int, s.len() as int) =~= t@);
    true
}

/// End of the blank run starting at `i`.
pub fn skip_blanks(s: &[u8], i: usize) -> (r: usize)
    requires
        i <= s.len(),
    ensures
        r as int == blanks_end(s@, i as int),
        i <= r <= s.len(),
{
    let mut j = i;
    while j < s.len() && (s[j] == 32u8 || s[j] == 9u8)
        invariant
            i <= j <= s.len(),
            blanks_end(s@, i as int) == blanks_end(s@, j as int),
        decreases s.len() - j,
    {
        j = j + 1;
    }
    j
}

/// End of the field starting at `i`.
pub fn skip_field(s: &[u8], i: usize) -> (r: usize)
    requires
        i <= s.len(),
    ensures
        r as int == field_end(s@, i as int),
        i <= r <= s.len(),
{
    let mut j = i;
    while j < s.len() && !(s[j] == 32u8 || s[j] == 9u8 || s[j] == 10u8 || s[j] == 12u8 || s[j]
        == 13u8)
        invariant
            i <= j <= s.len(),
            field_end(s@, i as int) == field_end(s@, j as int),
        decreases s.len() - j,
    {
        j = j + 1;
    }
    j
}

/// End of the digit run starting at `i` and its decimal value, unless the
/// value exceeds `bound`.
pub fn scan_digits(s: &[u8], i: usize, bound: u64) -> (r: Option<(usize, u64)>)
    requires
        i <= s.len(),
        bound <= u32::MAX as u64 + 1,
    ensures
        match r {
            Some((e, v)) => e as int == digits_end(s@, i as int) && v as nat == digits_value(
                s@,
                i as int,
                e as int,
            ) && v <= bound,
            None => digits_value(s@, i as int, digits_end(s@, i as int)) > bound,
        },
{
    let mut j = i;
    let mut v: u64 = 0;
    while j < s.len() && 48u8 <= s[j] && s[j] <= 57u8
        invariant
            i <= j <= s.len(),
            digits_end(s@, i as int) == digits_end(s@, j as int),
            v as nat == digits_value(s@, i as int, j as int),
            v <= bound,
            bound <= u32::MAX as u64 + 1,
        decreases s.len() - j,
    {
        let d = (s[j] - 48u8) as u64;
        let next = v * 10 + d;
        if next > bound {
            proof {
                lemma_digits_end_bounds(s@, (j + 1) as int);
                lemma_digits_value_mono(
                    s@,
                    i as int,
                    (j + 1) as int,
                    digits_end(s@, (j + 1) as int),
                );
            }
            return None;
        }
        v = next;
        j = j + 1;
    }
    Some((j, v))
}

/// Parse an unsigned 32 bit number starting exactly at `i`.
pub fn parse_u32_at(s: &[u8], i: usize) -> (r: Option<(usize, u32)>)
    requires
        i <= s.len(),
    ensures
        match r {
            Some((e, v)) => u32_at(s@, i as int) == Some((e as int, v)),
            None => u32_at(s@, i as int) is None,
        },
        r matches Some((e, v)) ==> i < e <= s.len(),
{
    proof {
        lemma_digits_end_bounds(s@, i as int);
    }
    match scan_digits(s, i, u32::MAX as u64) {
        Some((e, v)) => {
            if e == i {
                None
            } else {
                Some((e, v as u32))
            }
        },
        None => None,
    }
}

/// Parse a signed 32 bit number with optional sign starting exactly at `i`.
pub fn parse_i32_at(s: &[u8], i: usize) -> (r: Option<(usize, i32)>)
    requires
        i <= s.len(),
    ensures
        match r {
            Some((e, v)) => i32_at(s@, i as int) == Some((e as int, v)),
            None => i32_at(s@, i as int) is None,
        },
        r matches Some((e, v)) ==> i < e <= s.len(),
{
    let signed = i < s.len() && (s[i] == 45u8 || s[i] == 43u8);
    let negative = i < s.len() && s[i] == 45u8;
    let d = if signed {
        i + 1
    } else {
        i
    };
    proof {
        lemma_digits_end_bounds(s@, d as int);
    }
    let bound: u64 = if negative {
        2147483648
    } else {
        2147483647
    };
    match scan_digits(s, d, bound) {
        Some((e, v)) => {
            if e == d {
                None
            } else if negative {
                let w: i64 = 0i64 - (v as i64);
                Some((e, w as i32))
            } else {
                Some((e, v as i32))
            }
        },
        None => None,
    }
}

/// Parse a field preceded by at least one blank.
pub fn parse_any_entry(s: &[u8], i: usize) -> (r: Option<(usize, usize)>)
    requires
        i <= s.len(),
    ensures
        match r {
            Some((j, k)) => any_entry(s@, i as int) == Some((j as int, k as int)),
            None => any_entry(s@, i as int) is None,
        },
        r matches Some((j, k)) ==> i < j < k <= s.len(),
{
    let j = skip_blanks(s, i);
    let k = skip_field(s, j);
    if j == i || k == j {
        None
    } else {
        Some((j, k))
    }
}

/// Parse a field preceded by any number of blanks.
pub fn parse_any_entry0(s: &[u8], i: usize) -> (r: Option<(usize, usize)>)
    requires
        i <= s.len(),
    ensures
        match r {
            Some((j, k)) => any_entry0(s@, i as int) == Some((j as int, k as int)),
            None => any_entry0(s@, i as int) is None,
        },
        r matches Some((j, k)) ==> i <= j < k <= s.len(),
{
    let j = skip_blanks(s, i);
    let k = skip_field(s, j);
    if k == j {
        None
    } else {
        Some((j, k))
    }
}

/// Parse an unsigned number preceded by at least one blank.
pub fn parse_u32_entry(s: &[u8], i: usize) -> (r: Option<(usize, u32)>)
    requires
        i <= s.len(),
    ensures
        match r {
            Some((e, v)) => u32_entry(s@, i as int) == Some((e as int, v)),
            None => u32_entry(s@, i as int) is None,
        },
        r matches Some((e, v)) ==> i < e <= s.len(),
{
    let j = skip_blanks(s, i);
    if j == i {
        None
    } else {
        parse_u32_at(s, j)
    }
}

/// Parse an unsigned number preceded by any number of blanks.
pub fn parse_u32_entry0(s: &[u8], i: usize) -> (r: Option<(usize, u32)>)
    requires
        i <= s.len(),
    ensures
        match r {
            Some((e, v)) => u32_entry0(s@, i as int) == Some((e as int, v)),
            None => u32_entry0(s@, i as int) is None,
        },
        r matches Some((e, v)) ==> i < e <= s.len(),
{
    let j = skip_blanks(s, i);
    parse_u32_at(s, j)
}

/// Parse a signed number preceded by at least one blank.
pub fn parse_i32_entry(s: &[u8], i: usize) -> (r: Option<(usize, i32)>)
    requires
        i <= s.len(),
    ensures
        match r {
            Some((e, v)) => i32_entry(s@, i as int) == Some((e as int, v)),
            None => i32_entry(s@, i as int) is None,
        },
        r matches Some((e, v)) ==> i < e <= s.len(),
{
    let j = skip_blanks(s, i);
    if j == i {
        None
    } else {
        parse_i32_at(s, j)
    }
}

/// Parse a signed number preceded by any number of blanks.
pub fn parse_i32_entry0(s: &[u8], i: usize) -> (r: Option<(usize, i32)>)
    requires
        i <= s.len(),
    ensures
        match r {
            Some((e, v)) => i32_entry0(s@, i as int) == Some((e as int, v)),
            None => i32_entry0(s@, i as int) is None,
        },
        r matches Some((e, v)) ==> i < e <= s.len(),
{
    let j = skip_blanks(s, i);
    parse_i32_at(s, j)
}

/// Skip `n` fields, each preceded by at least one blank.
pub fn parse_skip_entries(s: &[u8], i: usize, n: u32) -> (r: Option<usize>)
    requires
        i <= s.len(),
    ensures
        match r {
            Some(e) => skip_entries(s@, i as int, n as nat) == Some(e as int),
            None => skip_entries(s@, i as int, n as nat) is None,
        },
        r matches Some(e) ==> i <= e <= s.len(),
{
    let mut pos = i;
    let mut k: u32 = 0;
    while k < n
        invariant
            i <= pos <= s.len(),
            k <= n,
            skip_entries(s@, i as int, n as nat) == skip_entries(
                s@,
                pos as int,
                (n - k) as nat,
            ),
        decreases n - k,
    {
        match parse_any_entry(s, pos) {
            Some((_, e)) => {
                pos = e;
            },
            None => {
                return None;
            },
        }
        k = k + 1;
    }
    Some(pos)
}

/// End of the digit run starting at `i`.
pub fn skip_digits(s: &[u8], i: usize) -> (r: usize)
    requires
        i <= s.len(),
    ensures
        r as int == digits_end(s@, i as int),
        i <= r <= s.len(),
{
    let mut j = i;
    while j < s.len() && 48u8 <= s[j] && s[j] <= 57u8
        invariant
            i <= j <= s.len(),
            digits_end(s@, i as int) == digits_end(s@, j as int),
        decreases s.len() - j,
    {
        j = j + 1;
    }
    j
}

fn lower(b: u8) -> (r: u8)
    ensures
        r == ascii_lower(b),
{
    if 65u8 <= b && b <= 90u8 {
        b + 32
    } else {
        b
    }
}

fn tag3(s: &[u8], i: usize, t0: u8, t1: u8, t2: u8) -> (r: bool)
    requires
        i <= s.len(),
    ensures
        r == tag3_no_case(s@, i as int, t0, t1, t2),
{
    s.len() - i >= 3 && lower(s[i]) == t0 && lower(s[i + 1]) == t1 && lower(s[i + 2]) == t2
}

/// Parse a floating-point number starting exactly at `i`; returns its end.
pub fn parse_float_at(s: &[u8], i: usize) -> (r: Option<usize>)
    requires
        i <= s.len(),
    ensures
        match r {
            Some(e) => float_at(s@, i as int) == Some(e as int),
            None => float_at(s@, i as int) is None,
        },
        r matches Some(e) ==> i < e <= s.len(),
{
    let n = s.len();
    let a = if i < n && (s[i] == 43u8 || s[i] == 45u8) {
        i + 1
    } else {
        i
    };
    let d = skip_digits(s, a);
    let mant: Option<usize> = if d > a {
        if d < n && s[d] == 46u8 {
            Some(skip_digits(s, d + 1))
        } else {
            Some(d)
        }
    } else if a < n && s[a] == 46u8 {
        let f = skip_digits(s, a + 1);
        if f > a + 1 {
            Some(f)
        } else {
            None
        }
    } else {
        None
    };
    assert(match mant {
        Some(m) => mantissa_end(s@, a as int) == Some(m as int),
        None => mantissa_end(s@, a as int) is None,
    });
    match mant {
        None => {
            if tag3(s, i, 110u8, 97u8, 110u8) || tag3(s, i, 105u8, 110u8, 102u8) {
                Some(i + 3)
            } else {
                None
            }
        },
        Some(m) => {
            if m < n && (s[m] == 101u8 || s[m] == 69u8) {
                let b = if m + 1 < n && (s[m + 1] == 43u8 || s[m + 1] == 45u8) {
                    m + 2
                } else {
                    m + 1
                };
                let x = skip_digits(s, b);
                if x > b {
                    Some(x)
                } else {
                    None
                }
            } else {
                Some(m)
            }
        },
    }
}

/// Parse a floating-point number preceded by at least one blank.
pub fn parse_double_entry(s: &[u8], i: usize) -> (r: Option<(usize, usize)>)
    requires
        i <= s.len(),
    ensures
        match r {
            Some((j, k)) => double_entry(s@, i as int) == Some((j as int, k as int)),
            None => double_entry(s@, i as int) is None,
        },
        r matches Some((j, k)) ==> i < j < k <= s.len(),
{
    let j = skip_blanks(s, i);
    if j == i {
        None
    } else {
        match parse_float_at(s, j) {
            Some(e) => Some((j, e)),
            None => None,
        }
    }
}

/// First position at or after `i` holding the byte `b`.
pub fn find_byte_from(s: &[u8], i: usize, b: u8) -> (r: Option<usize>)
    requires
        i <= s.len(),
    ensures
        match r {
            Some(p) => find_byte(s@, i as int, b) == Some(p as int),
            None => find_byte(s@, i as int, b) is None,
        },
        r matches Some(p) ==> i <= p < s.len() && s@[p as int] == b,
{
    let mut j = i;
    while j < s.len()
        invariant
            i <= j <= s.len(),
            find_byte(s@, i as int, b) == find_byte(s@, j as int, b),
        decreases s.len() - j,
    {
        if s[j] == b {
            return Some(j);
        }
        j = j + 1;
    }
    None
}

/// Length of the Unicode white-space character at `i`, or 0.
pub fn ws_len(s: &[u8], i: usize) -> (r: usize)
    requires
        i <= s.len(),
    ensures
        r as int == ws_len_at(s@, i as int),
        r <= 3,
{
    let n = s.len();
    if i >= n {
        return 0;
    }
    let b = s[i];
    if (9u8 <= b && b <= 13u8) || b == 32u8 {
        1
    } else if b == 0xC2u8 && n - i > 1 && (s[i + 1] == 0x85u8 || s[i + 1] == 0xA0u8) {
        2
    } else if b == 0xE1u8 && n - i > 2 && s[i + 1] == 0x9Au8 && s[i + 2] == 0x80u8 {
        3
    } else if b == 0xE2u8 && n - i > 2 && ((s[i + 1] == 0x80u8 && ((0x80u8 <= s[i + 2] && s[i
        + 2] <= 0x8Au8) || s[i + 2] == 0xA8u8 || s[i + 2] == 0xA9u8 || s[i + 2] == 0xAFu8)) || (
    s[i + 1] == 0x81u8 && s[i + 2] == 0x9Fu8)) {
        3
    } else if b == 0xE3u8 && n - i > 2 && s[i + 1] == 0x80u8 && s[i + 2] == 0x80u8 {
        3
    } else {
        0
    }
}

/// End of the white space starting at `i` (what `str::trim_start` skips).
pub fn skip_ws(s: &[u8], i: usize) -> (r: usize)
    requires
        i <= s.len(),
    ensures
        r as int == ws_run_end(s@, i as int),
        i <= r <= s.len(),
{
    let mut j = i;
    loop
        invariant
            i <= j <= s.len(),
            ws_run_end(s@, i as int) == ws_run_end(s@, j as int),
        decreases s.len() - j,
    {
        let l = ws_len(s, j);
        if l == 0 {
            return j;
        }
        j = j + l;
    }
}

/// Start of the white space ending at `e` (what `str::trim_end` removes).
pub fn skip_ws_back(s: &[u8], e: usize) -> (r: usize)
    requires
        e <= s.len(),
    ensures
        r as int == ws_run_start(s@, e as int),
        r <= e,
{
    let mut j = e;
    loop
        invariant
            j <= e <= s.len(),
            ws_run_start(s@, e as int) == ws_run_start(s@, j as int),
        decreases j,
    {
        if j == 0 {
            return j;
        }
        let l: usize = if ws_len(s, j - 1) == 1 {
            1
        } else if j >= 2 && ws_len(s, j - 2) == 2 {
            2
        } else if j >= 3 && ws_len(s, j - 3) == 3 {
            3
        } else {
            0
        };
        assert(l as int == ws_len_before(s@, j as int));
        if l == 0 {
            return j;
        }
        j = j - l;
    }
}

/// No line feed stands at positions `a..b` of `s`.
pub open spec fn no_lf(s: Seq<u8>, a: int, b: int) -> bool {
    forall|k: int| a <= k < b ==> #[trigger] s[k] != 10u8
}

/// A run of blanks holds no line feed.
pub proof fn lemma_blanks_no_lf(s: Seq<u8>, i: int)
    requires
        0 <= i <= s.len(),
    ensures
        i <= blanks_end(s, i) <= s.len(),
        no_lf(s, i, blanks_end(s, i)),
    decreases s.len() - i,
{
    if i < s.len() && is_blank(s[i]) {
        lemma_blanks_no_lf(s, i + 1);
    }
}

/// A field holds no line feed.
pub proof fn lemma_field_no_lf(s: Seq<u8>, i: int)
    requires
        0 <= i <= s.len(),
    ensures
        i <= field_end(s, i) <= s.len(),
        no_lf(s, i, field_end(s, i)),
    decreases s.len() - i,
{
    if i < s.len() && !is_ascii_ws(s[i]) {
        lemma_field_no_lf(s, i + 1);
    }
}

/// A run of digits holds no line feed.
pub proof fn lemma_digits_no_lf(s: Seq<u8>, i: int)
    requires
        0 <= i <= s.len(),
    ensures
        i <= digits_end(s, i) <= s.len(),
        no_lf(s, i, digits_end(s, i)),
    decreases s.len() - i,
{
    if i < s.len() && is_digit(s[i]) {
        lemma_digits_no_lf(s, i + 1);
    }
}

/// A floating-point number holds no line feed.
pub proof fn lemma_float_no_lf(s: Seq<u8>, i: int)
    requires
        0 <= i <= s.len(),
    ensures
        float_at(s, i) matches Some(e) ==> i < e <= s.len() && no_lf(s, i, e),
{
    lemma_float_at_bounds(s, i);
    let a = if 0 <= i < s.len() && (s[i] == 43u8 || s[i] == 45u8) {
        i + 1
    } else {
        i
    };
    lemma_digits_no_lf(s, a);
    let d = digits_end(s, a);
    if d + 1 <= s.len() {
        lemma_digits_no_lf(s, d + 1);
    }
    if a + 1 <= s.len() {
        lemma_digits_no_lf(s, a + 1);
    }
    if let Some(m) = mantissa_end(s, a) {
        if m + 1 <= s.len() {
            lemma_digits_no_lf(s, m + 1);
        }
        if m + 2 <= s.len() {
            lemma_digits_no_lf(s, m + 2);
        }
    }
}

/// A signed number holds no line feed.
pub proof fn lemma_i32_no_lf(s: Seq<u8>, i: int)
    requires
        0 <= i <= s.len(),
    ensures
        i32_at(s, i) matches Some((e, _)) ==> i < e <= s.len() && no_lf(s, i, e),
{
    if i < s.len() {
        lemma_digits_no_lf(s, i + 1);
    }
    lemma_digits_no_lf(s, i);
}

/// An unsigned number holds no line feed.
pub proof fn lemma_u32_no_lf(s: Seq<u8>, i: int)
    requires
        0 <= i <= s.len(),
    ensures
        u32_at(s, i) matches Some((e, _)) ==> i < e <= s.len() && no_lf(s, i, e),
{
    lemma_digits_no_lf(s, i);
}

/// The entries read by the field parsers hold no line feed, nor do the
/// blanks before them.
pub proof fn lemma_entries_no_lf(s: Seq<u8>, i: int)
    requires
        0 <= i <= s.len(),
    ensures
        any_entry(s, i) matches Some((_, k)) ==> i < k <= s.len() && no_lf(s, i, k),
        i32_entry(s, i) matches Some((k, _)) ==> i < k <= s.len() && no_lf(s, i, k),
        u32_entry(s, i) matches Some((k, _)) ==> i < k <= s.len() && no_lf(s, i, k),
        double_entry(s, i) matches Some((_, k)) ==> i < k <= s.len() && no_lf(s, i, k),
{
    lemma_blanks_no_lf(s, i);
    let j = blanks_end(s, i);
    lemma_field_no_lf(s, j);
    lemma_i32_no_lf(s, j);
    lemma_u32_no_lf(s, j);
    lemma_float_no_lf(s, j);
}

/// Skipped entries hold no line feed.
pub proof fn lemma_skip_no_lf(s: Seq<u8>, i: int, n: nat)
    requires
        0 <= i <= s.len(),
    ensures
        skip_entries(s, i, n) matches Some(e) ==> i <= e <= s.len() && no_lf(s, i, e),
    decreases n,
{
    if n > 0 {
        lemma_entries_no_lf(s, i);
        if let Some((_, e)) = any_entry(s, i) {
            lemma_skip_no_lf(s, e, (n - 1) as nat);
        }
    }
}

/// A run of white space holds no `P`.
pub proof fn lemma_ws_run_no_p(s: Seq<u8>, i: int, k: int)
    requires
        0 <= i <= k < ws_run_end(s, i),
    ensures
        s[k] != 80u8,
    decreases s.len() - i,
{
    if ws_len_at(s, i) > 0 && k >= i + ws_len_at(s, i) {
        lemma_ws_run_no_p(s, i + ws_len_at(s, i), k);
    }
}

/// No byte `b` stands before the first one that `find_byte` finds, nor
/// anywhere after `i` if it finds none.
pub proof fn lemma_find_byte_first(s: Seq<u8>, i: int, b: u8)
    requires
        0 <= i,
    ensures
        find_byte(s, i, b) matches Some(n) ==> forall|k: int| i <= k < n ==> #[trigger] s[k] != b,
        find_byte(s, i, b) is None ==> forall|k: int| i <= k < s.len() ==> #[trigger] s[k] != b,
    decreases s.len() - i,
{
    if 0 <= i < s.len() && s[i] != b {
        lemma_find_byte_first(s, i + 1, b);
    }
}

} // verus!
