//! Event file footers, which stand after the last event record of a file.
use vstd::prelude::*;

use crate::formats::FileFormat;
use crate::text::{
    bytes_eq, concat_str, decimal, decimal_string, find_byte, find_byte_from, lemma_encode_utf8_concat,
    lemma_find_byte_found, push_all, skip_ws_back, ws_len_at, ws_len_before, ws_run_start,
};
use vstd::slice::slice_subrange;
use vstd::string::StringSliceAdditionalSpecFns;
use vstd::utf8::{
    is_ascii_chars, is_ascii_chars_encode_utf8, length_of_first_scalar, encode_utf8, encode_utf8_valid_utf8, is_char_boundary, is_char_boundary_iff_not_is_continuation_byte,
    is_char_boundary_start_end_of_seq, is_continuation_byte, valid_utf8,
};

verus! {

/// The footer of a file in the given format.
pub open spec fn spec_footer(format: FileFormat) -> Seq<char> {
    match format {
        FileFormat::HepMC2 => "HepMC::IO_GenEvent-END_EVENT_LISTING"@,
        FileFormat::Lhef => "</LesHouchesEvents>"@,
        FileFormat::StripperXml => "</Eventrecord>"@,
        FileFormat::BlackHatNtuple => ""@,
    }
}

/// The footer of a file in the given format.
pub fn get_footer(format: FileFormat) -> (r: &'static str)
    ensures
        r@ == spec_footer(format),
{
    match format {
        FileFormat::HepMC2 => "HepMC::IO_GenEvent-END_EVENT_LISTING",
        FileFormat::Lhef => "</LesHouchesEvents>",
        FileFormat::StripperXml => "</Eventrecord>",
        FileFormat::BlackHatNtuple => "",
    }
}

/// Append the footer of the format and a line feed.
pub fn write_footer(out: &mut Vec<u8>, format: FileFormat)
    ensures
        final(out)@ == old(out)@ + encode_utf8(spec_footer(format)) + seq![10u8],
{
    push_all(out, get_footer(format).as_bytes());
    out.push(10u8);
}

/// How much of the text `s` is left when the footer `f`, with the white
/// space after it, is cut off its end; all of it if it does not end so.
pub open spec fn spec_trimmed_len(s: Seq<u8>, f: Seq<u8>) -> int {
    let e = ws_run_start(s, s.len() as int);
    if e >= f.len() && s.subrange(e - f.len(), e) == f {
        e - f.len()
    } else {
        s.len() as int
    }
}

proof fn lemma_ws_run_start_le(s: Seq<u8>, e: int)
    ensures
        ws_run_start(s, e) <= e,
    decreases e,
{
    if 0 < e <= s.len() && ws_len_before(s, e) > 0 {
        lemma_ws_run_start_le(s, e - ws_len_before(s, e));
    }
}

/// White space that is cut off an end starts with the first byte of a
/// white-space character.
proof fn lemma_ws_run_start_lead(s: Seq<u8>, x: int)
    requires
        0 <= x <= s.len(),
        ws_run_start(s, x) < x,
    ensures
        0 <= ws_run_start(s, x),
        ws_len_at(s, ws_run_start(s, x)) > 0,
    decreases x,
{
    let l = ws_len_before(s, x);
    assert(l > 0 && ws_len_at(s, x - l) == l);
    assert(ws_run_start(s, x) == ws_run_start(s, x - l));
    lemma_ws_run_start_le(s, x - l);
    if ws_run_start(s, x - l) < x - l {
        lemma_ws_run_start_lead(s, x - l);
    }
}

/// Where a footer is cut off the end of a UTF-8 text, together with the
/// white space after it, a character starts.
proof fn lemma_cut_is_char_boundary(s: Seq<u8>, f: Seq<u8>, e: int)
    requires
        valid_utf8(s),
        valid_utf8(f),
        e == ws_run_start(s, s.len() as int),
        f.len() <= e <= s.len(),
        s.subrange(e - f.len(), e) == f,
    ensures
        is_char_boundary(s, e - f.len()),
{
    let k = e - f.len();
    if k < s.len() {
        if f.len() > 0 {
            is_char_boundary_iff_not_is_continuation_byte(f, 0);
            assert(s[k] == f[0]);
        } else {
            lemma_ws_run_start_lead(s, s.len() as int);
        }
        is_char_boundary_iff_not_is_continuation_byte(s, k);
    } else {
        is_char_boundary_start_end_of_seq(s);
    }
}

/// The event text without the footer of its format and the white space
/// after it, if it ends with them; otherwise all of it.
pub fn trim_footer<'a>(event: &'a str, format: FileFormat) -> (r: &'a str)
    ensures
        r.spec_bytes() == event.spec_bytes().subrange(
            0,
            spec_trimmed_len(event.spec_bytes(), encode_utf8(spec_footer(format))),
        ),
{
    let bytes = event.as_bytes();
    let footer_text = get_footer(format);
    let footer = footer_text.as_bytes();
    let e = skip_ws_back(bytes, bytes.len());
    if e >= footer.len() && bytes_eq(slice_subrange(bytes, e - footer.len(), e), footer) {
        let k = e - footer.len();
        proof {
            encode_utf8_valid_utf8(event@);
            encode_utf8_valid_utf8(footer_text@);
        }
        proof {
            lemma_cut_is_char_boundary(bytes@, footer@, e as int);
        }
        let (head, _) = event.split_at(k);
        head
    } else {
        proof {
            assert(event.spec_bytes().subrange(0, bytes.len() as int) == event.spec_bytes());
        }
        event
    }
}

/// The three last bytes of a footer that is not empty are ASCII and not
/// white space.
proof fn lemma_footer_tail(format: FileFormat)
    requires
        format != FileFormat::BlackHatNtuple,
    ensures
        ({
            let f = encode_utf8(spec_footer(format));
            &&& f.len() >= 3
            &&& forall|i: int| f.len() - 3 <= i < f.len() ==> 33u8 <= #[trigger] f[i] < 128u8
        }),
{
    reveal_strlit("HepMC::IO_GenEvent-END_EVENT_LISTING");
    reveal_strlit("</LesHouchesEvents>");
    reveal_strlit("</Eventrecord>");
    let c = spec_footer(format);
    assert(is_ascii_chars(c));
    is_ascii_chars_encode_utf8(c);
    let f = encode_utf8(c);
    assert forall|i: int| f.len() - 3 <= i < f.len() implies 33u8 <= #[trigger] f[i] < 128u8 by {
        assert(f[i] == c[i] as u8);
    }
}

/// Cutting the footer off the end of an event that `write_footer` closed
/// gives back the event, for every format whose footer is not empty.
pub proof fn law_trim_undoes_footer(event: Seq<u8>, format: FileFormat)
    requires
        format != FileFormat::BlackHatNtuple,
    ensures
        ({
            let f = encode_utf8(spec_footer(format));
            let s = event + f + seq![10u8];
            s.subrange(0, spec_trimmed_len(s, f)) == event
        }),
{
    let f = encode_utf8(spec_footer(format));
    let s = event + f + seq![10u8];
    let n = s.len() as int;
    lemma_footer_tail(format);
    assert(s[n - 1] == 10u8);
    assert(ws_len_before(s, n) == 1);
    assert(s[n - 2] == f[f.len() - 1]);
    assert(s[n - 3] == f[f.len() - 2]);
    assert(s[n - 4] == f[f.len() - 3]);
    assert(ws_len_before(s, n - 1) == 0);
    assert(ws_run_start(s, n - 1) == n - 1);
    assert(ws_run_start(s, n) == n - 1);
    assert(s.subrange(n - 1 - f.len(), n - 1) == f);
    assert(s.subrange(0, event.len() as int) == event);
}

/// The name of the file for the events of region `i`, made from the input
/// file name by putting `.i.` in place of its first `.`; a name without a
/// `.` gets `.i.` appended.
pub open spec fn spec_region_file_name(name: Seq<u8>, i: nat) -> Seq<u8> {
    match find_byte(name, 0, 46u8) {
        Some(k) => name.subrange(0, k) + seq![46u8] + encode_utf8(decimal(i)) + seq![46u8]
            + name.subrange(k + 1, name.len() as int),
        None => name + seq![46u8] + encode_utf8(decimal(i)) + seq![46u8],
    }
}

/// The name of the output file for the events of region `i` of the input
/// file `name`: the part before the first `.`, then `.i.`, then the rest.
pub fn region_file_name(name: &str, i: usize) -> (r: String)
    ensures
        encode_utf8(r@) == spec_region_file_name(name.spec_bytes(), i as nat),
{
    let bytes = name.as_bytes();
    let number = decimal_string(i as u64);
    let dot = ".";
    proof {
        reveal_strlit(".");
        assert(encode_utf8(dot@) == seq![46u8]) by {
            assert(dot@ == seq!['.']);
            assert(is_ascii_chars(dot@));
            is_ascii_chars_encode_utf8(dot@);
        }
        encode_utf8_valid_utf8(name@);
        lemma_find_byte_found(bytes@, 0, 46u8);
    }
    let (prefix, suffix) = match find_byte_from(bytes, 0, 46u8) {
        Some(k) => {
            proof {
                is_char_boundary_iff_not_is_continuation_byte(bytes@, k as int);
            }
            let (prefix, rest) = name.split_at(k);
            proof {
                encode_utf8_valid_utf8(rest@);
                assert(rest.spec_bytes()[0] == 46u8);
                reveal_with_fuel(is_char_boundary, 2);
                assert(length_of_first_scalar(rest.spec_bytes()) == 1);
            }
            let (_, suffix) = rest.split_at(1);
            (prefix, suffix)
        },
        None => (name, ""),
    };
    let a = concat_str(prefix, dot);
    let b = concat_str(a.as_str(), number.as_str());
    let c = concat_str(b.as_str(), dot);
    let r = concat_str(c.as_str(), suffix);
    proof {
        lemma_encode_utf8_concat(prefix@, dot@);
        lemma_encode_utf8_concat(a@, number@);
        lemma_encode_utf8_concat(b@, dot@);
        lemma_encode_utf8_concat(c@, suffix@);
        reveal_strlit("");
    }
    r
}

} // verus!
