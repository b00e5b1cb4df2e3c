//! Command-line option values shared by the programs: compression
//! settings and output formats.
use vstd::prelude::*;

use crate::compression::Compression;
use crate::number::{parse_u8, spec_parse_u8};
use crate::text::{concat_str, str_eq};
use vstd::slice::slice_subrange;
use vstd::string::StringSliceAdditionalSpecFns;

verus! {

/// Pattern of a compression setting: an algorithm name of letters and
/// digits, optionally followed by `_` and a level.
pub const COMPRESSION_PATTERN: &'static str = r"^(?P<algo>[[:alnum:]]+)(?P<lvl>_\d+)?$";

pub const GZIP_DEFAULT_LEVEL: u8 = 6;

pub const LZ4_DEFAULT_LEVEL: u8 = 0;

pub const ZSTD_DEFAULT_LEVEL: u8 = 0;

/// Output formats that can be chosen on the command line.
#[derive(Debug, Copy, Clone, PartialEq, Eq, Structural)]
pub enum FileFormat {
    HepMC2,
    Lhef,
    Root,
    StripperXml,
}

impl Default for FileFormat {
    fn default() -> (r: Self)
        ensures
            r == FileFormat::HepMC2,
    {
        FileFormat::HepMC2
    }
}

/// Formats events can be written in.
#[derive(Debug, Copy, Clone, PartialEq, Eq, Structural)]
pub enum OutputFormat {
    HepMC2,
    Lhef,
    Root,
    StripperXml,
}

/// The output format for input of the given format.
pub open spec fn spec_output_format(source: FileFormat) -> OutputFormat {
    match source {
        FileFormat::HepMC2 => OutputFormat::HepMC2,
        FileFormat::Lhef => OutputFormat::Lhef,
        FileFormat::Root => OutputFormat::Root,
        FileFormat::StripperXml => OutputFormat::StripperXml,
    }
}

impl From<FileFormat> for OutputFormat {
    fn from(source: FileFormat) -> (r: Self) {
        match source {
            FileFormat::HepMC2 => OutputFormat::HepMC2,
            FileFormat::Lhef => OutputFormat::Lhef,
            FileFormat::Root => OutputFormat::Root,
            FileFormat::StripperXml => OutputFormat::StripperXml,
        }
    }
}

impl vstd::std_specs::convert::FromSpecImpl<FileFormat> for OutputFormat {
    open spec fn obeys_from_spec() -> bool {
        true
    }

    open spec fn from_spec(v: FileFormat) -> OutputFormat {
        spec_output_format(v)
    }
}

/// Why a compression setting was refused.
#[derive(Debug, Clone)]
pub enum ParseCompressionErr {
    /// The setting names no known algorithm.
    UnknownAlgorithm(String),
    /// The level (first) is not supported by the algorithm (second).
    UnsupportedLevel(String, String),
}

impl ParseCompressionErr {
    /// The error message.
    pub fn message(&self) -> (r: String)
        ensures
            r@ == match self {
                ParseCompressionErr::UnknownAlgorithm(s) => "Unknown compression algorithm: "@
                    + s@,
                ParseCompressionErr::UnsupportedLevel(l, a) => "Level "@ + l@
                    + " not supported for "@ + a@ + " compression"@,
            },
    {
        match self {
            ParseCompressionErr::UnknownAlgorithm(s) => concat_str(
                "Unknown compression algorithm: ",
                s.as_str(),
            ),
            ParseCompressionErr::UnsupportedLevel(l, a) => {
                let x = concat_str("Level ", l.as_str());
                let y = concat_str(x.as_str(), " not supported for ");
                let z = concat_str(y.as_str(), a.as_str());
                concat_str(z.as_str(), " compression")
            },
        }
    }
}

/// The two named groups `first` and `second` of the match of the regular
/// expression `pattern` in `text`, as `regex::Regex::captures` and
/// `regex::Captures::name` give them; `None` where nothing matches or the
/// pattern is not a valid regular expression.
pub uninterp spec fn regex_named_pair(
    pattern: Seq<char>,
    text: Seq<char>,
    first: Seq<char>,
    second: Seq<char>,
) -> Option<(Option<Seq<char>>, Option<Seq<char>>)>;

/// An optional text as the model sees it.
pub open spec fn opt_view(o: Option<String>) -> Option<Seq<char>> {
    match o {
        Some(s) => Some(s@),
        None => None,
    }
}

/// An ASCII letter or digit: what `[[:alnum:]]` matches.
pub open spec fn is_ascii_alnum(c: char) -> bool {
    ('0' <= c <= '9') || ('a' <= c <= 'z') || ('A' <= c <= 'Z')
}

/// Every character of `t` is ASCII.
pub open spec fn is_ascii_text(t: Seq<char>) -> bool {
    forall|i: int| 0 <= i < t.len() ==> (#[trigger] t[i] as u32) < 128
}

/// The end of the run of ASCII letters and digits that starts at `i`.
pub open spec fn alnum_end(t: Seq<char>, i: nat) -> nat
    decreases t.len() - i,
{
    if i < t.len() && is_ascii_alnum(t[i as int]) {
        alnum_end(t, i + 1)
    } else {
        i
    }
}

/// What `COMPRESSION_PATTERN` captures in an ASCII text as its `algo` and
/// `lvl` groups: the text matches when it is a run of letters and digits,
/// optionally followed by `_` and one or more digits; `algo` is the run and
/// `lvl` what follows it, if anything does.
pub open spec fn setting_captures(t: Seq<char>) -> Option<(Option<Seq<char>>, Option<Seq<char>>)> {
    let k = alnum_end(t, 0);
    let rest = t.subrange(k as int, t.len() as int);
    if k == 0 {
        None
    } else if rest.len() == 0 {
        Some((Some(t.subrange(0, k as int)), None))
    } else if rest[0] == '_' && rest.len() >= 2 && (forall|j: int| 1 <= j < rest.len() ==> '0' <= #[trigger] rest[j] <= '9') {
        Some((Some(t.subrange(0, k as int)), Some(rest)))
    } else {
        None
    }
}

/// Calls `regex::Regex::new` on `pattern`, then `regex::Regex::captures` on
/// `text` and `regex::Captures::name` for the two group names. The result is
/// named by `regex_named_pair`. For `COMPRESSION_PATTERN`, its two groups
/// and an ASCII text, the match is also stated: `[[:alnum:]]` is the ASCII
/// letters and digits, `\d` on ASCII text the digits `0` to `9`, `^` and
/// `$` the start and end of the text, so the algorithm is the whole run of
/// letters and digits at the start (`setting_captures`). What the pattern
/// captures in a text with other characters is stated only in part: there
/// `[[:alnum:]]` still matches ASCII letters and digits alone, so a match
/// must hold its non-ASCII characters in the level group, after its `_`,
/// where `\d` matches the Unicode decimal digits. Which such texts match is
/// not stated.
#[verifier::external_body]
fn named_captures(pattern: &str, text: &str, first: &str, second: &str) -> (r: Option<
    (Option<String>, Option<String>),
>)
    ensures
        regex_named_pair(pattern@, text@, first@, second@) == match r {
            Some((a, b)) => Some((opt_view(a), opt_view(b))),
            None => None,
        },
        pattern@ == COMPRESSION_PATTERN@ && first@ == "algo"@ && second@ == "lvl"@ && is_ascii_text(text@)
            ==> match r {
            Some((a, b)) => Some((opt_view(a), opt_view(b))),
            None => None,
        } == setting_captures(text@),
        pattern@ == COMPRESSION_PATTERN@ && first@ == "algo"@ && second@ == "lvl"@ && !is_ascii_text(
            text@,
        ) ==> match r {
            None => true,
            Some((Some(a), Some(l))) => l@.len() >= 2 && l@[0] == '_' && exists|j: int|
                1 <= j < l@.len() && (#[trigger] l@[j] as u32) >= 128,
            _ => false,
        },
{
    let re = match regex::Regex::new(pattern) {
        Ok(re) => re,
        Err(_) => return None,
    };
    let caps = re.captures(text)?;
    let a = match caps.name(first) {
        Some(m) => Some(m.as_str().to_owned()),
        None => None,
    };
    let b = match caps.name(second) {
        Some(m) => Some(m.as_str().to_owned()),
        None => None,
    };
    Some((a, b))
}

/// ASCII lower case of a character.
pub open spec fn ascii_lower_char(c: char) -> char {
    if 'A' <= c <= 'Z' {
        ((c as u32) + 32) as char
    } else {
        c
    }
}

/// `s` with the ASCII letters in lower case.
pub open spec fn ascii_lowercase(s: Seq<char>) -> Seq<char> {
    s.map_values(|c: char| ascii_lower_char(c))
}

/// Calls `str::to_ascii_lowercase`, which maps `A` to `Z` to `a` to `z` and
/// leaves every other character as it is.
#[verifier::external_body]
fn to_ascii_lowercase(s: &str) -> (r: String)
    ensures
        r@ == ascii_lowercase(s@),
{
    s.to_ascii_lowercase()
}

/// The text of a level after its leading `_`, as bytes.
pub open spec fn level_digits(l: Seq<char>) -> Seq<u8> {
    let b = vstd::utf8::encode_utf8(l);
    if b.len() == 0 {
        b
    } else {
        b.subrange(1, b.len() as int)
    }
}

/// The level of `algo` given by `lvl` (or the default), if it is at most
/// `max`; `Err` carries the algorithm and the level text.
pub open spec fn spec_level(algo: Seq<char>, lvl: Option<Seq<char>>, max: u8, default: u8) -> Result<
    u8,
    Option<(Seq<char>, Seq<char>)>,
> {
    match lvl {
        None => Ok(default),
        Some(l) => match spec_parse_u8(level_digits(l)) {
            Ok(v) => if v <= max {
                Ok(v)
            } else {
                Err(Some((algo, l)))
            },
            Err(_) => Err(Some((algo, l))),
        },
    }
}

/// The compression an algorithm name and an optional level stand for.
/// `Err(None)` is an unknown algorithm, `Err(Some((algo, level)))` a level
/// that is not supported.
pub open spec fn spec_compression_from_parts(algo: Seq<char>, lvl: Option<Seq<char>>) -> Result<
    Compression,
    Option<(Seq<char>, Seq<char>)>,
> {
    if algo == "bzip2"@ || algo == "bz2"@ {
        match lvl {
            Some(l) => Err(Some((algo, l))),
            None => Ok(Compression::Bzip2),
        }
    } else if algo == "gzip"@ || algo == "gz"@ {
        match spec_level(algo, lvl, 9, GZIP_DEFAULT_LEVEL) {
            Ok(v) => Ok(Compression::Gzip(v)),
            Err(e) => Err(e),
        }
    } else if algo == "lz4"@ {
        match spec_level(algo, lvl, 16, LZ4_DEFAULT_LEVEL) {
            Ok(v) => Ok(Compression::Lz4(v)),
            Err(e) => Err(e),
        }
    } else if algo == "zstd"@ || algo == "zstandard"@ {
        match spec_level(algo, lvl, 19, ZSTD_DEFAULT_LEVEL) {
            Ok(v) => Ok(Compression::Zstd(v)),
            Err(e) => Err(e),
        }
    } else {
        Err(None)
    }
}

/// The compression that the captured `algo` and `lvl` groups stand for; no
/// match, or a match without an algorithm, is an unknown algorithm.
pub open spec fn spec_compression_from_captures(caps: Option<(Option<Seq<char>>, Option<Seq<char>>)>) -> Result<
    Compression,
    Option<(Seq<char>, Seq<char>)>,
> {
    match caps {
        Some((Some(algo), lvl)) => spec_compression_from_parts(algo, lvl),
        _ => Err(None),
    }
}

/// Whether `r` is what a compression setting `s` with outcome `spec` gives.
pub open spec fn compression_result(
    s: Seq<char>,
    spec: Result<Compression, Option<(Seq<char>, Seq<char>)>>,
    r: Result<Compression, ParseCompressionErr>,
) -> bool {
    match spec {
        Ok(c) => r == Ok::<Compression, ParseCompressionErr>(c),
        Err(None) => r matches Err(ParseCompressionErr::UnknownAlgorithm(x)) && x@ == s,
        Err(Some((a, l))) => r matches Err(ParseCompressionErr::UnsupportedLevel(x, y)) && x@ == l
            && y@ == a,
    }
}

fn parse_level(algo: &String, lvl: &Option<String>, max: u8, default: u8) -> (r: Result<u8, ParseCompressionErr>)
    ensures
        match spec_level(algo@, opt_view(*lvl), max, default) {
            Ok(v) => r == Ok::<u8, ParseCompressionErr>(v),
            Err(None) => false,
            Err(Some((a, l))) => r matches Err(ParseCompressionErr::UnsupportedLevel(x, y)) && x@
                == l && y@ == a,
        },
{
    match lvl {
        None => Ok(default),
        Some(l) => {
            let b = l.as_str().as_bytes();
            let digits = if b.len() == 0 {
                b
            } else {
                slice_subrange(b, 1, b.len())
            };
            match parse_u8(digits) {
                Ok(v) => {
                    if v <= max {
                        Ok(v)
                    } else {
                        Err(ParseCompressionErr::UnsupportedLevel(l.clone(), algo.clone()))
                    }
                },
                Err(_) => Err(ParseCompressionErr::UnsupportedLevel(l.clone(), algo.clone())),
            }
        },
    }
}

/// The compression that the captured algorithm name and level of the
/// setting `s` stand for.
pub fn compression_from_captures(s: &str, caps: Option<(Option<String>, Option<String>)>) -> (r: Result<
    Compression,
    ParseCompressionErr,
>)
    ensures
        compression_result(
            s@,
            spec_compression_from_captures(
                match caps {
                    Some((a, b)) => Some((opt_view(a), opt_view(b))),
                    None => None,
                },
            ),
            r,
        ),
{
    let (algo, lvl) = match caps {
        Some((Some(algo), lvl)) => (algo, lvl),
        _ => return Err(ParseCompressionErr::UnknownAlgorithm(s.to_owned())),
    };
    let a = algo.as_str();
    if str_eq(a, "bzip2") || str_eq(a, "bz2") {
        match lvl {
            Some(l) => Err(ParseCompressionErr::UnsupportedLevel(l, algo.clone())),
            None => Ok(Compression::Bzip2),
        }
    } else if str_eq(a, "gzip") || str_eq(a, "gz") {
        match parse_level(&algo, &lvl, 9, GZIP_DEFAULT_LEVEL) {
            Ok(v) => Ok(Compression::Gzip(v)),
            Err(e) => Err(e),
        }
    } else if str_eq(a, "lz4") {
        match parse_level(&algo, &lvl, 16, LZ4_DEFAULT_LEVEL) {
            Ok(v) => Ok(Compression::Lz4(v)),
            Err(e) => Err(e),
        }
    } else if str_eq(a, "zstd") || str_eq(a, "zstandard") {
        match parse_level(&algo, &lvl, 19, ZSTD_DEFAULT_LEVEL) {
            Ok(v) => Ok(Compression::Zstd(v)),
            Err(e) => Err(e),
        }
    } else {
        Err(ParseCompressionErr::UnknownAlgorithm(s.to_owned()))
    }
}

/// Read a compression setting with the given pattern: the setting is
/// matched in lower case, and its algorithm and level groups decide.
pub fn parse_compr_with(pattern: &str, s: &str) -> (r: Result<Compression, ParseCompressionErr>)
    ensures
        compression_result(
            s@,
            spec_compression_from_captures(
                regex_named_pair(pattern@, ascii_lowercase(s@), "algo"@, "lvl"@),
            ),
            r,
        ),
        pattern@ == COMPRESSION_PATTERN@ && is_ascii_text(s@) ==> compression_result(
            s@,
            spec_compression_from_captures(setting_captures(ascii_lowercase(s@))),
            r,
        ),
        pattern@ == COMPRESSION_PATTERN@ && !is_ascii_text(s@) ==> r is Err,
{
    let lower = to_ascii_lowercase(s);
    proof {
        lemma_lowercase_ascii(s@);
        lemma_lowercase_keeps_non_ascii(s@);
        reveal_strlit("algo");
        reveal_strlit("lvl");
    }
    let caps = named_captures(pattern, lower.as_str(), "algo", "lvl");
    let ghost found = caps;
    proof {
        if pattern@ == COMPRESSION_PATTERN@ && !is_ascii_text(s@) {
            if let Some((Some(a), Some(l))) = found {
                let j = choose|j: int| 1 <= j < l@.len() && (#[trigger] l@[j] as u32) >= 128;
                lemma_non_ascii_level_refused(a@, l@, j);
            }
        }
    }
    compression_from_captures(s, caps)
}

/// Lower case leaves the characters outside ASCII as they are.
proof fn lemma_lowercase_keeps_non_ascii(t: Seq<char>)
    ensures
        !is_ascii_text(t) ==> !is_ascii_text(ascii_lowercase(t)),
{
    if !is_ascii_text(t) {
        let i = choose|i: int| 0 <= i < t.len() && !((#[trigger] t[i] as u32) < 128);
        assert(ascii_lowercase(t)[i] == t[i]);
    }
}

/// The first byte of the UTF-8 encoding of a character outside ASCII is
/// not ASCII either.
proof fn lemma_leading_bytes_high(s: u32)
    by (bit_vector)
    ensures
        (0xC0u8 | ((s >> 6u32) & 0x1Fu32) as u8) >= 0x80u8,
        (0xE0u8 | ((s >> 12u32) & 0x0Fu32) as u8) >= 0x80u8,
        (0xF0u8 | ((s >> 18u32) & 0x7u32) as u8) >= 0x80u8,
{
}

/// A text with a character outside ASCII at `j` has a byte of 128 or more
/// in its UTF-8 encoding.
proof fn lemma_encode_high_byte(chars: Seq<char>, j: int)
    requires
        0 <= j < chars.len(),
        (chars[j] as u32) >= 128,
    ensures
        exists|k: int|
            0 <= k < vstd::utf8::encode_utf8(chars).len() && #[trigger] vstd::utf8::encode_utf8(
                chars,
            )[k] >= 128,
    decreases chars.len(),
{
    let head = vstd::utf8::encode_scalar(chars[0] as u32);
    let tail = vstd::utf8::encode_utf8(chars.drop_first());
    assert(vstd::utf8::encode_utf8(chars) == head + tail);
    if j == 0 {
        lemma_leading_bytes_high(chars[0] as u32);
        assert(head[0] >= 128);
        assert(vstd::utf8::encode_utf8(chars)[0] == head[0]);
    } else {
        lemma_encode_high_byte(chars.drop_first(), j - 1);
        let k = choose|k: int| 0 <= k < tail.len() && #[trigger] tail[k] >= 128;
        assert(vstd::utf8::encode_utf8(chars)[head.len() + k] == tail[k]);
    }
}

/// The bytes of a digit run are digits.
proof fn lemma_digit_run(s: Seq<u8>, i: int, k: int)
    requires
        0 <= i <= k < crate::text::digits_end(s, i),
    ensures
        crate::text::is_digit(s[k]),
    decreases k - i,
{
    if k > i {
        lemma_digit_run(s, i + 1, k);
    }
}

/// A number is never read from bytes holding one of 128 or more.
proof fn lemma_parse_high_byte_refused(s: Seq<u8>, k: int)
    requires
        0 <= k < s.len(),
        s[k] >= 128,
    ensures
        spec_parse_u8(s) is Err,
{
    if s.len() > 0 && !((s[0] == 43u8 || s[0] == 45u8) && s.len() == 1) {
        let d: int = if s[0] == 43u8 {
            1
        } else {
            0
        };
        crate::text::lemma_digits_end_bounds(s, d);
        if crate::text::digits_end(s, d) == s.len() && k >= d {
            lemma_digit_run(s, d, k);
        }
    }
}

/// A level of `_` followed by text with a character outside ASCII is
/// refused, whatever the algorithm.
proof fn lemma_non_ascii_level_refused(algo: Seq<char>, l: Seq<char>, j: int)
    requires
        l.len() >= 2,
        l[0] == '_',
        1 <= j < l.len(),
        (l[j] as u32) >= 128,
    ensures
        spec_compression_from_parts(algo, Some(l)) is Err,
{
    let rest = l.drop_first();
    assert(rest[j - 1] == l[j]);
    lemma_encode_high_byte(rest, j - 1);
    assert((95u32 & 0x7Fu32) as u8 == 95u8) by (bit_vector);
    assert(l[0] as u32 == 95);
    let b = vstd::utf8::encode_utf8(l);
    assert(b == seq![95u8] + vstd::utf8::encode_utf8(rest));
    assert(level_digits(l) == vstd::utf8::encode_utf8(rest));
    let k = choose|k: int|
        0 <= k < vstd::utf8::encode_utf8(rest).len() && #[trigger] vstd::utf8::encode_utf8(rest)[k]
            >= 128;
    lemma_parse_high_byte_refused(level_digits(l), k);
}

/// Lower case keeps a text ASCII.
proof fn lemma_lowercase_ascii(t: Seq<char>)
    ensures
        is_ascii_text(t) ==> is_ascii_text(ascii_lowercase(t)),
{
    if is_ascii_text(t) {
        let l = ascii_lowercase(t);
        assert forall|i: int| 0 <= i < l.len() implies (#[trigger] l[i] as u32) < 128 by {
            assert(l[i] == ascii_lower_char(t[i]));
            assert((t[i] as u32) < 128);
        }
    }
}

/// Read a compression setting such as `gzip`, `zstd_5` or `BZ2`. For an
/// ASCII setting the outcome is stated in full: the lower-case setting must
/// be an algorithm name of letters and digits, optionally followed by `_`
/// and a level of digits. A setting with other characters is refused.
pub fn parse_compr(s: &str) -> (r: Result<Compression, ParseCompressionErr>)
    ensures
        compression_result(
            s@,
            spec_compression_from_captures(
                regex_named_pair(COMPRESSION_PATTERN@, ascii_lowercase(s@), "algo"@, "lvl"@),
            ),
            r,
        ),
        is_ascii_text(s@) ==> compression_result(
            s@,
            spec_compression_from_captures(setting_captures(ascii_lowercase(s@))),
            r,
        ),
        !is_ascii_text(s@) ==> r is Err,
{
    parse_compr_with(COMPRESSION_PATTERN, s)
}

/// Levels are set with `algorithm_level` and the maximum levels are 9 for
/// gzip, 16 for lz4 and 19 for zstd, while bzip2 takes none: for a known
/// algorithm, a level is accepted exactly when it reads as a number no
/// larger than the maximum, and then it is the level used; without a level
/// the default is used.
pub proof fn law_compression_levels(algo: Seq<char>, l: Seq<char>)
    ensures
        (algo == "gzip"@ || algo == "gz"@) ==> (spec_compression_from_parts(algo, Some(l))
            == match spec_parse_u8(level_digits(l)) {
            Ok(v) => if v <= 9 {
                Ok(Compression::Gzip(v))
            } else {
                Err(Some((algo, l)))
            },
            Err(_) => Err(Some((algo, l))),
        }),
        algo == "lz4"@ ==> (spec_compression_from_parts(algo, Some(l)) == match spec_parse_u8(
            level_digits(l),
        ) {
            Ok(v) => if v <= 16 {
                Ok(Compression::Lz4(v))
            } else {
                Err(Some((algo, l)))
            },
            Err(_) => Err(Some((algo, l))),
        }),
        (algo == "zstd"@ || algo == "zstandard"@) ==> (spec_compression_from_parts(algo, Some(l))
            == match spec_parse_u8(level_digits(l)) {
            Ok(v) => if v <= 19 {
                Ok(Compression::Zstd(v))
            } else {
                Err(Some((algo, l)))
            },
            Err(_) => Err(Some((algo, l))),
        }),
        (algo == "bzip2"@ || algo == "bz2"@) ==> spec_compression_from_parts(algo, Some(l))
            == Err::<Compression, Option<(Seq<char>, Seq<char>)>>(Some((algo, l))),
        (algo == "gzip"@ || algo == "gz"@) ==> spec_compression_from_parts(algo, None)
            == Ok::<Compression, Option<(Seq<char>, Seq<char>)>>(Compression::Gzip(6)),
        algo == "lz4"@ ==> spec_compression_from_parts(algo, None) == Ok::<
            Compression,
            Option<(Seq<char>, Seq<char>)>,
        >(Compression::Lz4(0)),
        (algo == "zstd"@ || algo == "zstandard"@) ==> spec_compression_from_parts(algo, None)
            == Ok::<Compression, Option<(Seq<char>, Seq<char>)>>(Compression::Zstd(0)),
{
    reveal_strlit("gzip");
    reveal_strlit("gz");
    reveal_strlit("lz4");
    reveal_strlit("zstd");
    reveal_strlit("zstandard");
    reveal_strlit("bzip2");
    reveal_strlit("bz2");
    assert("gzip"@.len() == 4 && "gz"@.len() == 2 && "lz4"@.len() == 3 && "zstd"@.len() == 4);
    assert("zstandard"@.len() == 9 && "bzip2"@.len() == 5 && "bz2"@.len() == 3);
    assert("lz4"@[0] == 'l' && "bz2"@[0] == 'b' && "gzip"@[0] == 'g' && "zstd"@[0] == 'z');
}

} // verus!
