//! The decoder of the standard JSON source-map wire format (version 3).
//!
//! It accepts one JSON object and reads the fields `version` (must be 3),
//! `sources` and `names` (arrays of strings, `null` entries stored as empty
//! strings), `mappings` (string), and `sourcesContent` (array of strings,
//! `null` meaning no content for that index); every other member is
//! skipped. String escapes, `\uXXXX` and surrogate pairs included, decode
//! to UTF-8 bytes. Nesting and size are bounded by a fuel budget drawn from
//! the input length, so parsing always terminates. No partial document is
//! returned on error.

use vstd::prelude::*;

use crate::document::{doc_wf, token_ids_wf, DocModel, SourceMap, Token};
use crate::errors::Error;
use crate::mappings;
use crate::sort;

verus! {

/// The fields a source-map object carries, before validation.
pub ghost struct RawModel {
    pub version: Option<i64>,
    pub sources: Seq<Seq<u8>>,
    pub names: Seq<Seq<u8>>,
    pub contents: Option<Seq<Option<Seq<u8>>>>,
    pub mappings: Seq<u8>,
}

/// No field seen yet.
pub open spec fn raw_init() -> RawModel {
    RawModel {
        version: None,
        sources: Seq::empty(),
        names: Seq::empty(),
        contents: None,
        mappings: Seq::empty(),
    }
}

/// JSON whitespace.
pub open spec fn is_ws(b: u8) -> bool {
    b == 32 || b == 9 || b == 10 || b == 13
}

/// The first non-whitespace position at or after `i`.
pub open spec fn ws(s: Seq<u8>, i: int) -> int
    decreases s.len() - i,
{
    if 0 <= i < s.len() && is_ws(s[i]) {
        ws(s, i + 1)
    } else {
        i
    }
}

/// The value of a hexadecimal digit; 16 marks any other byte.
pub open spec fn hex_val(b: u8) -> nat {
    if 48 <= b <= 57 {
        (b - 48) as nat
    } else if 97 <= b <= 102 {
        (b - 97 + 10) as nat
    } else if 65 <= b <= 70 {
        (b - 65 + 10) as nat
    } else {
        16
    }
}

/// The UTF-8 bytes of a code point.
pub open spec fn utf8_enc(cp: int) -> Seq<u8> {
    if cp < 0x80 {
        seq![cp as u8]
    } else if cp < 0x800 {
        seq![(0xC0 + cp / 64) as u8, (0x80 + cp % 64) as u8]
    } else if cp < 0x10000 {
        seq![(0xE0 + cp / 4096) as u8, (0x80 + (cp / 64) % 64) as u8, (0x80 + cp % 64) as u8]
    } else {
        seq![
            (0xF0 + cp / 262144) as u8,
            (0x80 + (cp / 4096) % 64) as u8,
            (0x80 + (cp / 64) % 64) as u8,
            (0x80 + cp % 64) as u8,
        ]
    }
}

/// The four hex digits at `i`, or 0x10000 when any is not hex.
pub open spec fn hex4(s: Seq<u8>, i: int) -> int
    recommends
        0 <= i,
        i + 4 <= s.len(),
{
    if hex_val(s[i]) == 16 || hex_val(s[i + 1]) == 16 || hex_val(s[i + 2]) == 16 || hex_val(
        s[i + 3],
    ) == 16 {
        0x10000
    } else {
        hex_val(s[i]) * 4096 + hex_val(s[i + 1]) * 256 + hex_val(s[i + 2]) * 16 + hex_val(
            s[i + 3],
        ) as int
    }
}

/// The bytes of a string body read from position `i` (past the opening
/// quote) with `acc` already read, up to and past the closing quote.
pub open spec fn parse_str_chars(s: Seq<u8>, i: int, acc: Seq<u8>) -> Result<(Seq<u8>, int), Error>
    decreases s.len() - i,
{
    if !(0 <= i < s.len()) {
        Err(Error::InvalidJson)
    } else if s[i] == 34 {
        Ok((acc, i + 1))
    } else if s[i] == 92 {
        if i + 1 >= s.len() {
            Err(Error::InvalidJson)
        } else {
            let e = s[i + 1];
            if e == 34 || e == 92 || e == 47 {
                parse_str_chars(s, i + 2, acc.push(e))
            } else if e == 98 {
                parse_str_chars(s, i + 2, acc.push(8))
            } else if e == 102 {
                parse_str_chars(s, i + 2, acc.push(12))
            } else if e == 110 {
                parse_str_chars(s, i + 2, acc.push(10))
            } else if e == 114 {
                parse_str_chars(s, i + 2, acc.push(13))
            } else if e == 116 {
                parse_str_chars(s, i + 2, acc.push(9))
            } else if e == 117 {
                if i + 6 > s.len() {
                    Err(Error::InvalidJson)
                } else {
                    let cp = hex4(s, i + 2);
                    if cp >= 0x10000 {
                        Err(Error::InvalidJson)
                    } else if 0xD800 <= cp < 0xDC00 {
                        // a high surrogate must pair with a low one
                        if i + 12 > s.len() || s[i + 6] != 92 || s[i + 7] != 117 {
                            Err(Error::InvalidJson)
                        } else {
                            let cp2 = hex4(s, i + 8);
                            if !(0xDC00 <= cp2 < 0xE000) {
                                Err(Error::InvalidJson)
                            } else {
                                let full = 0x10000 + (cp - 0xD800) * 0x400 + (cp2 - 0xDC00);
                                parse_str_chars(s, i + 12, acc + utf8_enc(full))
                            }
                        }
                    } else if 0xDC00 <= cp < 0xE000 {
                        Err(Error::InvalidJson)
                    } else {
                        parse_str_chars(s, i + 6, acc + utf8_enc(cp))
                    }
                }
            } else {
                Err(Error::InvalidJson)
            }
        }
    } else {
        parse_str_chars(s, i + 1, acc.push(s[i]))
    }
}

/// A string, opening quote at `i`.
pub open spec fn parse_string(s: Seq<u8>, i: int) -> Result<(Seq<u8>, int), Error> {
    if !(0 <= i < s.len()) || s[i] != 34 {
        Err(Error::InvalidJson)
    } else {
        parse_str_chars(s, i + 1, Seq::empty())
    }
}

/// Decimal digits from `i`, accumulated with saturation far above any
/// version number this engine accepts.
pub open spec fn parse_digits(s: Seq<u8>, i: int, acc: i64) -> (i64, int)
    decreases s.len() - i,
{
    if 0 <= i < s.len() && 48 <= s[i] <= 57 {
        let acc2: i64 = if acc > 0xFFFF_FFFFi64 {
            acc
        } else {
            (acc * 10 + (s[i] - 48)) as i64
        };
        parse_digits(s, i + 1, acc2)
    } else {
        (acc, i)
    }
}

/// An integer (an optional minus and digits), for the `version` field.
pub open spec fn parse_int(s: Seq<u8>, i: int) -> Result<(i64, int), Error> {
    if 0 <= i < s.len() && s[i] == 45 {
        if i + 1 < s.len() && 48 <= s[i + 1] <= 57 {
            let (v, j) = parse_digits(s, i + 1, 0);
            Ok(((-v) as i64, j))
        } else {
            Err(Error::InvalidJson)
        }
    } else if 0 <= i < s.len() && 48 <= s[i] <= 57 {
        Ok(parse_digits(s, i, 0))
    } else {
        Err(Error::InvalidJson)
    }
}

/// A byte a skipped number token may hold.
pub open spec fn is_num_byte(b: u8) -> bool {
    (48 <= b <= 57) || b == 45 || b == 43 || b == 46 || b == 101 || b == 69
}

/// The end of a run of number bytes.
pub open spec fn skip_num(s: Seq<u8>, i: int) -> int
    decreases s.len() - i,
{
    if 0 <= i < s.len() && is_num_byte(s[i]) {
        skip_num(s, i + 1)
    } else {
        i
    }
}

/// Skips one JSON value starting at or after `i`; `fuel` bounds the work.
pub open spec fn skip_value(s: Seq<u8>, i: int, fuel: nat) -> Result<int, Error>
    decreases fuel,
{
    if fuel == 0 {
        Err(Error::InvalidJson)
    } else {
        let j = ws(s, i);
        if !(0 <= j < s.len()) {
            Err(Error::InvalidJson)
        } else {
            let b = s[j];
            if b == 34 {
                match parse_string(s, j) {
                    Err(e) => Err(e),
                    Ok((_, k)) => Ok(k),
                }
            } else if b == 123 {
                skip_members(s, j + 1, (fuel - 1) as nat)
            } else if b == 91 {
                skip_elems(s, j + 1, (fuel - 1) as nat)
            } else if b == 116 {
                if j + 4 <= s.len() && s[j + 1] == 114 && s[j + 2] == 117 && s[j + 3] == 101 {
                    Ok(j + 4)
                } else {
                    Err(Error::InvalidJson)
                }
            } else if b == 102 {
                if j + 5 <= s.len() && s[j + 1] == 97 && s[j + 2] == 108 && s[j + 3] == 115 && s[j
                    + 4] == 101 {
                    Ok(j + 5)
                } else {
                    Err(Error::InvalidJson)
                }
            } else if b == 110 {
                if j + 4 <= s.len() && s[j + 1] == 117 && s[j + 2] == 108 && s[j + 3] == 108 {
                    Ok(j + 4)
                } else {
                    Err(Error::InvalidJson)
                }
            } else if is_num_byte(b) {
                Ok(skip_num(s, j))
            } else {
                Err(Error::InvalidJson)
            }
        }
    }
}

/// Skips array elements after `[` up to and past the `]`.
pub open spec fn skip_elems(s: Seq<u8>, i: int, fuel: nat) -> Result<int, Error>
    decreases fuel,
{
    if fuel == 0 {
        Err(Error::InvalidJson)
    } else {
        let j = ws(s, i);
        if !(0 <= j < s.len()) {
            Err(Error::InvalidJson)
        } else if s[j] == 93 {
            Ok(j + 1)
        } else {
            match skip_value(s, j, (fuel - 1) as nat) {
                Err(e) => Err(e),
                Ok(k) => {
                    let k2 = ws(s, k);
                    if !(0 <= k2 < s.len()) {
                        Err(Error::InvalidJson)
                    } else if s[k2] == 44 {
                        skip_elems(s, k2 + 1, (fuel - 1) as nat)
                    } else if s[k2] == 93 {
                        Ok(k2 + 1)
                    } else {
                        Err(Error::InvalidJson)
                    }
                },
            }
        }
    }
}

/// Skips object members after `{` up to and past the `}`.
pub open spec fn skip_members(s: Seq<u8>, i: int, fuel: nat) -> Result<int, Error>
    decreases fuel,
{
    if fuel == 0 {
        Err(Error::InvalidJson)
    } else {
        let j = ws(s, i);
        if !(0 <= j < s.len()) {
            Err(Error::InvalidJson)
        } else if s[j] == 125 {
            Ok(j + 1)
        } else {
            match parse_string(s, j) {
                Err(e) => Err(e),
                Ok((_, k)) => {
                    let k2 = ws(s, k);
                    if !(0 <= k2 < s.len()) || s[k2] != 58 {
                        Err(Error::InvalidJson)
                    } else {
                        match skip_value(s, k2 + 1, (fuel - 1) as nat) {
                            Err(e) => Err(e),
                            Ok(k3) => {
                                let k4 = ws(s, k3);
                                if !(0 <= k4 < s.len()) {
                                    Err(Error::InvalidJson)
                                } else if s[k4] == 44 {
                                    skip_members(s, k4 + 1, (fuel - 1) as nat)
                                } else if s[k4] == 125 {
                                    Ok(k4 + 1)
                                } else {
                                    Err(Error::InvalidJson)
                                }
                            },
                        }
                    }
                },
            }
        }
    }
}

/// Array items that must each be a string or `null`, after `[`, with the
/// items already read in `acc`.
pub open spec fn parse_strarr(s: Seq<u8>, i: int, fuel: nat, acc: Seq<Option<Seq<u8>>>) -> Result<
    (Seq<Option<Seq<u8>>>, int),
    Error,
>
    decreases fuel,
{
    if fuel == 0 {
        Err(Error::InvalidJson)
    } else {
        let j = ws(s, i);
        if !(0 <= j < s.len()) {
            Err(Error::InvalidJson)
        } else if s[j] == 93 {
            Ok((acc, j + 1))
        } else {
            let item = if s[j] == 34 {
                match parse_string(s, j) {
                    Err(e) => Err(e),
                    Ok((b, k)) => Ok((Some(b), k)),
                }
            } else if j + 4 <= s.len() && s[j] == 110 && s[j + 1] == 117 && s[j + 2] == 108 && s[j
                + 3] == 108 {
                Ok((None::<Seq<u8>>, j + 4))
            } else {
                Err(Error::InvalidJson)
            };
            match item {
                Err(e) => Err(e),
                Ok((o, k)) => {
                    let k2 = ws(s, k);
                    if !(0 <= k2 < s.len()) {
                        Err(Error::InvalidJson)
                    } else if s[k2] == 44 {
                        parse_strarr(s, k2 + 1, (fuel - 1) as nat, acc.push(o))
                    } else if s[k2] == 93 {
                        Ok((acc.push(o), k2 + 1))
                    } else {
                        Err(Error::InvalidJson)
                    }
                },
            }
        }
    }
}

pub open spec fn key_version() -> Seq<u8> {
    seq![118u8, 101u8, 114u8, 115u8, 105u8, 111u8, 110u8]
}

pub open spec fn key_sources() -> Seq<u8> {
    seq![115u8, 111u8, 117u8, 114u8, 99u8, 101u8, 115u8]
}

pub open spec fn key_names() -> Seq<u8> {
    seq![110u8, 97u8, 109u8, 101u8, 115u8]
}

pub open spec fn key_mappings() -> Seq<u8> {
    seq![109u8, 97u8, 112u8, 112u8, 105u8, 110u8, 103u8, 115u8]
}

pub open spec fn key_contents() -> Seq<u8> {
    seq![
        115u8,
        111u8,
        117u8,
        114u8,
        99u8,
        101u8,
        115u8,
        67u8,
        111u8,
        110u8,
        116u8,
        101u8,
        110u8,
        116u8,
    ]
}

/// A `null` entry in `sources` or `names` is stored as an empty string.
pub open spec fn unnull(xs: Seq<Option<Seq<u8>>>) -> Seq<Seq<u8>> {
    xs.map_values(
        |o: Option<Seq<u8>>|
            match o {
                Some(b) => b,
                None => Seq::<u8>::empty(),
            },
    )
}

/// Object members after `{`: the known fields are read into `raw` (a later
/// duplicate overwrites an earlier one), every other member is skipped.
pub open spec fn parse_top(s: Seq<u8>, i: int, fuel: nat, raw: RawModel) -> Result<
    (RawModel, int),
    Error,
>
    decreases fuel,
{
    if fuel == 0 {
        Err(Error::InvalidJson)
    } else {
        let j = ws(s, i);
        if !(0 <= j < s.len()) {
            Err(Error::InvalidJson)
        } else if s[j] == 125 {
            Ok((raw, j + 1))
        } else {
            match parse_string(s, j) {
                Err(e) => Err(e),
                Ok((key, k)) => {
                    let k2 = ws(s, k);
                    if !(0 <= k2 < s.len()) || s[k2] != 58 {
                        Err(Error::InvalidJson)
                    } else {
                        let after = if key == key_version() {
                            match parse_int(s, ws(s, k2 + 1)) {
                                Err(e) => Err(e),
                                Ok((v, k3)) => Ok((RawModel { version: Some(v), ..raw }, k3)),
                            }
                        } else if key == key_sources() {
                            let k25 = ws(s, k2 + 1);
                            if !(0 <= k25 < s.len()) || s[k25] != 91 {
                                Err(Error::InvalidJson)
                            } else {
                                match parse_strarr(s, k25 + 1, (fuel - 1) as nat, Seq::empty()) {
                                    Err(e) => Err(e),
                                    Ok((xs, k3)) => Ok(
                                        (RawModel { sources: unnull(xs), ..raw }, k3),
                                    ),
                                }
                            }
                        } else if key == key_names() {
                            let k25 = ws(s, k2 + 1);
                            if !(0 <= k25 < s.len()) || s[k25] != 91 {
                                Err(Error::InvalidJson)
                            } else {
                                match parse_strarr(s, k25 + 1, (fuel - 1) as nat, Seq::empty()) {
                                    Err(e) => Err(e),
                                    Ok((xs, k3)) => Ok((RawModel { names: unnull(xs), ..raw }, k3)),
                                }
                            }
                        } else if key == key_contents() {
                            let k25 = ws(s, k2 + 1);
                            if !(0 <= k25 < s.len()) || s[k25] != 91 {
                                Err(Error::InvalidJson)
                            } else {
                                match parse_strarr(s, k25 + 1, (fuel - 1) as nat, Seq::empty()) {
                                    Err(e) => Err(e),
                                    Ok((xs, k3)) => Ok(
                                        (RawModel { contents: Some(xs), ..raw }, k3),
                                    ),
                                }
                            }
                        } else if key == key_mappings() {
                            match parse_string(s, ws(s, k2 + 1)) {
                                Err(e) => Err(e),
                                Ok((b, k3)) => Ok((RawModel { mappings: b, ..raw }, k3)),
                            }
                        } else {
                            match skip_value(s, k2 + 1, (fuel - 1) as nat) {
                                Err(e) => Err(e),
                                Ok(k3) => Ok((raw, k3)),
                            }
                        };
                        match after {
                            Err(e) => Err(e),
                            Ok((raw2, k3)) => {
                                let k4 = ws(s, k3);
                                if !(0 <= k4 < s.len()) {
                                    Err(Error::InvalidJson)
                                } else if s[k4] == 44 {
                                    parse_top(s, k4 + 1, (fuel - 1) as nat, raw2)
                                } else if s[k4] == 125 {
                                    Ok((raw2, k4 + 1))
                                } else {
                                    Err(Error::InvalidJson)
                                }
                            },
                        }
                    }
                },
            }
        }
    }
}

/// The whole input as one source-map object with nothing but whitespace
/// around it.
pub open spec fn spec_parse_json(s: Seq<u8>) -> Result<RawModel, Error> {
    if s.len() > 0x7FFF_FFFF_FFFF {
        Err(Error::InvalidJson)
    } else {
        let j = ws(s, 0);
        if !(0 <= j < s.len()) || s[j] != 123 {
            Err(Error::InvalidJson)
        } else {
            match parse_top(s, j + 1, (2 * s.len() + 8) as nat, raw_init()) {
                Err(e) => Err(e),
                Ok((raw, k)) => {
                    if ws(s, k) != s.len() {
                        Err(Error::InvalidJson)
                    } else {
                        Ok(raw)
                    }
                },
            }
        }
    }
}

/// The fields read so far, at run time.
pub struct RawDoc {
    pub version: Option<i64>,
    pub sources: Vec<Vec<u8>>,
    pub names: Vec<Vec<u8>>,
    pub contents: Option<Vec<Option<Vec<u8>>>>,
    pub mappings: Vec<u8>,
}

impl View for RawDoc {
    type V = RawModel;

    open spec fn view(&self) -> RawModel {
        RawModel {
            version: self.version,
            sources: self.sources@.map_values(crate::document::bytes_view()),
            names: self.names@.map_values(crate::document::bytes_view()),
            contents: match self.contents {
                None => None,
                Some(cs) => Some(cs@.map_values(crate::document::slot_view())),
            },
            mappings: self.mappings@,
        }
    }
}

/// The first non-whitespace position at or after `i`, at run time.
#[verifier::loop_isolation(false)]
fn skip_ws(s: &Vec<u8>, i: usize) -> (j: usize)
    requires
        i <= s@.len(),
    ensures
        j as int == ws(s@, i as int),
        i <= j <= s@.len(),
{
    let mut k = i;
    loop
        invariant
            i <= k <= s@.len(),
            ws(s@, i as int) == ws(s@, k as int),
        decreases s@.len() - k,
    {
        if k >= s.len() {
            return k;
        }
        let b = s[k];
        if !(b == 32 || b == 9 || b == 10 || b == 13) {
            return k;
        }
        k = k + 1;
    }
}

fn hex_digit(b: u8) -> (d: u8)
    ensures
        d as nat == hex_val(b),
{
    if 48 <= b && b <= 57 {
        b - 48
    } else if 97 <= b && b <= 102 {
        b - 97 + 10
    } else if 65 <= b && b <= 70 {
        b - 65 + 10
    } else {
        16
    }
}

/// Appends the UTF-8 bytes of a code point.
fn push_utf8(out: &mut Vec<u8>, cp: u64)
    requires
        cp < 0x110000,
    ensures
        final(out)@ == old(out)@ + utf8_enc(cp as int),
{
    let ghost base = out@;
    if cp < 0x80 {
        out.push(cp as u8);
    } else if cp < 0x800 {
        out.push(0xC0 + (cp / 64) as u8);
        out.push(0x80 + (cp % 64) as u8);
    } else if cp < 0x10000 {
        out.push(0xE0 + (cp / 4096) as u8);
        out.push(0x80 + ((cp / 64) % 64) as u8);
        out.push(0x80 + (cp % 64) as u8);
    } else {
        out.push(0xF0 + (cp / 262144) as u8);
        out.push(0x80 + ((cp / 4096) % 64) as u8);
        out.push(0x80 + ((cp / 64) % 64) as u8);
        out.push(0x80 + (cp % 64) as u8);
    }
    proof {
        assert(out@ =~= base + utf8_enc(cp as int));
    }
}

/// Reads a string whose opening quote stands at `i`.
#[verifier::loop_isolation(false)]
#[verifier::rlimit(60)]
fn parse_string_at(s: &Vec<u8>, i: usize) -> (r: Result<(Vec<u8>, usize), Error>)
    requires
        i <= s@.len(),
    ensures
        match r {
            Ok((b, j)) => parse_string(s@, i as int) == Ok::<(Seq<u8>, int), Error>(
                (b@, j as int),
            ) && i < j <= s@.len(),
            Err(e) => parse_string(s@, i as int) == Err::<(Seq<u8>, int), Error>(e),
        },
{
    if i >= s.len() || s[i] != 34 {
        return Err(Error::InvalidJson);
    }
    let mut out: Vec<u8> = Vec::new();
    let mut k = i + 1;
    proof {
        assert(out@ =~= Seq::<u8>::empty());
    }
    loop
        invariant
            i + 1 <= k <= s@.len(),
            parse_str_chars(s@, i as int + 1, Seq::empty()) == parse_str_chars(
                s@,
                k as int,
                out@,
            ),
        decreases s@.len() - k,
    {
        if k >= s.len() {
            return Err(Error::InvalidJson);
        }
        let b = s[k];
        if b == 34 {
            return Ok((out, k + 1));
        } else if b == 92 {
            if k + 1 >= s.len() {
                return Err(Error::InvalidJson);
            }
            let e = s[k + 1];
            if e == 34 || e == 92 || e == 47 {
                out.push(e);
                k = k + 2;
            } else if e == 98 {
                out.push(8);
                k = k + 2;
            } else if e == 102 {
                out.push(12);
                k = k + 2;
            } else if e == 110 {
                out.push(10);
                k = k + 2;
            } else if e == 114 {
                out.push(13);
                k = k + 2;
            } else if e == 116 {
                out.push(9);
                k = k + 2;
            } else if e == 117 {
                if s.len() - k < 6 {
                    return Err(Error::InvalidJson);
                }
                let d0 = hex_digit(s[k + 2]);
                let d1 = hex_digit(s[k + 3]);
                let d2 = hex_digit(s[k + 4]);
                let d3 = hex_digit(s[k + 5]);
                if d0 == 16 || d1 == 16 || d2 == 16 || d3 == 16 {
                    return Err(Error::InvalidJson);
                }
                let cp: u64 = (d0 as u64) * 4096 + (d1 as u64) * 256 + (d2 as u64) * 16
                    + d3 as u64;
                proof {
                    assert(cp as int == hex4(s@, k as int + 2));
                }
                if 0xD800 <= cp && cp < 0xDC00 {
                    if s.len() - k < 12 || s[k + 6] != 92 || s[k + 7] != 117 {
                        return Err(Error::InvalidJson);
                    }
                    let e0 = hex_digit(s[k + 8]);
                    let e1 = hex_digit(s[k + 9]);
                    let e2 = hex_digit(s[k + 10]);
                    let e3 = hex_digit(s[k + 11]);
                    if e0 == 16 || e1 == 16 || e2 == 16 || e3 == 16 {
                        return Err(Error::InvalidJson);
                    }
                    let cp2: u64 = (e0 as u64) * 4096 + (e1 as u64) * 256 + (e2 as u64) * 16
                        + e3 as u64;
                    proof {
                        assert(cp2 as int == hex4(s@, k as int + 8));
                    }
                    if !(0xDC00 <= cp2 && cp2 < 0xE000) {
                        return Err(Error::InvalidJson);
                    }
                    let full: u64 = 0x10000 + (cp - 0xD800) * 0x400 + (cp2 - 0xDC00);
                    push_utf8(&mut out, full);
                    k = k + 12;
                } else if 0xDC00 <= cp && cp < 0xE000 {
                    return Err(Error::InvalidJson);
                } else {
                    push_utf8(&mut out, cp);
                    k = k + 6;
                }
            } else {
                return Err(Error::InvalidJson);
            }
        } else {
            out.push(b);
            k = k + 1;
        }
    }
}

/// Reads the integer of the `version` field.
#[verifier::loop_isolation(false)]
fn parse_int_at(s: &Vec<u8>, i: usize) -> (r: Result<(i64, usize), Error>)
    requires
        i <= s@.len(),
    ensures
        match r {
            Ok((v, j)) => parse_int(s@, i as int) == Ok::<(i64, int), Error>((v, j as int)) && i
                <= j <= s@.len(),
            Err(e) => parse_int(s@, i as int) == Err::<(i64, int), Error>(e),
        },
{
    let neg = i < s.len() && s[i] == 45;
    let start = if neg {
        i + 1
    } else {
        i
    };
    if start >= s.len() || !(48 <= s[start] && s[start] <= 57) {
        return Err(Error::InvalidJson);
    }
    let mut acc: i64 = 0;
    let mut k = start;
    loop
        invariant
            start <= k <= s@.len(),
            0 <= acc <= 42949672959i64,
            parse_digits(s@, start as int, 0) == parse_digits(s@, k as int, acc),
        decreases s@.len() - k,
    {
        if k >= s.len() || !(48 <= s[k] && s[k] <= 57) {
            break ;
        }
        if acc <= 0xFFFF_FFFFi64 {
            acc = acc * 10 + (s[k] - 48) as i64;
        }
        k = k + 1;
    }
    if neg {
        Ok((-acc, k))
    } else {
        Ok((acc, k))
    }
}

/// The end of a run of number bytes, at run time.
#[verifier::loop_isolation(false)]
fn skip_num_at(s: &Vec<u8>, i: usize) -> (j: usize)
    requires
        i <= s@.len(),
    ensures
        j as int == skip_num(s@, i as int),
        i <= j <= s@.len(),
{
    let mut k = i;
    loop
        invariant
            i <= k <= s@.len(),
            skip_num(s@, i as int) == skip_num(s@, k as int),
        decreases s@.len() - k,
    {
        if k >= s.len() {
            return k;
        }
        let b = s[k];
        if !((48 <= b && b <= 57) || b == 45 || b == 43 || b == 46 || b == 101 || b == 69) {
            return k;
        }
        k = k + 1;
    }
}

/// Skips one JSON value, at run time.
#[verifier::loop_isolation(false)]
fn skip_value_at(s: &Vec<u8>, i: usize, fuel: u64) -> (r: Result<usize, Error>)
    requires
        i <= s@.len(),
    ensures
        match r {
            Ok(k) => skip_value(s@, i as int, fuel as nat) == Ok::<int, Error>(k as int) && k
                <= s@.len(),
            Err(e) => skip_value(s@, i as int, fuel as nat) == Err::<int, Error>(e),
        },
    decreases fuel,
{
    if fuel == 0 {
        return Err(Error::InvalidJson);
    }
    let j = skip_ws(s, i);
    if j >= s.len() {
        return Err(Error::InvalidJson);
    }
    let b = s[j];
    if b == 34 {
        match parse_string_at(s, j) {
            Err(e) => Err(e),
            Ok((_, k)) => Ok(k),
        }
    } else if b == 123 {
        skip_members_at(s, j + 1, fuel - 1)
    } else if b == 91 {
        skip_elems_at(s, j + 1, fuel - 1)
    } else if b == 116 {
        if s.len() - j >= 4 && s[j + 1] == 114 && s[j + 2] == 117 && s[j + 3] == 101 {
            Ok(j + 4)
        } else {
            Err(Error::InvalidJson)
        }
    } else if b == 102 {
        if s.len() - j >= 5 && s[j + 1] == 97 && s[j + 2] == 108 && s[j + 3] == 115 && s[j + 4]
            == 101 {
            Ok(j + 5)
        } else {
            Err(Error::InvalidJson)
        }
    } else if b == 110 {
        if s.len() - j >= 4 && s[j + 1] == 117 && s[j + 2] == 108 && s[j + 3] == 108 {
            Ok(j + 4)
        } else {
            Err(Error::InvalidJson)
        }
    } else if (48 <= b && b <= 57) || b == 45 || b == 43 || b == 46 || b == 101 || b == 69 {
        Ok(skip_num_at(s, j))
    } else {
        Err(Error::InvalidJson)
    }
}

/// Skips array elements after `[`, at run time.
#[verifier::loop_isolation(false)]
fn skip_elems_at(s: &Vec<u8>, i: usize, fuel: u64) -> (r: Result<usize, Error>)
    requires
        i <= s@.len(),
    ensures
        match r {
            Ok(k) => skip_elems(s@, i as int, fuel as nat) == Ok::<int, Error>(k as int) && k
                <= s@.len(),
            Err(e) => skip_elems(s@, i as int, fuel as nat) == Err::<int, Error>(e),
        },
    decreases fuel,
{
    let mut cur = i;
    let mut f = fuel;
    loop
        invariant
            cur <= s@.len(),
            f <= fuel,
            skip_elems(s@, i as int, fuel as nat) == skip_elems(s@, cur as int, f as nat),
        decreases f,
    {
        if f == 0 {
            return Err(Error::InvalidJson);
        }
        let j = skip_ws(s, cur);
        if j >= s.len() {
            return Err(Error::InvalidJson);
        }
        if s[j] == 93 {
            return Ok(j + 1);
        }
        let k = match skip_value_at(s, j, f - 1) {
            Err(e) => {
                return Err(e);
            },
            Ok(k) => k,
        };
        let k2 = skip_ws(s, k);
        if k2 >= s.len() {
            return Err(Error::InvalidJson);
        }
        if s[k2] == 44 {
            cur = k2 + 1;
            f = f - 1;
        } else if s[k2] == 93 {
            return Ok(k2 + 1);
        } else {
            return Err(Error::InvalidJson);
        }
    }
}

/// Skips object members after `{`, at run time.
#[verifier::loop_isolation(false)]
fn skip_members_at(s: &Vec<u8>, i: usize, fuel: u64) -> (r: Result<usize, Error>)
    requires
        i <= s@.len(),
    ensures
        match r {
            Ok(k) => skip_members(s@, i as int, fuel as nat) == Ok::<int, Error>(k as int) && k
                <= s@.len(),
            Err(e) => skip_members(s@, i as int, fuel as nat) == Err::<int, Error>(e),
        },
    decreases fuel,
{
    let mut cur = i;
    let mut f = fuel;
    loop
        invariant
            cur <= s@.len(),
            f <= fuel,
            skip_members(s@, i as int, fuel as nat) == skip_members(s@, cur as int, f as nat),
        decreases f,
    {
        if f == 0 {
            return Err(Error::InvalidJson);
        }
        let j = skip_ws(s, cur);
        if j >= s.len() {
            return Err(Error::InvalidJson);
        }
        if s[j] == 125 {
            return Ok(j + 1);
        }
        let k = match parse_string_at(s, j) {
            Err(e) => {
                return Err(e);
            },
            Ok((_, k)) => k,
        };
        let k2 = skip_ws(s, k);
        if k2 >= s.len() || s[k2] != 58 {
            return Err(Error::InvalidJson);
        }
        let k3 = match skip_value_at(s, k2 + 1, f - 1) {
            Err(e) => {
                return Err(e);
            },
            Ok(k3) => k3,
        };
        let k4 = skip_ws(s, k3);
        if k4 >= s.len() {
            return Err(Error::InvalidJson);
        }
        if s[k4] == 44 {
            cur = k4 + 1;
            f = f - 1;
        } else if s[k4] == 125 {
            return Ok(k4 + 1);
        } else {
            return Err(Error::InvalidJson);
        }
    }
}

/// Reads an array of strings or nulls after `[`, at run time.
#[verifier::loop_isolation(false)]
fn parse_strarr_at(s: &Vec<u8>, i: usize, fuel: u64) -> (r: Result<
    (Vec<Option<Vec<u8>>>, usize),
    Error,
>)
    requires
        i <= s@.len(),
    ensures
        match r {
            Ok((xs, j)) => parse_strarr(s@, i as int, fuel as nat, Seq::empty()) == Ok::<
                (Seq<Option<Seq<u8>>>, int),
                Error,
            >((xs@.map_values(crate::document::slot_view()), j as int)) && j <= s@.len(),
            Err(e) => parse_strarr(s@, i as int, fuel as nat, Seq::empty()) == Err::<
                (Seq<Option<Seq<u8>>>, int),
                Error,
            >(e),
        },
{
    let mut out: Vec<Option<Vec<u8>>> = Vec::new();
    let mut cur = i;
    let mut f = fuel;
    proof {
        assert(out@.map_values(crate::document::slot_view()) =~= Seq::<Option<Seq<u8>>>::empty());
    }
    loop
        invariant
            cur <= s@.len(),
            f <= fuel,
            parse_strarr(s@, i as int, fuel as nat, Seq::empty()) == parse_strarr(
                s@,
                cur as int,
                f as nat,
                out@.map_values(crate::document::slot_view()),
            ),
        decreases f,
    {
        if f == 0 {
            return Err(Error::InvalidJson);
        }
        let j = skip_ws(s, cur);
        if j >= s.len() {
            return Err(Error::InvalidJson);
        }
        if s[j] == 93 {
            return Ok((out, j + 1));
        }
        let ghost prefix = out@.map_values(crate::document::slot_view());
        let (o, k): (Option<Vec<u8>>, usize) = if s[j] == 34 {
            match parse_string_at(s, j) {
                Err(e) => {
                    return Err(e);
                },
                Ok((b, k)) => (Some(b), k),
            }
        } else if s.len() - j >= 4 && s[j] == 110 && s[j + 1] == 117 && s[j + 2] == 108 && s[j + 3]
            == 108 {
            (None, j + 4)
        } else {
            return Err(Error::InvalidJson);
        };
        let ghost ov = crate::document::slot_view()(o);
        let k2 = skip_ws(s, k);
        if k2 >= s.len() {
            return Err(Error::InvalidJson);
        }
        if s[k2] == 44 {
            out.push(o);
            proof {
                assert(out@.map_values(crate::document::slot_view()) =~= prefix.push(ov));
            }
            cur = k2 + 1;
            f = f - 1;
        } else if s[k2] == 93 {
            out.push(o);
            proof {
                assert(out@.map_values(crate::document::slot_view()) =~= prefix.push(ov));
            }
            return Ok((out, k2 + 1));
        } else {
            return Err(Error::InvalidJson);
        }
    }
}

fn is_key_version(k: &Vec<u8>) -> (r: bool)
    ensures
        r == (k@ == key_version()),
{
    if k.len() != 7 {
        proof {
            assert(key_version().len() == 7);
        }
        return false;
    }
    let r = k[0] == 118 && k[1] == 101 && k[2] == 114 && k[3] == 115 && k[4] == 105 && k[5] == 111
        && k[6] == 110;
    proof {
        if r {
            assert(k@ =~= key_version());
        }
    }
    r
}

fn is_key_sources(k: &Vec<u8>) -> (r: bool)
    ensures
        r == (k@ == key_sources()),
{
    if k.len() != 7 {
        proof {
            assert(key_sources().len() == 7);
        }
        return false;
    }
    let r = k[0] == 115 && k[1] == 111 && k[2] == 117 && k[3] == 114 && k[4] == 99 && k[5] == 101
        && k[6] == 115;
    proof {
        if r {
            assert(k@ =~= key_sources());
        }
    }
    r
}

fn is_key_names(k: &Vec<u8>) -> (r: bool)
    ensures
        r == (k@ == key_names()),
{
    if k.len() != 5 {
        proof {
            assert(key_names().len() == 5);
        }
        return false;
    }
    let r = k[0] == 110 && k[1] == 97 && k[2] == 109 && k[3] == 101 && k[4] == 115;
    proof {
        if r {
            assert(k@ =~= key_names());
        }
    }
    r
}

fn is_key_mappings(k: &Vec<u8>) -> (r: bool)
    ensures
        r == (k@ == key_mappings()),
{
    if k.len() != 8 {
        proof {
            assert(key_mappings().len() == 8);
        }
        return false;
    }
    let r = k[0] == 109 && k[1] == 97 && k[2] == 112 && k[3] == 112 && k[4] == 105 && k[5] == 110
        && k[6] == 103 && k[7] == 115;
    proof {
        if r {
            assert(k@ =~= key_mappings());
        }
    }
    r
}

fn is_key_contents(k: &Vec<u8>) -> (r: bool)
    ensures
        r == (k@ == key_contents()),
{
    if k.len() != 14 {
        proof {
            assert(key_contents().len() == 14);
        }
        return false;
    }
    let r = k[0] == 115 && k[1] == 111 && k[2] == 117 && k[3] == 114 && k[4] == 99 && k[5] == 101
        && k[6] == 115 && k[7] == 67 && k[8] == 111 && k[9] == 110 && k[10] == 116 && k[11] == 101
        && k[12] == 110 && k[13] == 116;
    proof {
        if r {
            assert(k@ =~= key_contents());
        }
    }
    r
}

/// `null` entries become empty strings, at run time.
#[verifier::loop_isolation(false)]
fn unnull_exec(xs: &Vec<Option<Vec<u8>>>) -> (r: Vec<Vec<u8>>)
    ensures
        r@.map_values(crate::document::bytes_view()) == unnull(
            xs@.map_values(crate::document::slot_view()),
        ),
{
    let mut out: Vec<Vec<u8>> = Vec::new();
    let mut k: usize = 0;
    let ghost target = unnull(xs@.map_values(crate::document::slot_view()));
    proof {
        assert(out@.map_values(crate::document::bytes_view()) =~= target.subrange(0, 0));
    }
    while k < xs.len()
        invariant
            k <= xs@.len(),
            target == unnull(xs@.map_values(crate::document::slot_view())),
            target.len() == xs@.len(),
            out@.map_values(crate::document::bytes_view()) == target.subrange(0, k as int),
        decreases xs@.len() - k,
    {
        let ghost prefix = out@.map_values(crate::document::bytes_view());
        match &xs[k] {
            Some(b) => {
                let c = crate::document::copy_bytes(b);
                proof {
                    assert(target[k as int] == b@);
                }
                out.push(c);
            },
            None => {
                proof {
                    assert(target[k as int] =~= Seq::<u8>::empty());
                }
                out.push(Vec::new());
            },
        }
        proof {
            assert(out@.map_values(crate::document::bytes_view()) =~= target.subrange(
                0,
                k as int + 1,
            ));
        }
        k = k + 1;
    }
    proof {
        assert(target.subrange(0, target.len() as int) =~= target);
    }
    out
}

/// Reads the members of the top-level object, after its `{`.
#[verifier::loop_isolation(false)]
#[verifier::rlimit(60)]
fn parse_top_at(s: &Vec<u8>, i: usize, fuel: u64) -> (r: Result<(RawDoc, usize), Error>)
    requires
        i <= s@.len(),
    ensures
        match r {
            Ok((raw, j)) => parse_top(s@, i as int, fuel as nat, raw_init()) == Ok::<
                (RawModel, int),
                Error,
            >((raw@, j as int)) && j <= s@.len(),
            Err(e) => parse_top(s@, i as int, fuel as nat, raw_init()) == Err::<
                (RawModel, int),
                Error,
            >(e),
        },
{
    let mut raw = RawDoc {
        version: None,
        sources: Vec::new(),
        names: Vec::new(),
        contents: None,
        mappings: Vec::new(),
    };
    let mut cur = i;
    let mut f = fuel;
    proof {
        assert(raw@.sources =~= raw_init().sources);
        assert(raw@.names =~= raw_init().names);
        assert(raw@.mappings =~= raw_init().mappings);
        assert(raw@ == raw_init());
    }
    loop
        invariant
            cur <= s@.len(),
            f <= fuel,
            parse_top(s@, i as int, fuel as nat, raw_init()) == parse_top(
                s@,
                cur as int,
                f as nat,
                raw@,
            ),
        decreases f,
    {
        if f == 0 {
            return Err(Error::InvalidJson);
        }
        let j = skip_ws(s, cur);
        if j >= s.len() {
            return Err(Error::InvalidJson);
        }
        if s[j] == 125 {
            return Ok((raw, j + 1));
        }
        let (key, k) = match parse_string_at(s, j) {
            Err(e) => {
                return Err(e);
            },
            Ok(v) => v,
        };
        let k2 = skip_ws(s, k);
        if k2 >= s.len() || s[k2] != 58 {
            return Err(Error::InvalidJson);
        }
        let k3: usize;
        if is_key_version(&key) {
            let jv = skip_ws(s, k2 + 1);
            match parse_int_at(s, jv) {
                Err(e) => {
                    return Err(e);
                },
                Ok((v, kk)) => {
                    raw.version = Some(v);
                    k3 = kk;
                },
            }
        } else if is_key_sources(&key) {
            let j25 = skip_ws(s, k2 + 1);
            if j25 >= s.len() || s[j25] != 91 {
                return Err(Error::InvalidJson);
            }
            match parse_strarr_at(s, j25 + 1, f - 1) {
                Err(e) => {
                    return Err(e);
                },
                Ok((xs, kk)) => {
                    raw.sources = unnull_exec(&xs);
                    k3 = kk;
                },
            }
        } else if is_key_names(&key) {
            let j25 = skip_ws(s, k2 + 1);
            if j25 >= s.len() || s[j25] != 91 {
                return Err(Error::InvalidJson);
            }
            match parse_strarr_at(s, j25 + 1, f - 1) {
                Err(e) => {
                    return Err(e);
                },
                Ok((xs, kk)) => {
                    raw.names = unnull_exec(&xs);
                    k3 = kk;
                },
            }
        } else if is_key_contents(&key) {
            let j25 = skip_ws(s, k2 + 1);
            if j25 >= s.len() || s[j25] != 91 {
                return Err(Error::InvalidJson);
            }
            match parse_strarr_at(s, j25 + 1, f - 1) {
                Err(e) => {
                    return Err(e);
                },
                Ok((xs, kk)) => {
                    raw.contents = Some(xs);
                    k3 = kk;
                },
            }
        } else if is_key_mappings(&key) {
            let jv = skip_ws(s, k2 + 1);
            match parse_string_at(s, jv) {
                Err(e) => {
                    return Err(e);
                },
                Ok((b, kk)) => {
                    raw.mappings = b;
                    k3 = kk;
                },
            }
        } else {
            match skip_value_at(s, k2 + 1, f - 1) {
                Err(e) => {
                    return Err(e);
                },
                Ok(kk) => {
                    k3 = kk;
                },
            }
        }
        let k4 = skip_ws(s, k3);
        if k4 >= s.len() {
            return Err(Error::InvalidJson);
        }
        if s[k4] == 44 {
            cur = k4 + 1;
            f = f - 1;
        } else if s[k4] == 125 {
            return Ok((raw, k4 + 1));
        } else {
            return Err(Error::InvalidJson);
        }
    }
}

/// The size and count limits the fixed-width document form imposes.
pub open spec fn json_counts_ok(raw: RawModel, ts: Seq<Token>) -> bool {
    &&& raw.sources.len() < 0xFFFF_FFFF
    &&& raw.names.len() < 0xFFFF_FFFF
    &&& ts.len() <= 0xFFFF_FFFF
    &&& forall|k: int| 0 <= k < raw.sources.len() ==> (#[trigger] raw.sources[k]).len()
        <= 0xFFFF_FFFF
    &&& forall|k: int| 0 <= k < raw.names.len() ==> (#[trigger] raw.names[k]).len() <= 0xFFFF_FFFF
    &&& (raw.contents matches Some(cs) ==> forall|k: int|
        0 <= k < cs.len() ==> ((#[trigger] cs[k]) matches Some(b) ==> b.len() <= 0xFFFF_FFFF))
}

/// Every token's index fields fall inside the tables.
pub open spec fn json_ids_ok(raw: RawModel, ts: Seq<Token>) -> bool {
    forall|k: int|
        0 <= k < ts.len() ==> token_ids_wf(
            #[trigger] ts[k],
            raw.sources.len() as int,
            raw.names.len() as int,
        )
}

/// The whole decode up to (but not including) the sort: the raw fields and
/// the tokens in `mappings` order, or the first failure.
pub open spec fn spec_decode_json(s: Seq<u8>) -> Result<(RawModel, Seq<Token>), Error> {
    match spec_parse_json(s) {
        Err(e) => Err(e),
        Ok(raw) => {
            if raw.version != Some(3i64) {
                Err(Error::UnsupportedVersion)
            } else {
                match mappings::spec_parse_mappings(
                    raw.mappings,
                    0,
                    mappings::init_state(),
                    Seq::empty(),
                ) {
                    Err(e) => Err(e),
                    Ok(ts) => {
                        if !json_counts_ok(raw, ts) {
                            Err(Error::InvalidJson)
                        } else if !json_ids_ok(raw, ts) {
                            Err(Error::InvalidMappingGroup)
                        } else {
                            Ok((raw, ts))
                        }
                    },
                }
            }
        },
    }
}

/// One content slot per source: the parsed slot where there is one, no
/// content else.
pub open spec fn spec_json_contents(raw: RawModel) -> Seq<Option<Seq<u8>>> {
    Seq::new(
        raw.sources.len(),
        |k: int|
            match raw.contents {
                Some(cs) => if 0 <= k < cs.len() {
                    cs[k]
                } else {
                    None
                },
                None => None,
            },
    )
}

/// A string table has no entry longer than the binary form can hold.
#[verifier::loop_isolation(false)]
fn check_str_lens(v: &Vec<Vec<u8>>) -> (r: bool)
    ensures
        r == forall|k: int|
            0 <= k < v@.len() ==> (#[trigger] v@.map_values(crate::document::bytes_view())[k]).len()
                <= 0xFFFF_FFFF,
{
    let mut k: usize = 0;
    while k < v.len()
        invariant
            k <= v@.len(),
            forall|j: int|
                0 <= j < k ==> (#[trigger] v@.map_values(crate::document::bytes_view())[j]).len()
                    <= 0xFFFF_FFFF,
        decreases v@.len() - k,
    {
        if (v[k].len() as u64) > 0xFFFF_FFFFu64 {
            proof {
                assert(v@.map_values(crate::document::bytes_view())[k as int].len()
                    > 0xFFFF_FFFF);
            }
            return false;
        }
        k = k + 1;
    }
    true
}

/// No content slot longer than the binary form can hold.
#[verifier::loop_isolation(false)]
fn check_slot_lens(v: &Vec<Option<Vec<u8>>>) -> (r: bool)
    ensures
        r == forall|k: int|
            0 <= k < v@.len() ==> ((#[trigger] v@.map_values(crate::document::slot_view())[k])
                matches Some(b) ==> b.len() <= 0xFFFF_FFFF),
{
    let mut k: usize = 0;
    while k < v.len()
        invariant
            k <= v@.len(),
            forall|j: int|
                0 <= j < k ==> ((#[trigger] v@.map_values(crate::document::slot_view())[j]) matches
                    Some(b) ==> b.len() <= 0xFFFF_FFFF),
        decreases v@.len() - k,
    {
        match &v[k] {
            Some(b) => {
                if (b.len() as u64) > 0xFFFF_FFFFu64 {
                    proof {
                        assert(v@.map_values(crate::document::slot_view())[k as int] matches Some(
                            bb,
                        ) && bb.len() > 0xFFFF_FFFF);
                    }
                    return false;
                }
            },
            None => {},
        }
        k = k + 1;
    }
    true
}

/// Every token's index fields fall inside the tables, at run time.
#[verifier::loop_isolation(false)]
fn check_token_ids(toks: &Vec<Token>, ns: usize, nn: usize) -> (r: bool)
    ensures
        r == forall|k: int|
            0 <= k < toks@.len() ==> token_ids_wf(#[trigger] toks@[k], ns as int, nn as int),
{
    let mut k: usize = 0;
    while k < toks.len()
        invariant
            k <= toks@.len(),
            forall|j: int| 0 <= j < k ==> token_ids_wf(#[trigger] toks@[j], ns as int, nn as int),
        decreases toks@.len() - k,
    {
        let t = toks[k];
        if !((t.source_id == crate::document::NO_ID || (t.source_id as usize) < ns) && (t.name_id
            == crate::document::NO_ID || (t.name_id as usize) < nn)) {
            proof {
                assert(!token_ids_wf(toks@[k as int], ns as int, nn as int));
            }
            return false;
        }
        k = k + 1;
    }
    true
}

/// A copy of a content slot.
fn clone_slot(o: &Option<Vec<u8>>) -> (r: Option<Vec<u8>>)
    ensures
        crate::document::slot_view()(r) == crate::document::slot_view()(*o),
{
    match o {
        Some(b) => Some(crate::document::copy_bytes(b)),
        None => None,
    }
}

/// Decodes a JSON source map into a document: the fields of the object,
/// the delta-decoded tokens of `mappings` brought into stable sorted
/// order, and one content slot per source.
#[verifier::loop_isolation(false)]
#[verifier::rlimit(60)]
pub fn parse(bytes: &Vec<u8>) -> (r: Result<SourceMap, Error>)
    ensures
        match r {
            Ok(doc) => (match spec_decode_json(bytes@) {
                Ok((raw, pre)) => {
                    &&& doc@.sources == raw.sources
                    &&& doc@.names == raw.names
                    &&& doc@.contents == spec_json_contents(raw)
                    &&& sort::stable_sorted(pre, doc@.tokens)
                    &&& doc_wf(doc@)
                },
                Err(_) => false,
            }),
            Err(e) => spec_decode_json(bytes@) == Err::<(RawModel, Seq<Token>), Error>(e),
        },
{
    let n = bytes.len();
    if (n as u64) > 0x7FFF_FFFF_FFFFu64 {
        return Err(Error::InvalidJson);
    }
    let fuel: u64 = 2 * (n as u64) + 8;
    let j = skip_ws(bytes, 0);
    if j >= n || bytes[j] != 123 {
        return Err(Error::InvalidJson);
    }
    let (raw, k) = match parse_top_at(bytes, j + 1, fuel) {
        Err(e) => {
            return Err(e);
        },
        Ok(v) => v,
    };
    let k2 = skip_ws(bytes, k);
    if k2 != n {
        return Err(Error::InvalidJson);
    }
    proof {
        assert(spec_parse_json(bytes@) == Ok::<RawModel, Error>(raw@));
    }
    let version_ok = match raw.version {
        Some(v) => v == 3,
        None => false,
    };
    if !version_ok {
        proof {
            assert(raw@.version != Some(3i64));
        }
        return Err(Error::UnsupportedVersion);
    }
    let toks = match mappings::parse_mappings(&raw.mappings) {
        Err(e) => {
            return Err(e);
        },
        Ok(t) => t,
    };
    let ghost pre = toks@;
    // count and length limits of the fixed-width form
    let counts_ok = (raw.sources.len() as u64) < 0xFFFF_FFFFu64 && (raw.names.len() as u64)
        < 0xFFFF_FFFFu64 && (toks.len() as u64) <= 0xFFFF_FFFFu64 && check_str_lens(&raw.sources)
        && check_str_lens(&raw.names) && (match &raw.contents {
        Some(cs) => check_slot_lens(cs),
        None => true,
    });
    if !counts_ok {
        proof {
            assert(!json_counts_ok(raw@, pre));
        }
        return Err(Error::InvalidJson);
    }
    proof {
        assert(json_counts_ok(raw@, pre));
    }
    if !check_token_ids(&toks, raw.sources.len(), raw.names.len()) {
        proof {
            assert(!json_ids_ok(raw@, pre));
        }
        return Err(Error::InvalidMappingGroup);
    }
    // one content slot per source
    let n_src = raw.sources.len();
    let mut contents: Vec<Option<Vec<u8>>> = Vec::new();
    let ghost target = spec_json_contents(raw@);
    let mut ci: usize = 0;
    proof {
        assert(contents@.map_values(crate::document::slot_view()) =~= target.subrange(0, 0));
    }
    while ci < n_src
        invariant
            ci <= n_src == raw@.sources.len(),
            target == spec_json_contents(raw@),
            target.len() == n_src,
            contents@.map_values(crate::document::slot_view()) == target.subrange(0, ci as int),
        decreases n_src - ci,
    {
        let slot: Option<Vec<u8>> = match &raw.contents {
            Some(cs) => {
                if ci < cs.len() {
                    clone_slot(&cs[ci])
                } else {
                    None
                }
            },
            None => None,
        };
        proof {
            assert(crate::document::slot_view()(slot) == target[ci as int]);
        }
        contents.push(slot);
        proof {
            assert(contents@.map_values(crate::document::slot_view()) =~= target.subrange(
                0,
                ci as int + 1,
            ));
        }
        ci = ci + 1;
    }
    proof {
        assert(contents@.map_values(crate::document::slot_view()) =~= target);
    }
    // bring the tokens into stable sorted order
    let sorted = sort::stable_sort(toks);
    let doc = SourceMap { tokens: sorted, sources: raw.sources, names: raw.names, contents };
    proof {
        let p = choose|p: Seq<int>| sort::stable_perm(pre, doc@.tokens, p);
        assert(sort::stable_perm(pre, doc@.tokens, p));
        assert forall|a: int, b: int|
            0 <= a < b < doc@.tokens.len() implies crate::document::key_le(
            doc@.tokens[a],
            doc@.tokens[b],
        ) by {}
        assert forall|a: int|
            0 <= a < doc@.tokens.len() implies token_ids_wf(
            #[trigger] doc@.tokens[a],
            doc@.sources.len() as int,
            doc@.names.len() as int,
        ) by {
            assert(doc@.tokens[a] == pre[p[a]]);
            assert(token_ids_wf(pre[p[a]], raw@.sources.len() as int, raw@.names.len() as int));
        }
        assert(doc_wf(doc@));
    }
    Ok(doc)
}

} // verus!
