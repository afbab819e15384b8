//! The base64-VLQ codec used by the JSON source-map `mappings` field.
//!
//! Each integer is one or more base64 digits (web-safe alphabet
//! `A-Za-z0-9+/`). A digit carries 5 payload bits and a continuation flag
//! (value bit 5); payload groups accumulate little-endian. The low bit of
//! the assembled number is the sign, the rest is the magnitude. Decoding
//! rejects bytes outside the alphabet (`MalformedVlq`), a stream that ends
//! with the continuation flag set (`TruncatedVlq`), a value of more than
//! seven digits, and a magnitude beyond 32 bits (both `VlqOverflow`).
//! Encoding always emits the minimal digit count.

use vstd::prelude::*;

use crate::errors::Error;

verus! {

/// Largest magnitude a decoded value may carry: 32 significant bits.
pub const MAX_VLQ_MAGNITUDE: u64 = 0xFFFF_FFFF;

/// The value of a byte as a base64 digit; 64 marks a byte outside the
/// alphabet.
pub open spec fn b64_value(b: u8) -> nat {
    if 65 <= b <= 90 {
        (b - 65) as nat  // 'A'..='Z'
    } else if 97 <= b <= 122 {
        (b - 97 + 26) as nat  // 'a'..='z'
    } else if 48 <= b <= 57 {
        (b - 48 + 52) as nat  // '0'..='9'
    } else if b == 43 {
        62  // '+'
    } else if b == 47 {
        63  // '/'
    } else {
        64
    }
}

/// The base64 alphabet byte for a digit below 64.
pub open spec fn b64_byte(d: nat) -> u8 {
    if d < 26 {
        (d + 65) as u8
    } else if d < 52 {
        (d - 26 + 97) as u8
    } else if d < 62 {
        (d - 52 + 48) as u8
    } else if d == 62 {
        43
    } else {
        47
    }
}

/// The two tables above invert each other on the alphabet.
pub proof fn lemma_b64_inverse(d: nat)
    requires
        d < 64,
    ensures
        b64_value(b64_byte(d)) == d,
{
}

/// 32 to the power `k`: the weight of the digit at position `k`.
pub open spec fn pow32(k: nat) -> nat
    decreases k,
{
    if k == 0 {
        1
    } else {
        32 * pow32((k - 1) as nat)
    }
}

pub proof fn lemma_pow32_values()
    ensures
        pow32(0) == 1,
        pow32(1) == 32,
        pow32(2) == 1024,
        pow32(3) == 32768,
        pow32(4) == 1048576,
        pow32(5) == 33554432,
        pow32(6) == 1073741824,
        pow32(7) == 34359738368,
{
    assert(pow32(1) == 32 * pow32(0));
    assert(pow32(2) == 32 * pow32(1));
    assert(pow32(3) == 32 * pow32(2));
    assert(pow32(4) == 32 * pow32(3));
    assert(pow32(5) == 32 * pow32(4));
    assert(pow32(6) == 32 * pow32(5));
    assert(pow32(7) == 32 * pow32(6));
}

/// The number a sign-and-magnitude packed value stands for.
pub open spec fn vlq_unpack(m: nat) -> i64 {
    if m % 2 == 1 {
        (-((m / 2) as int)) as i64
    } else {
        ((m / 2) as int) as i64
    }
}

/// The sign-and-magnitude packing of a value.
pub open spec fn vlq_pack(v: int) -> nat {
    if v < 0 {
        (2 * (-v) + 1) as nat
    } else {
        (2 * v) as nat
    }
}

/// Decoding of one VLQ value from `s[i..end]`, with `acc` already
/// accumulated from `idx` digits. The decoder of the `mappings` field and
/// the public stream decoder are both specified by this function.
pub open spec fn spec_parse_vlq(s: Seq<u8>, i: int, end: int, acc: nat, idx: nat) -> Result<
    (i64, int),
    Error,
>
    decreases end - i,
{
    if i < 0 || i >= end || end > s.len() {
        Err(Error::TruncatedVlq)
    } else {
        let d = b64_value(s[i]);
        if d >= 64 {
            Err(Error::MalformedVlq)
        } else {
            let acc2 = (acc + (d % 32) * pow32(idx)) as nat;
            if d >= 32 {
                if idx >= 6 {
                    Err(Error::VlqOverflow)
                } else {
                    spec_parse_vlq(s, i + 1, end, acc2, idx + 1)
                }
            } else {
                if acc2 / 2 > MAX_VLQ_MAGNITUDE {
                    Err(Error::VlqOverflow)
                } else {
                    Ok((vlq_unpack(acc2), i + 1))
                }
            }
        }
    }
}

/// A successful parse always advances the cursor and stays within `end`.
pub proof fn lemma_parse_vlq_advances(s: Seq<u8>, i: int, end: int, acc: nat, idx: nat)
    ensures
        spec_parse_vlq(s, i, end, acc, idx) matches Ok((v, j)) ==> i < j <= end,
    decreases end - i,
{
    if 0 <= i < end && end <= s.len() {
        let d = b64_value(s[i]);
        if d < 64 && d >= 32 && idx < 6 {
            lemma_parse_vlq_advances(s, i + 1, end, (acc + (d % 32) * pow32(idx)) as nat, idx + 1);
        }
    }
}

/// Decoding of a whole stream `s[i..end]` of concatenated VLQ values.
pub open spec fn spec_decode_vlq_stream(s: Seq<u8>, i: int, end: int) -> Result<Seq<i64>, Error>
    decreases end - i,
    via spec_decode_vlq_stream_decreases
{
    if i >= end {
        Ok(Seq::empty())
    } else {
        match spec_parse_vlq(s, i, end, 0, 0) {
            Err(e) => Err(e),
            Ok((v, j)) => match spec_decode_vlq_stream(s, j, end) {
                Err(e) => Err(e),
                Ok(vs) => Ok(seq![v] + vs),
            },
        }
    }
}

#[via_fn]
proof fn spec_decode_vlq_stream_decreases(s: Seq<u8>, i: int, end: int) {
    lemma_parse_vlq_advances(s, i, end, 0, 0);
}

/// A decoded prefix joined with the outcome on the remaining bytes.
pub open spec fn stream_result(prefix: Seq<i64>, r: Result<Seq<i64>, Error>) -> Result<
    Seq<i64>,
    Error,
> {
    match r {
        Err(e) => Err(e),
        Ok(vs) => Ok(prefix + vs),
    }
}

/// The base64 digit value of a byte; 64 for a byte outside the alphabet.
fn b64_decode_byte(b: u8) -> (d: u8)
    ensures
        d as nat == b64_value(b),
{
    if 65 <= b && b <= 90 {
        b - 65
    } else if 97 <= b && b <= 122 {
        b - 97 + 26
    } else if 48 <= b && b <= 57 {
        b - 48 + 52
    } else if b == 43 {
        62
    } else if b == 47 {
        63
    } else {
        64
    }
}

/// The alphabet byte of a base64 digit below 64.
fn b64_encode_byte(d: u8) -> (b: u8)
    requires
        d < 64,
    ensures
        b == b64_byte(d as nat),
{
    if d < 26 {
        d + 65
    } else if d < 52 {
        d - 26 + 97
    } else if d < 62 {
        d - 52 + 48
    } else if d == 62 {
        43
    } else {
        47
    }
}

/// Decodes one VLQ value from `s[i..end]`.
pub fn parse_vlq(s: &Vec<u8>, i: usize, end: usize) -> (r: Result<(i64, usize), Error>)
    requires
        i <= end <= s@.len(),
    ensures
        match r {
            Ok((v, j)) => spec_parse_vlq(s@, i as int, end as int, 0, 0) == Ok::<(i64, int), Error>(
                (v, j as int),
            ) && i < j <= end,
            Err(e) => spec_parse_vlq(s@, i as int, end as int, 0, 0) == Err::<(i64, int), Error>(e),
        },
{
    let mut k: usize = i;
    let mut acc: u64 = 0;
    let mut mult: u64 = 1;
    let ghost mut idx: nat = 0;
    proof {
        lemma_pow32_values();
    }
    loop
        invariant
            i <= k <= end <= s@.len(),
            idx <= 6,
            mult == pow32(idx),
            acc < mult,
            spec_parse_vlq(s@, i as int, end as int, 0, 0) == spec_parse_vlq(
                s@,
                k as int,
                end as int,
                acc as nat,
                idx,
            ),
            pow32(6) == 1073741824,
        decreases end - k,
    {
        if k >= end {
            return Err(Error::TruncatedVlq);
        }
        let b = s[k];
        let d = b64_decode_byte(b);
        if d >= 64 {
            return Err(Error::MalformedVlq);
        }
        let payload = (d % 32) as u64;
        proof {
            assert(idx < 7);
            assert(pow32(idx) <= pow32(6)) by {
                lemma_pow32_mono(idx, 6);
            }
            assert(payload * mult <= 31 * mult) by (nonlinear_arith)
                requires
                    payload <= 31,
                    mult >= 0,
            ;
        }
        let acc2 = acc + payload * mult;
        let ghost prev_k = k;
        let ghost prev_acc = acc;
        let ghost prev_idx = idx;
        k = k + 1;
        acc = acc2;
        if d >= 32 {
            if mult >= 1073741824 {
                proof {
                    if idx < 6 {
                        lemma_pow32_mono(idx, 5);
                    }
                    assert(idx == 6);
                    assert(spec_parse_vlq(s@, prev_k as int, end as int, prev_acc as nat, prev_idx)
                        == Err::<(i64, int), Error>(Error::VlqOverflow));
                }
                return Err(Error::VlqOverflow);
            }
            proof {
                assert(idx < 6);
                assert(pow32(idx) <= pow32(5)) by {
                    lemma_pow32_mono(idx, 5);
                }
                idx = idx + 1;
            }
            mult = mult * 32;
            proof {
                assert(mult == pow32(idx));
                assert(spec_parse_vlq(s@, prev_k as int, end as int, prev_acc as nat, prev_idx)
                    == spec_parse_vlq(s@, k as int, end as int, acc as nat, idx));
            }
        } else {
            let mag = acc / 2;
            if mag > MAX_VLQ_MAGNITUDE {
                return Err(Error::VlqOverflow);
            }
            let v: i64 = if acc % 2 == 1 {
                -(mag as i64)
            } else {
                mag as i64
            };
            proof {
                assert(v == vlq_unpack(acc as nat));
            }
            return Ok((v, k));
        }
    }
}

pub proof fn lemma_pow32_mono(a: nat, b: nat)
    requires
        a <= b,
    ensures
        pow32(a) <= pow32(b),
        pow32(a) >= 1,
    decreases b,
{
    if b > 0 {
        if a == b {
            lemma_pow32_mono((a - 1) as nat, (b - 1) as nat);
            assert(pow32(b) == 32 * pow32((b - 1) as nat));
        } else {
            lemma_pow32_mono(a, (b - 1) as nat);
            assert(pow32(b) == 32 * pow32((b - 1) as nat));
        }
    }
}

/// Decodes the concatenated VLQ values in `s[start..end]`.
pub fn decode_range(s: &Vec<u8>, start: usize, end: usize) -> (r: Result<Vec<i64>, Error>)
    requires
        start <= end <= s@.len(),
    ensures
        match r {
            Ok(vs) => spec_decode_vlq_stream(s@, start as int, end as int) == Ok::<Seq<i64>, Error>(
                vs@,
            ),
            Err(e) => spec_decode_vlq_stream(s@, start as int, end as int) == Err::<
                Seq<i64>,
                Error,
            >(e),
        },
{
    let mut out: Vec<i64> = Vec::new();
    let mut k: usize = start;
    loop
        invariant
            start <= k <= end <= s@.len(),
            spec_decode_vlq_stream(s@, start as int, end as int) == stream_result(
                out@,
                spec_decode_vlq_stream(s@, k as int, end as int),
            ),
        decreases end - k,
    {
        if k >= end {
            proof {
                assert(spec_decode_vlq_stream(s@, k as int, end as int) == Ok::<Seq<i64>, Error>(
                    Seq::empty(),
                ));
                assert(out@ + Seq::<i64>::empty() == out@);
            }
            return Ok(out);
        }
        match parse_vlq(s, k, end) {
            Err(e) => {
                return Err(e);
            },
            Ok((v, j)) => {
                proof {
                    let rest = spec_decode_vlq_stream(s@, j as int, end as int);
                    assert(spec_decode_vlq_stream(s@, k as int, end as int) == stream_result(
                        seq![v],
                        rest,
                    ));
                    assert(stream_result(out@, stream_result(seq![v], rest)) == stream_result(
                        out@.push(v),
                        rest,
                    )) by {
                        match rest {
                            Ok(vs) => {
                                assert(out@ + (seq![v] + vs) == out@.push(v) + vs);
                            },
                            Err(_) => {},
                        }
                    }
                }
                out.push(v);
                k = j;
            },
        }
    }
}

/// Decodes a whole byte stream of concatenated VLQ values.
pub fn decode(stream: &Vec<u8>) -> (r: Result<Vec<i64>, Error>)
    ensures
        match r {
            Ok(vs) => spec_decode_vlq_stream(stream@, 0, stream@.len() as int) == Ok::<
                Seq<i64>,
                Error,
            >(vs@),
            Err(e) => spec_decode_vlq_stream(stream@, 0, stream@.len() as int) == Err::<
                Seq<i64>,
                Error,
            >(e),
        },
{
    decode_range(stream, 0, stream.len())
}

/// The minimal base64-digit encoding of a packed value.
pub open spec fn spec_encode_packed(m: nat) -> Seq<u8>
    decreases m,
{
    if m < 32 {
        seq![b64_byte(m)]
    } else {
        seq![b64_byte((m % 32 + 32) as nat)] + spec_encode_packed(m / 32)
    }
}

/// The encoding of one value: its packed form in base64 digits.
pub open spec fn spec_encode_vlq(v: i64) -> Seq<u8> {
    spec_encode_packed(vlq_pack(v as int))
}

/// The encoding of a sequence of values, concatenated in order.
pub open spec fn spec_encode_vlq_stream(vs: Seq<i64>) -> Seq<u8>
    decreases vs.len(),
{
    if vs.len() == 0 {
        Seq::empty()
    } else {
        spec_encode_vlq(vs[0]) + spec_encode_vlq_stream(vs.skip(1))
    }
}

/// Appends the encoding of `v` to `out`.
pub fn encode_vlq(v: i64, out: &mut Vec<u8>)
    requires
        -(MAX_VLQ_MAGNITUDE as i64) <= v <= MAX_VLQ_MAGNITUDE as i64,
    ensures
        final(out)@ == old(out)@ + spec_encode_vlq(v),
{
    let mag: u64 = if v < 0 {
        (-v) as u64
    } else {
        v as u64
    };
    let mut m: u64 = if v < 0 {
        2 * mag + 1
    } else {
        2 * mag
    };
    proof {
        assert(m as nat == vlq_pack(v as int));
    }
    let ghost m0: nat = m as nat;
    let ghost base: Seq<u8> = out@;
    loop
        invariant
            base == old(out)@,
            m0 == vlq_pack(v as int),
            out@.len() >= base.len(),
            out@.subrange(0, base.len() as int) == base,
            spec_encode_packed(m0) == out@.skip(base.len() as int) + spec_encode_packed(m as nat),
        decreases m,
    {
        let digit = (m % 32) as u8;
        let ghost m_prev: nat = m as nat;
        let ghost emitted: Seq<u8> = out@.skip(base.len() as int);
        m = m / 32;
        if m > 0 {
            out.push(b64_encode_byte(digit + 32));
            proof {
                assert(spec_encode_packed(m_prev) == seq![b64_byte((m_prev % 32 + 32) as nat)]
                    + spec_encode_packed(m_prev / 32));
                assert(out@.skip(base.len() as int) == emitted.push(b64_byte(
                    (m_prev % 32 + 32) as nat,
                )));
                assert(emitted.push(b64_byte((m_prev % 32 + 32) as nat)) + spec_encode_packed(
                    m as nat,
                ) == emitted + (seq![b64_byte((m_prev % 32 + 32) as nat)] + spec_encode_packed(
                    m as nat,
                )));
                assert(out@.subrange(0, base.len() as int) == base);
            }
        } else {
            out.push(b64_encode_byte(digit));
            proof {
                assert(m_prev < 32);
                assert(spec_encode_packed(m_prev) == seq![b64_byte(m_prev)]);
                assert(out@.skip(base.len() as int) == emitted.push(b64_byte(m_prev)));
                assert(emitted.push(b64_byte(m_prev)) == emitted + seq![b64_byte(m_prev)]);
                assert(out@ == base + spec_encode_packed(m0));
            }
            return ;
        }
    }
}

/// Encodes a sequence of values as one concatenated VLQ stream.
pub fn encode(values: &Vec<i64>) -> (r: Vec<u8>)
    requires
        forall|i: int|
            0 <= i < values@.len() ==> -(MAX_VLQ_MAGNITUDE as i64) <= #[trigger] values@[i]
                <= MAX_VLQ_MAGNITUDE as i64,
    ensures
        r@ == spec_encode_vlq_stream(values@),
{
    let mut out: Vec<u8> = Vec::new();
    let mut k: usize = 0;
    proof {
        assert(values@.skip(0) == values@);
    }
    loop
        invariant
            k <= values@.len(),
            forall|i: int|
                0 <= i < values@.len() ==> -(MAX_VLQ_MAGNITUDE as i64) <= #[trigger] values@[i]
                    <= MAX_VLQ_MAGNITUDE as i64,
            spec_encode_vlq_stream(values@) == out@ + spec_encode_vlq_stream(
                values@.skip(k as int),
            ),
        decreases values@.len() - k,
    {
        if k >= values.len() {
            proof {
                assert(spec_encode_vlq_stream(values@.skip(k as int)) == Seq::<u8>::empty());
                assert(out@ + Seq::<u8>::empty() == out@);
            }
            return out;
        }
        let ghost out_prev: Seq<u8> = out@;
        let v = values[k];
        encode_vlq(v, &mut out);
        proof {
            let rest = values@.skip(k as int);
            assert(rest[0] == values@[k as int]);
            assert(rest.skip(1) == values@.skip(k as int + 1));
            assert(spec_encode_vlq_stream(rest) == spec_encode_vlq(values@[k as int])
                + spec_encode_vlq_stream(values@.skip(k as int + 1)));
            assert(out_prev + (spec_encode_vlq(values@[k as int]) + spec_encode_vlq_stream(
                values@.skip(k as int + 1),
            )) == out@ + spec_encode_vlq_stream(values@.skip(k as int + 1)));
        }
        k = k + 1;
    }
}

/// Parsing an encoded packed value embedded at `i` recovers it: the digits
/// of `m` weigh in at `pow32(idx)` on top of what `acc` already holds.
proof fn lemma_parse_encoded(s: Seq<u8>, i: int, end: int, m: nat, acc: nat, idx: nat)
    requires
        0 <= i,
        i + spec_encode_packed(m).len() <= end <= s.len(),
        s.subrange(i, i + spec_encode_packed(m).len() as int) == spec_encode_packed(m),
        idx <= 6,
        acc < pow32(idx),
        m * pow32(idx) < pow32(7),
        (acc + m * pow32(idx)) / 2 <= MAX_VLQ_MAGNITUDE,
    ensures
        spec_parse_vlq(s, i, end, acc, idx) == Ok::<(i64, int), Error>(
            (
                vlq_unpack((acc + m * pow32(idx)) as nat),
                i + spec_encode_packed(m).len(),
            ),
        ),
    decreases m,
{
    lemma_pow32_values();
    let enc = spec_encode_packed(m);
    assert(s[i] == enc[0]) by {
        assert(s.subrange(i, i + enc.len() as int)[0] == s[i]);
    }
    if m < 32 {
        lemma_b64_inverse(m);
        assert(b64_value(s[i]) == m);
        assert((acc + m * pow32(idx)) as nat / 2 <= MAX_VLQ_MAGNITUDE);
    } else {
        let d0 = (m % 32 + 32) as nat;
        lemma_b64_inverse(d0);
        assert(b64_value(s[i]) == d0);
        assert(d0 % 32 == m % 32);
        let acc2 = (acc + (m % 32) * pow32(idx)) as nat;
        assert(idx < 6) by {
            if idx == 6 {
                assert(m * pow32(6) >= 32 * pow32(6)) by (nonlinear_arith)
                    requires
                        m >= 32,
                        pow32(6) >= 0,
                ;
                assert(32 * pow32(6) == pow32(7));
            }
        }
        let enc2 = spec_encode_packed(m / 32);
        assert(s.subrange(i + 1, i + 1 + enc2.len() as int) == enc2) by {
            assert forall|k: int| 0 <= k < enc2.len() implies s.subrange(
                i + 1,
                i + 1 + enc2.len() as int,
            )[k] == enc2[k] by {
                assert(s.subrange(i, i + enc.len() as int)[k + 1] == s[i + 1 + k]);
                assert(enc[k + 1] == enc2[k]);
            }
            assert(s.subrange(i + 1, i + 1 + enc2.len() as int) =~= enc2);
        }
        assert(acc2 < pow32(idx + 1)) by {
            assert((m % 32) * pow32(idx) <= 31 * pow32(idx)) by (nonlinear_arith)
                requires
                    m % 32 <= 31,
                    pow32(idx) >= 0,
            ;
            assert(32 * pow32(idx) == pow32(idx + 1));
        }
        assert(acc2 + (m / 32) * pow32(idx + 1) == acc + m * pow32(idx)) by {
            assert(m == 32 * (m / 32) + m % 32);
            assert((32 * (m / 32) + m % 32) * pow32(idx) == (m / 32) * (32 * pow32(idx)) + (m % 32)
                * pow32(idx)) by (nonlinear_arith);
            assert(32 * pow32(idx) == pow32(idx + 1));
        }
        assert((m / 32) * pow32(idx + 1) < pow32(7)) by {
            assert((m / 32) * pow32(idx + 1) <= m * pow32(idx)) by (nonlinear_arith)
                requires
                    32 * (m / 32) <= m,
                    pow32(idx + 1) == 32 * pow32(idx),
                    pow32(idx) >= 0,
            ;
        }
        lemma_parse_encoded(s, i + 1, end, m / 32, acc2, idx + 1);
        assert(enc.len() == 1 + enc2.len());
    }
}

/// The round-trip law of the codec: decoding the encoding of any value
/// whose magnitude fits in 32 bits (so, of every signed 32-bit integer)
/// yields exactly that value.
pub proof fn lemma_vlq_round_trip(v: i64)
    requires
        -(MAX_VLQ_MAGNITUDE as i64) <= v <= MAX_VLQ_MAGNITUDE as i64,
    ensures
        spec_decode_vlq_stream(spec_encode_vlq(v), 0, spec_encode_vlq(v).len() as int) == Ok::<
            Seq<i64>,
            Error,
        >(seq![v]),
{
    lemma_pow32_values();
    let m = vlq_pack(v as int);
    let enc = spec_encode_vlq(v);
    assert(enc == spec_encode_packed(m));
    assert(enc.len() >= 1);
    assert(enc.subrange(0, enc.len() as int) =~= enc);
    assert(m * pow32(0) == m) by {
        assert(pow32(0) == 1);
    }
    assert(m / 2 <= MAX_VLQ_MAGNITUDE) by {
        if v < 0 {
            assert(m == 2 * (-(v as int)) + 1);
        } else {
            assert(m == 2 * (v as int));
        }
    }
    lemma_parse_encoded(enc, 0, enc.len() as int, m, 0, 0);
    assert(vlq_unpack(m) == v);
    assert(spec_parse_vlq(enc, 0, enc.len() as int, 0, 0) == Ok::<(i64, int), Error>(
        (v, enc.len() as int),
    ));
    assert(spec_decode_vlq_stream(enc, enc.len() as int, enc.len() as int) == Ok::<
        Seq<i64>,
        Error,
    >(Seq::empty()));
    assert(seq![v] + Seq::<i64>::empty() == seq![v]);
}

} // verus!
