//! The memdb codec: a flat binary form of a document, for reloading a
//! large map without a JSON parse.
//!
//! Layout: a 24-byte header (4 magic bytes, format version, token count,
//! source count, name count, has-contents flag, each a little-endian
//! `u32`), the token records (six `u32` fields each), a length-prefixed
//! string table for sources, one for names, and — only when some slot
//! holds content — one presence-flagged, length-prefixed slot per source.
//! Encoding is deterministic: one document, one byte string. Decoding
//! validates the magic and version (`UnsupportedMemdbVersion`) and
//! everything else — lengths, trailing bytes, token order, index ranges —
//! against the buffer (`TruncatedMemdb`); it never reads out of bounds.

use vstd::bytes::{
    lemma_auto_spec_u32_to_from_le_bytes,
    spec_u32_from_le_bytes,
    spec_u32_to_le_bytes,
    u32_from_le_bytes,
    u32_to_le_bytes,
};
use vstd::prelude::*;
use vstd::slice::slice_subrange;

use crate::document::{
    bytes_view,
    doc_wf,
    key_le,
    slot_view,
    sorted_tokens,
    token_ids_wf,
    DocModel,
    SourceMap,
    Token,
    NO_ID,
};
use crate::errors::Error;

verus! {

/// The four magic bytes every memdb buffer starts with.
pub open spec fn magic() -> Seq<u8> {
    seq![77u8, 68u8, 66u8, 49u8]
}

/// The format version this engine writes and accepts.
pub const MEMDB_VERSION: u32 = 1;

pub open spec fn enc_u32(v: u32) -> Seq<u8> {
    spec_u32_to_le_bytes(v)
}

/// The `u32` stored at byte offset `i`.
pub open spec fn dec_u32_at(s: Seq<u8>, i: int) -> u32
    recommends
        0 <= i,
        i + 4 <= s.len(),
{
    spec_u32_from_le_bytes(s.subrange(i, i + 4))
}

pub open spec fn enc_token(t: Token) -> Seq<u8> {
    enc_u32(t.gen_line) + enc_u32(t.gen_col) + enc_u32(t.source_id) + enc_u32(t.orig_line)
        + enc_u32(t.orig_col) + enc_u32(t.name_id)
}

pub open spec fn enc_tokens(ts: Seq<Token>) -> Seq<u8>
    decreases ts.len(),
{
    if ts.len() == 0 {
        Seq::empty()
    } else {
        enc_token(ts[0]) + enc_tokens(ts.skip(1))
    }
}

pub open spec fn enc_str(b: Seq<u8>) -> Seq<u8> {
    enc_u32(b.len() as u32) + b
}

pub open spec fn enc_strs(ss: Seq<Seq<u8>>) -> Seq<u8>
    decreases ss.len(),
{
    if ss.len() == 0 {
        Seq::empty()
    } else {
        enc_str(ss[0]) + enc_strs(ss.skip(1))
    }
}

pub open spec fn enc_slot(c: Option<Seq<u8>>) -> Seq<u8> {
    match c {
        None => enc_u32(0),
        Some(b) => enc_u32(1) + enc_str(b),
    }
}

pub open spec fn enc_slots(cs: Seq<Option<Seq<u8>>>) -> Seq<u8>
    decreases cs.len(),
{
    if cs.len() == 0 {
        Seq::empty()
    } else {
        enc_slot(cs[0]) + enc_slots(cs.skip(1))
    }
}

/// Some source has content, so the contents section is written at all.
pub open spec fn has_content(cs: Seq<Option<Seq<u8>>>) -> bool {
    exists|i: int| 0 <= i < cs.len() && cs[i] is Some
}

/// The one byte string that stands for a document.
pub open spec fn spec_memdb_encode(m: DocModel) -> Seq<u8> {
    magic() + enc_u32(MEMDB_VERSION) + enc_u32(m.tokens.len() as u32) + enc_u32(
        m.sources.len() as u32,
    ) + enc_u32(m.names.len() as u32) + enc_u32(
        if has_content(m.contents) {
            1
        } else {
            0
        },
    ) + enc_tokens(m.tokens) + enc_strs(m.sources) + enc_strs(m.names) + (
    if has_content(m.contents) {
        enc_slots(m.contents)
    } else {
        Seq::empty()
    })
}

pub open spec fn dec_token_at(s: Seq<u8>, i: int) -> Token
    recommends
        0 <= i,
        i + 24 <= s.len(),
{
    Token {
        gen_line: dec_u32_at(s, i),
        gen_col: dec_u32_at(s, i + 4),
        source_id: dec_u32_at(s, i + 8),
        orig_line: dec_u32_at(s, i + 12),
        orig_col: dec_u32_at(s, i + 16),
        name_id: dec_u32_at(s, i + 20),
    }
}

pub open spec fn dec_tokens(s: Seq<u8>, i: int, n: nat) -> Option<(Seq<Token>, int)>
    decreases n,
{
    if n == 0 {
        Some((Seq::empty(), i))
    } else if i < 0 || i + 24 > s.len() {
        None
    } else {
        match dec_tokens(s, i + 24, (n - 1) as nat) {
            None => None,
            Some((ts, j)) => Some((seq![dec_token_at(s, i)] + ts, j)),
        }
    }
}

pub open spec fn dec_str(s: Seq<u8>, i: int) -> Option<(Seq<u8>, int)> {
    if i < 0 || i + 4 > s.len() {
        None
    } else {
        let l = dec_u32_at(s, i) as int;
        if i + 4 + l > s.len() {
            None
        } else {
            Some((s.subrange(i + 4, i + 4 + l), i + 4 + l))
        }
    }
}

pub open spec fn dec_strs(s: Seq<u8>, i: int, n: nat) -> Option<(Seq<Seq<u8>>, int)>
    decreases n,
{
    if n == 0 {
        Some((Seq::empty(), i))
    } else {
        match dec_str(s, i) {
            None => None,
            Some((b, j)) => match dec_strs(s, j, (n - 1) as nat) {
                None => None,
                Some((bs, k)) => Some((seq![b] + bs, k)),
            },
        }
    }
}

pub open spec fn dec_slot(s: Seq<u8>, i: int) -> Option<(Option<Seq<u8>>, int)> {
    if i < 0 || i + 4 > s.len() {
        None
    } else {
        let f = dec_u32_at(s, i);
        if f == 0 {
            Some((None, i + 4))
        } else if f == 1 {
            match dec_str(s, i + 4) {
                None => None,
                Some((b, j)) => Some((Some(b), j)),
            }
        } else {
            None
        }
    }
}

pub open spec fn dec_slots(s: Seq<u8>, i: int, n: nat) -> Option<(Seq<Option<Seq<u8>>>, int)>
    decreases n,
{
    if n == 0 {
        Some((Seq::empty(), i))
    } else {
        match dec_slot(s, i) {
            None => None,
            Some((c, j)) => match dec_slots(s, j, (n - 1) as nat) {
                None => None,
                Some((cs, k)) => Some((seq![c] + cs, k)),
            },
        }
    }
}

/// The index and order validation decoding performs at the end.
pub open spec fn decoded_ok(ts: Seq<Token>, ns: u32, nn: u32) -> bool {
    &&& sorted_tokens(ts)
    &&& forall|k: int| 0 <= k < ts.len() ==> token_ids_wf(#[trigger] ts[k], ns as int, nn as int)
    &&& ns != NO_ID
    &&& nn != NO_ID
}

/// Splitting a subrange known to be a concatenation.
proof fn lemma_peel(s: Seq<u8>, i: int, x: Seq<u8>, y: Seq<u8>)
    requires
        0 <= i,
        i + x.len() + y.len() <= s.len(),
        s.subrange(i, i + x.len() + y.len()) == x + y,
    ensures
        s.subrange(i, i + x.len() as int) == x,
        s.subrange(i + x.len() as int, i + x.len() + y.len()) == y,
{
    assert forall|k: int| 0 <= k < x.len() + y.len() implies s[i + k] == (x + y)[k] by {
        assert(s.subrange(i, i + x.len() + y.len())[k] == s[i + k]);
    }
    assert(s.subrange(i, i + x.len() as int) =~= x);
    assert forall|j: int|
        0 <= j < y.len() implies s.subrange(i + x.len() as int, i + x.len() + y.len())[j]
        == y[j] by {
        assert(s[i + (x.len() + j)] == (x + y)[x.len() + j]);
    }
    assert(s.subrange(i + x.len() as int, i + x.len() + y.len()) =~= y);
}

proof fn lemma_enc_token_len(t: Token)
    ensures
        enc_token(t).len() == 24,
{
    lemma_auto_spec_u32_to_from_le_bytes();
}

/// Reading back an embedded token record.
proof fn lemma_dec_enc_token(s: Seq<u8>, i: int, t: Token)
    requires
        0 <= i,
        i + 24 <= s.len(),
        s.subrange(i, i + 24) == enc_token(t),
    ensures
        dec_token_at(s, i) == t,
{
    lemma_auto_spec_u32_to_from_le_bytes();
    let f1 = enc_u32(t.gen_line);
    let f2 = enc_u32(t.gen_col);
    let f3 = enc_u32(t.source_id);
    let f4 = enc_u32(t.orig_line);
    let f5 = enc_u32(t.orig_col);
    let f6 = enc_u32(t.name_id);
    lemma_peel(s, i, f1 + f2 + f3 + f4 + f5, f6);
    lemma_peel(s, i, f1 + f2 + f3 + f4, f5);
    lemma_peel(s, i, f1 + f2 + f3, f4);
    lemma_peel(s, i, f1 + f2, f3);
    lemma_peel(s, i, f1, f2);
}

/// Reading back embedded token records.
proof fn lemma_dec_enc_tokens(s: Seq<u8>, i: int, ts: Seq<Token>)
    requires
        0 <= i,
        i + enc_tokens(ts).len() <= s.len(),
        s.subrange(i, i + enc_tokens(ts).len() as int) == enc_tokens(ts),
    ensures
        dec_tokens(s, i, ts.len()) == Some((ts, i + enc_tokens(ts).len())),
    decreases ts.len(),
{
    if ts.len() == 0 {
        assert(dec_tokens(s, i, 0) == Some((Seq::<Token>::empty(), i)));
        assert(ts =~= Seq::<Token>::empty());
    } else {
        let e0 = enc_token(ts[0]);
        let rest = enc_tokens(ts.skip(1));
        lemma_enc_token_len(ts[0]);
        assert(enc_tokens(ts) == e0 + rest);
        lemma_peel(s, i, e0, rest);
        lemma_dec_enc_token(s, i, ts[0]);
        lemma_dec_enc_tokens(s, i + 24, ts.skip(1));
        assert(seq![ts[0]] + ts.skip(1) =~= ts);
    }
}

/// Reading back an embedded string table.
proof fn lemma_dec_enc_strs(s: Seq<u8>, i: int, ss: Seq<Seq<u8>>)
    requires
        0 <= i,
        i + enc_strs(ss).len() <= s.len(),
        s.subrange(i, i + enc_strs(ss).len() as int) == enc_strs(ss),
        forall|k: int| 0 <= k < ss.len() ==> (#[trigger] ss[k]).len() <= 0xFFFF_FFFF,
    ensures
        dec_strs(s, i, ss.len()) == Some((ss, i + enc_strs(ss).len())),
    decreases ss.len(),
{
    lemma_auto_spec_u32_to_from_le_bytes();
    if ss.len() == 0 {
        assert(ss =~= Seq::<Seq<u8>>::empty());
    } else {
        let b = ss[0];
        let e0 = enc_str(b);
        let rest = enc_strs(ss.skip(1));
        assert(enc_strs(ss) == e0 + rest);
        lemma_peel(s, i, e0, rest);
        lemma_peel(s, i, enc_u32(b.len() as u32), b);
        assert(dec_u32_at(s, i) == b.len() as u32);
        assert(dec_u32_at(s, i) as int == b.len());
        assert(dec_str(s, i) == Some((b, i + 4 + b.len())));
        lemma_dec_enc_strs(s, i + e0.len(), ss.skip(1));
        assert(seq![b] + ss.skip(1) =~= ss);
    }
}

/// Reading back an embedded contents section.
proof fn lemma_dec_enc_slots(s: Seq<u8>, i: int, cs: Seq<Option<Seq<u8>>>)
    requires
        0 <= i,
        i + enc_slots(cs).len() <= s.len(),
        s.subrange(i, i + enc_slots(cs).len() as int) == enc_slots(cs),
        forall|k: int|
            0 <= k < cs.len() ==> ((#[trigger] cs[k]) matches Some(b) ==> b.len() <= 0xFFFF_FFFF),
    ensures
        dec_slots(s, i, cs.len()) == Some((cs, i + enc_slots(cs).len())),
    decreases cs.len(),
{
    lemma_auto_spec_u32_to_from_le_bytes();
    if cs.len() == 0 {
        assert(cs =~= Seq::<Option<Seq<u8>>>::empty());
    } else {
        let c = cs[0];
        let e0 = enc_slot(c);
        let rest = enc_slots(cs.skip(1));
        assert(enc_slots(cs) == e0 + rest);
        lemma_peel(s, i, e0, rest);
        match c {
            None => {
                assert(s.subrange(i, i + 4) == enc_u32(0));
                assert(dec_u32_at(s, i) == 0);
                assert(dec_slot(s, i) == Some((None::<Seq<u8>>, i + 4)));
            },
            Some(b) => {
                assert(e0 == enc_u32(1) + enc_str(b));
                lemma_peel(s, i, enc_u32(1), enc_str(b));
                assert(dec_u32_at(s, i) == 1);
                lemma_peel(s, i + 4, enc_u32(b.len() as u32), b);
                assert(dec_u32_at(s, i + 4) == b.len() as u32);
                assert(dec_u32_at(s, i + 4) as int == b.len());
                assert(dec_str(s, i + 4) == Some((b, i + 8 + b.len())));
                assert(dec_slot(s, i) == Some((Some(b), i + 8 + b.len())));
            },
        }
        lemma_dec_enc_slots(s, i + e0.len(), cs.skip(1));
        assert(seq![c] + cs.skip(1) =~= cs);
    }
}

/// The round-trip law of the codec: decoding the encoding of any
/// well-formed document yields exactly that document.
#[verifier::rlimit(60)]
pub proof fn lemma_memdb_round_trip(m: DocModel)
    requires
        doc_wf(m),
    ensures
        spec_memdb_decode(spec_memdb_encode(m)) == Ok::<DocModel, Error>(m),
{
    lemma_auto_spec_u32_to_from_le_bytes();
    let s = spec_memdb_encode(m);
    let nt32 = m.tokens.len() as u32;
    let ns32 = m.sources.len() as u32;
    let nn32 = m.names.len() as u32;
    let flv: u32 = if has_content(m.contents) {
        1
    } else {
        0
    };
    let h0 = magic();
    let h1 = enc_u32(MEMDB_VERSION);
    let h2 = enc_u32(nt32);
    let h3 = enc_u32(ns32);
    let h4 = enc_u32(nn32);
    let h5 = enc_u32(flv);
    let tt = enc_tokens(m.tokens);
    let ses = enc_strs(m.sources);
    let nes = enc_strs(m.names);
    let ces = if has_content(m.contents) {
        enc_slots(m.contents)
    } else {
        Seq::<u8>::empty()
    };
    assert(s == h0 + h1 + h2 + h3 + h4 + h5 + tt + ses + nes + ces);
    assert(s.subrange(0, s.len() as int) =~= s);
    lemma_peel(s, 0, h0 + h1 + h2 + h3 + h4 + h5 + tt + ses + nes, ces);
    lemma_peel(s, 0, h0 + h1 + h2 + h3 + h4 + h5 + tt + ses, nes);
    lemma_peel(s, 0, h0 + h1 + h2 + h3 + h4 + h5 + tt, ses);
    lemma_peel(s, 0, h0 + h1 + h2 + h3 + h4 + h5, tt);
    lemma_peel(s, 0, h0 + h1 + h2 + h3 + h4, h5);
    lemma_peel(s, 0, h0 + h1 + h2 + h3, h4);
    lemma_peel(s, 0, h0 + h1 + h2, h3);
    lemma_peel(s, 0, h0 + h1, h2);
    lemma_peel(s, 0, h0, h1);
    let ot = 24 + tt.len() as int;
    let os = ot + ses.len() as int;
    let on = os + nes.len() as int;
    assert(s.len() >= 24);
    assert(s.subrange(0, 4) == magic());
    assert(dec_u32_at(s, 4) == MEMDB_VERSION);
    assert(dec_u32_at(s, 8) == nt32);
    assert(dec_u32_at(s, 12) == ns32);
    assert(dec_u32_at(s, 16) == nn32);
    assert(dec_u32_at(s, 20) == flv);
    assert(nt32 as nat == m.tokens.len());
    assert(ns32 as nat == m.sources.len());
    assert(nn32 as nat == m.names.len());
    lemma_dec_enc_tokens(s, 24, m.tokens);
    assert(dec_tokens(s, 24, nt32 as nat) == Some((m.tokens, ot)));
    lemma_dec_enc_strs(s, ot, m.sources);
    assert(dec_strs(s, ot, ns32 as nat) == Some((m.sources, os)));
    lemma_dec_enc_strs(s, os, m.names);
    assert(dec_strs(s, os, nn32 as nat) == Some((m.names, on)));
    if has_content(m.contents) {
        lemma_dec_enc_slots(s, on, m.contents);
        assert(dec_slots(s, on, ns32 as nat) == Some((m.contents, s.len() as int)));
    } else {
        assert(on == s.len());
        assert(Seq::new(ns32 as nat, |k: int| None::<Seq<u8>>) =~= m.contents) by {
            assert forall|k: int| 0 <= k < m.contents.len() implies m.contents[k]
                is None by {
                if m.contents[k] is Some {
                    assert(has_content(m.contents));
                }
            }
        }
    }
    assert(decoded_ok(m.tokens, ns32, nn32));
    assert(spec_memdb_decode(s) == Ok::<DocModel, Error>(
        DocModel {
            tokens: m.tokens,
            sources: m.sources,
            names: m.names,
            contents: m.contents,
        },
    ));
    assert(DocModel {
        tokens: m.tokens,
        sources: m.sources,
        names: m.names,
        contents: m.contents,
    } == m);
}

/// Token records advance the cursor by exactly 24 bytes each.
proof fn lemma_dec_tokens_advances(s: Seq<u8>, i: int, n: nat)
    ensures
        dec_tokens(s, i, n) matches Some((ts, j)) ==> j == i + 24 * n && ts.len() == n,
    decreases n,
{
    if n > 0 && 0 <= i && i + 24 <= s.len() {
        lemma_dec_tokens_advances(s, i + 24, (n - 1) as nat);
    }
}

/// A string table only moves the cursor forward.
proof fn lemma_dec_strs_advances(s: Seq<u8>, i: int, n: nat)
    ensures
        dec_strs(s, i, n) matches Some((bs, j)) ==> j >= i,
    decreases n,
{
    if n > 0 {
        match dec_str(s, i) {
            None => {},
            Some((b, j0)) => {
                lemma_dec_strs_advances(s, j0, (n - 1) as nat);
            },
        }
    }
}

/// A contents section only moves the cursor forward.
proof fn lemma_dec_slots_advances(s: Seq<u8>, i: int, n: nat)
    ensures
        dec_slots(s, i, n) matches Some((cs, j)) ==> j >= i,
    decreases n,
{
    if n > 0 {
        match dec_slot(s, i) {
            None => {},
            Some((c, j0)) => {
                lemma_dec_slots_advances(s, j0, (n - 1) as nat);
            },
        }
    }
}

/// Two buffers agreeing up to `cut` read the same `u32` below it.
proof fn lemma_dec_u32_prefix(s: Seq<u8>, t: Seq<u8>, i: int, cut: int)
    requires
        t == s.subrange(0, cut),
        0 <= i,
        i + 4 <= cut <= s.len(),
    ensures
        dec_u32_at(t, i) == dec_u32_at(s, i),
{
    assert(t.subrange(i, i + 4) =~= s.subrange(i, i + 4));
}

/// On a truncation of `s`, the token section reads the same records, or
/// fails where a record crosses the cut.
proof fn lemma_dec_tokens_prefix(s: Seq<u8>, t: Seq<u8>, i: int, n: nat, cut: int)
    requires
        t == s.subrange(0, cut),
        0 <= i <= cut <= s.len(),
        dec_tokens(s, i, n) is Some,
    ensures
        ({
            let (ts, j) = dec_tokens(s, i, n)->Some_0;
            if j <= cut {
                dec_tokens(t, i, n) == dec_tokens(s, i, n)
            } else {
                dec_tokens(t, i, n) is None
            }
        }),
    decreases n,
{
    lemma_dec_tokens_advances(s, i, n);
    if n == 0 {
    } else {
        let (ts, j) = dec_tokens(s, i, n)->Some_0;
        if i + 24 > cut {
            assert(i + 24 > t.len());
            assert(dec_tokens(t, i, n) is None);
            assert(j == i + 24 * n && n >= 1);
        } else {
            assert(t.subrange(i, i + 24) =~= s.subrange(i, i + 24));
            lemma_dec_u32_prefix(s, t, i, cut);
            lemma_dec_u32_prefix(s, t, i + 4, cut);
            lemma_dec_u32_prefix(s, t, i + 8, cut);
            lemma_dec_u32_prefix(s, t, i + 12, cut);
            lemma_dec_u32_prefix(s, t, i + 16, cut);
            lemma_dec_u32_prefix(s, t, i + 20, cut);
            assert(dec_token_at(t, i) == dec_token_at(s, i));
            lemma_dec_tokens_prefix(s, t, i + 24, (n - 1) as nat, cut);
        }
    }
}

/// On a truncation of `s`, a string table reads the same strings, or fails
/// where an entry crosses the cut.
proof fn lemma_dec_strs_prefix(s: Seq<u8>, t: Seq<u8>, i: int, n: nat, cut: int)
    requires
        t == s.subrange(0, cut),
        0 <= i <= cut <= s.len(),
        dec_strs(s, i, n) is Some,
    ensures
        ({
            let (bs, j) = dec_strs(s, i, n)->Some_0;
            if j <= cut {
                dec_strs(t, i, n) == dec_strs(s, i, n)
            } else {
                dec_strs(t, i, n) is None
            }
        }),
    decreases n,
{
    if n == 0 {
    } else {
        let (bs, j) = dec_strs(s, i, n)->Some_0;
        let (b, j0) = dec_str(s, i)->Some_0;
        lemma_dec_strs_advances(s, j0, (n - 1) as nat);
        if i + 4 > cut {
            assert(dec_str(t, i) is None);
            assert(j >= j0 >= i + 4 > cut);
        } else {
            lemma_dec_u32_prefix(s, t, i, cut);
            let l = dec_u32_at(s, i) as int;
            if i + 4 + l > cut {
                assert(dec_str(t, i) is None);
                assert(j >= j0 == i + 4 + l > cut);
            } else {
                assert(t.subrange(i + 4, i + 4 + l) =~= s.subrange(i + 4, i + 4 + l));
                assert(dec_str(t, i) == Some((b, j0)));
                lemma_dec_strs_prefix(s, t, j0, (n - 1) as nat, cut);
            }
        }
    }
}

/// On a truncation of `s`, a contents section reads the same slots, or
/// fails where a slot crosses the cut.
proof fn lemma_dec_slots_prefix(s: Seq<u8>, t: Seq<u8>, i: int, n: nat, cut: int)
    requires
        t == s.subrange(0, cut),
        0 <= i <= cut <= s.len(),
        dec_slots(s, i, n) is Some,
    ensures
        ({
            let (cs, j) = dec_slots(s, i, n)->Some_0;
            if j <= cut {
                dec_slots(t, i, n) == dec_slots(s, i, n)
            } else {
                dec_slots(t, i, n) is None
            }
        }),
    decreases n,
{
    if n == 0 {
    } else {
        let (cs, j) = dec_slots(s, i, n)->Some_0;
        let (c, j0) = dec_slot(s, i)->Some_0;
        lemma_dec_slots_advances(s, j0, (n - 1) as nat);
        if i + 4 > cut {
            assert(dec_slot(t, i) is None);
            assert(j >= j0 >= i + 4 > cut);
        } else {
            lemma_dec_u32_prefix(s, t, i, cut);
            let f = dec_u32_at(s, i);
            if f == 0 {
                assert(dec_slot(t, i) == Some((None::<Seq<u8>>, i + 4)));
                lemma_dec_slots_prefix(s, t, i + 4, (n - 1) as nat, cut);
            } else {
                let (b, j1) = dec_str(s, i + 4)->Some_0;
                if i + 8 > cut {
                    assert(dec_str(t, i + 4) is None);
                    assert(j >= j0 == j1 >= i + 8 > cut);
                } else {
                    lemma_dec_u32_prefix(s, t, i + 4, cut);
                    let l = dec_u32_at(s, i + 4) as int;
                    if i + 8 + l > cut {
                        assert(dec_str(t, i + 4) is None);
                        assert(j >= j0 == j1 == i + 8 + l > cut);
                    } else {
                        assert(t.subrange(i + 8, i + 8 + l) =~= s.subrange(i + 8, i + 8 + l));
                        assert(dec_str(t, i + 4) == Some((b, j1)));
                        assert(dec_slot(t, i) == Some((c, j0)));
                        lemma_dec_slots_prefix(s, t, j0, (n - 1) as nat, cut);
                    }
                }
            }
        }
    }
}

/// Truncating a valid encoding anywhere always fails, and always with
/// `TruncatedMemdb`: the header's byte counts no longer fit the buffer.
#[verifier::rlimit(60)]
pub proof fn lemma_memdb_truncation(m: DocModel, cut: int)
    requires
        doc_wf(m),
        0 <= cut < spec_memdb_encode(m).len(),
    ensures
        spec_memdb_decode(spec_memdb_encode(m).subrange(0, cut)) == Err::<DocModel, Error>(
            Error::TruncatedMemdb,
        ),
{
    lemma_auto_spec_u32_to_from_le_bytes();
    let s = spec_memdb_encode(m);
    let t = s.subrange(0, cut);
    if cut < 24 {
        return ;
    }
    // the header of the prefix reads as the header of the full buffer
    let nt32 = m.tokens.len() as u32;
    let ns32 = m.sources.len() as u32;
    let nn32 = m.names.len() as u32;
    let flv: u32 = if has_content(m.contents) {
        1
    } else {
        0
    };
    let h0 = magic();
    let h1 = enc_u32(MEMDB_VERSION);
    let h2 = enc_u32(nt32);
    let h3 = enc_u32(ns32);
    let h4 = enc_u32(nn32);
    let h5 = enc_u32(flv);
    let tt = enc_tokens(m.tokens);
    let ses = enc_strs(m.sources);
    let nes = enc_strs(m.names);
    let ces = if has_content(m.contents) {
        enc_slots(m.contents)
    } else {
        Seq::<u8>::empty()
    };
    assert(s == h0 + h1 + h2 + h3 + h4 + h5 + tt + ses + nes + ces);
    assert(s.subrange(0, s.len() as int) =~= s);
    lemma_peel(s, 0, h0 + h1 + h2 + h3 + h4 + h5 + tt + ses + nes, ces);
    lemma_peel(s, 0, h0 + h1 + h2 + h3 + h4 + h5 + tt + ses, nes);
    lemma_peel(s, 0, h0 + h1 + h2 + h3 + h4 + h5 + tt, ses);
    lemma_peel(s, 0, h0 + h1 + h2 + h3 + h4 + h5, tt);
    lemma_peel(s, 0, h0 + h1 + h2 + h3 + h4, h5);
    lemma_peel(s, 0, h0 + h1 + h2 + h3, h4);
    lemma_peel(s, 0, h0 + h1 + h2, h3);
    lemma_peel(s, 0, h0 + h1, h2);
    lemma_peel(s, 0, h0, h1);
    assert(t.subrange(0, 4) =~= s.subrange(0, 4));
    lemma_dec_u32_prefix(s, t, 4, cut);
    lemma_dec_u32_prefix(s, t, 8, cut);
    lemma_dec_u32_prefix(s, t, 12, cut);
    lemma_dec_u32_prefix(s, t, 16, cut);
    lemma_dec_u32_prefix(s, t, 20, cut);
    // the sections of the full buffer, as in the round-trip proof
    let ot = 24 + tt.len() as int;
    let os = ot + ses.len() as int;
    let on = os + nes.len() as int;
    lemma_dec_enc_tokens(s, 24, m.tokens);
    lemma_dec_enc_strs(s, ot, m.sources);
    lemma_dec_enc_strs(s, os, m.names);
    lemma_dec_tokens_prefix(s, t, 24, nt32 as nat, cut);
    if ot > cut {
        assert(dec_tokens(t, 24, nt32 as nat) is None);
        return ;
    }
    assert(dec_tokens(t, 24, nt32 as nat) == Some((m.tokens, ot)));
    lemma_dec_strs_prefix(s, t, ot, ns32 as nat, cut);
    if os > cut {
        assert(dec_strs(t, ot, ns32 as nat) is None);
        return ;
    }
    assert(dec_strs(t, ot, ns32 as nat) == Some((m.sources, os)));
    lemma_dec_strs_prefix(s, t, os, nn32 as nat, cut);
    if on > cut {
        assert(dec_strs(t, os, nn32 as nat) is None);
        return ;
    }
    assert(dec_strs(t, os, nn32 as nat) == Some((m.names, on)));
    if has_content(m.contents) {
        lemma_dec_enc_slots(s, on, m.contents);
        lemma_dec_slots_prefix(s, t, on, ns32 as nat, cut);
        if s.len() > cut {
            assert(dec_slots(t, on, ns32 as nat) is None);
        }
    } else {
        // with no contents section the buffer ends at the name table, so
        // the cut must have hit one of the earlier sections
        assert(on == s.len());
        assert(false);
    }
}

/// The document a memdb buffer stands for, or why it is refused.
pub open spec fn spec_memdb_decode(s: Seq<u8>) -> Result<DocModel, Error> {
    if s.len() < 24 {
        Err(Error::TruncatedMemdb)
    } else if s.subrange(0, 4) != magic() || dec_u32_at(s, 4) != MEMDB_VERSION {
        Err(Error::UnsupportedMemdbVersion)
    } else {
        let nt = dec_u32_at(s, 8);
        let ns = dec_u32_at(s, 12);
        let nn = dec_u32_at(s, 16);
        let fl = dec_u32_at(s, 20);
        if fl != 0 && fl != 1 {
            Err(Error::TruncatedMemdb)
        } else {
            match dec_tokens(s, 24, nt as nat) {
                None => Err(Error::TruncatedMemdb),
                Some((ts, i1)) => match dec_strs(s, i1, ns as nat) {
                    None => Err(Error::TruncatedMemdb),
                    Some((srcs, i2)) => match dec_strs(s, i2, nn as nat) {
                        None => Err(Error::TruncatedMemdb),
                        Some((nms, i3)) => {
                            let slots = if fl == 1 {
                                dec_slots(s, i3, ns as nat)
                            } else {
                                Some((Seq::new(ns as nat, |k: int| None::<Seq<u8>>), i3))
                            };
                            match slots {
                                None => Err(Error::TruncatedMemdb),
                                Some((cs, i4)) => {
                                    if i4 != s.len() {
                                        Err(Error::TruncatedMemdb)
                                    } else if decoded_ok(ts, ns, nn) {
                                        Ok(
                                            DocModel {
                                                tokens: ts,
                                                sources: srcs,
                                                names: nms,
                                                contents: cs,
                                            },
                                        )
                                    } else {
                                        Err(Error::TruncatedMemdb)
                                    }
                                },
                            }
                        },
                    },
                },
            }
        }
    }
}

fn push_u32(out: &mut Vec<u8>, v: u32)
    ensures
        final(out)@ == old(out)@ + enc_u32(v),
{
    proof {
        lemma_auto_spec_u32_to_from_le_bytes();
    }
    let bs = u32_to_le_bytes(v);
    let ghost base = out@;
    out.push(bs[0]);
    out.push(bs[1]);
    out.push(bs[2]);
    out.push(bs[3]);
    proof {
        assert(out@ =~= base + bs@);
    }
}

fn push_bytes(out: &mut Vec<u8>, v: &Vec<u8>)
    ensures
        final(out)@ == old(out)@ + v@,
{
    let ghost base = out@;
    let mut i: usize = 0;
    while i < v.len()
        invariant
            i <= v@.len(),
            out@ == base + v@.subrange(0, i as int),
        decreases v@.len() - i,
    {
        out.push(v[i]);
        proof {
            assert(base + v@.subrange(0, i as int) + seq![v@[i as int]] =~= base + v@.subrange(
                0,
                i as int + 1,
            ));
        }
        i = i + 1;
    }
    proof {
        assert(v@.subrange(0, v@.len() as int) =~= v@);
    }
}

fn push_token(out: &mut Vec<u8>, t: Token)
    ensures
        final(out)@ == old(out)@ + enc_token(t),
{
    let ghost base = out@;
    push_u32(out, t.gen_line);
    push_u32(out, t.gen_col);
    push_u32(out, t.source_id);
    push_u32(out, t.orig_line);
    push_u32(out, t.orig_col);
    push_u32(out, t.name_id);
    proof {
        assert(out@ =~= base + enc_token(t));
    }
}

fn push_str(out: &mut Vec<u8>, b: &Vec<u8>)
    requires
        b@.len() <= 0xFFFF_FFFF,
    ensures
        final(out)@ == old(out)@ + enc_str(b@),
{
    let ghost base = out@;
    push_u32(out, b.len() as u32);
    push_bytes(out, b);
    proof {
        assert(out@ =~= base + enc_str(b@));
    }
}

/// Whether any slot of the contents table holds content.
fn any_content(cs: &Vec<Option<Vec<u8>>>) -> (r: bool)
    ensures
        r == exists|k: int| 0 <= k < cs@.len() && cs@[k] is Some,
{
    let mut i: usize = 0;
    while i < cs.len()
        invariant
            i <= cs@.len(),
            forall|k: int| 0 <= k < i ==> cs@[k] is None,
        decreases cs@.len() - i,
    {
        if cs[i].is_some() {
            return true;
        }
        i = i + 1;
    }
    false
}

impl SourceMap {
    /// Encodes the document into its memdb byte form. Deterministic: the
    /// bytes are a function of the document alone.
    #[verifier::rlimit(60)]
    pub fn encode_memdb(&self) -> (r: Vec<u8>)
        requires
            doc_wf(self@),
        ensures
            r@ == spec_memdb_encode(self@),
    {
        let ghost m = self@;
        let mut out: Vec<u8> = Vec::new();
        out.push(77);
        out.push(68);
        out.push(66);
        out.push(49);
        proof {
            assert(out@ =~= magic());
        }
        push_u32(&mut out, MEMDB_VERSION);
        push_u32(&mut out, self.tokens.len() as u32);
        push_u32(&mut out, self.sources.len() as u32);
        push_u32(&mut out, self.names.len() as u32);
        let has = any_content(&self.contents);
        proof {
            assert forall|k: int| 0 <= k < m.contents.len() implies (m.contents[k] is Some
                == self.contents@[k] is Some) by {}
            if has {
                let k = choose|k: int|
                    0 <= k < self.contents@.len() && self.contents@[k] is Some;
                assert(m.contents[k] is Some);
            } else if has_content(m.contents) {
                let k = choose|k: int| 0 <= k < m.contents.len() && m.contents[k] is Some;
                assert(self.contents@[k] is Some);
            }
            assert(has == has_content(m.contents));
        }
        push_u32(&mut out, if has { 1 } else { 0 });
        let ghost header = out@;
        let ghost tail_strs = enc_strs(m.sources) + enc_strs(m.names) + (
        if has_content(m.contents) {
            enc_slots(m.contents)
        } else {
            Seq::<u8>::empty()
        });
        proof {
            assert(spec_memdb_encode(m) =~= header + enc_tokens(m.tokens) + tail_strs);
        }
        // token records
        let mut k: usize = 0;
        proof {
            assert(m.tokens.skip(0) =~= m.tokens);
        }
        while k < self.tokens.len()
            invariant
                k <= m.tokens.len(),
                m == self@,
                doc_wf(m),
                out@ + enc_tokens(m.tokens.skip(k as int)) == header + enc_tokens(m.tokens),
            decreases m.tokens.len() - k,
        {
            let ghost before = out@;
            push_token(&mut out, self.tokens[k]);
            proof {
                let rest = m.tokens.skip(k as int);
                assert(rest[0] == m.tokens[k as int]);
                assert(rest.skip(1) =~= m.tokens.skip(k as int + 1));
                assert(enc_tokens(rest) == enc_token(m.tokens[k as int]) + enc_tokens(
                    m.tokens.skip(k as int + 1),
                ));
                assert(out@ + enc_tokens(m.tokens.skip(k as int + 1)) =~= before + enc_tokens(
                    m.tokens.skip(k as int),
                ));
            }
            k = k + 1;
        }
        proof {
            assert(enc_tokens(m.tokens.skip(m.tokens.len() as int)) =~= Seq::<u8>::empty());
            assert(out@ =~= header + enc_tokens(m.tokens));
        }
        let ghost after_tokens = out@;
        // source table
        let mut k2: usize = 0;
        proof {
            assert(m.sources.skip(0) =~= m.sources);
        }
        while k2 < self.sources.len()
            invariant
                k2 <= m.sources.len(),
                m == self@,
                doc_wf(m),
                out@ + enc_strs(m.sources.skip(k2 as int)) == after_tokens + enc_strs(m.sources),
            decreases m.sources.len() - k2,
        {
            let ghost before = out@;
            proof {
                assert(m.sources[k2 as int] == self.sources@[k2 as int]@);
            }
            push_str(&mut out, &self.sources[k2]);
            proof {
                let rest = m.sources.skip(k2 as int);
                assert(rest[0] == m.sources[k2 as int]);
                assert(rest.skip(1) =~= m.sources.skip(k2 as int + 1));
                assert(enc_strs(rest) == enc_str(m.sources[k2 as int]) + enc_strs(
                    m.sources.skip(k2 as int + 1),
                ));
                assert(out@ + enc_strs(m.sources.skip(k2 as int + 1)) =~= before + enc_strs(
                    m.sources.skip(k2 as int),
                ));
            }
            k2 = k2 + 1;
        }
        proof {
            assert(enc_strs(m.sources.skip(m.sources.len() as int)) =~= Seq::<u8>::empty());
            assert(out@ =~= after_tokens + enc_strs(m.sources));
        }
        let ghost after_sources = out@;
        // name table
        let mut k3: usize = 0;
        proof {
            assert(m.names.skip(0) =~= m.names);
        }
        while k3 < self.names.len()
            invariant
                k3 <= m.names.len(),
                m == self@,
                doc_wf(m),
                out@ + enc_strs(m.names.skip(k3 as int)) == after_sources + enc_strs(m.names),
            decreases m.names.len() - k3,
        {
            let ghost before = out@;
            proof {
                assert(m.names[k3 as int] == self.names@[k3 as int]@);
            }
            push_str(&mut out, &self.names[k3]);
            proof {
                let rest = m.names.skip(k3 as int);
                assert(rest[0] == m.names[k3 as int]);
                assert(rest.skip(1) =~= m.names.skip(k3 as int + 1));
                assert(enc_strs(rest) == enc_str(m.names[k3 as int]) + enc_strs(
                    m.names.skip(k3 as int + 1),
                ));
                assert(out@ + enc_strs(m.names.skip(k3 as int + 1)) =~= before + enc_strs(
                    m.names.skip(k3 as int),
                ));
            }
            k3 = k3 + 1;
        }
        proof {
            assert(enc_strs(m.names.skip(m.names.len() as int)) =~= Seq::<u8>::empty());
            assert(out@ =~= after_sources + enc_strs(m.names));
        }
        let ghost after_names = out@;
        // contents section, only when some slot holds content
        if has {
            let mut k4: usize = 0;
            proof {
                assert(m.contents.skip(0) =~= m.contents);
            }
            while k4 < self.contents.len()
                invariant
                    k4 <= m.contents.len(),
                    m == self@,
                    doc_wf(m),
                    out@ + enc_slots(m.contents.skip(k4 as int)) == after_names + enc_slots(
                        m.contents,
                    ),
                decreases m.contents.len() - k4,
            {
                let ghost before = out@;
                let ghost slot = m.contents[k4 as int];
                match &self.contents[k4] {
                    None => {
                        proof {
                            assert(slot is None);
                        }
                        push_u32(&mut out, 0);
                        proof {
                            assert(out@ =~= before + enc_slot(slot));
                        }
                    },
                    Some(b) => {
                        proof {
                            assert(slot == Some(b@));
                        }
                        push_u32(&mut out, 1);
                        push_str(&mut out, b);
                        proof {
                            assert(out@ =~= before + enc_slot(slot));
                        }
                    },
                }
                proof {
                    let rest = m.contents.skip(k4 as int);
                    assert(rest[0] == m.contents[k4 as int]);
                    assert(rest.skip(1) =~= m.contents.skip(k4 as int + 1));
                    assert(enc_slots(rest) == enc_slot(m.contents[k4 as int]) + enc_slots(
                        m.contents.skip(k4 as int + 1),
                    ));
                    assert(out@ + enc_slots(m.contents.skip(k4 as int + 1)) =~= before + enc_slots(
                        m.contents.skip(k4 as int),
                    ));
                }
                k4 = k4 + 1;
            }
            proof {
                assert(enc_slots(m.contents.skip(m.contents.len() as int)) =~= Seq::<u8>::empty());
                assert(out@ =~= after_names + enc_slots(m.contents));
                assert(out@ =~= spec_memdb_encode(m));
            }
        } else {
            proof {
                assert(out@ =~= spec_memdb_encode(m));
            }
        }
        out
    }
}

pub open spec fn combine_tokens(prefix: Seq<Token>, r: Option<(Seq<Token>, int)>) -> Option<
    (Seq<Token>, int),
> {
    match r {
        None => None,
        Some((ts, j)) => Some((prefix + ts, j)),
    }
}

pub open spec fn combine_strs(prefix: Seq<Seq<u8>>, r: Option<(Seq<Seq<u8>>, int)>) -> Option<
    (Seq<Seq<u8>>, int),
> {
    match r {
        None => None,
        Some((bs, j)) => Some((prefix + bs, j)),
    }
}

pub open spec fn combine_slots(
    prefix: Seq<Option<Seq<u8>>>,
    r: Option<(Seq<Option<Seq<u8>>>, int)>,
) -> Option<(Seq<Option<Seq<u8>>>, int)> {
    match r {
        None => None,
        Some((cs, j)) => Some((prefix + cs, j)),
    }
}

fn read_u32(s: &Vec<u8>, i: usize) -> (r: u32)
    requires
        i + 4 <= s@.len(),
    ensures
        r == dec_u32_at(s@, i as int),
{
    let n = s.len();
    let sl = slice_subrange(s.as_slice(), i, i + 4);
    u32_from_le_bytes(sl)
}

/// A copy of the bytes `s[a..b]`.
fn copy_range(s: &Vec<u8>, a: usize, b: usize) -> (r: Vec<u8>)
    requires
        a <= b <= s@.len(),
    ensures
        r@ == s@.subrange(a as int, b as int),
{
    let mut out: Vec<u8> = Vec::new();
    let mut k: usize = a;
    while k < b
        invariant
            a <= k <= b <= s@.len(),
            out@ == s@.subrange(a as int, k as int),
        decreases b - k,
    {
        out.push(s[k]);
        proof {
            assert(out@ =~= s@.subrange(a as int, k as int + 1));
        }
        k = k + 1;
    }
    out
}

/// Reads `count` length-prefixed strings from `start`.
fn read_strs(bytes: &Vec<u8>, start: usize, count: u32) -> (r: Result<(Vec<Vec<u8>>, usize), Error>)
    requires
        start <= bytes@.len(),
    ensures
        match r {
            Ok((vs, end)) => {
                &&& dec_strs(bytes@, start as int, count as nat) == Some(
                    (vs@.map_values(bytes_view()), end as int),
                )
                &&& start <= end <= bytes@.len()
                &&& vs@.len() == count
                &&& forall|k: int| 0 <= k < vs@.len() ==> (#[trigger] vs@[k])@.len() <= 0xFFFF_FFFF
            },
            Err(e) => e == Error::TruncatedMemdb && dec_strs(bytes@, start as int, count as nat)
                is None,
        },
{
    let n = bytes.len();
    let mut out: Vec<Vec<u8>> = Vec::new();
    let mut i: usize = start;
    let mut k: u32 = 0;
    proof {
        assert(out@.map_values(bytes_view()) =~= Seq::<Seq<u8>>::empty());
    }
    while k < count
        invariant
            k <= count,
            start <= i <= n == bytes@.len(),
            out@.len() == k,
            forall|j: int| 0 <= j < out@.len() ==> (#[trigger] out@[j])@.len() <= 0xFFFF_FFFF,
            dec_strs(bytes@, start as int, count as nat) == combine_strs(
                out@.map_values(bytes_view()),
                dec_strs(bytes@, i as int, (count - k) as nat),
            ),
        decreases count - k,
    {
        if n - i < 4 {
            return Err(Error::TruncatedMemdb);
        }
        let l = read_u32(bytes, i);
        if (l as usize) > n - (i + 4) {
            return Err(Error::TruncatedMemdb);
        }
        let b = copy_range(bytes, i + 4, i + 4 + l as usize);
        let ghost prefix = out@.map_values(bytes_view());
        proof {
            assert(dec_str(bytes@, i as int) == Some(
                (b@, i as int + 4 + l as int),
            ));
        }
        out.push(b);
        proof {
            assert(out@.map_values(bytes_view()) =~= prefix.push(
                bytes@.subrange(i as int + 4, i as int + 4 + l as int),
            ));
            let rest = dec_strs(bytes@, i as int + 4 + l as int, (count - k - 1) as nat);
            assert(dec_strs(bytes@, i as int, (count - k) as nat) == combine_strs(
                seq![bytes@.subrange(i as int + 4, i as int + 4 + l as int)],
                rest,
            ));
            match rest {
                None => {},
                Some((bs, j)) => {
                    assert(prefix + (seq![
                        bytes@.subrange(i as int + 4, i as int + 4 + l as int),
                    ] + bs) =~= prefix.push(
                        bytes@.subrange(i as int + 4, i as int + 4 + l as int),
                    ) + bs);
                },
            }
        }
        i = i + 4 + l as usize;
        k = k + 1;
    }
    proof {
        assert(dec_strs(bytes@, i as int, 0) == Some((Seq::<Seq<u8>>::empty(), i as int)));
        assert(out@.map_values(bytes_view()) + Seq::<Seq<u8>>::empty() =~= out@.map_values(
            bytes_view(),
        ));
    }
    Ok((out, i))
}

/// Tokens in non-decreasing generated-position order, checked pair by pair.
fn check_sorted(toks: &Vec<Token>) -> (r: bool)
    ensures
        r == sorted_tokens(toks@),
{
    let mut k: usize = 1;
    if toks.len() == 0 {
        return true;
    }
    while k < toks.len()
        invariant
            1 <= k <= toks@.len(),
            forall|j: int| 1 <= j < k ==> key_le(toks@[j - 1], #[trigger] toks@[j]),
        decreases toks@.len() - k,
    {
        let a = toks[k - 1];
        let b = toks[k];
        if !(a.gen_line < b.gen_line || (a.gen_line == b.gen_line && a.gen_col <= b.gen_col)) {
            proof {
                assert(!key_le(toks@[k - 1], toks@[k as int]));
            }
            return false;
        }
        k = k + 1;
    }
    proof {
        lemma_adjacent_sorted(toks@);
    }
    true
}

/// Adjacent order extends to every pair.
proof fn lemma_adjacent_sorted(ts: Seq<Token>)
    requires
        forall|j: int| 1 <= j < ts.len() ==> key_le(ts[j - 1], #[trigger] ts[j]),
    ensures
        sorted_tokens(ts),
{
    assert forall|i: int, j: int| 0 <= i < j < ts.len() implies key_le(ts[i], ts[j]) by {
        lemma_key_le_chain(ts, i, j);
    }
}

proof fn lemma_key_le_chain(ts: Seq<Token>, i: int, j: int)
    requires
        forall|k: int| 1 <= k < ts.len() ==> key_le(ts[k - 1], #[trigger] ts[k]),
        0 <= i < j < ts.len(),
    ensures
        key_le(ts[i], ts[j]),
    decreases j - i,
{
    if j > i + 1 {
        lemma_key_le_chain(ts, i, j - 1);
        assert(key_le(ts[j - 1], ts[j]));
    }
}

/// Every token's index fields point into the tables, checked one by one.
fn check_ids(toks: &Vec<Token>, ns: u32, nn: u32) -> (r: bool)
    ensures
        r == forall|k: int|
            0 <= k < toks@.len() ==> token_ids_wf(#[trigger] toks@[k], ns as int, nn as int),
{
    let mut k: usize = 0;
    while k < toks.len()
        invariant
            k <= toks@.len(),
            forall|j: int| 0 <= j < k ==> token_ids_wf(#[trigger] toks@[j], ns as int, nn as int),
        decreases toks@.len() - k,
    {
        let t = toks[k];
        if !((t.source_id == NO_ID || t.source_id < ns) && (t.name_id == NO_ID || t.name_id
            < nn)) {
            proof {
                assert(!token_ids_wf(toks@[k as int], ns as int, nn as int));
            }
            return false;
        }
        k = k + 1;
    }
    true
}

/// Decodes a memdb buffer into a document, or reports why it is refused.
#[verifier::loop_isolation(false)]
#[verifier::rlimit(60)]
pub fn decode(bytes: &Vec<u8>) -> (r: Result<SourceMap, Error>)
    ensures
        match r {
            Ok(doc) => spec_memdb_decode(bytes@) == Ok::<DocModel, Error>(doc@) && doc_wf(doc@),
            Err(e) => spec_memdb_decode(bytes@) == Err::<DocModel, Error>(e),
        },
{
    let n = bytes.len();
    if n < 24 {
        return Err(Error::TruncatedMemdb);
    }
    if !(bytes[0] == 77 && bytes[1] == 68 && bytes[2] == 66 && bytes[3] == 49) {
        proof {
            assert(bytes@.subrange(0, 4) != magic()) by {
                if bytes@.subrange(0, 4) == magic() {
                    assert(bytes@.subrange(0, 4)[0] == bytes@[0]);
                    assert(bytes@.subrange(0, 4)[1] == bytes@[1]);
                    assert(bytes@.subrange(0, 4)[2] == bytes@[2]);
                    assert(bytes@.subrange(0, 4)[3] == bytes@[3]);
                }
            }
        }
        return Err(Error::UnsupportedMemdbVersion);
    }
    proof {
        assert(bytes@.subrange(0, 4) =~= magic());
    }
    let ver = read_u32(bytes, 4);
    if ver != MEMDB_VERSION {
        return Err(Error::UnsupportedMemdbVersion);
    }
    let nt = read_u32(bytes, 8);
    let ns = read_u32(bytes, 12);
    let nn = read_u32(bytes, 16);
    let fl = read_u32(bytes, 20);
    if fl != 0 && fl != 1 {
        return Err(Error::TruncatedMemdb);
    }
    // token records
    let mut toks: Vec<Token> = Vec::new();
    let mut i: usize = 24;
    let mut k: u32 = 0;
    proof {
        assert(toks@ + Seq::<Token>::empty() =~= toks@);
    }
    while k < nt
        invariant
            k <= nt,
            24 <= i <= n == bytes@.len(),
            toks@.len() == k,
            dec_tokens(bytes@, 24, nt as nat) == combine_tokens(
                toks@,
                dec_tokens(bytes@, i as int, (nt - k) as nat),
            ),
        decreases nt - k,
    {
        if n - i < 24 {
            return Err(Error::TruncatedMemdb);
        }
        let t = Token {
            gen_line: read_u32(bytes, i),
            gen_col: read_u32(bytes, i + 4),
            source_id: read_u32(bytes, i + 8),
            orig_line: read_u32(bytes, i + 12),
            orig_col: read_u32(bytes, i + 16),
            name_id: read_u32(bytes, i + 20),
        };
        proof {
            assert(t == dec_token_at(bytes@, i as int));
            let rest = dec_tokens(bytes@, i as int + 24, (nt - k - 1) as nat);
            assert(dec_tokens(bytes@, i as int, (nt - k) as nat) == combine_tokens(
                seq![t],
                rest,
            ));
            match rest {
                None => {},
                Some((ts, j)) => {
                    assert(toks@ + (seq![t] + ts) =~= toks@.push(t) + ts);
                },
            }
        }
        toks.push(t);
        i = i + 24;
        k = k + 1;
    }
    proof {
        assert(dec_tokens(bytes@, i as int, 0) == Some((Seq::<Token>::empty(), i as int)));
        assert(toks@ + Seq::<Token>::empty() =~= toks@);
        assert(dec_tokens(bytes@, 24, nt as nat) == Some((toks@, i as int)));
    }
    // string tables
    let (srcs, i2) = match read_strs(bytes, i, ns) {
        Ok(v) => v,
        Err(e) => {
            return Err(e);
        },
    };
    let (nms, i3) = match read_strs(bytes, i2, nn) {
        Ok(v) => v,
        Err(e) => {
            return Err(e);
        },
    };
    // contents section
    let mut cs: Vec<Option<Vec<u8>>> = Vec::new();
    let mut i4: usize = i3;
    if fl == 1 {
        let mut k4: u32 = 0;
        proof {
            assert(cs@.map_values(slot_view()) =~= Seq::<Option<Seq<u8>>>::empty());
        }
        while k4 < ns
            invariant
                k4 <= ns,
                i3 <= i4 <= n == bytes@.len(),
                cs@.len() == k4,
                forall|j: int|
                    0 <= j < cs@.len() ==> ((#[trigger] cs@[j]) matches Some(b) ==> b@.len()
                        <= 0xFFFF_FFFF),
                dec_slots(bytes@, i3 as int, ns as nat) == combine_slots(
                    cs@.map_values(slot_view()),
                    dec_slots(bytes@, i4 as int, (ns - k4) as nat),
                ),
            decreases ns - k4,
        {
            if n - i4 < 4 {
                return Err(Error::TruncatedMemdb);
            }
            let f = read_u32(bytes, i4);
            let ghost prefix = cs@.map_values(slot_view());
            let ghost rem = (ns - k4) as nat;
            if f == 0 {
                proof {
                    assert(dec_slot(bytes@, i4 as int) == Some(
                        (None::<Seq<u8>>, i4 as int + 4),
                    ));
                    let rest = dec_slots(bytes@, i4 as int + 4, (rem - 1) as nat);
                    assert(dec_slots(bytes@, i4 as int, rem) == combine_slots(
                        seq![None::<Seq<u8>>],
                        rest,
                    ));
                    match rest {
                        None => {},
                        Some((ss, j)) => {
                            assert(prefix + (seq![None::<Seq<u8>>] + ss) =~= prefix.push(
                                None::<Seq<u8>>,
                            ) + ss);
                        },
                    }
                }
                cs.push(None);
                proof {
                    assert(cs@.map_values(slot_view()) =~= prefix.push(None::<Seq<u8>>));
                }
                i4 = i4 + 4;
            } else if f == 1 {
                if n - (i4 + 4) < 4 {
                    return Err(Error::TruncatedMemdb);
                }
                let l = read_u32(bytes, i4 + 4);
                if (l as usize) > n - (i4 + 8) {
                    return Err(Error::TruncatedMemdb);
                }
                let b = copy_range(bytes, i4 + 8, i4 + 8 + l as usize);
                proof {
                    assert(dec_str(bytes@, i4 as int + 4) == Some(
                        (b@, i4 as int + 8 + l as int),
                    ));
                    assert(dec_slot(bytes@, i4 as int) == Some(
                        (Some(b@), i4 as int + 8 + l as int),
                    ));
                    let rest = dec_slots(bytes@, i4 as int + 8 + l as int, (rem - 1) as nat);
                    assert(dec_slots(bytes@, i4 as int, rem) == combine_slots(
                        seq![Some(b@)],
                        rest,
                    ));
                    match rest {
                        None => {},
                        Some((ss, j)) => {
                            assert(prefix + (seq![Some(b@)] + ss) =~= prefix.push(Some(b@)) + ss);
                        },
                    }
                }
                let ghost bv = b@;
                cs.push(Some(b));
                proof {
                    assert(cs@.map_values(slot_view()) =~= prefix.push(Some(bv)));
                }
                i4 = i4 + 8 + l as usize;
            } else {
                proof {
                    assert(dec_slot(bytes@, i4 as int) is None);
                }
                return Err(Error::TruncatedMemdb);
            }
            k4 = k4 + 1;
        }
        proof {
            assert(dec_slots(bytes@, i4 as int, 0) == Some(
                (Seq::<Option<Seq<u8>>>::empty(), i4 as int),
            ));
            assert(cs@.map_values(slot_view()) + Seq::<Option<Seq<u8>>>::empty()
                =~= cs@.map_values(slot_view()));
            assert(dec_slots(bytes@, i3 as int, ns as nat) == Some(
                (cs@.map_values(slot_view()), i4 as int),
            ));
        }
    } else {
        let mut k4: u32 = 0;
        while k4 < ns
            invariant
                k4 <= ns,
                cs@.len() == k4,
                forall|j: int| 0 <= j < cs@.len() ==> (#[trigger] cs@[j]) is None,
            decreases ns - k4,
        {
            cs.push(None);
            k4 = k4 + 1;
        }
        proof {
            assert(cs@.map_values(slot_view()) =~= Seq::new(
                ns as nat,
                |j: int| None::<Seq<u8>>,
            ));
        }
    }
    if i4 != n {
        return Err(Error::TruncatedMemdb);
    }
    if ns == NO_ID || nn == NO_ID {
        return Err(Error::TruncatedMemdb);
    }
    if !check_sorted(&toks) {
        return Err(Error::TruncatedMemdb);
    }
    if !check_ids(&toks, ns, nn) {
        return Err(Error::TruncatedMemdb);
    }
    let doc = SourceMap { tokens: toks, sources: srcs, names: nms, contents: cs };
    proof {
        assert(decoded_ok(doc@.tokens, ns, nn));
        assert(spec_memdb_decode(bytes@) == Ok::<DocModel, Error>(doc@));
        assert(doc_wf(doc@));
    }
    Ok(doc)
}

} // verus!
