//! The decoder of the JSON `mappings` field.
//!
//! The field is one string: segments separated by `;`, one segment per
//! generated line (empty segments allowed); groups inside a segment
//! separated by `,`; each group 1, 4 or 5 VLQ values, every value relative
//! to the previous value of the same field — the generated column resets
//! at each `;`, the other fields run across the whole string. A 1-value
//! group carries a generated column only, with no source association. A
//! group with another value count fails with `InvalidMappingGroup`, as
//! does any delta that pushes a field out of the range its record holds,
//! or an index at or past the `NO_ID` sentinel.

use vstd::prelude::*;

use crate::document::{Token, NO_ID};
use crate::errors::Error;
use crate::vlq;

verus! {

/// The running value of every delta-decoded field.
#[derive(Clone, Copy, PartialEq, Eq, Structural, Debug)]
pub struct MapState {
    pub gen_line: u32,
    pub gen_col: i64,
    pub src: i64,
    pub orig_line: i64,
    pub orig_col: i64,
    pub name: i64,
}

/// The state at the start of the string: every field at zero.
pub open spec fn init_state() -> MapState {
    MapState { gen_line: 0, gen_col: 0, src: 0, orig_line: 0, orig_col: 0, name: 0 }
}

/// The running fields hold representable values.
pub open spec fn state_wf(st: MapState) -> bool {
    &&& 0 <= st.gen_col <= 0xFFFF_FFFF
    &&& 0 <= st.src <= 0xFFFF_FFFE
    &&& 0 <= st.orig_line <= 0xFFFF_FFFF
    &&& 0 <= st.orig_col <= 0xFFFF_FFFF
    &&& 0 <= st.name <= 0xFFFF_FFFE
}

/// `;` or `,`: the bytes that end a group.
pub open spec fn is_delim(b: u8) -> bool {
    b == 59 || b == 44
}

/// The index of the first delimiter at or after `i`, or the end.
pub open spec fn group_end(s: Seq<u8>, i: int) -> int
    decreases s.len() - i,
{
    if !(0 <= i < s.len()) {
        s.len() as int
    } else if is_delim(s[i]) {
        i
    } else {
        group_end(s, i + 1)
    }
}

pub proof fn lemma_group_end_bounds(s: Seq<u8>, i: int)
    requires
        0 <= i <= s.len(),
    ensures
        i <= group_end(s, i) <= s.len(),
        i < s.len() && !is_delim(s[i]) ==> group_end(s, i) > i,
    decreases s.len() - i,
{
    if i < s.len() && !is_delim(s[i]) {
        lemma_group_end_bounds(s, i + 1);
    }
}

/// One group applied to the running state: the new state and the token the
/// group stands for, or the failure the group provokes.
pub open spec fn spec_apply_group(st: MapState, vals: Seq<i64>) -> Result<(MapState, Token), Error> {
    if vals.len() != 1 && vals.len() != 4 && vals.len() != 5 {
        Err(Error::InvalidMappingGroup)
    } else {
        let col = st.gen_col + vals[0];
        if !(0 <= col <= 0xFFFF_FFFF) {
            Err(Error::InvalidMappingGroup)
        } else if vals.len() == 1 {
            Ok(
                (
                    MapState { gen_col: col as i64, ..st },
                    Token {
                        gen_line: st.gen_line,
                        gen_col: col as u32,
                        source_id: NO_ID,
                        orig_line: 0,
                        orig_col: 0,
                        name_id: NO_ID,
                    },
                ),
            )
        } else {
            let src = st.src + vals[1];
            let ol = st.orig_line + vals[2];
            let oc = st.orig_col + vals[3];
            if !(0 <= src <= 0xFFFF_FFFE) || !(0 <= ol <= 0xFFFF_FFFF) || !(0 <= oc
                <= 0xFFFF_FFFF) {
                Err(Error::InvalidMappingGroup)
            } else if vals.len() == 5 {
                let nm = st.name + vals[4];
                if !(0 <= nm <= 0xFFFF_FFFE) {
                    Err(Error::InvalidMappingGroup)
                } else {
                    Ok(
                        (
                            MapState {
                                gen_col: col as i64,
                                src: src as i64,
                                orig_line: ol as i64,
                                orig_col: oc as i64,
                                name: nm as i64,
                                ..st
                            },
                            Token {
                                gen_line: st.gen_line,
                                gen_col: col as u32,
                                source_id: src as u32,
                                orig_line: ol as u32,
                                orig_col: oc as u32,
                                name_id: nm as u32,
                            },
                        ),
                    )
                }
            } else {
                Ok(
                    (
                        MapState {
                            gen_col: col as i64,
                            src: src as i64,
                            orig_line: ol as i64,
                            orig_col: oc as i64,
                            ..st
                        },
                        Token {
                            gen_line: st.gen_line,
                            gen_col: col as u32,
                            source_id: src as u32,
                            orig_line: ol as u32,
                            orig_col: oc as u32,
                            name_id: NO_ID,
                        },
                    ),
                )
            }
        }
    }
}

/// The whole decode, from byte `i` with state `st` and the tokens already
/// decoded: the token list in string order, or the first failure.
pub open spec fn spec_parse_mappings(s: Seq<u8>, i: int, st: MapState, acc: Seq<Token>) -> Result<
    Seq<Token>,
    Error,
>
    decreases s.len() - i,
    via spec_parse_mappings_decreases
{
    if !(0 <= i < s.len()) {
        Ok(acc)
    } else if s[i] == 59 {
        if st.gen_line == 0xFFFF_FFFF {
            Err(Error::InvalidMappingGroup)
        } else {
            spec_parse_mappings(
                s,
                i + 1,
                MapState { gen_line: (st.gen_line + 1) as u32, gen_col: 0, ..st },
                acc,
            )
        }
    } else if s[i] == 44 {
        spec_parse_mappings(s, i + 1, st, acc)
    } else {
        let g = group_end(s, i);
        match vlq::spec_decode_vlq_stream(s, i, g) {
            Err(e) => Err(e),
            Ok(vals) => match spec_apply_group(st, vals) {
                Err(e) => Err(e),
                Ok((st2, t)) => spec_parse_mappings(s, g, st2, acc.push(t)),
            },
        }
    }
}

#[via_fn]
proof fn spec_parse_mappings_decreases(s: Seq<u8>, i: int, st: MapState, acc: Seq<Token>) {
    if 0 <= i < s.len() && s[i] != 59 && s[i] != 44 {
        lemma_group_end_bounds(s, i);
    }
}

/// A value a VLQ parse can return has a 32-bit magnitude.
proof fn lemma_parse_vlq_range(s: Seq<u8>, i: int, end: int, acc: nat, idx: nat)
    ensures
        vlq::spec_parse_vlq(s, i, end, acc, idx) matches Ok((v, j)) ==> -0xFFFF_FFFFi64 <= v
            <= 0xFFFF_FFFFi64,
    decreases end - i,
{
    if 0 <= i < end && end <= s.len() {
        let d = vlq::b64_value(s[i]);
        if d < 64 {
            let acc2 = (acc + (d % 32) * vlq::pow32(idx)) as nat;
            if d >= 32 {
                if idx < 6 {
                    lemma_parse_vlq_range(s, i + 1, end, acc2, idx + 1);
                }
            }
        }
    }
}

/// Every value of a decoded VLQ stream has a 32-bit magnitude.
proof fn lemma_stream_range(s: Seq<u8>, i: int, end: int)
    ensures
        vlq::spec_decode_vlq_stream(s, i, end) matches Ok(vs) ==> forall|k: int|
            0 <= k < vs.len() ==> -0xFFFF_FFFFi64 <= #[trigger] vs[k] <= 0xFFFF_FFFFi64,
    decreases end - i,
{
    if i < end {
        lemma_parse_vlq_range(s, i, end, 0, 0);
        vlq::lemma_parse_vlq_advances(s, i, end, 0, 0);
        match vlq::spec_parse_vlq(s, i, end, 0, 0) {
            Err(_) => {},
            Ok((v, j)) => {
                lemma_stream_range(s, j, end);
            },
        }
    }
}

/// Applies one decoded group at run time.
fn apply_group(st: MapState, vals: &Vec<i64>) -> (r: Result<(MapState, Token), Error>)
    requires
        state_wf(st),
        forall|k: int| 0 <= k < vals@.len() ==> -0xFFFF_FFFFi64 <= #[trigger] vals@[k]
            <= 0xFFFF_FFFFi64,
    ensures
        match r {
            Ok((st2, t)) => spec_apply_group(st, vals@) == Ok::<(MapState, Token), Error>((st2, t))
                && state_wf(st2),
            Err(e) => spec_apply_group(st, vals@) == Err::<(MapState, Token), Error>(e),
        },
{
    let n = vals.len();
    if n != 1 && n != 4 && n != 5 {
        return Err(Error::InvalidMappingGroup);
    }
    let col = st.gen_col + vals[0];
    if !(0 <= col && col <= 0xFFFF_FFFF) {
        return Err(Error::InvalidMappingGroup);
    }
    if n == 1 {
        return Ok(
            (
                MapState { gen_col: col, ..st },
                Token {
                    gen_line: st.gen_line,
                    gen_col: col as u32,
                    source_id: NO_ID,
                    orig_line: 0,
                    orig_col: 0,
                    name_id: NO_ID,
                },
            ),
        );
    }
    let src = st.src + vals[1];
    let ol = st.orig_line + vals[2];
    let oc = st.orig_col + vals[3];
    if !(0 <= src && src <= 0xFFFF_FFFE) || !(0 <= ol && ol <= 0xFFFF_FFFF) || !(0 <= oc && oc
        <= 0xFFFF_FFFF) {
        return Err(Error::InvalidMappingGroup);
    }
    if n == 5 {
        let nm = st.name + vals[4];
        if !(0 <= nm && nm <= 0xFFFF_FFFE) {
            return Err(Error::InvalidMappingGroup);
        }
        Ok(
            (
                MapState { gen_col: col, src, orig_line: ol, orig_col: oc, name: nm, ..st },
                Token {
                    gen_line: st.gen_line,
                    gen_col: col as u32,
                    source_id: src as u32,
                    orig_line: ol as u32,
                    orig_col: oc as u32,
                    name_id: nm as u32,
                },
            ),
        )
    } else {
        Ok(
            (
                MapState { gen_col: col, src, orig_line: ol, orig_col: oc, ..st },
                Token {
                    gen_line: st.gen_line,
                    gen_col: col as u32,
                    source_id: src as u32,
                    orig_line: ol as u32,
                    orig_col: oc as u32,
                    name_id: NO_ID,
                },
            ),
        )
    }
}

/// Decodes a whole `mappings` string into tokens, in string order.
pub fn parse_mappings(s: &Vec<u8>) -> (r: Result<Vec<Token>, Error>)
    ensures
        match r {
            Ok(ts) => spec_parse_mappings(s@, 0, init_state(), Seq::empty()) == Ok::<
                Seq<Token>,
                Error,
            >(ts@),
            Err(e) => spec_parse_mappings(s@, 0, init_state(), Seq::empty()) == Err::<
                Seq<Token>,
                Error,
            >(e),
        },
{
    let mut out: Vec<Token> = Vec::new();
    let mut st = MapState { gen_line: 0, gen_col: 0, src: 0, orig_line: 0, orig_col: 0, name: 0 };
    let mut i: usize = 0;
    proof {
        assert(st == init_state());
    }
    loop
        invariant
            i <= s@.len(),
            state_wf(st),
            spec_parse_mappings(s@, 0, init_state(), Seq::empty()) == spec_parse_mappings(
                s@,
                i as int,
                st,
                out@,
            ),
        decreases s@.len() - i,
    {
        if i >= s.len() {
            return Ok(out);
        }
        let b = s[i];
        if b == 59 {
            if st.gen_line == 0xFFFF_FFFFu32 {
                return Err(Error::InvalidMappingGroup);
            }
            st = MapState { gen_line: st.gen_line + 1, gen_col: 0, ..st };
            i = i + 1;
        } else if b == 44 {
            i = i + 1;
        } else {
            let g = scan_group_end(s, i);
            match vlq::decode_range(s, i, g) {
                Err(e) => {
                    return Err(e);
                },
                Ok(vals) => {
                    proof {
                        lemma_stream_range(s@, i as int, g as int);
                    }
                    match apply_group(st, &vals) {
                        Err(e) => {
                            return Err(e);
                        },
                        Ok((st2, t)) => {
                            out.push(t);
                            st = st2;
                            i = g;
                        },
                    }
                },
            }
        }
    }
}

/// Finds the end of the group that starts at `i`.
fn scan_group_end(s: &Vec<u8>, i: usize) -> (g: usize)
    requires
        i <= s@.len(),
    ensures
        g == group_end(s@, i as int),
        i <= g <= s@.len(),
{
    let mut k: usize = i;
    loop
        invariant
            i <= k <= s@.len(),
            group_end(s@, i as int) == group_end(s@, k as int),
        decreases s@.len() - k,
    {
        if k >= s.len() {
            return k;
        }
        let b = s[k];
        if b == 59 || b == 44 {
            return k;
        }
        k = k + 1;
    }
}

} // verus!
