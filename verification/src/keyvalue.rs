//! A flat key=value record parser for directive marker payloads.
//!
//! A marker line's payload (the text between the marker prefix and suffix)
//! is a comma-separated list of `key=value` pairs. Keys are runs of ASCII
//! letters, digits, `_` and `-`. A value is either quoted — `"` up to the
//! next `"`, taken verbatim — or bare, running to the next comma and trimmed
//! of surrounding whitespace. Whitespace around keys, around `=` and between
//! pairs is ignored. Anything else is a parse error.

use vstd::prelude::*;

use crate::bytes::{
    lemma_next_byte_bounds, lemma_ws_end_bounds, next_byte, trim, trim_spec, ws_end,
};
use crate::bytes::slice_range;
use crate::errors::PluginError;

verus! {

/// A byte that may stand in a key.
pub open spec fn is_key_byte(b: u8) -> bool {
    (48 <= b <= 57) || (65 <= b <= 90) || (97 <= b <= 122) || b == 95 || b == 45
}

/// The first index `>= i` holding a byte that may not stand in a key, or
/// `s.len()`.
pub open spec fn key_end(s: Seq<u8>, i: int) -> int
    decreases s.len() - i,
{
    if 0 <= i < s.len() && is_key_byte(s[i]) {
        key_end(s, i + 1)
    } else {
        i
    }
}

pub proof fn lemma_key_end_bounds(s: Seq<u8>, i: int)
    requires
        0 <= i <= s.len(),
    ensures
        i <= key_end(s, i) <= s.len(),
    decreases s.len() - i,
{
    if 0 <= i < s.len() && is_key_byte(s[i]) {
        lemma_key_end_bounds(s, i + 1);
    }
}

/// The pairs of the record starting at `pos`, or `None` when the text from
/// `pos` on is not a well-formed, non-empty pair list.
pub open spec fn parse_pairs(s: Seq<u8>, pos: int) -> Option<Seq<(Seq<u8>, Seq<u8>)>>
    decreases s.len() - pos,
        via parse_pairs_dec
{
    if pos < 0 || pos > s.len() {
        None
    } else {
        let k0 = ws_end(s, pos);
        let k1 = key_end(s, k0);
        if k1 == k0 {
            None
        } else {
            let q = ws_end(s, k1);
            if !(q < s.len() && s[q] == 61) {
                None
            } else {
                let v = ws_end(s, q + 1);
                if v < s.len() && s[v] == 34 {
                    let c = next_byte(s, 34, v + 1);
                    if c >= s.len() {
                        None
                    } else {
                        let rest = ws_end(s, c + 1);
                        let pair = (s.subrange(k0, k1), s.subrange(v + 1, c));
                        if rest >= s.len() {
                            Some(seq![pair])
                        } else if s[rest] == 44 {
                            match parse_pairs(s, rest + 1) {
                                Some(tail) => Some(seq![pair] + tail),
                                None => None,
                            }
                        } else {
                            None
                        }
                    }
                } else {
                    let comma = next_byte(s, 44, v);
                    let pair = (s.subrange(k0, k1), trim_spec(s.subrange(v, comma)));
                    if comma >= s.len() {
                        Some(seq![pair])
                    } else {
                        match parse_pairs(s, comma + 1) {
                            Some(tail) => Some(seq![pair] + tail),
                            None => None,
                        }
                    }
                }
            }
        }
    }
}

#[via_fn]
proof fn parse_pairs_dec(s: Seq<u8>, pos: int) {
    if 0 <= pos <= s.len() {
        lemma_ws_end_bounds(s, pos);
        let k0 = ws_end(s, pos);
        lemma_key_end_bounds(s, k0);
        let k1 = key_end(s, k0);
        if k1 != k0 {
            lemma_ws_end_bounds(s, k1);
            let q = ws_end(s, k1);
            if q < s.len() {
                lemma_ws_end_bounds(s, q + 1);
                let v = ws_end(s, q + 1);
                if v < s.len() && s[v] == 34 {
                    lemma_next_byte_bounds(s, 34, v + 1);
                    let c = next_byte(s, 34, v + 1);
                    if c < s.len() {
                        lemma_ws_end_bounds(s, c + 1);
                    }
                } else {
                    lemma_next_byte_bounds(s, 44, v);
                }
            }
        }
    }
}

/// The record denoted by `s`: the empty record when `s` is all whitespace,
/// else its pair list.
pub open spec fn parse_record_spec(s: Seq<u8>) -> Option<Seq<(Seq<u8>, Seq<u8>)>> {
    if ws_end(s, 0) == s.len() {
        Some(Seq::empty())
    } else {
        parse_pairs(s, 0)
    }
}

/// The views of a pair list.
pub open spec fn pair_views(ps: Seq<(Vec<u8>, Vec<u8>)>) -> Seq<(Seq<u8>, Seq<u8>)> {
    ps.map_values(|p: (Vec<u8>, Vec<u8>)| (p.0@, p.1@))
}

/// The first index `>= pos` holding a byte that is not ASCII whitespace.
fn skip_ws(s: &[u8], pos: usize) -> (r: usize)
    requires
        pos <= s@.len(),
    ensures
        r == ws_end(s@, pos as int),
        pos <= r <= s@.len(),
{
    let mut i = pos;
    while i < s.len() && (s[i] == 32 || s[i] == 9 || s[i] == 10 || s[i] == 13)
        invariant
            pos <= i <= s@.len(),
            ws_end(s@, pos as int) == ws_end(s@, i as int),
        decreases s@.len() - i,
    {
        i = i + 1;
    }
    i
}

/// The first index `>= pos` holding a byte that may not stand in a key.
fn scan_key(s: &[u8], pos: usize) -> (r: usize)
    requires
        pos <= s@.len(),
    ensures
        r == key_end(s@, pos as int),
        pos <= r <= s@.len(),
{
    let mut i = pos;
    while i < s.len() && ((48 <= s[i] && s[i] <= 57) || (65 <= s[i] && s[i] <= 90) || (97 <= s[i]
        && s[i] <= 122) || s[i] == 95 || s[i] == 45)
        invariant
            pos <= i <= s@.len(),
            key_end(s@, pos as int) == key_end(s@, i as int),
        decreases s@.len() - i,
    {
        i = i + 1;
    }
    i
}

/// The first index `>= pos` holding byte `c`, or the length.
pub(crate) fn find_byte(s: &[u8], c: u8, pos: usize) -> (r: usize)
    requires
        pos <= s@.len(),
    ensures
        r == next_byte(s@, c, pos as int),
        pos <= r <= s@.len(),
{
    let mut i = pos;
    while i < s.len() && s[i] != c
        invariant
            pos <= i <= s@.len(),
            next_byte(s@, c, pos as int) == next_byte(s@, c, i as int),
        decreases s@.len() - i,
    {
        i = i + 1;
    }
    i
}

/// Parses `s` as a flat key=value record; fails with `ConfigParse` exactly
/// when the record grammar rejects it.
#[verifier::loop_isolation(false)]
pub fn parse_record(s: &[u8]) -> (r: Result<Vec<(Vec<u8>, Vec<u8>)>, PluginError>)
    ensures
        match r {
            Ok(ps) => parse_record_spec(s@) == Some(pair_views(ps@)),
            Err(e) => parse_record_spec(s@) == Option::<Seq<(Seq<u8>, Seq<u8>)>>::None && e
                == PluginError::ConfigParse,
        },
{
    let mut out: Vec<(Vec<u8>, Vec<u8>)> = Vec::new();
    let first_ns = skip_ws(s, 0);
    if first_ns == s.len() {
        assert(pair_views(out@) =~= Seq::<(Seq<u8>, Seq<u8>)>::empty());
        return Ok(out);
    }
    let mut pos: usize = 0;
    proof {
        let ghost r0 = parse_pairs(s@, 0int);
        match r0 {
            Some(tail) => {
                assert(pair_views(out@) + tail =~= tail);
            },
            None => {},
        }
    }
    loop
        invariant
            0 <= pos <= s@.len(),
            match parse_pairs(s@, pos as int) {
                Some(tail) => parse_record_spec(s@) == Some(pair_views(out@) + tail),
                None => parse_record_spec(s@) == Option::<Seq<(Seq<u8>, Seq<u8>)>>::None,
            },
        decreases s@.len() - pos,
    {
        let k0 = skip_ws(s, pos);
        let k1 = scan_key(s, k0);
        if k1 == k0 {
            return Err(PluginError::ConfigParse);
        }
        let q = skip_ws(s, k1);
        if !(q < s.len() && s[q] == 61) {
            return Err(PluginError::ConfigParse);
        }
        let v = skip_ws(s, q + 1);
        let key = slice_range(s, k0, k1);
        if v < s.len() && s[v] == 34 {
            let c = find_byte(s, 34, v + 1);
            if c >= s.len() {
                return Err(PluginError::ConfigParse);
            }
            let value = slice_range(s, v + 1, c);
            let rest = skip_ws(s, c + 1);
            let ghost prev = out@;
            out.push((key, value));
            proof {
                assert(pair_views(out@) =~= pair_views(prev) + seq![
                    (s@.subrange(k0 as int, k1 as int), s@.subrange(v + 1, c as int)),
                ]);
            }
            if rest >= s.len() {
                proof {
                    assert(parse_pairs(s@, pos as int) == Some(seq![
                        (s@.subrange(k0 as int, k1 as int), s@.subrange(v + 1, c as int)),
                    ]));
                }
                return Ok(out);
            }
            if s[rest] != 44 {
                return Err(PluginError::ConfigParse);
            }
            proof {
                let ghost pairv = (
                    s@.subrange(k0 as int, k1 as int),
                    s@.subrange(v + 1, c as int),
                );
                let ghost rn = parse_pairs(s@, rest + 1);
                match rn {
                    Some(tail2) => {
                        assert(parse_pairs(s@, pos as int) == Some(seq![pairv] + tail2));
                        assert(pair_views(out@) + tail2 =~= prev.map_values(
                            |p: (Vec<u8>, Vec<u8>)| (p.0@, p.1@),
                        ) + (seq![pairv] + tail2));
                    },
                    None => {
                        assert(parse_pairs(s@, pos as int) == Option::<
                            Seq<(Seq<u8>, Seq<u8>)>,
                        >::None);
                    },
                }
            }
            pos = rest + 1;
        } else {
            let comma = find_byte(s, 44, v);
            let raw = slice_range(s, v, comma);
            let value = trim(raw.as_slice());
            let ghost prev = out@;
            out.push((key, value));
            proof {
                assert(pair_views(out@) =~= pair_views(prev) + seq![
                    (
                        s@.subrange(k0 as int, k1 as int),
                        trim_spec(s@.subrange(v as int, comma as int)),
                    ),
                ]);
            }
            if comma >= s.len() {
                proof {
                    assert(parse_pairs(s@, pos as int) == Some(seq![
                        (
                            s@.subrange(k0 as int, k1 as int),
                            trim_spec(s@.subrange(v as int, comma as int)),
                        ),
                    ]));
                }
                return Ok(out);
            }
            proof {
                let ghost pairv = (
                    s@.subrange(k0 as int, k1 as int),
                    trim_spec(s@.subrange(v as int, comma as int)),
                );
                let ghost rn = parse_pairs(s@, comma + 1);
                match rn {
                    Some(tail2) => {
                        assert(parse_pairs(s@, pos as int) == Some(seq![pairv] + tail2));
                        assert(pair_views(out@) + tail2 =~= prev.map_values(
                            |p: (Vec<u8>, Vec<u8>)| (p.0@, p.1@),
                        ) + (seq![pairv] + tail2));
                    },
                    None => {
                        assert(parse_pairs(s@, pos as int) == Option::<
                            Seq<(Seq<u8>, Seq<u8>)>,
                        >::None);
                    },
                }
            }
            pos = comma + 1;
        }
    }
}

} // verus!
