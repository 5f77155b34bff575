//! Verified helpers over byte strings.
//!
//! All document text in this crate is handled as raw bytes, so that spans
//! (half-open byte ranges) can be applied without any character-boundary
//! concerns. These helpers give the byte-level predicates and operations the
//! matcher, the structurer and the renderers are specified with.

use vstd::prelude::*;
use vstd::string::StringSliceAdditionalSpecFns;

verus! {

/// `p` is a prefix of `s`.
pub open spec fn is_prefix_of(p: Seq<u8>, s: Seq<u8>) -> bool {
    p.len() <= s.len() && s.subrange(0, p.len() as int) == p
}

/// `p` occurs in `s` starting at offset `i`.
pub open spec fn occurs_at(s: Seq<u8>, p: Seq<u8>, i: int) -> bool {
    0 <= i && i + p.len() <= s.len() && s.subrange(i, i + p.len()) == p
}

/// `p` occurs somewhere in `s`.
pub open spec fn contains_seq(s: Seq<u8>, p: Seq<u8>) -> bool {
    exists|i: int| occurs_at(s, p, i)
}

/// Whether `s` starts with the prefix `p`.
pub fn starts_with(s: &[u8], p: &[u8]) -> (r: bool)
    ensures
        r == is_prefix_of(p@, s@),
{
    if p.len() > s.len() {
        return false;
    }
    let mut i: usize = 0;
    while i < p.len()
        invariant
            0 <= i <= p@.len() <= s@.len(),
            forall|j: int| 0 <= j < i ==> s@[j] == p@[j],
        decreases p@.len() - i,
    {
        if s[i] != p[i] {
            assert(s@.subrange(0, p@.len() as int)[i as int] != p@[i as int]);
            return false;
        }
        i = i + 1;
    }
    assert(s@.subrange(0, p@.len() as int) =~= p@);
    true
}

/// Whether `s` and `t` hold the same bytes.
pub fn bytes_eq(s: &[u8], t: &[u8]) -> (r: bool)
    ensures
        r == (s@ == t@),
{
    if s.len() != t.len() {
        return false;
    }
    let mut i: usize = 0;
    while i < s.len()
        invariant
            0 <= i <= s@.len(),
            s@.len() == t@.len(),
            forall|j: int| 0 <= j < i ==> s@[j] == t@[j],
        decreases s@.len() - i,
    {
        if s[i] != t[i] {
            return false;
        }
        i = i + 1;
    }
    assert(s@ =~= t@);
    true
}

/// Whether `p` occurs anywhere in `s`, by checking every offset.
pub fn contains_bytes(s: &[u8], p: &[u8]) -> (r: bool)
    ensures
        r == contains_seq(s@, p@),
{
    match find_bytes(s, p) {
        Some(_) => true,
        None => false,
    }
}

/// The least offset at which `p` occurs in `s`, if any.
pub fn find_bytes(s: &[u8], p: &[u8]) -> (r: Option<usize>)
    ensures
        match r {
            Some(i) => occurs_at(s@, p@, i as int) && forall|j: int|
                0 <= j < i ==> !occurs_at(s@, p@, j),
            None => !contains_seq(s@, p@),
        },
{
    if p.len() > s.len() {
        assert forall|j: int| !occurs_at(s@, p@, j) by {}
        return None;
    }
    if p.len() == 0 {
        assert(s@.subrange(0, 0) =~= p@);
        return Some(0);
    }
    let mut i: usize = 0;
    let n = s.len();
    let m = p.len();
    let last = n - m;
    while i <= last
        invariant
            0 <= i <= last + 1,
            n == s@.len(),
            m == p@.len(),
            last == n - m,
            0 < m <= n,
            forall|j: int| 0 <= j < i ==> !occurs_at(s@, p@, j),
        decreases last + 1 - i,
    {
        let sub = &s[i..i + m];
        if bytes_eq(sub, p) {
            return Some(i);
        }
        i = i + 1;
    }
    assert forall|j: int| !occurs_at(s@, p@, j) by {
        if occurs_at(s@, p@, j) {
            assert(0 <= j < i);
        }
    }
    None
}

/// A fresh copy of the bytes of `s[start..end]`.
pub fn slice_range(s: &[u8], start: usize, end: usize) -> (r: Vec<u8>)
    requires
        start <= end <= s@.len(),
    ensures
        r@ == s@.subrange(start as int, end as int),
{
    let mut out: Vec<u8> = Vec::new();
    let mut i: usize = start;
    while i < end
        invariant
            start <= i <= end <= s@.len(),
            out@ == s@.subrange(start as int, i as int),
        decreases end - i,
    {
        out.push(s[i]);
        assert(out@ =~= s@.subrange(start as int, i + 1));
        i = i + 1;
    }
    out
}

/// Appends all bytes of `s` to `out`.
pub fn push_bytes(out: &mut Vec<u8>, s: &[u8])
    ensures
        final(out)@ == old(out)@ + s@,
{
    let mut i: usize = 0;
    while i < s.len()
        invariant
            0 <= i <= s@.len(),
            out@ == old(out)@ + s@.subrange(0, i as int),
        decreases s@.len() - i,
    {
        out.push(s[i]);
        assert(out@ =~= old(out)@ + s@.subrange(0, i + 1));
        i = i + 1;
    }
    assert(out@ =~= old(out)@ + s@);
}

/// ASCII whitespace, as trimmed from marker payloads and fence tags.
pub open spec fn is_ws(b: u8) -> bool {
    b == 32 || b == 9 || b == 10 || b == 13
}

/// The first index `>= i` holding a byte that is not whitespace, or `s.len()`.
pub open spec fn ws_end(s: Seq<u8>, i: int) -> int
    decreases s.len() - i,
{
    if 0 <= i < s.len() && is_ws(s[i]) {
        ws_end(s, i + 1)
    } else {
        i
    }
}

/// The last index `<= i` holding a byte that is not whitespace, or one below
/// the scanned range.
pub open spec fn ws_start_back(s: Seq<u8>, i: int) -> int
    decreases i + 1,
{
    if 0 <= i < s.len() && is_ws(s[i]) {
        ws_start_back(s, i - 1)
    } else {
        i
    }
}

/// `s` with leading and trailing ASCII whitespace removed.
pub open spec fn trim_spec(s: Seq<u8>) -> Seq<u8> {
    let a = ws_end(s, 0);
    let b = ws_start_back(s, s.len() - 1);
    if a <= b {
        s.subrange(a, b + 1)
    } else {
        Seq::empty()
    }
}

/// ASCII lower-casing of one byte.
pub open spec fn lower_byte(b: u8) -> u8 {
    if 65 <= b <= 90 {
        (b + 32) as u8
    } else {
        b
    }
}

/// ASCII lower-casing of a byte string.
pub open spec fn lower_spec(s: Seq<u8>) -> Seq<u8> {
    Seq::new(s.len(), |i: int| lower_byte(s[i]))
}

/// The first index `>= i` holding byte `c`, or `s.len()` if there is none.
pub open spec fn next_byte(s: Seq<u8>, c: u8, i: int) -> int
    decreases s.len() - i,
{
    if 0 <= i < s.len() {
        if s[i] == c {
            i
        } else {
            next_byte(s, c, i + 1)
        }
    } else {
        s.len() as int
    }
}

pub proof fn lemma_ws_end_bounds(s: Seq<u8>, i: int)
    requires
        0 <= i <= s.len(),
    ensures
        i <= ws_end(s, i) <= s.len(),
    decreases s.len() - i,
{
    if 0 <= i < s.len() && is_ws(s[i]) {
        lemma_ws_end_bounds(s, i + 1);
    }
}

pub proof fn lemma_next_byte_bounds(s: Seq<u8>, c: u8, i: int)
    requires
        0 <= i <= s.len(),
    ensures
        i <= next_byte(s, c, i) <= s.len(),
    decreases s.len() - i,
{
    if 0 <= i < s.len() && s[i] != c {
        lemma_next_byte_bounds(s, c, i + 1);
    }
}

/// `s` trimmed of surrounding whitespace, then lower-cased: the normal form
/// in which fence tags are compared.
pub open spec fn norm_tag(s: Seq<u8>) -> Seq<u8> {
    lower_spec(trim_spec(s))
}

/// The comma-separated fields of `s` from position `pos` on, each in tag
/// normal form.
pub open spec fn fence_tags_from(s: Seq<u8>, pos: int) -> Seq<Seq<u8>>
    decreases s.len() - pos,
{
    let i = next_byte(s, 44, pos);
    if pos <= i < s.len() {
        seq![norm_tag(s.subrange(pos, i))] + fence_tags_from(s, i + 1)
    } else if 0 <= pos <= s.len() {
        seq![norm_tag(s.subrange(pos, s.len() as int))]
    } else {
        seq![]
    }
}

/// The normalized tag list of a fence info string: split on commas, each
/// field trimmed and lower-cased.
pub open spec fn fence_tags(s: Seq<u8>) -> Seq<Seq<u8>> {
    fence_tags_from(s, 0)
}

/// `p` is a prefix of `s`, element for element.
pub open spec fn is_seq_prefix<T>(p: Seq<T>, s: Seq<T>) -> bool {
    p.len() <= s.len() && s.subrange(0, p.len() as int) == p
}

/// The views of a list of byte vectors.
pub open spec fn views(vs: Seq<Vec<u8>>) -> Seq<Seq<u8>> {
    vs.map_values(|v: Vec<u8>| v@)
}

pub proof fn lemma_ws_start_back_bounds(s: Seq<u8>, i: int)
    requires
        i < s.len(),
    ensures
        ws_start_back(s, i) <= i,
    decreases i + 1,
{
    if 0 <= i < s.len() && is_ws(s[i]) {
        lemma_ws_start_back_bounds(s, i - 1);
    }
}

/// `s` with surrounding ASCII whitespace removed.
pub fn trim(s: &[u8]) -> (r: Vec<u8>)
    ensures
        r@ == trim_spec(s@),
{
    let n = s.len();
    let mut a: usize = 0;
    while a < n && (s[a] == 32 || s[a] == 9 || s[a] == 10 || s[a] == 13)
        invariant
            0 <= a <= n == s@.len(),
            ws_end(s@, 0) == ws_end(s@, a as int),
        decreases n - a,
    {
        a = a + 1;
    }
    if a == n {
        proof {
            assert(ws_end(s@, n as int) == n);
            if n > 0 {
                lemma_ws_start_back_bounds(s@, s@.len() - 1);
            } else {
                assert(ws_start_back(s@, -1) == -1);
            }
        }
        return Vec::new();
    }
    assert(ws_end(s@, a as int) == a);
    let mut b: usize = n - 1;
    while b > a && (s[b] == 32 || s[b] == 9 || s[b] == 10 || s[b] == 13)
        invariant
            a <= b < n == s@.len(),
            !is_ws(s@[a as int]),
            ws_start_back(s@, s@.len() - 1) == ws_start_back(s@, b as int),
        decreases b,
    {
        b = b - 1;
    }
    assert(ws_start_back(s@, b as int) == b);
    slice_range(s, a, b + 1)
}

/// `s` lower-cased byte for byte (ASCII).
pub fn ascii_lower(s: &[u8]) -> (r: Vec<u8>)
    ensures
        r@ == lower_spec(s@),
{
    let mut out: Vec<u8> = Vec::new();
    let mut i: usize = 0;
    while i < s.len()
        invariant
            0 <= i <= s@.len(),
            out@.len() == i,
            forall|j: int| 0 <= j < i ==> out@[j] == lower_byte(s@[j]),
        decreases s@.len() - i,
    {
        let b = s[i];
        if 65 <= b && b <= 90 {
            out.push(b + 32);
        } else {
            out.push(b);
        }
        i = i + 1;
    }
    assert(out@ =~= lower_spec(s@));
    out
}

/// The normalized tag list of a fence info string.
pub fn fence_tag_list(s: &[u8]) -> (r: Vec<Vec<u8>>)
    ensures
        views(r@) == fence_tags(s@),
{
    let n = s.len();
    let mut out: Vec<Vec<u8>> = Vec::new();
    let mut pos: usize = 0;
    loop
        invariant
            0 <= pos <= n == s@.len(),
            fence_tags(s@) == views(out@) + fence_tags_from(s@, pos as int),
        decreases n - pos,
    {
        let mut i: usize = pos;
        while i < n && s[i] != 44
            invariant
                pos <= i <= n == s@.len(),
                next_byte(s@, 44, pos as int) == next_byte(s@, 44, i as int),
            decreases n - i,
        {
            i = i + 1;
        }
        assert(next_byte(s@, 44, pos as int) == i);
        let hi = if i < n {
            i
        } else {
            n
        };
        let field = slice_range(s, pos, hi);
        let trimmed = trim(field.as_slice());
        let tag = ascii_lower(trimmed.as_slice());
        let ghost prev = out@;
        out.push(tag);
        proof {
            assert(views(out@) =~= views(prev) + seq![
                norm_tag(s@.subrange(pos as int, hi as int)),
            ]);
        }
        if i < n {
            proof {
                assert(fence_tags_from(s@, pos as int) == seq![
                    norm_tag(s@.subrange(pos as int, i as int)),
                ] + fence_tags_from(s@, i + 1));
                assert(fence_tags(s@) =~= views(out@) + fence_tags_from(s@, i + 1));
            }
            pos = i + 1;
        } else {
            proof {
                assert(fence_tags_from(s@, pos as int) == seq![
                    norm_tag(s@.subrange(pos as int, n as int)),
                ]);
                assert(fence_tags(s@) =~= views(out@));
            }
            return out;
        }
    }
}

/// `p` is a suffix of `s`.
pub open spec fn is_suffix_of(p: Seq<u8>, s: Seq<u8>) -> bool {
    p.len() <= s.len() && s.subrange(s.len() - p.len(), s.len() as int) == p
}

/// `s` with every leading repetition of `p` removed.
pub open spec fn strip_prefix_rec(s: Seq<u8>, p: Seq<u8>) -> Seq<u8>
    decreases s.len(),
{
    if p.len() > 0 && is_prefix_of(p, s) {
        strip_prefix_rec(s.skip(p.len() as int), p)
    } else {
        s
    }
}

/// `s` with every trailing repetition of `p` removed.
pub open spec fn strip_suffix_rec(s: Seq<u8>, p: Seq<u8>) -> Seq<u8>
    decreases s.len(),
{
    if p.len() > 0 && is_suffix_of(p, s) {
        strip_suffix_rec(s.take(s.len() - p.len()), p)
    } else {
        s
    }
}

/// `s` with leading ASCII whitespace removed.
pub open spec fn trim_start_spec(s: Seq<u8>) -> Seq<u8> {
    s.skip(ws_end(s, 0))
}

/// `s` with trailing ASCII whitespace removed.
pub open spec fn trim_end_spec(s: Seq<u8>) -> Seq<u8> {
    s.take(ws_start_back(s, s.len() - 1) + 1)
}

/// `s` with every leading repetition of `p` removed.
#[verifier::loop_isolation(false)]
pub fn strip_prefix_all(s: &[u8], p: &[u8]) -> (r: Vec<u8>)
    ensures
        r@ == strip_prefix_rec(s@, p@),
{
    let mut pos: usize = 0;
    proof {
        assert(s@.skip(0) =~= s@);
    }
    loop
        invariant
            0 <= pos <= s@.len(),
            strip_prefix_rec(s@, p@) == strip_prefix_rec(s@.skip(pos as int), p@),
        decreases s@.len() - pos,
    {
        proof {
            assert(s@.subrange(pos as int, s@.len() as int) =~= s@.skip(pos as int));
        }
        if p.len() > 0 && starts_with(&s[pos..s.len()], p) {
            proof {
                assert(s@.skip(pos as int).skip(p@.len() as int) =~= s@.skip(pos + p@.len()));
            }
            pos = pos + p.len();
        } else {
            let r = slice_range(s, pos, s.len());
            proof {
                assert(r@ =~= s@.skip(pos as int));
            }
            return r;
        }
    }
}

/// `s` with every trailing repetition of `p` removed.
#[verifier::loop_isolation(false)]
pub fn strip_suffix_all(s: &[u8], p: &[u8]) -> (r: Vec<u8>)
    ensures
        r@ == strip_suffix_rec(s@, p@),
{
    let mut end: usize = s.len();
    proof {
        assert(s@.take(s@.len() as int) =~= s@);
    }
    loop
        invariant
            0 <= end <= s@.len(),
            strip_suffix_rec(s@, p@) == strip_suffix_rec(s@.take(end as int), p@),
        decreases end,
    {
        if p.len() > 0 && end >= p.len() && bytes_eq(&s[end - p.len()..end], p) {
            proof {
                assert(s@.subrange(end - p@.len(), end as int) =~= s@.take(end as int).subrange(
                    end - p@.len(),
                    end as int,
                ));
                assert(is_suffix_of(p@, s@.take(end as int)));
                assert(s@.take(end as int).take(end - p@.len()) =~= s@.take(end - p@.len()));
            }
            end = end - p.len();
        } else {
            proof {
                if p@.len() > 0 && end >= p@.len() {
                    assert(s@.subrange(end - p@.len(), end as int) =~= s@.take(
                        end as int,
                    ).subrange(end - p@.len(), end as int));
                }
                assert(!(p@.len() > 0 && is_suffix_of(p@, s@.take(end as int))));
            }
            let r = slice_range(s, 0, end);
            proof {
                assert(r@ =~= s@.take(end as int));
            }
            return r;
        }
    }
}

/// `s` with leading ASCII whitespace removed.
#[verifier::loop_isolation(false)]
pub fn trim_start(s: &[u8]) -> (r: Vec<u8>)
    ensures
        r@ == trim_start_spec(s@),
{
    let mut a: usize = 0;
    while a < s.len() && (s[a] == 32 || s[a] == 9 || s[a] == 10 || s[a] == 13)
        invariant
            0 <= a <= s@.len(),
            ws_end(s@, 0) == ws_end(s@, a as int),
        decreases s@.len() - a,
    {
        a = a + 1;
    }
    assert(ws_end(s@, a as int) == a);
    let r = slice_range(s, a, s.len());
    proof {
        assert(r@ =~= s@.skip(a as int));
    }
    r
}

/// `s` with trailing ASCII whitespace removed.
#[verifier::loop_isolation(false)]
pub fn trim_end(s: &[u8]) -> (r: Vec<u8>)
    ensures
        r@ == trim_end_spec(s@),
{
    let mut b: usize = s.len();
    while b > 0 && (s[b - 1] == 32 || s[b - 1] == 9 || s[b - 1] == 10 || s[b - 1] == 13)
        invariant
            0 <= b <= s@.len(),
            ws_start_back(s@, s@.len() - 1) == ws_start_back(s@, b - 1),
        decreases b,
    {
        b = b - 1;
    }
    proof {
        assert(ws_start_back(s@, b - 1) == b - 1);
        assert(trim_end_spec(s@) == s@.take(b as int));
    }
    slice_range(s, 0, b)
}

/// A marker token's payload: the text after the opening marker and before
/// the closing braces, trimmed — repetitions of the opening marker stripped
/// from the front, whitespace trimmed, repetitions of `}}` stripped from the
/// end, whitespace trimmed again.
pub open spec fn payload_spec(v: Seq<u8>, open_marker: Seq<u8>) -> Seq<u8> {
    trim_end_spec(
        strip_suffix_rec(trim_start_spec(strip_prefix_rec(v, open_marker)), "}}".spec_bytes()),
    )
}

/// Extracts a marker token's payload.
pub fn marker_payload(v: &[u8], open_marker: &[u8]) -> (r: Vec<u8>)
    ensures
        r@ == payload_spec(v@, open_marker@),
{
    let a = strip_prefix_all(v, open_marker);
    let b = trim_start(a.as_slice());
    let c = strip_suffix_all(b.as_slice(), "}}".as_bytes());
    trim_end(c.as_slice())
}

/// The least offset `>= i` at which `p` occurs in `s`, or `-1`.
pub open spec fn find_from(s: Seq<u8>, p: Seq<u8>, i: int) -> int
    decreases s.len() + 1 - i,
{
    if i < 0 || i > s.len() - p.len() {
        -1
    } else if occurs_at(s, p, i) {
        i
    } else {
        find_from(s, p, i + 1)
    }
}

/// The least offset at which `p` occurs in `s`, if any.
#[verifier::loop_isolation(false)]
pub fn find_sub(s: &[u8], p: &[u8]) -> (r: Option<usize>)
    ensures
        match r {
            Some(i) => find_from(s@, p@, 0) == i as int && occurs_at(s@, p@, i as int),
            None => find_from(s@, p@, 0) == -1,
        },
{
    if p.len() == 0 {
        proof {
            assert(s@.subrange(0, 0) =~= p@);
            assert(occurs_at(s@, p@, 0));
        }
        return Some(0);
    }
    let mut i: usize = 0;
    loop
        invariant
            0 < p@.len(),
            0 <= i <= s@.len(),
            find_from(s@, p@, 0) == find_from(s@, p@, i as int),
        decreases s@.len() + 1 - i,
    {
        if p.len() > s.len() || i > s.len() - p.len() {
            return None;
        }
        let piece = &s[i..i + p.len()];
        if bytes_eq(piece, p) {
            proof {
                assert(occurs_at(s@, p@, i as int));
            }
            return Some(i);
        }
        proof {
            assert(!occurs_at(s@, p@, i as int));
        }
        i = i + 1;
    }
}

} // verus!
