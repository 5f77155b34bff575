//! In-place span replacement with offset correction.
//!
//! Replacements are computed against one snapshot of the text but applied to
//! a buffer that earlier replacements have already grown or shrunk. A running
//! signed offset keeps the original spans valid against the mutated buffer:
//! each span is shifted by the offset before it is applied, and the offset is
//! then advanced by the length difference the replacement caused.

use vstd::prelude::*;

use crate::bytes::push_bytes;
use crate::errors::PluginError;
use crate::token::Span;

verus! {

/// `text` with `[s, e)` replaced by `rep`.
pub open spec fn splice(text: Seq<u8>, s: int, e: int, rep: Seq<u8>) -> Seq<u8> {
    text.take(s) + rep + text.skip(e)
}

/// The views of a replacement list.
pub open spec fn rep_views(rs: Seq<(Span, Vec<u8>)>) -> Seq<(Span, Seq<u8>)> {
    rs.map_values(|p: (Span, Vec<u8>)| (p.0, p.1@))
}

/// The buffer after applying `reps[i..]` to `text`, shifting each span by the
/// running `offset`, or the first failure: `OffsetUnderflow` when a shifted
/// bound goes negative, `SpanOutOfBounds` when a shifted range does not lie
/// inside the buffer.
pub open spec fn apply_from(
    text: Seq<u8>,
    reps: Seq<(Span, Seq<u8>)>,
    i: int,
    offset: int,
) -> Result<Seq<u8>, PluginError>
    decreases reps.len() - i,
{
    if i < 0 || i >= reps.len() {
        Ok(text)
    } else {
        let sp = reps[i].0;
        let rep = reps[i].1;
        let s = sp.start + offset;
        let e = sp.end + offset;
        if s < 0 || e < 0 {
            Err(PluginError::OffsetUnderflow)
        } else if !(s <= e && e <= text.len()) {
            Err(PluginError::SpanOutOfBounds)
        } else {
            apply_from(splice(text, s, e, rep), reps, i + 1, offset + rep.len() - (sp.end
                - sp.start))
        }
    }
}

/// The buffer after applying all of `reps` to `text` in order.
pub open spec fn apply_spec(text: Seq<u8>, reps: Seq<(Span, Seq<u8>)>) -> Result<
    Seq<u8>,
    PluginError,
> {
    apply_from(text, reps, 0, 0)
}

/// Applies the replacements in order, maintaining the running offset, and
/// returns the rewritten buffer — exactly `apply_spec`.
#[verifier::loop_isolation(false)]
pub fn apply_replacements(text: Vec<u8>, reps: &Vec<(Span, Vec<u8>)>) -> (r: Result<
    Vec<u8>,
    PluginError,
>)
    ensures
        match r {
            Ok(out) => apply_spec(text@, rep_views(reps@)) == Ok::<Seq<u8>, PluginError>(out@),
            Err(e) => apply_spec(text@, rep_views(reps@)) == Err::<Seq<u8>, PluginError>(e),
        },
{
    let orig_len = text.len();
    let mut cur = text;
    let mut i: usize = 0;
    while i < reps.len()
        invariant
            0 <= i <= reps@.len(),
            apply_spec(text@, rep_views(reps@)) == apply_from(
                cur@,
                rep_views(reps@),
                i as int,
                cur@.len() - text@.len(),
            ),
        decreases reps@.len() - i,
    {
        let ghost off = cur@.len() - text@.len();
        let sp = reps[i].0;
        let cur_len = cur.len();
        let s_shifted = sp.start as u128 + cur_len as u128;
        let e_shifted = sp.end as u128 + cur_len as u128;
        let base = orig_len as u128;
        if s_shifted < base || e_shifted < base {
            proof {
                assert(sp.start + off < 0 || sp.end + off < 0);
                assert(apply_from(cur@, rep_views(reps@), i as int, off) == Err::<
                    Seq<u8>,
                    PluginError,
                >(PluginError::OffsetUnderflow));
            }
            return Err(PluginError::OffsetUnderflow);
        }
        let su = s_shifted - base;
        let eu = e_shifted - base;
        if su > eu || eu > cur_len as u128 {
            proof {
                let s = sp.start + off;
                let e = sp.end + off;
                assert(!(s <= e && e <= cur@.len()));
                assert(apply_from(cur@, rep_views(reps@), i as int, off) == Err::<
                    Seq<u8>,
                    PluginError,
                >(PluginError::SpanOutOfBounds));
            }
            return Err(PluginError::SpanOutOfBounds);
        }
        let s = su as usize;
        let e = eu as usize;
        assert(s == sp.start + off && e == sp.end + off);
        let rep = &reps[i].1;
        let mut out: Vec<u8> = Vec::new();
        push_bytes(&mut out, &cur.as_slice()[0..s]);
        push_bytes(&mut out, rep.as_slice());
        push_bytes(&mut out, &cur.as_slice()[e..cur_len]);
        proof {
            assert(out@ =~= splice(cur@, s as int, e as int, rep@));
            assert(apply_from(cur@, rep_views(reps@), i as int, off) == apply_from(
                splice(cur@, s as int, e as int, rep@),
                rep_views(reps@),
                i + 1,
                off + rep@.len() - (sp.end - sp.start),
            ));
            assert(out@.len() - text@.len() == off + rep@.len() - (sp.end - sp.start));
        }
        cur = out;
        i = i + 1;
    }
    proof {
        assert(apply_from(cur@, rep_views(reps@), i as int, cur@.len() - text@.len()) == Ok::<
            Seq<u8>,
            PluginError,
        >(cur@));
    }
    Ok(cur)
}

} // verus!
