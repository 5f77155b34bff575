//! Laws of the matcher and the rewrite loop, stated and proved against the
//! specification functions the executable code is verified to return.

use vstd::prelude::*;

use crate::block::{
    BlockModel, MatchState, close_block, init_state, keep_event, match_from,
    match_tokens_spec, open_last, push_event, seed_block, step_spec, trim_from, trimmed,
};
use crate::errors::PluginError;
use crate::rewrite::{apply_from, apply_spec, splice};
use crate::token::{BlockKind, Span, Token};

verus! {

/// Every block that is not closed has the empty placeholder inner span.
pub open spec fn open_inner_zero(bs: Seq<BlockModel>) -> bool {
    forall|k: int|
        0 <= k < bs.len() ==> (!(#[trigger] bs[k]).closed ==> bs[k].inner_span == (Span {
            start: 0,
            end: 0,
        }))
}

proof fn lemma_step_open_inner(
    kind: BlockKind,
    skip_nested: bool,
    st: MatchState,
    t: Token,
    s: Span,
)
    requires
        open_inner_zero(st.blocks),
    ensures
        match step_spec(kind, skip_nested, st, t, s) {
            Ok(st2) => open_inner_zero(st2.blocks),
            Err(_) => true,
        },
{
    match step_spec(kind, skip_nested, st, t, s) {
        Ok(st2) => {
            assert forall|k: int|
                0 <= k < st2.blocks.len() && !(#[trigger] st2.blocks[k]).closed implies st2.blocks[k].inner_span
                == (Span { start: 0, end: 0 }) by {
                if k < st.blocks.len() - 1 {
                    assert(st2.blocks[k] == st.blocks[k]);
                } else if k < st.blocks.len() {
                    if st2.blocks[k] != st.blocks[k] {
                        let m = st.blocks.last();
                        assert(!m.closed);
                    }
                } else {
                    assert(st2.blocks[k] == seed_block(t, s));
                }
            }
        },
        Err(_) => {},
    }
}

proof fn lemma_match_from_open_inner(
    kind: BlockKind,
    skip_nested: bool,
    st: MatchState,
    toks: Seq<(Token, Span)>,
    i: int,
)
    requires
        open_inner_zero(st.blocks),
    ensures
        match match_from(kind, skip_nested, st, toks, i) {
            Ok(st2) => open_inner_zero(st2.blocks),
            Err(_) => true,
        },
    decreases toks.len() - i,
{
    if i < 0 || i >= toks.len() {
    } else {
        lemma_step_open_inner(kind, skip_nested, st, toks[i].0, toks[i].1);
        match step_spec(kind, skip_nested, st, toks[i].0, toks[i].1) {
            Ok(st2) => {
                lemma_match_from_open_inner(kind, skip_nested, st2, toks, i + 1);
            },
            Err(_) => {},
        }
    }
}

/// A block that never closes is returned with `closed == false` and the
/// empty inner span `0..0`: whatever the token stream, every open block in
/// the matcher's output has no inner span. (The structurer never treats such
/// a block as a directive: its groups are built from closed blocks alone.)
pub proof fn law_unclosed_block_has_empty_inner(
    kind: BlockKind,
    skip_nested: bool,
    toks: Seq<(Token, Span)>,
)
    ensures
        match match_tokens_spec(kind, skip_nested, toks) {
            Ok(bs) => open_inner_zero(bs),
            Err(_) => true,
        },
{
    lemma_match_from_open_inner(kind, skip_nested, init_state(), toks, 0);
}

/// A token is inert for a kind: neither a start nor an end.
pub open spec fn inert(kind: BlockKind, t: Token) -> bool {
    !kind.spec_is_start(t) && !kind.spec_is_end(t)
}

/// All tokens of `toks[i..j)` are inert.
pub open spec fn inert_range(kind: BlockKind, toks: Seq<(Token, Span)>, i: int, j: int) -> bool {
    forall|k: int| i <= k < j ==> inert(kind, (#[trigger] toks[k]).0)
}

/// Tokens that are not start tokens do not change a state whose last block
/// is closed (or that has no blocks at all): end tokens and plain tokens are
/// ignored there.
proof fn lemma_inert_until(
    kind: BlockKind,
    skip_nested: bool,
    st: MatchState,
    toks: Seq<(Token, Span)>,
    i: int,
    j: int,
)
    requires
        0 <= i <= j <= toks.len(),
        forall|k: int| i <= k < j ==> !kind.spec_is_start((#[trigger] toks[k]).0),
        !open_last(st),
    ensures
        match_from(kind, skip_nested, st, toks, i) == match_from(kind, skip_nested, st, toks, j),
    decreases j - i,
{
    if i < j {
        assert(step_spec(kind, skip_nested, st, toks[i].0, toks[i].1) == Ok::<
            MatchState,
            PluginError,
        >(st));
        lemma_inert_until(kind, skip_nested, st, toks, i + 1, j);
    }
}

/// Walking inert tokens from a state whose last block is open keeps the last
/// block open and the nesting depth unchanged, whatever gets appended.
proof fn lemma_open_walk(
    kind: BlockKind,
    skip_nested: bool,
    st: MatchState,
    toks: Seq<(Token, Span)>,
    i: int,
    j: int,
)
    requires
        0 <= i <= j <= toks.len(),
        inert_range(kind, toks, i, j),
        open_last(st),
    ensures
        exists|st2: MatchState|
            match_from(kind, skip_nested, st, toks, i) == match_from(
                kind,
                skip_nested,
                st2,
                toks,
                j,
            ) && #[trigger] open_last(st2) && st2.nested == st.nested,
    decreases j - i,
{
    if i == j {
        assert(open_last(st) && st.nested == st.nested);
    } else {
        assert(inert(kind, toks[i].0));
        let stepped = step_spec(kind, skip_nested, st, toks[i].0, toks[i].1);
        if open_last(st) && toks[i].1.start >= st.blocks.last().span.start {
            let m2 = push_event(st.blocks.last(), toks[i].0, toks[i].1);
            let stm = MatchState {
                blocks: st.blocks.update(st.blocks.len() - 1, m2),
                nested: st.nested,
            };
            assert(stepped == Ok::<MatchState, PluginError>(stm));
            assert(open_last(stm));
            lemma_open_walk(kind, skip_nested, stm, toks, i + 1, j);
        } else {
            assert(stepped == Ok::<MatchState, PluginError>(st));
            lemma_open_walk(kind, skip_nested, st, toks, i + 1, j);
        }
    }
}

/// Without nested skipping, a start token seen while a block is open is a
/// `NestedBlock` error, whatever the kinds of the tokens around it: if the
/// first start token of the stream is at `a`, a second start follows at `b`,
/// and no end token stands between them, the whole match fails with
/// `NestedBlock`.
pub proof fn law_nested_start_fails(
    kind: BlockKind,
    toks: Seq<(Token, Span)>,
    a: int,
    b: int,
)
    requires
        0 <= a < b < toks.len(),
        kind.spec_is_start(toks[a].0),
        kind.spec_is_start(toks[b].0),
        forall|k: int| 0 <= k < a ==> !kind.spec_is_start((#[trigger] toks[k]).0),
        forall|k: int|
            a < k < b ==> !kind.spec_is_start((#[trigger] toks[k]).0) && !kind.spec_is_end(
                toks[k].0,
            ),
    ensures
        match_tokens_spec(kind, false, toks) == Err::<Seq<BlockModel>, PluginError>(
            PluginError::NestedBlock,
        ),
{
    // Before `a`, nothing opens a block: end tokens and inert tokens leave a
    // blockless state unchanged.
    lemma_inert_until(kind, false, init_state(), toks, 0, a);
    // At `a`, a block opens.
    let st1 = MatchState {
        blocks: init_state().blocks.push(seed_block(toks[a].0, toks[a].1)),
        nested: init_state().nested,
    };
    assert(step_spec(kind, false, init_state(), toks[a].0, toks[a].1) == Ok::<
        MatchState,
        PluginError,
    >(st1));
    assert(open_last(st1));
    // Between `a` and `b`, the block stays open.
    lemma_open_walk(kind, false, st1, toks, a + 1, b);
    let st2 = choose|st2: MatchState|
        match_from(kind, false, st1, toks, a + 1) == match_from(kind, false, st2, toks, b)
            && #[trigger] open_last(st2) && st2.nested == st1.nested;
    // At `b`, the start token hits the open block.
    assert(step_spec(kind, false, st2, toks[b].0, toks[b].1) == Err::<MatchState, PluginError>(
        PluginError::NestedBlock,
    ));
}


/// Interior tokens of a well-formed block: inert, and lying strictly inside
/// the delimiters' range.
pub open spec fn interior_range(
    kind: BlockKind,
    toks: Seq<(Token, Span)>,
    a: int,
    z: int,
) -> bool {
    forall|k: int|
        a < k < z ==> inert(kind, (#[trigger] toks[k]).0) && toks[a].1.start < toks[k].1.start
            && toks[k].1.end <= toks[z].1.end
}

/// Walking inert tokens whose spans start at or after the open block's start
/// appends them all to that block.
proof fn lemma_fill(
    kind: BlockKind,
    skip_nested: bool,
    st: MatchState,
    toks: Seq<(Token, Span)>,
    i: int,
    z: int,
)
    requires
        0 <= i <= z <= toks.len(),
        open_last(st),
        inert_range(kind, toks, i, z),
        forall|k: int| i <= k < z ==> (#[trigger] toks[k]).1.start >= st.blocks.last().span.start,
    ensures
        match_from(kind, skip_nested, st, toks, i) == match_from(
            kind,
            skip_nested,
            (MatchState {
                blocks: st.blocks.update(
                    st.blocks.len() - 1,
                    (BlockModel {
                        events: st.blocks.last().events + toks.subrange(i, z),
                        ..st.blocks.last()
                    }),
                ),
                nested: st.nested,
            }),
            toks,
            z,
        ),
    decreases z - i,
{
    let last = st.blocks.len() - 1;
    if i == z {
        let m2 = BlockModel { events: st.blocks.last().events + toks.subrange(i, z), ..st.blocks.last() };
        assert(m2.events =~= st.blocks.last().events);
        assert(m2 =~= st.blocks.last());
        assert(st.blocks.update(last, m2) =~= st.blocks);
    } else {
        assert(inert(kind, toks[i].0));
        let m2 = push_event(st.blocks.last(), toks[i].0, toks[i].1);
        let stm = MatchState { blocks: st.blocks.update(last, m2), nested: st.nested };
        assert(step_spec(kind, skip_nested, st, toks[i].0, toks[i].1) == Ok::<
            MatchState,
            PluginError,
        >(stm));
        assert(open_last(stm));
        assert(stm.blocks.last() == m2);
        assert(m2.span == st.blocks.last().span);
        lemma_fill(kind, skip_nested, stm, toks, i + 1, z);
        let inner2 = BlockModel { events: m2.events + toks.subrange(i + 1, z), ..m2 };
        let outer2 = BlockModel {
            events: st.blocks.last().events + toks.subrange(i, z),
            ..st.blocks.last()
        };
        assert(inner2.events =~= outer2.events) by {
            assert(toks.subrange(i, z) =~= seq![toks[i]] + toks.subrange(i + 1, z));
        }
        assert(inner2 =~= outer2);
        assert(stm.blocks.update(last, inner2) =~= st.blocks.update(last, outer2));
    }
}

/// When every later event lies inside the block span and is no boundary
/// artifact, the trim keeps everything.
proof fn lemma_trim_all(events: Seq<(Token, Span)>, b: Span, i: int)
    requires
        1 <= i <= events.len(),
        forall|k: int| 1 <= k < events.len() ==> keep_event((#[trigger] events[k]).1, b),
    ensures
        trim_from(events, b, i) == events.subrange(i, events.len() as int),
    decreases events.len() - i,
{
    if i == events.len() {
        assert(trim_from(events, b, i) =~= events.subrange(i, events.len() as int));
    } else {
        lemma_trim_all(events, b, i + 1);
        assert(keep_event(events[i].1, b));
        assert(seq![events[i]] + events.subrange(i + 1, events.len() as int) =~= events.subrange(
            i,
            events.len() as int,
        ));
    }
}

/// The single closed block matched from a well-formed `start .. end` region:
/// all tokens from `a` to `z` as its events, the full range as its span, and
/// the region strictly between the delimiters as its inner span.
pub open spec fn single_block_model(toks: Seq<(Token, Span)>, a: int, z: int) -> BlockModel {
    BlockModel {
        closed: true,
        events: toks.subrange(a, z + 1),
        span: Span { start: toks[a].1.start, end: toks[z].1.end },
        inner_span: if z == a + 1 {
            Span { start: 0, end: 0 }
        } else {
            Span { start: toks[a + 1].1.start, end: toks[z - 1].1.end }
        },
        has_nested: false,
    }
}

/// From a state whose last block is the freshly opened one, a well-formed
/// `interior .. end` region closes exactly that block, with all events kept.
proof fn lemma_one_group(
    kind: BlockKind,
    skip_nested: bool,
    st: MatchState,
    toks: Seq<(Token, Span)>,
    a: int,
    z: int,
)
    requires
        0 <= a < z < toks.len(),
        open_last(st),
        st.nested == 0,
        st.blocks.last() == seed_block(toks[a].0, toks[a].1),
        !kind.spec_is_start(toks[z].0),
        kind.spec_is_end(toks[z].0),
        interior_range(kind, toks, a, z),
        toks[z].1.start >= toks[a].1.start,
        z > a + 1 ==> toks[a + 1].1.start <= toks[z - 1].1.end,
    ensures
        match_from(kind, skip_nested, st, toks, a + 1) == match_from(
            kind,
            skip_nested,
            (MatchState {
                blocks: st.blocks.update(st.blocks.len() - 1, single_block_model(toks, a, z)),
                nested: 0,
            }),
            toks,
            z + 1,
        ),
{
    let last = st.blocks.len() - 1;
    let seed = st.blocks.last();
    assert(inert_range(kind, toks, a + 1, z));
    lemma_fill(kind, skip_nested, st, toks, a + 1, z);
    let filled = BlockModel { events: seed.events + toks.subrange(a + 1, z), ..seed };
    let stf = MatchState { blocks: st.blocks.update(last, filled), nested: st.nested };
    assert(stf.blocks.last() == filled);
    assert(open_last(stf));
    // The end token closes the filled block.
    let closed = close_block(filled, toks[z].0, toks[z].1);
    let stz = MatchState { blocks: stf.blocks.update(last, closed), nested: stf.nested };
    assert(step_spec(kind, skip_nested, stf, toks[z].0, toks[z].1) == Ok::<
        MatchState,
        PluginError,
    >(stz));
    // The closed block is exactly the single-block model.
    let span = Span { start: filled.span.start, end: toks[z].1.end };
    let evs = filled.events.push((toks[z].0, toks[z].1));
    assert(evs =~= toks.subrange(a, z + 1)) by {
        assert(seed.events =~= seq![toks[a]]);
        assert(seed.events + toks.subrange(a + 1, z) =~= toks.subrange(a, z));
        assert(toks.subrange(a, z).push(toks[z]) =~= toks.subrange(a, z + 1));
    }
    assert forall|k: int| 1 <= k < evs.len() implies keep_event((#[trigger] evs[k]).1, span) by {
        assert(evs[k] == toks[a + k]);
        if a + k == z {
            assert(toks[z].1.end == span.end);
        } else {
            assert(toks[a].1.start < toks[a + k].1.start);
        }
    }
    lemma_trim_all(evs, span, 1);
    assert(trimmed(evs, span) =~= evs) by {
        assert(seq![evs[0]] + evs.subrange(1, evs.len() as int) =~= evs);
    }
    assert(closed =~= single_block_model(toks, a, z)) by {
        assert(closed.events == trimmed(evs, span));
        assert(closed.events =~= toks.subrange(a, z + 1));
        assert(evs.len() == z + 1 - a);
        if z == a + 1 {
            assert(closed.inner_span == (Span { start: 0, end: 0 }));
        } else {
            assert(evs[1] == toks[a + 1]);
            assert(evs[evs.len() - 2] == toks[z - 1]);
        }
    }
    assert(stz.blocks =~= st.blocks.update(last, single_block_model(toks, a, z))) by {
        assert(closed =~= single_block_model(toks, a, z));
    }
    assert(stz =~= MatchState {
        blocks: st.blocks.update(last, single_block_model(toks, a, z)),
        nested: 0,
    });
}

/// For a well-formed single block — one start token at `a`, one end token at
/// `z` after it, everything else inert, the interior lying strictly inside
/// the delimiters — the matcher returns exactly one closed block: its span
/// covers the full `start .. end` range, its inner span exactly the region
/// strictly between the delimiters, and it saw no nesting.
pub proof fn law_single_block(
    kind: BlockKind,
    skip_nested: bool,
    toks: Seq<(Token, Span)>,
    a: int,
    z: int,
)
    requires
        0 <= a < z < toks.len(),
        kind.spec_is_start(toks[a].0),
        kind.spec_is_end(toks[z].0),
        forall|k: int|
            0 <= k < toks.len() && k != a ==> !kind.spec_is_start((#[trigger] toks[k]).0),
        forall|k: int|
            0 <= k < toks.len() && k != z ==> !kind.spec_is_end((#[trigger] toks[k]).0),
        interior_range(kind, toks, a, z),
        toks[z].1.start >= toks[a].1.start,
        z > a + 1 ==> toks[a + 1].1.start <= toks[z - 1].1.end,
    ensures
        match_tokens_spec(kind, skip_nested, toks) == Ok::<Seq<BlockModel>, PluginError>(seq![
            single_block_model(toks, a, z),
        ]),
{
    assert(inert_range(kind, toks, 0, a));
    lemma_inert_until(kind, skip_nested, init_state(), toks, 0, a);
    let st1 = MatchState {
        blocks: init_state().blocks.push(seed_block(toks[a].0, toks[a].1)),
        nested: 0,
    };
    assert(step_spec(kind, skip_nested, init_state(), toks[a].0, toks[a].1) == Ok::<
        MatchState,
        PluginError,
    >(st1));
    assert(st1.blocks.last() == seed_block(toks[a].0, toks[a].1));
    lemma_one_group(kind, skip_nested, st1, toks, a, z);
    let stz = MatchState {
        blocks: st1.blocks.update(st1.blocks.len() - 1, single_block_model(toks, a, z)),
        nested: 0,
    };
    assert(!open_last(stz));
    assert(inert_range(kind, toks, z + 1, toks.len() as int));
    lemma_inert_until(kind, skip_nested, stz, toks, z + 1, toks.len() as int);
    assert(stz.blocks =~= seq![single_block_model(toks, a, z)]);
}

/// Sibling blocks in one stream are matched independently and in source
/// order: two well-formed `start .. end` groups, the second following the
/// first, yield exactly two closed blocks, in order, and when the second
/// group's start token begins at or after the end of the first group's end
/// token, their spans do not overlap.
pub proof fn law_sibling_blocks(
    kind: BlockKind,
    skip_nested: bool,
    toks: Seq<(Token, Span)>,
    a1: int,
    z1: int,
    a2: int,
    z2: int,
)
    requires
        0 <= a1 < z1 < a2 < z2 < toks.len(),
        kind.spec_is_start(toks[a1].0),
        kind.spec_is_start(toks[a2].0),
        kind.spec_is_end(toks[z1].0),
        kind.spec_is_end(toks[z2].0),
        forall|k: int|
            0 <= k < toks.len() && k != a1 && k != a2 ==> !kind.spec_is_start(
                (#[trigger] toks[k]).0,
            ),
        forall|k: int|
            0 <= k < toks.len() && k != z1 && k != z2 ==> !kind.spec_is_end(
                (#[trigger] toks[k]).0,
            ),
        interior_range(kind, toks, a1, z1),
        interior_range(kind, toks, a2, z2),
        toks[z1].1.start >= toks[a1].1.start,
        toks[z2].1.start >= toks[a2].1.start,
        z1 > a1 + 1 ==> toks[a1 + 1].1.start <= toks[z1 - 1].1.end,
        z2 > a2 + 1 ==> toks[a2 + 1].1.start <= toks[z2 - 1].1.end,
        toks[z1].1.end <= toks[a2].1.start,
    ensures
        match_tokens_spec(kind, skip_nested, toks) == Ok::<Seq<BlockModel>, PluginError>(seq![
            single_block_model(toks, a1, z1),
            single_block_model(toks, a2, z2),
        ]),
        single_block_model(toks, a1, z1).span.end <= single_block_model(toks, a2, z2).span.start,
{
    let m1 = single_block_model(toks, a1, z1);
    let m2 = single_block_model(toks, a2, z2);
    assert(inert_range(kind, toks, 0, a1));
    lemma_inert_until(kind, skip_nested, init_state(), toks, 0, a1);
    let st1 = MatchState {
        blocks: init_state().blocks.push(seed_block(toks[a1].0, toks[a1].1)),
        nested: 0,
    };
    assert(step_spec(kind, skip_nested, init_state(), toks[a1].0, toks[a1].1) == Ok::<
        MatchState,
        PluginError,
    >(st1));
    assert(st1.blocks.last() == seed_block(toks[a1].0, toks[a1].1));
    lemma_one_group(kind, skip_nested, st1, toks, a1, z1);
    let stz1 = MatchState {
        blocks: st1.blocks.update(st1.blocks.len() - 1, m1),
        nested: 0,
    };
    assert(!open_last(stz1));
    assert(inert_range(kind, toks, z1 + 1, a2));
    lemma_inert_until(kind, skip_nested, stz1, toks, z1 + 1, a2);
    let st2 = MatchState { blocks: stz1.blocks.push(seed_block(toks[a2].0, toks[a2].1)), nested: 0 };
    assert(step_spec(kind, skip_nested, stz1, toks[a2].0, toks[a2].1) == Ok::<
        MatchState,
        PluginError,
    >(st2));
    assert(st2.blocks.last() == seed_block(toks[a2].0, toks[a2].1));
    lemma_one_group(kind, skip_nested, st2, toks, a2, z2);
    let stz2 = MatchState {
        blocks: st2.blocks.update(st2.blocks.len() - 1, m2),
        nested: 0,
    };
    assert(!open_last(stz2));
    assert(inert_range(kind, toks, z2 + 1, toks.len() as int));
    lemma_inert_until(kind, skip_nested, stz2, toks, z2 + 1, toks.len() as int);
    assert(stz2.blocks =~= seq![m1, m2]);
}

/// The total length change of the replacements `reps[i..k)`.
pub open spec fn delta_seg(reps: Seq<(Span, Seq<u8>)>, i: int, k: int) -> int
    decreases k - i,
{
    if i >= k {
        0
    } else {
        (reps[i].1.len() - (reps[i].0.end - reps[i].0.start)) + delta_seg(reps, i + 1, k)
    }
}

/// The spans of `reps[i..]` are ordered and disjoint, the next one starts at
/// a non-negative shifted position, and all of them end inside the buffer.
pub open spec fn reps_well_formed(
    text_len: int,
    reps: Seq<(Span, Seq<u8>)>,
    i: int,
    offset: int,
) -> bool {
    &&& forall|k: int| i <= k < reps.len() ==> (#[trigger] reps[k]).0.start <= reps[k].0.end
    &&& forall|k: int|
        i <= k < reps.len() - 1 ==> (#[trigger] reps[k]).0.end <= reps[k + 1].0.start
    &&& (i < reps.len() ==> reps[i].0.start + offset >= 0)
    &&& forall|k: int| i <= k < reps.len() ==> (#[trigger] reps[k]).0.end + offset <= text_len
}

proof fn lemma_ends_sorted(reps: Seq<(Span, Seq<u8>)>, i: int, k: int)
    requires
        0 <= i <= k < reps.len(),
        forall|j: int| i <= j < reps.len() ==> (#[trigger] reps[j]).0.start <= reps[j].0.end,
        forall|j: int|
            i <= j < reps.len() - 1 ==> (#[trigger] reps[j]).0.end <= reps[j + 1].0.start,
    ensures
        reps[i].0.end <= reps[k].0.end,
    decreases k - i,
{
    if i < k {
        lemma_ends_sorted(reps, i + 1, k);
    }
}

proof fn lemma_delta_seg_split(reps: Seq<(Span, Seq<u8>)>, i: int, k: int)
    requires
        i < k,
    ensures
        delta_seg(reps, i, k) == (reps[i].1.len() - (reps[i].0.end - reps[i].0.start))
            + delta_seg(reps, i + 1, k),
{
}

/// Applying well-formed replacements succeeds and moves every byte to its
/// place: bytes before the first span stay put, each replacement lands at
/// its shifted position, the bytes of each gap between spans keep their
/// value at the accumulated shift, and the suffix after the last span moves
/// by the total length change.
proof fn lemma_apply_from_places(
    text: Seq<u8>,
    reps: Seq<(Span, Seq<u8>)>,
    i: int,
    offset: int,
)
    requires
        0 <= i <= reps.len(),
        reps_well_formed(text.len() as int, reps, i, offset),
    ensures
        apply_from(text, reps, i, offset) is Ok,
        ({
            let out = apply_from(text, reps, i, offset).unwrap();
            let fs = if i < reps.len() {
                reps[i].0.start + offset
            } else {
                text.len() as int
            };
            let le = if i < reps.len() {
                reps[reps.len() - 1].0.end + offset
            } else {
                0
            };
            &&& out.len() == text.len() + delta_seg(reps, i, reps.len() as int)
            &&& forall|p: int| 0 <= p < fs ==> #[trigger] out[p] == text[p]
            &&& forall|k: int, q: int|
                i <= k < reps.len() && 0 <= q < reps[k].1.len() ==> out[reps[k].0.start + offset
                    + delta_seg(reps, i, k) + q] == #[trigger] reps[k].1[q]
            &&& forall|k: int, p: int|
                #![trigger reps[k], text[p]]
                i <= k < reps.len() - 1 && reps[k].0.end + offset <= p < reps[k + 1].0.start
                    + offset ==> out[p + delta_seg(reps, i, k + 1)] == text[p]
            &&& forall|p: int|
                le <= p < text.len() ==> out[p + delta_seg(reps, i, reps.len() as int)]
                    == #[trigger] text[p]
        }),
    decreases reps.len() - i,
{
    let len = reps.len() as int;
    if i == len {
        let out = apply_from(text, reps, i, offset).unwrap();
        assert(out == text);
    } else {
        let s = reps[i].0.start + offset;
        let e = reps[i].0.end + offset;
        let rep = reps[i].1;
        let d0 = rep.len() - (reps[i].0.end - reps[i].0.start);
        assert(0 <= s && s <= e && e <= text.len());
        let out0 = splice(text, s, e, rep);
        assert(out0.len() == text.len() + d0);
        // How splice moves bytes.
        assert(forall|p: int| 0 <= p < s ==> #[trigger] out0[p] == text[p]);
        assert(forall|q: int| 0 <= q < rep.len() ==> #[trigger] out0[s + q] == rep[q]);
        assert forall|p: int| e <= p < text.len() implies #[trigger] out0[p + d0] == text[p] by {
            assert(out0[p + d0] == text.skip(e)[p + d0 - (s + rep.len())]);
        }
        let o2 = offset + d0;
        assert(reps_well_formed(out0.len() as int, reps, i + 1, o2)) by {
            if i + 1 < len {
                assert(reps[i].0.end <= reps[i + 1].0.start);
            }
        }
        lemma_apply_from_places(out0, reps, i + 1, o2);
        let out = apply_from(out0, reps, i + 1, o2).unwrap();
        assert(apply_from(text, reps, i, offset) == Ok::<Seq<u8>, PluginError>(out));
        let fs2 = if i + 1 < len {
            reps[i + 1].0.start + o2
        } else {
            out0.len() as int
        };
        // The whole region written so far lies below the next span's start.
        assert(s + rep.len() <= fs2) by {
            if i + 1 < len {
                assert(reps[i].0.end <= reps[i + 1].0.start);
            }
        }
        // Conclusion: length.
        assert(out.len() == text.len() + delta_seg(reps, i, len));
        // Conclusion: prefix.
        assert forall|p: int| 0 <= p < s implies #[trigger] out[p] == text[p] by {
            assert(out[p] == out0[p]);
        }
        // Conclusion: placements.
        assert forall|k: int, q: int|
            i <= k < len && 0 <= q < reps[k].1.len() implies out[reps[k].0.start + offset
            + delta_seg(reps, i, k) + q] == #[trigger] reps[k].1[q] by {
            if k == i {
                assert(out[s + q] == out0[s + q]);
            } else {
                lemma_delta_seg_split(reps, i, k);
                assert(out[reps[k].0.start + o2 + delta_seg(reps, i + 1, k) + q] == reps[k].1[q]);
            }
        }
        // Conclusion: gaps.
        assert forall|k: int, p: int|
            #![trigger reps[k], text[p]]
            i <= k < len - 1 && reps[k].0.end + offset <= p < reps[k + 1].0.start
            + offset implies out[p + delta_seg(reps, i, k + 1)] == text[p] by {
            if k == i {
                // The gap after the first replacement: these bytes come from
                // the skip part of the splice and are below the next start.
                lemma_delta_seg_split(reps, i, k + 1);
                assert(delta_seg(reps, i + 1, i + 1) == 0);
                assert(out0[p + d0] == text[p]);
                assert(p + d0 < fs2);
                assert(out[p + d0] == out0[p + d0]);
            } else {
                lemma_delta_seg_split(reps, i, k + 1);
                let p2 = p + d0;
                assert(reps[i].0.end <= reps[k].0.end) by {
                    lemma_ends_sorted(reps, i, k);
                }
                assert(out0[p2] == text[p]);
                assert(out[p2 + delta_seg(reps, i + 1, k + 1)] == out0[p2]);
            }
        }
        // Conclusion: suffix.
        assert forall|p: int|
            reps[len - 1].0.end + offset <= p < text.len() implies out[p + delta_seg(
            reps,
            i,
            len,
        )] == #[trigger] text[p] by {
            lemma_delta_seg_split(reps, i, len);
            let p2 = p + d0;
            assert(reps[i].0.end <= reps[len - 1].0.end) by {
                lemma_ends_sorted(reps, i, len - 1);
            }
            assert(out0[p2] == text[p]);
            if i + 1 < len {
                assert(out[p2 + delta_seg(reps, i + 1, len)] == out0[p2]);
            } else {
                assert(out[p2] == out0[p2]);
            }
        }
    }
}

/// The iterative rewrite preserves all text outside the matched spans byte
/// for byte: with ordered, disjoint spans inside the buffer, the rewrite
/// succeeds, each replacement lands at its offset-corrected position, and
/// every byte outside the spans keeps its value, shifted by the accumulated
/// length change of the replacements before it.
pub proof fn law_rewrite_preserves_outside(text: Seq<u8>, reps: Seq<(Span, Seq<u8>)>)
    requires
        forall|k: int|
            0 <= k < reps.len() ==> (#[trigger] reps[k]).0.start <= reps[k].0.end && reps[k].0.end
                <= text.len(),
        forall|k: int|
            0 <= k < reps.len() - 1 ==> (#[trigger] reps[k]).0.end <= reps[k + 1].0.start,
    ensures
        apply_spec(text, reps) is Ok,
        ({
            let out = apply_spec(text, reps).unwrap();
            let fs = if reps.len() > 0 {
                reps[0].0.start as int
            } else {
                text.len() as int
            };
            let le = if reps.len() > 0 {
                reps[reps.len() - 1].0.end as int
            } else {
                0
            };
            &&& out.len() == text.len() + delta_seg(reps, 0, reps.len() as int)
            &&& forall|p: int| 0 <= p < fs ==> #[trigger] out[p] == text[p]
            &&& forall|k: int, q: int|
                0 <= k < reps.len() && 0 <= q < reps[k].1.len() ==> out[reps[k].0.start
                    + delta_seg(reps, 0, k) + q] == #[trigger] reps[k].1[q]
            &&& forall|k: int, p: int|
                #![trigger reps[k], text[p]]
                0 <= k < reps.len() - 1 && reps[k].0.end <= p < reps[k + 1].0.start ==> out[p
                    + delta_seg(reps, 0, k + 1)] == text[p]
            &&& forall|p: int|
                le <= p < text.len() ==> out[p + delta_seg(reps, 0, reps.len() as int)]
                    == #[trigger] text[p]
        }),
{
    lemma_apply_from_places(text, reps, 0, 0);
}

/// How many start tokens stand in `toks[i..j)`.
pub open spec fn starts_in(kind: BlockKind, toks: Seq<(Token, Span)>, i: int, j: int) -> int
    decreases j - i,
{
    if i >= j {
        0
    } else {
        starts_in(kind, toks, i, j - 1) + if kind.spec_is_start(toks[j - 1].0) {
            1int
        } else {
            0int
        }
    }
}

/// How many end tokens (that are not also start tokens) stand in
/// `toks[i..j)`.
pub open spec fn ends_in(kind: BlockKind, toks: Seq<(Token, Span)>, i: int, j: int) -> int
    decreases j - i,
{
    if i >= j {
        0
    } else {
        ends_in(kind, toks, i, j - 1) + if !kind.spec_is_start(toks[j - 1].0)
            && kind.spec_is_end(toks[j - 1].0) {
            1int
        } else {
            0int
        }
    }
}

proof fn lemma_counts_nonneg(kind: BlockKind, toks: Seq<(Token, Span)>, i: int, j: int)
    ensures
        starts_in(kind, toks, i, j) >= 0,
        ends_in(kind, toks, i, j) >= 0,
    decreases j - i,
{
    if i < j {
        lemma_counts_nonneg(kind, toks, i, j - 1);
    }
}

/// The block opened at `a` after absorbing all tokens of `toks[a+1..i)` in
/// nested-skip mode.
pub open spec fn mid_block(kind: BlockKind, toks: Seq<(Token, Span)>, a: int, i: int) -> BlockModel {
    BlockModel {
        closed: false,
        events: seq![toks[a]] + toks.subrange(a + 1, i),
        span: toks[a].1,
        inner_span: Span { start: 0, end: 0 },
        has_nested: starts_in(kind, toks, a + 1, i) > 0,
    }
}

/// The interior of a nested-skip region: every token lies strictly inside
/// the delimiters' range, and every end token among them closes a skipped
/// nested block — more starts than ends stand before it.
pub open spec fn skip_interior(kind: BlockKind, toks: Seq<(Token, Span)>, a: int, z: int) -> bool {
    forall|k: int|
        a < k < z ==> toks[a].1.start < (#[trigger] toks[k]).1.start && toks[k].1.end
            <= toks[z].1.end && (!kind.spec_is_start(toks[k].0) && kind.spec_is_end(toks[k].0)
            ==> starts_in(kind, toks, a + 1, k) > ends_in(kind, toks, a + 1, k))
}

/// Walking the interior of a nested-skip region absorbs every token into
/// the open block and tracks the nesting depth as starts minus ends.
proof fn lemma_skip_fill(
    kind: BlockKind,
    toks: Seq<(Token, Span)>,
    a: int,
    z: int,
    st: MatchState,
    i: int,
)
    requires
        0 <= a < i <= z < toks.len(),
        skip_interior(kind, toks, a, z),
        st.blocks.len() > 0,
        st.blocks.last() == mid_block(kind, toks, a, i),
        st.nested == starts_in(kind, toks, a + 1, i) - ends_in(kind, toks, a + 1, i),
    ensures
        match_from(kind, true, st, toks, i) == match_from(
            kind,
            true,
            (MatchState {
                blocks: st.blocks.update(st.blocks.len() - 1, mid_block(kind, toks, a, z)),
                nested: (starts_in(kind, toks, a + 1, z) - ends_in(kind, toks, a + 1, z)) as nat,
            }),
            toks,
            z,
        ),
    decreases z - i,
{
    let last = st.blocks.len() - 1;
    assert(open_last(st));
    if i == z {
        assert(st.blocks.update(last, mid_block(kind, toks, a, z)) =~= st.blocks) by {
            assert(st.blocks[last] == mid_block(kind, toks, a, z));
        }
        assert(MatchState {
            blocks: st.blocks.update(last, mid_block(kind, toks, a, z)),
            nested: (starts_in(kind, toks, a + 1, z) - ends_in(kind, toks, a + 1, z)) as nat,
        } =~= st);
    } else {
        let t = toks[i].0;
        let sp = toks[i].1;
        assert(toks[a].1.start < sp.start);
        let m = st.blocks.last();
        let pushed = push_event(m, t, sp);
        assert(pushed.events =~= mid_block(kind, toks, a, i + 1).events) by {
            assert((seq![toks[a]] + toks.subrange(a + 1, i)).push(toks[i]) =~= seq![toks[a]]
                + toks.subrange(a + 1, i + 1));
        }
        assert(starts_in(kind, toks, a + 1, i + 1) == starts_in(kind, toks, a + 1, i) + if kind.spec_is_start(
            t,
        ) {
            1int
        } else {
            0int
        });
        assert(ends_in(kind, toks, a + 1, i + 1) == ends_in(kind, toks, a + 1, i) + if !kind.spec_is_start(
            t,
        ) && kind.spec_is_end(t) {
            1int
        } else {
            0int
        });
        lemma_counts_nonneg(kind, toks, a + 1, i);
        if kind.spec_is_start(t) {
            let m2 = BlockModel { has_nested: true, ..pushed };
            let stm = MatchState {
                blocks: st.blocks.update(last, m2),
                nested: (st.nested + 1) as nat,
            };
            assert(step_spec(kind, true, st, t, sp) == Ok::<MatchState, PluginError>(stm));
            assert(starts_in(kind, toks, a + 1, i + 1) > 0);
            assert(m2 =~= mid_block(kind, toks, a, i + 1));
            assert(stm.blocks.last() == m2);
            lemma_skip_fill(kind, toks, a, z, stm, i + 1);
            assert(stm.blocks.update(last, mid_block(kind, toks, a, z)) =~= st.blocks.update(
                last,
                mid_block(kind, toks, a, z),
            ));
        } else if kind.spec_is_end(t) {
            assert(starts_in(kind, toks, a + 1, i) > ends_in(kind, toks, a + 1, i));
            assert(st.nested > 0);
            let stm = MatchState {
                blocks: st.blocks.update(last, pushed),
                nested: (st.nested - 1) as nat,
            };
            assert(step_spec(kind, true, st, t, sp) == Ok::<MatchState, PluginError>(stm));
            assert(pushed =~= mid_block(kind, toks, a, i + 1));
            assert(stm.blocks.last() == pushed);
            lemma_skip_fill(kind, toks, a, z, stm, i + 1);
            assert(stm.blocks.update(last, mid_block(kind, toks, a, z)) =~= st.blocks.update(
                last,
                mid_block(kind, toks, a, z),
            ));
        } else {
            assert(sp.start >= m.span.start);
            let stm = MatchState { blocks: st.blocks.update(last, pushed), nested: st.nested };
            assert(step_spec(kind, true, st, t, sp) == Ok::<MatchState, PluginError>(stm));
            assert(pushed =~= mid_block(kind, toks, a, i + 1));
            assert(stm.blocks.last() == pushed);
            lemma_skip_fill(kind, toks, a, z, stm, i + 1);
            assert(stm.blocks.update(last, mid_block(kind, toks, a, z)) =~= st.blocks.update(
                last,
                mid_block(kind, toks, a, z),
            ));
        }
    }
}

/// The single closed block a balanced nested-skip region resolves to.
pub open spec fn skip_block_model(
    kind: BlockKind,
    toks: Seq<(Token, Span)>,
    a: int,
    z: int,
) -> BlockModel {
    BlockModel {
        closed: true,
        events: toks.subrange(a, z + 1),
        span: Span { start: toks[a].1.start, end: toks[z].1.end },
        inner_span: if z == a + 1 {
            Span { start: 0, end: 0 }
        } else {
            Span { start: toks[a + 1].1.start, end: toks[z - 1].1.end }
        },
        has_nested: starts_in(kind, toks, a + 1, z) > 0,
    }
}

/// With nested skipping on, a balanced region of same-kind nesting resolves
/// to exactly one block at the outer level: the start at `a`, arbitrarily
/// many balanced nested starts and ends between `a` and `z`, and the end at
/// `z` yield one closed block whose span covers the whole region, whose
/// inner span covers everything strictly between the delimiters, and whose
/// `has_nested` flag holds exactly when a nested start was seen.
#[verifier::rlimit(80)]
pub proof fn law_skip_nested_resolves_to_one_block(
    kind: BlockKind,
    toks: Seq<(Token, Span)>,
    a: int,
    z: int,
)
    requires
        0 <= a < z < toks.len(),
        kind.spec_is_start(toks[a].0),
        !kind.spec_is_start(toks[z].0),
        kind.spec_is_end(toks[z].0),
        forall|k: int| 0 <= k < a ==> !kind.spec_is_start((#[trigger] toks[k]).0),
        forall|k: int| z < k < toks.len() ==> !kind.spec_is_start((#[trigger] toks[k]).0),
        skip_interior(kind, toks, a, z),
        starts_in(kind, toks, a + 1, z) == ends_in(kind, toks, a + 1, z),
        toks[z].1.start >= toks[a].1.start,
        z > a + 1 ==> toks[a + 1].1.start <= toks[z - 1].1.end,
    ensures
        match_tokens_spec(kind, true, toks) == Ok::<Seq<BlockModel>, PluginError>(seq![
            skip_block_model(kind, toks, a, z),
        ]),
{
    lemma_inert_until(kind, true, init_state(), toks, 0, a);
    let st1 = MatchState {
        blocks: init_state().blocks.push(seed_block(toks[a].0, toks[a].1)),
        nested: 0,
    };
    assert(step_spec(kind, true, init_state(), toks[a].0, toks[a].1) == Ok::<
        MatchState,
        PluginError,
    >(st1));
    assert(st1.blocks.last() =~= mid_block(kind, toks, a, a + 1)) by {
        assert(seq![toks[a]] + toks.subrange(a + 1, a + 1) =~= seq![toks[a]]);
    }
    assert(starts_in(kind, toks, a + 1, a + 1) == 0 && ends_in(kind, toks, a + 1, a + 1) == 0);
    lemma_skip_fill(kind, toks, a, z, st1, a + 1);
    let filled = mid_block(kind, toks, a, z);
    let stf = MatchState {
        blocks: st1.blocks.update(st1.blocks.len() - 1, filled),
        nested: 0,
    };
    assert(stf.blocks.last() == filled);
    assert(open_last(stf));
    // The end token at `z` closes the block: the depth is back to zero.
    let closed = close_block(filled, toks[z].0, toks[z].1);
    let stz = MatchState { blocks: stf.blocks.update(stf.blocks.len() - 1, closed), nested: 0 };
    assert(step_spec(kind, true, stf, toks[z].0, toks[z].1) == Ok::<MatchState, PluginError>(
        stz,
    ));
    let span = Span { start: filled.span.start, end: toks[z].1.end };
    let evs = filled.events.push((toks[z].0, toks[z].1));
    assert(evs =~= toks.subrange(a, z + 1)) by {
        assert((seq![toks[a]] + toks.subrange(a + 1, z)).push(toks[z]) =~= toks.subrange(
            a,
            z + 1,
        ));
    }
    assert forall|k: int| 1 <= k < evs.len() implies keep_event((#[trigger] evs[k]).1, span) by {
        assert(evs[k] == toks[a + k]);
        if a + k == z {
            assert(toks[z].1.end == span.end);
        } else {
            assert(toks[a].1.start < toks[a + k].1.start);
        }
    }
    lemma_trim_all(evs, span, 1);
    assert(trimmed(evs, span) =~= evs) by {
        assert(seq![evs[0]] + evs.subrange(1, evs.len() as int) =~= evs);
    }
    assert(closed =~= skip_block_model(kind, toks, a, z)) by {
        assert(closed.events == trimmed(evs, span));
        assert(closed.events =~= toks.subrange(a, z + 1));
        assert(evs.len() == z + 1 - a);
        if z > a + 1 {
            assert(evs[1] == toks[a + 1]);
            assert(evs[evs.len() - 2] == toks[z - 1]);
        }
    }
    assert(!open_last(stz));
    lemma_inert_until(kind, true, stz, toks, z + 1, toks.len() as int);
    assert(stz.blocks =~= seq![skip_block_model(kind, toks, a, z)]);
}

/// The spans of a closed block are properly nested: the inner span is either
/// the empty placeholder or lies inside the block span, ordered.
pub open spec fn closed_inner_within(bs: Seq<BlockModel>) -> bool {
    forall|k: int|
        0 <= k < bs.len() ==> ((#[trigger] bs[k]).closed ==> (bs[k].inner_span == (Span {
            start: 0,
            end: 0,
        }) || (bs[k].span.start <= bs[k].inner_span.start && bs[k].inner_span.start
            <= bs[k].inner_span.end && bs[k].inner_span.end <= bs[k].span.end)))
}

proof fn lemma_trim_from_keeps(events: Seq<(Token, Span)>, b: Span, i: int)
    ensures
        forall|k: int|
            0 <= k < trim_from(events, b, i).len() ==> keep_event(
                (#[trigger] trim_from(events, b, i)[k]).1,
                b,
            ),
    decreases events.len() - i,
{
    if i < 0 || i >= events.len() {
    } else {
        lemma_trim_from_keeps(events, b, i + 1);
        let rest = trim_from(events, b, i + 1);
        if keep_event(events[i].1, b) {
            let whole = seq![events[i]] + rest;
            assert forall|k: int| 0 <= k < whole.len() implies keep_event(
                (#[trigger] whole[k]).1,
                b,
            ) by {
                if k > 0 {
                    assert(whole[k] == rest[k - 1]);
                }
            }
        }
    }
}

proof fn lemma_step_closed_inner(
    kind: BlockKind,
    skip_nested: bool,
    st: MatchState,
    t: Token,
    s: Span,
)
    requires
        closed_inner_within(st.blocks),
    ensures
        match step_spec(kind, skip_nested, st, t, s) {
            Ok(st2) => closed_inner_within(st2.blocks),
            Err(_) => true,
        },
{
    match step_spec(kind, skip_nested, st, t, s) {
        Ok(st2) => {
            assert forall|k: int|
                0 <= k < st2.blocks.len() && (#[trigger] st2.blocks[k]).closed implies (
            st2.blocks[k].inner_span == (Span { start: 0, end: 0 }) || (st2.blocks[k].span.start
                <= st2.blocks[k].inner_span.start && st2.blocks[k].inner_span.start
                <= st2.blocks[k].inner_span.end && st2.blocks[k].inner_span.end
                <= st2.blocks[k].span.end)) by {
                if k < st.blocks.len() - 1 {
                    assert(st2.blocks[k] == st.blocks[k]);
                } else if k < st.blocks.len() {
                    if st2.blocks[k] != st.blocks[k] {
                        let m = st.blocks.last();
                        if st2.blocks[k].closed {
                            // Only closing produces a new closed block.
                            let closed = close_block(m, t, s);
                            if st2.blocks[k] == closed {
                                let span = Span { start: m.span.start, end: s.end };
                                let evs = m.events.push((t, s));
                                let kept = trimmed(evs, span);
                                lemma_trim_from_keeps(evs, span, 1);
                                if kept.len() >= 3 && kept[1].1.start <= kept[kept.len()
                                    - 2].1.end {
                                    assert(kept[1] == trim_from(evs, span, 1)[0]);
                                    assert(kept[kept.len() - 2] == trim_from(evs, span, 1)[kept.len() - 3]);
                                    assert(keep_event(kept[1].1, span));
                                    assert(keep_event(kept[kept.len() - 2].1, span));
                                }
                            }
                        }
                    }
                } else {
                    assert(st2.blocks[k] == seed_block(t, s));
                }
            }
        },
        Err(_) => {},
    }
}

proof fn lemma_match_from_closed_inner(
    kind: BlockKind,
    skip_nested: bool,
    st: MatchState,
    toks: Seq<(Token, Span)>,
    i: int,
)
    requires
        closed_inner_within(st.blocks),
    ensures
        match match_from(kind, skip_nested, st, toks, i) {
            Ok(st2) => closed_inner_within(st2.blocks),
            Err(_) => true,
        },
    decreases toks.len() - i,
{
    if i < 0 || i >= toks.len() {
    } else {
        lemma_step_closed_inner(kind, skip_nested, st, toks[i].0, toks[i].1);
        match step_spec(kind, skip_nested, st, toks[i].0, toks[i].1) {
            Ok(st2) => {
                lemma_match_from_closed_inner(kind, skip_nested, st2, toks, i + 1);
            },
            Err(_) => {},
        }
    }
}

/// For every closed block the matcher returns, on any token stream, the
/// span chain holds: the inner span is the empty placeholder or lies inside
/// the block span, with its bounds ordered.
pub proof fn law_closed_block_spans_nest(
    kind: BlockKind,
    skip_nested: bool,
    toks: Seq<(Token, Span)>,
)
    ensures
        match match_tokens_spec(kind, skip_nested, toks) {
            Ok(bs) => closed_inner_within(bs),
            Err(_) => true,
        },
{
    lemma_match_from_closed_inner(kind, skip_nested, init_state(), toks, 0);
}

} // verus!
