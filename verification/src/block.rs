//! The balanced-block matcher.
//!
//! A single left-to-right pass over a token stream recognizes blocks
//! delimited by a kind's start and end tokens. At most one block is open at a
//! time; a nested start token is either skipped over (counting depth) or a
//! hard error, depending on the mode. On closing, the events gathered into a
//! block are trimmed to those lying inside its final span, dropping boundary
//! artifacts the tokenizer emits at the block's own start offset, and the
//! inner span (the delimiters excluded) is computed from the survivors.
//!
//! The whole pass is specified by the functions `step_spec` / `match_from` /
//! `match_tokens_spec`; the executable matcher returns exactly their value.

use vstd::prelude::*;

use crate::errors::PluginError;
use crate::token::{BlockKind, Span, Token};
use crate::tokenizer::{tokenize, tokens_of};

verus! {

/// A matched (or still open) block.
#[derive(Clone, Debug, PartialEq, Eq)]
pub struct Block {
    /// True once the matching end token was seen at depth zero.
    pub closed: bool,
    /// The start token, the accepted interior tokens, and (once closed) the
    /// end token, each with its span — trimmed on closing.
    pub events: Vec<(Token, Span)>,
    /// From the start token's span start to the end token's span end; while
    /// open, the start token's span.
    pub span: Span,
    /// From the start of the second event to the end of the second-to-last
    /// event; `0..0` while open or when too few events survive trimming.
    pub inner_span: Span,
    /// True when another start token of the same kind was seen while this
    /// block was open (only possible in nested-skip mode).
    pub has_nested: bool,
}

/// The mathematical value of a `Block`.
#[verifier::ext_equal]
pub struct BlockModel {
    pub closed: bool,
    pub events: Seq<(Token, Span)>,
    pub span: Span,
    pub inner_span: Span,
    pub has_nested: bool,
}

impl View for Block {
    type V = BlockModel;

    open spec fn view(&self) -> BlockModel {
        BlockModel {
            closed: self.closed,
            events: self.events@,
            span: self.span,
            inner_span: self.inner_span,
            has_nested: self.has_nested,
        }
    }
}

/// The models of a list of blocks.
pub open spec fn models(bs: Seq<Block>) -> Seq<BlockModel> {
    bs.map_values(|b: Block| b@)
}

/// A block freshly opened by its start token.
pub open spec fn seed_block(t: Token, s: Span) -> BlockModel {
    BlockModel {
        closed: false,
        events: seq![(t, s)],
        span: s,
        inner_span: Span { start: 0, end: 0 },
        has_nested: false,
    }
}

impl Block {
    /// A new open block seeded with its first event.
    pub fn new(first_event: Token, first_span: Span) -> (r: Block)
        ensures
            r@ == seed_block(first_event, first_span),
    {
        let mut events: Vec<(Token, Span)> = Vec::new();
        events.push((first_event, first_span));
        let r = Block {
            closed: false,
            events,
            span: first_span,
            inner_span: Span::zero(),
            has_nested: false,
        };
        assert(r@.events =~= seed_block(r@.events[0].0, first_span).events);
        r
    }
}

/// Whether an event with span `s` survives the trim against the final block
/// span `b`: events starting at the block's own start offset but not ending
/// at its end are boundary artifacts and are dropped; everything else is kept
/// exactly when it lies inside the block span.
pub open spec fn keep_event(s: Span, b: Span) -> bool {
    !(s.start == b.start && s.end != b.end) && b.start <= s.start && s.end <= b.end
}

/// The surviving events of `events[i..]`, in order.
pub open spec fn trim_from(events: Seq<(Token, Span)>, b: Span, i: int) -> Seq<(Token, Span)>
    decreases events.len() - i,
{
    if i < 0 || i >= events.len() {
        Seq::empty()
    } else {
        let rest = trim_from(events, b, i + 1);
        if keep_event(events[i].1, b) {
            seq![events[i]] + rest
        } else {
            rest
        }
    }
}

/// The trimmed event list: the first event is kept unconditionally.
pub open spec fn trimmed(events: Seq<(Token, Span)>, b: Span) -> Seq<(Token, Span)> {
    if events.len() == 0 {
        Seq::empty()
    } else {
        seq![events[0]] + trim_from(events, b, 1)
    }
}

/// The inner span of a closed block with surviving events `events`: from the
/// start of the second event to the end of the second-to-last one, when both
/// exist and are ordered; `0..0` otherwise.
pub open spec fn inner_span_of(events: Seq<(Token, Span)>) -> Span {
    if events.len() >= 3 && events[1].1.start <= events[events.len() - 2].1.end {
        Span { start: events[1].1.start, end: events[events.len() - 2].1.end }
    } else {
        Span { start: 0, end: 0 }
    }
}

/// `b` closed by end token `t` with span `s`: the span is extended to `s.end`,
/// the end token appended, the events trimmed and the inner span computed.
pub open spec fn close_block(m: BlockModel, t: Token, s: Span) -> BlockModel {
    let span = Span { start: m.span.start, end: s.end };
    let kept = trimmed(m.events.push((t, s)), span);
    BlockModel {
        closed: true,
        events: kept,
        span,
        inner_span: inner_span_of(kept),
        has_nested: m.has_nested,
    }
}

/// `m` with one more event accepted into it.
pub open spec fn push_event(m: BlockModel, t: Token, s: Span) -> BlockModel {
    BlockModel { events: m.events.push((t, s)), ..m }
}

/// The matcher's running state: the blocks found so far and the depth of
/// skipped nested blocks inside the currently open one.
#[verifier::ext_equal]
pub struct MatchState {
    pub blocks: Seq<BlockModel>,
    pub nested: nat,
}

/// The state before any token was seen.
pub open spec fn init_state() -> MatchState {
    MatchState { blocks: Seq::empty(), nested: 0 }
}

/// The last block exists and is not yet closed.
pub open spec fn open_last(st: MatchState) -> bool {
    st.blocks.len() > 0 && !st.blocks.last().closed
}

/// One token processed: the heart of the matcher.
pub open spec fn step_spec(kind: BlockKind, skip_nested: bool, st: MatchState, t: Token, s: Span) -> Result<
    MatchState,
    PluginError,
> {
    let last = st.blocks.len() - 1;
    if kind.spec_is_start(t) {
        if open_last(st) {
            if skip_nested {
                Ok(
                    MatchState {
                        blocks: st.blocks.update(
                            last,
                            BlockModel {
                                has_nested: true,
                                ..push_event(st.blocks.last(), t, s)
                            },
                        ),
                        nested: st.nested + 1,
                    },
                )
            } else {
                Err(PluginError::NestedBlock)
            }
        } else {
            Ok(MatchState { blocks: st.blocks.push(seed_block(t, s)), nested: st.nested })
        }
    } else if kind.spec_is_end(t) {
        if open_last(st) {
            if st.nested > 0 {
                Ok(
                    MatchState {
                        blocks: st.blocks.update(last, push_event(st.blocks.last(), t, s)),
                        nested: (st.nested - 1) as nat,
                    },
                )
            } else {
                Ok(
                    MatchState {
                        blocks: st.blocks.update(last, close_block(st.blocks.last(), t, s)),
                        nested: st.nested,
                    },
                )
            }
        } else {
            Ok(st)
        }
    } else {
        if open_last(st) && s.start >= st.blocks.last().span.start {
            Ok(
                MatchState {
                    blocks: st.blocks.update(last, push_event(st.blocks.last(), t, s)),
                    nested: st.nested,
                },
            )
        } else {
            Ok(st)
        }
    }
}

/// The state after processing `toks[i..]` from state `st`, or the first
/// error.
pub open spec fn match_from(
    kind: BlockKind,
    skip_nested: bool,
    st: MatchState,
    toks: Seq<(Token, Span)>,
    i: int,
) -> Result<MatchState, PluginError>
    decreases toks.len() - i,
{
    if i < 0 || i >= toks.len() {
        Ok(st)
    } else {
        match step_spec(kind, skip_nested, st, toks[i].0, toks[i].1) {
            Ok(st2) => match_from(kind, skip_nested, st2, toks, i + 1),
            Err(e) => Err(e),
        }
    }
}

/// The blocks the matcher finds in `toks`, in discovery order, or the first
/// error.
pub open spec fn match_tokens_spec(kind: BlockKind, skip_nested: bool, toks: Seq<(Token, Span)>) -> Result<
    Seq<BlockModel>,
    PluginError,
> {
    match match_from(kind, skip_nested, init_state(), toks, 0) {
        Ok(st) => Ok(st.blocks),
        Err(e) => Err(e),
    }
}

/// The trim pass over an event list whose final block span is `b`.
fn trim_events(events: Vec<(Token, Span)>, b: Span) -> (r: Vec<(Token, Span)>)
    ensures
        r@ == trimmed(events@, b),
{
    let ghost full = events@;
    let mut events = events;
    let mut out: Vec<(Token, Span)> = Vec::new();
    if events.len() == 0 {
        assert(trimmed(full, b) =~= out@);
        return out;
    }
    let first = events.remove(0);
    out.push(first);
    proof {
        assert(events@ =~= full.skip(1));
    }
    while events.len() > 0
        invariant
            1 <= full.len() - events@.len() <= full.len(),
            events@ == full.skip(full.len() - events@.len()),
            trimmed(full, b) == out@ + trim_from(full, b, full.len() - events@.len()),
        decreases events@.len(),
    {
        let ghost j = full.len() - events@.len();
        let e = events.remove(0);
        proof {
            assert(events@ =~= full.skip(j + 1));
            assert(e == full[j]);
        }
        let s = e.1;
        let keep = !(s.start == b.start && s.end != b.end) && b.start <= s.start && s.end
            <= b.end;
        assert(keep == keep_event(s, b));
        if keep {
            let ghost prev = out@;
            out.push(e);
            proof {
                assert(trim_from(full, b, j) == seq![full[j]] + trim_from(full, b, j + 1));
                assert(prev + trim_from(full, b, j) =~= out@ + trim_from(full, b, j + 1));
            }
        } else {
            proof {
                assert(trim_from(full, b, j) == trim_from(full, b, j + 1));
            }
        }
    }
    proof {
        assert(trim_from(full, b, full.len() as int) =~= Seq::<(Token, Span)>::empty());
        assert(trimmed(full, b) =~= out@);
    }
    out
}

/// Runs the matcher over a token stream. Returns the blocks in discovery
/// order — open ones as well — or fails with `NestedBlock` when a start token
/// arrives while a block is open and nested skipping is off.
#[verifier::loop_isolation(false)]
pub fn match_blocks(tokens: Vec<(Token, Span)>, kind: &BlockKind, skip_nested: bool) -> (r: Result<
    Vec<Block>,
    PluginError,
>)
    ensures
        match r {
            Ok(bs) => match_tokens_spec(*kind, skip_nested, tokens@) == Ok::<
                Seq<BlockModel>,
                PluginError,
            >(models(bs@)),
            Err(e) => match_tokens_spec(*kind, skip_nested, tokens@) == Err::<
                Seq<BlockModel>,
                PluginError,
            >(e),
        },
{
    let ghost full = tokens@;
    let mut toks_left = tokens;
    let total = toks_left.len();
    let mut blocks: Vec<Block> = Vec::new();
    let mut nested: usize = 0;
    proof {
        assert(models(blocks@) =~= Seq::<BlockModel>::empty());
        assert(MatchState { blocks: models(blocks@), nested: nested as nat } =~= init_state());
    }
    while toks_left.len() > 0
        invariant
            total == full.len(),
            0 <= full.len() - toks_left@.len() <= full.len(),
            toks_left@ == full.skip(full.len() - toks_left@.len()),
            nested <= full.len() - toks_left@.len(),
            match_from(
                *kind,
                skip_nested,
                (MatchState { blocks: models(blocks@), nested: nested as nat }),
                full,
                full.len() - toks_left@.len(),
            ) == match_from(*kind, skip_nested, init_state(), full, 0),
        decreases toks_left@.len(),
    {
        let ghost j = full.len() - toks_left@.len();
        let ghost st = MatchState { blocks: models(blocks@), nested: nested as nat };
        let (tok, span) = toks_left.remove(0);
        proof {
            assert(toks_left@ =~= full.skip(j + 1));
            assert((tok, span) == full[j]);
        }
        let n = blocks.len();
        let is_open = n > 0 && !blocks[n - 1].closed;
        assert(is_open == open_last(st));
        if kind.is_start(&tok) {
            if is_open {
                if skip_nested {
                    let mut b = blocks.pop().unwrap();
                    b.has_nested = true;
                    b.events.push((tok, span));
                    blocks.push(b);
                    nested = nested + 1;
                    proof {
                        let updated = BlockModel {
                            has_nested: true,
                            ..push_event(st.blocks.last(), full[j].0, full[j].1)
                        };
                        assert(models(blocks@) =~= st.blocks.update(st.blocks.len() - 1, updated));
                        assert(step_spec(*kind, skip_nested, st, full[j].0, full[j].1) == Ok::<
                            MatchState,
                            PluginError,
                        >(MatchState { blocks: models(blocks@), nested: nested as nat }));
                    }
                } else {
                    proof {
                        assert(step_spec(*kind, skip_nested, st, full[j].0, full[j].1) == Err::<
                            MatchState,
                            PluginError,
                        >(PluginError::NestedBlock));
                        assert(match_from(*kind, skip_nested, st, full, j) == Err::<
                            MatchState,
                            PluginError,
                        >(PluginError::NestedBlock));
                        assert(match_from(*kind, skip_nested, init_state(), full, 0) == Err::<
                            MatchState,
                            PluginError,
                        >(PluginError::NestedBlock));
                        assert(match_tokens_spec(*kind, skip_nested, full) == Err::<
                            Seq<BlockModel>,
                            PluginError,
                        >(PluginError::NestedBlock));
                    }
                    return Err(PluginError::NestedBlock);
                }
            } else {
                let b = Block::new(tok, span);
                blocks.push(b);
                proof {
                    assert(models(blocks@) =~= st.blocks.push(seed_block(full[j].0, full[j].1)));
                    assert(step_spec(*kind, skip_nested, st, full[j].0, full[j].1) == Ok::<
                        MatchState,
                        PluginError,
                    >(MatchState { blocks: models(blocks@), nested: nested as nat }));
                }
            }
        } else if kind.is_end(&tok) {
            if is_open {
                if nested > 0 {
                    let mut b = blocks.pop().unwrap();
                    b.events.push((tok, span));
                    blocks.push(b);
                    nested = nested - 1;
                    proof {
                        let updated = push_event(st.blocks.last(), full[j].0, full[j].1);
                        assert(models(blocks@) =~= st.blocks.update(st.blocks.len() - 1, updated));
                        assert(step_spec(*kind, skip_nested, st, full[j].0, full[j].1) == Ok::<
                            MatchState,
                            PluginError,
                        >(MatchState { blocks: models(blocks@), nested: nested as nat }));
                    }
                } else {
                    let mut b = blocks.pop().unwrap();
                    let ghost before = b@;
                    b.closed = true;
                    b.span = Span { start: b.span.start, end: span.end };
                    b.events.push((tok, span));
                    let kept = trim_events(b.events, b.span);
                    b.events = kept;
                    let ne = b.events.len();
                    if ne >= 3 && b.events[1].1.start <= b.events[ne - 2].1.end {
                        b.inner_span = Span {
                            start: b.events[1].1.start,
                            end: b.events[ne - 2].1.end,
                        };
                    } else {
                        b.inner_span = Span::zero();
                    }
                    blocks.push(b);
                    proof {
                        let updated = close_block(before, full[j].0, full[j].1);
                        assert(b@.events == updated.events);
                        assert(b@.inner_span == updated.inner_span);
                        assert(b@ == updated);
                        assert(models(blocks@) =~= st.blocks.update(st.blocks.len() - 1, updated));
                        assert(step_spec(*kind, skip_nested, st, full[j].0, full[j].1) == Ok::<
                            MatchState,
                            PluginError,
                        >(MatchState { blocks: models(blocks@), nested: nested as nat }));
                    }
                }
            } else {
                proof {
                    assert(step_spec(*kind, skip_nested, st, full[j].0, full[j].1) == Ok::<
                        MatchState,
                        PluginError,
                    >(MatchState { blocks: models(blocks@), nested: nested as nat }));
                }
            }
        } else {
            let accept = if is_open {
                let nb = blocks.len();
                span.start >= blocks[nb - 1].span.start
            } else {
                false
            };
            if accept {
                let mut b = blocks.pop().unwrap();
                b.events.push((tok, span));
                blocks.push(b);
                proof {
                    let updated = push_event(st.blocks.last(), full[j].0, full[j].1);
                    assert(models(blocks@) =~= st.blocks.update(st.blocks.len() - 1, updated));
                    assert(step_spec(*kind, skip_nested, st, full[j].0, full[j].1) == Ok::<
                        MatchState,
                        PluginError,
                    >(MatchState { blocks: models(blocks@), nested: nested as nat }));
                }
            } else {
                proof {
                    assert(step_spec(*kind, skip_nested, st, full[j].0, full[j].1) == Ok::<
                        MatchState,
                        PluginError,
                    >(MatchState { blocks: models(blocks@), nested: nested as nat }));
                }
            }
        }
    }
    proof {
        assert(toks_left@.len() == 0);
        assert(match_from(
            *kind,
            skip_nested,
            (MatchState { blocks: models(blocks@), nested: nested as nat }),
            full,
            full.len() as int,
        ) == Ok::<MatchState, PluginError>(
            MatchState { blocks: models(blocks@), nested: nested as nat },
        ));
    }
    Ok(blocks)
}

/// Every event span lies in `[0, n]` and is ordered.
pub open spec fn event_spans_bounded(events: Seq<(Token, Span)>, n: int) -> bool {
    forall|k: int|
        0 <= k < events.len() ==> (#[trigger] events[k]).1.start <= events[k].1.end && events[
            k
        ].1.end <= n
}

/// The block's spans all lie in `[0, n]`, and its inner span is ordered.
pub open spec fn block_bounded(b: BlockModel, n: int) -> bool {
    &&& event_spans_bounded(b.events, n)
    &&& b.span.start <= n
    &&& b.span.end <= n
    &&& b.inner_span.start <= b.inner_span.end
    &&& b.inner_span.end <= n
}

/// All blocks are bounded by `n`.
pub open spec fn blocks_bounded(bs: Seq<BlockModel>, n: int) -> bool {
    forall|k: int| 0 <= k < bs.len() ==> block_bounded(#[trigger] bs[k], n)
}

proof fn lemma_trim_from_bounded(events: Seq<(Token, Span)>, b: Span, i: int, n: int)
    requires
        event_spans_bounded(events, n),
    ensures
        event_spans_bounded(trim_from(events, b, i), n),
    decreases events.len() - i,
{
    if i < 0 || i >= events.len() {
    } else {
        lemma_trim_from_bounded(events, b, i + 1, n);
        let rest = trim_from(events, b, i + 1);
        if keep_event(events[i].1, b) {
            let whole = seq![events[i]] + rest;
            assert forall|k: int| 0 <= k < whole.len() implies (#[trigger] whole[k]).1.start
                <= whole[k].1.end && whole[k].1.end <= n by {
                if k == 0 {
                    assert(whole[k] == events[i]);
                } else {
                    assert(whole[k] == rest[k - 1]);
                }
            }
        }
    }
}

proof fn lemma_step_bounded(
    kind: BlockKind,
    skip_nested: bool,
    st: MatchState,
    t: Token,
    s: Span,
    n: int,
)
    requires
        blocks_bounded(st.blocks, n),
        s.start <= s.end <= n,
    ensures
        match step_spec(kind, skip_nested, st, t, s) {
            Ok(st2) => blocks_bounded(st2.blocks, n),
            Err(_) => true,
        },
{
    let last = st.blocks.len() - 1;
    match step_spec(kind, skip_nested, st, t, s) {
        Ok(st2) => {
            if kind.spec_is_start(t) {
                if open_last(st) && skip_nested {
                    let m = st.blocks.last();
                    let m2 = BlockModel { has_nested: true, ..push_event(m, t, s) };
                    assert(event_spans_bounded(m2.events, n)) by {
                        assert forall|k: int| 0 <= k < m2.events.len() implies (#[trigger] m2.events[k]).1.start
                            <= m2.events[k].1.end && m2.events[k].1.end <= n by {
                            if k < m.events.len() {
                                assert(m2.events[k] == m.events[k]);
                            } else {
                                assert(m2.events[k] == (t, s));
                            }
                        }
                    }
                    assert(blocks_bounded(st2.blocks, n));
                } else if !open_last(st) {
                    let m2 = seed_block(t, s);
                    assert(block_bounded(m2, n));
                    assert(blocks_bounded(st2.blocks, n));
                }
            } else if kind.spec_is_end(t) {
                if open_last(st) {
                    let m = st.blocks.last();
                    if st.nested > 0 {
                        let m2 = push_event(m, t, s);
                        assert(event_spans_bounded(m2.events, n)) by {
                            assert forall|k: int| 0 <= k < m2.events.len() implies (#[trigger] m2.events[k]).1.start
                                <= m2.events[k].1.end && m2.events[k].1.end <= n by {
                                if k < m.events.len() {
                                    assert(m2.events[k] == m.events[k]);
                                } else {
                                    assert(m2.events[k] == (t, s));
                                }
                            }
                        }
                        assert(blocks_bounded(st2.blocks, n));
                    } else {
                        let m2 = close_block(m, t, s);
                        let span = Span { start: m.span.start, end: s.end };
                        let evs = m.events.push((t, s));
                        assert(event_spans_bounded(evs, n)) by {
                            assert forall|k: int| 0 <= k < evs.len() implies (#[trigger] evs[k]).1.start
                                <= evs[k].1.end && evs[k].1.end <= n by {
                                if k < m.events.len() {
                                    assert(evs[k] == m.events[k]);
                                } else {
                                    assert(evs[k] == (t, s));
                                }
                            }
                        }
                        let kept = trimmed(evs, span);
                        assert(event_spans_bounded(kept, n)) by {
                            if evs.len() > 0 {
                                lemma_trim_from_bounded(evs, span, 1, n);
                                let rest = trim_from(evs, span, 1);
                                assert forall|k: int| 0 <= k < kept.len() implies (#[trigger] kept[k]).1.start
                                    <= kept[k].1.end && kept[k].1.end <= n by {
                                    if k == 0 {
                                        assert(kept[k] == evs[0]);
                                    } else {
                                        assert(kept[k] == rest[k - 1]);
                                    }
                                }
                            }
                        }
                        assert(block_bounded(m2, n));
                        assert(blocks_bounded(st2.blocks, n));
                    }
                }
            } else {
                if open_last(st) && s.start >= st.blocks.last().span.start {
                    let m = st.blocks.last();
                    let m2 = push_event(m, t, s);
                    assert(event_spans_bounded(m2.events, n)) by {
                        assert forall|k: int| 0 <= k < m2.events.len() implies (#[trigger] m2.events[k]).1.start
                            <= m2.events[k].1.end && m2.events[k].1.end <= n by {
                            if k < m.events.len() {
                                assert(m2.events[k] == m.events[k]);
                            } else {
                                assert(m2.events[k] == (t, s));
                            }
                        }
                    }
                    assert(blocks_bounded(st2.blocks, n));
                }
            }
        },
        Err(_) => {},
    }
}

/// Token spans bounded by `n` from position `i` on.
pub open spec fn token_spans_bounded(toks: Seq<(Token, Span)>, n: int) -> bool {
    forall|k: int|
        0 <= k < toks.len() ==> (#[trigger] toks[k]).1.start <= toks[k].1.end && toks[k].1.end
            <= n
}

proof fn lemma_match_from_bounded(
    kind: BlockKind,
    skip_nested: bool,
    st: MatchState,
    toks: Seq<(Token, Span)>,
    i: int,
    n: int,
)
    requires
        blocks_bounded(st.blocks, n),
        token_spans_bounded(toks, n),
    ensures
        match match_from(kind, skip_nested, st, toks, i) {
            Ok(st2) => blocks_bounded(st2.blocks, n),
            Err(_) => true,
        },
    decreases toks.len() - i,
{
    if i < 0 || i >= toks.len() {
    } else {
        lemma_step_bounded(kind, skip_nested, st, toks[i].0, toks[i].1, n);
        match step_spec(kind, skip_nested, st, toks[i].0, toks[i].1) {
            Ok(st2) => {
                lemma_match_from_bounded(kind, skip_nested, st2, toks, i + 1, n);
            },
            Err(_) => {},
        }
    }
}

/// The blocks found in a bounded token stream are bounded.
pub proof fn lemma_match_tokens_bounded(
    kind: BlockKind,
    skip_nested: bool,
    toks: Seq<(Token, Span)>,
    n: int,
)
    requires
        token_spans_bounded(toks, n),
    ensures
        match match_tokens_spec(kind, skip_nested, toks) {
            Ok(bs) => blocks_bounded(bs, n),
            Err(_) => true,
        },
{
    lemma_match_from_bounded(kind, skip_nested, init_state(), toks, 0, n);
}

/// Tokenizes `content` and matches blocks of `kind` in the token stream.
pub fn parse_blocks(content: &[u8], kind: &BlockKind, skip_nested: bool) -> (r: Result<
    Vec<Block>,
    PluginError,
>)
    ensures
        match r {
            Ok(bs) => match_tokens_spec(*kind, skip_nested, tokens_of(content@)) == Ok::<
                Seq<BlockModel>,
                PluginError,
            >(models(bs@)) && blocks_bounded(models(bs@), content@.len() as int),
            Err(e) => match_tokens_spec(*kind, skip_nested, tokens_of(content@)) == Err::<
                Seq<BlockModel>,
                PluginError,
            >(e),
        },
{
    let tokens = tokenize(content);
    proof {
        lemma_match_tokens_bounded(*kind, skip_nested, tokens_of(content@), content@.len() as int);
    }
    match_blocks(tokens, kind, skip_nested)
}

/// Tokenizes `content` and matches the fenced code blocks whose normalized
/// tag list starts with `tags` — the generic form behind the definition
/// fences, usable with any tag list.
pub fn parse_code_blocks(content: &[u8], tags: Vec<Vec<u8>>) -> (r: Result<
    Vec<Block>,
    PluginError,
>)
    ensures
        match r {
            Ok(bs) => match_tokens_spec(
                (BlockKind::FencedCode { tags }),
                false,
                tokens_of(content@),
            ) == Ok::<Seq<BlockModel>, PluginError>(models(bs@)) && blocks_bounded(
                models(bs@),
                content@.len() as int,
            ),
            Err(e) => match_tokens_spec(
                (BlockKind::FencedCode { tags }),
                false,
                tokens_of(content@),
            ) == Err::<Seq<BlockModel>, PluginError>(e),
        },
{
    let kind = BlockKind::FencedCode { tags };
    parse_blocks(content, &kind, false)
}

} // verus!
