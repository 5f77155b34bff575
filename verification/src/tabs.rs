//! The tab-group structurer and its iterative rewrite loop.
//!
//! `parse_tabs` matches top-level tab groups in a chapter's text with nested
//! skipping on, parses each group's marker payload, re-tokenizes the group's
//! inner span to discover the individual tabs, and returns the groups in
//! source order together with whether any group held a nested group. Open
//! blocks are not treated as directives: they contribute neither a group nor
//! a nested flag.
//!
//! `process_chapter` owns the rewrite loop: it parses, renders each group,
//! substitutes the rendered markup for the group's span with offset
//! correction, and repeats on the mutated buffer until a pass reports no
//! nesting.

use vstd::prelude::*;
use vstd::string::StringSliceAdditionalSpecFns;

use crate::block::{
    Block, BlockModel, blocks_bounded, match_tokens_spec, models, parse_blocks,
};
use crate::bytes::{
    marker_payload, payload_spec, slice_range,
};
use crate::config::{
    TabConfig, TabConfigModel, TabsConfig, TabsConfigModel, parse_tab_config_spec,
    parse_tabs_config_spec, tab_views,
};
use crate::errors::PluginError;
use crate::render::{render_tabs_spec, tabs};
use crate::rewrite::{apply_replacements, apply_spec, rep_views};
use crate::token::{BlockKind, Span, Token};
use crate::tokenizer::tokens_of;

verus! {

/// The single tabs of one group, read from the sub-blocks found in the
/// group's inner span: each closed sub-block's marker payload parsed as a tab
/// configuration, paired with the bytes of the sub-block's inner span (taken
/// from `text` at offset `base`). An open sub-block contributes nothing; a
/// malformed payload is a `ConfigParse` error.
pub open spec fn build_tabs(
    text: Seq<u8>,
    base: int,
    sbs: Seq<BlockModel>,
    i: int,
) -> Result<Seq<(TabConfigModel, Seq<u8>)>, PluginError>
    decreases sbs.len() - i,
{
    if i < 0 || i >= sbs.len() {
        Ok(Seq::empty())
    } else {
        let sb = sbs[i];
        if !sb.closed {
            build_tabs(text, base, sbs, i + 1)
        } else if sb.events.len() == 0 {
            Err(PluginError::ConfigParse)
        } else {
            match sb.events[0].0 {
                Token::Text(v) => match parse_tab_config_spec(
                    payload_spec(v@, "{{#tab".spec_bytes()),
                ) {
                    Some(tc) => match build_tabs(text, base, sbs, i + 1) {
                        Ok(rest) => Ok(
                            seq![
                                (
                                    tc,
                                    text.subrange(
                                        base + sb.inner_span.start,
                                        base + sb.inner_span.end,
                                    ),
                                ),
                            ] + rest,
                        ),
                        Err(e) => Err(e),
                    },
                    None => Err(PluginError::ConfigParse),
                },
                _ => Err(PluginError::ConfigParse),
            }
        }
    }
}

/// The group a closed top-level block denotes: its marker payload parsed as
/// the group configuration, and the tabs discovered by re-tokenizing the
/// block's inner span.
pub open spec fn group_of_block(text: Seq<u8>, b: BlockModel) -> Result<
    (Span, TabsConfigModel),
    PluginError,
> {
    if b.events.len() == 0 {
        Err(PluginError::ConfigParse)
    } else {
        match b.events[0].0 {
            Token::Text(v) => match parse_tabs_config_spec(
                payload_spec(v@, "{{#tabs".spec_bytes()),
            ) {
                Some(c0) => {
                    let inner = text.subrange(
                        b.inner_span.start as int,
                        b.inner_span.end as int,
                    );
                    match match_tokens_spec(BlockKind::Tab, true, tokens_of(inner)) {
                        Ok(sbs) => match build_tabs(
                            text,
                            b.inner_span.start as int,
                            sbs,
                            0,
                        ) {
                            Ok(ts) => Ok(
                                (b.span, TabsConfigModel { global: c0.global, tabs: ts }),
                            ),
                            Err(e) => Err(e),
                        },
                        Err(e) => Err(e),
                    }
                },
                None => Err(PluginError::ConfigParse),
            },
            _ => Err(PluginError::ConfigParse),
        }
    }
}

/// The groups of the closed blocks of `bs[i..]`, in order, with the
/// disjunction of their nested flags. Open blocks are skipped.
pub open spec fn build_groups(text: Seq<u8>, bs: Seq<BlockModel>, i: int) -> Result<
    (Seq<(Span, TabsConfigModel)>, bool),
    PluginError,
>
    decreases bs.len() - i,
{
    if i < 0 || i >= bs.len() {
        Ok((Seq::empty(), false))
    } else {
        let b = bs[i];
        if !b.closed {
            build_groups(text, bs, i + 1)
        } else {
            match group_of_block(text, b) {
                Ok(g) => match build_groups(text, bs, i + 1) {
                    Ok(p) => Ok((seq![g] + p.0, b.has_nested || p.1)),
                    Err(e) => Err(e),
                },
                Err(e) => Err(e),
            }
        }
    }
}

/// What one parse pass over a chapter's text yields: the matched groups in
/// source order, and whether any of them held a nested group.
pub open spec fn parse_tabs_spec(text: Seq<u8>) -> Result<
    (Seq<(Span, TabsConfigModel)>, bool),
    PluginError,
> {
    match match_tokens_spec(BlockKind::Tabs, true, tokens_of(text)) {
        Ok(bs) => build_groups(text, bs, 0),
        Err(e) => Err(e),
    }
}

/// The views of a group list.
pub open spec fn group_views(gs: Seq<(Span, TabsConfig)>) -> Seq<(Span, TabsConfigModel)> {
    gs.map_values(|p: (Span, TabsConfig)| (p.0, p.1@))
}

/// The tabs found in the inner span of one closed top-level block.
#[verifier::loop_isolation(false)]
fn collect_tabs(content: &[u8], base: usize, subblocks: Vec<Block>, n2: Ghost<int>) -> (r: Result<
    Vec<(TabConfig, Vec<u8>)>,
    PluginError,
>)
    requires
        blocks_bounded(models(subblocks@), n2@),
        base + n2@ <= content@.len(),
        0 <= n2@,
    ensures
        match r {
            Ok(ts) => build_tabs(content@, base as int, models(subblocks@), 0) == Ok::<
                Seq<(TabConfigModel, Seq<u8>)>,
                PluginError,
            >(tab_views(ts@)),
            Err(e) => build_tabs(content@, base as int, models(subblocks@), 0) == Err::<
                Seq<(TabConfigModel, Seq<u8>)>,
                PluginError,
            >(e),
        },
{
    let ghost smodels = models(subblocks@);
    let ghost fullsb = subblocks@;
    let clen = content.len();
    let mut subblocks = subblocks;
    let mut out: Vec<(TabConfig, Vec<u8>)> = Vec::new();
    proof {
        assert(tab_views(out@) =~= Seq::<(TabConfigModel, Seq<u8>)>::empty());
    }
    while subblocks.len() > 0
        invariant
            subblocks@ == fullsb.skip(fullsb.len() - subblocks@.len()),
            0 <= fullsb.len() - subblocks@.len() <= fullsb.len(),
            smodels.len() == fullsb.len(),
            match build_tabs(content@, base as int, smodels, fullsb.len() - subblocks@.len()) {
                Ok(rest) => build_tabs(content@, base as int, smodels, 0) == Ok::<
                    Seq<(TabConfigModel, Seq<u8>)>,
                    PluginError,
                >(tab_views(out@) + rest),
                Err(e) => build_tabs(content@, base as int, smodels, 0) == Err::<
                    Seq<(TabConfigModel, Seq<u8>)>,
                    PluginError,
                >(e),
            },
        decreases subblocks@.len(),
    {
        let ghost j = fullsb.len() - subblocks@.len();
        let sb = subblocks.remove(0);
        proof {
            assert(subblocks@ =~= fullsb.skip(j + 1));
            assert(sb == fullsb[j]);
            assert(sb@ == smodels[j]);
            assert(crate::block::block_bounded(smodels[j], n2@));
            assert(sb@.inner_span.start <= sb@.inner_span.end <= n2@);
        }
        if !sb.closed {
            continue ;
        }
        if sb.events.len() == 0 {
            return Err(PluginError::ConfigParse);
        }
        let payload = match &sb.events[0].0 {
            Token::Text(v) => marker_payload(v.as_slice(), "{{#tab".as_bytes()),
            _ => {
                return Err(PluginError::ConfigParse);
            },
        };
        let tc = match TabConfig::parse(payload.as_slice()) {
            Ok(c) => c,
            Err(e) => {
                return Err(e);
            },
        };
        let piece = slice_range(content, base + sb.inner_span.start, base + sb.inner_span.end);
        let ghost prev = out@;
        out.push((tc, piece));
        proof {
            let ghost item = (
                tc@,
                content@.subrange(base + sb@.inner_span.start, base + sb@.inner_span.end),
            );
            assert(tab_views(out@) =~= tab_views(prev) + seq![item]);
            let ghost rest = build_tabs(content@, base as int, smodels, j + 1);
            match rest {
                Ok(rr) => {
                    assert(build_tabs(content@, base as int, smodels, j) == Ok::<
                        Seq<(TabConfigModel, Seq<u8>)>,
                        PluginError,
                    >(seq![item] + rr));
                    assert(tab_views(out@) + rr =~= tab_views(prev) + (seq![item] + rr));
                },
                Err(e) => {
                    assert(build_tabs(content@, base as int, smodels, j) == Err::<
                        Seq<(TabConfigModel, Seq<u8>)>,
                        PluginError,
                    >(e));
                },
            }
        }
    }
    proof {
        assert(build_tabs(content@, base as int, smodels, smodels.len() as int) == Ok::<
            Seq<(TabConfigModel, Seq<u8>)>,
            PluginError,
        >(Seq::empty()));
        assert(tab_views(out@) + Seq::<(TabConfigModel, Seq<u8>)>::empty() =~= tab_views(out@));
    }
    Ok(out)
}

/// Matches the top-level tab groups of a chapter's text, parses each group's
/// marker payload and its tabs, and reports whether any group held a nested
/// group. Open blocks are skipped. Fails with `ConfigParse` exactly when a
/// group or tab marker payload is malformed.
#[verifier::loop_isolation(false)]
pub fn parse_tabs(content: &[u8]) -> (r: Result<(Vec<(Span, TabsConfig)>, bool), PluginError>)
    ensures
        match r {
            Ok(p) => parse_tabs_spec(content@) == Ok::<
                (Seq<(Span, TabsConfigModel)>, bool),
                PluginError,
            >((group_views(p.0@), p.1)),
            Err(e) => parse_tabs_spec(content@) == Err::<
                (Seq<(Span, TabsConfigModel)>, bool),
                PluginError,
            >(e),
        },
{
    let kind = BlockKind::Tabs;
    let blocks = match parse_blocks(content, &kind, true) {
        Ok(bs) => bs,
        Err(e) => {
            return Err(e);
        },
    };
    let ghost bmodels = models(blocks@);
    let ghost fullb = blocks@;
    let mut blocks = blocks;
    let mut groups: Vec<(Span, TabsConfig)> = Vec::new();
    let mut nested = false;
    proof {
        assert(group_views(groups@) =~= Seq::<(Span, TabsConfigModel)>::empty());
    }
    while blocks.len() > 0
        invariant
            blocks@ == fullb.skip(fullb.len() - blocks@.len()),
            0 <= fullb.len() - blocks@.len() <= fullb.len(),
            bmodels.len() == fullb.len(),
            blocks_bounded(bmodels, content@.len() as int),
            match build_groups(content@, bmodels, fullb.len() - blocks@.len()) {
                Ok(p) => parse_tabs_spec(content@) == Ok::<
                    (Seq<(Span, TabsConfigModel)>, bool),
                    PluginError,
                >((group_views(groups@) + p.0, nested || p.1)),
                Err(e) => parse_tabs_spec(content@) == Err::<
                    (Seq<(Span, TabsConfigModel)>, bool),
                    PluginError,
                >(e),
            },
        decreases blocks@.len(),
    {
        let ghost j = fullb.len() - blocks@.len();
        let b = blocks.remove(0);
        proof {
            assert(blocks@ =~= fullb.skip(j + 1));
            assert(b == fullb[j]);
            assert(b@ == bmodels[j]);
        }
        if !b.closed {
            continue ;
        }
        if b.events.len() == 0 {
            return Err(PluginError::ConfigParse);
        }
        let payload = match &b.events[0].0 {
            Token::Text(v) => marker_payload(v.as_slice(), "{{#tabs".as_bytes()),
            _ => {
                return Err(PluginError::ConfigParse);
            },
        };
        let c0 = match TabsConfig::parse(payload.as_slice()) {
            Ok(c) => c,
            Err(e) => {
                return Err(e);
            },
        };
        let inner = slice_range(content, b.inner_span.start, b.inner_span.end);
        let subkind = BlockKind::Tab;
        let subblocks = match parse_blocks(inner.as_slice(), &subkind, true) {
            Ok(bs) => bs,
            Err(e) => {
                return Err(e);
            },
        };
        let ghost n2 = inner@.len() as int;
        let tabs_list = match collect_tabs(
            content,
            b.inner_span.start,
            subblocks,
            Ghost(n2),
        ) {
            Ok(ts) => ts,
            Err(e) => {
                return Err(e);
            },
        };
        let config = TabsConfig { global: c0.global, tabs: tabs_list };
        let ghost prevg = groups@;
        groups.push((b.span, config));
        nested = nested || b.has_nested;
        proof {
            assert(config@.tabs =~= tab_views(config.tabs@));
            assert(group_of_block(content@, b@) == Ok::<(Span, TabsConfigModel), PluginError>(
                (b@.span, config@),
            ));
            assert(group_views(groups@) =~= group_views(prevg) + seq![(b@.span, config@)]);
            let ghost rest = build_groups(content@, bmodels, j + 1);
            match rest {
                Ok(p) => {
                    assert(build_groups(content@, bmodels, j) == Ok::<
                        (Seq<(Span, TabsConfigModel)>, bool),
                        PluginError,
                    >((seq![(b@.span, config@)] + p.0, b@.has_nested || p.1)));
                    assert(group_views(groups@) + p.0 =~= group_views(prevg) + (seq![
                        (b@.span, config@),
                    ] + p.0));
                },
                Err(e) => {
                    assert(build_groups(content@, bmodels, j) == Err::<
                        (Seq<(Span, TabsConfigModel)>, bool),
                        PluginError,
                    >(e));
                },
            }
        }
    }
    proof {
        assert(build_groups(content@, bmodels, bmodels.len() as int) == Ok::<
            (Seq<(Span, TabsConfigModel)>, bool),
            PluginError,
        >((Seq::empty(), false)));
        assert(group_views(groups@) + Seq::<(Span, TabsConfigModel)>::empty() =~= group_views(
            groups@,
        ));
    }
    Ok((groups, nested))
}

/// The replacements a pass makes: each group's span, with the rendered markup
/// of its configuration.
pub open spec fn rendered_reps(gs: Seq<(Span, TabsConfigModel)>) -> Seq<(Span, Seq<u8>)> {
    gs.map_values(|p: (Span, TabsConfigModel)| (p.0, render_tabs_spec(p.1)))
}

/// One parse-render-rewrite pass over a chapter's text: the rewritten buffer
/// and whether the pass saw nesting.
pub open spec fn pass_spec(text: Seq<u8>) -> Result<(Seq<u8>, bool), PluginError> {
    match parse_tabs_spec(text) {
        Ok(p) => match apply_spec(text, rendered_reps(p.0)) {
            Ok(out) => Ok((out, p.1)),
            Err(e) => Err(e),
        },
        Err(e) => Err(e),
    }
}

/// The buffer after `k` passes over `text`, or the first failure.
pub open spec fn after_passes(text: Seq<u8>, k: nat) -> Result<Seq<u8>, PluginError>
    decreases k,
{
    if k == 0 {
        Ok(text)
    } else {
        match after_passes(text, (k - 1) as nat) {
            Ok(t) => match pass_spec(t) {
                Ok(p) => Ok(p.0),
                Err(e) => Err(e),
            },
            Err(e) => Err(e),
        }
    }
}

/// Runs the iterative rewrite loop on one chapter's text: parse, render and
/// substitute, repeating on the mutated buffer while a pass reports nesting,
/// for at most `max_passes` passes — one pass resolves one level of nesting,
/// so the bound is the deepest nesting the caller is willing to flatten. On
/// success the buffer after the last pass is returned together with `true`
/// when that pass still reported nesting (the bound was reached first);
/// on failure the error is the one the failing pass produced.
#[verifier::loop_isolation(false)]
#[verifier::rlimit(60)]
pub fn process_chapter(content: Vec<u8>, max_passes: usize) -> (r: Result<
    (Vec<u8>, bool),
    PluginError,
>)
    requires
        max_passes >= 1,
    ensures
        match r {
            Ok(p) => exists|k: nat|
                1 <= k <= max_passes && #[trigger] after_passes(content@, k) == Ok::<
                    Seq<u8>,
                    PluginError,
                >(p.0@) && after_passes(content@, (k - 1) as nat) is Ok && pass_spec(
                    after_passes(content@, (k - 1) as nat).unwrap(),
                ) == Ok::<(Seq<u8>, bool), PluginError>((p.0@, p.1)) && (p.1 ==> k
                    == max_passes),
            Err(e) => exists|k: nat|
                #[trigger] after_passes(content@, k) is Ok && pass_spec(
                    after_passes(content@, k).unwrap(),
                ) == Err::<(Seq<u8>, bool), PluginError>(e),
        },
{
    let mut cur = content;
    let ghost orig = cur@;
    let mut done: usize = 0;
    while done < max_passes
        invariant
            0 <= done < max_passes,
            after_passes(orig, done as nat) == Ok::<Seq<u8>, PluginError>(cur@),
            orig == content@,
        decreases max_passes - done,
    {
        let ghost k: nat = done as nat;
        let (groups, nested) = match parse_tabs(cur.as_slice()) {
            Ok(p) => p,
            Err(e) => {
                proof {
                    assert(pass_spec(cur@) == Err::<(Seq<u8>, bool), PluginError>(e));
                    assert(after_passes(orig, k) is Ok && pass_spec(
                        after_passes(orig, k).unwrap(),
                    ) == Err::<(Seq<u8>, bool), PluginError>(e));
                }
                return Err(e);
            },
        };
        let ghost gviews = group_views(groups@);
        let mut groups = groups;
        let ghost fullg = groups@;
        let mut reps: Vec<(Span, Vec<u8>)> = Vec::new();
        proof {
            assert(rep_views(reps@) =~= rendered_reps(gviews).take(0));
        }
        while groups.len() > 0
            invariant
                groups@ == fullg.skip(fullg.len() - groups@.len()),
                0 <= fullg.len() - groups@.len() <= fullg.len(),
                gviews.len() == fullg.len(),
                gviews == group_views(fullg),
                rep_views(reps@) == rendered_reps(gviews).take(fullg.len() - groups@.len()),
            decreases groups@.len(),
        {
            let ghost j = fullg.len() - groups@.len();
            let (span, config) = groups.remove(0);
            proof {
                assert(groups@ =~= fullg.skip(j + 1));
                assert((span, config) == fullg[j]);
            }
            let rendered = tabs(&config);
            let ghost prevr = reps@;
            reps.push((span, rendered));
            proof {
                assert(gviews[j] == (span, config@));
                assert(rep_views(reps@) =~= rep_views(prevr).push(
                    (span, render_tabs_spec(config@)),
                ));
                assert(rep_views(reps@) =~= rendered_reps(gviews).take(j + 1));
            }
        }
        proof {
            assert(rep_views(reps@) =~= rendered_reps(gviews));
        }
        let ghost before = cur@;
        let out = match apply_replacements(cur, &reps) {
            Ok(o) => o,
            Err(e) => {
                proof {
                    assert(pass_spec(before) == Err::<(Seq<u8>, bool), PluginError>(e));
                    assert(after_passes(orig, k) is Ok && pass_spec(
                        after_passes(orig, k).unwrap(),
                    ) == Err::<(Seq<u8>, bool), PluginError>(e));
                }
                return Err(e);
            },
        };
        proof {
            assert(pass_spec(before) == Ok::<(Seq<u8>, bool), PluginError>((out@, nested)));
            assert(after_passes(orig, k + 1) == Ok::<Seq<u8>, PluginError>(out@));
        }
        done = done + 1;
        if !nested {
            proof {
                assert(1 <= done <= max_passes && after_passes(content@, done as nat) == Ok::<
                    Seq<u8>,
                    PluginError,
                >(out@) && after_passes(content@, (done - 1) as nat) is Ok && pass_spec(
                    after_passes(content@, (done - 1) as nat).unwrap(),
                ) == Ok::<(Seq<u8>, bool), PluginError>((out@, false)));
            }
            return Ok((out, false));
        }
        if done == max_passes {
            proof {
                assert(1 <= done <= max_passes && after_passes(content@, done as nat) == Ok::<
                    Seq<u8>,
                    PluginError,
                >(out@) && after_passes(content@, (done - 1) as nat) is Ok && pass_spec(
                    after_passes(content@, (done - 1) as nat).unwrap(),
                ) == Ok::<(Seq<u8>, bool), PluginError>((out@, true)));
            }
            return Ok((out, true));
        }
        cur = out;
    }
    proof {
        assert(false);
    }
    Err(PluginError::ConfigParse)
}

/// The tabs preprocessor: one value per run of the host pipeline, holding no
/// state of its own.
pub struct TabsPreprocessor;

impl TabsPreprocessor {
    /// A fresh preprocessor.
    pub fn new() -> (r: TabsPreprocessor)
        ensures
            r == TabsPreprocessor,
    {
        TabsPreprocessor
    }
}

impl Default for TabsPreprocessor {
    fn default() -> (r: Self)
        ensures
            r == TabsPreprocessor,
    {
        TabsPreprocessor::new()
    }
}

} // verus!
