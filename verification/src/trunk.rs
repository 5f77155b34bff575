//! The embedded-build directive: definition fences and generated iframes.
//!
//! A definition is a fenced code block tagged `toml, trunk`; its inner span
//! is the TOML payload the host decodes into a `Config`. A generated iframe
//! carries the JSON-encoded configuration, HTML-entity-encoded, in its
//! `data-mdbook-trunk` attribute; `parse_iframes` recovers and decodes that
//! payload. Encoding and decoding of HTML entities is done by an outside
//! crate behind named, deterministic wrappers; the JSON and TOML codecs for
//! `Config` live with the host, which hands this module plain bytes.

use vstd::prelude::*;
use vstd::string::StringSliceAdditionalSpecFns;

use htmlentity::entity::{CharacterSet, EncodeType, ICodedDataTrait, decode, encode};

use crate::block::{BlockModel, blocks_bounded, match_tokens_spec, models, parse_blocks};
use crate::bytes::{find_from, find_sub, next_byte, slice_range, strip_prefix_rec, push_bytes};
use crate::config::{Config, ConfigModel, dest_name_spec};
use crate::errors::PluginError;
use crate::keyvalue::find_byte;
use crate::token::{BlockKind, Span};
use crate::tokenizer::tokens_of;

verus! {

/// What the outside entity encoder produces for the given bytes, with named
/// entities over the special characters. A function of the bytes alone.
pub uninterp spec fn entity_encoded(s: Seq<u8>) -> Seq<u8>;

/// What the outside entity decoder produces for the given bytes. A function
/// of the bytes alone.
pub uninterp spec fn entity_decoded(s: Seq<u8>) -> Seq<u8>;

/// Relies on htmlentity's `encode` with named entities over the special
/// characters, and `to_bytes`: the result depends on the input bytes alone.
#[verifier::external_body]
fn entity_encode(b: &[u8]) -> (r: Vec<u8>)
    ensures
        r@ == entity_encoded(b@),
{
    encode(b, &EncodeType::Named, &CharacterSet::SpecialChars).to_bytes()
}

/// Relies on htmlentity's `decode` and `to_bytes`: the result depends on the
/// input bytes alone.
#[verifier::external_body]
fn entity_decode(b: &[u8]) -> (r: Vec<u8>)
    ensures
        r@ == entity_decoded(b@),
{
    decode(b).to_bytes()
}

/// The definition payloads of the closed blocks of `bs[i..]`: each block's
/// span with the bytes of its inner span. Open blocks are skipped.
pub open spec fn defs_of(text: Seq<u8>, bs: Seq<BlockModel>, i: int) -> Seq<(Span, Seq<u8>)>
    decreases bs.len() - i,
{
    if i < 0 || i >= bs.len() {
        Seq::empty()
    } else {
        let b = bs[i];
        if !b.closed {
            defs_of(text, bs, i + 1)
        } else {
            seq![
                (b.span, text.subrange(b.inner_span.start as int, b.inner_span.end as int)),
            ] + defs_of(text, bs, i + 1)
        }
    }
}

/// The spans and TOML payloads of the embedded-build definitions in `text`.
pub open spec fn definitions_spec(text: Seq<u8>) -> Result<Seq<(Span, Seq<u8>)>, PluginError> {
    match match_tokens_spec(BlockKind::DefinitionFence, false, tokens_of(text)) {
        Ok(bs) => Ok(defs_of(text, bs, 0)),
        Err(e) => Err(e),
    }
}

/// The views of a payload list.
pub open spec fn payload_views(ps: Seq<(Span, Vec<u8>)>) -> Seq<(Span, Seq<u8>)> {
    ps.map_values(|p: (Span, Vec<u8>)| (p.0, p.1@))
}

/// Matches the definition fences of a chapter's text and returns, for each
/// closed one in source order, its full span and the bytes of its inner span
/// — the TOML payload of the definition. Open blocks are skipped.
#[verifier::loop_isolation(false)]
pub fn parse_definitions(content: &[u8]) -> (r: Result<Vec<(Span, Vec<u8>)>, PluginError>)
    ensures
        match r {
            Ok(ds) => definitions_spec(content@) == Ok::<Seq<(Span, Seq<u8>)>, PluginError>(
                payload_views(ds@),
            ),
            Err(e) => definitions_spec(content@) == Err::<Seq<(Span, Seq<u8>)>, PluginError>(e),
        },
{
    let kind = BlockKind::DefinitionFence;
    let blocks = match parse_blocks(content, &kind, false) {
        Ok(bs) => bs,
        Err(e) => {
            return Err(e);
        },
    };
    let ghost bmodels = models(blocks@);
    let ghost fullb = blocks@;
    let clen = content.len();
    let mut blocks = blocks;
    let mut out: Vec<(Span, Vec<u8>)> = Vec::new();
    proof {
        assert(payload_views(out@) =~= Seq::<(Span, Seq<u8>)>::empty());
    }
    while blocks.len() > 0
        invariant
            blocks@ == fullb.skip(fullb.len() - blocks@.len()),
            0 <= fullb.len() - blocks@.len() <= fullb.len(),
            bmodels.len() == fullb.len(),
            blocks_bounded(bmodels, content@.len() as int),
            defs_of(content@, bmodels, 0) == payload_views(out@) + defs_of(
                content@,
                bmodels,
                fullb.len() - blocks@.len(),
            ),
        decreases blocks@.len(),
    {
        let ghost j = fullb.len() - blocks@.len();
        let b = blocks.remove(0);
        proof {
            assert(blocks@ =~= fullb.skip(j + 1));
            assert(b == fullb[j]);
            assert(b@ == bmodels[j]);
            assert(crate::block::block_bounded(bmodels[j], content@.len() as int));
        }
        if !b.closed {
            continue ;
        }
        let payload = slice_range(content, b.inner_span.start, b.inner_span.end);
        let ghost prev = out@;
        out.push((b.span, payload));
        proof {
            let ghost item = (
                b@.span,
                content@.subrange(b@.inner_span.start as int, b@.inner_span.end as int),
            );
            assert(payload_views(out@) =~= payload_views(prev) + seq![item]);
            assert(defs_of(content@, bmodels, j) == seq![item] + defs_of(
                content@,
                bmodels,
                j + 1,
            ));
            assert(payload_views(out@) + defs_of(content@, bmodels, j + 1) =~= payload_views(
                prev,
            ) + defs_of(content@, bmodels, j));
        }
    }
    proof {
        assert(defs_of(content@, bmodels, bmodels.len() as int) =~= Seq::<
            (Span, Seq<u8>),
        >::empty());
        assert(payload_views(out@) =~= defs_of(content@, bmodels, 0));
    }
    Ok(out)
}

/// The decoded configuration payload of one iframe block's text: the bytes
/// of the `data-mdbook-trunk` attribute, entity-decoded. Fails with
/// `ConfigParse` when the attribute or its closing quote is missing.
pub open spec fn iframe_payload_spec(piece: Seq<u8>) -> Result<Seq<u8>, PluginError> {
    let m = "data-mdbook-trunk=\"".spec_bytes();
    let i = find_from(piece, m, 0);
    if i < 0 {
        Err(PluginError::ConfigParse)
    } else {
        let vstart = i + m.len();
        let q = next_byte(piece, 34, vstart);
        if q >= piece.len() {
            Err(PluginError::ConfigParse)
        } else {
            Ok(entity_decoded(piece.subrange(vstart, q)))
        }
    }
}

/// The iframe payloads of the closed blocks of `bs[i..]`: each block's span
/// with its decoded configuration payload. Open blocks are skipped; a block
/// whose span is not ordered is a `SpanOutOfBounds` error.
pub open spec fn iframes_of(text: Seq<u8>, bs: Seq<BlockModel>, i: int) -> Result<
    Seq<(Span, Seq<u8>)>,
    PluginError,
>
    decreases bs.len() - i,
{
    if i < 0 || i >= bs.len() {
        Ok(Seq::empty())
    } else {
        let b = bs[i];
        if !b.closed {
            iframes_of(text, bs, i + 1)
        } else if b.span.start > b.span.end {
            Err(PluginError::SpanOutOfBounds)
        } else {
            let piece = text.subrange(b.span.start as int, b.span.end as int);
            match iframe_payload_spec(piece) {
                Ok(payload) => match iframes_of(text, bs, i + 1) {
                    Ok(rest) => Ok(seq![(b.span, payload)] + rest),
                    Err(e) => Err(e),
                },
                Err(e) => Err(e),
            }
        }
    }
}

/// The spans and decoded configuration payloads of the generated iframes in
/// `text`.
pub open spec fn iframes_spec(text: Seq<u8>) -> Result<Seq<(Span, Seq<u8>)>, PluginError> {
    match match_tokens_spec(BlockKind::IframeHtml, false, tokens_of(text)) {
        Ok(bs) => iframes_of(text, bs, 0),
        Err(e) => Err(e),
    }
}

/// Matches the generated iframes of a rendered chapter and returns, for each
/// closed one in source order, its span and the entity-decoded bytes of its
/// `data-mdbook-trunk` attribute — the JSON payload of its configuration.
#[verifier::loop_isolation(false)]
pub fn parse_iframes(content: &[u8]) -> (r: Result<Vec<(Span, Vec<u8>)>, PluginError>)
    ensures
        match r {
            Ok(ps) => iframes_spec(content@) == Ok::<Seq<(Span, Seq<u8>)>, PluginError>(
                payload_views(ps@),
            ),
            Err(e) => iframes_spec(content@) == Err::<Seq<(Span, Seq<u8>)>, PluginError>(e),
        },
{
    let kind = BlockKind::IframeHtml;
    let blocks = match parse_blocks(content, &kind, false) {
        Ok(bs) => bs,
        Err(e) => {
            return Err(e);
        },
    };
    let ghost bmodels = models(blocks@);
    let ghost fullb = blocks@;
    let mut blocks = blocks;
    let mut out: Vec<(Span, Vec<u8>)> = Vec::new();
    proof {
        assert(payload_views(out@) =~= Seq::<(Span, Seq<u8>)>::empty());
    }
    while blocks.len() > 0
        invariant
            blocks@ == fullb.skip(fullb.len() - blocks@.len()),
            0 <= fullb.len() - blocks@.len() <= fullb.len(),
            bmodels.len() == fullb.len(),
            blocks_bounded(bmodels, content@.len() as int),
            match iframes_of(content@, bmodels, fullb.len() - blocks@.len()) {
                Ok(rest) => iframes_spec(content@) == Ok::<Seq<(Span, Seq<u8>)>, PluginError>(
                    payload_views(out@) + rest,
                ),
                Err(e) => iframes_spec(content@) == Err::<Seq<(Span, Seq<u8>)>, PluginError>(e),
            },
        decreases blocks@.len(),
    {
        let ghost j = fullb.len() - blocks@.len();
        let b = blocks.remove(0);
        proof {
            assert(blocks@ =~= fullb.skip(j + 1));
            assert(b == fullb[j]);
            assert(b@ == bmodels[j]);
            assert(crate::block::block_bounded(bmodels[j], content@.len() as int));
        }
        if !b.closed {
            continue ;
        }
        if b.span.start > b.span.end {
            return Err(PluginError::SpanOutOfBounds);
        }
        let piece = slice_range(content, b.span.start, b.span.end);
        let marker = "data-mdbook-trunk=\"".as_bytes();
        let marker_pos = match find_sub(piece.as_slice(), marker) {
            Some(i) => i,
            None => {
                return Err(PluginError::ConfigParse);
            },
        };
        let vstart = marker_pos + marker.len();
        let q = find_byte(piece.as_slice(), 34, vstart);
        if q >= piece.len() {
            return Err(PluginError::ConfigParse);
        }
        let raw = slice_range(piece.as_slice(), vstart, q);
        let payload = entity_decode(raw.as_slice());
        let ghost prev = out@;
        out.push((b.span, payload));
        proof {
            let ghost pc = content@.subrange(b@.span.start as int, b@.span.end as int);
            assert(piece@ == pc);
            assert(iframe_payload_spec(pc) == Ok::<Seq<u8>, PluginError>(payload@));
            let ghost item = (b@.span, entity_decoded(pc.subrange(vstart as int, q as int)));
            assert(payload_views(out@) =~= payload_views(prev) + seq![item]);
            let ghost rest = iframes_of(content@, bmodels, j + 1);
            match rest {
                Ok(rr) => {
                    assert(iframes_of(content@, bmodels, j) == Ok::<
                        Seq<(Span, Seq<u8>)>,
                        PluginError,
                    >(seq![item] + rr));
                    assert(payload_views(out@) + rr =~= payload_views(prev) + (seq![item] + rr));
                },
                Err(e) => {
                    assert(iframes_of(content@, bmodels, j) == Err::<
                        Seq<(Span, Seq<u8>)>,
                        PluginError,
                    >(e));
                },
            }
        }
    }
    proof {
        assert(iframes_of(content@, bmodels, bmodels.len() as int) == Ok::<
            Seq<(Span, Seq<u8>)>,
            PluginError,
        >(Seq::empty()));
        assert(payload_views(out@) + Seq::<(Span, Seq<u8>)>::empty() =~= payload_views(out@));
    }
    Ok(out)
}

/// The `?query` part of the iframe address: the query with its own leading
/// question marks stripped, behind one `?`; empty when absent.
pub open spec fn query_part_spec(q: Option<Seq<u8>>) -> Seq<u8> {
    match q {
        Some(v) => "?".spec_bytes() + strip_prefix_rec(v, "?".spec_bytes()),
        None => Seq::empty(),
    }
}

/// The `#fragment` part of the iframe address, likewise.
pub open spec fn fragment_part_spec(f: Option<Seq<u8>>) -> Seq<u8> {
    match f {
        Some(v) => "#".spec_bytes() + strip_prefix_rec(v, "#".spec_bytes()),
        None => Seq::empty(),
    }
}

/// The extra attributes of `al[i..]`, each `key="value"` with the value
/// entity-encoded, separated by spaces.
pub open spec fn attrs_from(al: Seq<(Seq<u8>, Seq<u8>)>, i: int) -> Seq<u8>
    decreases al.len() - i,
{
    if i < 0 || i >= al.len() {
        Seq::empty()
    } else {
        let one = al[i].0 + "=\"".spec_bytes() + entity_encoded(al[i].1) + "\"".spec_bytes();
        if i == al.len() - 1 {
            one
        } else {
            one + " ".spec_bytes() + attrs_from(al, i + 1)
        }
    }
}

/// The attribute part of the iframe element: a leading space and the joined
/// attributes when present, empty when absent.
pub open spec fn attrs_part_spec(a: Option<Seq<(Seq<u8>, Seq<u8>)>>) -> Seq<u8> {
    match a {
        Some(al) => " ".spec_bytes() + attrs_from(al, 0),
        None => Seq::empty(),
    }
}

/// The iframe element generated for configuration `c` whose JSON encoding is
/// `json`: the entity-encoded JSON in the `data-mdbook-trunk` attribute, the
/// address built from the destination name, query and fragment, and the
/// extra attributes.
pub open spec fn iframe_spec(c: ConfigModel, json: Seq<u8>) -> Seq<u8> {
    "<iframe data-mdbook-trunk=\"".spec_bytes() + entity_encoded(json)
        + "\" class=\"mdbook-trunk-iframe\" src=\"/".spec_bytes() + dest_name_spec(c)
        + "/index.html".spec_bytes() + query_part_spec(c.url_query) + fragment_part_spec(
        c.url_fragment,
    ) + "\" ".spec_bytes() + attrs_part_spec(c.attributes) + "></iframe>".spec_bytes()
}

/// Builds the iframe element for `config`, whose JSON encoding the caller
/// supplies as `config_json` — exactly `iframe_spec` of the two.
#[verifier::loop_isolation(false)]
pub fn iframe(config: &Config, config_json: &[u8]) -> (r: Vec<u8>)
    ensures
        r@ == iframe_spec(config@, config_json@),
{
    let mut out: Vec<u8> = Vec::new();
    push_bytes(&mut out, "<iframe data-mdbook-trunk=\"".as_bytes());
    let encoded = entity_encode(config_json);
    push_bytes(&mut out, encoded.as_slice());
    push_bytes(&mut out, "\" class=\"mdbook-trunk-iframe\" src=\"/".as_bytes());
    let dest = config.dest_name();
    push_bytes(&mut out, dest.as_slice());
    push_bytes(&mut out, "/index.html".as_bytes());
    match &config.url_query {
        Some(q) => {
            push_bytes(&mut out, "?".as_bytes());
            let stripped = crate::bytes::strip_prefix_all(q.as_slice(), "?".as_bytes());
            push_bytes(&mut out, stripped.as_slice());
        },
        None => {},
    }
    match &config.url_fragment {
        Some(f) => {
            push_bytes(&mut out, "#".as_bytes());
            let stripped = crate::bytes::strip_prefix_all(f.as_slice(), "#".as_bytes());
            push_bytes(&mut out, stripped.as_slice());
        },
        None => {},
    }
    push_bytes(&mut out, "\" ".as_bytes());
    match &config.attributes {
        Some(al) => {
            push_bytes(&mut out, " ".as_bytes());
            let ghost av = al@.map_values(|p: (Vec<u8>, Vec<u8>)| (p.0@, p.1@));
            let ghost head = out@;
            let mut i: usize = 0;
            while i < al.len()
                invariant
                    0 <= i <= av.len(),
                    av.len() == al@.len(),
                    head + attrs_from(av, 0) == out@ + attrs_from(av, i as int),
                decreases av.len() - i,
            {
                let ghost prev = out@;
                push_bytes(&mut out, al[i].0.as_slice());
                push_bytes(&mut out, "=\"".as_bytes());
                let enc = entity_encode(al[i].1.as_slice());
                push_bytes(&mut out, enc.as_slice());
                push_bytes(&mut out, "\"".as_bytes());
                if i + 1 < al.len() {
                    push_bytes(&mut out, " ".as_bytes());
                }
                proof {
                    assert(av[i as int] == (al@[i as int].0@, al@[i as int].1@));
                    if i + 1 < av.len() {
                        assert(prev + attrs_from(av, i as int) =~= out@ + attrs_from(av, i + 1));
                    } else {
                        assert(attrs_from(av, i + 1) =~= Seq::<u8>::empty());
                        assert(prev + attrs_from(av, i as int) =~= out@ + attrs_from(av, i + 1));
                    }
                }
                i = i + 1;
            }
            proof {
                assert(attrs_from(av, i as int) =~= Seq::<u8>::empty());
                assert(out@ =~= head + attrs_from(av, 0));
            }
        },
        None => {},
    }
    push_bytes(&mut out, "></iframe>".as_bytes());
    proof {
        assert(out@ =~= iframe_spec(config@, config_json@));
    }
    out
}

/// The embedded-build preprocessor: one value per run of the host pipeline,
/// holding no state of its own.
pub struct TrunkPreprocessor;

impl TrunkPreprocessor {
    /// A fresh preprocessor.
    pub fn new() -> (r: TrunkPreprocessor)
        ensures
            r == TrunkPreprocessor,
    {
        TrunkPreprocessor
    }
}

impl Default for TrunkPreprocessor {
    fn default() -> (r: Self)
        ensures
            r == TrunkPreprocessor,
    {
        TrunkPreprocessor::new()
    }
}

/// The embedded-build renderer: one value per run of the host pipeline,
/// holding no state of its own.
pub struct TrunkRenderer;

impl TrunkRenderer {
    /// A fresh renderer.
    pub fn new() -> (r: TrunkRenderer)
        ensures
            r == TrunkRenderer,
    {
        TrunkRenderer
    }
}

impl Default for TrunkRenderer {
    fn default() -> (r: Self)
        ensures
            r == TrunkRenderer,
    {
        TrunkRenderer::new()
    }
}

} // verus!
