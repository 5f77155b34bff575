//! The token alphabet the matcher works over, and the directive kinds whose
//! start/end predicates classify tokens.
//!
//! Tokens come from an external markdown tokenizer; each carries a `Span`,
//! a half-open byte range into the text the tokenizer ran over. The matcher
//! itself places no constraint on the alphabet beyond what the predicates of
//! a `BlockKind` read.

use vstd::prelude::*;
use vstd::string::StringSliceAdditionalSpecFns;

use crate::bytes::{contains_seq, fence_tags, is_prefix_of, is_seq_prefix, views};
use crate::bytes::{contains_bytes, fence_tag_list, starts_with, bytes_eq};

verus! {

/// A half-open byte range `[start, end)` into one specific text snapshot.
#[derive(Clone, Copy, Debug, PartialEq, Eq, Structural)]
pub struct Span {
    pub start: usize,
    pub end: usize,
}

impl Span {
    /// The empty range at offset zero, the placeholder for "no inner text".
    pub fn zero() -> (r: Span)
        ensures
            r == (Span { start: 0usize, end: 0usize }),
    {
        Span { start: 0, end: 0 }
    }
}

/// One semantic unit from the external tokenizer, reduced to what the
/// directive predicates and the structurer read: marker text, fence info
/// strings, raw HTML, and the delimiters the predicates recognize. Everything
/// else is `Other`.
#[derive(Clone, Debug, PartialEq, Eq)]
pub enum Token {
    /// A plain text segment, with its bytes.
    Text(Vec<u8>),
    /// Start of a fenced code block, with the bytes of its info string.
    CodeBlockStart(Vec<u8>),
    /// End of a code block.
    CodeBlockEnd,
    /// An HTML block or fragment, with its bytes.
    Html(Vec<u8>),
    /// End of an HTML block.
    HtmlBlockEnd,
    /// Start of emphasis.
    EmphasisStart,
    /// Start of strong emphasis.
    StrongStart,
    /// End of emphasis.
    EmphasisEnd,
    /// End of strong emphasis.
    StrongEnd,
    /// A soft line break inside a paragraph.
    SoftBreak,
    /// Any token the predicates have no interest in.
    Other,
}

/// A directive kind: a pair of predicates classifying tokens as the start or
/// the end of one kind of block. Predicates are pure; where both would hold
/// for one token, the start interpretation wins, because the matcher tests
/// `is_start` first.
#[derive(Clone, Debug, PartialEq, Eq)]
pub enum BlockKind {
    /// A tab group: text markers opening with `{{#tabs` and closing with
    /// `{{#endtabs`.
    Tabs,
    /// A single tab inside a group: `{{#tab` / `{{#endtab` text markers.
    Tab,
    /// Generic text markers: a text token starting with `open` starts a
    /// block, one starting with `close` ends it.
    TextMarker { open: Vec<u8>, close: Vec<u8> },
    /// A fenced code block whose normalized tag list starts with `tags`;
    /// any code block end token closes it.
    FencedCode { tags: Vec<Vec<u8>> },
    /// A fenced code block holding an embedded-build definition: its first
    /// two normalized tags are `toml` and `trunk`.
    DefinitionFence,
    /// Emphasis or strong emphasis, either one, as one kind.
    EmphasisOrStrong,
    /// An HTML block holding an embedded-build iframe; any HTML block end
    /// token closes it.
    IframeHtml,
}

impl BlockKind {
    /// What `is_start` holds of.
    pub open spec fn spec_is_start(self, t: Token) -> bool {
        match self {
            BlockKind::Tabs => match t {
                Token::Text(v) => is_prefix_of("{{#tabs".spec_bytes(), v@) && !contains_seq(
                    v@,
                    "{{#endtabs".spec_bytes(),
                ),
                _ => false,
            },
            BlockKind::Tab => match t {
                Token::Text(v) => v@ == "{{#tab}}".spec_bytes() || is_prefix_of("{{#tab ".spec_bytes(), v@),
                _ => false,
            },
            BlockKind::TextMarker { open, close: _ } => match t {
                Token::Text(v) => is_prefix_of(open@, v@),
                _ => false,
            },
            BlockKind::FencedCode { tags } => match t {
                Token::CodeBlockStart(info) => is_seq_prefix(views(tags@), fence_tags(info@)),
                _ => false,
            },
            BlockKind::DefinitionFence => match t {
                Token::CodeBlockStart(info) => {
                    let ts = fence_tags(info@);
                    ts.len() >= 2 && ts[0] == "toml".spec_bytes() && ts[1]
                        == "trunk".spec_bytes()
                },
                _ => false,
            },
            BlockKind::EmphasisOrStrong => t == Token::EmphasisStart || t == Token::StrongStart,
            BlockKind::IframeHtml => match t {
                Token::Html(v) => contains_seq(v@, "<iframe data-mdbook-trunk=\"".spec_bytes()),
                _ => false,
            },
        }
    }

    /// What `is_end` holds of.
    pub open spec fn spec_is_end(self, t: Token) -> bool {
        match self {
            BlockKind::Tabs => match t {
                Token::Text(v) => (v@ == "{{#endtabs}}".spec_bytes() || is_prefix_of("{{#endtabs ".spec_bytes(), v@))
                    && !contains_seq(v@, "{{#tabs ".spec_bytes()),
                _ => false,
            },
            BlockKind::Tab => match t {
                Token::Text(v) => v@ == "{{#endtab}}".spec_bytes() || is_prefix_of("{{#endtab ".spec_bytes(), v@),
                _ => false,
            },
            BlockKind::TextMarker { open: _, close } => match t {
                Token::Text(v) => is_prefix_of(close@, v@),
                _ => false,
            },
            BlockKind::FencedCode { tags: _ } => t == Token::CodeBlockEnd,
            BlockKind::DefinitionFence => t == Token::CodeBlockEnd,
            BlockKind::EmphasisOrStrong => t == Token::EmphasisEnd || t == Token::StrongEnd,
            BlockKind::IframeHtml => t == Token::HtmlBlockEnd,
        }
    }

    /// Whether `t` opens a block of this kind.
    pub fn is_start(&self, t: &Token) -> (r: bool)
        ensures
            r == self.spec_is_start(*t),
    {
        match self {
            BlockKind::Tabs => match t {
                Token::Text(v) => starts_with(v.as_slice(), "{{#tabs".as_bytes()) && !contains_bytes(
                    v.as_slice(),
                    "{{#endtabs".as_bytes(),
                ),
                _ => false,
            },
            BlockKind::Tab => match t {
                Token::Text(v) => bytes_eq(v.as_slice(), "{{#tab}}".as_bytes()) || starts_with(
                    v.as_slice(),
                    "{{#tab ".as_bytes(),
                ),
                _ => false,
            },
            BlockKind::TextMarker { open, close: _ } => match t {
                Token::Text(v) => starts_with(v.as_slice(), open.as_slice()),
                _ => false,
            },
            BlockKind::FencedCode { tags } => match t {
                Token::CodeBlockStart(info) => tag_list_matches(info, tags),
                _ => false,
            },
            BlockKind::DefinitionFence => match t {
                Token::CodeBlockStart(info) => {
                    let parsed = fence_tag_list(info.as_slice());
                    crate::config::is_tags(&parsed)
                },
                _ => false,
            },
            BlockKind::EmphasisOrStrong => match t {
                Token::EmphasisStart => true,
                Token::StrongStart => true,
                _ => false,
            },
            BlockKind::IframeHtml => match t {
                Token::Html(v) => contains_bytes(v.as_slice(), "<iframe data-mdbook-trunk=\"".as_bytes()),
                _ => false,
            },
        }
    }

    /// Whether `t` closes a block of this kind.
    pub fn is_end(&self, t: &Token) -> (r: bool)
        ensures
            r == self.spec_is_end(*t),
    {
        match self {
            BlockKind::Tabs => match t {
                Token::Text(v) => (bytes_eq(v.as_slice(), "{{#endtabs}}".as_bytes()) || starts_with(
                    v.as_slice(),
                    "{{#endtabs ".as_bytes(),
                )) && !contains_bytes(v.as_slice(), "{{#tabs ".as_bytes()),
                _ => false,
            },
            BlockKind::Tab => match t {
                Token::Text(v) => bytes_eq(v.as_slice(), "{{#endtab}}".as_bytes()) || starts_with(
                    v.as_slice(),
                    "{{#endtab ".as_bytes(),
                ),
                _ => false,
            },
            BlockKind::TextMarker { open: _, close } => match t {
                Token::Text(v) => starts_with(v.as_slice(), close.as_slice()),
                _ => false,
            },
            BlockKind::FencedCode { tags: _ } => match t {
                Token::CodeBlockEnd => true,
                _ => false,
            },
            BlockKind::DefinitionFence => match t {
                Token::CodeBlockEnd => true,
                _ => false,
            },
            BlockKind::EmphasisOrStrong => match t {
                Token::EmphasisEnd => true,
                Token::StrongEnd => true,
                _ => false,
            },
            BlockKind::IframeHtml => match t {
                Token::HtmlBlockEnd => true,
                _ => false,
            },
        }
    }
}

/// Whether the normalized tag list of `info` has `tags` as a prefix.
fn tag_list_matches(info: &Vec<u8>, tags: &Vec<Vec<u8>>) -> (r: bool)
    ensures
        r == is_seq_prefix(views(tags@), fence_tags(info@)),
{
    let parsed = fence_tag_list(info.as_slice());
    if tags.len() > parsed.len() {
        assert(views(tags@).len() == tags@.len());
        return false;
    }
    let mut i: usize = 0;
    while i < tags.len()
        invariant
            0 <= i <= tags@.len() <= parsed@.len(),
            views(parsed@) == fence_tags(info@),
            forall|j: int| 0 <= j < i ==> views(parsed@)[j] == views(tags@)[j],
        decreases tags@.len() - i,
    {
        if !bytes_eq(parsed[i].as_slice(), tags[i].as_slice()) {
            assert(views(parsed@)[i as int] != views(tags@)[i as int]);
            assert(!is_seq_prefix(views(tags@), fence_tags(info@))) by {
                if is_seq_prefix(views(tags@), fence_tags(info@)) {
                    assert(fence_tags(info@).subrange(0, views(tags@).len() as int)[i as int]
                        == views(tags@)[i as int]);
                }
            }
            return false;
        }
        i = i + 1;
    }
    assert(fence_tags(info@).subrange(0, views(tags@).len() as int) =~= views(tags@));
    true
}

} // verus!
