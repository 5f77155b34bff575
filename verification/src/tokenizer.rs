//! The bridge to the external markdown tokenizer.
//!
//! The tokenizer is consumed as a black box that yields events together with
//! their byte spans in the source. Its output is a pure function of the input
//! bytes, so it is given a name, `tokens_of`, that the contracts of the
//! structurer speak of; nothing else is assumed of it beyond its spans lying
//! inside the source, which is how the crate documents its offset iterator.

use vstd::prelude::*;

use pulldown_cmark::{CodeBlockKind, Event, Parser, Tag, TagEnd};

use crate::token::{Span, Token};

verus! {

/// Declaration of pulldown-cmark's event type, so that it can stand in the
/// signature of the conversion below. Values of it are opaque here.
#[verifier::external_type_specification]
#[verifier::external_body]
pub struct ExEvent<'a>(Event<'a>);

/// Relies on pulldown-cmark's `Event` variants: maps each event this crate
/// reads onto its token alphabet, variant by variant, and everything else
/// onto `Token::Other`.
#[verifier::external_body]
fn token_of_event(event: Event<'_>) -> Token {
    match event {
        Event::Text(t) => Token::Text(t.as_bytes().to_vec()),
        Event::Html(h) => Token::Html(h.as_bytes().to_vec()),
        Event::SoftBreak => Token::SoftBreak,
        Event::Start(Tag::CodeBlock(CodeBlockKind::Fenced(info))) => Token::CodeBlockStart(
            info.as_bytes().to_vec(),
        ),
        Event::Start(Tag::Emphasis) => Token::EmphasisStart,
        Event::Start(Tag::Strong) => Token::StrongStart,
        Event::End(TagEnd::CodeBlock) => Token::CodeBlockEnd,
        Event::End(TagEnd::Emphasis) => Token::EmphasisEnd,
        Event::End(TagEnd::Strong) => Token::StrongEnd,
        Event::End(TagEnd::HtmlBlock) => Token::HtmlBlockEnd,
        _ => Token::Other,
    }
}

/// The token stream the external tokenizer produces for `text`, with each
/// token's byte span. A pure function of the bytes alone.
pub uninterp spec fn tokens_of(text: Seq<u8>) -> Seq<(Token, Span)>;

/// Relies on pulldown-cmark's `Parser::new` and `into_offset_iter`: the
/// events are produced deterministically from the text alone, and each comes
/// with its byte range in that source, so every span lies inside it.
#[verifier::external_body]
pub(crate) fn tokenize(content: &[u8]) -> (r: Vec<(Token, Span)>)
    ensures
        r@ == tokens_of(content@),
        forall|i: int|
            0 <= i < r@.len() ==> (#[trigger] r@[i]).1.start <= r@[i].1.end && r@[i].1.end
                <= content@.len(),
{
    let text = core::str::from_utf8(content).unwrap_or("");
    let mut out: Vec<(Token, Span)> = Vec::new();
    for (event, range) in Parser::new(text).into_offset_iter() {
        out.push((token_of_event(event), Span { start: range.start, end: range.end }));
    }
    out
}

} // verus!
