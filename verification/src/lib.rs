//! A balanced-block matcher and directive structurer for markdown chapters.
//!
//! The matcher recognizes custom block-level directives — tab groups written
//! as `{{#tabs}}` / `{{#endtabs}}` marker lines, embedded-build definitions
//! written as fenced code blocks — in a stream of tokenizer events tagged
//! with byte spans, tracking same-kind nesting either by skipping over it or
//! by failing. The structurer built on it recovers each directive's exact
//! source substring and inner content, parses its marker payload into a
//! typed configuration, and rewrites the chapter in place, correcting the
//! spans of later replacements for the length changes of earlier ones and
//! re-scanning until no nested directive remains.

pub mod block;
pub mod bytes;
pub mod config;
pub mod errors;
pub mod keyvalue;
pub mod laws;
pub mod render;
pub mod rewrite;
pub mod tabs;
pub mod token;
pub mod tokenizer;
pub mod trunk;
