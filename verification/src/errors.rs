//! The error taxonomy of the crate.
//!
//! Every failure of matching, structuring or rewriting is one of these
//! variants; all abort processing of the current chapter and propagate to the
//! caller unchanged.

use vstd::prelude::*;

verus! {

/// What can go wrong while matching blocks, parsing directive configuration,
/// or applying replacements.
#[derive(Clone, Copy, Debug, PartialEq, Eq, Structural)]
pub enum PluginError {
    /// A start token was seen while a block was already open, in the mode
    /// that does not skip nested blocks.
    NestedBlock,
    /// A marker line's payload does not parse as a configuration record.
    ConfigParse,
    /// A replacement range became negative after offset correction.
    OffsetUnderflow,
    /// A replacement range does not lie inside the buffer it is applied to.
    SpanOutOfBounds,
}

impl PluginError {
    /// A human-readable description of the error.
    pub fn message(&self) -> (r: String)
        ensures
            *self == PluginError::NestedBlock ==> r@
                == "Block is not closed. Nested blocks are not allowed."@,
            *self == PluginError::ConfigParse ==> r@
                == "Directive configuration could not be parsed."@,
            *self == PluginError::OffsetUnderflow ==> r@ == "Negative replacement range."@,
            *self == PluginError::SpanOutOfBounds ==> r@
                == "Replacement range is out of bounds."@,
    {
        match self {
            PluginError::NestedBlock => "Block is not closed. Nested blocks are not allowed."
                .to_owned(),
            PluginError::ConfigParse => "Directive configuration could not be parsed.".to_owned(),
            PluginError::OffsetUnderflow => "Negative replacement range.".to_owned(),
            PluginError::SpanOutOfBounds => "Replacement range is out of bounds.".to_owned(),
        }
    }
}

} // verus!
