//! Limits on the markup.

use vstd::prelude::*;

verus! {

/// The longest entity name, in characters, that the tokenizer reads.
pub const MAX_ENTITY_LENGTH: usize = 8;

/// The most attributes a tag should have.
pub const MAX_ATTRIBUTES: usize = 32;

/// The longest tag name.
pub const MAX_TAG_LENGTH: usize = 256;

/// The longest attribute name.
pub const MAX_ATTR_NAME_LENGTH: usize = 128;

/// The longest attribute value.
pub const MAX_ATTR_VALUE_LENGTH: usize = 1024;

/// The deepest nesting of elements.
pub const MAX_NESTING_DEPTH: usize = 1000;

/// The longest character-data section.
pub const MAX_CDATA_LENGTH: usize = 1024 * 1024;

/// The longest comment.
pub const MAX_COMMENT_LENGTH: usize = 4096;

} // verus!
