//! An incremental XML tokenizer with a tree builder and a chunked string allocator.
//!
//! Input arrives in pieces of any size. The [`Parser`] turns it into tag and
//! character-data events for a [`SaxHandler`]; [`DomParser`] is the handler that
//! builds an [`IksNode`] tree, [`lint::TagHandler`] the one that counts what a
//! document holds. [`IksStack`] stores many short-lived strings in a few large
//! buffers.
//!
//! The tokenizer is verified against the mathematical model in [`sax`]. On that
//! model rest the laws of the library:
//! - input may be cut into pieces anywhere, and into any number of them
//!   ([`sax::lemma_run_pieces`] for the model, [`parser::lemma_pieces`] for what
//!   holds after the calls);
//! - text is read as its characters ([`chars::lemma_text_bytes`]);
//! - a tag becomes a child of the innermost open element at once
//!   ([`dom::lemma_tag_attaches`]);
//! - a tree that was written out is read back as the same tree
//!   ([`roundtrip::lemma_round_trip`]);
//! - unescaping undoes escaping ([`utility::lemma_unescape_escape`]);
//! - the allocator stays within its ceiling whatever is asked of it
//!   ([`ikstack::lemma_ceiling`]).

pub mod chars;
pub mod constants;
pub mod digest;
pub mod dom;
pub mod error;
pub mod helper;
pub mod ikstack;
pub mod lint;
pub mod node;
pub mod parser;
pub mod roundtrip;
pub mod sax;
pub mod shape;
pub mod text;
pub mod utility;

pub use crate::constants::{memory, xml};
pub use crate::dom::DomParser;
pub use crate::error::IksError;
pub use crate::helper::{align_size, calculate_chunk_growth, escape_size, unescape_size};
pub use crate::ikstack::{IksStack, Region};
pub use crate::node::{IksNode, IksType};
pub use crate::parser::{Parser, SaxHandler};
pub use crate::sax::TagType;
pub use crate::utility::{escape, str_casecmp, str_cat, str_dup, str_len, unescape};
