//! Sizes and limits of the chunked allocator and of the tree.

use vstd::prelude::*;

verus! {

/// Every allocation is a multiple of this many bytes.
pub const ALIGNMENT: usize = 8;

/// The bits of a size that an aligned size has clear.
pub const ALIGN_MASK: usize = ALIGNMENT - 1;

/// No chunk is smaller than this.
pub const MIN_CHUNK_SIZE: usize = ALIGNMENT * 8;

/// No allocation is smaller than this.
pub const MIN_ALLOC_SIZE: usize = ALIGNMENT;

/// The chunk size for building a tree from a document of usual size.
pub const DEFAULT_DOM_CHUNK_SIZE: usize = 4096;

/// The smallest chunk size that a tree builder works with.
pub const DEFAULT_IKS_CHUNK_SIZE: usize = 256;

/// The buffer size for reading and writing files.
pub const FILE_BUFFER_SIZE: usize = 8192;

/// Room for this many attributes is set aside in a new node.
pub const INITIAL_ATTR_CAPACITY: usize = 8;

/// Room for this many children is set aside in a new node.
pub const INITIAL_CHILD_CAPACITY: usize = 4;

/// An allocator holds at most this many chunks unless it is told otherwise.
pub const MAX_CHUNKS: usize = 1024;

/// A chunk grows by this over [`CHUNK_GROWTH_DIVISOR`], that is by half.
pub const CHUNK_GROWTH_FACTOR: usize = 3;

/// See [`CHUNK_GROWTH_FACTOR`].
pub const CHUNK_GROWTH_DIVISOR: usize = 2;

} // verus!
