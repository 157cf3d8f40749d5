//! The chunked allocator: many small regions in a few large buffers.
//!
//! A region is handed out once and never taken back. All regions go together,
//! when the allocator goes.

use vstd::prelude::*;
use vstd::string::StringSliceAdditionalSpecFns;
use crate::constants::memory::{ALIGN_MASK, MAX_CHUNKS, MIN_ALLOC_SIZE, MIN_CHUNK_SIZE};
use crate::error::IksError;
use crate::helper::{align_size, aligned};

verus! {

/// A piece of a chunk that the allocator has handed out.
#[derive(Debug, Clone, Copy, PartialEq, Eq, Structural)]
pub struct Region {
    /// The place of the chunk among the allocator's chunks.
    pub chunk: usize,
    /// Where in the chunk the region begins.
    pub offset: usize,
    /// How many bytes the region has: what was asked for, rounded up.
    pub size: usize,
}

/// One buffer of the allocator.
struct Chunk {
    data: Vec<u8>,
    used: usize,
    is_data: bool,
}

/// A chunk as mathematics.
pub struct ChunkModel {
    /// The whole buffer; its length is the capacity of the chunk.
    pub bytes: Seq<u8>,
    /// How many bytes, from the start, are handed out.
    pub used: nat,
    /// Whether the chunk serves text; otherwise it serves structure.
    pub is_data: bool,
}

/// The allocator as mathematics.
pub struct StackModel {
    pub chunks: Seq<ChunkModel>,
    /// The size of a new chunk for structure.
    pub meta_size: usize,
    /// The size of a new chunk for text.
    pub data_size: usize,
    /// The allocator never holds more chunks than this.
    pub max_chunks: usize,
    /// The allocator's count of the bytes that its chunks reserve.
    pub allocated: usize,
}

/// An allocator of regions, for structure and for text.
pub struct IksStack {
    chunks: Vec<Chunk>,
    meta_size: usize,
    data_size: usize,
    allocated: usize,
    max_chunks: usize,
}

/// All bytes that the chunks reserve.
pub open spec fn reserved(chunks: Seq<ChunkModel>) -> nat
    decreases chunks.len(),
{
    if chunks.len() == 0 {
        0
    } else {
        reserved(chunks.drop_last()) + chunks.last().bytes.len()
    }
}

/// All bytes of the chunks that are handed out.
pub open spec fn in_use(chunks: Seq<ChunkModel>) -> nat
    decreases chunks.len(),
{
    if chunks.len() == 0 {
        0
    } else {
        in_use(chunks.drop_last()) + chunks.last().used
    }
}

/// No chunk has handed out more than it has, there are no more chunks than
/// there may be, and the count of what they reserve is right.
pub open spec fn well_formed(stack: StackModel) -> bool {
    &&& stack.chunks.len() <= stack.max_chunks
    &&& stack.allocated == reserved(stack.chunks)
    &&& forall|i: int|
        0 <= i < stack.chunks.len() ==> (#[trigger] stack.chunks[i]).used
            <= stack.chunks[i].bytes.len()
}

/// The size of a chunk that is asked to hold `wanted` bytes: at least the
/// smallest chunk, rounded up to the alignment, and no more than fits the
/// machine word.
pub open spec fn chunk_size(wanted: usize) -> usize {
    if wanted + ALIGN_MASK > usize::MAX {
        (usize::MAX - ALIGN_MASK) as usize
    } else if wanted < MIN_CHUNK_SIZE {
        MIN_CHUNK_SIZE
    } else {
        aligned(wanted as int) as usize
    }
}

/// The size of the region for a request of `size` bytes: at least the
/// smallest region, rounded up to the alignment.
pub open spec fn region_size(size: usize) -> int {
    if size < MIN_ALLOC_SIZE {
        MIN_ALLOC_SIZE as int
    } else {
        aligned(size as int)
    }
}

/// Whether the chunk is of the kind asked for and has `request` bytes left.
pub open spec fn fits(chunk: ChunkModel, request: int, is_data: bool) -> bool {
    chunk.is_data == is_data && chunk.bytes.len() - chunk.used >= request
}

/// The place of the first chunk that fits; the number of chunks where none
/// does.
pub open spec fn first_fit(chunks: Seq<ChunkModel>, request: int, is_data: bool) -> int
    decreases chunks.len(),
{
    if chunks.len() == 0 {
        0
    } else if fits(chunks[0], request, is_data) {
        0
    } else {
        1 + first_fit(chunks.skip(1), request, is_data)
    }
}

/// A buffer of `len` zero bytes.
pub open spec fn zeros(len: int) -> Seq<u8> {
    Seq::new(len as nat, |i: int| 0u8)
}

/// The size of a new chunk that must hold `request` bytes.
pub open spec fn new_chunk_size(stack: StackModel, request: int, is_data: bool) -> int {
    let usual = if is_data {
        stack.data_size
    } else {
        stack.meta_size
    };
    if usual > request {
        usual as int
    } else {
        request
    }
}

/// What a request for `size` bytes comes to: the region and the allocator
/// after it, or `NoMem` and the allocator as it was.
///
/// The region lies in the first chunk of its kind that has room. Where none
/// has, a new chunk is made, unless there are as many chunks as there may be,
/// or the sizes do not fit the machine word.
pub open spec fn alloc_step(stack: StackModel, size: usize, is_data: bool) -> (
    Result<Region, IksError>,
    StackModel,
) {
    let request = region_size(size);
    let place = first_fit(stack.chunks, request, is_data);
    let fresh = new_chunk_size(stack, request, is_data);
    if size + ALIGN_MASK > usize::MAX {
        (Err(IksError::NoMem), stack)
    } else if place < stack.chunks.len() {
        (
            Ok(
                Region {
                    chunk: place as usize,
                    offset: stack.chunks[place].used as usize,
                    size: request as usize,
                },
            ),
            StackModel {
                chunks: stack.chunks.update(
                    place,
                    ChunkModel {
                        used: (stack.chunks[place].used + request) as nat,
                        ..stack.chunks[place]
                    },
                ),
                ..stack
            },
        )
    } else if stack.chunks.len() >= stack.max_chunks || stack.allocated + fresh > usize::MAX {
        (Err(IksError::NoMem), stack)
    } else {
        (
            Ok(Region { chunk: stack.chunks.len() as usize, offset: 0, size: request as usize }),
            StackModel {
                chunks: stack.chunks.push(
                    ChunkModel { bytes: zeros(fresh), used: request as nat, is_data },
                ),
                allocated: (stack.allocated + fresh) as usize,
                ..stack
            },
        )
    }
}

/// Whether the region lies within what a chunk of the allocator has handed
/// out.
pub open spec fn holds(stack: StackModel, region: Region) -> bool {
    &&& region.chunk < stack.chunks.len()
    &&& region.offset + region.size <= stack.chunks[region.chunk as int].used
}

/// The bytes of the region.
pub open spec fn region_bytes(stack: StackModel, region: Region) -> Seq<u8> {
    stack.chunks[region.chunk as int].bytes.subrange(
        region.offset as int,
        region.offset + region.size,
    )
}

/// How many bytes stand before the first zero byte; all of them where there
/// is none.
pub open spec fn text_len(bytes: Seq<u8>) -> nat
    decreases bytes.len(),
{
    if bytes.len() == 0 || bytes[0] == 0 {
        0
    } else {
        1 + text_len(bytes.skip(1))
    }
}

/// The text in the region: its bytes up to the first zero byte.
pub open spec fn region_text(stack: StackModel, region: Region) -> Seq<u8> {
    region_bytes(stack, region).take(text_len(region_bytes(stack, region)) as int)
}

/// The buffer with `text` and a zero byte after it written at `at`.
pub open spec fn written(bytes: Seq<u8>, at: int, text: Seq<u8>) -> Seq<u8> {
    Seq::new(
        bytes.len(),
        |i: int|
            if at <= i < at + text.len() {
                text[i - at]
            } else if i == at + text.len() {
                0u8
            } else {
                bytes[i]
            },
    )
}

/// What storing `text` comes to: a region of its own that holds the text and
/// a zero byte after it, or `NoMem`.
pub open spec fn store_step(stack: StackModel, text: Seq<u8>, is_data: bool) -> (
    Result<Region, IksError>,
    StackModel,
) {
    if text.len() >= usize::MAX {
        (Err(IksError::NoMem), stack)
    } else {
        let made = alloc_step(stack, (text.len() + 1) as usize, is_data);
        match made.0 {
            Ok(region) => (
                made.0,
                StackModel {
                    chunks: made.1.chunks.update(
                        region.chunk as int,
                        ChunkModel {
                            bytes: written(
                                made.1.chunks[region.chunk as int].bytes,
                                region.offset as int,
                                text,
                            ),
                            ..made.1.chunks[region.chunk as int]
                        },
                    ),
                    ..made.1
                },
            ),
            Err(_) => made,
        }
    }
}

/// [`first_fit`] is the place of the first chunk that fits.
pub proof fn lemma_first_fit(chunks: Seq<ChunkModel>, request: int, is_data: bool)
    ensures
        0 <= first_fit(chunks, request, is_data) <= chunks.len(),
        first_fit(chunks, request, is_data) < chunks.len() ==> fits(
            chunks[first_fit(chunks, request, is_data)],
            request,
            is_data,
        ),
        forall|i: int|
            0 <= i < first_fit(chunks, request, is_data) ==> !fits(
                #[trigger] chunks[i],
                request,
                is_data,
            ),
    decreases chunks.len(),
{
    if chunks.len() > 0 && !fits(chunks[0], request, is_data) {
        lemma_first_fit(chunks.skip(1), request, is_data);
        assert forall|i: int| 0 <= i < first_fit(chunks, request, is_data) implies !fits(
            #[trigger] chunks[i],
            request,
            is_data,
        ) by {
            if i > 0 {
                assert(chunks.skip(1)[i - 1] == chunks[i]);
            }
        }
    }
}

/// A chunk that hands out more changes neither what the chunks reserve nor
/// anything but its own share of what is in use.
pub proof fn lemma_sums_update(chunks: Seq<ChunkModel>, place: int, chunk: ChunkModel)
    requires
        0 <= place < chunks.len(),
        chunk.bytes.len() == chunks[place].bytes.len(),
    ensures
        reserved(chunks.update(place, chunk)) == reserved(chunks),
        in_use(chunks.update(place, chunk)) == in_use(chunks) - chunks[place].used + chunk.used,
    decreases chunks.len(),
{
    let after = chunks.update(place, chunk);
    if place == chunks.len() - 1 {
        assert(after.drop_last() =~= chunks.drop_last());
    } else {
        lemma_sums_update(chunks.drop_last(), place, chunk);
        assert(after.drop_last() =~= chunks.drop_last().update(place, chunk));
    }
}

/// What is in use is part of what is reserved, for the first chunks as for
/// all of them.
pub proof fn lemma_sums_bounded(chunks: Seq<ChunkModel>, upto: int)
    requires
        0 <= upto <= chunks.len(),
        forall|i: int| 0 <= i < chunks.len() ==> (#[trigger] chunks[i]).used <= chunks[i].bytes.len(),
    ensures
        in_use(chunks.take(upto)) <= reserved(chunks.take(upto)) <= reserved(chunks),
    decreases chunks.len(),
{
    if chunks.len() == 0 {
        assert(chunks.take(upto) =~= chunks);
    } else if upto == chunks.len() {
        assert(chunks.take(upto) =~= chunks);
        lemma_sums_bounded(chunks.drop_last(), upto - 1);
        assert(chunks.drop_last().take(upto - 1) =~= chunks.drop_last());
    } else {
        lemma_sums_bounded(chunks.drop_last(), upto);
        assert(chunks.drop_last().take(upto) =~= chunks.take(upto));
    }
}

/// The ceiling holds: a request never leaves the allocator with more chunks
/// than it may have, and where no chunk has room and the allocator has all
/// the chunks it may have, the request fails with `NoMem`.
pub proof fn lemma_alloc_ceiling(stack: StackModel, size: usize, is_data: bool)
    requires
        well_formed(stack),
    ensures
        well_formed(alloc_step(stack, size, is_data).1),
        alloc_step(stack, size, is_data).1.chunks.len() <= stack.max_chunks,
        first_fit(stack.chunks, region_size(size), is_data) == stack.chunks.len()
            && stack.chunks.len() == stack.max_chunks ==> alloc_step(stack, size, is_data).0
            == Err::<Region, IksError>(IksError::NoMem) && alloc_step(stack, size, is_data).1
            == stack,
{
    let request = region_size(size);
    let place = first_fit(stack.chunks, request, is_data);
    lemma_first_fit(stack.chunks, request, is_data);
    let after = alloc_step(stack, size, is_data).1;
    if size + ALIGN_MASK > usize::MAX {
    } else if place < stack.chunks.len() {
        lemma_sums_update(stack.chunks, place, after.chunks[place]);
    } else if stack.chunks.len() >= stack.max_chunks || stack.allocated + new_chunk_size(
        stack,
        request,
        is_data,
    ) > usize::MAX {
    } else {
        assert(after.chunks.drop_last() =~= stack.chunks);
    }
}

/// Nothing is taken back: every chunk that was there is still there, as large
/// as it was, and has handed out no less than it had.
pub open spec fn grown_from(before: StackModel, after: StackModel) -> bool {
    &&& before.chunks.len() <= after.chunks.len()
    &&& forall|i: int|
        0 <= i < before.chunks.len() ==> {
            &&& (#[trigger] after.chunks[i]).bytes.len() == before.chunks[i].bytes.len()
            &&& after.chunks[i].used >= before.chunks[i].used
            &&& after.chunks[i].is_data == before.chunks[i].is_data
        }
}

/// A request takes nothing back, and leaves every region that was handed out
/// before where it was, with the bytes it had.
pub proof fn lemma_alloc_keeps(stack: StackModel, size: usize, is_data: bool, region: Region)
    requires
        well_formed(stack),
        holds(stack, region),
    ensures
        grown_from(stack, alloc_step(stack, size, is_data).1),
        holds(alloc_step(stack, size, is_data).1, region),
        region_bytes(alloc_step(stack, size, is_data).1, region) == region_bytes(stack, region),
{
    lemma_first_fit(stack.chunks, region_size(size), is_data);
}

/// Storing text takes nothing back, and leaves every region that was handed
/// out before where it was, with the bytes it had: the text goes where
/// nothing was handed out yet.
pub proof fn lemma_store_keeps(stack: StackModel, text: Seq<u8>, is_data: bool, region: Region)
    requires
        well_formed(stack),
        holds(stack, region),
    ensures
        grown_from(stack, store_step(stack, text, is_data).1),
        holds(store_step(stack, text, is_data).1, region),
        region_bytes(store_step(stack, text, is_data).1, region) == region_bytes(stack, region),
{
    if text.len() < usize::MAX {
        let size = (text.len() + 1) as usize;
        lemma_first_fit(stack.chunks, region_size(size), is_data);
        lemma_alloc_keeps(stack, size, is_data, region);
        let made = alloc_step(stack, size, is_data);
        if made.0 is Ok {
            let fresh = made.0->Ok_0;
            let after = store_step(stack, text, is_data).1;
            let place = region.chunk as int;
            if fresh.chunk == region.chunk {
                assert(fresh.chunk < stack.chunks.len());
                lemma_chunk_bounded(stack.chunks, place);
                assert(fresh.offset == stack.chunks[place].used);
                assert(after.chunks[place].bytes == written(
                    made.1.chunks[place].bytes,
                    fresh.offset as int,
                    text,
                ));
                assert forall|j: int| 0 <= j < region.size implies region_bytes(after, region)[j]
                    == region_bytes(made.1, region)[j] by {
                    assert(region.offset + j < fresh.offset);
                }
            }
            assert(region_bytes(after, region) =~= region_bytes(made.1, region));
        }
    }
}

/// The text that was stored is the text of its region, as long as it holds no
/// zero byte.
pub proof fn lemma_store_text(stack: StackModel, text: Seq<u8>, is_data: bool)
    requires
        well_formed(stack),
        forall|i: int| 0 <= i < text.len() ==> #[trigger] text[i] != 0,
    ensures
        store_step(stack, text, is_data).0 matches Ok(region) ==> region_text(
            store_step(stack, text, is_data).1,
            region,
        ) == text,
{
    if text.len() < usize::MAX {
        let size = (text.len() + 1) as usize;
        lemma_first_fit(stack.chunks, region_size(size), is_data);
        let made = alloc_step(stack, size, is_data);
        if made.0 is Ok {
            let region = made.0->Ok_0;
            let after = store_step(stack, text, is_data).1;
            let bytes = region_bytes(after, region);
            assert(bytes.len() == region.size);
            assert(text.len() < bytes.len());
            assert forall|i: int| 0 <= i < text.len() implies bytes[i] == text[i] by {}
            assert(bytes[text.len() as int] == 0);
            lemma_text_len(bytes, text.len() as int);
            assert(bytes.take(text.len() as int) =~= text);
        }
    }
}

/// No chunk is larger than all chunks together.
pub proof fn lemma_chunk_bounded(chunks: Seq<ChunkModel>, place: int)
    requires
        0 <= place < chunks.len(),
    ensures
        chunks[place].bytes.len() <= reserved(chunks),
    decreases chunks.len(),
{
    if place < chunks.len() - 1 {
        lemma_chunk_bounded(chunks.drop_last(), place);
    }
}

/// Bytes that are not zero up to a zero byte: the text ends at that byte.
pub proof fn lemma_text_len(bytes: Seq<u8>, end: int)
    requires
        0 <= end < bytes.len(),
        forall|i: int| 0 <= i < end ==> #[trigger] bytes[i] != 0,
        bytes[end] == 0,
    ensures
        text_len(bytes) == end,
    decreases end,
{
    if end > 0 {
        assert(bytes[0] != 0);
        assert forall|i: int| 0 <= i < end - 1 implies #[trigger] bytes.skip(1)[i] != 0 by {
            assert(bytes.skip(1)[i] == bytes[i + 1]);
        }
        lemma_text_len(bytes.skip(1), end - 1);
    }
}

/// Storing text leaves the allocator well formed and within its ceiling.
pub proof fn lemma_store_ceiling(stack: StackModel, text: Seq<u8>, is_data: bool)
    requires
        well_formed(stack),
    ensures
        well_formed(store_step(stack, text, is_data).1),
        store_step(stack, text, is_data).1.max_chunks == stack.max_chunks,
{
    if text.len() < usize::MAX {
        let size = (text.len() + 1) as usize;
        lemma_alloc_ceiling(stack, size, is_data);
        let made = alloc_step(stack, size, is_data);
        if made.0 is Ok {
            let region = made.0->Ok_0;
            lemma_first_fit(stack.chunks, region_size(size), is_data);
            let after = store_step(stack, text, is_data).1;
            lemma_sums_update(made.1.chunks, region.chunk as int, after.chunks[region.chunk as int]);
        }
    }
}

/// What is asked of an allocator.
pub enum Request {
    /// A region of this size, for text or for structure.
    Region { size: usize, is_data: bool },
    /// A region that holds this text, for text or for structure.
    Text { text: Seq<u8>, is_data: bool },
}

/// The allocator after one request, granted or not.
pub open spec fn served_one(stack: StackModel, request: Request) -> StackModel {
    match request {
        Request::Region { size, is_data } => alloc_step(stack, size, is_data).1,
        Request::Text { text, is_data } => store_step(stack, text, is_data).1,
    }
}

/// The allocator after a row of requests.
pub open spec fn served(stack: StackModel, requests: Seq<Request>) -> StackModel
    decreases requests.len(),
{
    if requests.len() == 0 {
        stack
    } else {
        served_one(served(stack, requests.drop_last()), requests.last())
    }
}

/// The ceiling holds for ever: after any requests, of any number and of any
/// sizes, granted or not, the allocator holds no more chunks than it may.
pub proof fn lemma_ceiling(stack: StackModel, requests: Seq<Request>)
    requires
        well_formed(stack),
    ensures
        well_formed(served(stack, requests)),
        served(stack, requests).max_chunks == stack.max_chunks,
        served(stack, requests).chunks.len() <= stack.max_chunks,
    decreases requests.len(),
{
    if requests.len() > 0 {
        lemma_ceiling(stack, requests.drop_last());
        let before = served(stack, requests.drop_last());
        match requests.last() {
            Request::Region { size, is_data } => {
                lemma_alloc_ceiling(before, size, is_data);
            },
            Request::Text { text, is_data } => {
                lemma_store_ceiling(before, text, is_data);
            },
        }
    }
}

impl Chunk {
    spec fn model(self) -> ChunkModel {
        ChunkModel { bytes: self.data@, used: self.used as nat, is_data: self.is_data }
    }
}

/// The models of chunks in a row.
spec fn chunk_models(chunks: Seq<Chunk>) -> Seq<ChunkModel> {
    chunks.map_values(|chunk: Chunk| chunk.model())
}

impl View for IksStack {
    type V = StackModel;

    closed spec fn view(&self) -> StackModel {
        StackModel {
            chunks: chunk_models(self.chunks@),
            meta_size: self.meta_size,
            data_size: self.data_size,
            max_chunks: self.max_chunks,
            allocated: self.allocated,
        }
    }
}

/// See [`chunk_size`].
fn size_chunk(wanted: usize) -> (size: usize)
    ensures
        size == chunk_size(wanted),
{
    if wanted > usize::MAX - ALIGN_MASK {
        usize::MAX - ALIGN_MASK
    } else if wanted < MIN_CHUNK_SIZE {
        MIN_CHUNK_SIZE
    } else {
        align_size(wanted)
    }
}

/// Writes `text` and a zero byte after it into `data` at `at`.
fn write_text(data: &mut Vec<u8>, at: usize, text: &[u8])
    requires
        at + text@.len() < old(data)@.len(),
    ensures
        final(data)@ == written(old(data)@, at as int, text@),
{
    let size = data.len();
    let mut i: usize = 0;
    while i < text.len()
        invariant
            i <= text.len(),
            size == data@.len(),
            at + text@.len() < data@.len(),
            data@.len() == old(data)@.len(),
            forall|j: int|
                0 <= j < data@.len() ==> #[trigger] data@[j] == if at <= j < at + i {
                    text@[j - at]
                } else {
                    old(data)@[j]
                },
        decreases text.len() - i,
    {
        data.set(at + i, text[i]);
        i = i + 1;
    }
    data.set(at + text.len(), 0u8);
    assert(data@ =~= written(old(data)@, at as int, text@));
}

impl IksStack {
    /// Whether the allocator is in order: its model is [`well_formed`].
    pub open spec fn wf(&self) -> bool {
        well_formed(self@)
    }

    /// An allocator without chunks, for at most [`MAX_CHUNKS`] of them. A new
    /// chunk for structure is to hold `meta_chunk` bytes, one for text
    /// `data_chunk` bytes, see [`chunk_size`].
    pub fn new(meta_chunk: usize, data_chunk: usize) -> (stack: Self)
        ensures
            stack.wf(),
            stack@ == (StackModel {
                chunks: Seq::empty(),
                meta_size: chunk_size(meta_chunk),
                data_size: chunk_size(data_chunk),
                max_chunks: MAX_CHUNKS,
                allocated: 0,
            }),
    {
        IksStack::with_max_chunks(meta_chunk, data_chunk, MAX_CHUNKS)
    }

    /// An allocator like that of [`IksStack::new`], for at most `max_chunks`
    /// chunks.
    pub fn with_max_chunks(meta_chunk: usize, data_chunk: usize, max_chunks: usize) -> (stack: Self)
        ensures
            stack.wf(),
            stack@ == (StackModel {
                chunks: Seq::empty(),
                meta_size: chunk_size(meta_chunk),
                data_size: chunk_size(data_chunk),
                max_chunks,
                allocated: 0,
            }),
    {
        let stack = IksStack {
            chunks: Vec::new(),
            meta_size: size_chunk(meta_chunk),
            data_size: size_chunk(data_chunk),
            allocated: 0,
            max_chunks,
        };
        assert(chunk_models(stack.chunks@) =~= Seq::empty());
        stack
    }

    /// How many chunks the allocator holds.
    pub fn chunk_count(&self) -> (count: usize)
        ensures
            count == self@.chunks.len(),
    {
        self.chunks.len()
    }

    /// Hands out a region of at least `size` bytes, for text where `is_data`
    /// holds and for structure otherwise.
    pub fn allocate(&mut self, size: usize, is_data: bool) -> (made: Result<Region, IksError>)
        requires
            old(self).wf(),
        ensures
            final(self).wf(),
            (made, final(self)@) == alloc_step(old(self)@, size, is_data),
            made matches Ok(region) ==> holds(final(self)@, region),
            final(self)@.max_chunks == old(self)@.max_chunks,
            final(self)@.chunks.len() <= final(self)@.max_chunks,
    {
        if size > usize::MAX - ALIGN_MASK {
            return Err(IksError::NoMem);
        }
        let request = if size < MIN_ALLOC_SIZE {
            MIN_ALLOC_SIZE
        } else {
            align_size(size)
        };
        let ghost all = self@.chunks;
        proof {
            lemma_first_fit(all, request as int, is_data);
            lemma_alloc_ceiling(self@, size, is_data);
        }
        let mut i: usize = 0;
        assert(all.skip(0) =~= all);
        while i < self.chunks.len()
            invariant
                i <= self.chunks.len(),
                all == self@.chunks,
                *self == *old(self),
                self.wf(),
                request == region_size(size),
                size + ALIGN_MASK <= usize::MAX,
                first_fit(all, request as int, is_data) == i + first_fit(
                    all.skip(i as int),
                    request as int,
                    is_data,
                ),
            decreases self.chunks.len() - i,
        {
            assert(all.skip(i as int)[0] == all[i as int]);
            assert(all.skip(i as int).skip(1) =~= all.skip(i + 1));
            if self.chunks[i].is_data == is_data && self.chunks[i].data.len() - self.chunks[i].used
                >= request {
                let offset = self.chunks[i].used;
                proof {
                    lemma_first_fit(all, request as int, is_data);
                    lemma_alloc_ceiling(self@, size, is_data);
                }
                self.chunks[i].used = offset + request;
                assert(self@.chunks =~= all.update(
                    i as int,
                    ChunkModel { used: (all[i as int].used + request) as nat, ..all[i as int] },
                ));
                proof {
                    lemma_sums_update(
                        all,
                        i as int,
                        ChunkModel { used: (all[i as int].used + request) as nat, ..all[i as int] },
                    );
                }
                return Ok(Region { chunk: i, offset, size: request });
            }
            i = i + 1;
        }
        let usual = if is_data {
            self.data_size
        } else {
            self.meta_size
        };
        let fresh = if usual > request {
            usual
        } else {
            request
        };
        if self.chunks.len() >= self.max_chunks || fresh > usize::MAX - self.allocated {
            return Err(IksError::NoMem);
        }
        let mut data: Vec<u8> = Vec::new();
        let mut filled: usize = 0;
        while filled < fresh
            invariant
                filled <= fresh,
                data@ == zeros(filled as int),
            decreases fresh - filled,
        {
            data.push(0u8);
            filled = filled + 1;
            assert(data@ =~= zeros(filled as int));
        }
        let place = self.chunks.len();
        self.chunks.push(Chunk { data, used: request, is_data });
        self.allocated = self.allocated + fresh;
        assert(self@.chunks =~= all.push(
            ChunkModel { bytes: zeros(fresh as int), used: request as nat, is_data },
        ));
        assert(self@.chunks.drop_last() =~= all);
        Ok(Region { chunk: place, offset: 0, size: request })
    }

    /// Whether `region` lies within what a chunk of this allocator has handed
    /// out.
    pub fn contains(&self, region: Region) -> (yes: bool)
        ensures
            yes == holds(self@, region),
    {
        region.chunk < self.chunks.len() && region.size <= self.chunks[region.chunk].used
            && region.offset <= self.chunks[region.chunk].used - region.size
    }

    /// Hands out a region and writes `text` and a zero byte into it.
    fn store(&mut self, text: &[u8], is_data: bool) -> (made: Result<Region, IksError>)
        requires
            old(self).wf(),
        ensures
            final(self).wf(),
            (made, final(self)@) == store_step(old(self)@, text@, is_data),
            made matches Ok(region) ==> holds(final(self)@, region),
            final(self)@.max_chunks == old(self)@.max_chunks,
            final(self)@.chunks.len() <= final(self)@.max_chunks,
    {
        if text.len() >= usize::MAX {
            return Err(IksError::NoMem);
        }
        let made = self.allocate(text.len() + 1, is_data);
        match made {
            Ok(region) => {
                let ghost all = self@.chunks;
                let ghost before = all[region.chunk as int];
                let mut data: Vec<u8> = Vec::new();
                std::mem::swap(&mut self.chunks[region.chunk].data, &mut data);
                write_text(&mut data, region.offset, text);
                std::mem::swap(&mut self.chunks[region.chunk].data, &mut data);
                proof {
                    let after = ChunkModel {
                        bytes: written(before.bytes, region.offset as int, text@),
                        ..before
                    };
                    assert(self@.chunks =~= all.update(region.chunk as int, after));
                    lemma_sums_update(all, region.chunk as int, after);
                }
                Ok(region)
            },
            Err(error) => Err(error),
        }
    }

    /// Copies the text into a region of its own, with a zero byte after it.
    pub fn strdup(&mut self, s: &str, is_data: bool) -> (made: Result<Region, IksError>)
        requires
            old(self).wf(),
        ensures
            final(self).wf(),
            (made, final(self)@) == store_step(old(self)@, s.spec_bytes(), is_data),
            made matches Ok(region) ==> holds(final(self)@, region),
            final(self)@.max_chunks == old(self)@.max_chunks,
            final(self)@.chunks.len() <= final(self)@.max_chunks,
    {
        self.store(s.as_bytes(), is_data)
    }

    /// The text in the region: its bytes up to the first zero byte.
    pub fn text(&self, region: Region) -> (text: Vec<u8>)
        requires
            self.wf(),
            holds(self@, region),
        ensures
            text@ == region_text(self@, region),
    {
        let ghost bytes = region_bytes(self@, region);
        let mut text: Vec<u8> = Vec::new();
        let mut i: usize = 0;
        assert(bytes.skip(0) =~= bytes);
        assert(bytes.take(0) =~= Seq::<u8>::empty());
        while i < region.size && self.chunks[region.chunk].data[region.offset + i] != 0
            invariant
                i <= region.size,
                self.wf(),
                holds(self@, region),
                bytes == region_bytes(self@, region),
                text@ == bytes.take(i as int),
                text_len(bytes) == i + text_len(bytes.skip(i as int)),
            decreases region.size - i,
        {
            assert(bytes.skip(i as int)[0] == bytes[i as int]);
            assert(bytes.skip(i as int).skip(1) =~= bytes.skip(i + 1));
            text.push(self.chunks[region.chunk].data[region.offset + i]);
            assert(bytes.take(i + 1) =~= bytes.take(i as int).push(bytes[i as int]));
            i = i + 1;
        }
        proof {
            if i < region.size {
                assert(bytes.skip(i as int)[0] == bytes[i as int]);
            } else {
                assert(bytes.skip(i as int) =~= Seq::<u8>::empty());
            }
        }
        text
    }

    /// Makes one text of the text in the region `head`, where one is given, and
    /// `src`, in a new region. The region `head` stays as it is: regions do not
    /// grow.
    pub fn strcat(&mut self, head: Option<Region>, src: &str) -> (made: Result<Region, IksError>)
        requires
            old(self).wf(),
            head matches Some(region) ==> holds(old(self)@, region),
        ensures
            final(self).wf(),
            (made, final(self)@) == store_step(
                old(self)@,
                match head {
                    Some(region) => region_text(old(self)@, region) + src.spec_bytes(),
                    None => src.spec_bytes(),
                },
                true,
            ),
            made matches Ok(region) ==> holds(final(self)@, region),
            final(self)@.max_chunks == old(self)@.max_chunks,
            final(self)@.chunks.len() <= final(self)@.max_chunks,
    {
        match head {
            Some(region) => {
                let mut text = self.text(region);
                let more = src.as_bytes();
                let ghost first = text@;
                let mut i: usize = 0;
                while i < more.len()
                    invariant
                        i <= more.len(),
                        text@ == first + more@.take(i as int),
                    decreases more.len() - i,
                {
                    text.push(more[i]);
                    assert(first + more@.take(i + 1) =~= (first + more@.take(i as int)).push(
                        more@[i as int],
                    ));
                    i = i + 1;
                }
                assert(more@.take(i as int) =~= more@);
                self.store(text.as_slice(), true)
            },
            None => self.store(src.as_bytes(), true),
        }
    }

    /// What is reserved and what is handed out, in bytes.
    pub fn stats(&self) -> (totals: (usize, usize))
        requires
            self.wf(),
        ensures
            totals.0 == self@.allocated,
            totals.0 == reserved(self@.chunks),
            totals.1 == in_use(self@.chunks),
            totals.1 <= totals.0,
    {
        let ghost all = self@.chunks;
        let mut used: usize = 0;
        let mut i: usize = 0;
        assert(all.take(0) =~= Seq::<ChunkModel>::empty());
        while i < self.chunks.len()
            invariant
                i <= self.chunks.len(),
                self.wf(),
                all == self@.chunks,
                used == in_use(all.take(i as int)),
            decreases self.chunks.len() - i,
        {
            proof {
                lemma_sums_bounded(all, i + 1);
                assert(all.take(i + 1).drop_last() =~= all.take(i as int));
                assert(all.take(i + 1).last() == all[i as int]);
            }
            used = used + self.chunks[i].used;
            i = i + 1;
        }
        proof {
            assert(all.take(i as int) =~= all);
            lemma_sums_bounded(all, i as int);
        }
        (self.allocated, used)
    }
}

} // verus!
