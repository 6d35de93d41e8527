//! Book-keeping for the shared arena: which byte ranges have been handed out.
use vstd::prelude::*;
use crate::error::ShmError;

verus! {

/// A non-empty byte range, relative to the region it is asked from.
#[derive(Debug, Clone, Copy)]
pub struct Span {
    pub offset: usize,
    pub size: usize,
}

impl Span {
    /// First byte behind the range.
    pub open spec fn spec_end(&self) -> int {
        self.offset + self.size
    }

    /// First byte behind the range.
    pub fn end(&self) -> (r: usize)
        requires
            self.spec_end() <= usize::MAX,
        ensures
            r == self.spec_end(),
    {
        self.offset + self.size
    }
}

/// A byte range of the arena that belongs to one queue.
#[derive(Debug, Clone, Copy)]
pub struct Chunk {
    offset: usize,
    size: usize,
}

impl Chunk {
    /// Offset of the first byte within the arena.
    pub closed spec fn start(&self) -> int {
        self.offset as int
    }

    /// Number of bytes.
    pub closed spec fn len(&self) -> int {
        self.size as int
    }

    /// A chunk lies inside the address space and is not empty.
    pub open spec fn wf(&self) -> bool {
        self.start() >= 0 && self.len() > 0 && self.start() + self.len() <= usize::MAX
    }

    /// Offset of the first byte within the arena.
    pub fn offset(&self) -> (r: usize)
        ensures
            r == self.start(),
    {
        self.offset
    }

    /// Number of bytes.
    pub fn size(&self) -> (r: usize)
        ensures
            r == self.len(),
    {
        self.size
    }

    /// Arena offset of a span of this chunk; `ShmError::Size` where the
    /// span is empty or reaches beyond the chunk.
    pub fn get_span_ptr(&self, span: &Span) -> (r: Result<usize, ShmError>)
        requires
            self.wf(),
        ensures
            r.is_ok() <==> span.size > 0 && span.spec_end() <= self.len(),
            r.is_ok() ==> r.unwrap() == self.start() + span.offset,
            r matches Err(e) ==> e == ShmError::Size,
    {
        if span.size == 0 || span.offset > self.size || span.size > self.size - span.offset {
            return Err(ShmError::Size);
        }
        Ok(self.offset + span.offset)
    }

    /// Arena offset of `size` bytes that start `offset` bytes into this
    /// chunk; `ShmError::Size` where they do not lie inside it.
    pub fn get_ptr(&self, offset: usize, size: usize) -> (r: Result<usize, ShmError>)
        requires
            self.wf(),
        ensures
            r.is_ok() <==> size > 0 && offset + size <= self.len(),
            r.is_ok() ==> r.unwrap() == self.start() + offset,
            r matches Err(e) ==> e == ShmError::Size,
    {
        self.get_span_ptr(&Span { offset, size })
    }
}

impl Chunk {
    /// The chunk shares a byte with the range `[offset, offset + size)`.
    pub open spec fn meets(&self, offset: int, size: int) -> bool {
        self.start() < offset + size && offset < self.start() + self.len()
    }
}

/// The arena as the layout sees it: its size, and the ranges of it that are
/// handed out. No byte belongs to two chunks.
pub struct SharedMemory {
    size: usize,
    chunks: Vec<Chunk>,
}

impl SharedMemory {
    /// Number of bytes of the arena.
    pub closed spec fn len(&self) -> int {
        self.size as int
    }

    /// The chunks handed out so far, oldest first.
    pub closed spec fn chunks(&self) -> Seq<Chunk> {
        self.chunks@
    }

    /// No chunk shares a byte with the range `[offset, offset + size)`.
    pub open spec fn free(&self, offset: int, size: int) -> bool {
        forall|i: int| 0 <= i < self.chunks().len() ==> !(#[trigger] self.chunks()[i]).meets(
            offset,
            size,
        )
    }

    /// Every chunk ends at `limit` or before it.
    pub open spec fn below(&self, limit: int) -> bool {
        forall|i: int|
            0 <= i < self.chunks().len() ==> (#[trigger] self.chunks()[i]).start()
                + self.chunks()[i].len() <= limit
    }

    /// The arena is not empty, its chunks lie inside it, and no two of them
    /// share a byte.
    pub open spec fn wf(&self) -> bool {
        &&& self.len() > 0
        &&& self.len() <= usize::MAX
        &&& self.below(self.len())
        &&& forall|i: int| 0 <= i < self.chunks().len() ==> (#[trigger] self.chunks()[i]).wf()
        &&& forall|i: int, j: int|
            0 <= i < self.chunks().len() && 0 <= j < self.chunks().len() && i != j ==> !(
            #[trigger] self.chunks()[i]).meets(
                (#[trigger] self.chunks()[j]).start(),
                self.chunks()[j].len(),
            )
    }

    /// An arena of `size` bytes with nothing handed out; `ShmError::Size`
    /// for an empty one.
    pub fn new(size: usize) -> (r: Result<Self, ShmError>)
        ensures
            r.is_ok() <==> size > 0,
            r matches Ok(arena) ==> {
                &&& arena.wf()
                &&& arena.len() == size
                &&& arena.chunks() == Seq::<Chunk>::empty()
            },
            r matches Err(e) ==> e == ShmError::Size,
    {
        if size == 0 {
            return Err(ShmError::Size);
        }
        Ok(SharedMemory { size, chunks: Vec::new() })
    }

    /// Number of bytes of the arena.
    pub fn size(&self) -> (r: usize)
        ensures
            r == self.len(),
    {
        self.size
    }

    /// Whether no chunk shares a byte with the range
    /// `[offset, offset + size)`, which lies inside the arena.
    fn is_free(&self, offset: usize, size: usize) -> (r: bool)
        requires
            self.wf(),
            offset + size <= self.len(),
        ensures
            r == self.free(offset as int, size as int),
    {
        let mut i: usize = 0;
        while i < self.chunks.len()
            invariant
                0 <= i <= self.chunks@.len(),
                self.wf(),
                offset + size <= self.len(),
                forall|k: int|
                    0 <= k < i ==> !(#[trigger] self.chunks()[k]).meets(offset as int, size as int),
            decreases self.chunks@.len() - i,
        {
            let chunk = &self.chunks[i];
            assert(chunk == self.chunks()[i as int]);
            assert(self.chunks()[i as int].wf());
            let start: usize = chunk.offset();
            let len: usize = chunk.size();
            if start < offset + size && offset < start + len {
                return false;
            }
            i = i + 1;
        }
        true
    }

    /// Hands out the range `[offset, offset + size)`.
    ///
    /// `ShmError::Size` where the range is empty, reaches beyond the arena
    /// or shares a byte with a chunk that was handed out before. The arena
    /// is then unchanged.
    pub fn alloc_chunk(&mut self, offset: usize, size: usize) -> (r: Result<Chunk, ShmError>)
        requires
            old(self).wf(),
        ensures
            final(self).wf(),
            final(self).len() == old(self).len(),
            r.is_ok() <==> size > 0 && offset + size <= old(self).len() && old(self).free(
                offset as int,
                size as int,
            ),
            r matches Ok(chunk) ==> {
                &&& chunk.wf()
                &&& chunk.start() == offset
                &&& chunk.len() == size
                &&& final(self).chunks() == old(self).chunks().push(chunk)
            },
            r matches Err(e) ==> {
                &&& e == ShmError::Size
                &&& final(self).chunks() == old(self).chunks()
            },
    {
        if size == 0 || offset > self.size || size > self.size - offset {
            return Err(ShmError::Size);
        }
        if !self.is_free(offset, size) {
            return Err(ShmError::Size);
        }
        let chunk = Chunk { offset, size };
        self.chunks.push(chunk);
        proof {
            let before = old(self).chunks();
            let after = self.chunks();
            assert(after == before.push(chunk));
            assert forall|i: int, j: int|
                0 <= i < after.len() && 0 <= j < after.len() && i != j implies !(
            #[trigger] after[i]).meets((#[trigger] after[j]).start(), after[j].len()) by {
                if i < before.len() && j < before.len() {
                    assert(after[i] == before[i] && after[j] == before[j]);
                } else if i < before.len() {
                    assert(!before[i].meets(offset as int, size as int));
                } else {
                    assert(!before[j].meets(offset as int, size as int));
                }
            }
            assert forall|i: int| 0 <= i < after.len() implies (#[trigger] after[i]).wf()
                && after[i].start() + after[i].len() <= self.len() by {
                if i < before.len() {
                    assert(after[i] == before[i]);
                }
            }
        }
        Ok(chunk)
    }

    /// No two chunks of a well-formed arena share a byte.
    pub proof fn lemma_chunks_disjoint(&self, i: int, j: int)
        requires
            self.wf(),
            0 <= i < self.chunks().len(),
            0 <= j < self.chunks().len(),
            i != j,
        ensures
            self.chunks()[i].start() + self.chunks()[i].len() <= self.chunks()[j].start()
                || self.chunks()[j].start() + self.chunks()[j].len() <= self.chunks()[i].start(),
    {
        assert(!self.chunks()[i].meets(self.chunks()[j].start(), self.chunks()[j].len()));
    }
}

} // verus!
