//! The shared memory of one queue as atomic words that the peer process
//! reads and writes too: `tail`, `head` and the chain cells of the index
//! region, and behind them the words of the message slots.
//!
//! Nothing can be known of what a shared word holds, so no operation here
//! promises anything of the value it reads. What is recorded instead is the
//! history: every operation of this end, with its arguments and the value
//! it saw, is appended to a ghost trace, and the contracts of the queue
//! operations are stated over that trace.
use vstd::prelude::*;
use std::sync::atomic::AtomicU32;
use std::sync::atomic::Ordering;
use crate::error::ShmError;
use crate::layout::align_up;
use crate::layout::checked_mem_align;
use crate::layout::lemma_align_up;
use crate::layout::INDEX_SIZE;
use crate::layout::MIN_MSGS;
use crate::param::ChannelConfig;
use crate::param::ChannelParam;
use crate::shm::Chunk;

verus! {

/// The cell value that names no slot.
pub const INVALID_INDEX: u32 = 0xFFFF_FFFF;

/// Top bit of `tail`: the consumer may be reading the slot that the other
/// bits name.
pub const CONSUMED_FLAG: u32 = 0x8000_0000;

/// The bits of a cell that hold the slot id.
pub const INDEX_MASK: u32 = 0x7FFF_FFFF;

/// No queue has more slots than the slot id bits can tell apart.
pub const MAX_SLOTS: usize = 0x7FFF_FFFF;

/// One atomic operation on the shared words of a queue, with the value it
/// saw.
pub ghost enum CellOp {
    TailLoad { seen: u32 },
    TailStore { value: u32 },
    TailFetchOr { bits: u32, seen: u32 },
    TailExchange { expected: u32, new: u32, done: bool },
    HeadLoad { seen: u32 },
    HeadStore { value: u32 },
    ChainLoad { slot: u32, seen: u32 },
    ChainStore { slot: u32, value: u32 },
    /// A word of a message slot is read.
    SlotLoad { slot: u32, word: nat, seen: u32 },
    /// A word of a message slot is written.
    SlotStore { slot: u32, word: nat, value: u32 },
}

/// Where the parts of a queue lie, and how many slots it has.
pub ghost struct QueueShape {
    /// Number of message slots.
    pub slots: nat,
    /// Bytes of a message, as the queue was declared with.
    pub message_size: nat,
    /// Bytes from one slot to the next: the message size padded to the
    /// cache line.
    pub slot_size: nat,
    /// Arena offset of the first slot.
    pub data_start: nat,
    /// Place of the first word of the first slot among the cells of the
    /// queue.
    pub first_word: nat,
}

impl QueueShape {
    /// Words of a message: the words that hold the bytes of the declared
    /// message size.
    pub open spec fn message_words(self) -> nat {
        (self.message_size + 3) / 4
    }
}

/// A cell value is the sentinel or, without the consumed flag, a slot id.
pub open spec fn cell_ok(value: u32, slots: nat) -> bool {
    value == INVALID_INDEX || (value & INDEX_MASK) < slots
}

/// Facts about the consumed flag and the slot bits of a cell.
pub proof fn lemma_flag_bits(x: u32)
    by (bit_vector)
    ensures
        (x | 0x8000_0000u32) & 0x7FFF_FFFFu32 == x & 0x7FFF_FFFFu32,
        (x | 0x8000_0000u32) & 0x8000_0000u32 != 0,
        x & 0x7FFF_FFFFu32 <= 0x7FFF_FFFFu32,
        x & 0x8000_0000u32 == 0 ==> x & 0x7FFF_FFFFu32 == x,
        x & 0x8000_0000u32 != 0 ==> x | 0x8000_0000u32 == x,
        x <= 0x7FFF_FFFFu32 ==> x & 0x7FFF_FFFFu32 == x && x & 0x8000_0000u32 == 0,
        x == 0xFFFF_FFFFu32 ==> x & 0x7FFF_FFFFu32 == 0x7FFF_FFFFu32 && x | 0x8000_0000u32 == x,
{
}

/// A multiple of a multiple of four is a multiple of four.
pub proof fn lemma_multiple_of_four(x: int, m: int)
    requires
        m > 0,
        m % 4 == 0,
        x % m == 0,
    ensures
        x % 4 == 0,
        x == (x / 4) * 4,
{
    vstd::arithmetic::div_mod::lemma_fundamental_div_mod(x, m);
    vstd::arithmetic::div_mod::lemma_fundamental_div_mod(m, 4);
    let q = x / m;
    let r = m / 4;
    assert(x == 4 * (r * q)) by (nonlinear_arith)
        requires
            x == m * q,
            m == 4 * r,
    ;
    vstd::arithmetic::div_mod::lemma_fundamental_div_mod_converse(x, 4, r * q, 0);
}

/// The shared memory of one queue, as words of four bytes: the cells of
/// the index region first, the message slots behind them.
pub struct Queue<'a> {
    cells: &'a [AtomicU32],
    slots: u32,
    message_size: usize,
    slot_size: usize,
    data_start: usize,
    first_word: usize,
    trace: Ghost<Seq<CellOp>>,
}

/// Index of the chain cell of `slot` among the cells of the index region.
fn chain_cell(slot: u32) -> (r: usize)
    requires
        slot < MAX_SLOTS,
    ensures
        r == slot + 2,
{
    slot as usize + 2
}

impl<'a> Queue<'a> {
    /// Number of slots, stride and place of the data region.
    pub closed spec fn shape(&self) -> QueueShape {
        QueueShape {
            slots: self.slots as nat,
            message_size: self.message_size as nat,
            slot_size: self.slot_size as nat,
            data_start: self.data_start as nat,
            first_word: self.first_word as nat,
        }
    }

    /// The operations made on the shared cells so far, oldest first.
    pub closed spec fn trace(&self) -> Seq<CellOp> {
        self.trace@
    }

    /// The cells that the operations act on.
    pub closed spec fn cells(&self) -> &'a [AtomicU32] {
        self.cells
    }

    /// There are three slots at least, a cell for each of them besides
    /// `tail` and `head`, the slots are whole words that lie behind the
    /// index region among the cells, and every slot lies inside the address
    /// space.
    pub closed spec fn wf(&self) -> bool {
        &&& MIN_MSGS <= self.slots <= MAX_SLOTS
        &&& self.cells@.len() >= self.slots + 2
        &&& 0 < self.message_size <= self.slot_size
        &&& self.slot_size % INDEX_SIZE == 0
        &&& self.first_word >= self.slots + 2
        &&& self.first_word + self.slots * (self.slot_size / INDEX_SIZE) <= self.cells@.len()
        &&& self.data_start + self.slots * self.slot_size <= usize::MAX
    }

    /// Words of one slot.
    pub open spec fn slot_words(&self) -> nat {
        self.shape().slot_size / (INDEX_SIZE as nat)
    }

    /// `self` is `before` with the operation `op` appended to its trace.
    pub open spec fn follows(&self, before: &Self, op: CellOp) -> bool {
        &&& self.wf()
        &&& self.shape() == before.shape()
        &&& self.cells() == before.cells()
        &&& self.trace() == before.trace().push(op)
    }

    /// Shape of the queue of `config` that starts at arena offset `start`:
    /// the data region lies behind the index region.
    pub open spec fn shape_for(config: ChannelConfig, start: int, cls: int) -> QueueShape {
        QueueShape {
            slots: config.slots() as nat,
            message_size: config.message_size,
            slot_size: align_up(config.message_size as int, cls) as nat,
            data_start: (start + config.queue_size(cls)) as nat,
            first_word: (config.queue_size(cls) / 4) as nat,
        }
    }

    /// The chunk and the cells can hold a queue of the given dimensions.
    pub open spec fn fits(cells: &[AtomicU32], chunk: Chunk, config: &ChannelParam, cls: usize)
        -> bool {
        &&& config.wf()
        &&& config@.slots() <= MAX_SLOTS
        &&& config@.shm_size(cls as int) <= cells@.len() * 4
        &&& config@.shm_size(cls as int) <= chunk.len()
    }

    /// The queue can be laid over the chunk: it fits, and the cache line
    /// size is a multiple of the width of a cell and divides the offset of
    /// the chunk.
    pub open spec fn placed(cells: &[AtomicU32], chunk: Chunk, config: &ChannelParam, cls: usize)
        -> bool {
        &&& Self::fits(cells, chunk, config, cls)
        &&& cls % INDEX_SIZE == 0
        &&& chunk.start() % (cls as int) == 0
    }

    /// Lays a queue of the given dimensions over a chunk of the arena, with
    /// `cells` as the words of the chunk.
    ///
    /// `ShmError::Size` where the message size is zero, the slots are more
    /// than `MAX_SLOTS`, or the chunk or the cells are smaller than the
    /// queue; `ShmError::Alignment` where the queue fits and the cache line
    /// size is no multiple of four or the chunk does not start at a
    /// multiple of the cache line size.
    pub fn new(cells: &'a [AtomicU32], chunk: Chunk, config: &ChannelParam, cls: usize) -> (r:
        Result<Self, ShmError>)
        requires
            cls > 0,
            chunk.wf(),
        ensures
            r.is_ok() <==> Self::placed(cells, chunk, config, cls),
            r matches Ok(queue) ==> {
                &&& queue.wf()
                &&& queue.cells() == cells
                &&& queue.trace() == Seq::<CellOp>::empty()
                &&& queue.shape() == Self::shape_for(config@, chunk.start(), cls as int)
            },
            r matches Err(e) ==> e == (if Self::fits(cells, chunk, config, cls) {
                ShmError::Alignment
            } else {
                ShmError::Size
            }),
    {
        if config.message_size == 0 || config.additional_messages > MAX_SLOTS - MIN_MSGS {
            return Err(ShmError::Size);
        }
        let queue_len: usize = config.additional_messages + MIN_MSGS;
        let chunk_size: usize = chunk.size();
        proof {
            config@.lemma_sizes_positive(cls as int);
            lemma_align_up(config.message_size as int, cls as int);
            lemma_align_up((2 + queue_len) * 4, cls as int);
            assert(config@.slots() == queue_len);
            assert(config@.queue_size(cls as int) == align_up((2 + queue_len) * 4, cls as int));
            assert(config@.data_size(cls as int) == queue_len * align_up(
                config.message_size as int,
                cls as int,
            ));
        }
        let cell_bytes: usize = match (2 + queue_len).checked_mul(INDEX_SIZE) {
            Some(b) => b,
            None => { return Err(ShmError::Size); },
        };
        let index_bytes: usize = match checked_mem_align(cell_bytes, cls) {
            Some(b) => b,
            None => { return Err(ShmError::Size); },
        };
        let slot_size: usize = match checked_mem_align(config.message_size, cls) {
            Some(s) => s,
            None => { return Err(ShmError::Size); },
        };
        let data_bytes: usize = match queue_len.checked_mul(slot_size) {
            Some(d) => d,
            None => { return Err(ShmError::Size); },
        };
        if index_bytes > chunk_size || data_bytes > chunk_size - index_bytes {
            return Err(ShmError::Size);
        }
        if cells.len() < (index_bytes + data_bytes) / INDEX_SIZE || (cells.len() == (index_bytes
            + data_bytes) / INDEX_SIZE && (index_bytes + data_bytes) % INDEX_SIZE != 0) {
            return Err(ShmError::Size);
        }
        if cls % INDEX_SIZE != 0 || chunk.offset() % cls != 0 {
            return Err(ShmError::Alignment);
        }
        let slots: u32 = slots_of(queue_len);
        let chunk_start: usize = chunk.offset();
        proof {
            lemma_multiple_of_four(index_bytes as int, cls as int);
            lemma_multiple_of_four(slot_size as int, cls as int);
            let words = (slot_size / 4) as int;
            assert(queue_len * words * 4 == data_bytes) by (nonlinear_arith)
                requires
                    data_bytes == queue_len * slot_size,
                    slot_size == words * 4,
            ;
        }
        Ok(
            Queue {
                cells,
                slots,
                message_size: config.message_size,
                slot_size,
                data_start: chunk_start + index_bytes,
                first_word: index_bytes / INDEX_SIZE,
                trace: Ghost(Seq::empty()),
            },
        )
    }

    /// Whether `idx` names a slot of this queue.
    pub fn is_valid_index(&self, idx: u32) -> (r: bool)
        ensures
            r == (idx < self.shape().slots),
    {
        idx < self.slots
    }

    /// Slots beyond the mandatory three.
    pub fn additional_messages(&self) -> (r: usize)
        requires
            self.wf(),
        ensures
            r == self.shape().slots - MIN_MSGS,
    {
        self.len() - MIN_MSGS
    }

    /// Bytes of a message, as the queue was declared with.
    pub fn message_size(&self) -> (r: usize)
        ensures
            r == self.shape().message_size,
    {
        self.message_size
    }

    /// Bytes from one slot to the next.
    pub fn slot_size(&self) -> (r: usize)
        ensures
            r == self.shape().slot_size,
    {
        self.slot_size
    }

    /// Number of slots.
    pub fn len(&self) -> (r: usize)
        requires
            self.wf(),
        ensures
            r == self.shape().slots,
    {
        slots_to_len(self.slots)
    }

    /// Arena offset of the first byte of `slot`.
    pub fn message_offset(&self, slot: u32) -> (r: usize)
        requires
            self.wf(),
            slot < self.shape().slots,
        ensures
            r == self.shape().data_start + slot * self.shape().slot_size,
    {
        let ghost n = self.slots as int;
        let ghost s = slot as int;
        let ghost z = self.slot_size as int;
        assert(s * z <= n * z) by (nonlinear_arith)
            requires
                0 <= s < n,
                z > 0,
        ;
        self.data_start + slots_to_len(slot) * self.slot_size
    }

    /// Words of a message; they fit a slot.
    pub fn words(&self) -> (r: usize)
        requires
            self.wf(),
        ensures
            r == self.shape().message_words(),
            r <= self.slot_words(),
    {
        (self.message_size - 1) / INDEX_SIZE + 1
    }

    /// Place among the cells of word `word` of slot `slot`.
    fn word_cell(&self, slot: u32, word: usize) -> (r: usize)
        requires
            self.wf(),
            slot < self.shape().slots,
            word < self.slot_words(),
        ensures
            r == self.first_word + slot * (self.slot_size / INDEX_SIZE) + word,
            r < self.cells@.len(),
    {
        let ghost n = self.slots as int;
        let ghost s = slot as int;
        let ghost w = (self.slot_size / INDEX_SIZE) as int;
        assert(0 <= s * w && s * w + w <= n * w) by (nonlinear_arith)
            requires
                0 <= s < n,
                w >= 0,
        ;
        let limit: usize = self.cells.len();
        let words: usize = self.slot_size / INDEX_SIZE;
        self.first_word + slots_to_len(slot) * words + word
    }

    /// Reads a word of a message slot.
    pub(crate) fn slot_load(&mut self, slot: u32, word: usize) -> (r: u32)
        requires
            old(self).wf(),
            slot < old(self).shape().slots,
            word < old(self).slot_words(),
        ensures
            final(self).follows(old(self), CellOp::SlotLoad { slot, word: word as nat, seen: r }),
    {
        let cell = self.word_cell(slot, word);
        let r = load_word(&self.cells[cell]);
        self.trace = Ghost(self.trace@.push(CellOp::SlotLoad { slot, word: word as nat, seen: r }));
        r
    }

    /// Writes a word of a message slot.
    pub(crate) fn slot_store(&mut self, slot: u32, word: usize, val: u32)
        requires
            old(self).wf(),
            slot < old(self).shape().slots,
            word < old(self).slot_words(),
        ensures
            final(self).follows(
                old(self),
                CellOp::SlotStore { slot, word: word as nat, value: val },
            ),
    {
        let cell = self.word_cell(slot, word);
        store_word(&self.cells[cell], val);
        self.trace = Ghost(
            self.trace@.push(CellOp::SlotStore { slot, word: word as nat, value: val }),
        );
    }

    /// The stores that write the chain of a new queue: every slot leads to
    /// the next one and the last one back to the first.
    pub open spec fn chain_ops(slots: nat) -> Seq<CellOp> {
        Seq::new(
            slots,
            |i: int|
                CellOp::ChainStore {
                    slot: i as u32,
                    value: if i + 1 < slots {
                        (i + 1) as u32
                    } else {
                        0u32
                    },
                },
        )
    }

    /// The stores that make a queue new and empty: the chain, then the
    /// sentinel in `tail` and in `head`.
    pub open spec fn init_ops(slots: nat) -> Seq<CellOp> {
        Self::chain_ops(slots).push(CellOp::TailStore { value: INVALID_INDEX }).push(
            CellOp::HeadStore { value: INVALID_INDEX },
        )
    }

    /// Makes the queue new and empty in the shared cells: writes the chain
    /// in which every slot leads to the next, then the sentinel to `tail`
    /// and to `head`.
    pub fn init(&mut self)
        requires
            old(self).wf(),
        ensures
            final(self).wf(),
            final(self).shape() == old(self).shape(),
            final(self).cells() == old(self).cells(),
            final(self).trace() == old(self).trace() + Self::init_ops(old(self).shape().slots),
    {
        let queue_len: usize = self.len();
        let ghost slots = queue_len as nat;
        let ghost before = self.trace();
        let mut i: usize = 0;
        proof {
            assert(self.trace() =~= before + Self::chain_ops(slots).take(0));
        }
        while i < queue_len
            invariant
                self.wf(),
                self.shape() == old(self).shape(),
                self.cells() == old(self).cells(),
                self.shape().slots == slots,
                slots == queue_len,
                queue_len <= MAX_SLOTS,
                0 <= i <= queue_len,
                self.trace() == before + Self::chain_ops(slots).take(i as int),
            decreases queue_len - i,
        {
            let next: u32 = if i + 1 < queue_len {
                slots_of(i + 1)
            } else {
                0
            };
            self.queue_store(slots_of(i), next);
            proof {
                assert(self.trace() =~= before + Self::chain_ops(slots).take(i + 1));
            }
            i = i + 1;
        }
        self.tail_store(INVALID_INDEX);
        self.head_store(INVALID_INDEX);
        proof {
            assert(Self::chain_ops(slots).take(slots as int) =~= Self::chain_ops(slots));
            assert(self.trace() =~= before + Self::init_ops(slots));
        }
    }

    /// Reads `tail`.
    pub(crate) fn tail_load(&mut self) -> (r: u32)
        requires
            old(self).wf(),
        ensures
            final(self).follows(old(self), CellOp::TailLoad { seen: r }),
    {
        let r = self.cells[0].load(Ordering::SeqCst);
        self.trace = Ghost(self.trace@.push(CellOp::TailLoad { seen: r }));
        r
    }

    /// Writes `tail`.
    pub(crate) fn tail_store(&mut self, val: u32)
        requires
            old(self).wf(),
        ensures
            final(self).follows(old(self), CellOp::TailStore { value: val }),
    {
        self.cells[0].store(val, Ordering::SeqCst);
        self.trace = Ghost(self.trace@.push(CellOp::TailStore { value: val }));
    }

    /// Sets the bits `val` in `tail` and gives what `tail` held before.
    pub(crate) fn tail_fetch_or(&mut self, val: u32) -> (r: u32)
        requires
            old(self).wf(),
        ensures
            final(self).follows(old(self), CellOp::TailFetchOr { bits: val, seen: r }),
    {
        let r = self.cells[0].fetch_or(val, Ordering::SeqCst);
        self.trace = Ghost(self.trace@.push(CellOp::TailFetchOr { bits: val, seen: r }));
        r
    }

    /// Replaces `tail` by `new` if it holds `current`, and says whether it
    /// did.
    pub(crate) fn tail_compare_exchange(&mut self, current: u32, new: u32) -> (r: bool)
        requires
            old(self).wf(),
        ensures
            final(self).follows(old(self), CellOp::TailExchange { expected: current, new, done: r },),
    {
        let r = self.cells[0].compare_exchange(
            current,
            new,
            Ordering::SeqCst,
            Ordering::SeqCst,
        ).is_ok();
        self.trace = Ghost(
            self.trace@.push(CellOp::TailExchange { expected: current, new, done: r }),
        );
        r
    }

    /// Reads `head`.
    pub(crate) fn head_load(&mut self) -> (r: u32)
        requires
            old(self).wf(),
        ensures
            final(self).follows(old(self), CellOp::HeadLoad { seen: r }),
    {
        let r = self.cells[1].load(Ordering::SeqCst);
        self.trace = Ghost(self.trace@.push(CellOp::HeadLoad { seen: r }));
        r
    }

    /// Writes `head`.
    pub(crate) fn head_store(&mut self, val: u32)
        requires
            old(self).wf(),
        ensures
            final(self).follows(old(self), CellOp::HeadStore { value: val }),
    {
        self.cells[1].store(val, Ordering::SeqCst);
        self.trace = Ghost(self.trace@.push(CellOp::HeadStore { value: val }));
    }

    /// Reads the chain cell of slot `idx`.
    pub(crate) fn chain_load(&mut self, idx: u32) -> (r: u32)
        requires
            old(self).wf(),
            idx < old(self).shape().slots,
        ensures
            final(self).follows(old(self), CellOp::ChainLoad { slot: idx, seen: r }),
    {
        let cell = chain_cell(idx);
        let r = self.cells[cell].load(Ordering::SeqCst);
        self.trace = Ghost(self.trace@.push(CellOp::ChainLoad { slot: idx, seen: r }));
        r
    }

    /// Writes the chain cell of slot `idx`.
    pub(crate) fn queue_store(&mut self, idx: u32, val: u32)
        requires
            old(self).wf(),
            idx < old(self).shape().slots,
        ensures
            final(self).follows(old(self), CellOp::ChainStore { slot: idx, value: val }),
    {
        let cell = chain_cell(idx);
        self.cells[cell].store(val, Ordering::SeqCst);
        self.trace = Ghost(self.trace@.push(CellOp::ChainStore { slot: idx, value: val }));
    }
}

/// Reads a word of a message. The index cells order what the two ends see
/// of a slot, so the word itself is read without ordering.
fn load_word(cell: &AtomicU32) -> u32 {
    cell.load(Ordering::Relaxed)
}

/// Writes a word of a message, without ordering as `load_word` does.
fn store_word(cell: &AtomicU32, val: u32) {
    cell.store(val, Ordering::Relaxed)
}

/// A slot count as a cell value.
fn slots_of(len: usize) -> (r: u32)
    requires
        len <= MAX_SLOTS,
    ensures
        r == len,
{
    len as u32
}

/// A cell value that names a slot, as a position.
fn slots_to_len(slots: u32) -> (r: usize)
    ensures
        r == slots,
{
    slots as usize
}

} // verus!
