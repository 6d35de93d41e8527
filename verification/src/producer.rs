//! The producer end of a queue: what the producer keeps for itself and how
//! a push acts on the shared cells.
//!
//! Every operation is specified as a step of a state machine. The step is a
//! function of the producer's state before the call and of what the shared
//! cells showed during it; it gives the state after the call, the result,
//! and the operations made on the shared cells, in the order in which they
//! were made.
use vstd::prelude::*;
use std::sync::atomic::AtomicU32;
use crate::cells::CellOp;
use crate::cells::Queue;
use crate::cells::QueueShape;
use crate::cells::lemma_flag_bits;
use crate::cells::CONSUMED_FLAG;
use crate::cells::INDEX_MASK;
use crate::cells::INVALID_INDEX;
use crate::cells::MAX_SLOTS;
use crate::error::ShmError;
use crate::layout::MIN_MSGS;
use crate::param::ChannelParam;
use crate::queue::ProduceForceResult;
use crate::queue::ProduceTryResult;
use crate::shm::Chunk;

verus! {

/// What a producer keeps for itself.
pub ghost struct ProducerState {
    /// The producer's copy of the chain cells.
    pub chain: Seq<u32>,
    /// The slot published last, or the sentinel before the first push.
    pub head: u32,
    /// The slot that the producer writes next.
    pub current: u32,
    /// The slot taken from under a reading consumer, or the sentinel.
    pub overrun: u32,
}

/// What the shared cells showed during one push.
pub ghost struct PushView {
    /// What `tail` held when it was read.
    pub tail: u32,
    /// Whether moving `tail` one slot on succeeded, where it was tried.
    pub moved: bool,
    /// Whether moving `tail` past the consumer succeeded, where it was
    /// tried.
    pub jumped: bool,
}

/// Outcome of a force-push.
pub ghost struct ForceStep {
    pub state: ProducerState,
    pub ops: Seq<CellOp>,
    pub result: ProduceForceResult,
}

/// Outcome of a try-push.
pub ghost struct TryStep {
    pub state: ProducerState,
    pub ops: Seq<CellOp>,
    pub result: ProduceTryResult,
}

impl ProducerState {
    /// Every index that the producer keeps names a slot or is the sentinel,
    /// and `current` names a slot.
    pub open spec fn wf(self, slots: nat) -> bool {
        &&& MIN_MSGS <= slots <= MAX_SLOTS
        &&& self.chain.len() == slots
        &&& self.current < slots
        &&& self.head == INVALID_INDEX || self.head < slots
        &&& self.overrun == INVALID_INDEX || self.overrun < slots
        &&& forall|i: int|
            0 <= i < slots ==> #[trigger] self.chain[i] == INVALID_INDEX || self.chain[i] < slots
    }

    /// The state of a new producer: every slot leads to the next one and
    /// the last one back to the first.
    pub open spec fn initial(slots: nat) -> ProducerState {
        ProducerState {
            chain: Seq::new(slots, |i: int| if i + 1 < slots { (i + 1) as u32 } else { 0u32 }),
            head: INVALID_INDEX,
            current: 0,
            overrun: INVALID_INDEX,
        }
    }

    /// The slot behind `current` in the chain.
    pub open spec fn next(self) -> u32 {
        self.chain[self.current as int]
    }

    /// `current` published as the first message ever.
    pub open spec fn first_published(self) -> ProducerState {
        ProducerState {
            chain: self.chain.update(self.current as int, INVALID_INDEX),
            head: self.current,
            current: self.next(),
            overrun: self.overrun,
        }
    }

    /// The stores of the first publication.
    pub open spec fn first_publish_ops(self) -> Seq<CellOp> {
        seq![
            CellOp::ChainStore { slot: self.current, value: INVALID_INDEX },
            CellOp::TailStore { value: self.current },
            CellOp::HeadStore { value: self.current },
        ]
    }

    /// `current` linked behind the old head and made the new head.
    pub open spec fn published(self) -> ProducerState {
        ProducerState {
            chain: self.chain.update(self.current as int, INVALID_INDEX).update(
                self.head as int,
                self.current,
            ),
            head: self.current,
            current: self.current,
            overrun: self.overrun,
        }
    }

    /// The stores of a publication behind an old head.
    pub open spec fn publish_ops(self) -> Seq<CellOp> {
        seq![
            CellOp::ChainStore { slot: self.current, value: INVALID_INDEX },
            CellOp::ChainStore { slot: self.head, value: self.current },
            CellOp::HeadStore { value: self.current },
        ]
    }

    /// The slot taken from the consumer put back before `next` and made
    /// `current`.
    pub open spec fn restitched(self, next: u32) -> ProducerState {
        ProducerState {
            chain: self.chain.update(self.overrun as int, next),
            head: self.head,
            current: self.overrun,
            overrun: INVALID_INDEX,
        }
    }

    /// The same state with another slot to write next.
    pub open spec fn writing(self, slot: u32) -> ProducerState {
        ProducerState { current: slot, ..self }
    }

    /// One force-push of a producer with `slots` slots that saw `view`.
    pub open spec fn force_push(self, slots: nat, view: PushView) -> ForceStep {
        let next = self.next();
        let t = view.tail & INDEX_MASK;
        let consumed = view.tail & CONSUMED_FLAG != 0;
        if !(next < slots) {
            ForceStep { state: self, ops: Seq::empty(), result: ProduceForceResult::QueueError }
        } else if self.head == INVALID_INDEX {
            ForceStep {
                state: self.first_published(),
                ops: self.first_publish_ops(),
                result: ProduceForceResult::Success,
            }
        } else {
            let p = self.published();
            let ops = self.publish_ops().push(CellOp::TailLoad { seen: view.tail });
            let step = CellOp::TailExchange {
                expected: view.tail,
                new: p.chain[t as int],
                done: view.moved,
            };
            if !(t < slots) {
                ForceStep { state: p, ops, result: ProduceForceResult::QueueError }
            } else if self.overrun != INVALID_INDEX {
                let stitch = CellOp::ChainStore { slot: self.overrun, value: next };
                if consumed {
                    ForceStep {
                        state: p.restitched(next),
                        ops: ops.push(stitch),
                        result: ProduceForceResult::Success,
                    }
                } else if view.moved {
                    ForceStep {
                        state: p.writing(t),
                        ops: ops.push(step),
                        result: ProduceForceResult::SuccessMessageDiscarded,
                    }
                } else {
                    ForceStep {
                        state: p.restitched(next),
                        ops: ops.push(step).push(stitch),
                        result: ProduceForceResult::Success,
                    }
                }
            } else if next != t {
                ForceStep { state: p.writing(next), ops, result: ProduceForceResult::Success }
            } else if !consumed && view.moved {
                ForceStep {
                    state: p.writing(next),
                    ops: ops.push(step),
                    result: ProduceForceResult::SuccessMessageDiscarded,
                }
            } else {
                let tried = if consumed {
                    ops
                } else {
                    ops.push(step)
                };
                let after = p.chain[t as int];
                let jump = CellOp::TailExchange {
                    expected: view.tail | CONSUMED_FLAG,
                    new: p.chain[after as int],
                    done: view.jumped,
                };
                if !(after < slots) {
                    ForceStep { state: p, ops: tried, result: ProduceForceResult::QueueError }
                } else if view.jumped {
                    ForceStep {
                        state: ProducerState { current: after, overrun: t, ..p },
                        ops: tried.push(jump),
                        result: ProduceForceResult::SuccessMessageDiscarded,
                    }
                } else {
                    ForceStep {
                        state: p.writing(t),
                        ops: tried.push(jump),
                        result: ProduceForceResult::Success,
                    }
                }
            }
        }
    }

    /// One try-push of a producer with `slots` slots that read `tail`.
    pub open spec fn try_push(self, slots: nat, tail: u32) -> TryStep {
        let next = self.next();
        let t = tail & INDEX_MASK;
        let consumed = tail & CONSUMED_FLAG != 0;
        let load = seq![CellOp::TailLoad { seen: tail }];
        if !(next < slots) {
            TryStep { state: self, ops: Seq::empty(), result: ProduceTryResult::QueueError }
        } else if self.head == INVALID_INDEX {
            TryStep {
                state: self.first_published(),
                ops: self.first_publish_ops(),
                result: ProduceTryResult::Success,
            }
        } else if !(t < slots) {
            TryStep { state: self, ops: load, result: ProduceTryResult::QueueError }
        } else if self.overrun != INVALID_INDEX && consumed {
            TryStep {
                state: self.published().restitched(next),
                ops: (load + self.publish_ops()).push(
                    CellOp::ChainStore { slot: self.overrun, value: next },
                ),
                result: ProduceTryResult::Success,
            }
        } else if self.overrun == INVALID_INDEX && next != t {
            TryStep {
                state: self.published().writing(next),
                ops: load + self.publish_ops(),
                result: ProduceTryResult::Success,
            }
        } else {
            TryStep { state: self, ops: load, result: ProduceTryResult::QueueFull }
        }
    }

    /// Whether a producer that reads `tail` has no slot to publish into.
    pub open spec fn is_full(self, slots: nat, tail: u32) -> bool {
        let t = tail & INDEX_MASK;
        if self.head == INVALID_INDEX || !(t < slots) {
            false
        } else if self.overrun != INVALID_INDEX {
            tail & CONSUMED_FLAG == 0
        } else {
            self.next() == t
        }
    }

    /// The operations of a fullness test that read `tail`.
    pub open spec fn full_ops(self, tail: u32) -> Seq<CellOp> {
        if self.head == INVALID_INDEX {
            Seq::empty()
        } else {
            seq![CellOp::TailLoad { seen: tail }]
        }
    }
}

/// The stores that write the first `upto` words of `message` to `slot`.
pub open spec fn message_stores(slot: u32, message: Seq<u32>, upto: int) -> Seq<CellOp> {
    Seq::new(
        upto as nat,
        |i: int| CellOp::SlotStore { slot, word: i as nat, value: message[i] },
    )
}

/// The producer end of a queue.
pub struct ProducerQueue<'a> {
    queue: Queue<'a>,
    chain: Vec<u32>,
    head: u32,
    current: u32,
    overrun: u32,
}

impl<'a> View for ProducerQueue<'a> {
    type V = ProducerState;

    closed spec fn view(&self) -> ProducerState {
        ProducerState {
            chain: self.chain@,
            head: self.head,
            current: self.current,
            overrun: self.overrun,
        }
    }
}

impl<'a> ProducerQueue<'a> {
    /// Number of slots, stride and place of the data region.
    pub closed spec fn shape(&self) -> QueueShape {
        self.queue.shape()
    }

    /// The operations made on the shared cells so far, oldest first.
    pub closed spec fn trace(&self) -> Seq<CellOp> {
        self.queue.trace()
    }

    /// The shared cells are in place.
    pub closed spec fn cells_wf(&self) -> bool {
        self.queue.wf()
    }

    /// The cells that this end acts on.
    pub closed spec fn cells(&self) -> &'a [AtomicU32] {
        self.queue.cells()
    }

    /// The shared cells are in place and the producer's own state is valid
    /// for the number of slots.
    pub open spec fn wf(&self) -> bool {
        self.cells_wf() && self@.wf(self.shape().slots)
    }

    /// The producer end of a queue laid over `chunk`. The producer's copy
    /// of the chain is that of a new queue; no shared cell is touched.
    ///
    /// Fails as `Queue::new` does.
    pub fn new(cells: &'a [AtomicU32], chunk: Chunk, config: &ChannelParam, cls: usize) -> (r:
        Result<Self, ShmError>)
        requires
            cls > 0,
            chunk.wf(),
        ensures
            r.is_ok() <==> Queue::placed(cells, chunk, config, cls),
            r matches Ok(producer) ==> {
                &&& producer.wf()
                &&& producer.cells() == cells
                &&& producer.shape() == Queue::shape_for(config@, chunk.start(), cls as int)
                &&& producer@ == ProducerState::initial(producer.shape().slots)
                &&& producer.trace() == Seq::<CellOp>::empty()
            },
            r matches Err(e) ==> e == (if Queue::fits(cells, chunk, config, cls) {
                ShmError::Alignment
            } else {
                ShmError::Size
            }),
    {
        let queue = match Queue::new(cells, chunk, config, cls) {
            Ok(q) => q,
            Err(e) => { return Err(e); },
        };
        let queue_len: usize = queue.len();
        let ghost slots = queue_len as nat;
        let mut chain: Vec<u32> = Vec::with_capacity(queue_len);
        let mut i: usize = 0;
        while i < queue_len
            invariant
                slots == queue_len,
                MIN_MSGS <= queue_len <= MAX_SLOTS,
                0 <= i <= queue_len,
                chain@ == ProducerState::initial(slots).chain.take(i as int),
            decreases queue_len - i,
        {
            let next: u32 = if i + 1 < queue_len {
                slot_id(i + 1)
            } else {
                0
            };
            chain.push(next);
            proof {
                assert(chain@ =~= ProducerState::initial(slots).chain.take(i + 1));
            }
            i = i + 1;
        }
        proof {
            assert(chain@ =~= ProducerState::initial(slots).chain);
        }
        Ok(ProducerQueue { queue, chain, head: INVALID_INDEX, current: 0, overrun: INVALID_INDEX })
    }

    /// Makes the queue new and empty in the shared cells, which is for the
    /// side that made the arena to do, once.
    pub fn init(&mut self)
        requires
            old(self).wf(),
        ensures
            final(self).wf(),
            final(self).shape() == old(self).shape(),
            final(self).cells() == old(self).cells(),
            final(self)@ == old(self)@,
            final(self).trace() == old(self).trace() + Queue::init_ops(old(self).shape().slots),
    {
        self.queue.init();
    }

    /// Bytes of a message, as the queue was declared with.
    pub fn message_size(&self) -> (r: usize)
        ensures
            r == self.shape().message_size,
    {
        self.queue.message_size()
    }

    /// Bytes from one slot to the next.
    pub fn slot_size(&self) -> (r: usize)
        ensures
            r == self.shape().slot_size,
    {
        self.queue.slot_size()
    }

    /// Slots beyond the mandatory three.
    pub fn additional_messages(&self) -> (r: usize)
        requires
            self.wf(),
        ensures
            r == self.shape().slots - MIN_MSGS,
    {
        self.queue.additional_messages()
    }

    /// The slot that the producer writes next.
    pub fn current(&self) -> (r: u32)
        ensures
            r == self@.current,
    {
        self.current
    }

    /// Arena offset of the slot that the producer writes next.
    pub fn current_message(&self) -> (r: usize)
        requires
            self.wf(),
        ensures
            r == self.shape().data_start + self@.current * self.shape().slot_size,
    {
        self.queue.message_offset(self.current)
    }

    /// Words of a message: the words that hold the bytes of the declared
    /// message size.
    pub fn message_words(&self) -> (r: usize)
        requires
            self.wf(),
        ensures
            r == self.shape().message_words(),
    {
        self.queue.words()
    }

    /// Writes `message` to the slot that is published next, word by word
    /// from its first.
    ///
    /// `ShmError::Size` where the message has more words than a message of
    /// the declared size;
    /// nothing is written then.
    pub fn write_message(&mut self, message: &[u32]) -> (r: Result<(), ShmError>)
        requires
            old(self).wf(),
        ensures
            final(self).wf(),
            final(self).shape() == old(self).shape(),
            final(self).cells() == old(self).cells(),
            final(self)@ == old(self)@,
            r.is_ok() <==> message@.len() <= old(self).shape().message_words(),
            r.is_ok() ==> final(self).trace() == old(self).trace() + message_stores(
                old(self)@.current,
                message@,
                message@.len() as int,
            ),
            r matches Err(e) ==> e == ShmError::Size && final(self).trace() == old(self).trace(),
    {
        if message.len() > self.queue.words() {
            return Err(ShmError::Size);
        }
        let ghost before = self.trace();
        let mut i: usize = 0;
        proof {
            assert(self.trace() =~= before + message_stores(self@.current, message@, 0));
        }
        while i < message.len()
            invariant
                0 <= i <= message@.len(),
                message@.len() <= self.queue.slot_words(),
                self.wf(),
                self.shape() == old(self).shape(),
                self.cells() == old(self).cells(),
                self@ == old(self)@,
                self.trace() == before + message_stores(self@.current, message@, i as int),
            decreases message@.len() - i,
        {
            self.queue.slot_store(self.current, i, message[i]);
            proof {
                assert(self.trace() =~= before + message_stores(
                    self@.current,
                    message@,
                    i + 1,
                ));
            }
            i = i + 1;
        }
        Ok(())
    }

    /// Writes a chain cell, in the producer's copy and in the shared cells.
    fn queue_store(&mut self, idx: u32, val: u32)
        requires
            old(self).cells_wf(),
            old(self)@.chain.len() == old(self).shape().slots,
            idx < old(self).shape().slots,
        ensures
            final(self).cells_wf(),
            final(self).shape() == old(self).shape(),
            final(self).cells() == old(self).cells(),
            final(self)@ == (ProducerState {
                chain: old(self)@.chain.update(idx as int, val),
                ..old(self)@
            }),
            final(self).trace() == old(self).trace().push(
                CellOp::ChainStore { slot: idx, value: val },
            ),
    {
        self.chain[idx as usize] = val;
        self.queue.queue_store(idx, val);
    }

    /// Tries to move `tail` from the value read to the slot behind it.
    fn move_tail(&mut self, tail: u32) -> (r: bool)
        requires
            old(self).cells_wf(),
            old(self)@.chain.len() == old(self).shape().slots,
            (tail & INDEX_MASK) < old(self).shape().slots,
        ensures
            final(self).cells_wf(),
            final(self).shape() == old(self).shape(),
            final(self).cells() == old(self).cells(),
            final(self)@ == old(self)@,
            final(self).trace() == old(self).trace().push(
                CellOp::TailExchange {
                    expected: tail,
                    new: old(self)@.chain[(tail & INDEX_MASK) as int],
                    done: r,
                },
            ),
    {
        let next: u32 = self.chain[(tail & INDEX_MASK) as usize];
        self.queue.tail_compare_exchange(tail, next)
    }

    /// Publishes `current` as the first message ever.
    fn enqueue_first_message(&mut self)
        requires
            old(self).wf(),
        ensures
            final(self).cells_wf(),
            final(self).shape() == old(self).shape(),
            final(self).cells() == old(self).cells(),
            final(self)@ == old(self)@.first_published().writing(old(self)@.current),
            final(self).trace() == old(self).trace() + old(self)@.first_publish_ops(),
    {
        let ghost before = self.trace();
        self.queue_store(self.current, INVALID_INDEX);
        self.queue.tail_store(self.current);
        self.head = self.current;
        self.queue.head_store(self.head);
        proof {
            assert(self.trace() =~= before + old(self)@.first_publish_ops());
        }
    }

    /// Links `current` behind the old head and makes it the new head.
    fn enqueue_message(&mut self)
        requires
            old(self).wf(),
            old(self)@.head != INVALID_INDEX,
        ensures
            final(self).cells_wf(),
            final(self).shape() == old(self).shape(),
            final(self).cells() == old(self).cells(),
            final(self)@ == old(self)@.published(),
            final(self).trace() == old(self).trace() + old(self)@.publish_ops(),
    {
        let ghost before = self.trace();
        self.queue_store(self.current, INVALID_INDEX);
        self.queue_store(self.head, self.current);
        self.head = self.current;
        self.queue.head_store(self.head);
        proof {
            assert(self.trace() =~= before + old(self)@.publish_ops());
        }
    }

    /// Tries to move `tail` past the slot that the consumer holds.
    ///
    /// Gives `None` where the chain names no slot behind the one that
    /// `tail` holds; nothing was done then. Else the result says whether a
    /// message was discarded.
    fn overrun(&mut self, tail: u32) -> (r: Option<bool>)
        requires
            old(self).cells_wf(),
            old(self)@.wf(old(self).shape().slots),
            (tail & INDEX_MASK) < old(self).shape().slots,
        ensures
            final(self).cells_wf(),
            final(self).shape() == old(self).shape(),
            final(self).cells() == old(self).cells(),
            final(self)@.wf(final(self).shape().slots),
            ({
                let t = tail & INDEX_MASK;
                let after = old(self)@.chain[t as int];
                let jump = CellOp::TailExchange {
                    expected: tail,
                    new: old(self)@.chain[after as int],
                    done: r == Some(true),
                };
                if !(after < old(self).shape().slots) {
                    &&& r.is_none()
                    &&& final(self)@ == old(self)@
                    &&& final(self).trace() == old(self).trace()
                } else {
                    &&& r.is_some()
                    &&& final(self).trace() == old(self).trace().push(jump)
                    &&& final(self)@ == (if r == Some(true) {
                        ProducerState { current: after, overrun: t, ..old(self)@ }
                    } else {
                        old(self)@.writing(t)
                    })
                }
            }),
    {
        let new_current: u32 = self.chain[(tail & INDEX_MASK) as usize];
        if !self.queue.is_valid_index(new_current) {
            return None;
        }
        let new_tail: u32 = self.chain[new_current as usize];
        if self.queue.tail_compare_exchange(tail, new_tail) {
            self.overrun = tail & INDEX_MASK;
            self.current = new_current;
            Some(true)
        } else {
            self.current = tail & INDEX_MASK;
            Some(false)
        }
    }

    /// Puts the slot taken from the consumer back before `next` and makes
    /// it the slot to write.
    fn restitch(&mut self, next: u32)
        requires
            old(self).cells_wf(),
            old(self)@.chain.len() == old(self).shape().slots,
            old(self)@.overrun < old(self).shape().slots,
        ensures
            final(self).cells_wf(),
            final(self).shape() == old(self).shape(),
            final(self).cells() == old(self).cells(),
            final(self)@ == old(self)@.restitched(next),
            final(self).trace() == old(self).trace().push(
                CellOp::ChainStore { slot: old(self)@.overrun, value: next },
            ),
    {
        self.queue_store(self.overrun, next);
        self.current = self.overrun;
        self.overrun = INVALID_INDEX;
    }

    /// Publishes `current` as the newest message; a full queue loses its
    /// oldest unread message.
    ///
    /// The call is one step of the producer's state machine for some view
    /// of the shared cells: the state, the result and the operations
    /// appended to the trace are those of `ProducerState::force_push`.
    pub fn force_push(&mut self) -> (r: ProduceForceResult)
        requires
            old(self).wf(),
        ensures
            final(self).wf(),
            final(self).shape() == old(self).shape(),
            final(self).cells() == old(self).cells(),
            exists|view: PushView|
                {
                    let step = #[trigger] old(self)@.force_push(old(self).shape().slots, view);
                    &&& final(self)@ == step.state
                    &&& final(self).trace() == old(self).trace() + step.ops
                    &&& r == step.result
                },
    {
        let ghost slots = self.shape().slots;
        let ghost start = self@;
        let ghost before = self.trace();
        let next: u32 = self.chain[self.current as usize];
        if !self.queue.is_valid_index(next) {
            proof {
                let view = PushView { tail: 0, moved: false, jumped: false };
                assert(self.trace() =~= before + start.force_push(slots, view).ops);
            }
            return ProduceForceResult::QueueError;
        }
        if self.head == INVALID_INDEX {
            self.enqueue_first_message();
            self.current = next;
            proof {
                let view = PushView { tail: 0, moved: false, jumped: false };
                assert(self@ == start.force_push(slots, view).state);
            }
            return ProduceForceResult::Success;
        }
        self.enqueue_message();
        let tail: u32 = self.queue.tail_load();
        let ghost loaded = self.trace();
        proof {
            lemma_flag_bits(tail);
            assert(loaded =~= before + start.publish_ops().push(CellOp::TailLoad { seen: tail }));
        }
        if !self.queue.is_valid_index(tail & INDEX_MASK) {
            proof {
                let view = PushView { tail, moved: false, jumped: false };
                assert(self@ == start.force_push(slots, view).state);
                assert(self.trace() =~= before + start.force_push(slots, view).ops);
            }
            return ProduceForceResult::QueueError;
        }
        let consumed: bool = (tail & CONSUMED_FLAG) != 0;
        let mut discarded: bool = false;
        let ghost mut moved: bool = false;
        let ghost mut jumped: bool = false;
        if self.overrun != INVALID_INDEX {
            if consumed {
                self.restitch(next);
            } else if self.move_tail(tail) {
                proof {
                    moved = true;
                }
                self.current = tail & INDEX_MASK;
                discarded = true;
            } else {
                self.restitch(next);
            }
        } else {
            let full: bool = next == (tail & INDEX_MASK);
            if !full {
                self.current = next;
            } else {
                let mut done: bool = false;
                if !consumed {
                    done = self.move_tail(tail);
                }
                if done {
                    proof {
                        moved = true;
                    }
                    self.current = next;
                    discarded = true;
                } else {
                    match self.overrun(tail | CONSUMED_FLAG) {
                        Some(jump) => {
                            proof {
                                jumped = jump;
                            }
                            discarded = jump;
                        },
                        None => {
                            proof {
                                let view = PushView { tail, moved: false, jumped: false };
                                assert(self@ == start.force_push(slots, view).state);
                                assert(self.trace() =~= before + start.force_push(
                                    slots,
                                    view,
                                ).ops);
                            }
                            return ProduceForceResult::QueueError;
                        },
                    }
                }
            }
        }
        let r = if discarded {
            ProduceForceResult::SuccessMessageDiscarded
        } else {
            ProduceForceResult::Success
        };
        proof {
            let view = PushView { tail, moved, jumped };
            let step = start.force_push(slots, view);
            assert(self@ == step.state);
            assert(self.trace() =~= before + step.ops);
            assert(r == step.result);
        }
        r
    }

    /// Publishes `current` unless the queue is full; a full queue is left
    /// as it is.
    ///
    /// The call is one step of the producer's state machine for some value
    /// of `tail`: the state, the result and the operations appended to the
    /// trace are those of `ProducerState::try_push`.
    pub fn try_push(&mut self) -> (r: ProduceTryResult)
        requires
            old(self).wf(),
        ensures
            final(self).wf(),
            final(self).shape() == old(self).shape(),
            final(self).cells() == old(self).cells(),
            exists|tail: u32|
                {
                    let step = #[trigger] old(self)@.try_push(old(self).shape().slots, tail);
                    &&& final(self)@ == step.state
                    &&& final(self).trace() == old(self).trace() + step.ops
                    &&& r == step.result
                },
    {
        let ghost slots = self.shape().slots;
        let ghost start = self@;
        let ghost before = self.trace();
        let next: u32 = self.chain[self.current as usize];
        if !self.queue.is_valid_index(next) {
            proof {
                assert(self.trace() =~= before + start.try_push(slots, 0).ops);
            }
            return ProduceTryResult::QueueError;
        }
        if self.head == INVALID_INDEX {
            self.enqueue_first_message();
            self.current = next;
            proof {
                assert(self@ == start.try_push(slots, 0).state);
            }
            return ProduceTryResult::Success;
        }
        let tail: u32 = self.queue.tail_load();
        proof {
            lemma_flag_bits(tail);
            assert(self.trace() =~= before + seq![CellOp::TailLoad { seen: tail }]);
        }
        if !self.queue.is_valid_index(tail & INDEX_MASK) {
            return ProduceTryResult::QueueError;
        }
        if self.overrun != INVALID_INDEX {
            let consumed: bool = (tail & CONSUMED_FLAG) != 0;
            if consumed {
                self.enqueue_message();
                self.restitch(next);
                proof {
                    let step = start.try_push(slots, tail);
                    assert(self@ == step.state);
                    assert(self.trace() =~= before + step.ops);
                }
                return ProduceTryResult::Success;
            }
        } else {
            let full: bool = next == (tail & INDEX_MASK);
            if !full {
                self.enqueue_message();
                self.current = next;
                proof {
                    let step = start.try_push(slots, tail);
                    assert(self@ == step.state);
                    assert(self.trace() =~= before + step.ops);
                }
                return ProduceTryResult::Success;
            }
        }
        ProduceTryResult::QueueFull
    }

    /// Whether the queue has no slot to publish into.
    pub fn full(&mut self) -> (r: bool)
        requires
            old(self).wf(),
        ensures
            final(self).wf(),
            final(self).shape() == old(self).shape(),
            final(self).cells() == old(self).cells(),
            final(self)@ == old(self)@,
            exists|tail: u32|
                {
                    &&& r == #[trigger] old(self)@.is_full(old(self).shape().slots, tail)
                    &&& final(self).trace() == old(self).trace() + old(self)@.full_ops(tail)
                },
    {
        if self.head == INVALID_INDEX {
            proof {
                assert(self.trace() =~= old(self).trace() + old(self)@.full_ops(0));
                assert(!old(self)@.is_full(old(self).shape().slots, 0));
            }
            return false;
        }
        let tail: u32 = self.queue.tail_load();
        proof {
            assert(self.trace() =~= old(self).trace() + old(self)@.full_ops(tail));
        }
        let r = if !self.queue.is_valid_index(tail & INDEX_MASK) {
            false
        } else if self.overrun != INVALID_INDEX {
            (tail & CONSUMED_FLAG) == 0
        } else {
            self.chain[self.current as usize] == (tail & INDEX_MASK)
        };
        assert(r == old(self)@.is_full(old(self).shape().slots, tail));
        r
    }
}

/// A position below the slot limit as a cell value.
fn slot_id(i: usize) -> (r: u32)
    requires
        i <= MAX_SLOTS,
    ensures
        r == i,
{
    i as u32
}

} // verus!
