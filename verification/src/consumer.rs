//! The consumer end of a queue: what the consumer keeps for itself and how
//! a pop or a flush acts on the shared cells.
//!
//! As for the producer, every operation is one step of a state machine,
//! given by the consumer's state before the call and by what the shared
//! cells showed during it.
use vstd::prelude::*;
use std::sync::atomic::AtomicU32;
use crate::cells::CellOp;
use crate::cells::Queue;
use crate::cells::QueueShape;
use crate::cells::lemma_flag_bits;
use crate::cells::CONSUMED_FLAG;
use crate::cells::INDEX_MASK;
use crate::cells::INVALID_INDEX;
use crate::cells::MAX_SLOTS;
use crate::error::ShmError;
use crate::layout::MIN_MSGS;
use crate::param::ChannelParam;
use crate::queue::ConsumeResult;
use crate::shm::Chunk;

verus! {

/// What a consumer keeps for itself.
pub ghost struct ConsumerState {
    /// The slot that the consumer may read.
    pub current: u32,
    /// Whether a message was ever taken, so that `current` holds one.
    pub holding: bool,
}

/// What the shared cells showed during one pop.
pub ghost struct PopView {
    /// What `tail` held when the consumed flag was set.
    pub tail: u32,
    /// What the chain cell of `current` held, where it was read.
    pub next: u32,
    /// Whether moving `tail` to the next slot succeeded, where it was tried.
    pub swapped: bool,
    /// What `tail` held when it was read again, where it was.
    pub again: u32,
}

/// What the shared cells showed during one attempt of a flush.
pub ghost struct FlushView {
    /// What `tail` held when the consumed flag was set.
    pub tail: u32,
    /// What `head` held, where it was read.
    pub head: u32,
    /// Whether moving `tail` to the head succeeded, where it was tried.
    pub swapped: bool,
}

/// Outcome of a pop or a flush.
pub ghost struct ConsumeStep {
    pub state: ConsumerState,
    pub ops: Seq<CellOp>,
    pub result: ConsumeResult,
}

impl ConsumerState {
    /// `current` names a slot.
    pub open spec fn wf(self, slots: nat) -> bool {
        MIN_MSGS <= slots <= MAX_SLOTS && self.current < slots
    }

    /// The state of a new consumer.
    pub open spec fn initial() -> ConsumerState {
        ConsumerState { current: 0, holding: false }
    }

    /// The state after `slot` was taken.
    pub open spec fn taking(self, slot: u32) -> ConsumerState {
        ConsumerState { current: slot, holding: true }
    }

    /// One pop of a consumer of a queue with `slots` slots that saw `view`.
    pub open spec fn pop(self, slots: nat, view: PopView) -> ConsumeStep {
        let mark = CellOp::TailFetchOr { bits: CONSUMED_FLAG, seen: view.tail };
        let load = CellOp::ChainLoad { slot: self.current, seen: view.next };
        let swap = CellOp::TailExchange {
            expected: view.tail,
            new: view.next | CONSUMED_FLAG,
            done: view.swapped,
        };
        let again = CellOp::TailFetchOr { bits: CONSUMED_FLAG, seen: view.again };
        if view.tail == INVALID_INDEX {
            ConsumeStep { state: self, ops: seq![mark], result: ConsumeResult::NoMessage }
        } else if !((view.tail & INDEX_MASK) < slots) {
            ConsumeStep { state: self, ops: seq![mark], result: ConsumeResult::QueueError }
        } else if view.tail & CONSUMED_FLAG == 0 {
            ConsumeStep {
                state: self.taking(view.tail & INDEX_MASK),
                ops: seq![mark],
                result: ConsumeResult::SuccessMessagesDiscarded,
            }
        } else if view.next == INVALID_INDEX {
            ConsumeStep { state: self, ops: seq![mark, load], result: ConsumeResult::NoNewMessage }
        } else if !(view.next < slots) {
            ConsumeStep { state: self, ops: seq![mark, load], result: ConsumeResult::QueueError }
        } else if view.swapped {
            ConsumeStep {
                state: self.taking(view.next),
                ops: seq![mark, load, swap],
                result: ConsumeResult::Success,
            }
        } else if !((view.again & INDEX_MASK) < slots) {
            ConsumeStep {
                state: self,
                ops: seq![mark, load, swap, again],
                result: ConsumeResult::QueueError,
            }
        } else {
            ConsumeStep {
                state: self.taking(view.again & INDEX_MASK),
                ops: seq![mark, load, swap, again],
                result: ConsumeResult::SuccessMessagesDiscarded,
            }
        }
    }

    /// How one attempt of a flush ends, or `None` where it lost the race
    /// for `tail` against the producer and is made again.
    pub open spec fn flush_attempt(slots: nat, view: FlushView) -> Option<ConsumeResult> {
        if view.tail == INVALID_INDEX {
            Some(ConsumeResult::NoMessage)
        } else if !((view.tail & INDEX_MASK) < slots) || !(view.head < slots) {
            Some(ConsumeResult::QueueError)
        } else if view.swapped {
            Some(ConsumeResult::Success)
        } else {
            None
        }
    }

    /// The operations of one attempt of a flush.
    pub open spec fn flush_attempt_ops(slots: nat, view: FlushView) -> Seq<CellOp> {
        let mark = CellOp::TailFetchOr { bits: CONSUMED_FLAG, seen: view.tail };
        let load = CellOp::HeadLoad { seen: view.head };
        let swap = CellOp::TailExchange {
            expected: view.tail | CONSUMED_FLAG,
            new: view.head | CONSUMED_FLAG,
            done: view.swapped,
        };
        if view.tail == INVALID_INDEX || !((view.tail & INDEX_MASK) < slots) {
            seq![mark]
        } else if !(view.head < slots) {
            seq![mark, load]
        } else {
            seq![mark, load, swap]
        }
    }

    /// A flush that gave up: `tail` is read once more and its slot taken,
    /// as a pop does after a lost race.
    pub open spec fn flush_settle(self, slots: nat, again: u32) -> ConsumeStep {
        let mark = CellOp::TailFetchOr { bits: CONSUMED_FLAG, seen: again };
        if again == INVALID_INDEX {
            ConsumeStep { state: self, ops: seq![mark], result: ConsumeResult::NoMessage }
        } else if !((again & INDEX_MASK) < slots) {
            ConsumeStep { state: self, ops: seq![mark], result: ConsumeResult::QueueError }
        } else {
            ConsumeStep {
                state: self.taking(again & INDEX_MASK),
                ops: seq![mark],
                result: ConsumeResult::SuccessMessagesDiscarded,
            }
        }
    }

    /// A flush that made the attempts `views` in turn and, where the last
    /// of them lost its race too, read `again` from `tail` at the end.
    pub open spec fn flush(self, slots: nat, views: Seq<FlushView>, again: u32) -> ConsumeStep
        decreases views.len(),
    {
        if views.len() == 0 {
            self.flush_settle(slots, again)
        } else {
            let ops = Self::flush_attempt_ops(slots, views[0]);
            match Self::flush_attempt(slots, views[0]) {
                Some(result) => ConsumeStep {
                    state: if result == ConsumeResult::Success {
                        self.taking(views[0].head)
                    } else {
                        self
                    },
                    ops,
                    result,
                },
                None => {
                    let rest = self.flush(slots, views.drop_first(), again);
                    ConsumeStep { state: rest.state, ops: ops + rest.ops, result: rest.result }
                },
            }
        }
    }

    /// Every attempt in `views` lost its race.
    pub open spec fn all_lost(slots: nat, views: Seq<FlushView>) -> bool {
        forall|i: int|
            0 <= i < views.len() ==> (#[trigger] Self::flush_attempt(slots, views[i])).is_none()
    }

    /// The operations of the attempts `views`, in order.
    pub open spec fn lost_ops(slots: nat, views: Seq<FlushView>) -> Seq<CellOp>
        decreases views.len(),
    {
        if views.len() == 0 {
            Seq::empty()
        } else {
            Self::lost_ops(slots, views.drop_last()) + Self::flush_attempt_ops(slots, views.last())
        }
    }

    /// A flush whose first attempts all lost is the flush of the remaining
    /// attempts, behind the operations of the lost ones.
    pub proof fn lemma_flush_after_lost(
        self,
        slots: nat,
        lost: Seq<FlushView>,
        rest: Seq<FlushView>,
        again: u32,
    )
        requires
            Self::all_lost(slots, lost),
        ensures
            self.flush(slots, lost + rest, again).state == self.flush(slots, rest, again).state,
            self.flush(slots, lost + rest, again).result == self.flush(slots, rest, again).result,
            self.flush(slots, lost + rest, again).ops =~= Self::lost_ops(slots, lost) + self.flush(
                slots,
                rest,
                again,
            ).ops,
        decreases lost.len(),
    {
        if lost.len() == 0 {
            assert(lost + rest =~= rest);
        } else {
            let shorter = lost.drop_last();
            let longer = seq![lost.last()] + rest;
            assert(lost + rest =~= shorter + longer);
            assert(Self::flush_attempt(slots, lost[lost.len() - 1]).is_none());
            assert(longer[0] == lost.last());
            assert(longer.drop_first() =~= rest);
            assert forall|i: int| 0 <= i < shorter.len() implies (#[trigger] Self::flush_attempt(
                slots,
                shorter[i],
            )).is_none() by {
                assert(shorter[i] == lost[i]);
            }
            self.lemma_flush_after_lost(slots, shorter, longer, again);
        }
    }

    /// A flush whose attempts all lost but the last, which was decisive,
    /// ends as that attempt does.
    pub proof fn lemma_flush_decided(
        self,
        slots: nat,
        lost: Seq<FlushView>,
        view: FlushView,
        again: u32,
    )
        requires
            Self::all_lost(slots, lost),
            Self::flush_attempt(slots, view).is_some(),
        ensures
            lost.push(view).drop_last() == lost,
            lost.push(view).last() == view,
            self.flush(slots, lost.push(view), again).result == Self::flush_attempt(
                slots,
                view,
            ).unwrap(),
            self.flush(slots, lost.push(view), again).state == (if Self::flush_attempt(slots, view)
                == Some(ConsumeResult::Success) {
                self.taking(view.head)
            } else {
                self
            }),
            self.flush(slots, lost.push(view), again).ops == Self::lost_ops(slots, lost)
                + Self::flush_attempt_ops(slots, view),
    {
        let rest = seq![view];
        assert(rest[0] == view);
        assert(lost.push(view) =~= lost + rest);
        assert(lost.push(view).drop_last() =~= lost);
        self.lemma_flush_after_lost(slots, lost, rest, again);
        let one = self.flush(slots, rest, again);
        assert(one.ops == Self::flush_attempt_ops(slots, view));
        assert(self.flush(slots, lost.push(view), again).ops =~= Self::lost_ops(slots, lost)
            + Self::flush_attempt_ops(slots, view));
    }

    /// A flush whose attempts all lost ends by taking the slot that `tail`
    /// names.
    pub proof fn lemma_flush_gave_up(self, slots: nat, lost: Seq<FlushView>, again: u32)
        requires
            Self::all_lost(slots, lost),
        ensures
            self.flush(slots, lost, again).result == self.flush_settle(slots, again).result,
            self.flush(slots, lost, again).state == self.flush_settle(slots, again).state,
            self.flush(slots, lost, again).ops == Self::lost_ops(slots, lost) + self.flush_settle(
                slots,
                again,
            ).ops,
            lost.len() > 0 ==> Self::all_lost(slots, lost.drop_last()) && Self::flush_attempt(
                slots,
                lost.last(),
            ).is_none(),
    {
        let none = Seq::<FlushView>::empty();
        self.lemma_flush_after_lost(slots, lost, none, again);
        assert(lost + none =~= lost);
        if lost.len() > 0 {
            assert forall|i: int| 0 <= i < lost.drop_last().len() implies (
            #[trigger] Self::flush_attempt(slots, lost.drop_last()[i])).is_none() by {
                assert(lost.drop_last()[i] == lost[i]);
            }
            assert(Self::flush_attempt(slots, lost[lost.len() - 1]).is_none());
        }
    }
}

/// The loads that read the words `message` from `slot`, from its first
/// word on.
pub open spec fn message_loads(slot: u32, message: Seq<u32>) -> Seq<CellOp> {
    Seq::new(
        message.len(),
        |i: int| CellOp::SlotLoad { slot, word: i as nat, seen: message[i] },
    )
}

/// How often a flush tries to move `tail` to the head before it takes the
/// slot that `tail` names instead.
pub const FLUSH_ATTEMPTS: u32 = 0xFFFF_FFFF;

/// The consumer end of a queue.
pub struct ConsumerQueue<'a> {
    queue: Queue<'a>,
    current: u32,
    holding: bool,
}

impl<'a> View for ConsumerQueue<'a> {
    type V = ConsumerState;

    closed spec fn view(&self) -> ConsumerState {
        ConsumerState { current: self.current, holding: self.holding }
    }
}

impl<'a> ConsumerQueue<'a> {
    /// Number of slots, stride and place of the data region.
    pub closed spec fn shape(&self) -> QueueShape {
        self.queue.shape()
    }

    /// The operations made on the shared cells so far, oldest first.
    pub closed spec fn trace(&self) -> Seq<CellOp> {
        self.queue.trace()
    }

    /// The shared cells are in place.
    pub closed spec fn cells_wf(&self) -> bool {
        self.queue.wf()
    }

    /// The cells that this end acts on.
    pub closed spec fn cells(&self) -> &'a [AtomicU32] {
        self.queue.cells()
    }

    /// The shared cells are in place and `current` names a slot.
    pub open spec fn wf(&self) -> bool {
        self.cells_wf() && self@.wf(self.shape().slots)
    }

    /// The consumer end of a queue laid over `chunk`. No shared cell is
    /// touched.
    ///
    /// Fails as `Queue::new` does.
    pub fn new(cells: &'a [AtomicU32], chunk: Chunk, config: &ChannelParam, cls: usize) -> (r:
        Result<Self, ShmError>)
        requires
            cls > 0,
            chunk.wf(),
        ensures
            r.is_ok() <==> Queue::placed(cells, chunk, config, cls),
            r matches Ok(consumer) ==> {
                &&& consumer.wf()
                &&& consumer.cells() == cells
                &&& consumer.shape() == Queue::shape_for(config@, chunk.start(), cls as int)
                &&& consumer@ == ConsumerState::initial()
                &&& consumer.trace() == Seq::<CellOp>::empty()
            },
            r matches Err(e) ==> e == (if Queue::fits(cells, chunk, config, cls) {
                ShmError::Alignment
            } else {
                ShmError::Size
            }),
    {
        let queue = match Queue::new(cells, chunk, config, cls) {
            Ok(q) => q,
            Err(e) => { return Err(e); },
        };
        Ok(ConsumerQueue { queue, current: 0, holding: false })
    }

    /// Makes the queue new and empty in the shared cells, which is for the
    /// side that made the arena to do, once.
    pub fn init(&mut self)
        requires
            old(self).wf(),
        ensures
            final(self).wf(),
            final(self).shape() == old(self).shape(),
            final(self).cells() == old(self).cells(),
            final(self)@ == old(self)@,
            final(self).trace() == old(self).trace() + Queue::init_ops(old(self).shape().slots),
    {
        self.queue.init();
    }

    /// Bytes of a message, as the queue was declared with.
    pub fn message_size(&self) -> (r: usize)
        ensures
            r == self.shape().message_size,
    {
        self.queue.message_size()
    }

    /// Bytes from one slot to the next.
    pub fn slot_size(&self) -> (r: usize)
        ensures
            r == self.shape().slot_size,
    {
        self.queue.slot_size()
    }

    /// Slots beyond the mandatory three.
    pub fn additional_messages(&self) -> (r: usize)
        requires
            self.wf(),
        ensures
            r == self.shape().slots - MIN_MSGS,
    {
        self.queue.additional_messages()
    }

    /// The slot in hand, if a message was ever taken.
    pub fn current(&self) -> (r: Option<u32>)
        ensures
            r == (if self@.holding {
                Some(self@.current)
            } else {
                None
            }),
    {
        if self.holding {
            Some(self.current)
        } else {
            None
        }
    }

    /// Arena offset of the message in hand, if a message was ever taken.
    pub fn current_message(&self) -> (r: Option<usize>)
        requires
            self.wf(),
        ensures
            r.is_some() == self@.holding,
            r.is_some() ==> r.unwrap() == self.shape().data_start + self@.current
                * self.shape().slot_size,
    {
        if self.holding {
            Some(self.queue.message_offset(self.current))
        } else {
            None
        }
    }

    /// Words of a message: the words that hold the bytes of the declared
    /// message size.
    pub fn message_words(&self) -> (r: usize)
        requires
            self.wf(),
        ensures
            r == self.shape().message_words(),
    {
        self.queue.words()
    }

    /// Reads the first `count` words of the message in hand.
    ///
    /// There is nothing to read where no message was ever taken or a message
    /// of the declared size has fewer words; no cell is read then.
    pub fn read_message(&mut self, count: usize) -> (r: Option<Vec<u32>>)
        requires
            old(self).wf(),
        ensures
            final(self).wf(),
            final(self).shape() == old(self).shape(),
            final(self).cells() == old(self).cells(),
            final(self)@ == old(self)@,
            r.is_some() <==> old(self)@.holding && count <= old(self).shape().message_words(),
            r matches Some(message) ==> message@.len() == count && final(self).trace() == old(
                self,
            ).trace() + message_loads(old(self)@.current, message@),
            r.is_none() ==> final(self).trace() == old(self).trace(),
    {
        if !self.holding || count > self.queue.words() {
            return None;
        }
        let ghost before = self.trace();
        let mut message: Vec<u32> = Vec::with_capacity(count);
        proof {
            assert(self.trace() =~= before + message_loads(self@.current, message@));
        }
        while message.len() < count
            invariant
                message@.len() <= count,
                count <= self.queue.slot_words(),
                self.wf(),
                self.shape() == old(self).shape(),
                self.cells() == old(self).cells(),
                self@ == old(self)@,
                self.trace() == before + message_loads(self@.current, message@),
            decreases count - message@.len(),
        {
            let word = self.queue.slot_load(self.current, message.len());
            message.push(word);
            proof {
                assert(self.trace() =~= before + message_loads(self@.current, message@));
            }
        }
        Some(message)
    }

    /// Takes the next unread message.
    ///
    /// The call is one step of the consumer's state machine for some view
    /// of the shared cells: the state, the result and the operations
    /// appended to the trace are those of `ConsumerState::pop`.
    pub fn pop(&mut self) -> (r: ConsumeResult)
        requires
            old(self).wf(),
        ensures
            final(self).wf(),
            final(self).shape() == old(self).shape(),
            final(self).cells() == old(self).cells(),
            exists|view: PopView|
                {
                    let step = #[trigger] old(self)@.pop(old(self).shape().slots, view);
                    &&& final(self)@ == step.state
                    &&& final(self).trace() == old(self).trace() + step.ops
                    &&& r == step.result
                },
    {
        let ghost slots = self.shape().slots;
        let ghost start = self@;
        let ghost before = self.trace();
        let tail: u32 = self.queue.tail_fetch_or(CONSUMED_FLAG);
        proof {
            lemma_flag_bits(tail);
        }
        if tail == INVALID_INDEX {
            proof {
                let view = PopView { tail, next: 0, swapped: false, again: 0 };
                assert(self.trace() =~= before + start.pop(slots, view).ops);
            }
            return ConsumeResult::NoMessage;
        }
        if !self.queue.is_valid_index(tail & INDEX_MASK) {
            proof {
                let view = PopView { tail, next: 0, swapped: false, again: 0 };
                assert(self.trace() =~= before + start.pop(slots, view).ops);
            }
            return ConsumeResult::QueueError;
        }
        if tail & CONSUMED_FLAG == 0 {
            self.current = tail & INDEX_MASK;
            self.holding = true;
            proof {
                let view = PopView { tail, next: 0, swapped: false, again: 0 };
                assert(self.trace() =~= before + start.pop(slots, view).ops);
            }
            return ConsumeResult::SuccessMessagesDiscarded;
        }
        let next: u32 = self.queue.chain_load(self.current);
        if next == INVALID_INDEX {
            proof {
                let view = PopView { tail, next, swapped: false, again: 0 };
                assert(self.trace() =~= before + start.pop(slots, view).ops);
            }
            return ConsumeResult::NoNewMessage;
        }
        if !self.queue.is_valid_index(next) {
            proof {
                let view = PopView { tail, next, swapped: false, again: 0 };
                assert(self.trace() =~= before + start.pop(slots, view).ops);
            }
            return ConsumeResult::QueueError;
        }
        if self.queue.tail_compare_exchange(tail, next | CONSUMED_FLAG) {
            self.current = next;
            self.holding = true;
            proof {
                let view = PopView { tail, next, swapped: true, again: 0 };
                assert(self.trace() =~= before + start.pop(slots, view).ops);
            }
            ConsumeResult::Success
        } else {
            let again: u32 = self.queue.tail_fetch_or(CONSUMED_FLAG);
            proof {
                lemma_flag_bits(again);
                let view = PopView { tail, next, swapped: false, again };
                assert(self.trace() =~= before + start.pop(slots, view).ops);
            }
            if !self.queue.is_valid_index(again & INDEX_MASK) {
                return ConsumeResult::QueueError;
            }
            self.current = again & INDEX_MASK;
            self.holding = true;
            ConsumeResult::SuccessMessagesDiscarded
        }
    }

    /// Drops every message but the newest, and takes that one.
    ///
    /// Each attempt sets the consumed flag in `tail`, reads `head` and tries
    /// to move `tail` there; it is made again while the producer moves
    /// `tail` in between. After `FLUSH_ATTEMPTS` lost attempts the slot
    /// that `tail` names is taken instead, as a pop does after a lost race.
    /// The state, the result and the operations appended to the trace are
    /// those of `ConsumerState::flush` for the attempts made.
    ///
    /// A flush is safe while no push overlaps it. A push links the slot
    /// that it publishes before it stores it to `head`, so a pop can move
    /// `tail` to that slot while `head` still names the slot before it. A
    /// flush that reads this `head`, and moves `tail` there only after the
    /// producer has pushed twice more, takes the slot that the producer
    /// writes next; the module `race` holds such a schedule.
    pub fn flush(&mut self) -> (r: ConsumeResult)
        requires
            old(self).wf(),
        ensures
            final(self).wf(),
            final(self).shape() == old(self).shape(),
            final(self).cells() == old(self).cells(),
            exists|views: Seq<FlushView>, again: u32|
                {
                    let step = #[trigger] old(self)@.flush(
                        old(self).shape().slots,
                        views,
                        again,
                    );
                    &&& 1 <= views.len() <= FLUSH_ATTEMPTS
                    &&& ConsumerState::all_lost(old(self).shape().slots, views.drop_last())
                    &&& ConsumerState::flush_attempt(
                        old(self).shape().slots,
                        views.last(),
                    ).is_none() ==> views.len() == FLUSH_ATTEMPTS
                    &&& final(self)@ == step.state
                    &&& final(self).trace() == old(self).trace() + step.ops
                    &&& r == step.result
                },
    {
        let ghost slots = self.shape().slots;
        let ghost start = self@;
        let ghost before = self.trace();
        let ghost mut lost: Seq<FlushView> = Seq::empty();
        let mut attempts: u32 = 0;
        while attempts < FLUSH_ATTEMPTS
            invariant
                self.cells_wf(),
                self.shape() == old(self).shape(),
                self.cells() == old(self).cells(),
                self.shape().slots == slots,
                self@ == start,
                start == old(self)@,
                before == old(self).trace(),
                start.wf(slots),
                lost.len() == attempts,
                attempts <= FLUSH_ATTEMPTS,
                ConsumerState::all_lost(slots, lost),
                self.trace() == before + ConsumerState::lost_ops(slots, lost),
            decreases FLUSH_ATTEMPTS - attempts,
        {
            let ghost reached = self.trace();
            let tail: u32 = self.queue.tail_fetch_or(CONSUMED_FLAG);
            proof {
                lemma_flag_bits(tail);
            }
            if tail == INVALID_INDEX || !self.queue.is_valid_index(tail & INDEX_MASK) {
                let r = if tail == INVALID_INDEX {
                    ConsumeResult::NoMessage
                } else {
                    ConsumeResult::QueueError
                };
                proof {
                    let view = FlushView { tail, head: 0, swapped: false };
                    start.lemma_flush_decided(slots, lost, view, 0);
                    assert(self.trace() =~= before + start.flush(slots, lost.push(view), 0).ops);
                }
                return r;
            }
            let head: u32 = self.queue.head_load();
            if !self.queue.is_valid_index(head) {
                proof {
                    let view = FlushView { tail, head, swapped: false };
                    start.lemma_flush_decided(slots, lost, view, 0);
                    assert(self.trace() =~= before + start.flush(slots, lost.push(view), 0).ops);
                }
                return ConsumeResult::QueueError;
            }
            if self.queue.tail_compare_exchange(tail | CONSUMED_FLAG, head | CONSUMED_FLAG) {
                self.current = head;
                self.holding = true;
                proof {
                    let view = FlushView { tail, head, swapped: true };
                    start.lemma_flush_decided(slots, lost, view, 0);
                    assert(self.trace() =~= before + start.flush(slots, lost.push(view), 0).ops);
                }
                return ConsumeResult::Success;
            }
            proof {
                let view = FlushView { tail, head, swapped: false };
                let longer = lost.push(view);
                assert(longer.drop_last() =~= lost);
                assert(self.trace() =~= before + ConsumerState::lost_ops(slots, longer));
                lost = longer;
            }
            attempts = attempts + 1;
        }
        let again: u32 = self.queue.tail_fetch_or(CONSUMED_FLAG);
        proof {
            lemma_flag_bits(again);
            start.lemma_flush_gave_up(slots, lost, again);
            assert(self.trace() =~= before + start.flush(slots, lost, again).ops);
        }
        if again == INVALID_INDEX {
            return ConsumeResult::NoMessage;
        }
        if !self.queue.is_valid_index(again & INDEX_MASK) {
            return ConsumeResult::QueueError;
        }
        self.current = again & INDEX_MASK;
        self.holding = true;
        ConsumeResult::SuccessMessagesDiscarded
    }
}

} // verus!
