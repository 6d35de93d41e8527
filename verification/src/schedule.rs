//! Both ends of a queue in any schedule: the atomic operations of a push
//! and of a pop may alternate in any way.
//!
//! A push or a pop in flight is the step of its state machine for a view
//! that is fixed when it begins, of which some operations are made and the
//! others are still to come. An operation can be made when the cells show
//! what it is to see; a view that the cells do not bear out is never
//! carried through. The end's own state changes with the last operation.
//!
//! The system keeps an invariant from which the guarantees of the queue
//! follow for every schedule of pushes, pops, and writes and reads of
//! messages: no operation meets a value that names no slot, the slot that
//! the producer writes is never one that the consumer holds or that is
//! linked between `tail` and `head`, and what the consumer reads of the
//! slot that it holds is what the slot was published with.
//!
//! A flush enters these schedules as one move, made while no push and no
//! pop is in flight; where nothing is in flight the invariant here is the
//! invariant of `model`, in which a flush is a step. A flush that overlaps
//! pushes is not covered, and cannot be: while a push is in flight, `head`
//! can lag one slot behind a `tail` that a pop has moved on already; a
//! flush that reads this `head` and moves `tail` there after two more
//! pushes takes the very slot that the producer writes next, as the module
//! `race` shows.
use vstd::prelude::*;
use crate::cells::CellOp;
use crate::cells::lemma_flag_bits;
use crate::cells::CONSUMED_FLAG;
use crate::cells::INDEX_MASK;
use crate::cells::INVALID_INDEX;
use crate::consumer::ConsumerState;
use crate::consumer::PopView;
use crate::model::lemma_flush_coherent;
use crate::model::Cells;
use crate::model::System;
use crate::producer::ProducerState;
use crate::producer::PushView;
use crate::queue::ConsumeResult;
use crate::queue::ProduceForceResult;
use crate::queue::ProduceTryResult;
use crate::ring::lemma_first_publish;
use crate::ring::lemma_jump;
use crate::ring::lemma_publish;
use crate::ring::lemma_restitch;
use crate::ring::lemma_rotated;
use crate::ring::ring_order;
use crate::ring::rotated;

verus! {

/// A push and what it is to see.
pub ghost enum Push {
    Force { view: PushView },
    Try { tail: u32 },
}

/// A queue whose ends may each be in the middle of an operation.
pub ghost struct Interleaved {
    pub slots: nat,
    pub cells: Cells,
    /// For each slot, the words that it held when it was published last.
    pub sent: Seq<Seq<u32>>,
    /// The producer's state; while a push is in flight, the state that the
    /// push began with.
    pub producer: ProducerState,
    /// The push in flight, if one is in flight.
    pub push: Option<Push>,
    /// Number of operations that the push in flight has made.
    pub push_done: nat,
    /// The consumer's state; while a pop is in flight, the state that the
    /// pop began with.
    pub consumer: ConsumerState,
    /// What the pop in flight sees, if one is in flight.
    pub pop: Option<PopView>,
    /// Number of operations that the pop in flight has made.
    pub pop_done: nat,
}

impl Interleaved {
    /// A queue that the owner of the arena has just made new and empty.
    pub open spec fn initial(slots: nat, words: Seq<Seq<u32>>) -> Interleaved {
        Interleaved {
            slots,
            cells: Cells {
                tail: INVALID_INDEX,
                head: INVALID_INDEX,
                chain: ProducerState::initial(slots).chain,
                words,
            },
            sent: words,
            producer: ProducerState::initial(slots),
            push: None,
            push_done: 0,
            consumer: ConsumerState::initial(),
            pop: None,
            pop_done: 0,
        }
    }

    /// The operations of a push of the producer.
    pub open spec fn ops_of(self, push: Push) -> Seq<CellOp> {
        match push {
            Push::Force { view } => self.producer.force_push(self.slots, view).ops,
            Push::Try { tail } => self.producer.try_push(self.slots, tail).ops,
        }
    }

    /// The state that a push of the producer ends with.
    pub open spec fn end_of(self, push: Push) -> ProducerState {
        match push {
            Push::Force { view } => self.producer.force_push(self.slots, view).state,
            Push::Try { tail } => self.producer.try_push(self.slots, tail).state,
        }
    }

    /// The push met a cell value that names no slot.
    pub open spec fn failed(self, push: Push) -> bool {
        match push {
            Push::Force { view } => self.producer.force_push(self.slots, view).result
                == ProduceForceResult::QueueError,
            Push::Try { tail } => self.producer.try_push(self.slots, tail).result
                == ProduceTryResult::QueueError,
        }
    }

    /// The operations of the push in flight, made or still to come.
    pub open spec fn push_ops(self) -> Seq<CellOp> {
        match self.push {
            Some(push) => self.ops_of(push),
            None => Seq::empty(),
        }
    }

    /// The state that the push in flight ends with.
    pub open spec fn push_end(self) -> ProducerState {
        match self.push {
            Some(push) => self.end_of(push),
            None => self.producer,
        }
    }

    /// The operations of the pop in flight, made or still to come.
    pub open spec fn pop_ops(self) -> Seq<CellOp> {
        match self.pop {
            Some(view) => self.consumer.pop(self.slots, view).ops,
            None => Seq::empty(),
        }
    }

    /// The state that the pop in flight ends with.
    pub open spec fn pop_end(self) -> ConsumerState {
        match self.pop {
            Some(view) => self.consumer.pop(self.slots, view).state,
            None => self.consumer,
        }
    }

    /// The producer begins a push.
    pub open spec fn begin_push(self, push: Push) -> Interleaved {
        if self.ops_of(push).len() == 0 {
            Interleaved { producer: self.end_of(push), ..self }
        } else {
            Interleaved { push: Some(push), push_done: 0, ..self }
        }
    }

    /// The push in flight can make its next operation: the cells show what
    /// the operation is to see.
    pub open spec fn can_push(self) -> bool {
        &&& self.push.is_some()
        &&& self.push_done < self.push_ops().len()
        &&& self.cells.shows(self.push_ops()[self.push_done as int])
    }

    /// The push in flight makes its next operation. With the store that
    /// links the slot, the slot is published with the words that it holds.
    pub open spec fn push_step(self) -> Interleaved {
        let cells = self.cells.after(self.push_ops()[self.push_done as int]);
        let sent = if self.storing() && self.stores() == 1 {
            self.sent.update(
                self.producer.current as int,
                self.cells.words[self.producer.current as int],
            )
        } else {
            self.sent
        };
        if self.push_done + 1 == self.push_ops().len() {
            Interleaved { cells, sent, producer: self.push_end(), push: None, push_done: 0, ..self }
        } else {
            Interleaved { cells, sent, push_done: self.push_done + 1, ..self }
        }
    }

    /// The producer, with no push in flight, writes a word of the slot
    /// that it publishes next.
    pub open spec fn can_write(self, word: nat) -> bool {
        &&& self.push.is_none()
        &&& word < self.cells.words[self.producer.current as int].len()
    }

    /// The queue after the producer has written a word.
    pub open spec fn write_step(self, word: nat, value: u32) -> Interleaved {
        Interleaved {
            cells: self.cells.after(
                CellOp::SlotStore { slot: self.producer.current, word, value },
            ),
            ..self
        }
    }

    /// The consumer, with no pop in flight, can read a word of the message
    /// that it holds.
    pub open spec fn can_read(self, word: nat) -> bool {
        &&& self.pop.is_none()
        &&& self.consumer.holding
        &&& word < self.cells.words[self.consumer.current as int].len()
    }

    /// What the consumer reads of a word of the message that it holds.
    pub open spec fn read(self, word: nat) -> u32 {
        self.cells.words[self.consumer.current as int][word as int]
    }

    /// The consumer begins a pop that is to see `view`.
    pub open spec fn begin_pop(self, view: PopView) -> Interleaved {
        Interleaved { pop: Some(view), pop_done: 0, ..self }
    }

    /// The pop in flight can make its next operation.
    pub open spec fn can_pop(self) -> bool {
        &&& self.pop.is_some()
        &&& self.pop_done < self.pop_ops().len()
        &&& self.cells.shows(self.pop_ops()[self.pop_done as int])
    }

    /// The pop in flight makes its next operation.
    pub open spec fn pop_step(self) -> Interleaved {
        let cells = self.cells.after(self.pop_ops()[self.pop_done as int]);
        if self.pop_done + 1 == self.pop_ops().len() {
            Interleaved { cells, consumer: self.pop_end(), pop: None, pop_done: 0, ..self }
        } else {
            Interleaved { cells, pop_done: self.pop_done + 1, ..self }
        }
    }

    /// Whether the push in flight begins with its stores, or with the load
    /// of `tail`.
    pub open spec fn stores_first(self) -> bool {
        match self.push {
            Some(Push::Try { tail }) => self.producer.head == INVALID_INDEX,
            _ => true,
        }
    }

    /// Number of stores of its publication that the push in flight has
    /// made: the slot is unlinked from the slot behind it, linked behind
    /// the old head or stored to `tail` as the first message, and stored to
    /// `head`.
    pub open spec fn stores(self) -> nat {
        if self.push.is_none() {
            0
        } else if self.stores_first() {
            if self.push_done < 3 {
                self.push_done
            } else {
                3
            }
        } else if self.push_done == 0 {
            0
        } else if self.push_done < 4 {
            (self.push_done - 1) as nat
        } else {
            3
        }
    }

    /// The next operation of the push in flight is one of the stores of its
    /// publication.
    pub open spec fn storing(self) -> bool {
        self.push.is_some() && self.stores() < 3 && (self.stores_first() || self.push_done >= 1)
    }

    /// The push in flight has read `tail`.
    pub open spec fn loaded(self) -> bool {
        self.producer.head != INVALID_INDEX && (match self.push {
            Some(Push::Force { view }) => self.push_done >= 4,
            Some(Push::Try { tail }) => self.push_done >= 1,
            None => false,
        })
    }

    /// The push in flight has linked the slot that it publishes behind the
    /// old head, or stored it to `tail` as the first message.
    pub open spec fn linked(self) -> bool {
        self.stores() >= 2
    }

    /// The path on which the consumer moves: the producer's path, with the
    /// slot that a push in flight publishes moved to its end once it is
    /// linked.
    pub open spec fn path(self, order: Seq<int>) -> Seq<int> {
        if self.linked() {
            rotated(order)
        } else {
            order
        }
    }

    /// The first place of the path at which `tail` may stand: behind the
    /// slot that the producer writes, or at the first place while a push in
    /// flight has not chosen that slot yet.
    pub open spec fn first_place(self) -> int {
        if self.linked() {
            0
        } else {
            1
        }
    }

    /// What the chain cells hold: the producer's chain with the stores of
    /// the push in flight that were made.
    pub open spec fn chain_now(self) -> Seq<u32> {
        let current = self.producer.current as int;
        if self.stores() == 0 {
            self.producer.chain
        } else if self.stores() == 1 || self.producer.head == INVALID_INDEX {
            self.producer.chain.update(current, INVALID_INDEX)
        } else {
            self.producer.published().chain
        }
    }

    /// What `head` holds.
    pub open spec fn head_now(self) -> u32 {
        if self.producer.head != INVALID_INDEX && self.stores() >= 3 {
            self.producer.current
        } else {
            self.producer.head
        }
    }

    /// Nothing was published yet, nor stored to `tail`.
    pub open spec fn unset(self) -> bool {
        self.producer.head == INVALID_INDEX && !self.linked()
    }

    /// `tail` carries the consumed flag.
    pub open spec fn flagged(self) -> bool {
        self.cells.tail & CONSUMED_FLAG != 0
    }

    /// The consumer holds the slot that was taken from it: the producer has
    /// moved `tail` on, and the consumer has not looked at `tail` since.
    pub open spec fn overrun(self) -> bool {
        &&& !self.flagged()
        &&& self.producer.overrun != INVALID_INDEX
        &&& self.consumer.holding
        &&& self.consumer.current == self.producer.overrun
    }

    /// What holds of the consumer, for the path `path` with `tail` at
    /// place `at`.
    pub open spec fn consumer_at(self, path: Seq<int>, at: int) -> bool {
        if self.pop.is_none() || self.pop_done == 0 {
            if self.flagged() {
                self.consumer.holding && self.consumer.current == path[at]
            } else if self.producer.overrun == INVALID_INDEX {
                !self.consumer.holding
            } else {
                self.overrun()
            }
        } else if self.pop_done <= 2 {
            &&& self.consumer.holding
            &&& (self.cells.tail == self.pop.unwrap().tail && self.flagged()
                && self.consumer.current == path[at]) || self.overrun()
            &&& self.pop_done == 2 && self.cells.tail == self.pop.unwrap().tail ==> at + 1
                < path.len() && self.pop.unwrap().next == path[at + 1]
        } else {
            self.overrun()
        }
    }

    /// What holds of `tail` once the push in flight has read it.
    ///
    /// For a force-push, `tail` carries the consumed flag, or it holds what
    /// the exchange that comes next expects. For a try-push that found room
    /// because the consumer had let go of the slot taken from it, `tail`
    /// carries the consumed flag; for one that found a free slot, `tail`
    /// stands behind that slot.
    pub open spec fn awaited(self, at: int) -> bool {
        self.loaded() ==> (match self.push.unwrap() {
            Push::Force { view } => self.flagged() || (
            match self.push_ops()[self.push_done as int] {
                CellOp::TailExchange { expected, new, done } => expected == self.cells.tail,
                _ => false,
            }),
            Push::Try { tail } => if self.producer.overrun != INVALID_INDEX {
                self.flagged()
            } else {
                at > self.first_place()
            },
        })
    }

    /// Every slot from `tail` to the end of the path, and the slot that
    /// the consumer holds, holds the words that it was published with.
    pub open spec fn intact(self, path: Seq<int>, at: int) -> bool {
        &&& forall|place: int|
            at <= place < path.len() ==> self.cells.words[#[trigger] path[place]]
                == self.sent[path[place]]
        &&& self.consumer.holding ==> self.cells.words[self.consumer.current as int]
            == self.sent[self.consumer.current as int]
    }

    /// The invariant, for the path `order` of the producer's chain and the
    /// place `at` of `tail` on the path on which the consumer moves.
    pub open spec fn inv_at(self, order: Seq<int>, at: int) -> bool {
        &&& ring_order(self.producer, self.slots, order)
        &&& self.consumer.wf(self.slots)
        &&& self.cells.chain == self.chain_now()
        &&& self.cells.head == self.head_now()
        &&& self.cells.words.len() == self.slots
        &&& self.sent.len() == self.slots
        &&& self.push.is_some() ==> self.push_done < self.push_ops().len()
        &&& self.push.is_none() ==> self.push_done == 0
        &&& self.pop.is_some() ==> self.pop_done < self.pop_ops().len()
        &&& self.pop.is_none() ==> self.pop_done == 0
        &&& if self.unset() {
            &&& self.cells.tail == INVALID_INDEX
            &&& !self.consumer.holding
            &&& self.pop_done == 0
        } else {
            &&& self.first_place() <= at < order.len()
            &&& self.cells.tail != INVALID_INDEX
            &&& (self.cells.tail & INDEX_MASK) == self.path(order)[at]
            &&& self.producer.overrun != INVALID_INDEX && !self.flagged() ==> at
                == self.first_place()
            &&& self.producer.head == INVALID_INDEX ==> at == order.len() - 1
            &&& self.consumer_at(self.path(order), at)
            &&& self.awaited(at)
            &&& self.intact(self.path(order), at)
        }
    }

    /// The invariant of a queue in any schedule of pushes, pops, writes,
    /// reads, and flushes made while nothing is in flight.
    pub open spec fn inv(self) -> bool {
        exists|order: Seq<int>, at: int| self.inv_at(order, at)
    }
}

/// A new queue keeps the invariant.
pub proof fn lemma_initial(slots: nat, words: Seq<Seq<u32>>)
    requires
        3 <= slots <= 0x7FFF_FFFF,
        words.len() == slots,
    ensures
        Interleaved::initial(slots, words).inv(),
{
    let order = Seq::new(slots, |i: int| i);
    assert(Interleaved::initial(slots, words).inv_at(order, 0));
}

/// The slot behind place `at` of the path, or the sentinel at its end.
pub open spec fn next_on(path: Seq<int>, at: int) -> int {
    if at < path.len() - 1 {
        path[at + 1]
    } else {
        INVALID_INDEX as int
    }
}

/// Facts about a cell value that names a slot, with and without the
/// consumed flag.
proof fn lemma_bits(value: u32, slots: nat)
    requires
        slots <= 0x7FFF_FFFF,
        (value & INDEX_MASK) < slots,
    ensures
        value != INVALID_INDEX,
        value | CONSUMED_FLAG != INVALID_INDEX,
        (value | CONSUMED_FLAG) & INDEX_MASK == value & INDEX_MASK,
        (value | CONSUMED_FLAG) & CONSUMED_FLAG != 0,
        value & CONSUMED_FLAG != 0 ==> value | CONSUMED_FLAG == value,
        value & CONSUMED_FLAG == 0 ==> value & INDEX_MASK == value,
        value < slots ==> value & INDEX_MASK == value && value & CONSUMED_FLAG == 0,
{
    lemma_flag_bits(value);
    lemma_flag_bits(value | CONSUMED_FLAG);
}

/// Facts about a slot id as a cell value, with and without the consumed
/// flag.
proof fn lemma_plain(value: u32, slots: nat)
    requires
        slots <= 0x7FFF_FFFF,
        value < slots,
    ensures
        value != INVALID_INDEX,
        value | CONSUMED_FLAG != INVALID_INDEX,
        value & INDEX_MASK == value,
        value & CONSUMED_FLAG == 0,
        (value | CONSUMED_FLAG) & INDEX_MASK == value,
        (value | CONSUMED_FLAG) & CONSUMED_FLAG != 0,
{
    lemma_flag_bits(value);
    lemma_flag_bits(value | CONSUMED_FLAG);
}

/// Two cell values with the consumed flag that name the same slot are the
/// same.
proof fn lemma_same_slot(a: u32, b: u32)
    by (bit_vector)
    requires
        a & 0x8000_0000u32 != 0,
        b & 0x8000_0000u32 != 0,
        a & 0x7FFF_FFFFu32 == b & 0x7FFF_FFFFu32,
    ensures
        a == b,
{
}

/// What a pop in flight was to see and has seen so far.
proof fn lemma_pop_ops(consumer: ConsumerState, slots: nat, view: PopView)
    requires
        slots <= 0x7FFF_FFFF,
    ensures
        ({
            let ops = consumer.pop(slots, view).ops;
            let valid = view.tail != INVALID_INDEX && (view.tail & INDEX_MASK) < slots
                && view.tail & CONSUMED_FLAG != 0;
            &&& ops.len() >= 1
            &&& ops[0] == CellOp::TailFetchOr { bits: CONSUMED_FLAG, seen: view.tail }
            &&& ops.len() >= 2 <==> valid
            &&& ops.len() >= 2 ==> ops[1] == CellOp::ChainLoad {
                slot: consumer.current,
                seen: view.next,
            }
            &&& ops.len() >= 3 <==> valid && view.next < slots
            &&& ops.len() >= 3 ==> ops[2] == CellOp::TailExchange {
                expected: view.tail,
                new: view.next | CONSUMED_FLAG,
                done: view.swapped,
            }
            &&& ops.len() >= 4 <==> valid && view.next < slots && !view.swapped
            &&& ops.len() >= 4 ==> ops[3] == CellOp::TailFetchOr {
                bits: CONSUMED_FLAG,
                seen: view.again,
            }
            &&& ops.len() <= 4
        }),
{
    let step = consumer.pop(slots, view);
    let mark = CellOp::TailFetchOr { bits: CONSUMED_FLAG, seen: view.tail };
    let load = CellOp::ChainLoad { slot: consumer.current, seen: view.next };
    let swap = CellOp::TailExchange {
        expected: view.tail,
        new: view.next | CONSUMED_FLAG,
        done: view.swapped,
    };
    let again = CellOp::TailFetchOr { bits: CONSUMED_FLAG, seen: view.again };
    assert(seq![mark].len() == 1);
    assert(seq![mark, load].len() == 2);
    assert(seq![mark, load, swap].len() == 3);
    assert(seq![mark, load, swap, again].len() == 4);
    assert(step.ops == seq![mark] || step.ops == seq![mark, load] || step.ops == seq![
        mark,
        load,
        swap,
    ] || step.ops == seq![mark, load, swap, again]);
}

/// Every chain cell holds the sentinel or names a slot.
proof fn lemma_chain_valid(f: Interleaved, order: Seq<int>)
    requires
        ring_order(f.producer, f.slots, order),
        f.cells.chain == f.chain_now(),
    ensures
        f.cells.chain.len() == f.slots,
        forall|i: int|
            0 <= i < f.slots ==> #[trigger] f.cells.chain[i] == INVALID_INDEX || f.cells.chain[i]
                < f.slots,
{
    assert forall|i: int| 0 <= i < f.slots implies #[trigger] f.cells.chain[i] == INVALID_INDEX
        || f.cells.chain[i] < f.slots by {
        assert(f.producer.chain[i] == INVALID_INDEX || f.producer.chain[i] < f.slots);
    }
}

/// The operations of a force-push on a ring, one by one.
proof fn lemma_force_ops(producer: ProducerState, slots: nat, view: PushView, order: Seq<int>)
    requires
        ring_order(producer, slots, order),
    ensures
        ({
            let step = producer.force_push(slots, view);
            let ops = step.ops;
            let current = producer.current;
            let next = producer.next();
            let p = producer.published();
            let t = view.tail & INDEX_MASK;
            let consumed = view.tail & CONSUMED_FLAG != 0;
            let after = p.chain[t as int];
            let stitch = CellOp::ChainStore { slot: producer.overrun, value: next };
            let moving = CellOp::TailExchange {
                expected: view.tail,
                new: p.chain[t as int],
                done: view.moved,
            };
            let jump = CellOp::TailExchange {
                expected: view.tail | CONSUMED_FLAG,
                new: p.chain[after as int],
                done: view.jumped,
            };
            &&& next < slots
            &&& next == order[1]
            &&& ops.len() >= 3
            &&& ops[0] == CellOp::ChainStore { slot: current, value: INVALID_INDEX }
            &&& producer.head == INVALID_INDEX ==> {
                &&& ops.len() == 3
                &&& ops[1] == CellOp::TailStore { value: current }
                &&& ops[2] == CellOp::HeadStore { value: current }
                &&& step.state == producer.first_published()
            }
            &&& producer.head != INVALID_INDEX ==> {
                &&& ops.len() >= 4
                &&& ops[1] == CellOp::ChainStore { slot: producer.head, value: current }
                &&& ops[2] == CellOp::HeadStore { value: current }
                &&& ops[3] == CellOp::TailLoad { seen: view.tail }
                &&& t < slots ==> if producer.overrun != INVALID_INDEX {
                    if consumed {
                        &&& ops.len() == 5
                        &&& ops[4] == stitch
                        &&& step.state == p.restitched(next)
                    } else if view.moved {
                        &&& ops.len() == 5
                        &&& ops[4] == moving
                        &&& step.state == p.writing(t)
                    } else {
                        &&& ops.len() == 6
                        &&& ops[4] == moving
                        &&& ops[5] == stitch
                        &&& step.state == p.restitched(next)
                    }
                } else if next != t {
                    &&& ops.len() == 4
                    &&& step.state == p.writing(next)
                } else if !consumed && view.moved {
                    &&& ops.len() == 5
                    &&& ops[4] == moving
                    &&& step.state == p.writing(next)
                } else {
                    &&& after < slots
                    &&& step.state == (if view.jumped {
                        ProducerState { current: after, overrun: t, ..p }
                    } else {
                        p.writing(t)
                    })
                    &&& if consumed {
                        &&& ops.len() == 5
                        &&& ops[4] == jump
                    } else {
                        &&& ops.len() == 6
                        &&& ops[4] == moving
                        &&& ops[5] == jump
                    }
                }
            }
        }),
{
    assert(producer.chain[order[0]] == order[1]);
    if producer.head != INVALID_INDEX && producer.overrun == INVALID_INDEX {
        lemma_jump(producer, slots, order);
    }
}

/// The operations of a try-push on a ring, one by one.
proof fn lemma_try_ops(producer: ProducerState, slots: nat, tail: u32, order: Seq<int>)
    requires
        ring_order(producer, slots, order),
    ensures
        ({
            let step = producer.try_push(slots, tail);
            let ops = step.ops;
            let current = producer.current;
            let next = producer.next();
            let p = producer.published();
            let t = tail & INDEX_MASK;
            let consumed = tail & CONSUMED_FLAG != 0;
            &&& next < slots
            &&& next == order[1]
            &&& ops.len() >= 1
            &&& producer.head == INVALID_INDEX ==> {
                &&& ops.len() == 3
                &&& ops[0] == CellOp::ChainStore { slot: current, value: INVALID_INDEX }
                &&& ops[1] == CellOp::TailStore { value: current }
                &&& ops[2] == CellOp::HeadStore { value: current }
                &&& step.state == producer.first_published()
                &&& step.result == ProduceTryResult::Success
            }
            &&& producer.head != INVALID_INDEX ==> {
                &&& ops[0] == CellOp::TailLoad { seen: tail }
                &&& ops.len() > 1 ==> {
                    &&& ops.len() >= 4
                    &&& ops[1] == CellOp::ChainStore { slot: current, value: INVALID_INDEX }
                    &&& ops[2] == CellOp::ChainStore { slot: producer.head, value: current }
                    &&& ops[3] == CellOp::HeadStore { value: current }
                    &&& step.result == ProduceTryResult::Success
                }
                &&& t < slots ==> if producer.overrun != INVALID_INDEX && consumed {
                    &&& ops.len() == 5
                    &&& ops[4] == CellOp::ChainStore { slot: producer.overrun, value: next }
                    &&& step.state == p.restitched(next)
                } else if producer.overrun == INVALID_INDEX && next != t {
                    &&& ops.len() == 4
                    &&& step.state == p.writing(next)
                } else {
                    &&& ops.len() == 1
                    &&& step.state == producer
                    &&& step.result == ProduceTryResult::QueueFull
                }
            }
        }),
{
    assert(producer.chain[order[0]] == order[1]);
    let load = seq![CellOp::TailLoad { seen: tail }];
    let publish = producer.publish_ops();
    assert(load.len() == 1 && publish.len() == 3);
    assert((load + publish)[0] == load[0]);
    assert((load + publish)[1] == publish[0]);
    assert((load + publish)[2] == publish[1]);
    assert((load + publish)[3] == publish[2]);
}

/// The chain cell of the slot at a place where `tail` may stand names the
/// slot behind it on the path.
proof fn lemma_links(f: Interleaved, order: Seq<int>, at: int)
    requires
        ring_order(f.producer, f.slots, order),
        f.cells.chain == f.chain_now(),
        !f.unset(),
        f.first_place() <= at < order.len(),
    ensures
        0 <= f.path(order)[at] < f.slots,
        f.cells.chain[f.path(order)[at]] == next_on(f.path(order), at),
{
    lemma_rotated(order);
    let len = order.len() as int;
    let path = f.path(order);
    if f.linked() {
        if at < len - 1 {
            assert(path[at] == order[at + 1]);
        } else {
            assert(path[at] == order[0]);
        }
        assert(order.contains(path[at]));
        if f.producer.head == INVALID_INDEX {
            lemma_first_publish(f.producer, f.slots, order);
        } else {
            lemma_publish(f.producer, f.slots, order);
        }
    } else {
        assert(order[at] != order[0]);
        if at < len - 1 {
            assert(f.producer.chain[order[at]] == order[at + 1]);
        }
    }
}

/// The consumer begins a pop.
pub proof fn lemma_begin_pop(f: Interleaved, view: PopView)
    requires
        f.inv(),
        f.pop.is_none(),
    ensures
        f.begin_pop(view).inv(),
{
    let (order, at) = choose|order: Seq<int>, at: int| f.inv_at(order, at);
    lemma_pop_ops(f.consumer, f.slots, view);
    let next = f.begin_pop(view);
    assert(next.push_ops() == f.push_ops());
    assert(next.inv_at(order, at));
}

/// A pop in flight makes its next operation.
///
/// The invariant is kept. A pop that ends here has met no value that names
/// no slot. It has found no message exactly where nothing was published
/// yet. It reports discarded messages exactly where, at its last
/// operation, the consumer held no message or held the slot that the
/// producer had taken from it; else the consumer held the slot that `tail`
/// names.
#[verifier::rlimit(40)]
pub proof fn lemma_pop_step(f: Interleaved)
    requires
        f.inv(),
        f.can_pop(),
    ensures
        f.pop_step().inv(),
        f.pop_step().producer == f.producer,
        f.pop_step().push == f.push,
        f.pop_step().push_done == f.push_done,
        f.pop_step().sent == f.sent,
        f.pop_step().cells.words == f.cells.words,
        f.pop_step().pop.is_none() ==> {
            let step = f.consumer.pop(f.slots, f.pop.unwrap());
            &&& f.pop_step().consumer == step.state
            &&& step.result != ConsumeResult::QueueError
            &&& step.result == ConsumeResult::NoMessage <==> f.unset()
            &&& step.result == ConsumeResult::SuccessMessagesDiscarded <==> !f.unset() && (
            !f.consumer.holding || f.overrun())
            &&& step.result == ConsumeResult::Success || step.result
                == ConsumeResult::NoNewMessage ==> f.consumer.holding && f.flagged() && (
            f.cells.tail & INDEX_MASK) == f.consumer.current
        },
{
    let (order, at) = choose|order: Seq<int>, at: int| f.inv_at(order, at);
    let view = f.pop.unwrap();
    let next = f.pop_step();
    let path = f.path(order);
    lemma_pop_ops(f.consumer, f.slots, view);
    lemma_flag_bits(f.cells.tail);
    lemma_flag_bits(view.tail);
    assert(next.path(order) == path);
    assert(next.push_ops() == f.push_ops());
    if f.unset() {
        assert(next.inv_at(order, at));
    } else {
        lemma_links(f, order, at);
        lemma_bits(f.cells.tail, f.slots);
        if f.pop_done == 0 {
            assert(view.tail == f.cells.tail);
            assert(next.awaited(at));
            assert(next.intact(path, at));
            assert(next.inv_at(order, at));
        } else if f.pop_done == 1 {
            assert(view.next == f.cells.chain[f.consumer.current as int]);
            lemma_chain_valid(f, order);
            assert(next.awaited(at));
            assert(next.inv_at(order, at));
        } else if f.pop_done == 2 {
            if view.swapped {
                assert(f.cells.tail == view.tail);
                lemma_plain(view.next, f.slots);
                assert(next.flagged());
                assert(next.awaited(at + 1));
                assert(next.intact(path, at + 1));
                assert(next.inv_at(order, at + 1));
            } else {
                assert(next.awaited(at));
                assert(next.inv_at(order, at));
            }
        } else {
            assert(view.again == f.cells.tail);
            assert(next.flagged());
            assert(next.awaited(at));
            assert(next.intact(path, at));
            assert(next.inv_at(order, at));
        }
    }
}

/// The operations of the push in flight, by its kind.
proof fn lemma_push_ops(f: Interleaved, order: Seq<int>)
    requires
        ring_order(f.producer, f.slots, order),
        f.push.is_some(),
    ensures
        f.producer.next() < f.slots,
        f.producer.next() == order[1],
        f.push_ops() == f.ops_of(f.push.unwrap()),
        f.push_end() == f.end_of(f.push.unwrap()),
{
    assert(f.producer.chain[order[0]] == order[1]);
}

/// The producer begins a push.
pub proof fn lemma_begin_push(f: Interleaved, push: Push)
    requires
        f.inv(),
        f.push.is_none(),
    ensures
        f.begin_push(push).inv(),
{
    let (order, at) = choose|order: Seq<int>, at: int| f.inv_at(order, at);
    match push {
        Push::Force { view } => {
            lemma_force_ops(f.producer, f.slots, view, order);
        },
        Push::Try { tail } => {
            lemma_try_ops(f.producer, f.slots, tail, order);
        },
    }
    let next = f.begin_push(push);
    assert(next.pop_ops() == f.pop_ops());
    assert(next.path(order) == f.path(order));
    assert(next.inv_at(order, at));
}

/// A store of the publication of the push in flight.
#[verifier::rlimit(40)]
proof fn lemma_push_store(f: Interleaved, order: Seq<int>, at: int) -> (place: int)
    requires
        f.inv_at(order, at),
        f.can_push(),
        f.storing(),
    ensures
        f.push_step().inv_at(
            if f.push_step().push.is_none() {
                rotated(order)
            } else {
                order
            },
            place,
        ),
        f.push_step().push.is_none() ==> !f.failed(f.push.unwrap()),
{
    let next = f.push_step();
    lemma_push_ops(f, order);
    match f.push.unwrap() {
        Push::Force { view } => {
            lemma_force_ops(f.producer, f.slots, view, order);
        },
        Push::Try { tail } => {
            lemma_try_ops(f.producer, f.slots, tail, order);
        },
    }
    lemma_rotated(order);
    let len = order.len() as int;
    let rot = rotated(order);
    let current = f.producer.current as int;
    assert(order[0] == current);
    assert(next.pop_ops() == f.pop_ops());
    assert(next.push_ops() == f.push_ops() || next.push.is_none());
    lemma_plain(f.producer.current, f.slots);
    if f.producer.head == INVALID_INDEX {
        lemma_first_publish(f.producer, f.slots, order);
        if f.stores() == 0 {
            assert(next.inv_at(order, at));
            at
        } else if f.stores() == 1 {
            assert(rot[len - 1] == current);
            assert(next.intact(rot, len - 1));
            assert(next.inv_at(order, len - 1));
            len - 1
        } else {
            assert(next.path(rot) == f.path(order));
            assert(next.inv_at(rot, at));
            at
        }
    } else {
        lemma_publish(f.producer, f.slots, order);
        if f.stores() == 0 {
            assert(next.inv_at(order, at));
            at
        } else if f.stores() == 1 {
            assert(rot[at - 1] == order[at]);
            if at < len - 1 {
                assert(rot[at] == order[at + 1]);
            }
            assert(next.intact(rot, at - 1)) by {
                assert forall|place: int| at - 1 <= place < len implies next.cells.words[
                #[trigger] rot[place]] == next.sent[rot[place]] by {
                    if place < len - 1 {
                        assert(rot[place] == order[place + 1]);
                        assert(order[place + 1] != order[0]);
                    }
                }
                if f.consumer.holding {
                    if f.flagged() || (f.pop_done >= 1 && f.pop_done <= 2 && !f.overrun()) {
                        assert(order[at] != order[0]);
                    } else {
                        assert(order.contains(order[0]));
                    }
                }
            }
            assert(next.inv_at(order, at - 1));
            at - 1
        } else {
            if next.push.is_none() {
                assert(next.path(rot) == f.path(order));
                assert(next.inv_at(rot, at));
            } else {
                assert(next.inv_at(order, at));
            }
            at
        }
    }
}

/// The load of `tail` by a force-push in flight: the push ends where the
/// queue is not full, else an exchange or the return of a taken slot is
/// pending.
#[verifier::rlimit(40)]
proof fn lemma_push_load_force(f: Interleaved, order: Seq<int>, at: int)
    requires
        f.inv_at(order, at),
        f.can_push(),
        f.push matches Some(Push::Force { view }),
        f.push_done == 3,
    ensures
        f.push_step().inv_at(
            if f.push_step().push.is_none() {
                rotated(order)
            } else {
                order
            },
            at,
        ),
        f.push_step().push.is_none() ==> !f.failed(f.push.unwrap()),
{
    let view = f.push.unwrap()->Force_view;
    let next = f.push_step();
    lemma_push_ops(f, order);
    lemma_force_ops(f.producer, f.slots, view, order);
    lemma_rotated(order);
    let rot = rotated(order);
    assert(next.pop_ops() == f.pop_ops());
    if f.producer.head != INVALID_INDEX {
        lemma_publish(f.producer, f.slots, order);
        assert(view.tail == f.cells.tail);
        lemma_bits(f.cells.tail, f.slots);
        let t = view.tail & INDEX_MASK;
        assert(t == rot[at]);
        assert(rot[0] == f.producer.next());
        if next.push.is_none() {
            assert(f.producer.overrun == INVALID_INDEX);
            assert(at != 0);
            assert(next.path(rot) == f.path(order));
            assert(next.inv_at(rot, at));
        } else {
            assert(next.push_ops() == f.push_ops());
            assert(next.awaited(at));
            assert(next.inv_at(order, at));
        }
    }
}

/// The load of `tail` by a try-push in flight: the push ends where the
/// queue is full, else its publication is pending.
#[verifier::rlimit(40)]
proof fn lemma_push_load_try(f: Interleaved, order: Seq<int>, at: int)
    requires
        f.inv_at(order, at),
        f.can_push(),
        f.push matches Some(Push::Try { tail }),
        f.producer.head != INVALID_INDEX,
        f.push_done == 0,
    ensures
        f.push_step().inv_at(order, at),
        f.push_step().push.is_none() ==> !f.failed(f.push.unwrap()),
{
    let tail = f.push.unwrap()->Try_tail;
    let next = f.push_step();
    lemma_push_ops(f, order);
    lemma_try_ops(f.producer, f.slots, tail, order);
    assert(next.pop_ops() == f.pop_ops());
    assert(tail == f.cells.tail);
    lemma_bits(f.cells.tail, f.slots);
    assert(f.path(order) == order);
    let t = tail & INDEX_MASK;
    assert(t == order[at]);
    if next.push.is_some() {
        assert(next.push_ops() == f.push_ops());
        assert(next.awaited(at));
    }
}

/// A push in flight gives the slot that it took from the consumer back to
/// the chain, in front of the path.
#[verifier::rlimit(40)]
proof fn lemma_push_stitch(f: Interleaved, order: Seq<int>, at: int)
    requires
        f.inv_at(order, at),
        f.can_push(),
        f.loaded(),
        !f.storing(),
        f.push_ops()[f.push_done as int] is ChainStore,
    ensures
        f.push_step().inv_at(seq![f.producer.overrun as int] + rotated(order), at + 1),
        f.push_step().push.is_none(),
        !f.failed(f.push.unwrap()),
{
    let next = f.push_step();
    let producer = f.producer;
    let slots = f.slots;
    lemma_push_ops(f, order);
    match f.push.unwrap() {
        Push::Force { view } => {
            lemma_force_ops(producer, slots, view, order);
            lemma_flag_bits(view.tail);
        },
        Push::Try { tail } => {
            lemma_try_ops(producer, slots, tail, order);
            lemma_flag_bits(tail);
        },
    }
    lemma_rotated(order);
    lemma_publish(producer, slots, order);
    lemma_restitch(producer, slots, order);
    let rot = rotated(order);
    let len = order.len() as int;
    assert(next.pop_ops() == f.pop_ops());
    lemma_bits(f.cells.tail, slots);
    assert(f.path(order) == rot);
    let full = seq![producer.overrun as int] + rot;
    assert(f.flagged());
    assert(full[at + 1] == rot[at]);
    if at + 1 < len {
        assert(full[at + 2] == rot[at + 1]);
    }
    assert(next.path(full) == full);
    assert(next.chain_now() == next.producer.chain);
    assert(next.consumer_at(full, at + 1));
    assert(next.intact(full, at + 1)) by {
        assert forall|place: int| at + 1 <= place < full.len() implies next.cells.words[
        #[trigger] full[place]] == next.sent[full[place]] by {
            assert(full[place] == rot[place - 1]);
        }
    }
}

/// A force-push in flight tries to move `tail` one slot on, off a message
/// that nobody reads.
#[verifier::rlimit(40)]
proof fn lemma_push_move(f: Interleaved, order: Seq<int>, at: int)
    requires
        f.inv_at(order, at),
        f.can_push(),
        f.push matches Some(Push::Force { view }),
        f.push_done >= 4,
        f.push_ops()[f.push_done as int] matches CellOp::TailExchange { expected, new, done }
            && expected & CONSUMED_FLAG == 0,
    ensures
        f.push_step().push.is_none() ==> f.push_step().inv_at(rotated(order), 1),
        f.push_step().push.is_some() ==> f.push_step().inv_at(order, at),
        f.push_step().push.is_none() ==> !f.failed(f.push.unwrap()),
{
    let view = f.push.unwrap()->Force_view;
    let next = f.push_step();
    let producer = f.producer;
    let slots = f.slots;
    lemma_push_ops(f, order);
    lemma_force_ops(producer, slots, view, order);
    lemma_rotated(order);
    lemma_publish(producer, slots, order);
    let rot = rotated(order);
    let p = producer.published();
    assert(next.pop_ops() == f.pop_ops());
    lemma_flag_bits(view.tail);
    lemma_bits(f.cells.tail, slots);
    let t = view.tail & INDEX_MASK;
    assert(f.path(order) == rot);
    assert(rot[0] == producer.next());
    lemma_flag_bits(view.tail | CONSUMED_FLAG);
    if view.moved {
        assert(f.cells.tail == view.tail);
        assert(t == rot[at]);
        assert(at == 0);
        assert(p.chain[rot[0]] == rot[1]);
        assert(order.contains(rot[1]));
        lemma_plain(p.chain[t as int], slots);
        assert(next.path(rot) == rot);
        assert(next.chain_now() == next.producer.chain);
        assert(next.consumer_at(rot, 1));
        assert(next.intact(rot, 1));
    } else {
        assert(next.push_ops() == f.push_ops());
        assert(f.flagged());
        assert(next.awaited(at));
    }
}

/// A force-push in flight moves `tail` past the slot that the consumer
/// reads, which is outside the path from then on.
#[verifier::rlimit(40)]
proof fn lemma_push_jump(f: Interleaved, order: Seq<int>, at: int)
    requires
        f.inv_at(order, at),
        f.can_push(),
        f.push matches Some(Push::Force { view }) && view.jumped,
        f.push_done >= 4,
        f.push_ops()[f.push_done as int] matches CellOp::TailExchange { expected, new, done }
            && expected & CONSUMED_FLAG != 0,
    ensures
        f.push_step().push.is_none(),
        f.push_step().inv_at(rotated(order).subrange(1, order.len() as int), 1),
        !f.failed(f.push.unwrap()),
{
    let view = f.push.unwrap()->Force_view;
    let next = f.push_step();
    let producer = f.producer;
    let slots = f.slots;
    lemma_push_ops(f, order);
    lemma_force_ops(producer, slots, view, order);
    lemma_rotated(order);
    lemma_publish(producer, slots, order);
    let rot = rotated(order);
    let len = order.len() as int;
    let p = producer.published();
    assert(next.pop_ops() == f.pop_ops());
    lemma_flag_bits(view.tail);
    lemma_bits(f.cells.tail, slots);
    lemma_flag_bits(view.tail | CONSUMED_FLAG);
    let t = view.tail & INDEX_MASK;
    let expected = view.tail | CONSUMED_FLAG;
    assert(f.path(order) == rot);
    assert(rot[0] == producer.next());
    assert(producer.overrun == INVALID_INDEX);
    lemma_jump(producer, slots, order);
    assert(t == rot[0]);
    assert(f.cells.tail == expected);
    assert(f.flagged());
    assert(at == 0);
    assert(p.chain[rot[0]] == rot[1]);
    assert(p.chain[rot[1]] == rot[2]);
    assert(order.contains(rot[2]));
    let after = p.chain[t as int];
    lemma_plain(p.chain[after as int], slots);
    let rest = rot.subrange(1, len);
    assert(rest[1] == rot[2]);
    assert(next.path(rest) == rest);
    assert(next.chain_now() == next.producer.chain);
    assert(next.producer.chain[next.producer.overrun as int] == after);
    assert(next.overrun());
    assert(next.consumer_at(rest, 1));
    assert(next.intact(rest, 1)) by {
        assert forall|place: int| 1 <= place < rest.len() implies next.cells.words[
        #[trigger] rest[place]] == next.sent[rest[place]] by {
            assert(rest[place] == rot[place + 1]);
        }
    }
    assert(next.awaited(1));
}

/// A force-push in flight finds that the consumer has moved on from the
/// slot that it was to jump over, and takes that slot.
#[verifier::rlimit(40)]
proof fn lemma_push_miss(f: Interleaved, order: Seq<int>, at: int)
    requires
        f.inv_at(order, at),
        f.can_push(),
        f.push matches Some(Push::Force { view }) && !view.jumped,
        f.push_done >= 4,
        f.push_ops()[f.push_done as int] matches CellOp::TailExchange { expected, new, done }
            && expected & CONSUMED_FLAG != 0,
    ensures
        f.push_step().push.is_none(),
        f.push_step().inv_at(rotated(order), at),
        !f.failed(f.push.unwrap()),
{
    let view = f.push.unwrap()->Force_view;
    let next = f.push_step();
    let producer = f.producer;
    let slots = f.slots;
    lemma_push_ops(f, order);
    lemma_force_ops(producer, slots, view, order);
    lemma_rotated(order);
    lemma_publish(producer, slots, order);
    let rot = rotated(order);
    assert(next.pop_ops() == f.pop_ops());
    lemma_flag_bits(view.tail);
    lemma_bits(f.cells.tail, slots);
    lemma_flag_bits(view.tail | CONSUMED_FLAG);
    let t = view.tail & INDEX_MASK;
    let expected = view.tail | CONSUMED_FLAG;
    assert(f.path(order) == rot);
    assert(rot[0] == producer.next());
    assert(producer.overrun == INVALID_INDEX);
    lemma_jump(producer, slots, order);
    assert(t == rot[0]);
    assert(f.flagged());
    assert(f.cells.tail != expected);
    assert(f.cells.tail & INDEX_MASK != t) by {
        if f.cells.tail & INDEX_MASK == t {
            lemma_same_slot(f.cells.tail, expected);
        }
    }
    assert(at != 0);
    assert(next.path(rot) == rot);
    assert(next.chain_now() == next.producer.chain);
    assert(next.consumer_at(rot, at));
    assert(next.awaited(at));
}

/// A push in flight makes its next operation.
///
/// The invariant is kept, and the consumer is left alone. A push that ends
/// here has met no value that names no slot.
pub proof fn lemma_push_step(f: Interleaved)
    requires
        f.inv(),
        f.can_push(),
    ensures
        f.push_step().inv(),
        f.push_step().consumer == f.consumer,
        f.push_step().pop == f.pop,
        f.push_step().pop_done == f.pop_done,
        f.push_step().cells.words == f.cells.words,
        f.push_step().push.is_none() ==> {
            &&& f.push_step().producer == f.end_of(f.push.unwrap())
            &&& !f.failed(f.push.unwrap())
        },
{
    let (order, at) = choose|order: Seq<int>, at: int| f.inv_at(order, at);
    lemma_push_ops(f, order);
    match f.push.unwrap() {
        Push::Force { view } => {
            lemma_force_ops(f.producer, f.slots, view, order);
        },
        Push::Try { tail } => {
            lemma_try_ops(f.producer, f.slots, tail, order);
        },
    }
    if f.storing() {
        let place = lemma_push_store(f, order, at);
    } else {
        match f.push.unwrap() {
            Push::Force { view } => {
                if f.push_done == 3 {
                    lemma_push_load_force(f, order, at);
                } else {
                    match f.push_ops()[f.push_done as int] {
                        CellOp::ChainStore { slot, value } => {
                            lemma_push_stitch(f, order, at);
                        },
                        CellOp::TailExchange { expected, new, done } => {
                            if expected & CONSUMED_FLAG == 0 {
                                lemma_push_move(f, order, at);
                            } else if view.jumped {
                                lemma_push_jump(f, order, at);
                            } else {
                                lemma_push_miss(f, order, at);
                            }
                        },
                        _ => {},
                    }
                }
            },
            Push::Try { tail } => {
                if f.push_done == 0 {
                    lemma_push_load_try(f, order, at);
                } else {
                    lemma_push_stitch(f, order, at);
                }
            },
        }
    }
}

/// The producer, with no push in flight, writes a word of the slot that it
/// publishes next.
///
/// The invariant is kept: the slot is none that the consumer holds and
/// none that is linked between `tail` and `head`, so every message that was
/// published and can still be read is as it was.
#[verifier::rlimit(40)]
pub proof fn lemma_write_step(f: Interleaved, word: nat, value: u32)
    requires
        f.inv(),
        f.can_write(word),
    ensures
        f.write_step(word, value).inv(),
        f.consumer.holding ==> f.consumer.current != f.producer.current,
        forall|slot: int|
            0 <= slot < f.slots && slot != f.producer.current ==> #[trigger] f.write_step(
                word,
                value,
            ).cells.words[slot] == f.cells.words[slot],
{
    let (order, at) = choose|order: Seq<int>, at: int| f.inv_at(order, at);
    let next = f.write_step(word, value);
    let current = f.producer.current as int;
    assert(order[0] == current);
    assert(next.cells.tail == f.cells.tail);
    assert(next.cells.chain == f.cells.chain);
    assert(next.cells.head == f.cells.head);
    assert(next.push_ops() == f.push_ops());
    assert(next.pop_ops() == f.pop_ops());
    assert(next.path(order) == order);
    assert(f.path(order) == order);
    assert forall|slot: int| 0 <= slot < f.slots && slot != current implies #[trigger] next.cells.words[slot]
        == f.cells.words[slot] by {}
    if !f.unset() {
        lemma_held_apart(f, order, at);
        assert(next.consumer_at(order, at) == f.consumer_at(order, at));
        assert(next.awaited(at) == f.awaited(at));
        assert(next.intact(order, at)) by {
            assert forall|place: int| at <= place < order.len() implies next.cells.words[
            #[trigger] order[place]] == next.sent[order[place]] by {
                assert(order[place] != order[0]);
            }
        }
    } else {
        assert(!f.consumer.holding);
    }
    assert(next.inv_at(order, at));
}

/// While no push is in flight, the consumer does not hold the slot that
/// the producer writes.
proof fn lemma_held_apart(f: Interleaved, order: Seq<int>, at: int)
    requires
        f.inv_at(order, at),
        f.push.is_none(),
        !f.unset(),
    ensures
        f.consumer.holding ==> f.consumer.current != f.producer.current,
{
    assert(order[0] == f.producer.current);
    assert(f.path(order) == order);
    if f.consumer.holding {
        if f.overrun() {
            assert(order.contains(order[0]));
        } else {
            assert(order[at] != order[0]);
        }
    }
}

/// What the invariant says of a queue in any schedule.
///
/// Every shared cell holds the sentinel or names a slot. While the
/// consumer holds a message, with no pop in flight, the words of its slot
/// are those that the slot was published with, so that is what it reads.
/// While no push is in flight, the producer's chain is a ring, and the slot
/// that the producer writes is not the slot that the consumer holds.
pub proof fn lemma_inv(f: Interleaved)
    requires
        f.inv(),
    ensures
        f.cells.valid(f.slots),
        f.consumer.holding ==> f.cells.words[f.consumer.current as int]
            == f.sent[f.consumer.current as int],
        forall|word: nat|
            f.can_read(word) ==> #[trigger] f.read(word)
                == f.sent[f.consumer.current as int][word as int],
        f.push.is_none() ==> crate::ring::is_ring(f.producer, f.slots),
        f.push.is_none() && f.consumer.holding ==> f.consumer.current != f.producer.current,
{
    let (order, at) = choose|order: Seq<int>, at: int| f.inv_at(order, at);
    lemma_chain_valid(f, order);
    lemma_flag_bits(f.cells.tail);
    lemma_rotated(order);
    assert(order[0] == f.producer.current);
    if !f.unset() {
        assert(0 <= f.path(order)[at] < f.slots) by {
            lemma_links(f, order, at);
        }
        if f.push.is_none() && f.consumer.holding {
            if f.overrun() {
                assert(order.contains(order[0]));
            } else {
                assert(order[at] != order[0]);
            }
        }
    }
    lemma_plain(f.producer.current, f.slots);
}


impl Interleaved {
    /// Neither a push nor a pop is in flight.
    pub open spec fn idle(self) -> bool {
        self.push.is_none() && self.pop.is_none()
    }

    /// The queue as a system whose operations are steps.
    pub open spec fn system(self) -> System {
        System {
            slots: self.slots,
            producer: self.producer,
            consumer: self.consumer,
            cells: self.cells,
            sent: self.sent,
        }
    }

    /// A system with nothing in flight.
    pub open spec fn of(system: System) -> Interleaved {
        Interleaved {
            slots: system.slots,
            cells: system.cells,
            sent: system.sent,
            producer: system.producer,
            push: None,
            push_done: 0,
            consumer: system.consumer,
            pop: None,
            pop_done: 0,
        }
    }
}

proof fn lemma_live(order: Seq<int>, at: int, slot: int) -> (place: int)
    requires
        System::live(order, at, slot),
    ensures
        at <= place < order.len(),
        order[place] == slot,
{
    choose|place: int| at <= place < order.len() && #[trigger] order[place] == slot
}

/// While nothing is in flight, the invariant of a schedule is the
/// invariant of the system whose operations are steps.
pub proof fn lemma_idle_is_coherent(f: Interleaved)
    requires
        f.inv(),
        f.idle(),
    ensures
        f.system().coherent(),
        Interleaved::of(f.system()) == f,
{
    let (order, at) = choose|order: Seq<int>, at: int| f.inv_at(order, at);
    let system = f.system();
    assert(f.path(order) == order);
    if !f.unset() {
        assert forall|slot: int| 0 <= slot < f.slots && #[trigger] System::live(
            order,
            at,
            slot,
        ) implies system.cells.words[slot] == system.sent[slot] by {
            let place = lemma_live(order, at, slot);
        }
    }
    assert(system.linked_at(order, at));
    assert(system.intact_at(order, at));
    assert(system.coherent_at(order, at));
}

/// A coherent system, with nothing in flight, keeps the invariant of a
/// schedule.
pub proof fn lemma_coherent_is_inv(system: System)
    requires
        system.coherent(),
    ensures
        Interleaved::of(system).inv(),
        Interleaved::of(system).idle(),
{
    let (order, at) = choose|order: Seq<int>, at: int| system.coherent_at(order, at);
    let f = Interleaved::of(system);
    assert(f.path(order) == order);
    assert(f.push_ops() == Seq::<CellOp>::empty());
    if system.producer.head != INVALID_INDEX {
        assert forall|place: int| at <= place < order.len() implies f.cells.words[
        #[trigger] order[place]] == f.sent[order[place]] by {
            assert(System::live(order, at, order[place]));
        }
        assert(f.intact(order, at));
        assert(f.consumer_at(order, at));
        assert(f.awaited(at));
    }
    assert(f.inv_at(order, at));
}

/// A flush that is made while nothing is in flight keeps the invariant.
///
/// It finds no message exactly where nothing was published yet; else it
/// takes the head, which holds the words that it was published with and is
/// not the slot that the producer writes.
pub proof fn lemma_flush_move(f: Interleaved)
    requires
        f.inv(),
        f.idle(),
    ensures
        f.after(Move::Flush).inv(),
        f.after(Move::Flush).idle(),
        f.after(Move::Flush).producer == f.producer,
        f.after(Move::Flush).sent == f.sent,
        f.system().flush_step().result == (if f.producer.head == INVALID_INDEX {
            ConsumeResult::NoMessage
        } else {
            ConsumeResult::Success
        }),
        f.producer.head != INVALID_INDEX ==> {
            &&& f.after(Move::Flush).consumer.holding
            &&& f.after(Move::Flush).consumer.current == f.producer.head
            &&& f.after(Move::Flush).consumer.current != f.producer.current
        },
{
    lemma_idle_is_coherent(f);
    lemma_flush_coherent(f.system());
    lemma_coherent_is_inv(f.system().flush());
}

/// One move of a schedule.
pub ghost enum Move {
    BeginPush { push: Push },
    Push,
    BeginPop { view: PopView },
    Pop,
    Write { word: nat, value: u32 },
    /// A whole flush, made while nothing is in flight.
    Flush,
}

impl Interleaved {
    /// The move can be made.
    pub open spec fn can(self, m: Move) -> bool {
        match m {
            Move::BeginPush { push } => self.push.is_none(),
            Move::Push => self.can_push(),
            Move::BeginPop { view } => self.pop.is_none(),
            Move::Pop => self.can_pop(),
            Move::Write { word, value } => self.can_write(word),
            Move::Flush => self.idle(),
        }
    }

    /// The queue after the move.
    pub open spec fn after(self, m: Move) -> Interleaved {
        match m {
            Move::BeginPush { push } => self.begin_push(push),
            Move::Push => self.push_step(),
            Move::BeginPop { view } => self.begin_pop(view),
            Move::Pop => self.pop_step(),
            Move::Write { word, value } => self.write_step(word, value),
            Move::Flush => Interleaved::of(self.system().flush()),
        }
    }

    /// The queue after the moves of a schedule, or `None` where one of
    /// them cannot be made.
    pub open spec fn run(self, moves: Seq<Move>) -> Option<Interleaved>
        decreases moves.len(),
    {
        if moves.len() == 0 {
            Some(self)
        } else {
            match self.run(moves.drop_last()) {
                Some(f) => if f.can(moves.last()) {
                    Some(f.after(moves.last()))
                } else {
                    None
                },
                None => None,
            }
        }
    }
}

/// Every move keeps the invariant.
pub proof fn lemma_move(f: Interleaved, m: Move)
    requires
        f.inv(),
        f.can(m),
    ensures
        f.after(m).inv(),
{
    match m {
        Move::BeginPush { push } => {
            lemma_begin_push(f, push);
        },
        Move::Push => {
            lemma_push_step(f);
        },
        Move::BeginPop { view } => {
            lemma_begin_pop(f, view);
        },
        Move::Pop => {
            lemma_pop_step(f);
        },
        Move::Write { word, value } => {
            lemma_write_step(f, word, value);
        },
        Move::Flush => {
            lemma_flush_move(f);
        },
    }
}

/// Whatever the schedule, a queue that began as a new queue keeps the
/// invariant.
pub proof fn lemma_schedule(slots: nat, words: Seq<Seq<u32>>, moves: Seq<Move>)
    requires
        3 <= slots <= 0x7FFF_FFFF,
        words.len() == slots,
        Interleaved::initial(slots, words).run(moves).is_some(),
    ensures
        Interleaved::initial(slots, words).run(moves).unwrap().inv(),
    decreases moves.len(),
{
    if moves.len() == 0 {
        lemma_initial(slots, words);
    } else {
        lemma_schedule(slots, words, moves.drop_last());
        let before = Interleaved::initial(slots, words).run(moves.drop_last()).unwrap();
        lemma_move(before, moves.last());
    }
}

} // verus!
