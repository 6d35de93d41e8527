//! Both ends of a queue and its shared cells as one system, for schedules
//! in which every operation runs from start to end before the next.
//!
//! The shared cells then show each operation what the operations before it
//! left, so every step is determined. The system keeps an invariant from
//! which the guarantees of the queue follow: no operation meets a value
//! that names no slot, the consumer never holds the slot that the producer
//! writes, and a slot that a pop delivers is one that was published and is
//! still linked between `tail` and `head`.
//!
//! Here every operation is one step, pushes, pops and flushes alike. For
//! pushes and pops the module `schedule` shows the same for operations
//! that overlap in any way.
use vstd::prelude::*;
use crate::cells::CellOp;
use crate::cells::Queue;
use crate::cells::lemma_flag_bits;
use crate::cells::CONSUMED_FLAG;
use crate::cells::INDEX_MASK;
use crate::cells::INVALID_INDEX;
use crate::consumer::ConsumeStep;
use crate::consumer::ConsumerState;
use crate::consumer::FlushView;
use crate::consumer::PopView;
use crate::producer::ForceStep;
use crate::producer::message_stores;
use crate::consumer::message_loads;
use crate::producer::ProducerState;
use crate::producer::PushView;
use crate::producer::TryStep;
use crate::queue::ConsumeResult;
use crate::queue::ProduceForceResult;
use crate::queue::ProduceTryResult;
use crate::ring::ring_order;
use crate::ring::rotated;
use crate::cells::cell_ok;
use crate::discipline::all_writes_ok;
use crate::discipline::writes_ok;
use crate::ring::lemma_first_publish;
use crate::ring::lemma_jump;
use crate::ring::lemma_publish;
use crate::ring::lemma_restitch;
use crate::ring::lemma_rotated;

verus! {

/// What the shared cells of a queue hold.
pub ghost struct Cells {
    pub tail: u32,
    pub head: u32,
    pub chain: Seq<u32>,
    /// The words of each message slot.
    pub words: Seq<Seq<u32>>,
}

impl Cells {
    /// The operation saw what the cells hold.
    pub open spec fn shows(self, op: CellOp) -> bool {
        match op {
            CellOp::TailLoad { seen } => seen == self.tail,
            CellOp::TailFetchOr { bits, seen } => seen == self.tail,
            CellOp::TailExchange { expected, new, done } => done == (self.tail == expected),
            CellOp::HeadLoad { seen } => seen == self.head,
            CellOp::ChainLoad { slot, seen } => slot < self.chain.len() && seen
                == self.chain[slot as int],
            CellOp::ChainStore { slot, value } => slot < self.chain.len(),
            CellOp::SlotLoad { slot, word, seen } => slot < self.words.len() && word
                < self.words[slot as int].len() && seen == self.words[slot as int][word as int],
            CellOp::SlotStore { slot, word, value } => slot < self.words.len() && word
                < self.words[slot as int].len(),
            _ => true,
        }
    }

    /// What the cells hold after the operation.
    pub open spec fn after(self, op: CellOp) -> Cells {
        match op {
            CellOp::TailStore { value } => Cells { tail: value, ..self },
            CellOp::TailFetchOr { bits, seen } => Cells { tail: self.tail | bits, ..self },
            CellOp::TailExchange { expected, new, done } => if done {
                Cells { tail: new, ..self }
            } else {
                self
            },
            CellOp::HeadStore { value } => Cells { head: value, ..self },
            CellOp::ChainStore { slot, value } => Cells {
                chain: self.chain.update(slot as int, value),
                ..self
            },
            CellOp::SlotStore { slot, word, value } => Cells {
                words: self.words.update(
                    slot as int,
                    self.words[slot as int].update(word as int, value),
                ),
                ..self
            },
            _ => self,
        }
    }

    /// What the cells hold after the operations, made in order with
    /// nothing in between; `None` where one of them did not see what the
    /// cells held.
    pub open spec fn run(self, ops: Seq<CellOp>) -> Option<Cells>
        decreases ops.len(),
    {
        if ops.len() == 0 {
            Some(self)
        } else {
            match self.run(ops.drop_last()) {
                Some(cells) => if cells.shows(ops.last()) {
                    Some(cells.after(ops.last()))
                } else {
                    None
                },
                None => None,
            }
        }
    }

    proof fn lemma_run_push(self, ops: Seq<CellOp>, op: CellOp)
        ensures
            self.run(ops.push(op)) == (match self.run(ops) {
                Some(cells) => if cells.shows(op) {
                    Some(cells.after(op))
                } else {
                    None
                },
                None => None,
            }),
    {
        assert(ops.push(op).drop_last() =~= ops);
    }

    /// Three operations that run with nothing in between.
    pub proof fn lemma_three(self, a: CellOp, b: CellOp, c: CellOp)
        requires
            self.shows(a),
            self.after(a).shows(b),
            self.after(a).after(b).shows(c),
        ensures
            self.run(seq![a, b, c]) == Some(self.after(a).after(b).after(c)),
    {
        let none = Seq::<CellOp>::empty();
        assert(self.run(none) == Some(self));
        self.lemma_run_push(none, a);
        self.lemma_run_push(none.push(a), b);
        self.lemma_run_push(none.push(a).push(b), c);
        assert(seq![a, b, c] =~= none.push(a).push(b).push(c));
    }
}

/// A queue with both its ends.
pub ghost struct System {
    pub slots: nat,
    pub producer: ProducerState,
    pub consumer: ConsumerState,
    pub cells: Cells,
    /// For each slot, the words that it held when it was published last.
    pub sent: Seq<Seq<u32>>,
}

impl System {
    /// A queue that the owner of the arena has just made new and empty, over
    /// slots that hold `words`.
    pub open spec fn initial(slots: nat, words: Seq<Seq<u32>>) -> System {
        System {
            slots,
            producer: ProducerState::initial(slots),
            consumer: ConsumerState::initial(),
            cells: Cells {
                tail: INVALID_INDEX,
                head: INVALID_INDEX,
                chain: ProducerState::initial(slots).chain,
                words,
            },
            sent: words,
        }
    }

    /// What a push sees when nothing runs beside it: `tail` as the cells
    /// hold it, and every exchange succeeds.
    pub open spec fn push_view(self) -> PushView {
        PushView { tail: self.cells.tail, moved: true, jumped: true }
    }

    /// What a pop sees when nothing runs beside it.
    pub open spec fn pop_view(self) -> PopView {
        PopView {
            tail: self.cells.tail,
            next: self.cells.chain[self.consumer.current as int],
            swapped: true,
            again: self.cells.tail,
        }
    }

    /// What a flush sees when nothing runs beside it: its first attempt
    /// wins.
    pub open spec fn flush_views(self) -> Seq<FlushView> {
        seq![FlushView { tail: self.cells.tail, head: self.cells.head, swapped: true }]
    }

    /// The step of a force-push that runs alone.
    pub open spec fn force_push_step(self) -> ForceStep {
        self.producer.force_push(self.slots, self.push_view())
    }

    /// The step of a try-push that runs alone.
    pub open spec fn try_push_step(self) -> TryStep {
        self.producer.try_push(self.slots, self.cells.tail)
    }

    /// The step of a pop that runs alone.
    pub open spec fn pop_step(self) -> ConsumeStep {
        self.consumer.pop(self.slots, self.pop_view())
    }

    /// The step of a flush that runs alone.
    pub open spec fn flush_step(self) -> ConsumeStep {
        self.consumer.flush(self.slots, self.flush_views(), self.cells.tail)
    }

    /// What the slots were published with, after the slot that the
    /// producer writes is published as it is.
    pub open spec fn sending(self) -> Seq<Seq<u32>> {
        self.sent.update(
            self.producer.current as int,
            self.cells.words[self.producer.current as int],
        )
    }

    /// The system after a force-push.
    pub open spec fn force_push(self) -> System {
        System {
            producer: self.force_push_step().state,
            cells: self.cells.run(self.force_push_step().ops).unwrap(),
            sent: if self.force_push_step().result == ProduceForceResult::QueueError {
                self.sent
            } else {
                self.sending()
            },
            ..self
        }
    }

    /// The system after a try-push.
    pub open spec fn try_push(self) -> System {
        System {
            producer: self.try_push_step().state,
            cells: self.cells.run(self.try_push_step().ops).unwrap(),
            sent: if self.try_push_step().result == ProduceTryResult::Success {
                self.sending()
            } else {
                self.sent
            },
            ..self
        }
    }

    /// The system after the producer has written `message` to the slot
    /// that it publishes next.
    pub open spec fn write(self, message: Seq<u32>) -> System {
        System {
            cells: self.cells.run(
                message_stores(self.producer.current, message, message.len() as int),
            ).unwrap(),
            ..self
        }
    }

    /// The words of the message that the consumer holds.
    pub open spec fn in_hand(self) -> Seq<u32> {
        self.cells.words[self.consumer.current as int]
    }

    /// The system after a pop.
    pub open spec fn pop(self) -> System {
        System {
            consumer: self.pop_step().state,
            cells: self.cells.run(self.pop_step().ops).unwrap(),
            ..self
        }
    }

    /// The system after a flush.
    pub open spec fn flush(self) -> System {
        System {
            consumer: self.flush_step().state,
            cells: self.cells.run(self.flush_step().ops).unwrap(),
            ..self
        }
    }

    /// The slot that `tail` names.
    pub open spec fn tail_slot(self) -> u32 {
        self.cells.tail & INDEX_MASK
    }

    /// The consumer has set the consumed flag since the producer last
    /// wrote `tail`.
    pub open spec fn consumed(self) -> bool {
        self.cells.tail & CONSUMED_FLAG != 0
    }

    /// The cells, the producer and the consumer agree on the path `order`
    /// of the producer's chain, on which the slot of `tail` stands at place
    /// `at`.
    ///
    /// The shared chain and head are the producer's own. Before the first
    /// push `tail` is the sentinel and the consumer holds nothing. After
    /// it, `tail` names a slot on the path behind the one that the producer
    /// writes. Where `tail` carries the consumed flag, the consumer holds
    /// the slot that it names. Where it does not, the consumer holds
    /// nothing yet, or it holds the slot that the producer took from it,
    /// and `tail` stands right behind the slot that the producer writes.
    pub open spec fn linked_at(self, order: Seq<int>, at: int) -> bool {
        &&& ring_order(self.producer, self.slots, order)
        &&& self.consumer.wf(self.slots)
        &&& self.cells.chain == self.producer.chain
        &&& self.cells.head == self.producer.head
        &&& if self.producer.head == INVALID_INDEX {
            self.cells.tail == INVALID_INDEX && !self.consumer.holding
        } else {
            &&& 1 <= at < order.len()
            &&& self.cells.tail != INVALID_INDEX
            &&& self.tail_slot() == order[at]
            &&& self.consumed() ==> self.consumer.holding && self.consumer.current == order[at]
            &&& !self.consumed() && self.producer.overrun == INVALID_INDEX
                ==> !self.consumer.holding
            &&& !self.consumed() && self.producer.overrun != INVALID_INDEX ==> {
                &&& self.consumer.holding
                &&& self.consumer.current == self.producer.overrun
                &&& at == 1
            }
        }
    }

    /// `slot` stands on the path between `tail` and the head.
    pub open spec fn live(order: Seq<int>, at: int, slot: int) -> bool {
        exists|place: int| at <= place < order.len() && #[trigger] order[place] == slot
    }

    /// Every slot between `tail` and the head, and the slot that the
    /// consumer holds, holds the words that it was published with.
    pub open spec fn intact_at(self, order: Seq<int>, at: int) -> bool {
        &&& self.cells.words.len() == self.slots
        &&& self.sent.len() == self.slots
        &&& self.producer.head != INVALID_INDEX ==> {
            &&& forall|slot: int|
                0 <= slot < self.slots && #[trigger] Self::live(order, at, slot)
                    ==> self.cells.words[slot] == self.sent[slot]
            &&& self.consumer.holding ==> self.in_hand() == self.sent[self.consumer.current as int]
        }
    }

    /// The invariant, for the path `order` of the producer's chain on
    /// which the slot of `tail` stands at place `at`.
    pub open spec fn coherent_at(self, order: Seq<int>, at: int) -> bool {
        self.linked_at(order, at) && self.intact_at(order, at)
    }

    /// The invariant of a queue whose operations run one after the other.
    pub open spec fn coherent(self) -> bool {
        exists|order: Seq<int>, at: int| self.coherent_at(order, at)
    }

    /// `slot` was published and is still linked between `tail` and `head`:
    /// the producer has not taken it back.
    pub open spec fn published(self, slot: u32) -> bool {
        exists|order: Seq<int>, at: int, place: int|
            self.coherent_at(order, at) && at <= place < order.len() && order[place] == slot
    }
}

/// One operation that runs alone.
pub proof fn lemma_run_one(cells: Cells, a: CellOp)
    requires
        cells.shows(a),
    ensures
        cells.run(seq![a]) == Some(cells.after(a)),
{
    let none = Seq::<CellOp>::empty();
    assert(cells.run(none) == Some(cells));
    cells.lemma_run_push(none, a);
    assert(seq![a] =~= none.push(a));
}

/// Two operations that run with nothing in between.
pub proof fn lemma_run_two(cells: Cells, a: CellOp, b: CellOp)
    requires
        cells.shows(a),
        cells.after(a).shows(b),
    ensures
        cells.run(seq![a, b]) == Some(cells.after(a).after(b)),
{
    let none = Seq::<CellOp>::empty();
    assert(cells.run(none) == Some(cells));
    cells.lemma_run_push(none, a);
    cells.lemma_run_push(none.push(a), b);
    assert(seq![a, b] =~= none.push(a).push(b));
}

/// Facts about a cell value that names a slot below the slot limit, with
/// and without the consumed flag.
proof fn lemma_slot_bits(value: u32, slots: nat)
    requires
        slots <= 0x7FFF_FFFF,
        (value & INDEX_MASK) < slots,
    ensures
        value != INVALID_INDEX,
        value | CONSUMED_FLAG != INVALID_INDEX,
        (value | CONSUMED_FLAG) & INDEX_MASK == value & INDEX_MASK,
        (value | CONSUMED_FLAG) & CONSUMED_FLAG != 0,
        value & CONSUMED_FLAG != 0 ==> value | CONSUMED_FLAG == value,
        value < slots ==> value & INDEX_MASK == value && value & CONSUMED_FLAG == 0,
{
    lemma_flag_bits(value);
    lemma_flag_bits(value | CONSUMED_FLAG);
}

/// Facts about a slot id as a cell value, with and without the consumed
/// flag.
proof fn lemma_plain_slot(value: u32, slots: nat)
    requires
        slots <= 0x7FFF_FFFF,
        value < slots,
    ensures
        value != INVALID_INDEX,
        value | CONSUMED_FLAG != INVALID_INDEX,
        value & INDEX_MASK == value,
        value & CONSUMED_FLAG == 0,
        (value | CONSUMED_FLAG) & INDEX_MASK == value,
        (value | CONSUMED_FLAG) & CONSUMED_FLAG != 0,
{
    lemma_flag_bits(value);
    lemma_flag_bits(value | CONSUMED_FLAG);
}

/// A new queue is coherent.
pub proof fn lemma_initial_coherent(slots: nat, words: Seq<Seq<u32>>)
    requires
        3 <= slots <= 0x7FFF_FFFF,
        words.len() == slots,
    ensures
        System::initial(slots, words).coherent(),
{
    let order = Seq::new(slots, |i: int| i);
    assert(System::initial(slots, words).coherent_at(order, 0));
}

impl System {
    /// The place on the path at which `tail` stands after a pop.
    pub open spec fn pop_place(self, order: Seq<int>, at: int) -> int {
        if self.producer.head != INVALID_INDEX && self.consumed() && at < order.len() - 1 {
            at + 1
        } else {
            at
        }
    }
}

#[verifier::rlimit(40)]
proof fn lemma_pop_at(sys: System, order: Seq<int>, at: int)
    requires
        sys.linked_at(order, at),
    ensures
        sys.cells.run(sys.pop_step().ops).is_some(),
        sys.pop().linked_at(order, sys.pop_place(order, at)),
        sys.pop().cells.words == sys.cells.words,
        sys.pop_step().result == (if sys.producer.head == INVALID_INDEX {
            ConsumeResult::NoMessage
        } else if !sys.consumed() {
            ConsumeResult::SuccessMessagesDiscarded
        } else if at == order.len() - 1 {
            ConsumeResult::NoNewMessage
        } else {
            ConsumeResult::Success
        }),
        sys.producer.head != INVALID_INDEX && sys.consumed() ==> sys.consumer.current
            == order[at],
        sys.producer.head != INVALID_INDEX ==> order[order.len() - 1] == sys.producer.head,
        sys.pop_step().result == ConsumeResult::Success || sys.pop_step().result
            == ConsumeResult::SuccessMessagesDiscarded ==> {
            &&& sys.pop().consumer.holding
            &&& sys.pop().consumer.current == order[sys.pop_place(order, at)]
            &&& sys.pop().consumer.current != sys.producer.current
            &&& sys.pop().consumed()
            &&& sys.pop().tail_slot() == sys.pop().consumer.current
        },
        sys.pop_step().result == ConsumeResult::NoMessage || sys.pop_step().result
            == ConsumeResult::NoNewMessage ==> sys.pop().consumer == sys.consumer,
{
    let view = sys.pop_view();
    let cells = sys.cells;
    let mark = CellOp::TailFetchOr { bits: CONSUMED_FLAG, seen: view.tail };
    let load = CellOp::ChainLoad { slot: sys.consumer.current, seen: view.next };
    let swap = CellOp::TailExchange {
        expected: view.tail,
        new: view.next | CONSUMED_FLAG,
        done: view.swapped,
    };
    lemma_flag_bits(cells.tail);
    if sys.producer.head == INVALID_INDEX {
        lemma_run_one(cells, mark);
        assert(cells.after(mark) == cells);
    } else {
        lemma_slot_bits(cells.tail, sys.slots);
        let len = order.len() as int;
        assert(order[0] == sys.producer.current);
        if !sys.consumed() {
            lemma_run_one(cells, mark);
            assert(order[at] != order[0]);
        } else {
            assert(sys.consumer.current == order[at]);
            assert(cells.after(mark) == cells);
            if at == len - 1 {
                assert(view.next == INVALID_INDEX);
                lemma_run_two(cells, mark, load);
            } else {
                assert(sys.producer.chain[order[at]] == order[at + 1]);
                assert(0 <= order[at + 1] < sys.slots);
                assert(view.next == order[at + 1]);
                lemma_plain_slot(view.next, sys.slots);
                cells.lemma_three(mark, load, swap);
                assert(order[at + 1] != order[0]);
            }
        }
    }
}

proof fn lemma_live_later(order: Seq<int>, at: int, later: int, slot: int)
    requires
        at <= later,
        System::live(order, later, slot),
    ensures
        System::live(order, at, slot),
{
    let place = choose|place: int| later <= place < order.len() && #[trigger] order[place] == slot;
    assert(at <= place < order.len() && order[place] == slot);
}

proof fn lemma_live_at(order: Seq<int>, at: int, place: int)
    requires
        at <= place < order.len(),
    ensures
        System::live(order, at, order[place]),
{
}

proof fn lemma_pop_intact(sys: System, order: Seq<int>, at: int)
    requires
        sys.coherent_at(order, at),
    ensures
        sys.pop().intact_at(order, sys.pop_place(order, at)),
{
    lemma_pop_at(sys, order, at);
    let next = sys.pop();
    let place = sys.pop_place(order, at);
    if sys.producer.head != INVALID_INDEX {
        assert forall|slot: int| 0 <= slot < sys.slots && #[trigger] System::live(
            order,
            place,
            slot,
        ) implies next.cells.words[slot] == next.sent[slot] by {
            lemma_live_later(order, at, place, slot);
        }
        if next.consumer.holding && next.consumer != sys.consumer {
            lemma_live_at(order, at, place);
        }
    }
}

/// A pop that runs alone on a coherent queue.
///
/// Each of its operations sees what the cells hold, and the queue is
/// coherent after it. It never meets a value that names no slot. It finds
/// no message exactly before the first push, and it reports discarded
/// messages exactly where it finds `tail` without the consumed flag: the
/// producer wrote `tail` since the consumer set the flag last, or the
/// consumer has not taken a message before. It finds no new message exactly
/// where it holds the head. A slot that it delivers was published, is still
/// linked between `tail` and `head`, holds the words that it was published
/// with, and is not the slot that the producer writes.
pub proof fn lemma_pop_coherent(sys: System)
    requires
        sys.coherent(),
    ensures
        sys.cells.run(sys.pop_step().ops).is_some(),
        sys.pop().coherent(),
        sys.pop().producer == sys.producer,
        sys.pop().sent == sys.sent,
        sys.pop_step().result != ConsumeResult::QueueError,
        sys.pop_step().result == ConsumeResult::NoMessage <==> sys.producer.head
            == INVALID_INDEX,
        sys.pop_step().result == ConsumeResult::SuccessMessagesDiscarded <==> sys.producer.head
            != INVALID_INDEX && !sys.consumed(),
        sys.pop_step().result == ConsumeResult::NoNewMessage <==> sys.consumed()
            && sys.producer.head != INVALID_INDEX && sys.consumer.current == sys.producer.head,
        sys.pop_step().result == ConsumeResult::Success || sys.pop_step().result
            == ConsumeResult::SuccessMessagesDiscarded ==> {
            &&& sys.pop().consumer.holding
            &&& sys.pop().published(sys.pop().consumer.current)
            &&& sys.pop().in_hand() == sys.sent[sys.pop().consumer.current as int]
            &&& sys.pop().consumer.current != sys.pop().producer.current
            &&& sys.pop().consumed()
            &&& sys.pop().tail_slot() == sys.pop().consumer.current
        },
        sys.pop_step().result == ConsumeResult::NoMessage || sys.pop_step().result
            == ConsumeResult::NoNewMessage ==> sys.pop().consumer == sys.consumer,
{
    let (order, at) = choose|order: Seq<int>, at: int| sys.coherent_at(order, at);
    lemma_pop_at(sys, order, at);
    lemma_pop_intact(sys, order, at);
    let place = sys.pop_place(order, at);
    let next = sys.pop();
    assert(next.coherent_at(order, place));
    if sys.producer.head != INVALID_INDEX {
        assert(1 <= at < order.len());
        if sys.consumed() && at < order.len() - 1 {
            assert(order[at] != order[order.len() - 1]);
        }
        if sys.pop_step().result == ConsumeResult::Success || sys.pop_step().result
            == ConsumeResult::SuccessMessagesDiscarded {
            assert(next.coherent_at(order, place) && place <= place < order.len() && order[place]
                == next.consumer.current);
        }
    }
}

#[verifier::rlimit(40)]
proof fn lemma_flush_at(sys: System, order: Seq<int>, at: int)
    requires
        sys.linked_at(order, at),
    ensures
        sys.cells.run(sys.flush_step().ops).is_some(),
        sys.flush().cells.words == sys.cells.words,
        sys.flush().linked_at(
            order,
            if sys.producer.head == INVALID_INDEX {
                at
            } else {
                order.len() - 1
            },
        ),
        sys.flush_step().result == (if sys.producer.head == INVALID_INDEX {
            ConsumeResult::NoMessage
        } else {
            ConsumeResult::Success
        }),
        sys.producer.head != INVALID_INDEX ==> {
            &&& sys.flush().consumer.holding
            &&& sys.flush().consumer.current == sys.producer.head
            &&& sys.flush().consumer.current == order[order.len() - 1]
            &&& sys.flush().consumer.current != sys.producer.current
        },
        sys.producer.head == INVALID_INDEX ==> sys.flush().consumer == sys.consumer,
{
    let cells = sys.cells;
    let view = FlushView { tail: cells.tail, head: cells.head, swapped: true };
    let none = Seq::<FlushView>::empty();
    assert(sys.flush_views() =~= none.push(view));
    let mark = CellOp::TailFetchOr { bits: CONSUMED_FLAG, seen: view.tail };
    let load = CellOp::HeadLoad { seen: view.head };
    let swap = CellOp::TailExchange {
        expected: view.tail | CONSUMED_FLAG,
        new: view.head | CONSUMED_FLAG,
        done: true,
    };
    lemma_flag_bits(cells.tail);
    let step = sys.flush_step();
    if sys.producer.head == INVALID_INDEX {
        assert(ConsumerState::flush_attempt(sys.slots, view) == Some(ConsumeResult::NoMessage));
        sys.consumer.lemma_flush_decided(sys.slots, none, view, cells.tail);
        assert(step.ops =~= seq![mark]);
        lemma_run_one(cells, mark);
        assert(cells.after(mark) == cells);
    } else {
        let len = order.len() as int;
        lemma_slot_bits(cells.tail, sys.slots);
        assert(order[len - 1] == sys.producer.head);
        assert(0 <= order[len - 1] < sys.slots);
        lemma_plain_slot(cells.head, sys.slots);
        assert(ConsumerState::flush_attempt(sys.slots, view) == Some(ConsumeResult::Success));
        sys.consumer.lemma_flush_decided(sys.slots, none, view, cells.tail);
        assert(step.ops =~= seq![mark, load, swap]);
        cells.lemma_three(mark, load, swap);
        assert(order[0] == sys.producer.current);
        assert(order[len - 1] != order[0]);
    }
}

proof fn lemma_flush_intact(sys: System, order: Seq<int>, at: int)
    requires
        sys.coherent_at(order, at),
    ensures
        sys.flush().intact_at(
            order,
            if sys.producer.head == INVALID_INDEX {
                at
            } else {
                order.len() - 1
            },
        ),
{
    lemma_flush_at(sys, order, at);
    let next = sys.flush();
    if sys.producer.head != INVALID_INDEX {
        let place = order.len() - 1;
        assert forall|slot: int| 0 <= slot < sys.slots && #[trigger] System::live(
            order,
            place,
            slot,
        ) implies next.cells.words[slot] == next.sent[slot] by {
            lemma_live_later(order, at, place, slot);
        }
        lemma_live_at(order, at, place);
    }
}

/// A flush that runs alone on a coherent queue.
///
/// Each of its operations sees what the cells hold, and the queue is
/// coherent after it. It finds no message exactly before the first push;
/// else its first attempt takes the head, the message that was published
/// last, which holds the words that it was published with.
pub proof fn lemma_flush_coherent(sys: System)
    requires
        sys.coherent(),
    ensures
        sys.cells.run(sys.flush_step().ops).is_some(),
        sys.flush().coherent(),
        sys.flush().producer == sys.producer,
        sys.flush().sent == sys.sent,
        sys.flush_step().result == (if sys.producer.head == INVALID_INDEX {
            ConsumeResult::NoMessage
        } else {
            ConsumeResult::Success
        }),
        sys.producer.head != INVALID_INDEX ==> {
            &&& sys.flush().consumer.holding
            &&& sys.flush().consumer.current == sys.producer.head
            &&& sys.flush().published(sys.producer.head)
            &&& sys.flush().in_hand() == sys.sent[sys.producer.head as int]
            &&& sys.flush().consumer.current != sys.producer.current
        },
        sys.producer.head == INVALID_INDEX ==> sys.flush().consumer == sys.consumer,
{
    let (order, at) = choose|order: Seq<int>, at: int| sys.coherent_at(order, at);
    lemma_flush_at(sys, order, at);
    lemma_flush_intact(sys, order, at);
    let next = sys.flush();
    if sys.producer.head != INVALID_INDEX {
        let place = order.len() - 1;
        assert(next.coherent_at(order, place) && place <= place < order.len() && order[place]
            == sys.producer.head);
    } else {
        assert(next.coherent_at(order, at));
    }
}

proof fn lemma_run_publish(cells: Cells, producer: ProducerState, before: Seq<CellOp>, mid: Cells)
    requires
        cells.run(before) == Some(mid),
        producer.current < mid.chain.len(),
        producer.head < mid.chain.len(),
    ensures
        cells.run(before + producer.publish_ops()) == Some(
            Cells {
                tail: mid.tail,
                head: producer.current,
                chain: mid.chain.update(producer.current as int, INVALID_INDEX).update(
                    producer.head as int,
                    producer.current,
                ),
                words: mid.words,
            },
        ),
{
    let a = CellOp::ChainStore { slot: producer.current, value: INVALID_INDEX };
    let b = CellOp::ChainStore { slot: producer.head, value: producer.current };
    let c = CellOp::HeadStore { value: producer.current };
    cells.lemma_run_push(before, a);
    cells.lemma_run_push(before.push(a), b);
    cells.lemma_run_push(before.push(a).push(b), c);
    assert(before + producer.publish_ops() =~= before.push(a).push(b).push(c));
}

impl System {
    /// The producer finds no slot to publish into.
    pub open spec fn full(self) -> bool {
        self.producer.is_full(self.slots, self.cells.tail)
    }
}

proof fn lemma_first_push_at(sys: System, order: Seq<int>, at: int)
    requires
        sys.linked_at(order, at),
        sys.producer.head == INVALID_INDEX,
    ensures
        sys.cells.run(sys.producer.first_publish_ops()) == Some(
            Cells {
                tail: sys.producer.current,
                head: sys.producer.current,
                chain: sys.producer.first_published().chain,
                words: sys.cells.words,
            },
        ),
        (System {
            producer: sys.producer.first_published(),
            cells: Cells {
                tail: sys.producer.current,
                head: sys.producer.current,
                chain: sys.producer.first_published().chain,
                words: sys.cells.words,
            },
            sent: sys.sending(),
            ..sys
        }).linked_at(rotated(order), order.len() - 1),
        sys.producer.next() < sys.slots,
{
    let producer = sys.producer;
    let a = CellOp::ChainStore { slot: producer.current, value: INVALID_INDEX };
    let b = CellOp::TailStore { value: producer.current };
    let c = CellOp::HeadStore { value: producer.current };
    sys.cells.lemma_three(a, b, c);
    lemma_first_publish(producer, sys.slots, order);
    lemma_rotated(order);
    lemma_plain_slot(producer.current, sys.slots);
}

/// A force-push that runs alone on a coherent queue, for the path `order`
/// with `tail` at place `at`.
#[verifier::rlimit(40)]
proof fn lemma_force_push_at(sys: System, order: Seq<int>, at: int) -> (next: (Seq<int>, int))
    requires
        sys.linked_at(order, at),
    ensures
        sys.cells.run(sys.force_push_step().ops).is_some(),
        sys.force_push().linked_at(next.0, next.1),
        sys.force_push().cells.words == sys.cells.words,
        forall|slot: int| #[trigger]
            System::live(next.0, next.1, slot) ==> slot == sys.producer.current || (
            sys.producer.head != INVALID_INDEX && System::live(order, at, slot)),
        sys.force_push_step().result == (if sys.full() {
            ProduceForceResult::SuccessMessageDiscarded
        } else {
            ProduceForceResult::Success
        }),
{
    let producer = sys.producer;
    let cells = sys.cells;
    let slots = sys.slots;
    let view = sys.push_view();
    let step = sys.force_push_step();
    let none = Seq::<CellOp>::empty();
    lemma_flag_bits(cells.tail);
    lemma_rotated(order);
    let rot = rotated(order);
    let len = order.len() as int;
    if producer.head == INVALID_INDEX {
        lemma_first_push_at(sys, order, at);
        (rot, len - 1)
    } else {
        lemma_publish(producer, slots, order);
        lemma_slot_bits(cells.tail, slots);
        let p = producer.published();
        let t = view.tail & INDEX_MASK;
        let next = producer.next();
        assert(order[1] == next);
        assert(t == order[at]);
        assert(rot[at - 1] == order[at]);
        assert(next == t <==> at == 1);
        assert(cells.run(none) == Some(cells));
        lemma_run_publish(cells, producer, none, cells);
        assert(none + producer.publish_ops() =~= producer.publish_ops());
        let mid = Cells { tail: cells.tail, head: producer.current, chain: p.chain, words: cells.words };
        assert(cells.run(producer.publish_ops()) == Some(mid));
        let load = CellOp::TailLoad { seen: view.tail };
        let ops = producer.publish_ops().push(load);
        cells.lemma_run_push(producer.publish_ops(), load);
        assert(cells.run(ops) == Some(mid));
        let moving = CellOp::TailExchange {
            expected: view.tail,
            new: p.chain[t as int],
            done: true,
        };
        if producer.overrun != INVALID_INDEX {
            let stitch = CellOp::ChainStore { slot: producer.overrun, value: next };
            if sys.consumed() {
                lemma_restitch(producer, slots, order);
                cells.lemma_run_push(ops, stitch);
                let full = seq![producer.overrun as int] + rot;
                assert(full[at] == rot[at - 1]);
                (full, at)
            } else {
                assert(at == 1);
                assert(p.chain[rot[0]] == rot[1]);
                lemma_plain_slot(p.chain[t as int], slots);
                cells.lemma_run_push(ops, moving);
                (rot, 1)
            }
        } else if next != t {
            (rot, at - 1)
        } else if !sys.consumed() {
            assert(p.chain[rot[0]] == rot[1]);
            lemma_plain_slot(p.chain[t as int], slots);
            cells.lemma_run_push(ops, moving);
            (rot, 1)
        } else {
            lemma_jump(producer, slots, order);
            let after = p.chain[t as int];
            assert(p.chain[rot[0]] == rot[1]);
            assert(p.chain[rot[1]] == rot[2]);
            assert(0 <= rot[2] < slots) by {
                assert(order.contains(rot[2]));
            }
            lemma_plain_slot(p.chain[after as int], slots);
            let jump = CellOp::TailExchange {
                expected: view.tail | CONSUMED_FLAG,
                new: p.chain[after as int],
                done: true,
            };
            cells.lemma_run_push(ops, jump);
            let rest = rot.subrange(1, len);
            assert(rest[1] == rot[2]);
            (rest, 1)
        }
    }
}

/// A force-push that runs alone on a coherent queue.
///
/// Each of its operations sees what the cells hold, and the queue is
/// coherent after it. It never meets a value that names no slot, it leaves
/// the consumer and every message alone, and it reports a discarded message
/// exactly where the queue was full, so that a try-push would have been
/// refused. The slot that was written is the head, published with the words
/// that it holds.
pub proof fn lemma_force_push_coherent(sys: System)
    requires
        sys.coherent(),
    ensures
        sys.cells.run(sys.force_push_step().ops).is_some(),
        sys.force_push().coherent(),
        sys.force_push().consumer == sys.consumer,
        sys.force_push().cells.words == sys.cells.words,
        sys.force_push().sent == sys.sending(),
        sys.force_push().producer.head == sys.producer.current,
        sys.force_push_step().result == (if sys.full() {
            ProduceForceResult::SuccessMessageDiscarded
        } else {
            ProduceForceResult::Success
        }),
{
    let (order, at) = choose|order: Seq<int>, at: int| sys.coherent_at(order, at);
    let next = lemma_force_push_at(sys, order, at);
    assert(sys.force_push().coherent_at(next.0, next.1));
}

/// A try-push that runs alone on a coherent queue, for the path `order`
/// with `tail` at place `at`.
#[verifier::rlimit(40)]
proof fn lemma_try_push_at(sys: System, order: Seq<int>, at: int) -> (next: (Seq<int>, int))
    requires
        sys.linked_at(order, at),
    ensures
        sys.cells.run(sys.try_push_step().ops).is_some(),
        sys.try_push().linked_at(next.0, next.1),
        sys.try_push().cells.words == sys.cells.words,
        sys.full() ==> next.0 == order && next.1 == at,
        forall|slot: int| #[trigger]
            System::live(next.0, next.1, slot) ==> slot == sys.producer.current || (
            sys.producer.head != INVALID_INDEX && System::live(order, at, slot)),
        sys.try_push_step().result == (if sys.full() {
            ProduceTryResult::QueueFull
        } else {
            ProduceTryResult::Success
        }),
        sys.full() ==> sys.try_push().producer == sys.producer && sys.try_push().cells
            == sys.cells,
{
    let producer = sys.producer;
    let cells = sys.cells;
    let slots = sys.slots;
    let tail = cells.tail;
    let step = sys.try_push_step();
    let none = Seq::<CellOp>::empty();
    lemma_flag_bits(cells.tail);
    lemma_rotated(order);
    let rot = rotated(order);
    let len = order.len() as int;
    if producer.head == INVALID_INDEX {
        lemma_first_push_at(sys, order, at);
        (rot, len - 1)
    } else {
        lemma_publish(producer, slots, order);
        lemma_slot_bits(cells.tail, slots);
        let p = producer.published();
        let t = tail & INDEX_MASK;
        let next = producer.next();
        assert(order[1] == next);
        assert(t == order[at]);
        assert(rot[at - 1] == order[at]);
        assert(next == t <==> at == 1);
        let load = CellOp::TailLoad { seen: tail };
        let first = seq![load];
        lemma_run_one(cells, load);
        assert(cells.run(first) == Some(cells));
        lemma_run_publish(cells, producer, first, cells);
        let mid = Cells { tail: cells.tail, head: producer.current, chain: p.chain, words: cells.words };
        if producer.overrun != INVALID_INDEX && sys.consumed() {
            let stitch = CellOp::ChainStore { slot: producer.overrun, value: next };
            lemma_restitch(producer, slots, order);
            cells.lemma_run_push(first + producer.publish_ops(), stitch);
            let full = seq![producer.overrun as int] + rot;
            assert(full[at] == rot[at - 1]);
            (full, at)
        } else if producer.overrun == INVALID_INDEX && next != t {
            (rot, at - 1)
        } else {
            assert(sys.try_push().cells == cells);
            (order, at)
        }
    }
}

/// A try-push that runs alone on a coherent queue.
///
/// Each of its operations sees what the cells hold, and the queue is
/// coherent after it. It never meets a value that names no slot, it leaves
/// the consumer alone, and it is refused exactly where the queue is full;
/// nothing has changed then.
pub proof fn lemma_try_push_coherent(sys: System)
    requires
        sys.coherent(),
    ensures
        sys.cells.run(sys.try_push_step().ops).is_some(),
        sys.try_push().coherent(),
        sys.try_push().consumer == sys.consumer,
        sys.try_push().cells.words == sys.cells.words,
        !sys.full() ==> sys.try_push().sent == sys.sending() && sys.try_push().producer.head
            == sys.producer.current,
        sys.try_push_step().result == (if sys.full() {
            ProduceTryResult::QueueFull
        } else {
            ProduceTryResult::Success
        }),
        sys.full() ==> sys.try_push() == sys,
{
    let (order, at) = choose|order: Seq<int>, at: int| sys.coherent_at(order, at);
    let next = lemma_try_push_at(sys, order, at);
    assert(sys.try_push().coherent_at(next.0, next.1));
}

/// On a coherent queue the consumer never holds the slot that the producer
/// writes, every shared cell is the sentinel or names a slot, and the
/// producer's chain is a ring. After the first push, `tail` is without the
/// consumed flag exactly where the consumer has not taken a message yet or
/// holds the slot that the producer took from it.
pub proof fn lemma_coherent(sys: System)
    requires
        sys.coherent(),
    ensures
        sys.consumer.holding ==> sys.consumer.current != sys.producer.current,
        sys.consumer.holding ==> sys.producer.head != INVALID_INDEX,
        sys.producer.head != INVALID_INDEX ==> (!sys.consumed() <==> !sys.consumer.holding
            || sys.consumer.current == sys.producer.overrun),
        crate::ring::is_ring(sys.producer, sys.slots),
        crate::cells::cell_ok(sys.cells.tail, sys.slots),
        sys.cells.head == INVALID_INDEX || sys.cells.head < sys.slots,
        sys.cells.chain.len() == sys.slots,
        forall|i: int|
            0 <= i < sys.slots ==> #[trigger] sys.cells.chain[i] == INVALID_INDEX
                || sys.cells.chain[i] < sys.slots,
{
    let (order, at) = choose|order: Seq<int>, at: int| sys.coherent_at(order, at);
    assert(order[0] == sys.producer.current);
    if sys.producer.head != INVALID_INDEX && sys.consumer.holding {
        if sys.consumed() {
            assert(order[at] != order[0]);
            assert(order.contains(order[at]));
        } else {
            assert(order.contains(order[0]));
        }
    }
}

/// Whatever a force-push saw, if its operations ran alone on the cells of
/// a coherent queue, it did the step of the model.
#[verifier::rlimit(40)]
pub proof fn lemma_force_push_determined(sys: System, view: PushView)
    requires
        sys.coherent(),
        sys.cells.run(sys.producer.force_push(sys.slots, view).ops).is_some(),
    ensures
        sys.producer.force_push(sys.slots, view).state == sys.force_push_step().state,
        sys.producer.force_push(sys.slots, view).result == sys.force_push_step().result,
        sys.producer.force_push(sys.slots, view).ops == sys.force_push_step().ops,
{
    let (order, at) = choose|order: Seq<int>, at: int| sys.coherent_at(order, at);
    let producer = sys.producer;
    let cells = sys.cells;
    let slots = sys.slots;
    let seen = producer.force_push(slots, view);
    let none = Seq::<CellOp>::empty();
    if producer.head != INVALID_INDEX {
        lemma_publish(producer, slots, order);
        let p = producer.published();
        assert(cells.run(none) == Some(cells));
        lemma_run_publish(cells, producer, none, cells);
        assert(none + producer.publish_ops() =~= producer.publish_ops());
        let mid = Cells { tail: cells.tail, head: producer.current, chain: p.chain, words: cells.words };
        let load = CellOp::TailLoad { seen: view.tail };
        let ops = producer.publish_ops().push(load);
        cells.lemma_run_push(producer.publish_ops(), load);
        let t = view.tail & INDEX_MASK;
        let moving = CellOp::TailExchange {
            expected: view.tail,
            new: p.chain[t as int],
            done: view.moved,
        };
        let stitch = CellOp::ChainStore { slot: producer.overrun, value: producer.next() };
        let after = p.chain[t as int];
        let jump = CellOp::TailExchange {
            expected: view.tail | CONSUMED_FLAG,
            new: p.chain[after as int],
            done: view.jumped,
        };
        lemma_flag_bits(view.tail);
        // Each list of operations that the step can have made starts with
        // the publication and the load of `tail`, so the load saw `tail`.
        cells.lemma_run_push(ops, stitch);
        cells.lemma_run_push(ops, moving);
        cells.lemma_run_push(ops.push(moving), stitch);
        cells.lemma_run_push(ops, jump);
        cells.lemma_run_push(ops.push(moving), jump);
        assert(view.tail == cells.tail);
        lemma_slot_bits(cells.tail, slots);
        lemma_force_push_at(sys, order, at);
        assert(seen.ops =~= sys.force_push_step().ops);
    }
}

/// Whatever a try-push saw, if its operations ran alone on the cells of a
/// coherent queue, it did the step of the model.
pub proof fn lemma_try_push_determined(sys: System, tail: u32)
    requires
        sys.coherent(),
        sys.cells.run(sys.producer.try_push(sys.slots, tail).ops).is_some(),
    ensures
        sys.producer.try_push(sys.slots, tail) == sys.try_push_step(),
{
    let (order, at) = choose|order: Seq<int>, at: int| sys.coherent_at(order, at);
    let producer = sys.producer;
    let cells = sys.cells;
    if producer.head != INVALID_INDEX {
        lemma_publish(producer, sys.slots, order);
        let load = CellOp::TailLoad { seen: tail };
        let first = seq![load];
        let none = Seq::<CellOp>::empty();
        assert(first =~= none.push(load));
        assert(cells.run(none) == Some(cells));
        cells.lemma_run_push(none, load);
        let stitch = CellOp::ChainStore { slot: producer.overrun, value: producer.next() };
        if !cells.shows(load) {
            assert(cells.run(first).is_none());
            lemma_run_none(cells, first, producer.publish_ops());
            cells.lemma_run_push(first + producer.publish_ops(), stitch);
        }
    }
}

proof fn lemma_run_none(cells: Cells, before: Seq<CellOp>, more: Seq<CellOp>)
    requires
        cells.run(before).is_none(),
    ensures
        cells.run(before + more).is_none(),
    decreases more.len(),
{
    if more.len() == 0 {
        assert(before + more =~= before);
    } else {
        lemma_run_none(cells, before, more.drop_last());
        assert((before + more).drop_last() =~= before + more.drop_last());
    }
}

/// Whatever a pop saw, if its operations ran alone on the cells of a
/// coherent queue, it did the step of the model.
pub proof fn lemma_pop_determined(sys: System, view: PopView)
    requires
        sys.coherent(),
        sys.cells.run(sys.consumer.pop(sys.slots, view).ops).is_some(),
    ensures
        sys.consumer.pop(sys.slots, view).state == sys.pop_step().state,
        sys.consumer.pop(sys.slots, view).result == sys.pop_step().result,
        sys.consumer.pop(sys.slots, view).ops == sys.pop_step().ops,
{
    let (order, at) = choose|order: Seq<int>, at: int| sys.coherent_at(order, at);
    let cells = sys.cells;
    let none = Seq::<CellOp>::empty();
    let mark = CellOp::TailFetchOr { bits: CONSUMED_FLAG, seen: view.tail };
    let load = CellOp::ChainLoad { slot: sys.consumer.current, seen: view.next };
    let swap = CellOp::TailExchange {
        expected: view.tail,
        new: view.next | CONSUMED_FLAG,
        done: view.swapped,
    };
    let again = CellOp::TailFetchOr { bits: CONSUMED_FLAG, seen: view.again };
    assert(cells.run(none) == Some(cells));
    cells.lemma_run_push(none, mark);
    cells.lemma_run_push(none.push(mark), load);
    cells.lemma_run_push(none.push(mark).push(load), swap);
    cells.lemma_run_push(none.push(mark).push(load).push(swap), again);
    assert(seq![mark] =~= none.push(mark));
    assert(seq![mark, load] =~= none.push(mark).push(load));
    assert(seq![mark, load, swap] =~= none.push(mark).push(load).push(swap));
    assert(seq![mark, load, swap, again] =~= none.push(mark).push(load).push(swap).push(again));
    assert(view.tail == cells.tail);
    lemma_flag_bits(cells.tail);
    lemma_pop_at(sys, order, at);
    let seen = sys.consumer.pop(sys.slots, view);
    if sys.producer.head != INVALID_INDEX && sys.consumed() {
        assert(view.next == cells.chain[sys.consumer.current as int]);
        if at < order.len() - 1 {
            assert(sys.producer.chain[order[at]] == order[at + 1]);
            assert(view.swapped);
        }
    }
    assert(seen.ops =~= sys.pop_step().ops);
}


/// Whatever a flush saw, if its operations ran alone on the cells of a
/// coherent queue, it did the step of the model.
#[verifier::rlimit(40)]
pub proof fn lemma_flush_determined(sys: System, views: Seq<FlushView>, again: u32)
    requires
        sys.coherent(),
        views.len() >= 1,
        sys.cells.run(sys.consumer.flush(sys.slots, views, again).ops).is_some(),
    ensures
        sys.consumer.flush(sys.slots, views, again).state == sys.flush_step().state,
        sys.consumer.flush(sys.slots, views, again).result == sys.flush_step().result,
        sys.consumer.flush(sys.slots, views, again).ops == sys.flush_step().ops,
{
    let (order, at) = choose|order: Seq<int>, at: int| sys.coherent_at(order, at);
    let cells = sys.cells;
    let view = views[0];
    let none = Seq::<CellOp>::empty();
    let mark = CellOp::TailFetchOr { bits: CONSUMED_FLAG, seen: view.tail };
    let load = CellOp::HeadLoad { seen: view.head };
    let swap = CellOp::TailExchange {
        expected: view.tail | CONSUMED_FLAG,
        new: view.head | CONSUMED_FLAG,
        done: view.swapped,
    };
    let first = ConsumerState::flush_attempt_ops(sys.slots, view);
    let seen = sys.consumer.flush(sys.slots, views, again);
    let rest = sys.consumer.flush(sys.slots, views.drop_first(), again);
    assert(cells.run(none) == Some(cells));
    cells.lemma_run_push(none, mark);
    cells.lemma_run_push(none.push(mark), load);
    cells.lemma_run_push(none.push(mark).push(load), swap);
    assert(seq![mark] =~= none.push(mark));
    assert(seq![mark, load] =~= none.push(mark).push(load));
    assert(seq![mark, load, swap] =~= none.push(mark).push(load).push(swap));
    if cells.run(first).is_none() {
        lemma_run_none(cells, first, rest.ops);
        assert(first + Seq::<CellOp>::empty() =~= first);
    }
    assert(cells.run(first).is_some());
    assert(view.tail == cells.tail);
    lemma_flag_bits(cells.tail);
    lemma_flush_at(sys, order, at);
    let model = FlushView { tail: cells.tail, head: cells.head, swapped: true };
    let single = Seq::<FlushView>::empty();
    assert(sys.flush_views() =~= single.push(model));
    if sys.producer.head == INVALID_INDEX {
        assert(ConsumerState::flush_attempt(sys.slots, view) == Some(ConsumeResult::NoMessage));
        assert(ConsumerState::flush_attempt(sys.slots, model) == Some(ConsumeResult::NoMessage));
        sys.consumer.lemma_flush_decided(sys.slots, single, model, cells.tail);
        assert(seen.ops =~= sys.flush_step().ops);
    } else {
        lemma_slot_bits(cells.tail, sys.slots);
        assert(order[order.len() - 1] == sys.producer.head);
        assert(view.head == cells.head);
        assert(view.swapped);
        assert(view == model);
        assert(ConsumerState::flush_attempt(sys.slots, model) == Some(ConsumeResult::Success));
        sys.consumer.lemma_flush_decided(sys.slots, single, model, cells.tail);
        assert(seen.ops =~= sys.flush_step().ops);
    }
}

/// The words of a slot after the first `upto` words of `message` were
/// written over them.
pub open spec fn overwritten(before: Seq<u32>, message: Seq<u32>, upto: int) -> Seq<u32> {
    Seq::new(
        before.len(),
        |i: int|
            if i < upto {
                message[i]
            } else {
                before[i]
            },
    )
}

proof fn lemma_run_stores(cells: Cells, slot: u32, message: Seq<u32>, upto: int)
    requires
        slot < cells.words.len(),
        0 <= upto <= message.len() <= cells.words[slot as int].len(),
    ensures
        cells.run(message_stores(slot, message, upto)) == Some(
            Cells {
                words: cells.words.update(
                    slot as int,
                    overwritten(cells.words[slot as int], message, upto),
                ),
                ..cells
            },
        ),
    decreases upto,
{
    let before = cells.words[slot as int];
    if upto == 0 {
        assert(message_stores(slot, message, 0) =~= Seq::<CellOp>::empty());
        assert(overwritten(before, message, 0) =~= before);
        assert(cells.words.update(slot as int, before) =~= cells.words);
    } else {
        lemma_run_stores(cells, slot, message, upto - 1);
        let earlier = message_stores(slot, message, upto - 1);
        let store = CellOp::SlotStore {
            slot,
            word: (upto - 1) as nat,
            value: message[upto - 1],
        };
        assert(message_stores(slot, message, upto) =~= earlier.push(store));
        cells.lemma_run_push(earlier, store);
        let mid = cells.words.update(slot as int, overwritten(before, message, upto - 1));
        assert(mid[slot as int].update(upto - 1, message[upto - 1]) =~= overwritten(
            before,
            message,
            upto,
        ));
        assert(mid.update(slot as int, overwritten(before, message, upto))
            =~= cells.words.update(slot as int, overwritten(before, message, upto)));
    }
}

proof fn lemma_run_loads(cells: Cells, slot: u32, message: Seq<u32>)
    requires
        cells.run(message_loads(slot, message)).is_some(),
    ensures
        cells.run(message_loads(slot, message)) == Some(cells),
        message.len() > 0 ==> slot < cells.words.len(),
        message.len() > 0 ==> message.len() <= cells.words[slot as int].len(),
        forall|i: int| 0 <= i < message.len() ==> message[i] == cells.words[slot as int][i],
    decreases message.len(),
{
    if message.len() > 0 {
        let shorter = message.drop_last();
        let load = CellOp::SlotLoad {
            slot,
            word: (message.len() - 1) as nat,
            seen: message.last(),
        };
        assert(message_loads(slot, message) =~= message_loads(slot, shorter).push(load));
        cells.lemma_run_push(message_loads(slot, shorter), load);
        lemma_run_loads(cells, slot, shorter);
        assert forall|i: int| 0 <= i < message.len() implies message[i]
            == cells.words[slot as int][i] by {
            if i < shorter.len() {
                assert(shorter[i] == message[i]);
            }
        }
    } else {
        assert(message_loads(slot, message) =~= Seq::<CellOp>::empty());
    }
}

/// Writing a message to the slot that is published next, on a coherent
/// queue with nothing running beside it.
///
/// Every store finds its word, and the queue is coherent after it. The slot
/// begins with the message. No other slot is touched: the message that the
/// consumer holds and the messages between `tail` and the head are as they
/// were published.
pub proof fn lemma_write_coherent(sys: System, message: Seq<u32>)
    requires
        sys.coherent(),
        message.len() <= sys.cells.words[sys.producer.current as int].len(),
    ensures
        sys.cells.run(
            message_stores(sys.producer.current, message, message.len() as int),
        ).is_some(),
        sys.write(message).coherent(),
        sys.write(message).producer == sys.producer,
        sys.write(message).consumer == sys.consumer,
        sys.write(message).sent == sys.sent,
        sys.write(message).cells.words[sys.producer.current as int] == overwritten(
            sys.cells.words[sys.producer.current as int],
            message,
            message.len() as int,
        ),
        forall|slot: int|
            0 <= slot < sys.slots && slot != sys.producer.current ==> #[trigger] sys.write(
                message,
            ).cells.words[slot] == sys.cells.words[slot],
        sys.consumer.holding ==> sys.write(message).in_hand() == sys.in_hand(),
{
    let (order, at) = choose|order: Seq<int>, at: int| sys.coherent_at(order, at);
    let slot = sys.producer.current;
    lemma_run_stores(sys.cells, slot, message, message.len() as int);
    let next = sys.write(message);
    assert(order[0] == slot);
    assert(next.linked_at(order, at));
    if sys.producer.head != INVALID_INDEX {
        assert forall|other: int| 0 <= other < sys.slots && #[trigger] System::live(
            order,
            at,
            other,
        ) implies next.cells.words[other] == next.sent[other] by {
            let place = choose|place: int|
                at <= place < order.len() && #[trigger] order[place] == other;
            assert(order[place] != order[0]);
        }
        if sys.consumer.holding {
            if sys.consumed() {
                assert(order[at] != order[0]);
            } else {
                assert(order.contains(order[0]));
            }
        }
    }
    assert(next.coherent_at(order, at));
}

/// What a read that runs alone delivers is the beginning of the message in
/// hand, and it changes nothing.
pub proof fn lemma_read_determined(sys: System, message: Seq<u32>)
    requires
        sys.cells.run(message_loads(sys.consumer.current, message)).is_some(),
    ensures
        sys.cells.run(message_loads(sys.consumer.current, message)) == Some(sys.cells),
        message.len() > 0 ==> message.len() <= sys.in_hand().len(),
        forall|i: int| 0 <= i < message.len() ==> message[i] == sys.in_hand()[i],
{
    lemma_run_loads(sys.cells, sys.consumer.current, message);
}

impl Cells {
    /// Every index cell holds the sentinel or, without the consumed flag,
    /// the id of one of `slots` slots.
    pub open spec fn valid(self, slots: nat) -> bool {
        &&& cell_ok(self.tail, slots)
        &&& self.head == INVALID_INDEX || self.head < slots
        &&& self.chain.len() == slots
        &&& forall|i: int|
            0 <= i < slots ==> #[trigger] self.chain[i] == INVALID_INDEX || self.chain[i] < slots
    }
}

/// In every schedule, valid cells stay valid as long as each end writes
/// only what `writes_ok` allows.
///
/// `history` holds the operations of both ends in the order in which they
/// took effect; what is asked of it is that each operation saw what the
/// ones before it left.
pub proof fn lemma_cells_stay_valid(cells: Cells, slots: nat, history: Seq<CellOp>)
    requires
        cells.valid(slots),
        all_writes_ok(history, slots),
        cells.run(history).is_some(),
    ensures
        cells.run(history).unwrap().valid(slots),
    decreases history.len(),
{
    if history.len() > 0 {
        let earlier = history.drop_last();
        let op = history.last();
        assert forall|k: int| 0 <= k < earlier.len() implies writes_ok(
            #[trigger] earlier[k],
            slots,
        ) by {
            assert(earlier[k] == history[k]);
        }
        lemma_cells_stay_valid(cells, slots, earlier);
        let before = cells.run(earlier).unwrap();
        assert(writes_ok(history[history.len() - 1], slots));
        lemma_flag_bits(before.tail);
        let after = before.after(op);
        assert forall|i: int| 0 <= i < slots implies #[trigger] after.chain[i] == INVALID_INDEX
            || after.chain[i] < slots by {
            assert(before.chain[i] == INVALID_INDEX || before.chain[i] < slots);
        }
    }
}

/// The chain after the first `upto` stores of a new queue's chain were
/// made on it.
pub open spec fn chain_begun(before: Seq<u32>, slots: nat, upto: int) -> Seq<u32> {
    Seq::new(
        before.len(),
        |i: int|
            if i < upto {
                ProducerState::initial(slots).chain[i]
            } else {
                before[i]
            },
    )
}

proof fn lemma_run_chain_ops(cells: Cells, slots: nat, upto: int)
    requires
        cells.chain.len() == slots,
        slots <= 0x7FFF_FFFF,
        0 <= upto <= slots,
    ensures
        cells.run(Queue::chain_ops(slots).take(upto)) == Some(
            Cells { chain: chain_begun(cells.chain, slots, upto), ..cells },
        ),
    decreases upto,
{
    let ops = Queue::chain_ops(slots);
    if upto == 0 {
        assert(ops.take(0) =~= Seq::<CellOp>::empty());
        assert(chain_begun(cells.chain, slots, 0) =~= cells.chain);
    } else {
        lemma_run_chain_ops(cells, slots, upto - 1);
        let store = ops[upto - 1];
        assert(ops.take(upto) =~= ops.take(upto - 1).push(store));
        cells.lemma_run_push(ops.take(upto - 1), store);
        let mid = chain_begun(cells.chain, slots, upto - 1);
        assert(mid.update(upto - 1, ProducerState::initial(slots).chain[upto - 1]) =~= chain_begun(
            cells.chain,
            slots,
            upto,
        ));
    }
}

/// Whatever the cells of a queue held, after the stores that make a queue
/// new and empty they are those of a new queue: `tail` and `head` hold the
/// sentinel, and every slot leads to the next one and the last one back to
/// the first. No word of a message is touched.
pub proof fn lemma_init_ops(cells: Cells, slots: nat, words: Seq<Seq<u32>>)
    requires
        cells.chain.len() == slots,
        cells.words == words,
        slots <= 0x7FFF_FFFF,
    ensures
        cells.run(Queue::init_ops(slots)) == Some(System::initial(slots, words).cells),
{
    let chain = Queue::chain_ops(slots);
    lemma_run_chain_ops(cells, slots, slots as int);
    assert(chain.take(slots as int) =~= chain);
    assert(chain_begun(cells.chain, slots, slots as int) =~= ProducerState::initial(slots).chain);
    let tail = CellOp::TailStore { value: INVALID_INDEX };
    let head = CellOp::HeadStore { value: INVALID_INDEX };
    cells.lemma_run_push(chain, tail);
    cells.lemma_run_push(chain.push(tail), head);
}

/// Operations that run behind others run on what those left.
pub proof fn lemma_run_concat(cells: Cells, first: Seq<CellOp>, then: Seq<CellOp>)
    requires
        cells.run(first).is_some(),
    ensures
        cells.run(first + then) == cells.run(first).unwrap().run(then),
    decreases then.len(),
{
    if then.len() == 0 {
        assert(first + then =~= first);
    } else {
        lemma_run_concat(cells, first, then.drop_last());
        assert((first + then).drop_last() =~= first + then.drop_last());
        assert((first + then).last() == then.last());
    }
}

} // verus!
