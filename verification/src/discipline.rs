//! What each end of a queue writes to the shared cells, and what the
//! producer may rely on when the consumer keeps to its part.
//!
//! The consumer never writes `tail` without the consumed flag; the producer
//! never writes it with the flag. A `tail` that the producer finds without
//! the flag is therefore the value that it wrote last itself.
use vstd::prelude::*;
use crate::cells::CellOp;
use crate::cells::cell_ok;
use crate::cells::lemma_flag_bits;
use crate::cells::CONSUMED_FLAG;
use crate::cells::INDEX_MASK;
use crate::cells::INVALID_INDEX;
use crate::consumer::ConsumerState;
use crate::consumer::FlushView;
use crate::consumer::PopView;
use crate::producer::ProducerState;
use crate::producer::PushView;
use crate::producer::message_stores;
use crate::queue::ProduceForceResult;
use crate::ring::is_ring;
use crate::ring::lemma_force_push_keeps_ring;
use crate::ring::lemma_try_push_keeps_ring;
use crate::ring::ring_order;
use crate::ring::tail_expected;

verus! {

/// The operation writes no value that is neither the sentinel nor, without
/// the consumed flag, a slot id, and writes no chain cell that is not
/// there.
pub open spec fn writes_ok(op: CellOp, slots: nat) -> bool {
    match op {
        CellOp::TailStore { value } => cell_ok(value, slots),
        CellOp::TailExchange { expected, new, done } => cell_ok(new, slots),
        CellOp::TailFetchOr { bits, seen } => bits == CONSUMED_FLAG,
        CellOp::HeadStore { value } => value == INVALID_INDEX || value < slots,
        CellOp::ChainStore { slot, value } => slot < slots && (value == INVALID_INDEX || value
            < slots),
        CellOp::SlotStore { slot, word, value } => slot < slots,
        _ => true,
    }
}

/// Every operation of the list keeps the cells valid.
pub open spec fn all_writes_ok(ops: Seq<CellOp>, slots: nat) -> bool {
    forall|k: int| 0 <= k < ops.len() ==> writes_ok(#[trigger] ops[k], slots)
}

/// Setting the consumed flag leaves a valid cell valid.
pub proof fn lemma_flag_keeps_cell_ok(value: u32, slots: nat)
    requires
        cell_ok(value, slots),
    ensures
        cell_ok(value | CONSUMED_FLAG, slots),
{
    lemma_flag_bits(value);
}

proof fn lemma_slot_is_cell_ok(value: u32, slots: nat)
    requires
        slots <= 0x7FFF_FFFF,
        value == INVALID_INDEX || value < slots,
    ensures
        cell_ok(value, slots),
        value < slots ==> cell_ok(value | CONSUMED_FLAG, slots),
{
    lemma_flag_bits(value);
}

/// A force-push of a valid producer leaves it valid and writes only valid
/// cell values.
pub proof fn lemma_force_push_writes_ok(state: ProducerState, slots: nat, view: PushView)
    requires
        state.wf(slots),
    ensures
        state.force_push(slots, view).state.wf(slots),
        all_writes_ok(state.force_push(slots, view).ops, slots),
{
    let step = state.force_push(slots, view);
    let p = state.published();
    let t = view.tail & INDEX_MASK;
    lemma_flag_bits(view.tail);
    if state.next() < slots && state.head != INVALID_INDEX {
        assert forall|i: int| 0 <= i < slots implies #[trigger] p.chain[i] == INVALID_INDEX
            || p.chain[i] < slots by {
            assert(state.chain[i] == INVALID_INDEX || state.chain[i] < slots);
        }
        if t < slots {
            lemma_slot_is_cell_ok(p.chain[t as int], slots);
            let after = p.chain[t as int];
            if after < slots {
                lemma_slot_is_cell_ok(p.chain[after as int], slots);
            }
        }
    }
    lemma_slot_is_cell_ok(state.current, slots);
    assert forall|i: int| 0 <= i < slots implies #[trigger] step.state.chain[i] == INVALID_INDEX
        || step.state.chain[i] < slots by {
        assert(state.chain[i] == INVALID_INDEX || state.chain[i] < slots);
        if state.next() < slots && state.head != INVALID_INDEX {
            assert(p.chain[i] == INVALID_INDEX || p.chain[i] < slots);
        }
    }
}

/// A try-push of a valid producer leaves it valid and writes only valid
/// cell values.
pub proof fn lemma_try_push_writes_ok(state: ProducerState, slots: nat, tail: u32)
    requires
        state.wf(slots),
    ensures
        state.try_push(slots, tail).state.wf(slots),
        all_writes_ok(state.try_push(slots, tail).ops, slots),
{
    let step = state.try_push(slots, tail);
    lemma_slot_is_cell_ok(state.current, slots);
    assert forall|i: int| 0 <= i < slots implies #[trigger] step.state.chain[i] == INVALID_INDEX
        || step.state.chain[i] < slots by {
        assert(state.chain[i] == INVALID_INDEX || state.chain[i] < slots);
    }
}

/// Writing a message to the slot of a valid producer touches no index
/// cell and no slot that is not there.
pub proof fn lemma_write_writes_ok(state: ProducerState, slots: nat, message: Seq<u32>)
    requires
        state.wf(slots),
    ensures
        all_writes_ok(message_stores(state.current, message, message.len() as int), slots),
{
}

/// A pop of a valid consumer leaves it valid and writes only valid cell
/// values.
pub proof fn lemma_pop_writes_ok(state: ConsumerState, slots: nat, view: PopView)
    requires
        state.wf(slots),
    ensures
        state.pop(slots, view).state.wf(slots),
        all_writes_ok(state.pop(slots, view).ops, slots),
{
    lemma_flag_bits(view.tail);
    lemma_flag_bits(view.again);
    if view.next < slots {
        lemma_slot_is_cell_ok(view.next, slots);
    }
}

/// A flush of a valid consumer leaves it valid and writes only valid cell
/// values.
pub proof fn lemma_flush_writes_ok(
    state: ConsumerState,
    slots: nat,
    views: Seq<FlushView>,
    again: u32,
)
    requires
        state.wf(slots),
    ensures
        state.flush(slots, views, again).state.wf(slots),
        all_writes_ok(state.flush(slots, views, again).ops, slots),
    decreases views.len(),
{
    lemma_flag_bits(again);
    if views.len() > 0 {
        let view = views[0];
        lemma_flag_bits(view.tail);
        if view.head < slots {
            lemma_slot_is_cell_ok(view.head, slots);
        }
        let ops = ConsumerState::flush_attempt_ops(slots, view);
        assert(all_writes_ok(ops, slots));
        if ConsumerState::flush_attempt(slots, view).is_none() {
            lemma_flush_writes_ok(state, slots, views.drop_first(), again);
            let rest = state.flush(slots, views.drop_first(), again).ops;
            assert forall|k: int| 0 <= k < (ops + rest).len() implies writes_ok(
                #[trigger] (ops + rest)[k],
                slots,
            ) by {
                if k < ops.len() {
                    assert((ops + rest)[k] == ops[k]);
                } else {
                    assert((ops + rest)[k] == rest[k - ops.len()]);
                }
            }
        }
    }
}

/// Every write to `tail` in the list carries the consumed flag, and no
/// other cell is written.
pub open spec fn consumer_writes(ops: Seq<CellOp>) -> bool {
    forall|k: int|
        0 <= k < ops.len() ==> match #[trigger] ops[k] {
            CellOp::TailExchange { expected, new, done } => new & CONSUMED_FLAG != 0,
            CellOp::TailFetchOr { bits, seen } => bits == CONSUMED_FLAG,
            CellOp::TailStore { value } => false,
            CellOp::HeadStore { value } => false,
            CellOp::ChainStore { slot, value } => false,
            CellOp::SlotStore { slot, word, value } => false,
            _ => true,
        }
}

/// A pop writes nothing but `tail`, and `tail` only with the consumed flag.
pub proof fn lemma_pop_keeps_flag(state: ConsumerState, slots: nat, view: PopView)
    ensures
        consumer_writes(state.pop(slots, view).ops),
{
    lemma_flag_bits(view.next);
}

/// A flush writes nothing but `tail`, and `tail` only with the consumed
/// flag.
pub proof fn lemma_flush_keeps_flag(
    state: ConsumerState,
    slots: nat,
    views: Seq<FlushView>,
    again: u32,
)
    ensures
        consumer_writes(state.flush(slots, views, again).ops),
    decreases views.len(),
{
    if views.len() > 0 {
        let view = views[0];
        lemma_flag_bits(view.head);
        let ops = ConsumerState::flush_attempt_ops(slots, view);
        assert(consumer_writes(ops));
        if ConsumerState::flush_attempt(slots, view).is_none() {
            lemma_flush_keeps_flag(state, slots, views.drop_first(), again);
            let rest = state.flush(slots, views.drop_first(), again).ops;
            assert forall|k: int| 0 <= k < (ops + rest).len() implies match #[trigger] (ops
                + rest)[k] {
                CellOp::TailExchange { expected, new, done } => new & CONSUMED_FLAG != 0,
                CellOp::TailFetchOr { bits, seen } => bits == CONSUMED_FLAG,
                CellOp::TailStore { value } => false,
                CellOp::HeadStore { value } => false,
                CellOp::ChainStore { slot, value } => false,
                CellOp::SlotStore { slot, word, value } => false,
                _ => true,
            } by {
                if k < ops.len() {
                    assert((ops + rest)[k] == ops[k]);
                } else {
                    assert((ops + rest)[k] == rest[k - ops.len()]);
                }
            }
        }
    }
}

/// The value that this end wrote to `tail` last: `before`, unless an
/// operation of the list wrote it.
pub open spec fn tail_written(before: Option<u32>, ops: Seq<CellOp>) -> Option<u32>
    decreases ops.len(),
{
    if ops.len() == 0 {
        before
    } else {
        match ops.last() {
            CellOp::TailStore { value } => Some(value),
            CellOp::TailExchange { expected, new, done } => if done {
                Some(new)
            } else {
                tail_written(before, ops.drop_last())
            },
            CellOp::TailFetchOr { bits, seen } => Some(seen | bits),
            _ => tail_written(before, ops.drop_last()),
        }
    }
}

/// What holds of a value found in `tail` when the other end writes it only
/// with the consumed flag: without the flag, it is what this end wrote
/// last.
pub open spec fn own_or_flagged(tail: u32, written: Option<u32>) -> bool {
    tail & CONSUMED_FLAG == 0 ==> written == Some(tail)
}

/// While a slot is taken from the consumer, the producer has left `tail`
/// at the slot behind the one it writes.
pub open spec fn tail_parked(state: ProducerState, written: Option<u32>) -> bool {
    state.overrun != INVALID_INDEX ==> written == Some(state.next())
}

proof fn lemma_tail_written_push(before: Option<u32>, ops: Seq<CellOp>, op: CellOp)
    ensures
        tail_written(before, ops.push(op)) == (match op {
            CellOp::TailStore { value } => Some(value),
            CellOp::TailExchange { expected, new, done } => if done {
                Some(new)
            } else {
                tail_written(before, ops)
            },
            CellOp::TailFetchOr { bits, seen } => Some(seen | bits),
            _ => tail_written(before, ops),
        }),
{
    assert(ops.push(op).drop_last() =~= ops);
}

/// Where the consumer writes `tail` only with the consumed flag, a
/// force-push on a ring finds `tail` as expected, and leaves a ring with
/// `tail` parked again.
pub proof fn lemma_force_push_keeps_discipline(
    state: ProducerState,
    slots: nat,
    view: PushView,
    written: Option<u32>,
)
    requires
        is_ring(state, slots),
        tail_parked(state, written),
        own_or_flagged(view.tail, written),
    ensures
        tail_expected(state, slots, view.tail),
        state.force_push(slots, view).result != ProduceForceResult::QueueError ==> {
            &&& is_ring(state.force_push(slots, view).state, slots)
            &&& tail_parked(
                state.force_push(slots, view).state,
                tail_written(written, state.force_push(slots, view).ops),
            )
        },
{
    let step = state.force_push(slots, view);
    let order = choose|order: Seq<int>| ring_order(state, slots, order);
    lemma_flag_bits(view.tail);
    lemma_flag_bits(state.next());
    lemma_force_push_keeps_ring(state, slots, view);
    let p = state.published();
    let t = view.tail & INDEX_MASK;
    let ops = state.publish_ops().push(CellOp::TailLoad { seen: view.tail });
    let moving = CellOp::TailExchange {
        expected: view.tail,
        new: p.chain[t as int],
        done: view.moved,
    };
    if step.result != ProduceForceResult::QueueError && step.state.overrun != INVALID_INDEX {
        if state.overrun != INVALID_INDEX {
            lemma_tail_written_push(written, ops, moving);
        } else {
            let tried = if view.tail & CONSUMED_FLAG != 0 {
                ops
            } else {
                ops.push(moving)
            };
            let after = p.chain[t as int];
            let jump = CellOp::TailExchange {
                expected: view.tail | CONSUMED_FLAG,
                new: p.chain[after as int],
                done: view.jumped,
            };
            lemma_tail_written_push(written, tried, jump);
        }
    }
}

/// A try-push on a ring leaves a ring with `tail` parked as before.
pub proof fn lemma_try_push_keeps_discipline(
    state: ProducerState,
    slots: nat,
    tail: u32,
    written: Option<u32>,
)
    requires
        is_ring(state, slots),
        tail_parked(state, written),
    ensures
        is_ring(state.try_push(slots, tail).state, slots),
        state.try_push(slots, tail).state.overrun != INVALID_INDEX ==> tail_written(
            written,
            state.try_push(slots, tail).ops,
        ) == written,
        tail_parked(
            state.try_push(slots, tail).state,
            tail_written(written, state.try_push(slots, tail).ops),
        ),
{
    lemma_try_push_keeps_ring(state, slots, tail);
    let step = state.try_push(slots, tail);
    if step.state.overrun != INVALID_INDEX {
        let load = CellOp::TailLoad { seen: tail };
        assert(state.head != INVALID_INDEX) by {
            let order = choose|order: Seq<int>| ring_order(state, slots, order);
        }
        if state.next() < slots {
            assert(step.ops =~= Seq::<CellOp>::empty().push(load));
            lemma_tail_written_push(written, Seq::<CellOp>::empty(), load);
        }
    }
}

/// One of the two ends of a queue.
pub ghost enum End {
    Producer,
    Consumer,
}

/// An operation on the shared cells and the end that made it.
pub ghost struct Event {
    pub by: End,
    pub op: CellOp,
}

/// The operation saw in `tail` what `tail` held.
pub open spec fn tail_shows(tail: u32, op: CellOp) -> bool {
    match op {
        CellOp::TailLoad { seen } => seen == tail,
        CellOp::TailFetchOr { bits, seen } => seen == tail,
        CellOp::TailExchange { expected, new, done } => done == (tail == expected),
        _ => true,
    }
}

/// What `tail` holds after the operation.
pub open spec fn tail_after(tail: u32, op: CellOp) -> u32 {
    match op {
        CellOp::TailStore { value } => value,
        CellOp::TailFetchOr { bits, seen } => tail | bits,
        CellOp::TailExchange { expected, new, done } => if done {
            new
        } else {
            tail
        },
        _ => tail,
    }
}

/// What `tail` holds after the events of a history in which every
/// operation saw what the one before it left; `None` for any other history.
pub open spec fn tail_at_end(tail: u32, history: Seq<Event>) -> Option<u32>
    decreases history.len(),
{
    if history.len() == 0 {
        Some(tail)
    } else {
        match tail_at_end(tail, history.drop_last()) {
            Some(before) => if tail_shows(before, history.last().op) {
                Some(tail_after(before, history.last().op))
            } else {
                None
            },
            None => None,
        }
    }
}

/// The value that the producer wrote to `tail` last in a history.
pub open spec fn produced(before: Option<u32>, history: Seq<Event>) -> Option<u32>
    decreases history.len(),
{
    if history.len() == 0 {
        before
    } else {
        let earlier = produced(before, history.drop_last());
        match history.last().by {
            End::Producer => tail_written(earlier, seq![history.last().op]),
            End::Consumer => earlier,
        }
    }
}

/// Every operation of the consumer in the history writes `tail` with the
/// consumed flag, or nothing.
pub open spec fn consumer_keeps_flag(history: Seq<Event>) -> bool {
    forall|k: int|
        0 <= k < history.len() && (#[trigger] history[k]).by == End::Consumer
            ==> consumer_writes(seq![history[k].op])
}

/// In every schedule, as long as the consumer writes `tail` only with the
/// consumed flag, a `tail` without the flag holds what the producer wrote
/// last.
///
/// The events of both ends may alternate in any way; what is asked of the
/// history is that each operation saw what the one before it left.
pub proof fn lemma_tail_own_or_flagged(tail: u32, written: Option<u32>, history: Seq<Event>)
    requires
        own_or_flagged(tail, written),
        consumer_keeps_flag(history),
        tail_at_end(tail, history).is_some(),
    ensures
        own_or_flagged(tail_at_end(tail, history).unwrap(), produced(written, history)),
    decreases history.len(),
{
    if history.len() > 0 {
        let earlier = history.drop_last();
        let last = history.last();
        assert forall|k: int| 0 <= k < earlier.len() && (#[trigger] earlier[k]).by
            == End::Consumer implies consumer_writes(seq![earlier[k].op]) by {
            assert(earlier[k] == history[k]);
        }
        lemma_tail_own_or_flagged(tail, written, earlier);
        let before = tail_at_end(tail, earlier).unwrap();
        let one = seq![last.op];
        assert(one[0] == last.op);
        assert(one.drop_last() =~= Seq::<CellOp>::empty());
        lemma_flag_bits(before);
        match last.by {
            End::Producer => {
                let made = produced(written, earlier);
                assert(tail_written(made, one.drop_last()) == made);
            },
            End::Consumer => {
                assert(history[history.len() - 1] == last);
                assert(consumer_writes(one));
                match last.op {
                    CellOp::TailExchange { expected, new, done } => {
                        lemma_flag_bits(new);
                    },
                    _ => {},
                }
            },
        }
    }
}

} // verus!
