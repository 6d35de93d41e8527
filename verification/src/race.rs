//! A flush among pushes that overlap it.
//!
//! The guarantees of a queue hold for pushes and pops in any schedule, and
//! for a flush that no push overlaps. This module shows, on a queue of
//! three slots, a schedule in which a flush overlaps two pushes and ends
//! with the slot that the producer writes next in the consumer's hand.
use vstd::prelude::*;
use crate::cells::CellOp;
use crate::consumer::ConsumeStep;
use crate::consumer::ConsumerState;
use crate::consumer::FlushView;
use crate::consumer::PopView;
use crate::model::lemma_run_concat;
use crate::model::lemma_run_one;
use crate::model::lemma_run_two;
use crate::model::Cells;
use crate::model::System;
use crate::producer::ForceStep;
use crate::producer::ProducerState;
use crate::producer::PushView;
use crate::queue::ConsumeResult;
use crate::queue::ProduceForceResult;

verus! {

/// The first push of the schedule, on a new queue.
pub open spec fn first_push() -> ForceStep {
    ProducerState::initial(3).force_push(3, PushView { tail: 0, moved: false, jumped: false })
}

/// The second push, which finds `tail` at slot 1 with the consumed flag.
pub open spec fn second_push() -> ForceStep {
    first_push().state.force_push(
        3,
        PushView { tail: 0x8000_0001, moved: false, jumped: false },
    )
}

/// The third push, which finds `tail` as the second did.
pub open spec fn third_push() -> ForceStep {
    second_push().state.force_push(
        3,
        PushView { tail: 0x8000_0001, moved: false, jumped: false },
    )
}

/// The first pop, which takes slot 0.
pub open spec fn first_pop() -> ConsumeStep {
    ConsumerState::initial().pop(3, PopView { tail: 0, next: 0, swapped: false, again: 0 })
}

/// The second pop, which moves on to slot 1.
pub open spec fn second_pop() -> ConsumeStep {
    first_pop().state.pop(
        3,
        PopView { tail: 0x8000_0000, next: 1, swapped: true, again: 0 },
    )
}

/// The flush, which reads slot 0 from `head` and wins its first attempt.
pub open spec fn the_flush() -> ConsumeStep {
    second_pop().state.flush(
        3,
        seq![FlushView { tail: 0x8000_0001, head: 0, swapped: true }],
        0,
    )
}

/// The operations of the three pushes, the two pops and the flush in the
/// order of the schedule: the second pop runs behind the two first stores
/// of the second push, and the flush sets the consumed flag and reads
/// `head` before the second push stores to `head`, and makes its exchange
/// behind the third push.
pub open spec fn schedule() -> Seq<CellOp> {
    first_push().ops + first_pop().ops + second_push().ops.take(2) + second_pop().ops
        + the_flush().ops.take(2) + second_push().ops.skip(2) + third_push().ops
        + the_flush().ops.skip(2)
}

proof fn lemma_words()
    by (bit_vector)
    ensures
        0u32 & 0x7FFF_FFFFu32 == 0u32,
        0u32 & 0x8000_0000u32 == 0u32,
        0u32 | 0x8000_0000u32 == 0x8000_0000u32,
        1u32 | 0x8000_0000u32 == 0x8000_0001u32,
        0x8000_0000u32 & 0x7FFF_FFFFu32 == 0u32,
        0x8000_0000u32 & 0x8000_0000u32 != 0u32,
        0x8000_0000u32 | 0x8000_0000u32 == 0x8000_0000u32,
        0x8000_0001u32 & 0x7FFF_FFFFu32 == 1u32,
        0x8000_0001u32 & 0x8000_0000u32 != 0u32,
        0x8000_0001u32 | 0x8000_0000u32 == 0x8000_0001u32,
{
}

proof fn lemma_pushes()
    ensures
        first_push().ops == seq![
            CellOp::ChainStore { slot: 0, value: 0xFFFF_FFFF },
            CellOp::TailStore { value: 0 },
            CellOp::HeadStore { value: 0 },
        ],
        first_push().result == ProduceForceResult::Success,
        first_push().state == (ProducerState {
            chain: seq![0xFFFF_FFFFu32, 2u32, 0u32],
            head: 0,
            current: 1,
            overrun: 0xFFFF_FFFF,
        }),
        second_push().ops == seq![
            CellOp::ChainStore { slot: 1, value: 0xFFFF_FFFF },
            CellOp::ChainStore { slot: 0, value: 1 },
            CellOp::HeadStore { value: 1 },
            CellOp::TailLoad { seen: 0x8000_0001 },
        ],
        second_push().result == ProduceForceResult::Success,
        second_push().state == (ProducerState {
            chain: seq![1u32, 0xFFFF_FFFFu32, 0u32],
            head: 1,
            current: 2,
            overrun: 0xFFFF_FFFF,
        }),
        third_push().ops == seq![
            CellOp::ChainStore { slot: 2, value: 0xFFFF_FFFF },
            CellOp::ChainStore { slot: 1, value: 2 },
            CellOp::HeadStore { value: 2 },
            CellOp::TailLoad { seen: 0x8000_0001 },
        ],
        third_push().result == ProduceForceResult::Success,
        third_push().state == (ProducerState {
            chain: seq![1u32, 2u32, 0xFFFF_FFFFu32],
            head: 2,
            current: 0,
            overrun: 0xFFFF_FFFF,
        }),
{
    lemma_words();
    let start = ProducerState::initial(3);
    assert(start.chain =~= seq![1u32, 2u32, 0u32]);
    let a = first_push();
    assert(start.next() == 1);
    assert(a.state.chain =~= seq![0xFFFF_FFFFu32, 2u32, 0u32]);
    assert(a.state.next() == 2);
    let b = second_push();
    assert(a.state.published().chain =~= seq![1u32, 0xFFFF_FFFFu32, 0u32]);
    assert(b.ops =~= seq![
        CellOp::ChainStore { slot: 1, value: 0xFFFF_FFFF },
        CellOp::ChainStore { slot: 0, value: 1 },
        CellOp::HeadStore { value: 1 },
        CellOp::TailLoad { seen: 0x8000_0001 },
    ]);
    assert(b.state.chain =~= seq![1u32, 0xFFFF_FFFFu32, 0u32]);
    assert(b.state.next() == 0);
    let c = third_push();
    assert(b.state.published().chain =~= seq![1u32, 2u32, 0xFFFF_FFFFu32]);
    assert(c.ops =~= seq![
        CellOp::ChainStore { slot: 2, value: 0xFFFF_FFFF },
        CellOp::ChainStore { slot: 1, value: 2 },
        CellOp::HeadStore { value: 2 },
        CellOp::TailLoad { seen: 0x8000_0001 },
    ]);
    assert(c.state.chain =~= seq![1u32, 2u32, 0xFFFF_FFFFu32]);
}

proof fn lemma_pops()
    ensures
        first_pop().ops == seq![CellOp::TailFetchOr { bits: 0x8000_0000, seen: 0 }],
        first_pop().result == ConsumeResult::SuccessMessagesDiscarded,
        first_pop().state == (ConsumerState { current: 0, holding: true }),
        second_pop().ops == seq![
            CellOp::TailFetchOr { bits: 0x8000_0000, seen: 0x8000_0000 },
            CellOp::ChainLoad { slot: 0, seen: 1 },
            CellOp::TailExchange { expected: 0x8000_0000, new: 0x8000_0001, done: true },
        ],
        second_pop().result == ConsumeResult::Success,
        second_pop().state == (ConsumerState { current: 1, holding: true }),
        the_flush().ops == seq![
            CellOp::TailFetchOr { bits: 0x8000_0000, seen: 0x8000_0001 },
            CellOp::HeadLoad { seen: 0 },
            CellOp::TailExchange { expected: 0x8000_0001, new: 0x8000_0000, done: true },
        ],
        the_flush().result == ConsumeResult::Success,
        the_flush().state == (ConsumerState { current: 0, holding: true }),
{
    lemma_words();
    let view = FlushView { tail: 0x8000_0001, head: 0, swapped: true };
    let views = seq![view];
    assert(views.len() == 1 && views[0] == view);
    assert(ConsumerState::flush_attempt(3, view) == Some(ConsumeResult::Success));
}

/// A flush that overlaps two pushes can end with the consumer holding the
/// slot that the producer writes next.
///
/// On a new queue of three slots, the operations of `schedule` are those
/// of three force-pushes, two pops and one flush, each end's in its own
/// order. Every operation sees what the cells hold, no operation meets a
/// value that names no slot, and the flush reports success. At the end the
/// slot that the consumer holds is the slot that the producer writes.
pub proof fn lemma_flush_among_pushes()
    ensures
        System::initial(3, Seq::empty()).cells.run(schedule()).is_some(),
        first_push().result == ProduceForceResult::Success,
        second_push().result == ProduceForceResult::Success,
        third_push().result == ProduceForceResult::Success,
        first_pop().result == ConsumeResult::SuccessMessagesDiscarded,
        second_pop().result == ConsumeResult::Success,
        the_flush().result == ConsumeResult::Success,
        the_flush().state.holding,
        the_flush().state.current == third_push().state.current,
{
    lemma_words();
    lemma_pushes();
    lemma_pops();
    let inv = 0xFFFF_FFFFu32;
    let words = Seq::<Seq<u32>>::empty();
    let c0 = System::initial(3, words).cells;
    assert(c0.chain =~= seq![1u32, 2u32, 0u32]);
    // The first push.
    let a = first_push().ops;
    c0.lemma_three(a[0], a[1], a[2]);
    assert(a =~= seq![a[0], a[1], a[2]]);
    let c1 = Cells { tail: 0, head: 0, chain: seq![inv, 2u32, 0u32], words };
    assert(c0.after(a[0]).after(a[1]).after(a[2]).chain =~= c1.chain);
    assert(c0.run(a) == Some(c1));
    // The first pop.
    let x = first_pop().ops;
    lemma_run_one(c1, x[0]);
    assert(x =~= seq![x[0]]);
    let c2 = Cells { tail: 0x8000_0000, ..c1 };
    assert(c1.run(x) == Some(c2));
    // The second push unlinks its slot and links it behind the head.
    let b = second_push().ops;
    let b1 = b.take(2);
    lemma_run_two(c2, b[0], b[1]);
    assert(b1 =~= seq![b[0], b[1]]);
    let c3 = Cells { chain: seq![1u32, inv, 0u32], ..c2 };
    assert(c2.after(b[0]).after(b[1]).chain =~= c3.chain);
    assert(c2.run(b1) == Some(c3));
    // The second pop finds the slot and takes it.
    let y = second_pop().ops;
    c3.lemma_three(y[0], y[1], y[2]);
    assert(y =~= seq![y[0], y[1], y[2]]);
    let c4 = Cells { tail: 0x8000_0001, ..c3 };
    assert(c3.run(y) == Some(c4));
    // The flush sets the flag and reads `head`, which is one slot behind.
    let z = the_flush().ops;
    let z1 = z.take(2);
    lemma_run_two(c4, z[0], z[1]);
    assert(z1 =~= seq![z[0], z[1]]);
    assert(c4.run(z1) == Some(c4));
    // The second push ends.
    let b2 = b.skip(2);
    lemma_run_two(c4, b[2], b[3]);
    assert(b2 =~= seq![b[2], b[3]]);
    let c5 = Cells { head: 1, ..c4 };
    assert(c4.run(b2) == Some(c5));
    // The third push.
    let c = third_push().ops;
    lemma_run_two(c5, c[0], c[1]);
    let c6 = Cells { chain: seq![1u32, 2u32, inv], ..c5 };
    assert(c5.after(c[0]).after(c[1]).chain =~= c6.chain);
    assert(c5.run(seq![c[0], c[1]]) == Some(c6));
    lemma_run_two(c6, c[2], c[3]);
    let c7 = Cells { head: 2, ..c6 };
    assert(c6.run(seq![c[2], c[3]]) == Some(c7));
    lemma_run_concat(c5, seq![c[0], c[1]], seq![c[2], c[3]]);
    assert(c =~= seq![c[0], c[1]] + seq![c[2], c[3]]);
    assert(c5.run(c) == Some(c7));
    // The flush moves `tail` to the slot that it read from `head`.
    let z2 = z.skip(2);
    lemma_run_one(c7, z[2]);
    assert(z2 =~= seq![z[2]]);
    let c8 = Cells { tail: 0x8000_0000, ..c7 };
    assert(c7.run(z2) == Some(c8));
    // All of it in order.
    lemma_run_concat(c0, a, x);
    lemma_run_concat(c0, a + x, b1);
    lemma_run_concat(c0, a + x + b1, y);
    lemma_run_concat(c0, a + x + b1 + y, z1);
    lemma_run_concat(c0, a + x + b1 + y + z1, b2);
    lemma_run_concat(c0, a + x + b1 + y + z1 + b2, c);
    lemma_run_concat(c0, a + x + b1 + y + z1 + b2 + c, z2);
}

} // verus!
