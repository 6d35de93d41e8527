//! The shape of the producer's chain, and that every push keeps it.
//!
//! The chain threads the slots into one path. It starts at the slot that
//! the producer writes next, runs through the free slots and then through
//! the published ones, oldest first, and ends at the head, whose cell holds
//! the sentinel. Before the first push the last slot leads back to the
//! first instead. While a slot is taken from under a reading consumer, that
//! slot alone stands outside the path; its cell still names the slot that
//! stood behind it when it was taken.
use vstd::prelude::*;
use crate::cells::lemma_flag_bits;
use crate::cells::CONSUMED_FLAG;
use crate::cells::INDEX_MASK;
use crate::cells::INVALID_INDEX;
use crate::producer::ProducerState;
use crate::producer::PushView;
use crate::queue::ProduceForceResult;
use crate::queue::ProduceTryResult;
use vstd::arithmetic::div_mod::lemma_fundamental_div_mod;
use vstd::arithmetic::div_mod::lemma_fundamental_div_mod_converse;
use vstd::arithmetic::div_mod::lemma_mod_bound;
use vstd::set_lib::lemma_int_range;
use vstd::set_lib::lemma_subset_equality;
use vstd::set_lib::set_int_range;

verus! {

/// `order` lists the slots of the path of `state`, from the slot written
/// next to the head.
pub open spec fn ring_order(state: ProducerState, slots: nat, order: Seq<int>) -> bool {
    &&& state.wf(slots)
    &&& order.len() == (if state.overrun == INVALID_INDEX {
        slots as int
    } else {
        slots - 1
    })
    &&& order.no_duplicates()
    &&& forall|k: int| 0 <= k < order.len() ==> 0 <= #[trigger] order[k] < slots
    &&& state.overrun != INVALID_INDEX ==> !order.contains(state.overrun as int)
        && state.chain[state.overrun as int] < slots
    &&& order[0] == state.current
    &&& forall|k: int|
        0 <= k < order.len() - 1 ==> state.chain[#[trigger] order[k]] == order[k + 1]
    &&& if state.head == INVALID_INDEX {
        state.overrun == INVALID_INDEX && state.chain[order.last()] == order[0]
    } else {
        order.last() == state.head && state.chain[state.head as int] == INVALID_INDEX
    }
}

/// The chain of `state` is one path through every slot but one taken from
/// the consumer.
pub open spec fn is_ring(state: ProducerState, slots: nat) -> bool {
    exists|order: Seq<int>| ring_order(state, slots, order)
}

/// The path with its first slot moved to the end.
pub open spec fn rotated(order: Seq<int>) -> Seq<int> {
    order.subrange(1, order.len() as int).push(order[0])
}

/// What the producer may find in `tail` when the consumer keeps to its
/// part: a value without the consumed flag is one that the producer wrote
/// itself, and while a slot is taken from the consumer the producer left
/// `tail` at the slot behind the one it writes.
pub open spec fn tail_expected(state: ProducerState, slots: nat, tail: u32) -> bool {
    state.overrun != INVALID_INDEX && tail & CONSUMED_FLAG == 0 && (tail & INDEX_MASK) < slots
        ==> tail & INDEX_MASK == state.next()
}

/// What rotating a path keeps and what it moves.
pub proof fn lemma_rotated(order: Seq<int>)
    requires
        order.len() >= 1,
        order.no_duplicates(),
    ensures
        rotated(order).len() == order.len(),
        rotated(order).no_duplicates(),
        rotated(order).last() == order[0],
        forall|k: int| 0 <= k < order.len() - 1 ==> #[trigger] rotated(order)[k] == order[k + 1],
        forall|x: int| rotated(order).contains(x) <==> order.contains(x),
{
    let r = rotated(order);
    assert forall|i: int, j: int| 0 <= i < r.len() && 0 <= j < r.len() && i != j implies r[i]
        != r[j] by {
        let a = if i < r.len() - 1 {
            i + 1
        } else {
            0
        };
        let b = if j < r.len() - 1 {
            j + 1
        } else {
            0
        };
        assert(r[i] == order[a] && r[j] == order[b]);
    }
    assert forall|x: int| r.contains(x) <==> order.contains(x) by {
        if r.contains(x) {
            let i = choose|i: int| 0 <= i < r.len() && r[i] == x;
            let a = if i < r.len() - 1 {
                i + 1
            } else {
                0
            };
            assert(order[a] == x);
        }
        if order.contains(x) {
            let a = choose|a: int| 0 <= a < order.len() && order[a] == x;
            let i = if a == 0 {
                r.len() - 1
            } else {
                a - 1
            };
            assert(r[i] == x);
        }
    }
}

/// The chain of a new producer is a ring.
pub proof fn lemma_initial_is_ring(slots: nat)
    requires
        3 <= slots <= 0x7FFF_FFFF,
    ensures
        is_ring(ProducerState::initial(slots), slots),
{
    let order = Seq::new(slots, |i: int| i);
    assert(ring_order(ProducerState::initial(slots), slots, order));
}

/// The first publication moves the slot that was written to the end of the
/// path, where it is the head.
pub proof fn lemma_first_publish(state: ProducerState, slots: nat, order: Seq<int>)
    requires
        ring_order(state, slots, order),
        state.head == INVALID_INDEX,
    ensures
        state.next() < slots,
        ring_order(state.first_published(), slots, rotated(order)),
{
    lemma_rotated(order);
    let after = state.first_published();
    let r = rotated(order);
    let len = order.len() as int;
    assert(state.chain[order[0]] == order[1]);
    assert forall|k: int| 0 <= k < len - 1 implies after.chain[#[trigger] r[k]] == r[k + 1] by {
        assert(r[k] == order[k + 1]);
        if k < len - 2 {
            assert(state.chain[order[k + 1]] == order[k + 2]);
            assert(r[k + 1] == order[k + 2]);
        }
    }
    assert forall|i: int| 0 <= i < slots implies #[trigger] after.chain[i] == INVALID_INDEX
        || after.chain[i] < slots by {
        assert(state.chain[i] == INVALID_INDEX || state.chain[i] < slots);
    }
}

/// A publication behind an old head moves the slot that was written to the
/// end of the path; with the next slot to write, the chain is a ring again.
pub proof fn lemma_publish(state: ProducerState, slots: nat, order: Seq<int>)
    requires
        ring_order(state, slots, order),
        state.head != INVALID_INDEX,
    ensures
        state.next() < slots,
        state.next() == rotated(order)[0],
        state.published().chain.len() == slots,
        forall|i: int|
            0 <= i < slots ==> #[trigger] state.published().chain[i] == INVALID_INDEX
                || state.published().chain[i] < slots,
        forall|k: int|
            0 <= k < order.len() - 1 ==> state.published().chain[#[trigger] rotated(order)[k]]
                == rotated(order)[k + 1],
        state.published().chain[state.current as int] == INVALID_INDEX,
        ring_order(state.published().writing(state.next()), slots, rotated(order)),
{
    lemma_rotated(order);
    let after = state.published();
    let r = rotated(order);
    let len = order.len() as int;
    assert(state.chain[order[0]] == order[1]);
    assert(order[len - 1] == state.head);
    assert(order[0] != order[len - 1]);
    assert forall|k: int| 0 <= k < len - 1 implies after.chain[#[trigger] r[k]] == r[k + 1] by {
        assert(r[k] == order[k + 1]);
        if k < len - 2 {
            assert(state.chain[order[k + 1]] == order[k + 2]);
            assert(r[k + 1] == order[k + 2]);
            assert(order[k + 1] != order[0]);
            assert(order[k + 1] != order[len - 1]);
        }
    }
    assert forall|i: int| 0 <= i < slots implies #[trigger] after.chain[i] == INVALID_INDEX
        || after.chain[i] < slots by {
        assert(state.chain[i] == INVALID_INDEX || state.chain[i] < slots);
    }
}

/// Putting the slot taken from the consumer back makes it the first slot of
/// the path.
pub proof fn lemma_restitch(state: ProducerState, slots: nat, order: Seq<int>)
    requires
        ring_order(state, slots, order),
        state.head != INVALID_INDEX,
        state.overrun != INVALID_INDEX,
    ensures
        ring_order(
            state.published().restitched(state.next()),
            slots,
            seq![state.overrun as int] + rotated(order),
        ),
{
    lemma_rotated(order);
    lemma_publish(state, slots, order);
    let p = state.published();
    let after = p.restitched(state.next());
    let r = rotated(order);
    let full = seq![state.overrun as int] + r;
    let stolen = state.overrun as int;
    assert(!r.contains(stolen));
    assert forall|i: int, j: int| 0 <= i < full.len() && 0 <= j < full.len() && i != j implies full[i]
        != full[j] by {
        if i == 0 {
            assert(r[j - 1] == full[j]);
        } else if j == 0 {
            assert(r[i - 1] == full[i]);
        } else {
            assert(r[i - 1] == full[i] && r[j - 1] == full[j]);
        }
    }
    assert forall|k: int| 0 <= k < full.len() implies 0 <= #[trigger] full[k] < slots by {
        if k > 0 {
            assert(full[k] == r[k - 1]);
            assert(order.contains(r[k - 1]));
        }
    }
    assert forall|k: int| 0 <= k < full.len() - 1 implies after.chain[#[trigger] full[k]]
        == full[k + 1] by {
        if k > 0 {
            assert(full[k] == r[k - 1]);
            assert(full[k + 1] == r[k]);
            assert(r.contains(r[k - 1]));
            assert(p.chain[r[k - 1]] == r[k]);
        } else {
            assert(full[1] == r[0]);
        }
    }
    assert(full.last() == r.last());
    assert(r.contains(r.last()));
    assert forall|i: int| 0 <= i < slots implies #[trigger] after.chain[i] == INVALID_INDEX
        || after.chain[i] < slots by {
        assert(p.chain[i] == INVALID_INDEX || p.chain[i] < slots);
    }
}

/// Jumping over the consumer's slot takes that slot off the path, which
/// then starts at the slot behind it.
pub proof fn lemma_jump(state: ProducerState, slots: nat, order: Seq<int>)
    requires
        ring_order(state, slots, order),
        state.head != INVALID_INDEX,
        state.overrun == INVALID_INDEX,
    ensures
        state.published().chain[state.next() as int] < slots,
        ring_order(
            ProducerState {
                current: state.published().chain[state.next() as int],
                overrun: state.next(),
                ..state.published()
            },
            slots,
            rotated(order).subrange(1, order.len() as int),
        ),
{
    lemma_rotated(order);
    lemma_publish(state, slots, order);
    let p = state.published();
    let r = rotated(order);
    let rest = r.subrange(1, order.len() as int);
    let after = ProducerState { current: p.chain[state.next() as int], overrun: state.next(), ..p };
    assert(p.chain[r[0]] == r[1]);
    assert(order.contains(r[1]));
    assert forall|i: int, j: int| 0 <= i < rest.len() && 0 <= j < rest.len() && i != j implies rest[i]
        != rest[j] by {
        assert(rest[i] == r[i + 1] && rest[j] == r[j + 1]);
    }
    assert forall|k: int| 0 <= k < rest.len() implies 0 <= #[trigger] rest[k] < slots by {
        assert(rest[k] == r[k + 1]);
        assert(order.contains(r[k + 1]));
    }
    assert forall|k: int| 0 <= k < rest.len() - 1 implies after.chain[#[trigger] rest[k]]
        == rest[k + 1] by {
        assert(rest[k] == r[k + 1]);
        assert(rest[k + 1] == r[k + 2]);
        assert(p.chain[r[k + 1]] == r[k + 2]);
    }
    if rest.contains(r[0]) {
        let i = choose|i: int| 0 <= i < rest.len() && rest[i] == r[0];
        assert(rest[i] == r[i + 1]);
    }
    assert(rest.last() == r.last());
}

/// A force-push on a ring fails only on a `tail` that names no slot, and
/// where `tail` is as the producer may expect it, what it leaves is a ring
/// again.
pub proof fn lemma_force_push_keeps_ring(state: ProducerState, slots: nat, view: PushView)
    requires
        is_ring(state, slots),
        tail_expected(state, slots, view.tail),
    ensures
        state.force_push(slots, view).result == ProduceForceResult::QueueError <==> state.head
            != INVALID_INDEX && !((view.tail & INDEX_MASK) < slots),
        state.force_push(slots, view).result != ProduceForceResult::QueueError ==> is_ring(
            state.force_push(slots, view).state,
            slots,
        ),
{
    let order = choose|order: Seq<int>| ring_order(state, slots, order);
    let step = state.force_push(slots, view);
    lemma_flag_bits(view.tail);
    if state.head == INVALID_INDEX {
        lemma_first_publish(state, slots, order);
        assert(ring_order(step.state, slots, rotated(order)));
    } else {
        lemma_publish(state, slots, order);
        let t = view.tail & INDEX_MASK;
        if t < slots {
            if state.overrun != INVALID_INDEX {
                if view.tail & CONSUMED_FLAG != 0 || !view.moved {
                    lemma_restitch(state, slots, order);
                    assert(ring_order(
                        step.state,
                        slots,
                        seq![state.overrun as int] + rotated(order),
                    ));
                } else {
                    assert(ring_order(step.state, slots, rotated(order)));
                }
            } else if state.next() != t || (view.tail & CONSUMED_FLAG == 0 && view.moved) {
                assert(ring_order(step.state, slots, rotated(order)));
            } else {
                lemma_jump(state, slots, order);
                if view.jumped {
                    assert(ring_order(
                        step.state,
                        slots,
                        rotated(order).subrange(1, order.len() as int),
                    ));
                } else {
                    assert(ring_order(step.state, slots, rotated(order)));
                }
            }
        }
    }
}

/// A try-push on a ring fails only on a `tail` that names no slot, and what
/// it leaves is a ring again.
pub proof fn lemma_try_push_keeps_ring(state: ProducerState, slots: nat, tail: u32)
    requires
        is_ring(state, slots),
    ensures
        state.try_push(slots, tail).result == ProduceTryResult::QueueError <==> state.head
            != INVALID_INDEX && !((tail & INDEX_MASK) < slots),
        is_ring(state.try_push(slots, tail).state, slots),
{
    let order = choose|order: Seq<int>| ring_order(state, slots, order);
    let step = state.try_push(slots, tail);
    if state.head == INVALID_INDEX {
        lemma_first_publish(state, slots, order);
        assert(ring_order(step.state, slots, rotated(order)));
    } else {
        lemma_publish(state, slots, order);
        let t = tail & INDEX_MASK;
        if !(t < slots) {
        } else if state.overrun != INVALID_INDEX && tail & CONSUMED_FLAG != 0 {
            lemma_restitch(state, slots, order);
            assert(ring_order(step.state, slots, seq![state.overrun as int] + rotated(order)));
        } else if state.overrun == INVALID_INDEX && state.next() != t {
            assert(ring_order(step.state, slots, rotated(order)));
        }
    }
}

/// The slot that follows `slot` on the ring: the one that its chain cell
/// names or, behind the head, the slot that the producer writes next.
pub open spec fn successor(state: ProducerState, slot: int) -> int {
    if state.chain[slot] == INVALID_INDEX {
        state.current as int
    } else {
        state.chain[slot] as int
    }
}

/// The slot reached from `start` after `steps` steps along the ring.
pub open spec fn walk(state: ProducerState, start: int, steps: nat) -> int
    decreases steps,
{
    if steps == 0 {
        start
    } else {
        successor(state, walk(state, start, (steps - 1) as nat))
    }
}

/// Number of slots on the path: all of them, or all but the one taken from
/// the consumer.
pub open spec fn ring_len(state: ProducerState, slots: nat) -> int {
    if state.overrun == INVALID_INDEX {
        slots as int
    } else {
        slots - 1
    }
}

/// The walk from `start` reaches `slot` in fewer than `within` steps.
pub open spec fn comes_by(state: ProducerState, start: int, within: int, slot: int) -> bool {
    exists|k: int| 0 <= k < within && #[trigger] walk(state, start, k as nat) == slot
}

proof fn lemma_order_covers(state: ProducerState, slots: nat, order: Seq<int>, slot: int)
    requires
        ring_order(state, slots, order),
        0 <= slot < slots,
        slot != state.overrun,
    ensures
        order.contains(slot),
{
    let all = set_int_range(0, slots as int);
    lemma_int_range(0, slots as int);
    order.unique_seq_to_set();
    vstd::seq_lib::seq_to_set_is_finite(order);
    let found = order.to_set();
    if state.overrun == INVALID_INDEX {
        assert(found.subset_of(all)) by {
            assert forall|x: int| found.contains(x) implies all.contains(x) by {
                let i = choose|i: int| 0 <= i < order.len() && order[i] == x;
                assert(0 <= order[i] < slots);
            }
        }
        lemma_subset_equality(found, all);
        assert(all.contains(slot));
        assert(found.contains(slot));
    } else {
        let rest = all.remove(state.overrun as int);
        assert(all.contains(state.overrun as int));
        assert(found.subset_of(rest)) by {
            assert forall|x: int| found.contains(x) implies rest.contains(x) by {
                let i = choose|i: int| 0 <= i < order.len() && order[i] == x;
                assert(0 <= order[i] < slots);
                assert(order.contains(x));
            }
        }
        lemma_subset_equality(found, rest);
        assert(rest.contains(slot));
        assert(found.contains(slot));
    }
}

proof fn lemma_successor_on_order(state: ProducerState, slots: nat, order: Seq<int>, k: int)
    requires
        ring_order(state, slots, order),
        0 <= k < order.len(),
    ensures
        successor(state, order[k]) == order[(k + 1) % (order.len() as int)],
{
    let len = order.len() as int;
    if k < len - 1 {
        assert(state.chain[order[k]] == order[k + 1]);
        lemma_fundamental_div_mod_converse(k + 1, len, 0, k + 1);
    } else {
        lemma_fundamental_div_mod_converse(k + 1, len, 1, 0);
    }
}

proof fn lemma_walk_on_order(
    state: ProducerState,
    slots: nat,
    order: Seq<int>,
    from: int,
    steps: nat,
)
    requires
        ring_order(state, slots, order),
        0 <= from < order.len(),
    ensures
        0 <= (from + steps) % (order.len() as int) < order.len(),
        walk(state, order[from], steps) == order[(from + steps) % (order.len() as int)],
    decreases steps,
{
    let len = order.len() as int;
    lemma_mod_bound(from + steps, len);
    if steps == 0 {
        lemma_fundamental_div_mod_converse(from, len, 0, from);
    } else {
        let before = (steps - 1) as nat;
        lemma_walk_on_order(state, slots, order, from, before);
        let at = (from + before) % len;
        lemma_successor_on_order(state, slots, order, at);
        lemma_fundamental_div_mod(from + before, len);
        let q = (from + before) / len;
        if at + 1 < len {
            lemma_fundamental_div_mod_converse(at + 1, len, 0, at + 1);
            lemma_fundamental_div_mod_converse(from + steps, len, q, at + 1);
        } else {
            lemma_fundamental_div_mod_converse(at + 1, len, 1, 0);
            assert(len * q + len == len * (q + 1)) by (nonlinear_arith);
            lemma_fundamental_div_mod_converse(from + steps, len, q + 1, 0);
        }
    }
}

/// On a ring, the walk from any slot on the path comes by every slot on
/// the path exactly once before it is back where it started, and never by
/// a slot taken from the consumer.
///
/// With no slot taken from the consumer, every slot is on the path.
pub proof fn lemma_ring_walk(state: ProducerState, slots: nat, start: int)
    requires
        is_ring(state, slots),
        0 <= start < slots,
        start != state.overrun,
    ensures
        forall|slot: int|
            0 <= slot < slots && slot != state.overrun ==> #[trigger] comes_by(
                state,
                start,
                ring_len(state, slots),
                slot,
            ),
        forall|i: int, j: int|
            0 <= i < j < ring_len(state, slots) ==> #[trigger] walk(state, start, i as nat)
                != #[trigger] walk(state, start, j as nat),
        forall|k: int|
            0 <= k ==> 0 <= #[trigger] walk(state, start, k as nat) < slots && walk(
                state,
                start,
                k as nat,
            ) != state.overrun,
        walk(state, start, ring_len(state, slots) as nat) == start,
{
    let order = choose|order: Seq<int>| ring_order(state, slots, order);
    let len = order.len() as int;
    lemma_order_covers(state, slots, order, start);
    let from = choose|from: int| 0 <= from < order.len() && order[from] == start;
    assert forall|slot: int| 0 <= slot < slots && slot != state.overrun implies #[trigger] comes_by(
        state,
        start,
        ring_len(state, slots),
        slot,
    ) by {
        lemma_order_covers(state, slots, order, slot);
        let at = choose|at: int| 0 <= at < order.len() && order[at] == slot;
        let k = if at >= from {
            at - from
        } else {
            at - from + len
        };
        lemma_walk_on_order(state, slots, order, from, k as nat);
        if at >= from {
            lemma_fundamental_div_mod_converse(from + k, len, 0, at);
        } else {
            lemma_fundamental_div_mod_converse(from + k, len, 1, at);
        }
        assert(walk(state, start, k as nat) == slot);
    }
    assert forall|i: int, j: int| 0 <= i < j < ring_len(state, slots) implies #[trigger] walk(
        state,
        start,
        i as nat,
    ) != #[trigger] walk(state, start, j as nat) by {
        lemma_walk_on_order(state, slots, order, from, i as nat);
        lemma_walk_on_order(state, slots, order, from, j as nat);
        let a = (from + i) % len;
        let b = (from + j) % len;
        lemma_fundamental_div_mod(from + i, len);
        lemma_fundamental_div_mod(from + j, len);
        let qa = (from + i) / len;
        let qb = (from + j) / len;
        if a == b {
            assert(j - i == len * (qb - qa)) by (nonlinear_arith)
                requires
                    from + i == len * qa + a,
                    from + j == len * qb + b,
                    a == b,
            ;
            assert(false) by (nonlinear_arith)
                requires
                    j - i == len * (qb - qa),
                    0 < j - i < len,
            ;
        }
    }
    assert forall|k: int| 0 <= k implies 0 <= #[trigger] walk(state, start, k as nat) < slots
        && walk(state, start, k as nat) != state.overrun by {
        lemma_walk_on_order(state, slots, order, from, k as nat);
        let at = (from + k) % len;
        assert(order.contains(order[at]));
    }
    lemma_walk_on_order(state, slots, order, from, len as nat);
    lemma_fundamental_div_mod_converse(from + len, len, 1, from);
}

/// On a ring, after the first push, the chain cell of the head holds the
/// sentinel and no other chain cell does.
pub proof fn lemma_one_sentinel(state: ProducerState, slots: nat)
    requires
        is_ring(state, slots),
        state.head != INVALID_INDEX,
    ensures
        forall|slot: int|
            0 <= slot < slots ==> (#[trigger] state.chain[slot] == INVALID_INDEX <==> slot
                == state.head),
{
    let order = choose|order: Seq<int>| ring_order(state, slots, order);
    let len = order.len() as int;
    assert forall|slot: int| 0 <= slot < slots implies (#[trigger] state.chain[slot]
        == INVALID_INDEX <==> slot == state.head) by {
        if slot != state.overrun {
            lemma_order_covers(state, slots, order, slot);
            let place = choose|place: int| 0 <= place < order.len() && order[place] == slot;
            if place < len - 1 {
                assert(state.chain[order[place]] == order[place + 1]);
                assert(order[place] != order[len - 1]);
            }
        } else {
            assert(!order.contains(order[len - 1]) || slot != order[len - 1]);
        }
    }
}

} // verus!
