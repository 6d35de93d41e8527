use std::sync::atomic::AtomicU32;
use std::sync::atomic::Ordering;

use rtipc::cells::CONSUMED_FLAG;
use rtipc::cells::Queue;
use rtipc::cells::INVALID_INDEX;
use rtipc::consumer::ConsumerQueue;
use rtipc::producer::ProducerQueue;
use rtipc::shm::Chunk;
use rtipc::shm::SharedMemory;
use rtipc::ChannelParam;
use rtipc::ConsumeResult;
use rtipc::ProduceForceResult;
use rtipc::ProduceTryResult;
use rtipc::ShmError;

const CLS: usize = 64;

fn cells(count: usize) -> Vec<AtomicU32> {
    let mut cells = Vec::new();
    for _ in 0..count {
        cells.push(AtomicU32::new(0));
    }
    cells
}

fn param(additional_messages: usize, message_size: usize) -> ChannelParam {
    ChannelParam::new(additional_messages, message_size, false, Vec::new())
}

fn chunk(size: usize) -> Chunk {
    let mut arena = SharedMemory::new(size).unwrap();
    arena.alloc_chunk(0, size).unwrap()
}

/// Both ends of a queue of three slots over the same cells.
struct Pair<'a> {
    producer: ProducerQueue<'a>,
    consumer: ConsumerQueue<'a>,
}

impl<'a> Pair<'a> {
    fn new(cells: &'a [AtomicU32]) -> Self {
        let config = param(0, 8);
        let mut producer = ProducerQueue::new(cells, chunk(256), &config, CLS).unwrap();
        producer.init();
        let consumer = ConsumerQueue::new(cells, chunk(256), &config, CLS).unwrap();
        Pair { producer, consumer }
    }

    fn write(&mut self, value: u64) {
        self.producer.write_message(&[value as u32, (value >> 32) as u32]).unwrap();
    }

    fn force_push(&mut self, value: u64) -> ProduceForceResult {
        self.write(value);
        self.producer.force_push()
    }

    fn try_push(&mut self, value: u64) -> ProduceTryResult {
        self.write(value);
        self.producer.try_push()
    }

    fn read(&mut self) -> Option<u64> {
        self.consumer.read_message(2).map(|words| words[0] as u64 | (words[1] as u64) << 32)
    }
}

#[test]
fn new_producer_touches_no_cell() {
    let cells = cells(64);
    for cell in &cells {
        cell.store(0x1234, Ordering::SeqCst);
    }
    let config = param(0, 8);
    let producer = ProducerQueue::new(&cells, chunk(256), &config, CLS).unwrap();
    assert_eq!(producer.current(), 0);
    for cell in &cells {
        assert_eq!(cell.load(Ordering::SeqCst), 0x1234);
    }
}

#[test]
fn init_makes_the_queue_new_and_empty() {
    let config = param(0, 8);
    let written = cells(64);
    for cell in &written {
        cell.store(0x1234, Ordering::SeqCst);
    }
    let mut producer = ProducerQueue::new(&written, chunk(256), &config, CLS).unwrap();
    producer.init();
    let index: Vec<u32> = written[..5].iter().map(|c| c.load(Ordering::SeqCst)).collect();
    assert_eq!(index, vec![INVALID_INDEX, INVALID_INDEX, 1, 2, 0]);
    // Nothing else is written.
    for cell in &written[5..] {
        assert_eq!(cell.load(Ordering::SeqCst), 0x1234);
    }
    // The consumer end of the owner does the same.
    let other = cells(64);
    let mut consumer = ConsumerQueue::new(&other, chunk(256), &config, CLS).unwrap();
    consumer.init();
    let index: Vec<u32> = other[..5].iter().map(|c| c.load(Ordering::SeqCst)).collect();
    assert_eq!(index, vec![INVALID_INDEX, INVALID_INDEX, 1, 2, 0]);
    assert_eq!(consumer.current(), None);
}

/// The side that did not make the arena finds the chain written: its
/// producer pushes on a queue that it has not touched before.
#[test]
fn the_other_side_uses_what_the_owner_wrote() {
    let cells = cells(64);
    let config = param(0, 8);
    let mut owner = ConsumerQueue::new(&cells, chunk(256), &config, CLS).unwrap();
    owner.init();
    let mut producer = ProducerQueue::new(&cells, chunk(256), &config, CLS).unwrap();
    assert_eq!(producer.write_message(&[5]), Ok(()));
    assert_eq!(producer.force_push(), ProduceForceResult::Success);
    assert_eq!(producer.write_message(&[6]), Ok(()));
    assert_eq!(producer.force_push(), ProduceForceResult::Success);
    assert_eq!(owner.pop(), ConsumeResult::SuccessMessagesDiscarded);
    assert_eq!(owner.read_message(1), Some(vec![5]));
    assert_eq!(owner.pop(), ConsumeResult::Success);
    assert_eq!(owner.read_message(1), Some(vec![6]));
}

#[test]
fn new_consumer_touches_no_cell() {
    let cells = cells(64);
    for cell in &cells {
        cell.store(0x1234, Ordering::SeqCst);
    }
    let config = param(0, 8);
    let consumer = ConsumerQueue::new(&cells, chunk(256), &config, CLS).unwrap();
    assert_eq!(consumer.current(), None);
    assert_eq!(consumer.current_message(), None);
    for cell in &cells {
        assert_eq!(cell.load(Ordering::SeqCst), 0x1234);
    }
}

#[test]
fn queue_dimensions() {
    let cells = cells(224);
    let config = param(10, 16);
    let producer = ProducerQueue::new(&cells, chunk(896), &config, CLS).unwrap();
    assert_eq!(producer.additional_messages(), 10);
    assert_eq!(producer.message_size(), 16);
    assert_eq!(producer.slot_size(), 64);
    // The index region of fifteen cells takes one cache line.
    assert_eq!(producer.current_message(), 64);
    let consumer = ConsumerQueue::new(&cells, chunk(896), &config, CLS).unwrap();
    assert_eq!(consumer.additional_messages(), 10);
    assert_eq!(consumer.message_size(), 16);
    assert_eq!(consumer.slot_size(), 64);
}

#[test]
fn queue_needs_room() {
    let cells = cells(64);
    let config = param(0, 8);
    assert!(matches!(
        ProducerQueue::new(&cells, chunk(255), &config, CLS),
        Err(ShmError::Size)
    ));
    assert!(matches!(
        ProducerQueue::new(&cells[..63], chunk(256), &config, CLS),
        Err(ShmError::Size)
    ));
    assert!(matches!(
        ConsumerQueue::new(&cells, chunk(256), &param(0, 0), CLS),
        Err(ShmError::Size)
    ));
    assert!(matches!(
        ConsumerQueue::new(&cells, chunk(256), &param(1, 8), CLS),
        Err(ShmError::Size)
    ));
}

#[test]
fn queue_needs_an_aligned_chunk() {
    let cells = cells(64);
    let config = param(0, 8);
    let mut arena = SharedMemory::new(1024).unwrap();
    let misplaced = arena.alloc_chunk(32, 256).unwrap();
    assert!(matches!(
        ProducerQueue::new(&cells, misplaced, &config, CLS),
        Err(ShmError::Alignment)
    ));
    let placed = arena.alloc_chunk(320, 256).unwrap();
    // The cache line size must be a multiple of the width of a cell.
    assert!(matches!(
        ProducerQueue::new(&cells, placed, &config, 10),
        Err(ShmError::Alignment)
    ));
    let producer = ProducerQueue::new(&cells, placed, &config, CLS).unwrap();
    assert_eq!(producer.current_message(), 320 + 64);
}

#[test]
fn messages_have_the_words_of_the_declared_size() {
    let cells = cells(64);
    let config = param(0, 64);
    let mut producer = ProducerQueue::new(&cells, chunk(256), &config, CLS).unwrap();
    producer.init();
    let mut consumer = ConsumerQueue::new(&cells, chunk(256), &config, CLS).unwrap();
    assert_eq!(producer.message_words(), 16);
    assert_eq!(consumer.message_words(), 16);
    assert_eq!(consumer.read_message(1), None);
    let message: Vec<u32> = (100..116).collect();
    assert_eq!(producer.write_message(&message), Ok(()));
    // The first slot lies behind the index region of one cache line.
    for (i, word) in message.iter().enumerate() {
        assert_eq!(cells[16 + i].load(Ordering::SeqCst), *word);
    }
    assert_eq!(cells[32].load(Ordering::SeqCst), 0);
    assert_eq!(producer.write_message(&[0; 17]), Err(ShmError::Size));
    assert_eq!(cells[16].load(Ordering::SeqCst), 100);
    assert_eq!(producer.force_push(), ProduceForceResult::Success);
    assert_eq!(producer.write_message(&[7, 8]), Ok(()));
    assert_eq!(cells[32].load(Ordering::SeqCst), 7);
    assert_eq!(cells[33].load(Ordering::SeqCst), 8);
    assert_eq!(consumer.pop(), ConsumeResult::SuccessMessagesDiscarded);
    assert_eq!(consumer.read_message(16), Some(message));
    assert_eq!(consumer.read_message(0), Some(Vec::new()));
    assert_eq!(consumer.read_message(17), None);
}

/// A message of six bytes has two words, whatever room its padded slot has.
#[test]
fn the_last_word_of_a_message_may_be_half_used() {
    let cells = cells(64);
    let config = param(0, 6);
    let mut producer = ProducerQueue::new(&cells, chunk(256), &config, CLS).unwrap();
    producer.init();
    let mut consumer = ConsumerQueue::new(&cells, chunk(256), &config, CLS).unwrap();
    assert_eq!(producer.message_size(), 6);
    assert_eq!(producer.slot_size(), 64);
    assert_eq!(producer.message_words(), 2);
    assert_eq!(producer.write_message(&[1, 2, 3]), Err(ShmError::Size));
    assert_eq!(producer.write_message(&[1, 2]), Ok(()));
    assert_eq!(producer.try_push(), ProduceTryResult::Success);
    assert_eq!(consumer.pop(), ConsumeResult::SuccessMessagesDiscarded);
    assert_eq!(consumer.read_message(3), None);
    assert_eq!(consumer.read_message(2), Some(vec![1, 2]));
}

#[test]
fn pop_on_an_empty_queue() {
    let cells = cells(64);
    let mut pair = Pair::new(&cells);
    assert_eq!(pair.consumer.pop(), ConsumeResult::NoMessage);
    assert_eq!(pair.read(), None);
    assert_eq!(pair.consumer.flush(), ConsumeResult::NoMessage);
}

/// One push, then pops. The first pop finds `tail` as the producer wrote
/// it, without the consumed flag, and so reports that the producer moved
/// it.
#[test]
fn one_push_one_pop() {
    let cells = cells(64);
    let mut pair = Pair::new(&cells);
    assert_eq!(pair.force_push(7), ProduceForceResult::Success);
    assert_eq!(pair.consumer.pop(), ConsumeResult::SuccessMessagesDiscarded);
    assert_eq!(pair.read(), Some(7));
    assert_eq!(pair.consumer.current_message(), Some(64));
    assert_eq!(pair.consumer.pop(), ConsumeResult::NoNewMessage);
    assert_eq!(pair.read(), Some(7));
}

#[test]
fn pops_follow_the_pushes() {
    let cells = cells(64);
    let mut pair = Pair::new(&cells);
    assert_eq!(pair.force_push(1), ProduceForceResult::Success);
    assert_eq!(pair.consumer.pop(), ConsumeResult::SuccessMessagesDiscarded);
    assert_eq!(pair.read(), Some(1));
    for value in 2..20u64 {
        assert_eq!(pair.force_push(value), ProduceForceResult::Success);
        assert_eq!(pair.consumer.pop(), ConsumeResult::Success);
        assert_eq!(pair.read(), Some(value));
        assert_eq!(pair.consumer.pop(), ConsumeResult::NoNewMessage);
    }
}

/// Four force-pushes into three slots without a pop: the third and the
/// fourth each discard the oldest message. The pop takes the oldest that is
/// left, the next pop the newest.
#[test]
fn force_push_discards_the_oldest() {
    let cells = cells(64);
    let mut pair = Pair::new(&cells);
    assert_eq!(pair.force_push(1), ProduceForceResult::Success);
    assert_eq!(pair.force_push(2), ProduceForceResult::Success);
    assert_eq!(pair.force_push(3), ProduceForceResult::SuccessMessageDiscarded);
    assert_eq!(pair.force_push(4), ProduceForceResult::SuccessMessageDiscarded);
    assert_eq!(pair.consumer.pop(), ConsumeResult::SuccessMessagesDiscarded);
    assert_eq!(pair.read(), Some(3));
    assert_eq!(pair.consumer.pop(), ConsumeResult::Success);
    assert_eq!(pair.read(), Some(4));
    assert_eq!(pair.consumer.pop(), ConsumeResult::NoNewMessage);
}

#[test]
fn flush_takes_the_newest() {
    let cells = cells(64);
    let mut pair = Pair::new(&cells);
    assert_eq!(pair.force_push(1), ProduceForceResult::Success);
    assert_eq!(pair.force_push(2), ProduceForceResult::Success);
    assert_eq!(pair.consumer.flush(), ConsumeResult::Success);
    assert_eq!(pair.read(), Some(2));
    assert_eq!(pair.consumer.pop(), ConsumeResult::NoNewMessage);
    assert_eq!(pair.force_push(3), ProduceForceResult::Success);
    assert_eq!(pair.consumer.flush(), ConsumeResult::Success);
    assert_eq!(pair.read(), Some(3));
}

/// Of three slots one is always the producer's, so two messages fit. The
/// third try-push finds the queue full and changes nothing; after a pop
/// there is room again.
#[test]
fn try_push_stops_at_a_full_queue() {
    let cells = cells(64);
    let mut pair = Pair::new(&cells);
    assert!(!pair.producer.full());
    assert_eq!(pair.try_push(1), ProduceTryResult::Success);
    assert!(!pair.producer.full());
    assert_eq!(pair.try_push(2), ProduceTryResult::Success);
    assert!(pair.producer.full());
    let before: Vec<u32> = cells.iter().map(|c| c.load(Ordering::SeqCst)).collect();
    let current = pair.producer.current();
    assert_eq!(pair.producer.try_push(), ProduceTryResult::QueueFull);
    let after: Vec<u32> = cells.iter().map(|c| c.load(Ordering::SeqCst)).collect();
    assert_eq!(before, after);
    assert_eq!(pair.producer.current(), current);
    assert_eq!(pair.consumer.pop(), ConsumeResult::SuccessMessagesDiscarded);
    assert_eq!(pair.read(), Some(1));
    // The consumer holds the oldest slot: the queue stays full until it
    // moves on.
    assert_eq!(pair.try_push(3), ProduceTryResult::QueueFull);
    assert_eq!(pair.consumer.pop(), ConsumeResult::Success);
    assert_eq!(pair.read(), Some(2));
    assert!(!pair.producer.full());
    assert_eq!(pair.try_push(3), ProduceTryResult::Success);
    assert_eq!(pair.consumer.pop(), ConsumeResult::Success);
    assert_eq!(pair.read(), Some(3));
}

/// A force-push onto a full queue whose oldest slot the consumer reads
/// jumps over that slot; the next force-push puts the slot back once the
/// consumer has moved on.
#[test]
fn force_push_jumps_over_a_reading_consumer() {
    let cells = cells(64);
    let mut pair = Pair::new(&cells);
    assert_eq!(pair.force_push(1), ProduceForceResult::Success);
    assert_eq!(pair.consumer.pop(), ConsumeResult::SuccessMessagesDiscarded);
    assert_eq!(pair.read(), Some(1));
    assert_eq!(cells[0].load(Ordering::SeqCst), CONSUMED_FLAG);
    assert_eq!(pair.force_push(2), ProduceForceResult::Success);
    // Slot 0 is read, slot 1 is published, slot 2 is written next: full.
    assert_eq!(pair.producer.current(), 2);
    assert_eq!(pair.force_push(3), ProduceForceResult::SuccessMessageDiscarded);
    // The producer took slot 1 and moved `tail` to slot 2.
    assert_eq!(pair.producer.current(), 1);
    assert_eq!(cells[0].load(Ordering::SeqCst), 2);
    assert_eq!(pair.read(), Some(1));
    // The consumer still holds slot 0: another push discards again.
    assert_eq!(pair.force_push(4), ProduceForceResult::SuccessMessageDiscarded);
    assert_eq!(pair.producer.current(), 2);
    assert_eq!(cells[0].load(Ordering::SeqCst), 1);
    // The consumer moves on and lets go of slot 0.
    assert_eq!(pair.consumer.pop(), ConsumeResult::SuccessMessagesDiscarded);
    assert_eq!(pair.read(), Some(4));
    assert_eq!(pair.force_push(5), ProduceForceResult::Success);
    assert_eq!(pair.producer.current(), 0);
    assert_eq!(pair.consumer.pop(), ConsumeResult::Success);
    assert_eq!(pair.read(), Some(5));
    assert_eq!(pair.consumer.pop(), ConsumeResult::NoNewMessage);
    // The chain is whole again: pushes and pops go on in step.
    for value in 6..12u64 {
        assert_eq!(pair.force_push(value), ProduceForceResult::Success);
        assert_eq!(pair.consumer.pop(), ConsumeResult::Success);
        assert_eq!(pair.read(), Some(value));
    }
}

#[test]
fn try_push_takes_a_released_slot_back() {
    let cells = cells(64);
    let mut pair = Pair::new(&cells);
    assert_eq!(pair.force_push(1), ProduceForceResult::Success);
    assert_eq!(pair.consumer.pop(), ConsumeResult::SuccessMessagesDiscarded);
    assert_eq!(pair.force_push(2), ProduceForceResult::Success);
    assert_eq!(pair.force_push(3), ProduceForceResult::SuccessMessageDiscarded);
    // A slot is taken from the consumer, which has not moved on.
    assert!(pair.producer.full());
    assert_eq!(pair.try_push(4), ProduceTryResult::QueueFull);
    assert_eq!(pair.consumer.pop(), ConsumeResult::SuccessMessagesDiscarded);
    assert_eq!(pair.read(), Some(3));
    assert!(!pair.producer.full());
    assert_eq!(pair.try_push(4), ProduceTryResult::Success);
    assert_eq!(pair.producer.current(), 0);
    assert_eq!(pair.consumer.pop(), ConsumeResult::Success);
    assert_eq!(pair.read(), Some(4));
}

#[test]
fn every_cell_stays_valid() {
    let cells = cells(64);
    let mut pair = Pair::new(&cells);
    let valid = |cells: &[AtomicU32]| {
        cells.iter().all(|c| {
            let value = c.load(Ordering::SeqCst);
            value == INVALID_INDEX || (value & !CONSUMED_FLAG) < 3
        })
    };
    for round in 0..50u64 {
        pair.force_push(round);
        assert!(valid(&cells[..5]));
        if round % 3 == 0 {
            pair.consumer.pop();
            assert!(valid(&cells[..5]));
        }
        if round % 7 == 0 {
            pair.consumer.flush();
            assert!(valid(&cells[..5]));
        }
        if round % 5 == 0 {
            pair.try_push(round);
            assert!(valid(&cells[..5]));
        }
    }
}

#[test]
fn a_corrupt_tail_is_a_queue_error() {
    let cells = cells(64);
    let mut pair = Pair::new(&cells);
    assert_eq!(pair.force_push(1), ProduceForceResult::Success);
    cells[0].store(3, Ordering::SeqCst);
    assert_eq!(pair.consumer.pop(), ConsumeResult::QueueError);
    assert_eq!(pair.consumer.flush(), ConsumeResult::QueueError);
    assert!(!pair.producer.full());
    assert_eq!(pair.try_push(2), ProduceTryResult::QueueError);
    assert_eq!(pair.force_push(2), ProduceForceResult::QueueError);
    // The queue is poisoned: the producer goes on reporting the error.
    cells[0].store(0, Ordering::SeqCst);
    assert_eq!(pair.force_push(3), ProduceForceResult::QueueError);
    assert_eq!(pair.try_push(3), ProduceTryResult::QueueError);
}

#[test]
fn a_corrupt_chain_is_a_queue_error() {
    let cells = cells(64);
    let mut pair = Pair::new(&cells);
    assert_eq!(pair.force_push(1), ProduceForceResult::Success);
    assert_eq!(pair.consumer.pop(), ConsumeResult::SuccessMessagesDiscarded);
    cells[2].store(17, Ordering::SeqCst);
    assert_eq!(pair.consumer.pop(), ConsumeResult::QueueError);
    assert_eq!(pair.read(), Some(1));
}

#[test]
fn a_held_message_is_not_written_over() {
    let cells = cells(64);
    let mut pair = Pair::new(&cells);
    assert_eq!(pair.force_push(1), ProduceForceResult::Success);
    assert_eq!(pair.consumer.pop(), ConsumeResult::SuccessMessagesDiscarded);
    for value in 2..40u64 {
        pair.force_push(value);
        assert_eq!(pair.read(), Some(1));
    }
    assert_eq!(pair.consumer.pop(), ConsumeResult::SuccessMessagesDiscarded);
    assert_eq!(pair.read(), Some(39));
}

#[test]
fn a_corrupt_head_is_a_queue_error() {
    let cells = cells(64);
    let mut pair = Pair::new(&cells);
    assert_eq!(pair.force_push(1), ProduceForceResult::Success);
    cells[1].store(9, Ordering::SeqCst);
    assert_eq!(pair.consumer.flush(), ConsumeResult::QueueError);
    assert_eq!(pair.read(), None);
}

/// A pop whose exchange loses against the producer takes the slot that
/// `tail` names then.
#[test]
fn pop_after_the_producer_moved_tail() {
    let cells = cells(64);
    let mut pair = Pair::new(&cells);
    assert_eq!(pair.force_push(1), ProduceForceResult::Success);
    assert_eq!(pair.consumer.pop(), ConsumeResult::SuccessMessagesDiscarded);
    assert_eq!(pair.force_push(2), ProduceForceResult::Success);
    assert_eq!(pair.force_push(3), ProduceForceResult::SuccessMessageDiscarded);
    assert_eq!(pair.consumer.pop(), ConsumeResult::SuccessMessagesDiscarded);
    assert_eq!(pair.read(), Some(3));
    assert_eq!(cells[0].load(Ordering::SeqCst), 2 | CONSUMED_FLAG);
}

/// Number of slots that the chain leads through from `start` before it
/// ends, each of them once.
fn path(cells: &[AtomicU32], start: u32, slots: usize) -> Vec<u32> {
    let mut seen = Vec::new();
    let mut slot = start;
    while slot != INVALID_INDEX {
        assert!((slot as usize) < slots);
        assert!(!seen.contains(&slot));
        seen.push(slot);
        slot = cells[2 + slot as usize].load(Ordering::SeqCst);
    }
    seen
}

#[test]
fn the_chain_is_one_path_through_the_slots() {
    let cells = cells(64);
    let mut pair = Pair::new(&cells);
    // Before the first push the last slot leads back to the first.
    assert_eq!(cells[0].load(Ordering::SeqCst), INVALID_INDEX);
    assert_eq!(cells[2].load(Ordering::SeqCst), 1);
    assert_eq!(cells[3].load(Ordering::SeqCst), 2);
    assert_eq!(cells[4].load(Ordering::SeqCst), 0);
    for round in 0..30u64 {
        if round % 4 == 3 {
            pair.try_push(round);
        } else {
            pair.force_push(round);
        }
        if round % 5 == 0 {
            pair.consumer.pop();
        }
        let start = pair.producer.current();
        let seen = path(&cells, start, 3);
        // The path ends at the head and misses at most the one slot that
        // was taken from under the consumer. The consumer holds that slot
        // until it takes the slot that `tail` names.
        assert_eq!(*seen.last().unwrap(), cells[1].load(Ordering::SeqCst));
        assert!(seen.len() == 3 || seen.len() == 2);
        let tail = cells[0].load(Ordering::SeqCst);
        if let Some(held) = pair.consumer.current() {
            assert_ne!(held, start);
            if tail & CONSUMED_FLAG != 0 {
                assert_eq!(held, tail & !CONSUMED_FLAG);
                assert!(seen.contains(&held));
            } else {
                assert_eq!(seen.len(), 2);
                assert!(!seen.contains(&held));
            }
        }
    }
}

#[test]
fn larger_queues() {
    let config = param(5, 24);
    let cells = cells(640 / 4);
    let mut producer = ProducerQueue::new(&cells, chunk(640), &config, CLS).unwrap();
    producer.init();
    let mut consumer = ConsumerQueue::new(&cells, chunk(640), &config, CLS).unwrap();
    // Eight slots: seven messages fit.
    for value in 0..7u32 {
        assert_eq!(producer.write_message(&[value]), Ok(()));
        assert_eq!(producer.try_push(), ProduceTryResult::Success);
    }
    assert_eq!(producer.try_push(), ProduceTryResult::QueueFull);
    assert_eq!(consumer.pop(), ConsumeResult::SuccessMessagesDiscarded);
    assert_eq!(consumer.read_message(1), Some(vec![0]));
    for value in 1..7u32 {
        assert_eq!(consumer.pop(), ConsumeResult::Success);
        assert_eq!(consumer.read_message(1), Some(vec![value]));
    }
    assert_eq!(consumer.pop(), ConsumeResult::NoNewMessage);
    assert_eq!(path(&cells, producer.current(), 8).len(), 8);
}

#[test]
fn queue_over_a_chunk() {
    let cells = cells(224);
    let mut arena = SharedMemory::new(4096).unwrap();
    let first = arena.alloc_chunk(0, 1024).unwrap();
    let second = arena.alloc_chunk(1024, 896).unwrap();
    assert!(Queue::new(&cells, first, &param(10, 16), CLS).is_ok());
    let mut queue = Queue::new(&cells, second, &param(10, 16), CLS).unwrap();
    assert_eq!(queue.len(), 13);
    assert_eq!(queue.additional_messages(), 10);
    assert_eq!(queue.message_size(), 16);
    assert_eq!(queue.slot_size(), 64);
    assert_eq!(queue.words(), 4);
    assert!(queue.is_valid_index(12));
    assert!(!queue.is_valid_index(13));
    assert!(!queue.is_valid_index(INVALID_INDEX));
    assert_eq!(queue.message_offset(0), 1024 + 64);
    assert_eq!(queue.message_offset(12), 1024 + 64 + 12 * 64);
    cells[0].store(5, Ordering::SeqCst);
    cells[1].store(6, Ordering::SeqCst);
    queue.init();
    assert_eq!(cells[0].load(Ordering::SeqCst), INVALID_INDEX);
    assert_eq!(cells[1].load(Ordering::SeqCst), INVALID_INDEX);
    for slot in 0..12 {
        assert_eq!(cells[2 + slot].load(Ordering::SeqCst), slot as u32 + 1);
    }
    assert_eq!(cells[14].load(Ordering::SeqCst), 0);
    assert_eq!(cells[15].load(Ordering::SeqCst), 0);
    assert!(matches!(Queue::new(&cells[..223], second, &param(10, 16), CLS), Err(ShmError::Size)));
    assert!(matches!(Queue::new(&cells, second, &param(11, 16), CLS), Err(ShmError::Size)));
    assert!(matches!(
        Queue::new(&cells, second, &param(0x7fff_fffd, 16), CLS),
        Err(ShmError::Size)
    ));
}
