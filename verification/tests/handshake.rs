use std::sync::atomic::AtomicU32;
use std::sync::atomic::Ordering;

use nix::errno::Errno;
use rtipc::cells::INVALID_INDEX;
use rtipc::channel::ChannelVector;
use rtipc::channel::Consumer;
use rtipc::channel::Producer;
use rtipc::protocol::create_request_message;
use rtipc::request::Request;
use rtipc::resource::ChannelResource;
use rtipc::resource::VectorResource;
use rtipc::unix::Descriptor;
use rtipc::ChannelParam;
use rtipc::ConsumeResult;
use rtipc::MessageError;
use rtipc::ProduceForceResult;
use rtipc::ProduceTryResult;
use rtipc::RtipcError;
use rtipc::ShmError;
use rtipc::VectorParam;

const CLS: usize = 64;

fn arena(bytes: usize) -> Vec<AtomicU32> {
    let mut cells = Vec::new();
    for _ in 0..bytes / 4 {
        cells.push(AtomicU32::new(0x5a5a_5a5a));
    }
    cells
}

/// One producer of message size 8 without a wake-up descriptor and one
/// consumer of message size 16 with ten additional messages and a wake-up
/// descriptor.
fn two_channels() -> VectorParam {
    VectorParam {
        producers: vec![ChannelParam::new(0, 8, false, vec![1, 2])],
        consumers: vec![ChannelParam::new(10, 16, true, vec![3])],
        info: vec![9, 9],
    }
}

fn memfd(fd: i32) -> Descriptor {
    Descriptor { fd, link: b"/memfd:rtipc (deleted)".to_vec() }
}

fn eventfd(fd: i32) -> Descriptor {
    Descriptor { fd, link: b"anon_inode:[eventfd]".to_vec() }
}

#[test]
fn arena_size_of_a_configuration() {
    assert!(matches!(ChannelVector::shm_size(&two_channels(), CLS), Ok(1152)));
    assert!(matches!(ChannelVector::shm_size(&two_channels(), 128), Ok(2304)));
    assert!(matches!(ChannelVector::shm_size(&two_channels(), 0), Err(RtipcError::Argument)));
    let empty = VectorParam { producers: Vec::new(), consumers: Vec::new(), info: vec![1] };
    assert!(matches!(ChannelVector::shm_size(&empty, CLS), Err(RtipcError::Argument)));
    let mut zero = two_channels();
    zero.consumers[0].message_size = 0;
    assert!(matches!(ChannelVector::shm_size(&zero, CLS), Err(RtipcError::Argument)));
    let mut huge = two_channels();
    huge.producers[0].additional_messages = usize::MAX / 2;
    assert!(matches!(ChannelVector::shm_size(&huge, CLS), Err(RtipcError::Argument)));
}

#[test]
fn initiator_builds_vector_and_request() {
    let vparam = two_channels();
    let arena = arena(1152);
    let (vector, request) = ChannelVector::new(&vparam, 10, &vec![11], &arena, CLS).unwrap();
    assert_eq!(request.msg(), &create_request_message(&vparam, CLS));
    assert_eq!(request.fds(), &vec![10, 11]);
    assert_eq!(vector.info(), &vec![9, 9]);
    assert_eq!(vector.producer_info(0), Some(&vec![1, 2]));
    assert_eq!(vector.consumer_info(0), Some(&vec![3]));
    assert_eq!(vector.producer_info(1), None);
    assert_eq!(vector.consumer_info(1), None);
    // The producer's queue starts the arena: new and empty.
    assert_eq!(arena[0].load(Ordering::SeqCst), INVALID_INDEX);
    assert_eq!(arena[1].load(Ordering::SeqCst), INVALID_INDEX);
    assert_eq!(arena[2].load(Ordering::SeqCst), 1);
    assert_eq!(arena[3].load(Ordering::SeqCst), 2);
    assert_eq!(arena[4].load(Ordering::SeqCst), 0);
    assert_eq!(arena[5].load(Ordering::SeqCst), 0x5a5a_5a5a);
    // The consumer's queue lies behind it, new and empty as well.
    assert_eq!(arena[64].load(Ordering::SeqCst), INVALID_INDEX);
    assert_eq!(arena[65].load(Ordering::SeqCst), INVALID_INDEX);
    for slot in 0..12 {
        assert_eq!(arena[66 + slot].load(Ordering::SeqCst), slot as u32 + 1);
    }
    assert_eq!(arena[66 + 12].load(Ordering::SeqCst), 0);
    assert_eq!(arena[66 + 13].load(Ordering::SeqCst), 0x5a5a_5a5a);
}

#[test]
fn acceptor_touches_no_cell() {
    let msg = create_request_message(&two_channels(), CLS);
    let untouched = arena(1152);
    let vector =
        ChannelVector::from_request(&msg, &memfd(20), &vec![eventfd(21)], &untouched, CLS);
    assert!(vector.is_ok());
    for cell in &untouched {
        assert_eq!(cell.load(Ordering::SeqCst), 0x5a5a_5a5a);
    }
}

#[test]
fn initiator_takes_surplus_descriptors_off() {
    let arena = arena(1152);
    let (_, request) =
        ChannelVector::new(&two_channels(), 10, &vec![11, 12, 13], &arena, CLS).unwrap();
    assert_eq!(request.fds(), &vec![10, 11]);
}

#[test]
fn initiator_errors() {
    let vparam = two_channels();
    let cells = arena(1152);
    let fds = vec![11];
    assert!(matches!(
        ChannelVector::new(&vparam, 10, &fds, &cells, 0),
        Err(RtipcError::Argument)
    ));
    assert!(matches!(
        ChannelVector::new(&vparam, 10, &fds, &cells, 0x10000),
        Err(RtipcError::Argument)
    ));
    let empty = VectorParam { producers: Vec::new(), consumers: Vec::new(), info: Vec::new() };
    assert!(matches!(
        ChannelVector::new(&empty, 10, &fds, &cells, CLS),
        Err(RtipcError::Argument)
    ));
    assert!(matches!(
        ChannelVector::new(&vparam, 10, &Vec::new(), &cells, CLS),
        Err(RtipcError::MissingDescriptor)
    ));
    assert!(matches!(
        ChannelVector::new(&vparam, 10, &fds, &cells, 6),
        Err(RtipcError::Shm(ShmError::Alignment))
    ));
    assert!(matches!(
        ChannelVector::new(&vparam, 10, &fds, &cells[..287], CLS),
        Err(RtipcError::Shm(ShmError::Size))
    ));
    assert!(matches!(
        ChannelVector::new(&vparam, 10, &fds, &[], CLS),
        Err(RtipcError::Shm(ShmError::Size))
    ));
    let mut zero = two_channels();
    zero.producers[0].message_size = 0;
    assert!(matches!(
        ChannelVector::new(&zero, 10, &fds, &cells, CLS),
        Err(RtipcError::Shm(ShmError::Size))
    ));
    assert!(ChannelVector::new(&vparam, 10, &fds, &cells, CLS).is_ok());
}

/// The acceptor sees one consumer of message size 8 without a wake-up
/// descriptor and one producer of message size 16 with one.
#[test]
fn acceptor_swaps_producers_and_consumers() {
    let vparam = two_channels();
    let arena = arena(1152);
    let (mut initiator, request) =
        ChannelVector::new(&vparam, 10, &vec![11], &arena, CLS).unwrap();
    let mut acceptor =
        ChannelVector::from_request(request.msg(), &memfd(20), &vec![eventfd(21)], &arena, CLS)
            .unwrap();
    assert_eq!(acceptor.info(), &vec![9, 9]);
    assert_eq!(acceptor.consumer_info(0), Some(&vec![1, 2]));
    assert_eq!(acceptor.producer_info(0), Some(&vec![3]));
    assert_eq!(acceptor.consumer_info(1), None);
    assert_eq!(acceptor.producer_info(1), None);
    assert_eq!(arena[64].load(Ordering::SeqCst), INVALID_INDEX);
    assert_eq!(arena[66].load(Ordering::SeqCst), 1);
    assert_eq!(arena[66 + 12].load(Ordering::SeqCst), 0);

    let consumer: Consumer<u64> = acceptor.take_consumer(0).unwrap();
    assert_eq!(consumer.eventfd(), None);
    let mut producer: Producer<[u8; 16]> = acceptor.take_producer(0).unwrap();
    assert_eq!(producer.eventfd(), Some(21));
    // The data region of the second queue lies behind its index region.
    assert_eq!(producer.msg(), 256 + 64);

    let mut far: Consumer<[u8; 16]> = initiator.take_consumer(0).unwrap();
    assert_eq!(far.eventfd(), Some(11));
    assert_eq!(far.msg(), None);
    assert_eq!(producer.force_push(), ProduceForceResult::Success);
    assert_eq!(producer.msg(), 256 + 64 + 64);
    assert_eq!(far.pop(true), ConsumeResult::SuccessMessagesDiscarded);
    assert_eq!(far.msg(), Some(256 + 64));

    let mut near: Producer<u64> = initiator.take_producer(0).unwrap();
    assert_eq!(near.eventfd(), None);
    assert_eq!(near.msg(), 64);
    let mut consumer = consumer;
    assert_eq!(consumer.pop(true), ConsumeResult::NoMessage);
    assert_eq!(consumer.read(2), None);
    assert_eq!(near.write(&[0xdead_beef, 0x0bad_cafe]), Ok(()));
    assert_eq!(near.try_push(), ProduceTryResult::Success);
    assert_eq!(consumer.pop(false), ConsumeResult::SuccessMessagesDiscarded);
    assert_eq!(consumer.msg(), Some(64));
    assert_eq!(consumer.read(2), Some(vec![0xdead_beef, 0x0bad_cafe]));
}

/// A message that is built outside the queue reaches the slot only with
/// the push that publishes it, and not at all where the queue is full.
#[test]
fn staged_messages() {
    let arena = arena(1152);
    let (mut initiator, request) =
        ChannelVector::new(&two_channels(), 10, &vec![11], &arena, CLS).unwrap();
    let mut acceptor =
        ChannelVector::from_request(request.msg(), &memfd(20), &vec![eventfd(21)], &arena, CLS)
            .unwrap();
    let mut producer: Producer<u64> = initiator.take_producer(0).unwrap();
    let mut consumer: Consumer<u64> = acceptor.take_consumer(0).unwrap();
    let words = |from: usize| -> Vec<u32> {
        arena[from..from + 2].iter().map(|c| c.load(Ordering::SeqCst)).collect()
    };
    assert_eq!(words(16), vec![0x5a5a_5a5a, 0x5a5a_5a5a]);
    assert_eq!(producer.try_push_staged(&[1, 1]), Ok(ProduceTryResult::Success));
    assert_eq!(words(16), vec![1, 1]);
    assert_eq!(producer.force_push_staged(&[2, 2]), Ok(ProduceForceResult::Success));
    assert_eq!(words(32), vec![2, 2]);
    // The queue is full: the message stays outside.
    assert_eq!(producer.try_push_staged(&[3, 3]), Ok(ProduceTryResult::QueueFull));
    assert_eq!(words(48), vec![0x5a5a_5a5a, 0x5a5a_5a5a]);
    assert_eq!(words(16), vec![1, 1]);
    assert_eq!(producer.try_push_staged(&[0; 3]), Err(ShmError::Size));
    assert_eq!(producer.force_push_staged(&[0; 3]), Err(ShmError::Size));
    assert_eq!(words(48), vec![0x5a5a_5a5a, 0x5a5a_5a5a]);
    assert_eq!(
        producer.force_push_staged(&[3, 3]),
        Ok(ProduceForceResult::SuccessMessageDiscarded)
    );
    assert_eq!(words(48), vec![3, 3]);
    assert_eq!(consumer.pop(true), ConsumeResult::SuccessMessagesDiscarded);
    assert_eq!(consumer.read(2), Some(vec![2, 2]));
    assert_eq!(consumer.pop(true), ConsumeResult::Success);
    assert_eq!(consumer.read(2), Some(vec![3, 3]));
    assert_eq!(consumer.read(3), None);
}

/// A request from a host with another cache line size is refused.
#[test]
fn acceptor_refuses_another_cache_line_size() {
    let arena = arena(2304);
    let (_, request) = ChannelVector::new(&two_channels(), 10, &vec![11], &arena, 128).unwrap();
    assert!(matches!(
        ChannelVector::from_request(request.msg(), &memfd(20), &vec![eventfd(21)], &arena, CLS),
        Err(RtipcError::Message(MessageError::CachelineSize))
    ));
}

#[test]
fn acceptor_errors() {
    let arena = arena(1152);
    let msg = create_request_message(&two_channels(), CLS);
    let fds = vec![eventfd(21)];
    assert!(matches!(
        ChannelVector::from_request(&msg[..30], &memfd(20), &fds, &arena, CLS),
        Err(RtipcError::Message(MessageError::Size))
    ));
    assert!(matches!(
        ChannelVector::from_request(&msg, &eventfd(20), &fds, &arena, CLS),
        Err(RtipcError::InvalidResource)
    ));
    assert!(matches!(
        ChannelVector::from_request(&msg, &memfd(20), &Vec::new(), &arena, CLS),
        Err(RtipcError::MissingDescriptor)
    ));
    assert!(matches!(
        ChannelVector::from_request(&msg, &memfd(20), &vec![memfd(21)], &arena, CLS),
        Err(RtipcError::InvalidResource)
    ));
    assert!(matches!(
        ChannelVector::from_request(&msg, &memfd(20), &fds, &arena[..200], CLS),
        Err(RtipcError::Shm(ShmError::Size))
    ));
    assert!(ChannelVector::from_request(&msg, &memfd(20), &fds, &arena, CLS).is_ok());
}

#[test]
fn a_channel_is_taken_once() {
    let arena = arena(1152);
    let (mut vector, _) = ChannelVector::new(&two_channels(), 10, &vec![11], &arena, CLS).unwrap();
    assert!(vector.take_producer::<u64>(1).is_none());
    assert!(vector.take_producer::<u64>(0).is_some());
    assert!(vector.take_producer::<u64>(0).is_none());
    assert!(vector.take_producer::<u8>(0).is_none());
    assert_eq!(vector.producer_info(0), None);
    assert_eq!(vector.consumer_info(0), Some(&vec![3]));
    assert!(vector.take_consumer::<u64>(0).is_some());
    assert!(vector.take_consumer::<u64>(0).is_none());
    assert_eq!(vector.consumer_info(0), None);
}

/// The producer is declared with message size 8 and the consumer with 16,
/// whatever room the padded slots have.
#[test]
fn a_type_must_fit_the_declared_message_size() {
    let arena = arena(1152);
    let fds = vec![11];
    let (mut vector, _) = ChannelVector::new(&two_channels(), 10, &fds, &arena, CLS).unwrap();
    assert!(vector.take_producer::<[u8; 9]>(0).is_none());
    // The channel was taken with the attempt.
    assert!(vector.take_producer::<u64>(0).is_none());
    assert!(vector.take_consumer::<[u8; 17]>(0).is_none());
    let (mut vector, _) = ChannelVector::new(&two_channels(), 10, &fds, &arena, CLS).unwrap();
    assert!(vector.take_producer::<[u8; 64]>(0).is_none());
    let (mut vector, _) = ChannelVector::new(&two_channels(), 10, &fds, &arena, CLS).unwrap();
    let producer = vector.take_producer::<u64>(0).unwrap();
    assert_eq!(producer.message_size(), 8);
    let consumer = vector.take_consumer::<[u8; 16]>(0).unwrap();
    assert_eq!(consumer.message_size(), 16);
    let (mut vector, _) = ChannelVector::new(&two_channels(), 10, &fds, &arena, CLS).unwrap();
    assert!(vector.take_producer::<u8>(0).is_some());
    assert!(vector.take_consumer::<()>(0).is_some());
}

/// A channel with a wake-up descriptor flushes by popping, round by round,
/// for as long as its descriptor is signalled.
#[test]
fn flush_round_by_round() {
    let arena = arena(1152);
    let (mut initiator, request) =
        ChannelVector::new(&two_channels(), 10, &vec![11], &arena, CLS).unwrap();
    let mut acceptor =
        ChannelVector::from_request(request.msg(), &memfd(20), &vec![eventfd(21)], &arena, CLS)
            .unwrap();
    let mut producer: Producer<u64> = acceptor.take_producer(0).unwrap();
    let mut consumer: Consumer<u64> = initiator.take_consumer(0).unwrap();
    // Nothing to take: the first round ends the flush.
    let round = consumer.flush_round(false, None);
    assert_eq!((round.result, round.again), (ConsumeResult::NoMessage, false));
    for value in 1..=3u32 {
        assert_eq!(producer.write(&[value]), Ok(()));
        assert_eq!(producer.force_push(), ProduceForceResult::Success);
    }
    let round = consumer.flush_round(true, None);
    assert_eq!((round.result, round.again), (ConsumeResult::SuccessMessagesDiscarded, true));
    assert_eq!(consumer.read(1), Some(vec![1]));
    let round = consumer.flush_round(true, Some(round.result));
    assert_eq!((round.result, round.again), (ConsumeResult::Success, true));
    let round = consumer.flush_round(true, Some(round.result));
    assert_eq!((round.result, round.again), (ConsumeResult::Success, true));
    assert_eq!(consumer.read(1), Some(vec![3]));
    // The descriptor is used up: the flush ends with what it came to.
    let round = consumer.flush_round(false, Some(round.result));
    assert_eq!((round.result, round.again), (ConsumeResult::Success, false));
    // Signalled, but nothing new.
    let round = consumer.flush_round(true, Some(ConsumeResult::SuccessMessagesDiscarded));
    assert_eq!((round.result, round.again), (ConsumeResult::SuccessMessagesDiscarded, false));
    let round = consumer.flush_round(true, None);
    assert_eq!((round.result, round.again), (ConsumeResult::NoNewMessage, false));
    // A value that names no slot ends the flush with the error.
    arena[64].store(99, Ordering::SeqCst);
    let round = consumer.flush_round(true, Some(ConsumeResult::Success));
    assert_eq!((round.result, round.again), (ConsumeResult::QueueError, false));
}

/// A channel without a wake-up descriptor flushes its queue in one round.
#[test]
fn flush_round_without_wakeup() {
    let arena = arena(1152);
    let (mut initiator, request) =
        ChannelVector::new(&two_channels(), 10, &vec![11], &arena, CLS).unwrap();
    let mut acceptor =
        ChannelVector::from_request(request.msg(), &memfd(20), &vec![eventfd(21)], &arena, CLS)
            .unwrap();
    let mut producer: Producer<u64> = initiator.take_producer(0).unwrap();
    let mut consumer: Consumer<u64> = acceptor.take_consumer(0).unwrap();
    let round = consumer.flush_round(false, None);
    assert_eq!((round.result, round.again), (ConsumeResult::NoMessage, false));
    assert_eq!(producer.force_push_staged(&[1, 0]), Ok(ProduceForceResult::Success));
    assert_eq!(producer.force_push_staged(&[2, 0]), Ok(ProduceForceResult::Success));
    let round = consumer.flush_round(false, Some(ConsumeResult::NoMessage));
    assert_eq!((round.result, round.again), (ConsumeResult::Success, false));
    assert_eq!(consumer.read(2), Some(vec![2, 0]));
}

#[test]
fn a_consumer_waits_for_its_wakeup() {
    let arena = arena(1152);
    let (mut initiator, request) =
        ChannelVector::new(&two_channels(), 10, &vec![11], &arena, CLS).unwrap();
    let mut acceptor =
        ChannelVector::from_request(request.msg(), &memfd(20), &vec![eventfd(21)], &arena, CLS)
            .unwrap();
    let mut producer: Producer<u64> = acceptor.take_producer(0).unwrap();
    let mut consumer: Consumer<u64> = initiator.take_consumer(0).unwrap();
    assert_eq!(consumer.pop(false), ConsumeResult::NoMessage);
    let result = producer.force_push();
    assert_eq!(producer.wakeup_after_force(result), Some(21));
    // Not signalled: the queue is left alone.
    assert_eq!(consumer.pop(false), ConsumeResult::NoMessage);
    assert_eq!(consumer.msg(), None);
    assert_eq!(consumer.pop(true), ConsumeResult::SuccessMessagesDiscarded);
    assert_eq!(consumer.pop(false), ConsumeResult::NoNewMessage);
    assert_eq!(consumer.pop(true), ConsumeResult::NoNewMessage);
    producer.force_push();
    producer.force_push();
    assert_eq!(consumer.flush(), ConsumeResult::Success);
    assert_eq!(consumer.pop(true), ConsumeResult::NoNewMessage);
}

#[test]
fn wakeups_follow_publications() {
    let arena = arena(1152);
    let with_wakeup = VectorParam {
        producers: vec![ChannelParam::new(0, 8, true, Vec::new())],
        consumers: Vec::new(),
        info: Vec::new(),
    };
    let (mut vector, _) = ChannelVector::new(&with_wakeup, 10, &vec![11], &arena, CLS).unwrap();
    let mut producer: Producer<u64> = vector.take_producer(0).unwrap();
    assert_eq!(producer.wakeup_after_force(ProduceForceResult::Success), Some(11));
    assert_eq!(producer.wakeup_after_force(ProduceForceResult::SuccessMessageDiscarded), Some(11));
    assert_eq!(producer.wakeup_after_force(ProduceForceResult::QueueError), None);
    assert_eq!(producer.wakeup_after_try(ProduceTryResult::Success), Some(11));
    assert_eq!(producer.wakeup_after_try(ProduceTryResult::QueueFull), None);
    assert_eq!(producer.wakeup_after_try(ProduceTryResult::QueueError), None);
    assert!(!producer.full());
    assert_eq!(producer.try_push(), ProduceTryResult::Success);
    assert_eq!(producer.try_push(), ProduceTryResult::Success);
    assert!(producer.full());
    assert_eq!(producer.try_push(), ProduceTryResult::QueueFull);
}

#[test]
fn resources_of_the_initiator() {
    let vparam = VectorParam {
        producers: vec![
            ChannelParam::new(0, 8, true, Vec::new()),
            ChannelParam::new(0, 8, false, Vec::new()),
            ChannelParam::new(0, 8, true, vec![7]),
        ],
        consumers: vec![ChannelParam::new(0, 8, true, Vec::new())],
        info: vec![4],
    };
    assert_eq!(VectorResource::count_eventfds(&vparam), Some(3));
    let resource = VectorResource::allocate(&vparam, 3, &vec![30, 31, 32, 33]).unwrap();
    assert!(resource.owner);
    assert_eq!(resource.shmfd, 3);
    assert_eq!(resource.producers[0].eventfd, Some(30));
    assert_eq!(resource.producers[1].eventfd, None);
    assert_eq!(resource.producers[2].eventfd, Some(31));
    assert_eq!(resource.consumers[0].eventfd, Some(32));
    assert_eq!(resource.collect_fds(), vec![3, 30, 31, 32]);
    assert_eq!(resource.info(), &vec![4]);
    assert_eq!(resource.producer_info(2), Some(&vec![7]));
    assert_eq!(resource.producer_info(3), None);
    assert_eq!(resource.consumer_info(0), Some(&Vec::new()));
    assert_eq!(resource.consumer_info(1), None);
    assert!(matches!(
        VectorResource::allocate(&vparam, 3, &vec![30, 31]),
        Err(RtipcError::MissingDescriptor)
    ));
}

#[test]
fn resources_of_the_acceptor() {
    let vparam = VectorParam {
        producers: vec![
            ChannelParam::new(0, 8, true, Vec::new()),
            ChannelParam::new(0, 8, false, Vec::new()),
        ],
        consumers: vec![ChannelParam::new(1, 16, true, vec![5])],
        info: vec![4],
    };
    let fds = vec![eventfd(40), eventfd(41), eventfd(42)];
    let resource = VectorResource::new(&vparam, &memfd(9), &fds).unwrap();
    assert!(!resource.owner);
    assert_eq!(resource.shmfd, 9);
    assert_eq!(resource.consumers.len(), 2);
    assert_eq!(resource.consumers[0].eventfd, Some(40));
    assert_eq!(resource.consumers[0].config.message_size, 8);
    assert_eq!(resource.consumers[1].eventfd, None);
    assert_eq!(resource.producers.len(), 1);
    assert_eq!(resource.producers[0].eventfd, Some(41));
    assert_eq!(resource.producers[0].config.message_size, 16);
    assert_eq!(resource.producers[0].config.additional_messages, 1);
    assert_eq!(resource.producer_info(0), Some(&vec![5]));
    // The first descriptor that is missing or of the wrong kind decides.
    assert!(matches!(
        VectorResource::new(&vparam, &memfd(9), &vec![eventfd(40)]),
        Err(RtipcError::MissingDescriptor)
    ));
    assert!(matches!(
        VectorResource::new(&vparam, &memfd(9), &vec![memfd(40)]),
        Err(RtipcError::InvalidResource)
    ));
    assert!(matches!(
        VectorResource::new(&vparam, &memfd(9), &vec![eventfd(40), memfd(41)]),
        Err(RtipcError::InvalidResource)
    ));
    assert!(matches!(
        VectorResource::new(&vparam, &eventfd(9), &Vec::new()),
        Err(RtipcError::InvalidResource)
    ));
}

#[test]
fn acceptor_reads_the_request_first() {
    let msg = create_request_message(&two_channels(), CLS);
    let resource = VectorResource::from_request(&msg, &memfd(9), &vec![eventfd(40)], CLS).unwrap();
    assert!(!resource.owner);
    assert_eq!(resource.consumers.len(), 1);
    assert_eq!(resource.consumers[0].eventfd, None);
    assert_eq!(resource.producers[0].eventfd, Some(40));
    assert_eq!(resource.info(), &vec![9, 9]);
    // A request that cannot be read is refused whatever the descriptors.
    assert!(matches!(
        VectorResource::from_request(&msg[..10], &eventfd(9), &Vec::new(), CLS),
        Err(RtipcError::Message(MessageError::Size))
    ));
    assert!(matches!(
        VectorResource::from_request(&msg, &memfd(9), &vec![eventfd(40)], 128),
        Err(RtipcError::Message(MessageError::CachelineSize))
    ));
    assert!(matches!(
        VectorResource::from_request(&msg, &eventfd(9), &vec![eventfd(40)], CLS),
        Err(RtipcError::InvalidResource)
    ));
    assert!(matches!(
        VectorResource::from_request(&msg, &memfd(9), &Vec::new(), CLS),
        Err(RtipcError::MissingDescriptor)
    ));
}

#[test]
fn resources_grow() {
    let vparam = VectorParam { producers: Vec::new(), consumers: Vec::new(), info: Vec::new() };
    assert!(matches!(
        VectorResource::allocate(&vparam, 3, &Vec::new()),
        Err(RtipcError::Argument)
    ));
    let mut resource = VectorResource::new(&vparam, &memfd(9), &Vec::new()).unwrap();
    let config = ChannelParam::new(2, 32, true, vec![1]);
    assert!(resource.add_consumer(&config, Some(&eventfd(50))).is_ok());
    assert!(resource.add_producer(&config, None).is_ok());
    assert!(matches!(
        resource.add_producer(&config, Some(&memfd(51))),
        Err(RtipcError::InvalidResource)
    ));
    assert_eq!(resource.consumers.len(), 1);
    assert_eq!(resource.producers.len(), 1);
    assert_eq!(resource.consumers[0].eventfd, Some(50));
    assert_eq!(resource.producers[0].eventfd, None);
    assert_eq!(resource.collect_fds(), vec![9, 50]);
    let channel = ChannelResource::new(&config, Some(&eventfd(60))).unwrap();
    assert_eq!(channel.eventfd, Some(60));
    assert_eq!(channel.config.info, vec![1]);
}

#[test]
fn request_descriptors_are_taken_once() {
    let mut request = Request::new(vec![1, 2, 3], vec![4, 5, -1, 0]);
    assert_eq!(request.msg(), &vec![1, 2, 3]);
    assert_eq!(request.take_fd(1), Some(5));
    assert_eq!(request.take_fd(1), None);
    assert_eq!(request.take_fd(2), None);
    assert_eq!(request.take_fd(4), None);
    assert_eq!(request.fds(), &vec![4, -1, -1, 0]);
    assert_eq!(request.take_fds(), vec![4, 0]);
    assert_eq!(request.fds(), &Vec::<i32>::new());
    assert_eq!(request.take_fd(0), None);
}

#[test]
fn request_holds_a_limited_number_of_descriptors() {
    let mut request = Request::new(Vec::new(), Vec::new());
    for fd in 0..253 {
        assert!(request.add_fd(fd).is_ok());
    }
    assert!(matches!(request.add_fd(253), Err(RtipcError::Argument)));
    assert_eq!(request.fds().len(), 253);
    assert_eq!(request.fds()[252], 252);
}

#[test]
fn errors_convert() {
    assert_eq!(MessageError::from(ShmError::Alignment), MessageError::Size);
    assert_eq!(MessageError::from(ShmError::Size), MessageError::Size);
    assert!(matches!(RtipcError::from(ShmError::Alignment), RtipcError::Shm(ShmError::Alignment)));
    assert!(matches!(
        RtipcError::from(MessageError::Cookie),
        RtipcError::Message(MessageError::Cookie)
    ));
    assert!(matches!(RtipcError::from(Errno::EINTR), RtipcError::Errno(Errno::EINTR)));
    assert!(matches!(RtipcError::from(Errno::EBADF), RtipcError::Errno(Errno::EBADF)));
}
