use rtipc::cacheline_aligned;
use rtipc::calc_shm_size;
use rtipc::layout::checked_mem_align;
use rtipc::mem_align;
use rtipc::param::checked_calc_shm_size;
use rtipc::shm::SharedMemory;
use rtipc::shm::Span;
use rtipc::ChannelParam;
use rtipc::ShmError;

fn param(additional_messages: usize, message_size: usize) -> ChannelParam {
    ChannelParam::new(additional_messages, message_size, false, Vec::new())
}

#[test]
fn mem_align_rounds_up() {
    assert_eq!(mem_align(0, 64), 0);
    assert_eq!(mem_align(1, 64), 64);
    assert_eq!(mem_align(63, 64), 64);
    assert_eq!(mem_align(64, 64), 64);
    assert_eq!(mem_align(65, 64), 128);
    assert_eq!(mem_align(20, 8), 24);
    assert_eq!(mem_align(7, 1), 7);
}

#[test]
fn cacheline_aligned_rounds_up() {
    assert_eq!(cacheline_aligned(8, 64), 64);
    assert_eq!(cacheline_aligned(60, 64), 64);
    assert_eq!(cacheline_aligned(129, 128), 256);
}

#[test]
fn checked_mem_align_sees_overflow() {
    assert_eq!(checked_mem_align(65, 64), Some(128));
    assert_eq!(checked_mem_align(usize::MAX, 64), None);
    assert_eq!(checked_mem_align(usize::MAX - 63, 64), Some(usize::MAX - 63));
    assert_eq!(checked_mem_align(usize::MAX - 62, 64), None);
}

#[test]
fn channel_sizes() {
    let small = param(0, 8);
    assert_eq!(small.data_size(64), 3 * 64);
    assert_eq!(small.queue_size(64), 64);
    assert_eq!(small.shm_size(64), 256);
    let large = param(10, 16);
    assert_eq!(large.data_size(64), 13 * 64);
    assert_eq!(large.queue_size(64), 64);
    assert_eq!(large.shm_size(64), 896);
    let wide = param(13, 100);
    // Eighteen cells take 72 bytes, two cache lines.
    assert_eq!(wide.queue_size(64), 128);
    assert_eq!(wide.data_size(64), 16 * 128);
    assert_eq!(wide.checked_shm_size(64), Some(128 + 16 * 128));
}

#[test]
fn checked_shm_size_refuses() {
    assert_eq!(param(0, 0).checked_shm_size(64), None);
    assert_eq!(param(usize::MAX, 8).checked_shm_size(64), None);
    assert_eq!(param(0, usize::MAX).checked_shm_size(64), None);
    assert_eq!(param(usize::MAX / 64, 8).checked_shm_size(64), None);
}

/// One channel of message size 8 without additional messages and one of
/// message size 16 with ten: three and thirteen padded slots and two index
/// regions.
#[test]
fn arena_size_of_two_channels() {
    let producers = vec![param(0, 8)];
    let consumers = vec![param(10, 16)];
    assert_eq!(calc_shm_size(&producers, &consumers, 64), 3 * 64 + 64 + 13 * 64 + 64);
    assert_eq!(checked_calc_shm_size(&producers, &consumers, 64), Some(1152));
    assert_eq!(calc_shm_size(&producers, &consumers, 128), 3 * 128 + 128 + 13 * 128 + 128);
    assert_eq!(calc_shm_size(&[], &[], 64), 0);
    assert_eq!(checked_calc_shm_size(&[], &[], 64), Some(0));
}

#[test]
fn checked_calc_shm_size_refuses() {
    let good = vec![param(0, 8)];
    let zero = vec![param(0, 0)];
    assert_eq!(checked_calc_shm_size(&good, &zero, 64), None);
    assert_eq!(checked_calc_shm_size(&zero, &good, 64), None);
    assert_eq!(checked_calc_shm_size(&good, &[], 64), Some(256));
    let big = vec![param(usize::MAX / 256, 64), param(usize::MAX / 256, 64)];
    assert!(big[0].checked_shm_size(64).is_some());
    assert_eq!(checked_calc_shm_size(&big, &big, 64), None);
}

#[test]
fn span_end() {
    assert_eq!(Span { offset: 16, size: 48 }.end(), 64);
    assert_eq!(Span { offset: 0, size: 1 }.end(), 1);
}

#[test]
fn arena_hands_out_no_byte_twice() {
    assert!(matches!(SharedMemory::new(0), Err(ShmError::Size)));
    let mut arena = SharedMemory::new(1024).unwrap();
    assert_eq!(arena.size(), 1024);
    let first = arena.alloc_chunk(512, 256).unwrap();
    assert_eq!(first.offset(), 512);
    assert_eq!(first.size(), 256);
    // The same range, and every range that shares a byte with it.
    assert!(matches!(arena.alloc_chunk(512, 256), Err(ShmError::Size)));
    assert!(matches!(arena.alloc_chunk(511, 2), Err(ShmError::Size)));
    assert!(matches!(arena.alloc_chunk(767, 1), Err(ShmError::Size)));
    assert!(matches!(arena.alloc_chunk(600, 8), Err(ShmError::Size)));
    assert!(matches!(arena.alloc_chunk(0, 1024), Err(ShmError::Size)));
    // Empty ranges and ranges beyond the arena.
    assert!(matches!(arena.alloc_chunk(0, 0), Err(ShmError::Size)));
    assert!(matches!(arena.alloc_chunk(768, 257), Err(ShmError::Size)));
    assert!(matches!(arena.alloc_chunk(1024, 1), Err(ShmError::Size)));
    assert!(matches!(arena.alloc_chunk(2000, 8), Err(ShmError::Size)));
    assert!(matches!(arena.alloc_chunk(usize::MAX, 2), Err(ShmError::Size)));
    // A range in front of an earlier chunk that shares no byte with it.
    let second = arena.alloc_chunk(0, 512).unwrap();
    assert_eq!(second.offset(), 0);
    assert_eq!(second.size(), 512);
    let third = arena.alloc_chunk(768, 256).unwrap();
    assert_eq!(third.offset(), 768);
    // Now every byte is handed out.
    assert!(matches!(arena.alloc_chunk(0, 1), Err(ShmError::Size)));
    assert!(matches!(arena.alloc_chunk(1023, 1), Err(ShmError::Size)));
}

#[test]
fn chunk_checks_its_bounds() {
    let mut arena = SharedMemory::new(1024).unwrap();
    let chunk = arena.alloc_chunk(128, 256).unwrap();
    assert_eq!(chunk.get_ptr(0, 4), Ok(128));
    assert_eq!(chunk.get_ptr(252, 4), Ok(380));
    assert_eq!(chunk.get_ptr(253, 4), Err(ShmError::Size));
    assert_eq!(chunk.get_ptr(16, 0), Err(ShmError::Size));
    assert_eq!(chunk.get_span_ptr(&Span { offset: 64, size: 192 }), Ok(192));
    assert_eq!(chunk.get_span_ptr(&Span { offset: 64, size: 193 }), Err(ShmError::Size));
    assert_eq!(chunk.get_span_ptr(&Span { offset: usize::MAX, size: 2 }), Err(ShmError::Size));
}
