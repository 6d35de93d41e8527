//! Channels, and the vector of channels that a handshake yields.
//!
//! A channel is one end of a queue together with its metadata and its
//! wake-up descriptor. A channel vector holds the producer and consumer
//! channels of one side, each of which can be taken once.
use vstd::prelude::*;
use vstd::layout::size_of;
use vstd::slice::slice_subrange;
use core::marker::PhantomData;
use std::sync::atomic::AtomicU32;
use crate::cells::CellOp;
use crate::cells::Queue;
use crate::cells::MAX_SLOTS;
use crate::consumer::ConsumerQueue;
use crate::consumer::ConsumerState;
use crate::consumer::FlushView;
use crate::consumer::PopView;
use crate::consumer::FLUSH_ATTEMPTS;
use crate::error::MessageError;
use crate::param::VectorConfig;
use crate::param::VectorParam;
use crate::producer::PushView;
use crate::producer::message_stores;
use crate::consumer::message_loads;
use crate::protocol::create_request_message;
use crate::protocol::encode;
use crate::protocol::parse;
use crate::queue::ConsumeResult;
use crate::queue::ProduceForceResult;
use crate::queue::ProduceTryResult;
use crate::request::Request;
use crate::resource::assigned;
use crate::resource::numbers;
use crate::resource::wakeup_error;
use crate::resource::wakeups;
use crate::resource::lemma_collect_in_order;
use crate::param::checked_calc_shm_size;
use crate::protocol::lemma_round_trip;
use crate::protocol::wire_valid;
use crate::unix::has_prefix;
use crate::unix::memfd_link;
use crate::unix::Descriptor;
use crate::error::RtipcError;
use crate::error::ShmError;
use crate::layout::INDEX_SIZE;
use crate::param::all_wf;
use crate::param::lemma_total_aligned;
use crate::param::lemma_total_shm_size_prefix;
use crate::param::total_shm_size;
use crate::param::ChannelConfig;
use crate::param::ChannelParam;
use crate::producer::ProducerQueue;
use crate::producer::ProducerState;
use crate::resource::slots_of;
use crate::resource::ChannelResource;
use crate::resource::ChannelSlot;
use crate::resource::VectorResource;
use crate::shm::Chunk;
use crate::shm::SharedMemory;

verus! {

/// The producer end of a queue with its metadata and wake-up descriptor.
pub struct ProducerChannel<'a> {
    queue: ProducerQueue<'a>,
    info: Vec<u8>,
    eventfd: Option<i32>,
}

/// The consumer end of a queue with its metadata and wake-up descriptor.
pub struct ConsumerChannel<'a> {
    queue: ConsumerQueue<'a>,
    info: Vec<u8>,
    eventfd: Option<i32>,
}

/// The cells of the arena that hold the queue of `config` that starts at
/// arena offset `start`.
pub open spec fn queue_cells(
    arena: Seq<AtomicU32>,
    config: ChannelConfig,
    start: int,
    cls: int,
) -> Seq<AtomicU32> {
    arena.subrange(start / 4, start / 4 + config.shm_size(cls) / 4)
}

impl<'a> ProducerChannel<'a> {
    /// The producer end of the queue.
    pub closed spec fn queue(&self) -> ProducerQueue<'a> {
        self.queue
    }

    /// Bytes of a message, as the channel was declared with.
    pub closed spec fn declared(&self) -> nat {
        self.queue.shape().message_size
    }

    /// The channel's metadata.
    pub closed spec fn info_bytes(&self) -> Seq<u8> {
        self.info@
    }

    /// The channel's wake-up descriptor.
    pub closed spec fn wakeup(&self) -> Option<i32> {
        self.eventfd
    }

    /// The channel is laid over arena offset `start` for `slot` and new.
    /// Where its side owns the arena it has made the queue new and empty in
    /// the shared cells; else it has touched no shared cell.
    pub open spec fn mapped(
        &self,
        slot: ChannelSlot,
        arena: Seq<AtomicU32>,
        start: int,
        cls: int,
        owner: bool,
    ) -> bool {
        &&& self.queue().wf()
        &&& self.queue()@ == ProducerState::initial(slot.config.slots() as nat)
        &&& self.queue().shape() == Queue::shape_for(slot.config, start, cls)
        &&& self.queue().cells()@ == queue_cells(arena, slot.config, start, cls)
        &&& self.queue().trace() == (if owner {
            Queue::init_ops(slot.config.slots() as nat)
        } else {
            Seq::empty()
        })
        &&& self.declared() == slot.config.message_size
        &&& self.info_bytes() == slot.config.info
        &&& self.wakeup() == slot.eventfd
    }

    /// A producer channel over `chunk` with `cells` as the words of the
    /// chunk.
    ///
    /// Fails as `ProducerQueue::new` does.
    pub fn new(
        param: &ChannelParam,
        cells: &'a [AtomicU32],
        chunk: Chunk,
        eventfd: Option<i32>,
        cls: usize,
    ) -> (r: Result<Self, ShmError>)
        requires
            cls > 0,
            chunk.wf(),
        ensures
            r.is_ok() <==> Queue::placed(cells, chunk, param, cls),
            r matches Ok(channel) ==> {
                &&& channel.queue().wf()
                &&& channel.queue().cells() == cells
                &&& channel.queue()@ == ProducerState::initial(param@.slots() as nat)
                &&& channel.queue().shape() == Queue::shape_for(param@, chunk.start(), cls as int)
                &&& channel.queue().trace() == Seq::<CellOp>::empty()
                &&& channel.declared() == param@.message_size
                &&& channel.info_bytes() == param@.info
                &&& channel.wakeup() == eventfd
            },
            r matches Err(e) ==> e == (if Queue::fits(cells, chunk, param, cls) {
                ShmError::Alignment
            } else {
                ShmError::Size
            }),
    {
        let queue = match ProducerQueue::new(cells, chunk, param, cls) {
            Ok(q) => q,
            Err(e) => { return Err(e); },
        };
        let info = param.info.clone();
        assert(info@ =~= param.info@);
        Ok(ProducerChannel { queue, info, eventfd })
    }

    /// Makes the queue new and empty in the shared cells.
    pub fn init(&mut self)
        requires
            old(self).queue().wf(),
        ensures
            final(self).queue().wf(),
            final(self).queue().shape() == old(self).queue().shape(),
            final(self).queue().cells() == old(self).queue().cells(),
            final(self).queue()@ == old(self).queue()@,
            final(self).queue().trace() == old(self).queue().trace() + Queue::init_ops(
                old(self).queue().shape().slots,
            ),
            final(self).declared() == old(self).declared(),
            final(self).info_bytes() == old(self).info_bytes(),
            final(self).wakeup() == old(self).wakeup(),
    {
        self.queue.init();
    }

    /// Bytes of a message, as the channel was declared with.
    pub fn msg_size(&self) -> (r: usize)
        ensures
            r == self.declared(),
    {
        self.queue.message_size()
    }

    /// The channel's metadata.
    pub fn info(&self) -> (r: &Vec<u8>)
        ensures
            r@ == self.info_bytes(),
    {
        &self.info
    }
}

impl<'a> ConsumerChannel<'a> {
    /// The consumer end of the queue.
    pub closed spec fn queue(&self) -> ConsumerQueue<'a> {
        self.queue
    }

    /// Bytes of a message, as the channel was declared with.
    pub closed spec fn declared(&self) -> nat {
        self.queue.shape().message_size
    }

    /// The channel's metadata.
    pub closed spec fn info_bytes(&self) -> Seq<u8> {
        self.info@
    }

    /// The channel's wake-up descriptor.
    pub closed spec fn wakeup(&self) -> Option<i32> {
        self.eventfd
    }

    /// The channel is laid over arena offset `start` for `slot` and new.
    /// Where its side owns the arena it has made the queue new and empty in
    /// the shared cells; else it has touched no shared cell.
    pub open spec fn mapped(
        &self,
        slot: ChannelSlot,
        arena: Seq<AtomicU32>,
        start: int,
        cls: int,
        owner: bool,
    ) -> bool {
        &&& self.queue().wf()
        &&& self.queue()@ == ConsumerState::initial()
        &&& self.queue().shape() == Queue::shape_for(slot.config, start, cls)
        &&& self.queue().cells()@ == queue_cells(arena, slot.config, start, cls)
        &&& self.queue().trace() == (if owner {
            Queue::init_ops(slot.config.slots() as nat)
        } else {
            Seq::empty()
        })
        &&& self.declared() == slot.config.message_size
        &&& self.info_bytes() == slot.config.info
        &&& self.wakeup() == slot.eventfd
    }

    /// A consumer channel over `chunk` with `cells` as the words of the
    /// chunk.
    ///
    /// Fails as `ConsumerQueue::new` does.
    pub fn new(
        param: &ChannelParam,
        cells: &'a [AtomicU32],
        chunk: Chunk,
        eventfd: Option<i32>,
        cls: usize,
    ) -> (r: Result<Self, ShmError>)
        requires
            cls > 0,
            chunk.wf(),
        ensures
            r.is_ok() <==> Queue::placed(cells, chunk, param, cls),
            r matches Ok(channel) ==> {
                &&& channel.queue().wf()
                &&& channel.queue().cells() == cells
                &&& channel.queue()@ == ConsumerState::initial()
                &&& channel.queue().shape() == Queue::shape_for(param@, chunk.start(), cls as int)
                &&& channel.queue().trace() == Seq::<CellOp>::empty()
                &&& channel.declared() == param@.message_size
                &&& channel.info_bytes() == param@.info
                &&& channel.wakeup() == eventfd
            },
            r matches Err(e) ==> e == (if Queue::fits(cells, chunk, param, cls) {
                ShmError::Alignment
            } else {
                ShmError::Size
            }),
    {
        let queue = match ConsumerQueue::new(cells, chunk, param, cls) {
            Ok(q) => q,
            Err(e) => { return Err(e); },
        };
        let info = param.info.clone();
        assert(info@ =~= param.info@);
        Ok(ConsumerChannel { queue, info, eventfd })
    }

    /// Makes the queue new and empty in the shared cells.
    pub fn init(&mut self)
        requires
            old(self).queue().wf(),
        ensures
            final(self).queue().wf(),
            final(self).queue().shape() == old(self).queue().shape(),
            final(self).queue().cells() == old(self).queue().cells(),
            final(self).queue()@ == old(self).queue()@,
            final(self).queue().trace() == old(self).queue().trace() + Queue::init_ops(
                old(self).queue().shape().slots,
            ),
            final(self).declared() == old(self).declared(),
            final(self).info_bytes() == old(self).info_bytes(),
            final(self).wakeup() == old(self).wakeup(),
    {
        self.queue.init();
    }

    /// Bytes of a message, as the channel was declared with.
    pub fn msg_size(&self) -> (r: usize)
        ensures
            r == self.declared(),
    {
        self.queue.message_size()
    }

    /// The channel's metadata.
    pub fn info(&self) -> (r: &Vec<u8>)
        ensures
            r@ == self.info_bytes(),
    {
        &self.info
    }
}

/// The first `upto` queues of `order` are valid, none has more slots than
/// `MAX_SLOTS`, and laid out back to back they fit an arena of `cells`
/// index cells.
pub open spec fn fits_upto(order: Seq<ChannelConfig>, upto: int, cells: nat, cls: int) -> bool {
    &&& all_wf(order.take(upto))
    &&& forall|i: int| 0 <= i < upto ==> (#[trigger] order[i]).slots() <= MAX_SLOTS
    &&& total_shm_size(order.take(upto), cls) <= cells * 4
}

/// Arena offset of queue `i` of `order`: behind the queues before it.
pub open spec fn chunk_start(order: Seq<ChannelConfig>, i: int, cls: int) -> int {
    total_shm_size(order.take(i), cls)
}

proof fn lemma_fits_prefix(order: Seq<ChannelConfig>, shorter: int, upto: int, cells: nat, cls: int)
    requires
        cls > 0,
        0 <= shorter <= upto <= order.len(),
        fits_upto(order, upto, cells, cls),
    ensures
        fits_upto(order, shorter, cells, cls),
{
    let long = order.take(upto);
    assert(long.take(shorter) =~= order.take(shorter));
    assert forall|i: int| 0 <= i < shorter implies (#[trigger] order.take(shorter)[i]).wf() by {
        assert(long[i].wf());
    }
    lemma_total_shm_size_prefix(long, shorter, cls);
}

proof fn lemma_fits_step(order: Seq<ChannelConfig>, at: int, cells: nat, cls: int)
    requires
        cls > 0,
        0 <= at < order.len(),
        all_wf(order.take(at)),
    ensures
        order.take(at + 1).drop_last() == order.take(at),
        order.take(at + 1).last() == order[at],
        total_shm_size(order.take(at + 1), cls) == total_shm_size(order.take(at), cls)
            + order[at].shm_size(cls),
        order[at].wf() ==> all_wf(order.take(at + 1)),
        !order[at].wf() ==> !all_wf(order.take(at + 1)),
        total_shm_size(order.take(at), cls) >= 0,
        total_shm_size(order.take(at), cls) % cls == 0,
{
    assert(order.take(at + 1).drop_last() =~= order.take(at));
    crate::param::lemma_total_nonnegative(order.take(at), cls);
    lemma_total_aligned(order.take(at), cls);
    if order[at].wf() {
        assert forall|i: int| 0 <= i < at + 1 implies (#[trigger] order.take(at + 1)[i]).wf() by {
            if i < at {
                assert(order.take(at)[i].wf());
            }
        }
    } else {
        assert(order.take(at + 1)[at] == order[at]);
    }
}

/// Lays the producers `channels`, which are the queues `first..` of
/// `order`, over the arena.
fn map_producers<'a>(
    order: Ghost<Seq<ChannelConfig>>,
    channels: &Vec<ChannelResource>,
    first: usize,
    arena: &'a [AtomicU32],
    shm: &mut SharedMemory,
    offset: &mut usize,
    cls: usize,
    owner: bool,
) -> (r: Result<Vec<Option<ProducerChannel<'a>>>, ShmError>)
    requires
        cls > 0,
        cls % INDEX_SIZE == 0,
        old(shm).wf(),
        old(shm).len() == arena@.len() * 4,
        old(shm).below(*old(offset) as int),
        *old(offset) == chunk_start(order@, first as int, cls as int),
        first + channels@.len() <= order@.len(),
        forall|i: int| 0 <= i < channels@.len() ==> order@[first + i] == (#[trigger] channels@[i])@.config,
        fits_upto(order@, first as int, arena@.len(), cls as int),
    ensures
        final(shm).wf(),
        final(shm).len() == old(shm).len(),
        r.is_ok() <==> fits_upto(order@, first + channels@.len(), arena@.len(), cls as int),
        r matches Ok(list) ==> {
            &&& list@.len() == channels@.len()
            &&& forall|i: int|
                0 <= i < list@.len() ==> (#[trigger] list@[i]).is_some() && list@[i].unwrap().mapped(
                    channels@[i]@,
                    arena@,
                    chunk_start(order@, first + i, cls as int),
                    cls as int,
                    owner,
                )
            &&& *final(offset) == chunk_start(order@, first + channels@.len(), cls as int)
            &&& final(shm).below(*final(offset) as int)
        },
        r matches Err(e) ==> e == ShmError::Size,
{
    let mut list: Vec<Option<ProducerChannel<'a>>> = Vec::with_capacity(channels.len());
    let mut i: usize = 0;
    let ghost end = first + channels@.len();
    while i < channels.len()
        invariant
            cls > 0,
            cls % INDEX_SIZE == 0,
            0 <= i <= channels@.len(),
            end == first + channels@.len(),
            end <= order@.len(),
            shm.wf(),
            shm.len() == old(shm).len(),
            shm.len() == arena@.len() * 4,
            shm.below(*offset as int),
            *offset == chunk_start(order@, first + i, cls as int),
            forall|k: int|
                0 <= k < channels@.len() ==> order@[first + k] == (#[trigger] channels@[k])@.config,
            fits_upto(order@, first + i, arena@.len(), cls as int),
            list@.len() == i,
            forall|k: int|
                0 <= k < i ==> (#[trigger] list@[k]).is_some() && list@[k].unwrap().mapped(
                    channels@[k]@,
                    arena@,
                    chunk_start(order@, first + k, cls as int),
                    cls as int,
                    owner,
                ),
        decreases channels@.len() - i,
    {
        let ghost at = first + i;
        let config = &channels[i].config;
        let eventfd = channels[i].eventfd;
        let arena_bytes: usize = shm.size();
        proof {
            assert(order@[at] == channels@[i as int]@.config);
            lemma_fits_step(order@, at, arena@.len(), cls as int);
            if fits_upto(order@, end, arena@.len(), cls as int) {
                lemma_fits_prefix(order@, at + 1, end, arena@.len(), cls as int);
            }
            if config@.wf() {
                config@.lemma_sizes_positive(cls as int);
            }
            config@.lemma_shm_size_aligned(cls as int);
            crate::cells::lemma_multiple_of_four(config@.shm_size(cls as int), cls as int);
            crate::cells::lemma_multiple_of_four(
                chunk_start(order@, at, cls as int),
                cls as int,
            );
        }
        let size: usize = match config.checked_shm_size(cls) {
            Some(s) => s,
            None => { return Err(ShmError::Size); },
        };
        let chunk = match shm.alloc_chunk(*offset, size) {
            Ok(c) => c,
            Err(e) => { return Err(e); },
        };
        let from: usize = *offset / INDEX_SIZE;
        let count: usize = size / INDEX_SIZE;
        let cells = slice_subrange(arena, from, from + count);
        let mut channel = match ProducerChannel::new(config, cells, chunk, eventfd, cls) {
            Ok(c) => c,
            Err(e) => { return Err(ShmError::Size); },
        };
        if owner {
            channel.init();
        }
        proof {
            assert(channel.queue().trace() =~= (if owner {
                Queue::init_ops(config@.slots() as nat)
            } else {
                Seq::empty()
            }));
        }
        list.push(Some(channel));
        *offset = *offset + size;
        i = i + 1;
    }
    Ok(list)
}

/// Lays the consumers `channels`, which are the queues `first..` of
/// `order`, over the arena.
fn map_consumers<'a>(
    order: Ghost<Seq<ChannelConfig>>,
    channels: &Vec<ChannelResource>,
    first: usize,
    arena: &'a [AtomicU32],
    shm: &mut SharedMemory,
    offset: &mut usize,
    cls: usize,
    owner: bool,
) -> (r: Result<Vec<Option<ConsumerChannel<'a>>>, ShmError>)
    requires
        cls > 0,
        cls % INDEX_SIZE == 0,
        old(shm).wf(),
        old(shm).len() == arena@.len() * 4,
        old(shm).below(*old(offset) as int),
        *old(offset) == chunk_start(order@, first as int, cls as int),
        first + channels@.len() <= order@.len(),
        forall|i: int| 0 <= i < channels@.len() ==> order@[first + i] == (#[trigger] channels@[i])@.config,
        fits_upto(order@, first as int, arena@.len(), cls as int),
    ensures
        final(shm).wf(),
        final(shm).len() == old(shm).len(),
        r.is_ok() <==> fits_upto(order@, first + channels@.len(), arena@.len(), cls as int),
        r matches Ok(list) ==> {
            &&& list@.len() == channels@.len()
            &&& forall|i: int|
                0 <= i < list@.len() ==> (#[trigger] list@[i]).is_some() && list@[i].unwrap().mapped(
                    channels@[i]@,
                    arena@,
                    chunk_start(order@, first + i, cls as int),
                    cls as int,
                    owner,
                )
            &&& *final(offset) == chunk_start(order@, first + channels@.len(), cls as int)
            &&& final(shm).below(*final(offset) as int)
        },
        r matches Err(e) ==> e == ShmError::Size,
{
    let mut list: Vec<Option<ConsumerChannel<'a>>> = Vec::with_capacity(channels.len());
    let mut i: usize = 0;
    let ghost end = first + channels@.len();
    while i < channels.len()
        invariant
            cls > 0,
            cls % INDEX_SIZE == 0,
            0 <= i <= channels@.len(),
            end == first + channels@.len(),
            end <= order@.len(),
            shm.wf(),
            shm.len() == old(shm).len(),
            shm.len() == arena@.len() * 4,
            shm.below(*offset as int),
            *offset == chunk_start(order@, first + i, cls as int),
            forall|k: int|
                0 <= k < channels@.len() ==> order@[first + k] == (#[trigger] channels@[k])@.config,
            fits_upto(order@, first + i, arena@.len(), cls as int),
            list@.len() == i,
            forall|k: int|
                0 <= k < i ==> (#[trigger] list@[k]).is_some() && list@[k].unwrap().mapped(
                    channels@[k]@,
                    arena@,
                    chunk_start(order@, first + k, cls as int),
                    cls as int,
                    owner,
                ),
        decreases channels@.len() - i,
    {
        let ghost at = first + i;
        let config = &channels[i].config;
        let eventfd = channels[i].eventfd;
        let arena_bytes: usize = shm.size();
        proof {
            assert(order@[at] == channels@[i as int]@.config);
            lemma_fits_step(order@, at, arena@.len(), cls as int);
            if fits_upto(order@, end, arena@.len(), cls as int) {
                lemma_fits_prefix(order@, at + 1, end, arena@.len(), cls as int);
            }
            if config@.wf() {
                config@.lemma_sizes_positive(cls as int);
            }
            config@.lemma_shm_size_aligned(cls as int);
            crate::cells::lemma_multiple_of_four(config@.shm_size(cls as int), cls as int);
            crate::cells::lemma_multiple_of_four(
                chunk_start(order@, at, cls as int),
                cls as int,
            );
        }
        let size: usize = match config.checked_shm_size(cls) {
            Some(s) => s,
            None => { return Err(ShmError::Size); },
        };
        let chunk = match shm.alloc_chunk(*offset, size) {
            Ok(c) => c,
            Err(e) => { return Err(e); },
        };
        let from: usize = *offset / INDEX_SIZE;
        let count: usize = size / INDEX_SIZE;
        let cells = slice_subrange(arena, from, from + count);
        let mut channel = match ConsumerChannel::new(config, cells, chunk, eventfd, cls) {
            Ok(c) => c,
            Err(e) => { return Err(ShmError::Size); },
        };
        if owner {
            channel.init();
        }
        proof {
            assert(channel.queue().trace() =~= (if owner {
                Queue::init_ops(config@.slots() as nat)
            } else {
                Seq::empty()
            }));
        }
        list.push(Some(channel));
        *offset = *offset + size;
        i = i + 1;
    }
    Ok(list)
}

/// The channel at `index` is there and was not taken.
pub open spec fn available<X>(list: Seq<Option<X>>, index: int) -> bool {
    0 <= index < list.len() && list[index].is_some()
}

/// The list after the channel at `index` was taken.
pub open spec fn without<X>(list: Seq<Option<X>>, index: int) -> Seq<Option<X>> {
    if 0 <= index < list.len() {
        list.update(index, None)
    } else {
        list
    }
}

/// A channel is taken once: after it was taken it is not available, and
/// taking it again changes nothing.
pub proof fn lemma_taken_once<X>(list: Seq<Option<X>>, index: int)
    ensures
        !available(without(list, index), index),
        without(without(list, index), index) == without(list, index),
        forall|other: int|
            other != index ==> available(without(list, index), other) == available(list, other),
{
    if 0 <= index < list.len() {
        let once = list.update(index, None::<X>);
        assert(once.len() == list.len());
        assert(once.update(index, None::<X>) =~= once);
    }
}

/// The channels of a side in the order in which their queues lie in the
/// arena: the owner's producers come first, the other side's consumers.
pub open spec fn layout_order(resource: &VectorResource) -> Seq<ChannelConfig> {
    let producers = Seq::new(
        resource.producers@.len(),
        |i: int| resource.producers@[i]@.config,
    );
    let consumers = Seq::new(
        resource.consumers@.len(),
        |i: int| resource.consumers@[i]@.config,
    );
    if resource.owner {
        producers + consumers
    } else {
        consumers + producers
    }
}

/// The queues of the side fit an arena of `cells` index cells, for a cache
/// line size that is a multiple of the width of an index cell.
pub open spec fn mappable(resource: &VectorResource, cells: nat, cls: usize) -> bool {
    &&& cls > 0
    &&& cls % INDEX_SIZE == 0
    &&& 0 < cells
    &&& cells * 4 <= usize::MAX
    &&& fits_upto(
        layout_order(resource),
        layout_order(resource).len() as int,
        cells,
        cls as int,
    )
}

/// The channels of one side of a handshake.
pub struct ChannelVector<'a> {
    producers: Vec<Option<ProducerChannel<'a>>>,
    consumers: Vec<Option<ConsumerChannel<'a>>>,
    info: Vec<u8>,
}

/// A producer channel whose messages are values of `T`.
pub struct Producer<'a, T> {
    queue: ProducerQueue<'a>,
    eventfd: Option<i32>,
    _type: PhantomData<T>,
}

/// A consumer channel whose messages are values of `T`.
pub struct Consumer<'a, T> {
    queue: ConsumerQueue<'a>,
    eventfd: Option<i32>,
    _type: PhantomData<T>,
}

/// How one round of the flush of a channel ended.
pub struct FlushRound {
    /// What the flush has come to so far; the result of the flush where no
    /// further round is to be made.
    pub result: ConsumeResult,
    /// Whether another round is to be made.
    pub again: bool,
}

/// What a round comes to that popped with the result `last`, where the
/// rounds before it came to `before`.
///
/// A pop that took a message asks for another round. A pop that met a
/// value that names no slot ends the flush with that error. A pop that took
/// nothing ends it with what the rounds before came to or, where there was
/// no round before, with its own result.
pub open spec fn round_of(before: Option<ConsumeResult>, last: ConsumeResult) -> FlushRound {
    if last == ConsumeResult::Success || last == ConsumeResult::SuccessMessagesDiscarded {
        FlushRound { result: last, again: true }
    } else if last == ConsumeResult::QueueError {
        FlushRound { result: last, again: false }
    } else {
        FlushRound {
            result: match before {
                Some(result) => result,
                None => last,
            },
            again: false,
        }
    }
}

impl<'a, T> Producer<'a, T> {
    /// The producer end of the queue.
    pub closed spec fn queue(&self) -> ProducerQueue<'a> {
        self.queue
    }

    /// The channel's wake-up descriptor.
    pub closed spec fn wakeup(&self) -> Option<i32> {
        self.eventfd
    }

    /// Bytes of a message, as the channel was declared with.
    pub closed spec fn declared(&self) -> nat {
        self.queue.shape().message_size
    }

    /// Bytes of a message, as the channel was declared with.
    pub fn message_size(&self) -> (r: usize)
        ensures
            r == self.declared(),
    {
        self.queue.message_size()
    }

    /// The channel as a producer of `T`, unless a `T` is larger than the
    /// message size that the channel was declared with.
    pub fn try_from(channel: ProducerChannel<'a>) -> (r: Option<Self>)
        ensures
            r.is_some() <==> size_of::<T>() <= channel.declared(),
            r matches Some(producer) ==> producer.queue() == channel.queue() && producer.wakeup()
                == channel.wakeup() && producer.declared() == channel.declared(),
    {
        if core::mem::size_of::<T>() > channel.msg_size() {
            return None;
        }
        Some(
            Producer {
                queue: channel.queue,
                eventfd: channel.eventfd,
                _type: PhantomData,
            },
        )
    }

    /// Arena offset of the message that is written next.
    pub fn msg(&self) -> (r: usize)
        requires
            self.queue().wf(),
        ensures
            r == self.queue().shape().data_start + self.queue()@.current
                * self.queue().shape().slot_size,
    {
        self.queue.current_message()
    }

    /// The channel's wake-up descriptor.
    pub fn eventfd(&self) -> (r: Option<i32>)
        ensures
            r == self.wakeup(),
    {
        self.eventfd
    }

    /// Publishes the message; a full queue loses its oldest unread one.
    /// The queue does one step of `ProducerState::force_push`.
    pub fn force_push(&mut self) -> (r: ProduceForceResult)
        requires
            old(self).queue().wf(),
        ensures
            final(self).queue().wf(),
            final(self).queue().shape() == old(self).queue().shape(),
            final(self).queue().cells() == old(self).queue().cells(),
            final(self).declared() == old(self).declared(),
            final(self).wakeup() == old(self).wakeup(),
            exists|view: PushView|
                {
                    let step = #[trigger] old(self).queue()@.force_push(
                        old(self).queue().shape().slots,
                        view,
                    );
                    &&& final(self).queue()@ == step.state
                    &&& final(self).queue().trace() == old(self).queue().trace() + step.ops
                    &&& r == step.result
                },
    {
        self.queue.force_push()
    }

    /// Publishes the message unless the queue is full. The queue does one
    /// step of `ProducerState::try_push`.
    pub fn try_push(&mut self) -> (r: ProduceTryResult)
        requires
            old(self).queue().wf(),
        ensures
            final(self).queue().wf(),
            final(self).queue().shape() == old(self).queue().shape(),
            final(self).queue().cells() == old(self).queue().cells(),
            final(self).declared() == old(self).declared(),
            final(self).wakeup() == old(self).wakeup(),
            exists|tail: u32|
                {
                    let step = #[trigger] old(self).queue()@.try_push(
                        old(self).queue().shape().slots,
                        tail,
                    );
                    &&& final(self).queue()@ == step.state
                    &&& final(self).queue().trace() == old(self).queue().trace() + step.ops
                    &&& r == step.result
                },
    {
        self.queue.try_push()
    }

    /// Writes `message` to the slot that is published next.
    ///
    /// `ShmError::Size` where the message has more words than a message
    /// of the declared size;
    /// nothing is written then.
    pub fn write(&mut self, message: &[u32]) -> (r: Result<(), ShmError>)
        requires
            old(self).queue().wf(),
        ensures
            final(self).queue().wf(),
            final(self).queue().shape() == old(self).queue().shape(),
            final(self).queue().cells() == old(self).queue().cells(),
            final(self).queue()@ == old(self).queue()@,
            final(self).declared() == old(self).declared(),
            final(self).wakeup() == old(self).wakeup(),
            r.is_ok() <==> message@.len() <= old(self).queue().shape().message_words(),
            r.is_ok() ==> final(self).queue().trace() == old(self).queue().trace()
                + message_stores(old(self).queue()@.current, message@, message@.len() as int),
            r matches Err(e) ==> e == ShmError::Size && final(self).queue().trace() == old(
                self,
            ).queue().trace(),
    {
        self.queue.write_message(message)
    }

    /// Publishes a message that was built outside the queue: writes it to
    /// the slot and force-pushes the slot.
    ///
    /// No word of the message reaches the shared memory before this call,
    /// and the words are all written before the first operation of the
    /// push. `ShmError::Size` where the message has more words than a
    /// message of the declared size; nothing is done then.
    pub fn force_push_staged(&mut self, message: &[u32]) -> (r: Result<
        ProduceForceResult,
        ShmError,
    >)
        requires
            old(self).queue().wf(),
        ensures
            final(self).queue().wf(),
            final(self).queue().shape() == old(self).queue().shape(),
            final(self).queue().cells() == old(self).queue().cells(),
            final(self).declared() == old(self).declared(),
            final(self).wakeup() == old(self).wakeup(),
            r.is_ok() <==> message@.len() <= old(self).queue().shape().message_words(),
            r matches Err(e) ==> {
                &&& e == ShmError::Size
                &&& final(self).queue()@ == old(self).queue()@
                &&& final(self).queue().trace() == old(self).queue().trace()
            },
            r matches Ok(result) ==> exists|view: PushView|
                {
                    let step = #[trigger] old(self).queue()@.force_push(
                        old(self).queue().shape().slots,
                        view,
                    );
                    &&& final(self).queue()@ == step.state
                    &&& final(self).queue().trace() == old(self).queue().trace() + message_stores(
                        old(self).queue()@.current,
                        message@,
                        message@.len() as int,
                    ) + step.ops
                    &&& result == step.result
                },
    {
        let ghost state = self.queue@;
        let ghost slots = self.queue.shape().slots;
        let ghost before = self.queue.trace();
        match self.queue.write_message(message) {
            Ok(()) => {},
            Err(e) => { return Err(e); },
        }
        let ghost written = self.queue.trace();
        let result = self.queue.force_push();
        proof {
            let view = choose|view: PushView|
                {
                    let step = #[trigger] state.force_push(slots, view);
                    &&& self.queue@ == step.state
                    &&& self.queue.trace() == written + step.ops
                    &&& result == step.result
                };
            let step = state.force_push(slots, view);
            assert(self.queue.trace() =~= before + message_stores(
                state.current,
                message@,
                message@.len() as int,
            ) + step.ops);
        }
        Ok(result)
    }

    /// Publishes a message that was built outside the queue unless the
    /// queue is full: tests for room, writes the message to the slot and
    /// try-pushes the slot.
    ///
    /// Where the test finds the queue full, no word of the message is
    /// written and nothing changes. `ShmError::Size` where the message has
    /// more words than a message of the declared size; nothing is done then.
    pub fn try_push_staged(&mut self, message: &[u32]) -> (r: Result<ProduceTryResult, ShmError>)
        requires
            old(self).queue().wf(),
        ensures
            final(self).queue().wf(),
            final(self).queue().shape() == old(self).queue().shape(),
            final(self).queue().cells() == old(self).queue().cells(),
            final(self).declared() == old(self).declared(),
            final(self).wakeup() == old(self).wakeup(),
            r.is_ok() <==> message@.len() <= old(self).queue().shape().message_words(),
            r matches Err(e) ==> {
                &&& e == ShmError::Size
                &&& final(self).queue()@ == old(self).queue()@
                &&& final(self).queue().trace() == old(self).queue().trace()
            },
            r matches Ok(result) ==> exists|seen: u32, tail: u32|
                {
                    let step = #[trigger] old(self).queue()@.try_push(
                        old(self).queue().shape().slots,
                        tail,
                    );
                    if #[trigger] old(self).queue()@.is_full(
                        old(self).queue().shape().slots,
                        seen,
                    ) {
                        &&& result == ProduceTryResult::QueueFull
                        &&& final(self).queue()@ == old(self).queue()@
                        &&& final(self).queue().trace() == old(self).queue().trace() + old(
                            self,
                        ).queue()@.full_ops(seen)
                    } else {
                        &&& result == step.result
                        &&& final(self).queue()@ == step.state
                        &&& final(self).queue().trace() == old(self).queue().trace() + old(
                            self,
                        ).queue()@.full_ops(seen) + message_stores(
                            old(self).queue()@.current,
                            message@,
                            message@.len() as int,
                        ) + step.ops
                    }
                },
    {
        if message.len() > self.queue.message_words() {
            return Err(ShmError::Size);
        }
        let ghost state = self.queue@;
        let ghost slots = self.queue.shape().slots;
        let ghost before = self.queue.trace();
        let full = self.queue.full();
        let ghost seen = choose|seen: u32|
            full == #[trigger] state.is_full(slots, seen) && self.queue.trace() == before
                + state.full_ops(seen);
        if full {
            proof {
                let step = state.try_push(slots, 0);
                assert(state.is_full(slots, seen));
            }
            return Ok(ProduceTryResult::QueueFull);
        }
        match self.queue.write_message(message) {
            Ok(()) => {},
            Err(e) => { return Err(e); },
        }
        let ghost written = self.queue.trace();
        let result = self.queue.try_push();
        proof {
            let tail = choose|tail: u32|
                {
                    let step = #[trigger] state.try_push(slots, tail);
                    &&& self.queue@ == step.state
                    &&& self.queue.trace() == written + step.ops
                    &&& result == step.result
                };
            let step = state.try_push(slots, tail);
            assert(!state.is_full(slots, seen));
            assert(self.queue.trace() =~= before + state.full_ops(seen) + message_stores(
                state.current,
                message@,
                message@.len() as int,
            ) + step.ops);
        }
        Ok(result)
    }

    /// Whether the queue has no slot to publish into.
    pub fn full(&mut self) -> (r: bool)
        requires
            old(self).queue().wf(),
        ensures
            final(self).queue().wf(),
            final(self).queue().shape() == old(self).queue().shape(),
            final(self).queue().cells() == old(self).queue().cells(),
            final(self).queue()@ == old(self).queue()@,
            final(self).declared() == old(self).declared(),
            final(self).wakeup() == old(self).wakeup(),
            exists|tail: u32|
                {
                    &&& r == #[trigger] old(self).queue()@.is_full(
                        old(self).queue().shape().slots,
                        tail,
                    )
                    &&& final(self).queue().trace() == old(self).queue().trace() + old(
                        self,
                    ).queue()@.full_ops(tail)
                },
    {
        self.queue.full()
    }

    /// The descriptor to add one to after a force-push that ended with
    /// `result`: the wake-up descriptor, where the message was published.
    pub fn wakeup_after_force(&self, result: ProduceForceResult) -> (r: Option<i32>)
        ensures
            r == (if result == ProduceForceResult::QueueError {
                None
            } else {
                self.wakeup()
            }),
    {
        match result {
            ProduceForceResult::QueueError => None,
            _ => self.eventfd,
        }
    }

    /// The descriptor to add one to after a try-push that ended with
    /// `result`: the wake-up descriptor, where the message was published.
    pub fn wakeup_after_try(&self, result: ProduceTryResult) -> (r: Option<i32>)
        ensures
            r == (if result == ProduceTryResult::Success {
                self.wakeup()
            } else {
                None
            }),
    {
        match result {
            ProduceTryResult::Success => self.eventfd,
            _ => None,
        }
    }
}

impl<'a, T> Consumer<'a, T> {
    /// The consumer end of the queue.
    pub closed spec fn queue(&self) -> ConsumerQueue<'a> {
        self.queue
    }

    /// The channel's wake-up descriptor.
    pub closed spec fn wakeup(&self) -> Option<i32> {
        self.eventfd
    }

    /// Bytes of a message, as the channel was declared with.
    pub closed spec fn declared(&self) -> nat {
        self.queue.shape().message_size
    }

    /// Bytes of a message, as the channel was declared with.
    pub fn message_size(&self) -> (r: usize)
        ensures
            r == self.declared(),
    {
        self.queue.message_size()
    }

    /// The channel as a consumer of `T`, unless a `T` is larger than the
    /// message size that the channel was declared with.
    pub fn try_from(channel: ConsumerChannel<'a>) -> (r: Option<Self>)
        ensures
            r.is_some() <==> size_of::<T>() <= channel.declared(),
            r matches Some(consumer) ==> consumer.queue() == channel.queue() && consumer.wakeup()
                == channel.wakeup() && consumer.declared() == channel.declared(),
    {
        if core::mem::size_of::<T>() > channel.msg_size() {
            return None;
        }
        Some(
            Consumer {
                queue: channel.queue,
                eventfd: channel.eventfd,
                _type: PhantomData,
            },
        )
    }

    /// Arena offset of the message in hand, if a message was ever taken.
    pub fn msg(&self) -> (r: Option<usize>)
        requires
            self.queue().wf(),
        ensures
            r.is_some() == self.queue()@.holding,
            r.is_some() ==> r.unwrap() == self.queue().shape().data_start
                + self.queue()@.current * self.queue().shape().slot_size,
    {
        self.queue.current_message()
    }

    /// The channel's wake-up descriptor.
    pub fn eventfd(&self) -> (r: Option<i32>)
        ensures
            r == self.wakeup(),
    {
        self.eventfd
    }

    /// Reads the first `count` words of the message in hand.
    ///
    /// There is nothing to read where no message was ever taken or a message
    /// of the declared size has fewer words; no cell is read then.
    pub fn read(&mut self, count: usize) -> (r: Option<Vec<u32>>)
        requires
            old(self).queue().wf(),
        ensures
            final(self).queue().wf(),
            final(self).queue().shape() == old(self).queue().shape(),
            final(self).queue().cells() == old(self).queue().cells(),
            final(self).queue()@ == old(self).queue()@,
            final(self).declared() == old(self).declared(),
            final(self).wakeup() == old(self).wakeup(),
            r.is_some() <==> old(self).queue()@.holding && count <= old(
                self,
            ).queue().shape().message_words(),
            r matches Some(message) ==> message@.len() == count && final(self).queue().trace()
                == old(self).queue().trace() + message_loads(
                old(self).queue()@.current,
                message@,
            ),
            r.is_none() ==> final(self).queue().trace() == old(self).queue().trace(),
    {
        self.queue.read_message(count)
    }

    /// Takes the next unread message.
    ///
    /// `signalled` says whether a unit could be read from the wake-up
    /// descriptor. A channel with a wake-up descriptor that was not
    /// signalled leaves the queue alone: there is no new message, or no
    /// message at all where none was ever taken. Else the queue does one
    /// step of `ConsumerState::pop`.
    pub fn pop(&mut self, signalled: bool) -> (r: ConsumeResult)
        requires
            old(self).queue().wf(),
        ensures
            final(self).queue().wf(),
            final(self).queue().shape() == old(self).queue().shape(),
            final(self).queue().cells() == old(self).queue().cells(),
            final(self).declared() == old(self).declared(),
            final(self).wakeup() == old(self).wakeup(),
            old(self).wakeup().is_some() && !signalled ==> {
                &&& final(self).queue()@ == old(self).queue()@
                &&& final(self).queue().trace() == old(self).queue().trace()
                &&& r == (if old(self).queue()@.holding {
                    ConsumeResult::NoNewMessage
                } else {
                    ConsumeResult::NoMessage
                })
            },
            old(self).wakeup().is_none() || signalled ==> exists|view: PopView|
                {
                    let step = #[trigger] old(self).queue()@.pop(
                        old(self).queue().shape().slots,
                        view,
                    );
                    &&& final(self).queue()@ == step.state
                    &&& final(self).queue().trace() == old(self).queue().trace() + step.ops
                    &&& r == step.result
                },
    {
        if self.eventfd.is_some() && !signalled {
            return match self.queue.current() {
                Some(_) => ConsumeResult::NoNewMessage,
                None => ConsumeResult::NoMessage,
            };
        }
        self.queue.pop()
    }

    /// `after` is this consumer after a pop that was told `signalled` and
    /// gave `result`: what `pop` ensures.
    pub open spec fn popped(&self, after: &Self, signalled: bool, result: ConsumeResult) -> bool {
        &&& after.queue().wf()
        &&& after.queue().shape() == self.queue().shape()
        &&& after.queue().cells() == self.queue().cells()
        &&& after.declared() == self.declared()
        &&& after.wakeup() == self.wakeup()
        &&& self.wakeup().is_some() && !signalled ==> {
            &&& after.queue()@ == self.queue()@
            &&& after.queue().trace() == self.queue().trace()
            &&& result == (if self.queue()@.holding {
                ConsumeResult::NoNewMessage
            } else {
                ConsumeResult::NoMessage
            })
        }
        &&& self.wakeup().is_none() || signalled ==> exists|view: PopView|
            {
                let step = #[trigger] self.queue()@.pop(self.queue().shape().slots, view);
                &&& after.queue()@ == step.state
                &&& after.queue().trace() == self.queue().trace() + step.ops
                &&& result == step.result
            }
    }

    /// `after` is this consumer after a flush of its queue that gave
    /// `result`: what `flush` ensures.
    pub open spec fn flushed(&self, after: &Self, result: ConsumeResult) -> bool {
        &&& after.queue().wf()
        &&& after.queue().shape() == self.queue().shape()
        &&& after.queue().cells() == self.queue().cells()
        &&& after.declared() == self.declared()
        &&& after.wakeup() == self.wakeup()
        &&& exists|views: Seq<FlushView>, again: u32|
            {
                let step = #[trigger] self.queue()@.flush(
                    self.queue().shape().slots,
                    views,
                    again,
                );
                &&& 1 <= views.len() <= FLUSH_ATTEMPTS
                &&& ConsumerState::all_lost(self.queue().shape().slots, views.drop_last())
                &&& ConsumerState::flush_attempt(self.queue().shape().slots, views.last()).is_none()
                    ==> views.len() == FLUSH_ATTEMPTS
                &&& after.queue()@ == step.state
                &&& after.queue().trace() == self.queue().trace() + step.ops
                &&& result == step.result
            }
    }

    /// One round of the flush of a channel.
    ///
    /// A channel without a wake-up descriptor flushes its queue, and that
    /// is the flush. A channel with one pops instead, so that the
    /// descriptor stays in step with the queue: `signalled` says whether a
    /// unit could be read from the descriptor for this round, `before` is
    /// what the round before came to, and the round comes to
    /// `round_of(before, last)` for the result `last` of its pop. Where it
    /// asks for another round, the caller reads the descriptor again and
    /// hands on the result of this round.
    pub fn flush_round(&mut self, signalled: bool, before: Option<ConsumeResult>) -> (r:
        FlushRound)
        requires
            old(self).queue().wf(),
        ensures
            old(self).wakeup().is_none() ==> !r.again && old(self).flushed(final(self), r.result),
            old(self).wakeup().is_some() ==> exists|last: ConsumeResult|
                #[trigger] old(self).popped(final(self), signalled, last) && r == round_of(
                    before,
                    last,
                ),
    {
        if self.eventfd.is_none() {
            let result = self.flush();
            return FlushRound { result, again: false };
        }
        let last = self.pop(signalled);
        assert(old(self).popped(self, signalled, last));
        match last {
            ConsumeResult::Success => FlushRound { result: last, again: true },
            ConsumeResult::SuccessMessagesDiscarded => FlushRound { result: last, again: true },
            ConsumeResult::QueueError => FlushRound { result: last, again: false },
            _ => match before {
                Some(result) => FlushRound { result, again: false },
                None => FlushRound { result: last, again: false },
            },
        }
    }

    /// Drops every message but the newest, and takes that one. The queue
    /// does one `ConsumerState::flush`, which is safe while no push
    /// overlaps it.
    pub fn flush(&mut self) -> (r: ConsumeResult)
        requires
            old(self).queue().wf(),
        ensures
            final(self).queue().wf(),
            final(self).queue().shape() == old(self).queue().shape(),
            final(self).queue().cells() == old(self).queue().cells(),
            final(self).declared() == old(self).declared(),
            final(self).wakeup() == old(self).wakeup(),
            exists|views: Seq<FlushView>, again: u32|
                {
                    let step = #[trigger] old(self).queue()@.flush(
                        old(self).queue().shape().slots,
                        views,
                        again,
                    );
                    &&& 1 <= views.len() <= FLUSH_ATTEMPTS
                    &&& ConsumerState::all_lost(
                        old(self).queue().shape().slots,
                        views.drop_last(),
                    )
                    &&& ConsumerState::flush_attempt(
                        old(self).queue().shape().slots,
                        views.last(),
                    ).is_none() ==> views.len() == FLUSH_ATTEMPTS
                    &&& final(self).queue()@ == step.state
                    &&& final(self).queue().trace() == old(self).queue().trace() + step.ops
                    &&& r == step.result
                },
    {
        self.queue.flush()
    }
}

impl<'a> ChannelVector<'a> {
    /// The producer channels; a taken one is `None`.
    pub closed spec fn producers(&self) -> Seq<Option<ProducerChannel<'a>>> {
        self.producers@
    }

    /// The consumer channels; a taken one is `None`.
    pub closed spec fn consumers(&self) -> Seq<Option<ConsumerChannel<'a>>> {
        self.consumers@
    }

    /// The vector's metadata.
    pub closed spec fn info_bytes(&self) -> Seq<u8> {
        self.info@
    }

    /// The vector holds every channel of `resource`, untaken, each laid
    /// over the arena at the place of its queue in the layout order.
    pub open spec fn maps(&self, resource: &VectorResource, arena: Seq<AtomicU32>, cls: int) -> bool {
        let order = layout_order(resource);
        let producers_first = if resource.owner {
            0int
        } else {
            resource.consumers@.len() as int
        };
        let consumers_first = if resource.owner {
            resource.producers@.len() as int
        } else {
            0int
        };
        &&& self.producers().len() == resource.producers@.len()
        &&& self.consumers().len() == resource.consumers@.len()
        &&& self.info_bytes() == resource.info@
        &&& forall|i: int|
            0 <= i < self.producers().len() ==> (#[trigger] self.producers()[i]).is_some()
                && self.producers()[i].unwrap().mapped(
                resource.producers@[i]@,
                arena,
                chunk_start(order, producers_first + i, cls),
                cls,
                resource.owner,
            )
        &&& forall|i: int|
            0 <= i < self.consumers().len() ==> (#[trigger] self.consumers()[i]).is_some()
                && self.consumers()[i].unwrap().mapped(
                resource.consumers@[i]@,
                arena,
                chunk_start(order, consumers_first + i, cls),
                cls,
                resource.owner,
            )
    }

    /// Lays the channels of `resource` over the arena, whose memory is
    /// given as its index cells, four bytes each.
    ///
    /// The owner of the arena makes every queue new and empty: it writes
    /// the chain and the sentinels of its producers and of its consumers.
    /// The other side touches no shared cell.
    /// `ShmError::Alignment` where the cache line size is zero or no
    /// multiple of four, else `ShmError::Size` where a message size is
    /// zero, a queue has more slots than `MAX_SLOTS`, or the queues do not
    /// fit the arena.
    pub fn map(resource: &VectorResource, arena: &'a [AtomicU32], cls: usize) -> (r: Result<
        Self,
        RtipcError,
    >)
        ensures
            r.is_ok() <==> mappable(resource, arena@.len(), cls),
            r matches Ok(vector) ==> vector.maps(resource, arena@, cls as int),
            r matches Err(e) ==> e == (if cls == 0 || cls % INDEX_SIZE != 0 {
                RtipcError::Shm(ShmError::Alignment)
            } else {
                RtipcError::Shm(ShmError::Size)
            }),
    {
        if cls == 0 || cls % INDEX_SIZE != 0 {
            return Err(RtipcError::Shm(ShmError::Alignment));
        }
        let bytes: usize = match arena.len().checked_mul(INDEX_SIZE) {
            Some(b) => b,
            None => { return Err(RtipcError::Shm(ShmError::Size)); },
        };
        let mut shm = match SharedMemory::new(bytes) {
            Ok(s) => s,
            Err(e) => { return Err(RtipcError::Shm(e)); },
        };
        let ghost order = layout_order(resource);
        let mut offset: usize = 0;
        proof {
            assert(order.take(0) =~= Seq::<ChannelConfig>::empty());
        }
        let producers;
        let consumers;
        if resource.owner {
            let split = resource.producers.len();
            producers = match map_producers(
                Ghost(order),
                &resource.producers,
                0,
                arena,
                &mut shm,
                &mut offset,
                cls,
                true,
            ) {
                Ok(p) => p,
                Err(e) => {
                    proof {
                        if fits_upto(order, order.len() as int, arena@.len(), cls as int) {
                            lemma_fits_prefix(
                                order,
                                split as int,
                                order.len() as int,
                                arena@.len(),
                                cls as int,
                            );
                        }
                    }
                    return Err(RtipcError::Shm(e));
                },
            };
            consumers = match map_consumers(
                Ghost(order),
                &resource.consumers,
                split,
                arena,
                &mut shm,
                &mut offset,
                cls,
                true,
            ) {
                Ok(c) => c,
                Err(e) => { return Err(RtipcError::Shm(e)); },
            };
        } else {
            let split = resource.consumers.len();
            consumers = match map_consumers(
                Ghost(order),
                &resource.consumers,
                0,
                arena,
                &mut shm,
                &mut offset,
                cls,
                false,
            ) {
                Ok(c) => c,
                Err(e) => {
                    proof {
                        if fits_upto(order, order.len() as int, arena@.len(), cls as int) {
                            lemma_fits_prefix(
                                order,
                                split as int,
                                order.len() as int,
                                arena@.len(),
                                cls as int,
                            );
                        }
                    }
                    return Err(RtipcError::Shm(e));
                },
            };
            producers = match map_producers(
                Ghost(order),
                &resource.producers,
                split,
                arena,
                &mut shm,
                &mut offset,
                cls,
                false,
            ) {
                Ok(p) => p,
                Err(e) => { return Err(RtipcError::Shm(e)); },
            };
        }
        let info = resource.info.clone();
        assert(info@ =~= resource.info@);
        Ok(ChannelVector { producers, consumers, info })
    }

    /// The metadata of consumer `index`, if it is there and not taken.
    pub fn consumer_info(&self, index: usize) -> (r: Option<&Vec<u8>>)
        ensures
            r.is_some() <==> available(self.consumers(), index as int),
            r matches Some(info) ==> info@ == self.consumers()[index as int].unwrap().info_bytes(),
    {
        if index >= self.consumers.len() {
            return None;
        }
        match &self.consumers[index] {
            Some(channel) => Some(channel.info()),
            None => None,
        }
    }

    /// The metadata of producer `index`, if it is there and not taken.
    pub fn producer_info(&self, index: usize) -> (r: Option<&Vec<u8>>)
        ensures
            r.is_some() <==> available(self.producers(), index as int),
            r matches Some(info) ==> info@ == self.producers()[index as int].unwrap().info_bytes(),
    {
        if index >= self.producers.len() {
            return None;
        }
        match &self.producers[index] {
            Some(channel) => Some(channel.info()),
            None => None,
        }
    }

    /// The vector's metadata.
    pub fn info(&self) -> (r: &Vec<u8>)
        ensures
            r@ == self.info_bytes(),
    {
        &self.info
    }

    /// Takes consumer `index` as a consumer of `T`.
    ///
    /// There is none where the vector has no such consumer, it was taken
    /// before, or a `T` is larger than the message size that the channel was
    /// declared with. A consumer that is there is taken in each case.
    pub fn take_consumer<T>(&mut self, index: usize) -> (r: Option<Consumer<'a, T>>)
        ensures
            final(self).consumers() == without(old(self).consumers(), index as int),
            final(self).producers() == old(self).producers(),
            final(self).info_bytes() == old(self).info_bytes(),
            r.is_some() <==> available(old(self).consumers(), index as int) && size_of::<T>()
                <= old(self).consumers()[index as int].unwrap().declared(),
            r matches Some(consumer) ==> {
                &&& consumer.queue() == old(self).consumers()[index as int].unwrap().queue()
                &&& consumer.wakeup() == old(self).consumers()[index as int].unwrap().wakeup()
                &&& consumer.declared() == old(self).consumers()[index as int].unwrap().declared()
            },
    {
        if index >= self.consumers.len() {
            return None;
        }
        let mut taken: Option<ConsumerChannel<'a>> = None;
        core::mem::swap(&mut self.consumers[index], &mut taken);
        assert(self.consumers@ =~= without(old(self).consumers(), index as int));
        match taken {
            Some(channel) => Consumer::try_from(channel),
            None => None,
        }
    }

    /// Takes producer `index` as a producer of `T`.
    ///
    /// There is none where the vector has no such producer, it was taken
    /// before, or a `T` is larger than the message size that the channel was
    /// declared with. A producer that is there is taken in each case.
    pub fn take_producer<T>(&mut self, index: usize) -> (r: Option<Producer<'a, T>>)
        ensures
            final(self).producers() == without(old(self).producers(), index as int),
            final(self).consumers() == old(self).consumers(),
            final(self).info_bytes() == old(self).info_bytes(),
            r.is_some() <==> available(old(self).producers(), index as int) && size_of::<T>()
                <= old(self).producers()[index as int].unwrap().declared(),
            r matches Some(producer) ==> {
                &&& producer.queue() == old(self).producers()[index as int].unwrap().queue()
                &&& producer.wakeup() == old(self).producers()[index as int].unwrap().wakeup()
                &&& producer.declared() == old(self).producers()[index as int].unwrap().declared()
            },
    {
        if index >= self.producers.len() {
            return None;
        }
        let mut taken: Option<ProducerChannel<'a>> = None;
        core::mem::swap(&mut self.producers[index], &mut taken);
        assert(self.producers@ =~= without(old(self).producers(), index as int));
        match taken {
            Some(channel) => Producer::try_from(channel),
            None => None,
        }
    }
}

/// The vector holds the channels `producers` and `consumers`, untaken, and
/// the queue of each lies at its place among `order`; `producers_first`
/// and `consumers_first` are the places of the first producer and the first
/// consumer.
pub open spec fn laid_out(
    vector: &ChannelVector,
    producers: Seq<ChannelSlot>,
    producers_first: int,
    consumers: Seq<ChannelSlot>,
    consumers_first: int,
    order: Seq<ChannelConfig>,
    arena: Seq<AtomicU32>,
    cls: int,
    owner: bool,
) -> bool {
    &&& vector.producers().len() == producers.len()
    &&& vector.consumers().len() == consumers.len()
    &&& forall|i: int|
        0 <= i < producers.len() ==> (#[trigger] vector.producers()[i]).is_some()
            && vector.producers()[i].unwrap().mapped(
            producers[i],
            arena,
            chunk_start(order, producers_first + i, cls),
            cls,
            owner,
        )
    &&& forall|i: int|
        0 <= i < consumers.len() ==> (#[trigger] vector.consumers()[i]).is_some()
            && vector.consumers()[i].unwrap().mapped(
            consumers[i],
            arena,
            chunk_start(order, consumers_first + i, cls),
            cls,
            owner,
        )
}

/// The cache line size can be told to the peer, and the arena of `cells`
/// index cells holds the queues `order` back to back.
pub open spec fn arena_fits(order: Seq<ChannelConfig>, cells: nat, cls: usize) -> bool {
    &&& cls % INDEX_SIZE == 0
    &&& 0 < cells
    &&& cells * 4 <= usize::MAX
    &&& fits_upto(order, order.len() as int, cells, cls as int)
}

impl<'a> ChannelVector<'a> {
    /// Bytes of the arena that a configuration asks for.
    ///
    /// `RtipcError::Argument` where the cache line size is zero, the
    /// configuration has no channel, a message size is zero, or the size
    /// does not fit the machine word.
    pub fn shm_size(vparam: &VectorParam, cls: usize) -> (r: Result<usize, RtipcError>)
        ensures
            r.is_ok() <==> {
                &&& cls > 0
                &&& VectorResource::wire_order(vparam).len() > 0
                &&& all_wf(VectorResource::wire_order(vparam))
                &&& total_shm_size(VectorResource::wire_order(vparam), cls as int) <= usize::MAX
            },
            r matches Ok(size) ==> size == total_shm_size(
                VectorResource::wire_order(vparam),
                cls as int,
            ) && size > 0,
            r matches Err(e) ==> e == RtipcError::Argument,
    {
        if cls == 0 {
            return Err(RtipcError::Argument);
        }
        if vparam.producers.len() == 0 && vparam.consumers.len() == 0 {
            return Err(RtipcError::Argument);
        }
        match checked_calc_shm_size(vparam.producers.as_slice(), vparam.consumers.as_slice(), cls) {
            Some(size) => {
                proof {
                    crate::param::lemma_total_nonnegative(
                        VectorResource::wire_order(vparam),
                        cls as int,
                    );
                }
                Ok(size)
            },
            None => Err(RtipcError::Argument),
        }
    }

    /// The initiator's side of a handshake: the channels of `vparam` laid
    /// over the arena, every queue made new and empty, and the request to send
    /// with its descriptors.
    ///
    /// `shmfd` is the descriptor of the arena and `eventfds` hold one
    /// wake-up descriptor for each channel that asks for one, producers
    /// first. The errors, in this order: `RtipcError::Argument` where the
    /// cache line size is zero or does not fit the header, or there is no
    /// channel; `RtipcError::MissingDescriptor` where `eventfds` are too
    /// few; else as `map`.
    pub fn new(
        vparam: &VectorParam,
        shmfd: i32,
        eventfds: &Vec<i32>,
        arena: &'a [AtomicU32],
        cls: usize,
    ) -> (r: Result<(Self, Request), RtipcError>)
        ensures
            r.is_ok() <==> {
                let all = VectorResource::wire_order(vparam);
                &&& 0 < cls <= u16::MAX
                &&& 0 < all.len() <= usize::MAX
                &&& wakeups(all, all.len() as int) <= eventfds@.len()
                &&& arena_fits(all, arena@.len(), cls)
            },
            r matches Ok((vector, request)) ==> {
                let all = VectorResource::wire_order(vparam);
                let split = vparam@.producers.len() as int;
                &&& laid_out(
                    &vector,
                    assigned(all, eventfds@, 0, split),
                    0,
                    assigned(all, eventfds@, split, all.len() as int),
                    split,
                    all,
                    arena@,
                    cls as int,
                    true,
                )
                &&& vector.info_bytes() == vparam@.info
                &&& request.content() == encode(vparam@, cls as u16)
                &&& request.descriptors() == seq![shmfd] + eventfds@.take(
                    wakeups(all, all.len() as int),
                )
            },
            r matches Err(e) ==> {
                let all = VectorResource::wire_order(vparam);
                e == (if !(0 < cls <= u16::MAX && 0 < all.len() <= usize::MAX) {
                    RtipcError::Argument
                } else if wakeups(all, all.len() as int) > eventfds@.len() {
                    RtipcError::MissingDescriptor
                } else if cls % INDEX_SIZE != 0 {
                    RtipcError::Shm(ShmError::Alignment)
                } else {
                    RtipcError::Shm(ShmError::Size)
                })
            },
    {
        if cls == 0 || cls > 0xFFFF {
            return Err(RtipcError::Argument);
        }
        let resource = match VectorResource::allocate(vparam, shmfd, eventfds) {
            Ok(r) => r,
            Err(e) => { return Err(e); },
        };
        let ghost all = VectorResource::wire_order(vparam);
        let ghost split = vparam@.producers.len() as int;
        proof {
            assert(slots_of(resource.producers@).len() == resource.producers@.len());
            assert(slots_of(resource.consumers@).len() == resource.consumers@.len());
            assert(assigned(all, eventfds@, 0, split).len() == split);
            assert(assigned(all, eventfds@, split, all.len() as int).len() == all.len() - split);
            assert(layout_order(&resource) =~= all) by {
                assert forall|i: int| 0 <= i < all.len() implies layout_order(&resource)[i]
                    == all[i] by {
                    if i < split {
                        assert(slots_of(resource.producers@)[i].config == all[i]);
                    } else {
                        assert(slots_of(resource.consumers@)[i - split].config == all[i]);
                    }
                }
            }
        }
        let vector = match Self::map(&resource, arena, cls) {
            Ok(v) => v,
            Err(e) => { return Err(e); },
        };
        let msg = create_request_message(vparam, cls);
        let fds = resource.collect_fds();
        proof {
            lemma_collect_in_order(all, eventfds@, split, all.len() as int);
            lemma_collect_in_order(all, eventfds@, 0, split);
            assert(fds@ =~= seq![shmfd] + eventfds@.take(wakeups(all, all.len() as int)));
            assert forall|i: int| 0 <= i < split implies (#[trigger] vector.producers()[i]).is_some()
                && vector.producers()[i].unwrap().mapped(
                assigned(all, eventfds@, 0, split)[i],
                arena@,
                chunk_start(all, i, cls as int),
                cls as int,
                true,
            ) by {
                assert(slots_of(resource.producers@)[i] == resource.producers@[i]@);
            }
            assert forall|i: int| 0 <= i < all.len() - split implies (
            #[trigger] vector.consumers()[i]).is_some() && vector.consumers()[i].unwrap().mapped(
                assigned(all, eventfds@, split, all.len() as int)[i],
                arena@,
                chunk_start(all, split + i, cls as int),
                cls as int,
                true,
            ) by {
                assert(slots_of(resource.consumers@)[i] == resource.consumers@[i]@);
            }
        }
        Ok((vector, Request::new(msg, fds)))
    }

    /// The acceptor's side of a handshake: the channels that the request
    /// `msg` asks for, laid over the arena, producers and consumers
    /// swapped. No shared cell is touched.
    ///
    /// `shmfd` is the descriptor of the arena and `eventfds` are the
    /// descriptors that came behind it. The errors, in this order: that of
    /// `parse` as `RtipcError::Message`; `RtipcError::InvalidResource`
    /// where the arena's descriptor is no memory file; the first error of
    /// `wakeup_error`; else as `map`.
    pub fn from_request(
        msg: &[u8],
        shmfd: &Descriptor,
        eventfds: &Vec<Descriptor>,
        arena: &'a [AtomicU32],
        cls: usize,
    ) -> (r: Result<Self, RtipcError>)
        ensures
            parse(msg@, cls as nat) matches Err(e) ==> r matches Err(f) && f
                == RtipcError::Message(e),
            parse(msg@, cls as nat) matches Ok(config) ==> {
                let all = config.producers + config.consumers;
                let split = config.producers.len() as int;
                let count = all.len() as int;
                &&& r.is_ok() <==> {
                    &&& has_prefix(shmfd.link@, memfd_link())
                    &&& wakeup_error(all, eventfds@, count).is_none()
                    &&& cls > 0
                    &&& arena_fits(all, arena@.len(), cls)
                }
                &&& r matches Ok(vector) ==> {
                    &&& laid_out(
                        &vector,
                        assigned(all, numbers(eventfds@), split, count),
                        split,
                        assigned(all, numbers(eventfds@), 0, split),
                        0,
                        all,
                        arena@,
                        cls as int,
                        false,
                    )
                    &&& vector.info_bytes() == config.info
                }
                &&& r matches Err(e) ==> e == (if !has_prefix(shmfd.link@, memfd_link()) {
                    RtipcError::InvalidResource
                } else if wakeup_error(all, eventfds@, count).is_some() {
                    wakeup_error(all, eventfds@, count).unwrap()
                } else if cls == 0 || cls % INDEX_SIZE != 0 {
                    RtipcError::Shm(ShmError::Alignment)
                } else {
                    RtipcError::Shm(ShmError::Size)
                })
            },
    {
        let resource = match VectorResource::from_request(msg, shmfd, eventfds, cls) {
            Ok(r) => r,
            Err(e) => { return Err(e); },
        };
        let ghost config = parse(msg@, cls as nat)->Ok_0;
        let ghost all = config.producers + config.consumers;
        let ghost split = config.producers.len() as int;
        proof {
            assert(slots_of(resource.producers@).len() == resource.producers@.len());
            assert(slots_of(resource.consumers@).len() == resource.consumers@.len());
            assert(assigned(all, numbers(eventfds@), 0, split).len() == split);
            assert(assigned(all, numbers(eventfds@), split, all.len() as int).len() == all.len()
                - split);
            assert(layout_order(&resource) =~= all) by {
                assert forall|i: int| 0 <= i < all.len() implies layout_order(&resource)[i]
                    == all[i] by {
                    if i < split {
                        assert(slots_of(resource.consumers@)[i].config == all[i]);
                    } else {
                        assert(slots_of(resource.producers@)[i - split].config == all[i]);
                    }
                }
            }
        }
        let vector = match Self::map(&resource, arena, cls) {
            Ok(v) => v,
            Err(e) => { return Err(e); },
        };
        proof {
            assert forall|i: int| 0 <= i < split implies (#[trigger] vector.consumers()[i]).is_some()
                && vector.consumers()[i].unwrap().mapped(
                assigned(all, numbers(eventfds@), 0, split)[i],
                arena@,
                chunk_start(all, i, cls as int),
                cls as int,
                false,
            ) by {
                assert(slots_of(resource.consumers@)[i] == resource.consumers@[i]@);
            }
            assert forall|i: int| 0 <= i < all.len() - split implies (
            #[trigger] vector.producers()[i]).is_some() && vector.producers()[i].unwrap().mapped(
                assigned(all, numbers(eventfds@), split, all.len() as int)[i],
                arena@,
                chunk_start(all, split + i, cls as int),
                cls as int,
                false,
            ) by {
                assert(slots_of(resource.producers@)[i] == resource.producers@[i]@);
            }
        }
        Ok(vector)
    }
}

/// What the acceptor builds from the request of a valid configuration is
/// the initiator's vector with producers and consumers swapped.
///
/// The acceptor reads the configuration that was written. Its consumers
/// are the initiator's producers and its producers the initiator's
/// consumers, channel by channel; a channel has a wake-up descriptor on the
/// one side exactly where it has one on the other, and it is the descriptor
/// at the same place of the list that was sent. The queue of a channel
/// starts at the same offset of the arena on both sides.
pub proof fn lemma_handshake_round_trip(
    config: VectorConfig,
    cls: u16,
    sent: Seq<i32>,
    received: Seq<i32>,
)
    requires
        wire_valid(config),
    ensures
        parse(encode(config, cls), cls as nat) == Ok::<VectorConfig, MessageError>(config),
        ({
            let all = config.producers + config.consumers;
            let split = config.producers.len() as int;
            let count = all.len() as int;
            let initiator_producers = assigned(all, sent, 0, split);
            let initiator_consumers = assigned(all, sent, split, count);
            let acceptor_consumers = assigned(all, received, 0, split);
            let acceptor_producers = assigned(all, received, split, count);
            &&& acceptor_consumers.len() == config.producers.len()
            &&& acceptor_producers.len() == config.consumers.len()
            &&& forall|i: int|
                0 <= i < split ==> {
                    &&& (#[trigger] acceptor_consumers[i]).config == config.producers[i]
                    &&& initiator_producers[i].config == config.producers[i]
                    &&& acceptor_consumers[i].eventfd.is_some()
                        == initiator_producers[i].eventfd.is_some()
                    &&& acceptor_consumers[i].eventfd.is_some() ==> {
                        &&& initiator_producers[i].eventfd == Some(sent[wakeups(all, i)])
                        &&& acceptor_consumers[i].eventfd == Some(received[wakeups(all, i)])
                    }
                }
            &&& forall|i: int|
                0 <= i < count - split ==> {
                    &&& (#[trigger] acceptor_producers[i]).config == config.consumers[i]
                    &&& initiator_consumers[i].config == config.consumers[i]
                    &&& acceptor_producers[i].eventfd.is_some()
                        == initiator_consumers[i].eventfd.is_some()
                    &&& acceptor_producers[i].eventfd.is_some() ==> {
                        &&& initiator_consumers[i].eventfd == Some(sent[wakeups(all, split + i)])
                        &&& acceptor_producers[i].eventfd == Some(
                            received[wakeups(all, split + i)],
                        )
                    }
                }
        }),
{
    lemma_round_trip(config, cls);
}

} // verus!
