//! The descriptors of a channel vector: which wake-up descriptor belongs
//! to which channel, on the side that made them and on the side that
//! received them.
//!
//! Descriptors travel in one list: the arena first, then one wake-up
//! descriptor for each producer of the initiator that asks for one, in
//! order, then the same for its consumers. The acceptor takes them off the
//! list in that order. What is a producer to the initiator is a consumer to
//! the acceptor, so the acceptor swaps the two lists of channels.
use vstd::prelude::*;
use crate::error::RtipcError;
use crate::param::ChannelConfig;
use crate::param::ChannelParam;
use crate::param::VectorParam;
use crate::protocol::parse;
use crate::protocol::parse_request;
use crate::unix::check_memfd;
use crate::unix::eventfd_link;
use crate::unix::has_prefix;
use crate::unix::into_eventfd;
use crate::unix::memfd_link;
use crate::unix::Descriptor;

verus! {

/// A channel's configuration and its wake-up descriptor.
pub struct ChannelResource {
    pub config: ChannelParam,
    pub eventfd: Option<i32>,
}

/// What a `ChannelResource` stands for in contracts.
pub ghost struct ChannelSlot {
    pub config: ChannelConfig,
    pub eventfd: Option<i32>,
}

impl View for ChannelResource {
    type V = ChannelSlot;

    open spec fn view(&self) -> ChannelSlot {
        ChannelSlot { config: self.config@, eventfd: self.eventfd }
    }
}

/// The channels of a list, as they stand in contracts.
pub open spec fn slots_of(channels: Seq<ChannelResource>) -> Seq<ChannelSlot> {
    Seq::new(channels.len(), |i: int| channels[i]@)
}

/// The descriptors of both sides of a channel vector.
pub struct VectorResource {
    pub producers: Vec<ChannelResource>,
    pub consumers: Vec<ChannelResource>,
    pub info: Vec<u8>,
    /// The descriptor of the arena.
    pub shmfd: i32,
    /// Whether this side made the arena, and so initialises the queues.
    pub owner: bool,
}

/// Number of channels among the first `upto` that ask for a wake-up
/// descriptor.
pub open spec fn wakeups(channels: Seq<ChannelConfig>, upto: int) -> int
    decreases upto,
{
    if upto <= 0 {
        0
    } else {
        wakeups(channels, upto - 1) + if channels[upto - 1].eventfd {
            1int
        } else {
            0int
        }
    }
}

/// The wake-up descriptor of channel `i`: the next of the list that no
/// earlier channel took, where the channel asks for one.
pub open spec fn wakeup_of(channels: Seq<ChannelConfig>, fds: Seq<i32>, i: int) -> Option<i32> {
    if channels[i].eventfd {
        Some(fds[wakeups(channels, i)])
    } else {
        None
    }
}

/// The channels `from..to` of the list, each with its wake-up descriptor.
pub open spec fn assigned(channels: Seq<ChannelConfig>, fds: Seq<i32>, from: int, to: int) -> Seq<
    ChannelSlot,
> {
    Seq::new(
        (to - from) as nat,
        |i: int|
            ChannelSlot { config: channels[from + i], eventfd: wakeup_of(channels, fds, from + i) },
    )
}

/// The numbers of a list of descriptors.
pub open spec fn numbers(descriptors: Seq<Descriptor>) -> Seq<i32> {
    Seq::new(descriptors.len(), |i: int| descriptors[i].fd)
}

/// The first thing that is wrong with the wake-up descriptors of the first
/// `upto` channels: a channel that finds the list used up, or one whose
/// descriptor is no event object.
pub open spec fn wakeup_error(
    channels: Seq<ChannelConfig>,
    descriptors: Seq<Descriptor>,
    upto: int,
) -> Option<RtipcError>
    decreases upto,
{
    if upto <= 0 {
        None
    } else if wakeup_error(channels, descriptors, upto - 1).is_some() {
        wakeup_error(channels, descriptors, upto - 1)
    } else if !channels[upto - 1].eventfd {
        None
    } else if wakeups(channels, upto - 1) >= descriptors.len() {
        Some(RtipcError::MissingDescriptor)
    } else if !has_prefix(descriptors[wakeups(channels, upto - 1)].link@, eventfd_link()) {
        Some(RtipcError::InvalidResource)
    } else {
        None
    }
}

proof fn lemma_wakeups_bounds(channels: Seq<ChannelConfig>, upto: int)
    requires
        0 <= upto,
    ensures
        0 <= wakeups(channels, upto) <= upto,
    decreases upto,
{
    if upto > 0 {
        lemma_wakeups_bounds(channels, upto - 1);
    }
}

impl ChannelResource {
    /// A channel with the given configuration, and with the descriptor as
    /// its wake-up descriptor where there is one.
    /// `RtipcError::InvalidResource` where the descriptor is no event object.
    pub fn new(config: &ChannelParam, eventfd_raw: Option<&Descriptor>) -> (r: Result<
        Self,
        RtipcError,
    >)
        ensures
            r.is_ok() <==> (eventfd_raw matches Some(d) ==> has_prefix(d.link@, eventfd_link())),
            r matches Ok(channel) ==> channel@ == (ChannelSlot {
                config: config@,
                eventfd: match eventfd_raw {
                    Some(d) => Some(d.fd),
                    None => None,
                },
            }),
            r matches Err(e) ==> e == RtipcError::InvalidResource,
    {
        let eventfd = match eventfd_raw {
            Some(descriptor) => match into_eventfd(descriptor) {
                Ok(fd) => Some(fd),
                Err(e) => { return Err(e); },
            },
            None => None,
        };
        Ok(ChannelResource { config: config.duplicate(), eventfd })
    }
}

/// Gives each of `params` its wake-up descriptor from `descriptors`,
/// starting behind the `start` channels of `all` that came before.
fn assign_received(
    all: Ghost<Seq<ChannelConfig>>,
    params: &Vec<ChannelParam>,
    start: usize,
    descriptors: &Vec<Descriptor>,
    next: &mut usize,
) -> (r: Result<Vec<ChannelResource>, RtipcError>)
    requires
        start + params@.len() <= all@.len(),
        forall|i: int| 0 <= i < params@.len() ==> all@[start + i] == (#[trigger] params@[i])@,
        *old(next) == wakeups(all@, start as int),
        wakeup_error(all@, descriptors@, start as int).is_none(),
    ensures
        r.is_ok() <==> wakeup_error(all@, descriptors@, start + params@.len()).is_none(),
        r matches Ok(channels) ==> {
            &&& slots_of(channels@) == assigned(
                all@,
                numbers(descriptors@),
                start as int,
                start + params@.len(),
            )
            &&& *final(next) == wakeups(all@, start + params@.len())
        },
        r matches Err(e) ==> Some(e) == wakeup_error(all@, descriptors@, start + params@.len()),
{
    let mut channels: Vec<ChannelResource> = Vec::with_capacity(params.len());
    let mut i: usize = 0;
    while i < params.len()
        invariant
            0 <= i <= params@.len(),
            start + params@.len() <= all@.len(),
            forall|k: int| 0 <= k < params@.len() ==> all@[start + k] == (#[trigger] params@[k])@,
            *next == wakeups(all@, start + i),
            wakeup_error(all@, descriptors@, start + i).is_none(),
            channels@.len() == i,
            forall|k: int|
                0 <= k < i ==> (#[trigger] channels@[k])@ == (ChannelSlot {
                    config: all@[start + k],
                    eventfd: wakeup_of(all@, numbers(descriptors@), start + k),
                }),
        decreases params@.len() - i,
    {
        let param = &params[i];
        proof {
            lemma_wakeups_bounds(all@, start + i);
            assert(all@[start + i] == params@[i as int]@);
        }
        let channel = if param.eventfd {
            if *next >= descriptors.len() {
                proof {
                    lemma_error_stays(all@, descriptors@, start + i + 1, start + params@.len());
                }
                return Err(RtipcError::MissingDescriptor);
            }
            let descriptor = &descriptors[*next];
            match ChannelResource::new(param, Some(descriptor)) {
                Ok(c) => {
                    *next = *next + 1;
                    c
                },
                Err(e) => {
                    proof {
                        lemma_error_stays(all@, descriptors@, start + i + 1, start + params@.len());
                    }
                    return Err(e);
                },
            }
        } else {
            match ChannelResource::new(param, None) {
                Ok(c) => c,
                Err(e) => {
                    return Err(e);
                },
            }
        };
        channels.push(channel);
        i = i + 1;
    }
    proof {
        assert(slots_of(channels@) =~= assigned(
            all@,
            numbers(descriptors@),
            start as int,
            start + params@.len(),
        ));
    }
    Ok(channels)
}

proof fn lemma_error_stays(
    channels: Seq<ChannelConfig>,
    descriptors: Seq<Descriptor>,
    from: int,
    to: int,
)
    requires
        0 <= from <= to,
        wakeup_error(channels, descriptors, from).is_some(),
    ensures
        wakeup_error(channels, descriptors, to) == wakeup_error(channels, descriptors, from),
    decreases to - from,
{
    if from < to {
        lemma_error_stays(channels, descriptors, from, to - 1);
    }
}

/// Number of channels in `params` that ask for a wake-up descriptor.
fn count_wakeups(all: Ghost<Seq<ChannelConfig>>, params: &Vec<ChannelParam>, start: usize) -> (r:
    usize)
    requires
        start + params@.len() <= all@.len(),
        forall|i: int| 0 <= i < params@.len() ==> all@[start + i] == (#[trigger] params@[i])@,
    ensures
        r == wakeups(all@, start + params@.len()) - wakeups(all@, start as int),
{
    let mut count: usize = 0;
    let mut i: usize = 0;
    while i < params.len()
        invariant
            0 <= i <= params@.len(),
            start + params@.len() <= all@.len(),
            forall|k: int| 0 <= k < params@.len() ==> all@[start + k] == (#[trigger] params@[k])@,
            count == wakeups(all@, start + i) - wakeups(all@, start as int),
            count <= i,
        decreases params@.len() - i,
    {
        proof {
            assert(all@[start + i] == params@[i as int]@);
        }
        if params[i].eventfd {
            count = count + 1;
        }
        i = i + 1;
    }
    count
}

/// Gives each of `params` its wake-up descriptor from the numbers `fds`.
fn assign_made(
    all: Ghost<Seq<ChannelConfig>>,
    params: &Vec<ChannelParam>,
    start: usize,
    fds: &Vec<i32>,
    next: &mut usize,
) -> (r: Vec<ChannelResource>)
    requires
        start + params@.len() <= all@.len(),
        forall|i: int| 0 <= i < params@.len() ==> all@[start + i] == (#[trigger] params@[i])@,
        *old(next) == wakeups(all@, start as int),
        wakeups(all@, start + params@.len()) <= fds@.len(),
    ensures
        slots_of(r@) == assigned(all@, fds@, start as int, start + params@.len()),
        *final(next) == wakeups(all@, start + params@.len()),
{
    let mut channels: Vec<ChannelResource> = Vec::with_capacity(params.len());
    let mut i: usize = 0;
    while i < params.len()
        invariant
            0 <= i <= params@.len(),
            start + params@.len() <= all@.len(),
            forall|k: int| 0 <= k < params@.len() ==> all@[start + k] == (#[trigger] params@[k])@,
            *next == wakeups(all@, start + i),
            wakeups(all@, start + params@.len()) <= fds@.len(),
            channels@.len() == i,
            forall|k: int|
                0 <= k < i ==> (#[trigger] channels@[k])@ == (ChannelSlot {
                    config: all@[start + k],
                    eventfd: wakeup_of(all@, fds@, start + k),
                }),
        decreases params@.len() - i,
    {
        let param = &params[i];
        proof {
            lemma_wakeups_bounds(all@, start + i);
            lemma_wakeups_grow(all@, start + i + 1, start + params@.len());
            assert(all@[start + i] == params@[i as int]@);
        }
        let eventfd = if param.eventfd {
            let limit: usize = fds.len();
            assert(*next < limit);
            let fd = fds[*next];
            *next = *next + 1;
            Some(fd)
        } else {
            None
        };
        channels.push(ChannelResource { config: param.duplicate(), eventfd });
        i = i + 1;
    }
    proof {
        assert(slots_of(channels@) =~= assigned(all@, fds@, start as int, start + params@.len()));
    }
    channels
}

proof fn lemma_wakeups_grow(channels: Seq<ChannelConfig>, from: int, to: int)
    requires
        0 <= from <= to,
    ensures
        wakeups(channels, from) <= wakeups(channels, to),
    decreases to - from,
{
    if from < to {
        lemma_wakeups_grow(channels, from, to - 1);
    }
}

/// The wake-up descriptors of a list of channels, in order.
pub open spec fn wakeup_fds(channels: Seq<ChannelSlot>) -> Seq<i32>
    decreases channels.len(),
{
    if channels.len() == 0 {
        Seq::empty()
    } else {
        match channels.last().eventfd {
            Some(fd) => wakeup_fds(channels.drop_last()).push(fd),
            None => wakeup_fds(channels.drop_last()),
        }
    }
}

impl VectorResource {
    /// The channels of the initiator's configuration in wire order:
    /// producers, then consumers.
    pub open spec fn wire_order(vconfig: &VectorParam) -> Seq<ChannelConfig> {
        vconfig@.producers + vconfig@.consumers
    }

    /// Number of wake-up descriptors that a configuration asks for, or
    /// `None` where it has more channels than the machine word counts.
    pub fn count_eventfds(vconfig: &VectorParam) -> (r: Option<usize>)
        ensures
            r.is_some() <==> Self::wire_order(vconfig).len() <= usize::MAX,
            r matches Some(count) ==> count == wakeups(
                Self::wire_order(vconfig),
                Self::wire_order(vconfig).len() as int,
            ),
    {
        let ghost all = Self::wire_order(vconfig);
        let split = vconfig.producers.len();
        if split.checked_add(vconfig.consumers.len()).is_none() {
            return None;
        }
        let producers = count_wakeups(Ghost(all), &vconfig.producers, 0);
        proof {
            assert forall|i: int| 0 <= i < vconfig.consumers@.len() implies all[split + i] == (
            #[trigger] vconfig.consumers@[i])@ by {}
            lemma_wakeups_bounds(all, all.len() as int);
        }
        let consumers = count_wakeups(Ghost(all), &vconfig.consumers, split);
        proof {
            lemma_wakeups_bounds(all, split as int);
        }
        Some(producers + consumers)
    }

    /// The acceptor's side of a channel vector: the channels of the
    /// initiator's configuration with the descriptors that came with the
    /// request, producers and consumers swapped.
    ///
    /// `RtipcError::InvalidResource` where the arena's descriptor is no
    /// memory file; else the first error of `wakeup_error`. Descriptors
    /// that no channel asks for are left alone.
    pub fn new(vconfig: &VectorParam, shmfd: &Descriptor, eventfds: &Vec<Descriptor>) -> (r:
        Result<Self, RtipcError>)
        ensures
            r.is_ok() <==> has_prefix(shmfd.link@, memfd_link()) && wakeup_error(
                Self::wire_order(vconfig),
                eventfds@,
                Self::wire_order(vconfig).len() as int,
            ).is_none(),
            r matches Ok(resource) ==> {
                let all = Self::wire_order(vconfig);
                let split = vconfig@.producers.len() as int;
                &&& slots_of(resource.consumers@) == assigned(all, numbers(eventfds@), 0, split)
                &&& slots_of(resource.producers@) == assigned(
                    all,
                    numbers(eventfds@),
                    split,
                    all.len() as int,
                )
                &&& resource.info@ == vconfig@.info
                &&& resource.shmfd == shmfd.fd
                &&& !resource.owner
            },
            r matches Err(e) ==> e == (if !has_prefix(shmfd.link@, memfd_link()) {
                RtipcError::InvalidResource
            } else {
                wakeup_error(
                    Self::wire_order(vconfig),
                    eventfds@,
                    Self::wire_order(vconfig).len() as int,
                ).unwrap()
            }),
    {
        match check_memfd(shmfd) {
            Ok(()) => {},
            Err(e) => { return Err(e); },
        }
        let ghost all = Self::wire_order(vconfig);
        let split = vconfig.producers.len();
        let mut next: usize = 0;
        let consumers = match assign_received(
            Ghost(all),
            &vconfig.producers,
            0,
            eventfds,
            &mut next,
        ) {
            Ok(c) => c,
            Err(e) => {
                proof {
                    lemma_error_stays(all, eventfds@, split as int, all.len() as int);
                }
                return Err(e);
            },
        };
        proof {
            assert forall|i: int| 0 <= i < vconfig.consumers@.len() implies all[split + i] == (
            #[trigger] vconfig.consumers@[i])@ by {}
        }
        let producers = match assign_received(
            Ghost(all),
            &vconfig.consumers,
            split,
            eventfds,
            &mut next,
        ) {
            Ok(p) => p,
            Err(e) => { return Err(e); },
        };
        let info = vconfig.info.clone();
        assert(info@ =~= vconfig.info@);
        Ok(VectorResource { producers, consumers, info, shmfd: shmfd.fd, owner: false })
    }

    /// The acceptor's side of a channel vector, from the request as it was
    /// received: reads the configuration, then gives each channel its
    /// descriptor as `new` does.
    ///
    /// The error of `parse` comes first, as `RtipcError::Message`; else the
    /// errors are those of `new`.
    pub fn from_request(
        msg: &[u8],
        shmfd: &Descriptor,
        eventfds: &Vec<Descriptor>,
        cls: usize,
    ) -> (r: Result<Self, RtipcError>)
        ensures
            parse(msg@, cls as nat) matches Err(e) ==> r matches Err(f) && f
                == RtipcError::Message(e),
            parse(msg@, cls as nat) matches Ok(config) ==> {
                let all = config.producers + config.consumers;
                let split = config.producers.len() as int;
                let count = all.len() as int;
                &&& r.is_ok() <==> has_prefix(shmfd.link@, memfd_link()) && wakeup_error(
                    all,
                    eventfds@,
                    count,
                ).is_none()
                &&& r matches Ok(resource) ==> {
                    &&& slots_of(resource.consumers@) == assigned(
                        all,
                        numbers(eventfds@),
                        0,
                        split,
                    )
                    &&& slots_of(resource.producers@) == assigned(
                        all,
                        numbers(eventfds@),
                        split,
                        count,
                    )
                    &&& resource.info@ == config.info
                    &&& resource.shmfd == shmfd.fd
                    &&& !resource.owner
                }
                &&& r matches Err(e) ==> e == (if !has_prefix(shmfd.link@, memfd_link()) {
                    RtipcError::InvalidResource
                } else {
                    wakeup_error(all, eventfds@, count).unwrap()
                })
            },
    {
        let vparam = match parse_request(msg, cls) {
            Ok(v) => v,
            Err(e) => { return Err(RtipcError::Message(e)); },
        };
        Self::new(&vparam, shmfd, eventfds)
    }

    /// The initiator's side of a channel vector: its channels with the
    /// descriptors that were made for them.
    ///
    /// `RtipcError::Argument` where the configuration has no channel, or
    /// more channels than the machine word counts;
    /// `RtipcError::MissingDescriptor` where `eventfds` holds fewer
    /// descriptors than the channels ask for.
    pub fn allocate(vconfig: &VectorParam, shmfd: i32, eventfds: &Vec<i32>) -> (r: Result<
        Self,
        RtipcError,
    >)
        ensures
            r.is_ok() <==> 0 < Self::wire_order(vconfig).len() <= usize::MAX && wakeups(
                Self::wire_order(vconfig),
                Self::wire_order(vconfig).len() as int,
            ) <= eventfds@.len(),
            r matches Ok(resource) ==> {
                let all = Self::wire_order(vconfig);
                let split = vconfig@.producers.len() as int;
                &&& slots_of(resource.producers@) == assigned(all, eventfds@, 0, split)
                &&& slots_of(resource.consumers@) == assigned(
                    all,
                    eventfds@,
                    split,
                    all.len() as int,
                )
                &&& resource.info@ == vconfig@.info
                &&& resource.shmfd == shmfd
                &&& resource.owner
            },
            r matches Err(e) ==> e == (if 0 < Self::wire_order(vconfig).len() <= usize::MAX {
                RtipcError::MissingDescriptor
            } else {
                RtipcError::Argument
            }),
    {
        let ghost all = Self::wire_order(vconfig);
        let split = vconfig.producers.len();
        if split == 0 && vconfig.consumers.len() == 0 {
            return Err(RtipcError::Argument);
        }
        match Self::count_eventfds(vconfig) {
            Some(count) => {
                if count > eventfds.len() {
                    return Err(RtipcError::MissingDescriptor);
                }
            },
            None => { return Err(RtipcError::Argument); },
        }
        proof {
            lemma_wakeups_grow(all, split as int, all.len() as int);
            assert forall|i: int| 0 <= i < vconfig.consumers@.len() implies all[split + i] == (
            #[trigger] vconfig.consumers@[i])@ by {}
        }
        let mut next: usize = 0;
        let producers = assign_made(Ghost(all), &vconfig.producers, 0, eventfds, &mut next);
        let consumers = assign_made(Ghost(all), &vconfig.consumers, split, eventfds, &mut next);
        let info = vconfig.info.clone();
        assert(info@ =~= vconfig.info@);
        Ok(VectorResource { producers, consumers, info, shmfd, owner: true })
    }

    /// Adds a consumer with the given configuration and, where there is
    /// one, the descriptor as its wake-up descriptor; fails as
    /// `ChannelResource::new` does, and leaves the resource unchanged then.
    pub fn add_consumer(&mut self, config: &ChannelParam, eventfd: Option<&Descriptor>) -> (r:
        Result<(), RtipcError>)
        ensures
            r.is_ok() <==> (eventfd matches Some(d) ==> has_prefix(d.link@, eventfd_link())),
            r.is_ok() ==> final(self).consumers@.len() == old(self).consumers@.len() + 1
                && final(self).consumers@.last()@ == (ChannelSlot {
                config: config@,
                eventfd: match eventfd {
                    Some(d) => Some(d.fd),
                    None => None,
                },
            }) && final(self).consumers@.drop_last() == old(self).consumers@,
            r matches Err(e) ==> e == RtipcError::InvalidResource && final(self).consumers@ == old(
                self,
            ).consumers@,
            final(self).producers@ == old(self).producers@,
            final(self).info@ == old(self).info@,
            final(self).shmfd == old(self).shmfd,
            final(self).owner == old(self).owner,
    {
        let channel = match ChannelResource::new(config, eventfd) {
            Ok(c) => c,
            Err(e) => { return Err(e); },
        };
        self.consumers.push(channel);
        assert(self.consumers@.drop_last() =~= old(self).consumers@);
        Ok(())
    }

    /// Adds a producer with the given configuration and, where there is
    /// one, the descriptor as its wake-up descriptor; fails as
    /// `ChannelResource::new` does, and leaves the resource unchanged then.
    pub fn add_producer(&mut self, config: &ChannelParam, eventfd: Option<&Descriptor>) -> (r:
        Result<(), RtipcError>)
        ensures
            r.is_ok() <==> (eventfd matches Some(d) ==> has_prefix(d.link@, eventfd_link())),
            r.is_ok() ==> final(self).producers@.len() == old(self).producers@.len() + 1
                && final(self).producers@.last()@ == (ChannelSlot {
                config: config@,
                eventfd: match eventfd {
                    Some(d) => Some(d.fd),
                    None => None,
                },
            }) && final(self).producers@.drop_last() == old(self).producers@,
            r matches Err(e) ==> e == RtipcError::InvalidResource && final(self).producers@ == old(
                self,
            ).producers@,
            final(self).consumers@ == old(self).consumers@,
            final(self).info@ == old(self).info@,
            final(self).shmfd == old(self).shmfd,
            final(self).owner == old(self).owner,
    {
        let channel = match ChannelResource::new(config, eventfd) {
            Ok(c) => c,
            Err(e) => { return Err(e); },
        };
        self.producers.push(channel);
        assert(self.producers@.drop_last() =~= old(self).producers@);
        Ok(())
    }

    /// The metadata of consumer `index`, if there is such a consumer.
    pub fn consumer_info(&self, index: usize) -> (r: Option<&Vec<u8>>)
        ensures
            r.is_some() <==> index < self.consumers@.len(),
            r matches Some(info) ==> info@ == self.consumers@[index as int].config.info@,
    {
        if index < self.consumers.len() {
            Some(&self.consumers[index].config.info)
        } else {
            None
        }
    }

    /// The metadata of producer `index`, if there is such a producer.
    pub fn producer_info(&self, index: usize) -> (r: Option<&Vec<u8>>)
        ensures
            r.is_some() <==> index < self.producers@.len(),
            r matches Some(info) ==> info@ == self.producers@[index as int].config.info@,
    {
        if index < self.producers.len() {
            Some(&self.producers[index].config.info)
        } else {
            None
        }
    }

    /// The metadata of the vector.
    pub fn info(&self) -> (r: &Vec<u8>)
        ensures
            r@ == self.info@,
    {
        &self.info
    }

    /// The descriptors as they travel with the request: the arena, the
    /// wake-up descriptors of the producers, those of the consumers.
    pub fn collect_fds(&self) -> (r: Vec<i32>)
        ensures
            r@ == seq![self.shmfd] + wakeup_fds(slots_of(self.producers@)) + wakeup_fds(
                slots_of(self.consumers@),
            ),
    {
        let mut fds: Vec<i32> = Vec::new();
        fds.push(self.shmfd);
        let ghost producers = slots_of(self.producers@);
        let ghost consumers = slots_of(self.consumers@);
        let mut i: usize = 0;
        proof {
            assert(producers.take(0) =~= Seq::<ChannelSlot>::empty());
            assert(fds@ =~= seq![self.shmfd] + wakeup_fds(producers.take(0)));
        }
        while i < self.producers.len()
            invariant
                0 <= i <= self.producers@.len(),
                producers == slots_of(self.producers@),
                fds@ == seq![self.shmfd] + wakeup_fds(producers.take(i as int)),
            decreases self.producers@.len() - i,
        {
            proof {
                assert(producers.take(i + 1).drop_last() =~= producers.take(i as int));
                assert(producers.take(i + 1).last() == self.producers@[i as int]@);
            }
            match self.producers[i].eventfd {
                Some(fd) => {
                    fds.push(fd);
                },
                None => {},
            }
            assert(fds@ =~= seq![self.shmfd] + wakeup_fds(producers.take(i + 1)));
            i = i + 1;
        }
        let ghost front = fds@;
        let mut j: usize = 0;
        proof {
            assert(producers.take(producers.len() as int) =~= producers);
            assert(consumers.take(0) =~= Seq::<ChannelSlot>::empty());
            assert(fds@ =~= front + wakeup_fds(consumers.take(0)));
        }
        while j < self.consumers.len()
            invariant
                0 <= j <= self.consumers@.len(),
                consumers == slots_of(self.consumers@),
                fds@ == front + wakeup_fds(consumers.take(j as int)),
            decreases self.consumers@.len() - j,
        {
            proof {
                assert(consumers.take(j + 1).drop_last() =~= consumers.take(j as int));
                assert(consumers.take(j + 1).last() == self.consumers@[j as int]@);
            }
            match self.consumers[j].eventfd {
                Some(fd) => {
                    fds.push(fd);
                },
                None => {},
            }
            assert(fds@ =~= front + wakeup_fds(consumers.take(j + 1)));
            j = j + 1;
        }
        proof {
            assert(consumers.take(consumers.len() as int) =~= consumers);
        }
        fds
    }
}

/// The wake-up descriptors of the channels `from..to`, collected in order,
/// are the descriptors that these channels took off the list: the list is
/// sent in the order in which it is taken apart.
pub proof fn lemma_collect_in_order(channels: Seq<ChannelConfig>, fds: Seq<i32>, from: int, to: int)
    requires
        0 <= from <= to <= channels.len(),
        wakeups(channels, to) <= fds.len(),
    ensures
        0 <= wakeups(channels, from) <= wakeups(channels, to),
        wakeup_fds(assigned(channels, fds, from, to)) == fds.subrange(
            wakeups(channels, from),
            wakeups(channels, to),
        ),
    decreases to - from,
{
    lemma_wakeups_bounds(channels, from);
    lemma_wakeups_grow(channels, from, to);
    if from < to {
        lemma_wakeups_grow(channels, to - 1, to);
        lemma_collect_in_order(channels, fds, from, to - 1);
        let all = assigned(channels, fds, from, to);
        assert(all.drop_last() =~= assigned(channels, fds, from, to - 1));
        assert(all.last().eventfd == wakeup_of(channels, fds, to - 1));
        assert(wakeup_fds(all) =~= fds.subrange(wakeups(channels, from), wakeups(channels, to)));
    } else {
        assert(wakeup_fds(assigned(channels, fds, from, to)) =~= fds.subrange(
            wakeups(channels, from),
            wakeups(channels, to),
        ));
    }
}

} // verus!
