//! The request that carries the configuration of a channel vector to the
//! peer, and the response that accepts or rejects it.
//!
//! | offset | field | bytes |
//! |---|---|---|
//! | 0 | header | 8 |
//! | 8 | size of the vector's metadata | 4 |
//! | 12 | number of producers `P` | 4 |
//! | 16 | number of consumers `C` | 4 |
//! | 20 | channel entries | 16 each |
//! | 20 + 16 (P + C) | the vector's metadata | |
//! | | the channels' metadata, producers first | |
//!
//! An entry holds the additional messages, the message size, the wake-up
//! flag and the size of the channel's metadata. All numbers are
//! little-endian 32-bit words.
use vstd::prelude::*;
use vstd::bytes::spec_u32_from_le_bytes;
use vstd::bytes::spec_u32_to_le_bytes;
use vstd::bytes::u32_from_le_bytes;
use vstd::bytes::u32_to_le_bytes;
use vstd::bytes::lemma_auto_spec_u32_to_from_le_bytes;
use vstd::slice::slice_subrange;
use vstd::slice::slice_to_vec;
use crate::error::MessageError;
use crate::error::RtipcError;
use crate::header::append;
use crate::header::check_header;
use crate::header::header_bytes;
use crate::header::lemma_header_accepted;
use crate::header::verify_header;
use crate::header::write_header;
use crate::header::HEADER_SIZE;
use crate::param::configs;
use crate::param::ChannelConfig;
use crate::param::ChannelParam;
use crate::param::VectorConfig;
use crate::param::VectorParam;

verus! {

/// Bytes of one channel entry.
pub const ENTRY_SIZE: usize = 16;

/// Offset of the first channel entry.
pub const TABLE_OFFSET: usize = 20;

/// A number cut down to the 32 bits of a wire field.
pub open spec fn wire_word(value: nat) -> u32 {
    (value % 0x1_0000_0000) as u32
}

/// The little-endian 32-bit word at `at`.
pub open spec fn read_u32(bytes: Seq<u8>, at: int) -> u32 {
    spec_u32_from_le_bytes(bytes.subrange(at, at + 4))
}

/// One record of the channel table.
pub struct ChannelEntry {
    pub additional_messages: u32,
    pub message_size: u32,
    pub eventfd: u32,
    pub info_size: u32,
}

impl ChannelEntry {
    /// The entry that stands for a channel on the wire.
    pub open spec fn of(config: ChannelConfig) -> ChannelEntry {
        ChannelEntry {
            additional_messages: wire_word(config.additional_messages),
            message_size: wire_word(config.message_size),
            eventfd: if config.eventfd {
                1
            } else {
                0
            },
            info_size: wire_word(config.info.len()),
        }
    }

    /// The sixteen bytes of the entry.
    pub open spec fn bytes(self) -> Seq<u8> {
        spec_u32_to_le_bytes(self.additional_messages) + spec_u32_to_le_bytes(self.message_size)
            + spec_u32_to_le_bytes(self.eventfd) + spec_u32_to_le_bytes(self.info_size)
    }

    /// The entry of a channel, each number cut down to 32 bits.
    pub fn from_param(param: &ChannelParam) -> (r: Self)
        ensures
            r == Self::of(param@),
    {
        ChannelEntry {
            additional_messages: to_wire_word(param.additional_messages),
            message_size: to_wire_word(param.message_size),
            eventfd: if param.eventfd {
                1
            } else {
                0
            },
            info_size: to_wire_word(param.info.len()),
        }
    }
}

/// Cuts a number down to the 32 bits of a wire field.
fn to_wire_word(value: usize) -> (r: u32)
    ensures
        r == wire_word(value as nat),
{
    (value as u64 % 0x1_0000_0000u64) as u32
}

/// The entries of the channels, in order.
pub open spec fn entries_bytes(channels: Seq<ChannelConfig>) -> Seq<u8>
    decreases channels.len(),
{
    if channels.len() == 0 {
        Seq::empty()
    } else {
        entries_bytes(channels.drop_last()) + ChannelEntry::of(channels.last()).bytes()
    }
}

/// The metadata of the channels, in order.
pub open spec fn infos_bytes(channels: Seq<ChannelConfig>) -> Seq<u8>
    decreases channels.len(),
{
    if channels.len() == 0 {
        Seq::empty()
    } else {
        infos_bytes(channels.drop_last()) + channels.last().info
    }
}

/// The request for a configuration from a host with cache line size `cls`.
pub open spec fn encode(config: VectorConfig, cls: u16) -> Seq<u8> {
    let channels = config.producers + config.consumers;
    header_bytes(cls) + spec_u32_to_le_bytes(wire_word(config.info.len())) + spec_u32_to_le_bytes(
        wire_word(config.producers.len()),
    ) + spec_u32_to_le_bytes(wire_word(config.consumers.len())) + entries_bytes(channels)
        + config.info + infos_bytes(channels)
}

/// Offset of the entry of channel `i`.
pub open spec fn entry_offset(i: int) -> int {
    TABLE_OFFSET as int + (ENTRY_SIZE as int) * i
}

/// Number of channels that the request announces.
pub open spec fn wire_channels(bytes: Seq<u8>) -> int {
    read_u32(bytes, 12) as int + read_u32(bytes, 16) as int
}

/// Size of the metadata of channel `i`, as its entry gives it.
pub open spec fn wire_info_size(bytes: Seq<u8>, i: int) -> int {
    read_u32(bytes, entry_offset(i) + 12) as int
}

/// Offset behind the channel table, where the vector's metadata starts.
pub open spec fn vector_info_offset(bytes: Seq<u8>) -> int {
    entry_offset(wire_channels(bytes))
}

/// Offset of the metadata of channel `i`.
pub open spec fn info_offset(bytes: Seq<u8>, i: int) -> int
    decreases i,
{
    if i <= 0 {
        vector_info_offset(bytes) + read_u32(bytes, 8) as int
    } else {
        info_offset(bytes, i - 1) + wire_info_size(bytes, i - 1)
    }
}

/// The entry of channel `i` announces a message size, and its metadata
/// lies inside the request.
pub open spec fn entry_ok(bytes: Seq<u8>, i: int) -> bool {
    read_u32(bytes, entry_offset(i) + 4) != 0 && info_offset(bytes, i) + wire_info_size(bytes, i)
        <= bytes.len()
}

/// Channel `i` as the request gives it.
pub open spec fn wire_channel(bytes: Seq<u8>, i: int) -> ChannelConfig {
    ChannelConfig {
        additional_messages: read_u32(bytes, entry_offset(i)) as nat,
        message_size: read_u32(bytes, entry_offset(i) + 4) as nat,
        eventfd: read_u32(bytes, entry_offset(i) + 8) != 0,
        info: bytes.subrange(info_offset(bytes, i), info_offset(bytes, i) + wire_info_size(bytes, i)),
    }
}

/// What a host with cache line size `cls` reads from a request.
///
/// A header that differs gives the error of `check_header`. A request that
/// ends before its counts, its channel table or the vector's metadata, an
/// entry with message size zero, and metadata that reaches beyond the end
/// give `MessageError::Size`. Bytes behind the last metadata are ignored.
pub open spec fn parse(bytes: Seq<u8>, cls: nat) -> Result<VectorConfig, MessageError> {
    let producers = read_u32(bytes, 12) as int;
    let consumers = read_u32(bytes, 16) as int;
    if check_header(bytes, cls) is Err {
        Err(check_header(bytes, cls)->Err_0)
    } else if bytes.len() < TABLE_OFFSET {
        Err(MessageError::Size)
    } else if info_offset(bytes, 0) > bytes.len() {
        Err(MessageError::Size)
    } else if !(forall|i: int| 0 <= i < producers + consumers ==> entry_ok(bytes, i)) {
        Err(MessageError::Size)
    } else {
        Ok(
            VectorConfig {
                producers: Seq::new(producers as nat, |i: int| wire_channel(bytes, i)),
                consumers: Seq::new(consumers as nat, |i: int| wire_channel(bytes, producers + i)),
                info: bytes.subrange(vector_info_offset(bytes), info_offset(bytes, 0)),
            },
        )
    }
}

/// Reads the 32-bit word at `offset`; `MessageError::Size` where the
/// request ends before it.
pub fn request_read(request: &[u8], offset: usize) -> (r: Result<u32, MessageError>)
    ensures
        r.is_ok() <==> offset + 4 <= request@.len(),
        r matches Ok(word) ==> word == read_u32(request@, offset as int),
        r matches Err(e) ==> e == MessageError::Size,
{
    if offset > request.len() || request.len() - offset < 4 {
        return Err(MessageError::Size);
    }
    Ok(u32_from_le_bytes(slice_subrange(request, offset, offset + 4)))
}

/// Appends `val` to the request as a 32-bit word.
pub fn request_write(request: &mut Vec<u8>, val: u32)
    ensures
        final(request)@ == old(request)@ + spec_u32_to_le_bytes(val),
{
    append(request, u32_to_le_bytes(val).as_slice());
}

/// Appends the entry of `param` to the request.
pub fn request_write_param(request: &mut Vec<u8>, param: &ChannelParam)
    ensures
        final(request)@ == old(request)@ + ChannelEntry::of(param@).bytes(),
{
    let entry = ChannelEntry::from_param(param);
    request_write(request, entry.additional_messages);
    request_write(request, entry.message_size);
    request_write(request, entry.eventfd);
    request_write(request, entry.info_size);
    assert(request@ =~= old(request)@ + ChannelEntry::of(param@).bytes());
}

/// Reads the entry at `entry_offset` and the metadata it announces at
/// `info_offset`, and moves both offsets behind what was read.
///
/// `MessageError::Size` where the request ends before the entry or before
/// the end of the metadata, or the entry announces message size zero; the
/// offsets are then unchanged.
pub fn request_read_entry(request: &[u8], entry_offset: &mut usize, info_offset: &mut usize) -> (r:
    Result<ChannelParam, MessageError>)
    ensures
        r.is_ok() <==> {
            &&& *old(entry_offset) + ENTRY_SIZE <= request@.len()
            &&& read_u32(request@, *old(entry_offset) + 4) != 0
            &&& *old(info_offset) + read_u32(request@, *old(entry_offset) + 12) <= request@.len()
        },
        r matches Ok(param) ==> {
            &&& param@ == (ChannelConfig {
                additional_messages: read_u32(request@, *old(entry_offset) as int) as nat,
                message_size: read_u32(request@, *old(entry_offset) + 4) as nat,
                eventfd: read_u32(request@, *old(entry_offset) + 8) != 0,
                info: request@.subrange(
                    *old(info_offset) as int,
                    *old(info_offset) + read_u32(request@, *old(entry_offset) + 12),
                ),
            })
            &&& *final(entry_offset) == *old(entry_offset) + ENTRY_SIZE
            &&& *final(info_offset) == *old(info_offset) + read_u32(
                request@,
                *old(entry_offset) + 12,
            )
        },
        r matches Err(e) ==> {
            &&& e == MessageError::Size
            &&& *final(entry_offset) == *old(entry_offset)
            &&& *final(info_offset) == *old(info_offset)
        },
{
    let at: usize = *entry_offset;
    let from: usize = *info_offset;
    if at > request.len() || request.len() - at < ENTRY_SIZE {
        return Err(MessageError::Size);
    }
    let additional_messages = u32_from_le_bytes(slice_subrange(request, at, at + 4));
    let message_size = u32_from_le_bytes(slice_subrange(request, at + 4, at + 8));
    let eventfd = u32_from_le_bytes(slice_subrange(request, at + 8, at + 12));
    let info_size = u32_from_le_bytes(slice_subrange(request, at + 12, at + 16));
    if message_size == 0 {
        return Err(MessageError::Size);
    }
    if from > request.len() || request.len() - from < info_size as usize {
        return Err(MessageError::Size);
    }
    let info = slice_to_vec(slice_subrange(request, from, from + info_size as usize));
    *entry_offset = at + ENTRY_SIZE;
    *info_offset = from + info_size as usize;
    Ok(
        ChannelParam {
            additional_messages: additional_messages as usize,
            message_size: message_size as usize,
            eventfd: eventfd != 0,
            info,
        },
    )
}

/// Reads `count` entries, the first of them channel `first` of the
/// request.
fn read_entries(
    request: &[u8],
    first: usize,
    count: usize,
    entry_offset: &mut usize,
    info_offset: &mut usize,
) -> (r: Result<Vec<ChannelParam>, MessageError>)
    requires
        *old(entry_offset) == self::entry_offset(first as int),
        *old(info_offset) == self::info_offset(request@, first as int),
        self::entry_offset(first + count) <= request@.len(),
    ensures
        r.is_ok() <==> (forall|i: int| first <= i < first + count ==> entry_ok(request@, i)),
        r matches Ok(params) ==> {
            &&& configs(params@) == Seq::new(
                count as nat,
                |i: int| wire_channel(request@, first + i),
            )
            &&& *final(entry_offset) == self::entry_offset(first + count)
            &&& *final(info_offset) == self::info_offset(request@, first + count)
        },
        r matches Err(e) ==> e == MessageError::Size,
{
    let mut params: Vec<ChannelParam> = Vec::new();
    let mut i: usize = 0;
    while i < count
        invariant
            0 <= i <= count,
            self::entry_offset(first + count) <= request@.len(),
            *entry_offset == self::entry_offset(first + i),
            *info_offset == self::info_offset(request@, first + i),
            params@.len() == i,
            forall|k: int| first <= k < first + i ==> entry_ok(request@, k),
            forall|k: int| 0 <= k < i ==> (#[trigger] params@[k])@ == wire_channel(request@, first + k),
        decreases count - i,
    {
        let ghost at = first + i;
        match request_read_entry(request, entry_offset, info_offset) {
            Ok(param) => {
                params.push(param);
            },
            Err(e) => {
                proof {
                    assert(!entry_ok(request@, at));
                }
                return Err(e);
            },
        }
        proof {
            assert(entry_ok(request@, at));
            assert(self::info_offset(request@, at + 1) == self::info_offset(request@, at)
                + wire_info_size(request@, at));
        }
        i = i + 1;
    }
    proof {
        assert(configs(params@) =~= Seq::new(
            count as nat,
            |i: int| wire_channel(request@, first + i),
        ));
    }
    Ok(params)
}

/// Reads the configuration of a channel vector from a request, on a host
/// with cache line size `cls`.
pub fn parse_request(request: &[u8], cls: usize) -> (r: Result<VectorParam, MessageError>)
    ensures
        r.is_ok() == parse(request@, cls as nat).is_ok(),
        r matches Ok(vparam) ==> parse(request@, cls as nat) == Ok::<VectorConfig, MessageError>(
            vparam@,
        ),
        r matches Err(e) ==> parse(request@, cls as nat) == Err::<VectorConfig, MessageError>(e),
{
    match verify_header(request, cls) {
        Ok(()) => {},
        Err(e) => { return Err(e); },
    }
    let vector_info_size: usize = match request_read(request, HEADER_SIZE) {
        Ok(word) => word as usize,
        Err(e) => { return Err(e); },
    };
    let num_producers: usize = match request_read(request, HEADER_SIZE + 4) {
        Ok(word) => word as usize,
        Err(e) => { return Err(e); },
    };
    let num_consumers: usize = match request_read(request, HEADER_SIZE + 8) {
        Ok(word) => word as usize,
        Err(e) => { return Err(e); },
    };
    let ghost bytes = request@;
    let len: usize = request.len();
    // The table and the vector's metadata must lie inside the request.
    let table: u64 = (num_producers as u64 + num_consumers as u64) * (ENTRY_SIZE as u64);
    let infos: u64 = TABLE_OFFSET as u64 + table + vector_info_size as u64;
    if infos > len as u64 {
        return Err(MessageError::Size);
    }
    let vector_info_offset: usize = TABLE_OFFSET + table as usize;
    let mut info_offset: usize = vector_info_offset + vector_info_size;
    let info = slice_to_vec(slice_subrange(request, vector_info_offset, info_offset));
    let mut entry_offset: usize = TABLE_OFFSET;
    let producers = match read_entries(
        request,
        0,
        num_producers,
        &mut entry_offset,
        &mut info_offset,
    ) {
        Ok(p) => p,
        Err(e) => { return Err(e); },
    };
    let consumers = match read_entries(
        request,
        num_producers,
        num_consumers,
        &mut entry_offset,
        &mut info_offset,
    ) {
        Ok(c) => c,
        Err(e) => { return Err(e); },
    };
    let vparam = VectorParam { producers, consumers, info };
    proof {
        let wanted = parse(bytes, cls as nat);
        assert forall|i: int| 0 <= i < num_producers + num_consumers implies entry_ok(bytes, i) by {
            if i >= num_producers {
                assert(entry_ok(bytes, i));
            }
        }
        assert(wanted is Ok);
        assert(vparam@.producers =~= wanted->Ok_0.producers);
        assert(vparam@.consumers =~= wanted->Ok_0.consumers);
        assert(vparam@.info =~= wanted->Ok_0.info);
    }
    Ok(vparam)
}

/// Offsets of the parts of a request, and its size.
pub struct Layout {
    /// Offset of the size of the vector's metadata.
    pub vector_info_offset: usize,
    /// Offsets of the number of producers and of consumers.
    pub num_channels: [usize; 2],
    /// Offset of the first channel entry.
    pub channel_table: usize,
    /// Offset of the vector's metadata.
    pub vector_info: usize,
    /// Offset of the metadata of the first channel.
    pub channel_infos: usize,
    /// Bytes of the whole request.
    pub size: usize,
}

/// Bytes of the metadata of the first `upto` channels.
pub open spec fn info_sum(channels: Seq<ChannelConfig>, upto: int) -> int
    decreases upto,
{
    if upto <= 0 {
        0
    } else {
        info_sum(channels, upto - 1) + channels[upto - 1].info.len()
    }
}

/// Bytes of the request of a configuration.
pub open spec fn encoded_len(config: VectorConfig) -> int {
    let channels = config.producers + config.consumers;
    TABLE_OFFSET as int + (ENTRY_SIZE as int) * channels.len() + config.info.len() + info_sum(
        channels,
        channels.len() as int,
    )
}

proof fn lemma_info_sum_prefix(channels: Seq<ChannelConfig>, shorter: Seq<ChannelConfig>, upto: int)
    requires
        0 <= upto <= shorter.len() <= channels.len(),
        forall|i: int| 0 <= i < shorter.len() ==> shorter[i] == channels[i],
    ensures
        info_sum(shorter, upto) == info_sum(channels, upto),
        info_sum(channels, upto) >= 0,
    decreases upto,
{
    if upto > 0 {
        lemma_info_sum_prefix(channels, shorter, upto - 1);
    }
}

impl Layout {
    /// The offsets of the request of `vparam`, or `None` where its size
    /// does not fit the machine word.
    pub fn calc(vparam: &VectorParam) -> (r: Option<Self>)
        ensures
            r.is_some() <==> encoded_len(vparam@) <= usize::MAX,
            r matches Some(layout) ==> {
                &&& layout.vector_info_offset == HEADER_SIZE
                &&& layout.num_channels[0] == HEADER_SIZE + 4
                &&& layout.num_channels[1] == HEADER_SIZE + 8
                &&& layout.channel_table == TABLE_OFFSET
                &&& layout.vector_info == entry_offset(
                    (vparam@.producers.len() + vparam@.consumers.len()) as int,
                )
                &&& layout.channel_infos == layout.vector_info + vparam@.info.len()
                &&& layout.size == encoded_len(vparam@)
            },
    {
        let ghost channels = vparam@.producers + vparam@.consumers;
        let producers: usize = vparam.producers.len();
        let consumers: usize = vparam.consumers.len();
        proof {
            lemma_info_sum_prefix(channels, channels, channels.len() as int);
        }
        let count: usize = match producers.checked_add(consumers) {
            Some(c) => c,
            None => { return None; },
        };
        let table: usize = match count.checked_mul(ENTRY_SIZE) {
            Some(t) => t,
            None => { return None; },
        };
        let vector_info: usize = match table.checked_add(TABLE_OFFSET) {
            Some(v) => v,
            None => { return None; },
        };
        let channel_infos: usize = match vector_info.checked_add(vparam.info.len()) {
            Some(c) => c,
            None => { return None; },
        };
        let mut size: usize = channel_infos;
        let mut i: usize = 0;
        while i < producers
            invariant
                0 <= i <= producers,
                producers == vparam.producers@.len(),
                channels == vparam@.producers + vparam@.consumers,
                size == channel_infos + info_sum(channels, i as int),
                channel_infos == TABLE_OFFSET + ENTRY_SIZE * channels.len() + vparam@.info.len(),
            decreases producers - i,
        {
            proof {
                lemma_info_sum_prefix(channels, channels, i as int + 1);
                lemma_info_sum_grows(channels, i as int + 1, channels.len() as int);
                assert(channels[i as int] == vparam.producers@[i as int]@);
            }
            size = match size.checked_add(vparam.producers[i].info.len()) {
                Some(s) => s,
                None => { return None; },
            };
            i = i + 1;
        }
        let mut j: usize = 0;
        while j < consumers
            invariant
                0 <= j <= consumers,
                producers == vparam.producers@.len(),
                consumers == vparam.consumers@.len(),
                channels == vparam@.producers + vparam@.consumers,
                size == channel_infos + info_sum(channels, producers + j),
                channel_infos == TABLE_OFFSET + ENTRY_SIZE * channels.len() + vparam@.info.len(),
            decreases consumers - j,
        {
            proof {
                lemma_info_sum_prefix(channels, channels, producers + j + 1);
                lemma_info_sum_grows(channels, producers + j + 1, channels.len() as int);
                assert(channels[producers + j] == vparam.consumers@[j as int]@);
            }
            size = match size.checked_add(vparam.consumers[j].info.len()) {
                Some(s) => s,
                None => { return None; },
            };
            j = j + 1;
        }
        Some(
            Layout {
                vector_info_offset: HEADER_SIZE,
                num_channels: [HEADER_SIZE + 4, HEADER_SIZE + 8],
                channel_table: TABLE_OFFSET,
                vector_info,
                channel_infos,
                size,
            },
        )
    }
}

proof fn lemma_info_sum_grows(channels: Seq<ChannelConfig>, from: int, to: int)
    requires
        0 <= from <= to,
    ensures
        0 <= info_sum(channels, from) <= info_sum(channels, to),
    decreases to - from,
{
    if from < to {
        lemma_info_sum_grows(channels, from, to - 1);
    } else {
        lemma_info_sum_prefix(channels, channels.take(0), 0);
        lemma_info_sum_nonnegative(channels, from);
    }
}

proof fn lemma_info_sum_nonnegative(channels: Seq<ChannelConfig>, upto: int)
    ensures
        info_sum(channels, upto) >= 0,
    decreases upto,
{
    if upto > 0 {
        lemma_info_sum_nonnegative(channels, upto - 1);
    }
}

/// Writes the request for `vparam` on a host with cache line size `cls`.
///
/// Each number is cut down to the 32 bits of its field.
pub fn create_request_message(vparam: &VectorParam, cls: usize) -> (r: Vec<u8>)
    requires
        cls <= u16::MAX,
    ensures
        r@ == encode(vparam@, cls as u16),
{
    let ghost channels = vparam@.producers + vparam@.consumers;
    let mut request: Vec<u8> = match Layout::calc(vparam) {
        Some(layout) => Vec::with_capacity(layout.size),
        None => Vec::new(),
    };
    let mut k: usize = 0;
    while k < HEADER_SIZE
        invariant
            0 <= k <= HEADER_SIZE,
            request@.len() == k,
        decreases HEADER_SIZE - k,
    {
        request.push(0);
        k = k + 1;
    }
    write_header(&mut request, cls);
    assert(request@ =~= header_bytes(cls as u16));
    request_write(&mut request, to_wire_word(vparam.info.len()));
    request_write(&mut request, to_wire_word(vparam.producers.len()));
    request_write(&mut request, to_wire_word(vparam.consumers.len()));
    let ghost front = request@;
    proof {
        assert(channels.take(0) =~= Seq::<ChannelConfig>::empty());
    }
    let mut i: usize = 0;
    while i < vparam.producers.len()
        invariant
            0 <= i <= vparam.producers@.len(),
            channels == vparam@.producers + vparam@.consumers,
            request@ == front + entries_bytes(channels.take(i as int)),
        decreases vparam.producers@.len() - i,
    {
        proof {
            assert(channels.take(i + 1).drop_last() =~= channels.take(i as int));
            assert(channels.take(i + 1).last() == vparam.producers@[i as int]@);
        }
        request_write_param(&mut request, &vparam.producers[i]);
        assert(request@ =~= front + entries_bytes(channels.take(i + 1)));
        i = i + 1;
    }
    let mut j: usize = 0;
    while j < vparam.consumers.len()
        invariant
            0 <= j <= vparam.consumers@.len(),
            channels == vparam@.producers + vparam@.consumers,
            request@ == front + entries_bytes(channels.take(vparam.producers@.len() + j)),
        decreases vparam.consumers@.len() - j,
    {
        proof {
            let at = vparam.producers@.len() + j;
            assert(channels.take(at + 1).drop_last() =~= channels.take(at));
            assert(channels.take(at + 1).last() == vparam.consumers@[j as int]@);
        }
        request_write_param(&mut request, &vparam.consumers[j]);
        assert(request@ =~= front + entries_bytes(
            channels.take(vparam.producers@.len() + j + 1),
        ));
        j = j + 1;
    }
    proof {
        assert(channels.take(channels.len() as int) =~= channels);
    }
    append(&mut request, vparam.info.as_slice());
    let ghost middle = request@;
    proof {
        assert(channels.take(0) =~= Seq::<ChannelConfig>::empty());
        assert(request@ =~= middle + infos_bytes(channels.take(0)));
    }
    let mut i: usize = 0;
    while i < vparam.producers.len()
        invariant
            0 <= i <= vparam.producers@.len(),
            channels == vparam@.producers + vparam@.consumers,
            request@ == middle + infos_bytes(channels.take(i as int)),
        decreases vparam.producers@.len() - i,
    {
        proof {
            assert(channels.take(i + 1).drop_last() =~= channels.take(i as int));
            assert(channels.take(i + 1).last() == vparam.producers@[i as int]@);
        }
        append(&mut request, vparam.producers[i].info.as_slice());
        assert(request@ =~= middle + infos_bytes(channels.take(i + 1)));
        i = i + 1;
    }
    let mut j: usize = 0;
    while j < vparam.consumers.len()
        invariant
            0 <= j <= vparam.consumers@.len(),
            channels == vparam@.producers + vparam@.consumers,
            request@ == middle + infos_bytes(channels.take(vparam.producers@.len() + j)),
        decreases vparam.consumers@.len() - j,
    {
        proof {
            let at = vparam.producers@.len() + j;
            assert(channels.take(at + 1).drop_last() =~= channels.take(at));
            assert(channels.take(at + 1).last() == vparam.consumers@[j as int]@);
        }
        append(&mut request, vparam.consumers[j].info.as_slice());
        assert(request@ =~= middle + infos_bytes(
            channels.take(vparam.producers@.len() + j + 1),
        ));
        j = j + 1;
    }
    proof {
        assert(channels.take(channels.len() as int) =~= channels);
        assert(request@ =~= encode(vparam@, cls as u16));
    }
    request
}

/// Every number of the configuration fits its wire field, and every
/// channel has a message size.
pub open spec fn wire_valid(config: VectorConfig) -> bool {
    let channels = config.producers + config.consumers;
    &&& config.info.len() <= u32::MAX
    &&& config.producers.len() <= u32::MAX
    &&& config.consumers.len() <= u32::MAX
    &&& forall|i: int|
        0 <= i < channels.len() ==> {
            &&& (#[trigger] channels[i]).additional_messages <= u32::MAX
            &&& 0 < channels[i].message_size <= u32::MAX
            &&& channels[i].info.len() <= u32::MAX
        }
}

proof fn lemma_entries_bytes(channels: Seq<ChannelConfig>)
    ensures
        entries_bytes(channels).len() == ENTRY_SIZE * channels.len(),
        forall|i: int|
            0 <= i < channels.len() ==> #[trigger] entries_bytes(channels).subrange(
                ENTRY_SIZE * i,
                ENTRY_SIZE * i + ENTRY_SIZE,
            ) == ChannelEntry::of(channels[i]).bytes(),
    decreases channels.len(),
{
    lemma_auto_spec_u32_to_from_le_bytes();
    if channels.len() > 0 {
        let shorter = channels.drop_last();
        lemma_entries_bytes(shorter);
        let all = entries_bytes(channels);
        let last = ChannelEntry::of(channels.last()).bytes();
        assert(last.len() == ENTRY_SIZE);
        assert forall|i: int| 0 <= i < channels.len() implies #[trigger] all.subrange(
            ENTRY_SIZE * i,
            ENTRY_SIZE * i + ENTRY_SIZE,
        ) == ChannelEntry::of(channels[i]).bytes() by {
            if i < shorter.len() {
                assert(all.subrange(ENTRY_SIZE * i, ENTRY_SIZE * i + ENTRY_SIZE)
                    =~= entries_bytes(shorter).subrange(ENTRY_SIZE * i, ENTRY_SIZE * i + ENTRY_SIZE));
                assert(shorter[i] == channels[i]);
            } else {
                assert(all.subrange(ENTRY_SIZE * i, ENTRY_SIZE * i + ENTRY_SIZE) =~= last);
            }
        }
    }
}

proof fn lemma_infos_bytes(channels: Seq<ChannelConfig>)
    ensures
        infos_bytes(channels).len() == info_sum(channels, channels.len() as int),
        forall|i: int|
            0 <= i < channels.len() ==> {
                &&& 0 <= info_sum(channels, i)
                &&& info_sum(channels, i) + (#[trigger] channels[i]).info.len()
                    <= infos_bytes(channels).len()
                &&& infos_bytes(channels).subrange(
                    info_sum(channels, i),
                    info_sum(channels, i) + channels[i].info.len(),
                ) == channels[i].info
            },
    decreases channels.len(),
{
    if channels.len() > 0 {
        let shorter = channels.drop_last();
        lemma_infos_bytes(shorter);
        let all = infos_bytes(channels);
        let n = shorter.len() as int;
        lemma_info_sum_prefix(channels, shorter, n);
        assert forall|i: int| 0 <= i < channels.len() implies {
            &&& 0 <= info_sum(channels, i)
            &&& info_sum(channels, i) + (#[trigger] channels[i]).info.len() <= all.len()
            &&& all.subrange(info_sum(channels, i), info_sum(channels, i) + channels[i].info.len())
                == channels[i].info
        } by {
            lemma_info_sum_prefix(channels, shorter, if i < n {
                i
            } else {
                n
            });
            if i < n {
                assert(shorter[i] == channels[i]);
                assert(all.subrange(
                    info_sum(channels, i),
                    info_sum(channels, i) + channels[i].info.len(),
                ) =~= infos_bytes(shorter).subrange(
                    info_sum(shorter, i),
                    info_sum(shorter, i) + shorter[i].info.len(),
                ));
            } else {
                assert(all.subrange(
                    info_sum(channels, i),
                    info_sum(channels, i) + channels[i].info.len(),
                ) =~= channels[i].info);
            }
        }
    }
}

proof fn lemma_part(a: Seq<u8>, b: Seq<u8>, c: Seq<u8>, from: int, to: int)
    requires
        0 <= from <= to <= b.len(),
    ensures
        (a + b + c).subrange(a.len() + from, a.len() + to) == b.subrange(from, to),
{
    assert((a + b + c).subrange(a.len() + from, a.len() + to) =~= b.subrange(from, to));
}

/// The first twenty bytes of a request: header, size of the vector's
/// metadata, and the two counts.
pub open spec fn front_bytes(config: VectorConfig, cls: u16) -> Seq<u8> {
    header_bytes(cls) + spec_u32_to_le_bytes(wire_word(config.info.len())) + spec_u32_to_le_bytes(
        wire_word(config.producers.len()),
    ) + spec_u32_to_le_bytes(wire_word(config.consumers.len()))
}

proof fn lemma_front(config: VectorConfig, cls: u16, rest: Seq<u8>)
    requires
        wire_valid(config),
    ensures
        front_bytes(config, cls).len() == TABLE_OFFSET,
        check_header(front_bytes(config, cls) + rest, cls as nat) == Ok::<(), MessageError>(()),
        read_u32(front_bytes(config, cls) + rest, 8) == config.info.len(),
        read_u32(front_bytes(config, cls) + rest, 12) == config.producers.len(),
        read_u32(front_bytes(config, cls) + rest, 16) == config.consumers.len(),
{
    lemma_auto_spec_u32_to_from_le_bytes();
    let head = header_bytes(cls);
    let w1 = spec_u32_to_le_bytes(wire_word(config.info.len()));
    let w2 = spec_u32_to_le_bytes(wire_word(config.producers.len()));
    let w3 = spec_u32_to_le_bytes(wire_word(config.consumers.len()));
    let bytes = front_bytes(config, cls) + rest;
    lemma_header_accepted(cls, w1 + w2 + w3 + rest);
    assert(bytes =~= head + (w1 + w2 + w3 + rest));
    assert(bytes.subrange(8, 12) =~= w1);
    assert(bytes.subrange(12, 16) =~= w2);
    assert(bytes.subrange(16, 20) =~= w3);
}

proof fn lemma_entry_words(entry: ChannelEntry)
    ensures
        entry.bytes().len() == ENTRY_SIZE,
        read_u32(entry.bytes(), 0) == entry.additional_messages,
        read_u32(entry.bytes(), 4) == entry.message_size,
        read_u32(entry.bytes(), 8) == entry.eventfd,
        read_u32(entry.bytes(), 12) == entry.info_size,
{
    lemma_auto_spec_u32_to_from_le_bytes();
    let e = entry.bytes();
    assert(e.subrange(0, 4) =~= spec_u32_to_le_bytes(entry.additional_messages));
    assert(e.subrange(4, 8) =~= spec_u32_to_le_bytes(entry.message_size));
    assert(e.subrange(8, 12) =~= spec_u32_to_le_bytes(entry.eventfd));
    assert(e.subrange(12, 16) =~= spec_u32_to_le_bytes(entry.info_size));
}

#[verifier::rlimit(40)]
proof fn lemma_encoded_entry(config: VectorConfig, cls: u16, i: int)
    requires
        wire_valid(config),
        0 <= i < config.producers.len() + config.consumers.len(),
    ensures
        ({
            let bytes = encode(config, cls);
            let channel = (config.producers + config.consumers)[i];
            &&& read_u32(bytes, entry_offset(i)) == channel.additional_messages
            &&& read_u32(bytes, entry_offset(i) + 4) == channel.message_size
            &&& (read_u32(bytes, entry_offset(i) + 8) != 0) == channel.eventfd
            &&& read_u32(bytes, entry_offset(i) + 12) == channel.info.len()
        }),
{
    let bytes = encode(config, cls);
    let channels = config.producers + config.consumers;
    let n = channels.len() as int;
    let front = front_bytes(config, cls);
    let table = entries_bytes(channels);
    let tail = config.info + infos_bytes(channels);
    let entry = ChannelEntry::of(channels[i]);
    lemma_front(config, cls, table + tail);
    lemma_entries_bytes(channels);
    lemma_entry_words(entry);
    assert(bytes =~= front + table + tail);
    assert(ENTRY_SIZE * i + ENTRY_SIZE <= table.len()) by (nonlinear_arith)
        requires
            0 <= i < n,
            table.len() == ENTRY_SIZE * n,
    ;
    let e = table.subrange(ENTRY_SIZE * i, ENTRY_SIZE * i + ENTRY_SIZE);
    assert(e == entry.bytes());
    let at = entry_offset(i);
    lemma_part(front, table, tail, 16 * i, 16 * i + 4);
    lemma_part(front, table, tail, 16 * i + 4, 16 * i + 8);
    lemma_part(front, table, tail, 16 * i + 8, 16 * i + 12);
    lemma_part(front, table, tail, 16 * i + 12, 16 * i + 16);
    assert(table.subrange(16 * i, 16 * i + 4) =~= e.subrange(0, 4));
    assert(table.subrange(16 * i + 4, 16 * i + 8) =~= e.subrange(4, 8));
    assert(table.subrange(16 * i + 8, 16 * i + 12) =~= e.subrange(8, 12));
    assert(table.subrange(16 * i + 12, 16 * i + 16) =~= e.subrange(12, 16));
    assert(bytes.subrange(at, at + 4) == e.subrange(0, 4));
    assert(bytes.subrange(at + 4, at + 8) == e.subrange(4, 8));
    assert(bytes.subrange(at + 8, at + 12) == e.subrange(8, 12));
    assert(bytes.subrange(at + 12, at + 16) == e.subrange(12, 16));
}

#[verifier::rlimit(40)]
proof fn lemma_encoded_infos(config: VectorConfig, cls: u16)
    requires
        wire_valid(config),
    ensures
        ({
            let bytes = encode(config, cls);
            let channels = config.producers + config.consumers;
            let base = entry_offset(channels.len() as int) + config.info.len();
            &&& bytes.len() == encoded_len(config)
            &&& check_header(bytes, cls as nat) == Ok::<(), MessageError>(())
            &&& read_u32(bytes, 8) == config.info.len()
            &&& read_u32(bytes, 12) == config.producers.len()
            &&& read_u32(bytes, 16) == config.consumers.len()
            &&& bytes.subrange(entry_offset(channels.len() as int), base) == config.info
            &&& forall|i: int|
                0 <= i < channels.len() ==> {
                    &&& bytes.subrange(
                        base + info_sum(channels, i),
                        base + info_sum(channels, i) + (#[trigger] channels[i]).info.len(),
                    ) == channels[i].info
                    &&& 0 <= info_sum(channels, i)
                    &&& base + info_sum(channels, i) + channels[i].info.len() <= bytes.len()
                }
        }),
{
    let bytes = encode(config, cls);
    let channels = config.producers + config.consumers;
    let n = channels.len() as int;
    let front = front_bytes(config, cls);
    let table = entries_bytes(channels);
    let infos = infos_bytes(channels);
    lemma_front(config, cls, table + config.info + infos);
    lemma_entries_bytes(channels);
    lemma_infos_bytes(channels);
    assert(bytes =~= front + (table + config.info + infos));
    let lead = front + table;
    let base = entry_offset(n) + config.info.len();
    assert(bytes =~= lead + config.info + infos);
    lemma_part(lead, config.info, infos, 0, config.info.len() as int);
    assert(config.info.subrange(0, config.info.len() as int) =~= config.info);
    let mid = lead + config.info;
    let none = Seq::<u8>::empty();
    assert(bytes =~= mid + infos + none);
    assert forall|i: int| 0 <= i < n implies {
        &&& bytes.subrange(
            base + info_sum(channels, i),
            base + info_sum(channels, i) + (#[trigger] channels[i]).info.len(),
        ) == channels[i].info
        &&& 0 <= info_sum(channels, i)
        &&& base + info_sum(channels, i) + channels[i].info.len() <= bytes.len()
    } by {
        lemma_part(
            mid,
            infos,
            none,
            info_sum(channels, i),
            info_sum(channels, i) + channels[i].info.len(),
        );
    }
}

/// What the request of a valid configuration holds at each place.
proof fn lemma_encoded(config: VectorConfig, cls: u16)
    requires
        wire_valid(config),
    ensures
        ({
            let bytes = encode(config, cls);
            let channels = config.producers + config.consumers;
            &&& bytes.len() == encoded_len(config)
            &&& check_header(bytes, cls as nat) == Ok::<(), MessageError>(())
            &&& read_u32(bytes, 8) == config.info.len()
            &&& read_u32(bytes, 12) == config.producers.len()
            &&& read_u32(bytes, 16) == config.consumers.len()
            &&& bytes.subrange(vector_info_offset(bytes), info_offset(bytes, 0)) == config.info
            &&& forall|i: int|
                0 <= i < channels.len() ==> {
                    &&& read_u32(bytes, entry_offset(i)) == (#[trigger] channels[i]).additional_messages
                    &&& read_u32(bytes, entry_offset(i) + 4) == channels[i].message_size
                    &&& (read_u32(bytes, entry_offset(i) + 8) != 0) == channels[i].eventfd
                    &&& read_u32(bytes, entry_offset(i) + 12) == channels[i].info.len()
                }
            &&& forall|i: int|
                0 <= i < channels.len() ==> {
                    &&& bytes.subrange(
                        entry_offset(channels.len() as int) + config.info.len() + info_sum(
                            channels,
                            i,
                        ),
                        entry_offset(channels.len() as int) + config.info.len() + info_sum(
                            channels,
                            i,
                        ) + (#[trigger] channels[i]).info.len(),
                    ) == channels[i].info
                    &&& entry_offset(channels.len() as int) + config.info.len() + info_sum(
                        channels,
                        i,
                    ) + channels[i].info.len() <= bytes.len()
                }
        }),
{
    let bytes = encode(config, cls);
    let channels = config.producers + config.consumers;
    lemma_encoded_infos(config, cls);
    assert forall|i: int| 0 <= i < channels.len() implies {
        &&& read_u32(bytes, entry_offset(i)) == (#[trigger] channels[i]).additional_messages
        &&& read_u32(bytes, entry_offset(i) + 4) == channels[i].message_size
        &&& (read_u32(bytes, entry_offset(i) + 8) != 0) == channels[i].eventfd
        &&& read_u32(bytes, entry_offset(i) + 12) == channels[i].info.len()
    } by {
        lemma_encoded_entry(config, cls, i);
    }
}

proof fn lemma_info_offset(config: VectorConfig, cls: u16, i: int)
    requires
        wire_valid(config),
        0 <= i <= config.producers.len() + config.consumers.len(),
    ensures
        info_offset(encode(config, cls), i) == entry_offset(
            (config.producers.len() + config.consumers.len()) as int,
        ) + config.info.len() + info_sum(config.producers + config.consumers, i),
    decreases i,
{
    lemma_encoded(config, cls);
    if i > 0 {
        lemma_info_offset(config, cls, i - 1);
        let channels = config.producers + config.consumers;
        assert(wire_info_size(encode(config, cls), i - 1) == channels[i - 1].info.len());
    }
}

/// A host reads from the request of a valid configuration what was
/// written, where both hosts have the same cache line size.
pub proof fn lemma_round_trip(config: VectorConfig, cls: u16)
    requires
        wire_valid(config),
    ensures
        parse(encode(config, cls), cls as nat) == Ok::<VectorConfig, MessageError>(config),
{
    let bytes = encode(config, cls);
    let channels = config.producers + config.consumers;
    let n = channels.len() as int;
    let p = config.producers.len() as int;
    lemma_encoded(config, cls);
    lemma_info_sum_nonnegative(channels, n);
    assert forall|i: int| 0 <= i < n implies entry_ok(bytes, i) && wire_channel(bytes, i)
        == channels[i] by {
        lemma_info_offset(config, cls, i);
        let c = channels[i];
        assert(wire_channel(bytes, i).info == c.info);
    }
    let read = parse(bytes, cls as nat);
    assert(read is Ok);
    assert(read->Ok_0.producers =~= config.producers) by {
        assert forall|i: int| 0 <= i < p implies wire_channel(bytes, i) == config.producers[i] by {
            assert(channels[i] == config.producers[i]);
        }
    }
    assert(read->Ok_0.consumers =~= config.consumers) by {
        assert forall|i: int| 0 <= i < config.consumers.len() implies wire_channel(bytes, p + i)
            == config.consumers[i] by {
            assert(channels[p + i] == config.consumers[i]);
        }
    }
}

/// A host with another cache line size refuses the request.
pub proof fn lemma_layout_mismatch(config: VectorConfig, cls: u16, other: nat)
    requires
        other != cls,
    ensures
        parse(encode(config, cls), other) == Err::<VectorConfig, MessageError>(
            MessageError::CachelineSize,
        ),
{
    let channels = config.producers + config.consumers;
    let rest = spec_u32_to_le_bytes(wire_word(config.info.len())) + spec_u32_to_le_bytes(
        wire_word(config.producers.len()),
    ) + spec_u32_to_le_bytes(wire_word(config.consumers.len())) + entries_bytes(channels)
        + config.info + infos_bytes(channels);
    lemma_header_accepted(cls, rest);
    assert(encode(config, cls) =~= header_bytes(cls) + rest);
}

/// Bytes of a response.
pub const RESPONSE_SIZE: usize = 4;

/// The response that accepts (`true`) or rejects (`false`) a request.
pub open spec fn response_bytes(accept: bool) -> Seq<u8> {
    if accept {
        seq![0u8, 0u8, 0u8, 0u8]
    } else {
        seq![0xFFu8, 0xFFu8, 0xFFu8, 0xFFu8]
    }
}

/// What a response says: `Ok(true)` for the accept word, `Ok(false)` for
/// the reject word, `MessageError::Cookie` for anything else.
pub open spec fn response_meaning(bytes: Seq<u8>) -> Result<bool, MessageError> {
    if bytes == response_bytes(true) {
        Ok(true)
    } else if bytes == response_bytes(false) {
        Ok(false)
    } else {
        Err(MessageError::Cookie)
    }
}

/// Writes the response that accepts or rejects a request.
pub fn create_response(accept: bool) -> (r: Vec<u8>)
    ensures
        r@ == response_bytes(accept),
{
    let byte: u8 = if accept {
        0
    } else {
        0xFF
    };
    let mut response: Vec<u8> = Vec::with_capacity(RESPONSE_SIZE);
    response.push(byte);
    response.push(byte);
    response.push(byte);
    response.push(byte);
    assert(response@ =~= response_bytes(accept));
    response
}

/// Reads a response.
pub fn parse_response(response: &[u8]) -> (r: Result<bool, MessageError>)
    ensures
        r == response_meaning(response@),
{
    if response.len() != RESPONSE_SIZE {
        assert(response_bytes(true).len() == 4 && response_bytes(false).len() == 4);
        return Err(MessageError::Cookie);
    }
    let b0 = response[0];
    let b1 = response[1];
    let b2 = response[2];
    let b3 = response[3];
    if b0 == 0 && b1 == 0 && b2 == 0 && b3 == 0 {
        assert(response@ =~= response_bytes(true));
        Ok(true)
    } else if b0 == 0xFF && b1 == 0xFF && b2 == 0xFF && b3 == 0xFF {
        assert(response@ =~= response_bytes(false));
        assert(response@[0] != response_bytes(true)[0]);
        Ok(false)
    } else {
        assert(response_bytes(true)[0] == 0 && response_bytes(true)[1] == 0 && response_bytes(
            true,
        )[2] == 0 && response_bytes(true)[3] == 0);
        assert(response_bytes(false)[0] == 0xFF && response_bytes(false)[1] == 0xFF
            && response_bytes(false)[2] == 0xFF && response_bytes(false)[3] == 0xFF);
        Err(MessageError::Cookie)
    }
}

/// A response is read as it was written.
pub proof fn lemma_response_round_trip(accept: bool)
    ensures
        response_meaning(response_bytes(accept)) == Ok::<bool, MessageError>(accept),
{
    assert(response_bytes(false)[0] != response_bytes(true)[0]);
}

/// How a handshake ends for the initiator that received `bytes` as the
/// response.
pub open spec fn response_outcome(bytes: Seq<u8>) -> Result<(), RtipcError> {
    match response_meaning(bytes) {
        Ok(accepted) => if accepted {
            Ok(())
        } else {
            Err(RtipcError::Rejected)
        },
        Err(e) => Err(RtipcError::Message(e)),
    }
}

/// Ends the handshake of the initiator: the accept word lets it go on, the
/// reject word is `RtipcError::Rejected`, and anything else is the
/// `MessageError::Cookie` of `parse_response`.
pub fn check_response(response: &[u8]) -> (r: Result<(), RtipcError>)
    ensures
        r == response_outcome(response@),
{
    match parse_response(response) {
        Ok(true) => Ok(()),
        Ok(false) => Err(RtipcError::Rejected),
        Err(e) => Err(RtipcError::Message(e)),
    }
}

/// How a handshake ends for the acceptor: with what it built from the
/// request where it could build it and the caller accepts it, with
/// `RtipcError::Rejected` where the caller does not, and else with the error
/// that kept it from building.
pub open spec fn served_outcome<V>(served: Result<V, RtipcError>, accepted: bool) -> Result<
    V,
    RtipcError,
> {
    match served {
        Ok(vector) => if accepted {
            Ok(vector)
        } else {
            Err(RtipcError::Rejected)
        },
        Err(e) => Err(e),
    }
}

/// Ends the handshake of the acceptor: gives the response to send and the
/// outcome for the acceptor itself.
///
/// `served` is what the acceptor built from the request, or why it could
/// not; `accepted` says whether the caller accepts what was built, and
/// counts for nothing where nothing was built. The response is the accept
/// word exactly where the outcome is `Ok`.
pub fn respond<V>(served: Result<V, RtipcError>, accepted: bool) -> (r: (
    Vec<u8>,
    Result<V, RtipcError>,
))
    ensures
        r.1 == served_outcome(served, accepted),
        r.0@ == response_bytes(r.1.is_ok()),
        response_outcome(r.0@).is_ok() == r.1.is_ok(),
{
    proof {
        lemma_response_round_trip(true);
        lemma_response_round_trip(false);
    }
    match served {
        Ok(vector) => {
            if accepted {
                (create_response(true), Ok(vector))
            } else {
                (create_response(false), Err(RtipcError::Rejected))
            }
        },
        Err(e) => (create_response(false), Err(e)),
    }
}

} // verus!
