//! The fixed header that opens every request.
//!
//! | bytes | field |
//! |---|---|
//! | 0..2 | magic number |
//! | 2..4 | protocol version |
//! | 4..6 | cache line size |
//! | 6..8 | width of an index cell |
//!
//! Every field is a little-endian 16-bit word.
use vstd::prelude::*;
use vstd::bytes::spec_u16_from_le_bytes;
use vstd::bytes::spec_u16_to_le_bytes;
use vstd::bytes::u16_from_le_bytes;
use vstd::bytes::u16_to_le_bytes;
use vstd::bytes::lemma_auto_spec_u16_to_from_le_bytes;
use vstd::slice::slice_subrange;
use crate::error::MessageError;
use crate::layout::INDEX_SIZE;

verus! {

/// The magic number of a request.
pub const RTIC_MAGIC: u16 = 0x1f0c;

/// The protocol version.
pub const RTIC_VERSION: u16 = 1;

/// Bytes of the header.
pub const HEADER_SIZE: usize = 8;

/// The little-endian 16-bit word at `at`.
pub open spec fn read_u16(bytes: Seq<u8>, at: int) -> u16 {
    spec_u16_from_le_bytes(bytes.subrange(at, at + 2))
}

/// The header of a host with cache line size `cls`.
pub open spec fn header_bytes(cls: u16) -> Seq<u8> {
    spec_u16_to_le_bytes(RTIC_MAGIC) + spec_u16_to_le_bytes(RTIC_VERSION) + spec_u16_to_le_bytes(
        cls,
    ) + spec_u16_to_le_bytes(INDEX_SIZE as u16)
}

/// What is wrong with the header at the start of `bytes` on a host with
/// cache line size `cls`: the first field, in wire order, that differs.
pub open spec fn check_header(bytes: Seq<u8>, cls: nat) -> Result<(), MessageError> {
    if bytes.len() < HEADER_SIZE {
        Err(MessageError::Size)
    } else if read_u16(bytes, 0) != RTIC_MAGIC {
        Err(MessageError::Magic)
    } else if read_u16(bytes, 2) != RTIC_VERSION {
        Err(MessageError::Version)
    } else if read_u16(bytes, 4) as nat != cls {
        Err(MessageError::CachelineSize)
    } else if read_u16(bytes, 6) != INDEX_SIZE {
        Err(MessageError::AtomicSize)
    } else {
        Ok(())
    }
}

/// The header is eight bytes long, and a host with the same cache line size
/// accepts it, whatever follows it.
pub proof fn lemma_header_accepted(cls: u16, rest: Seq<u8>)
    ensures
        header_bytes(cls).len() == HEADER_SIZE,
        check_header(header_bytes(cls) + rest, cls as nat) == Ok::<(), MessageError>(()),
        forall|other: nat|
            other != cls ==> check_header(header_bytes(cls) + rest, other) == Err::<
                (),
                MessageError,
            >(MessageError::CachelineSize),
{
    lemma_auto_spec_u16_to_from_le_bytes();
    let h = header_bytes(cls);
    let all = h + rest;
    assert(all.subrange(0, 2) =~= spec_u16_to_le_bytes(RTIC_MAGIC));
    assert(all.subrange(2, 4) =~= spec_u16_to_le_bytes(RTIC_VERSION));
    assert(all.subrange(4, 6) =~= spec_u16_to_le_bytes(cls));
    assert(all.subrange(6, 8) =~= spec_u16_to_le_bytes(INDEX_SIZE as u16));
}

/// Reads the 16-bit word at `at`.
fn header_field(buf: &[u8], at: usize) -> (r: u16)
    requires
        at + 2 <= buf@.len() <= usize::MAX,
    ensures
        r == read_u16(buf@, at as int),
{
    u16_from_le_bytes(slice_subrange(buf, at, at + 2))
}

/// Checks the header at the start of `buf` against this host's cache line
/// size `cls`.
pub fn verify_header(buf: &[u8], cls: usize) -> (r: Result<(), MessageError>)
    ensures
        r == check_header(buf@, cls as nat),
{
    if buf.len() < HEADER_SIZE {
        return Err(MessageError::Size);
    }
    if header_field(buf, 0) != RTIC_MAGIC {
        return Err(MessageError::Magic);
    }
    if header_field(buf, 2) != RTIC_VERSION {
        return Err(MessageError::Version);
    }
    if header_field(buf, 4) as usize != cls {
        return Err(MessageError::CachelineSize);
    }
    if header_field(buf, 6) as usize != INDEX_SIZE {
        return Err(MessageError::AtomicSize);
    }
    Ok(())
}

/// Appends `bytes` to `buf`.
pub fn append(buf: &mut Vec<u8>, bytes: &[u8])
    ensures
        final(buf)@ == old(buf)@ + bytes@,
{
    buf.extend_from_slice(bytes);
    assert(buf@ =~= old(buf)@ + bytes@);
}

/// Writes this host's header over the first eight bytes of `buf`; a shorter
/// buffer is left as it is.
pub fn write_header(buf: &mut Vec<u8>, cls: usize)
    requires
        cls <= u16::MAX,
    ensures
        old(buf)@.len() < HEADER_SIZE ==> final(buf)@ == old(buf)@,
        old(buf)@.len() >= HEADER_SIZE ==> final(buf)@ == header_bytes(cls as u16) + old(
            buf,
        )@.subrange(HEADER_SIZE as int, old(buf)@.len() as int),
{
    if buf.len() < HEADER_SIZE {
        return ;
    }
    let mut header: Vec<u8> = Vec::with_capacity(HEADER_SIZE);
    append(&mut header, u16_to_le_bytes(RTIC_MAGIC).as_slice());
    append(&mut header, u16_to_le_bytes(RTIC_VERSION).as_slice());
    append(&mut header, u16_to_le_bytes(cls as u16).as_slice());
    append(&mut header, u16_to_le_bytes(INDEX_SIZE as u16).as_slice());
    assert(header@ =~= header_bytes(cls as u16));
    let mut i: usize = 0;
    while i < HEADER_SIZE
        invariant
            0 <= i <= HEADER_SIZE,
            header@.len() == HEADER_SIZE,
            buf@.len() == old(buf)@.len(),
            buf@.len() >= HEADER_SIZE,
            forall|k: int| 0 <= k < i ==> buf@[k] == header@[k],
            forall|k: int| i <= k < buf@.len() ==> buf@[k] == old(buf)@[k],
        decreases HEADER_SIZE - i,
    {
        buf[i] = header[i];
        i = i + 1;
    }
    assert(buf@ =~= header@ + old(buf)@.subrange(HEADER_SIZE as int, old(buf)@.len() as int));
}

} // verus!
