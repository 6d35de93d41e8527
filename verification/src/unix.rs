//! What the process's table of open files says of a descriptor.
//!
//! The text of the symbolic link `/proc/self/fd/<n>` names the object
//! behind descriptor `n`. Reading the link is the caller's part; what the
//! text means is decided here. Texts are byte strings.
use vstd::prelude::*;
use crate::error::RtipcError;

verus! {

/// No message carries more descriptors than this.
pub const MAX_FD: usize = 253;

/// `text` begins with `prefix`.
pub open spec fn has_prefix(text: Seq<u8>, prefix: Seq<u8>) -> bool {
    prefix.len() <= text.len() && text.subrange(0, prefix.len() as int) == prefix
}

/// Whether `text` begins with `prefix`.
pub fn starts_with(text: &[u8], prefix: &[u8]) -> (r: bool)
    ensures
        r == has_prefix(text@, prefix@),
{
    if prefix.len() > text.len() {
        return false;
    }
    let mut i: usize = 0;
    while i < prefix.len()
        invariant
            0 <= i <= prefix@.len() <= text@.len(),
            forall|k: int| 0 <= k < i ==> text@[k] == prefix@[k],
        decreases prefix@.len() - i,
    {
        if text[i] != prefix[i] {
            assert(text@.subrange(0, prefix@.len() as int)[i as int] != prefix@[i as int]);
            return false;
        }
        i = i + 1;
    }
    assert(text@.subrange(0, prefix@.len() as int) =~= prefix@);
    true
}

/// The decimal digits of `value`, most significant first.
pub open spec fn decimal(value: nat) -> Seq<u8>
    decreases value,
{
    if value < 10 {
        seq![(0x30 + value) as u8]
    } else {
        decimal(value / 10).push((0x30 + value % 10) as u8)
    }
}

/// Appends the decimal digits of `value` to `buf`.
pub fn push_decimal(buf: &mut Vec<u8>, value: usize)
    ensures
        final(buf)@ == old(buf)@ + decimal(value as nat),
    decreases value,
{
    if value >= 10 {
        push_decimal(buf, value / 10);
    }
    let digit: u8 = 0x30 + (value % 10) as u8;
    buf.push(digit);
    assert(buf@ =~= old(buf)@ + decimal(value as nat));
}

/// The text `/proc/self/fd/`.
pub open spec fn proc_self_fd() -> Seq<u8> {
    seq![
        0x2fu8, 0x70u8, 0x72u8, 0x6fu8, 0x63u8, 0x2fu8, 0x73u8, 0x65u8, 0x6cu8, 0x66u8, 0x2fu8,
        0x66u8, 0x64u8, 0x2fu8,
    ]
}

/// The text `/memfd:`, with which the link of a memory file begins.
pub open spec fn memfd_link() -> Seq<u8> {
    seq![0x2fu8, 0x6du8, 0x65u8, 0x6du8, 0x66u8, 0x64u8, 0x3au8]
}

/// The text `anon_inode:[eventfd`, with which the link of an event object
/// begins.
pub open spec fn eventfd_link() -> Seq<u8> {
    seq![
        0x61u8, 0x6eu8, 0x6fu8, 0x6eu8, 0x5fu8, 0x69u8, 0x6eu8, 0x6fu8, 0x64u8, 0x65u8, 0x3au8,
        0x5bu8, 0x65u8, 0x76u8, 0x65u8, 0x6eu8, 0x74u8, 0x66u8, 0x64u8,
    ]
}

/// Path of the link that names the object behind descriptor `fd`:
/// `/proc/self/fd/` and the number.
pub fn fd_link(fd: u32) -> (r: Vec<u8>)
    ensures
        r@ == proc_self_fd() + decimal(fd as nat),
{
    let mut path: Vec<u8> = vec![
        0x2fu8, 0x70u8, 0x72u8, 0x6fu8, 0x63u8, 0x2fu8, 0x73u8, 0x65u8, 0x6cu8, 0x66u8, 0x2fu8,
        0x66u8, 0x64u8, 0x2fu8,
    ];
    assert(path@ =~= proc_self_fd());
    push_decimal(&mut path, fd as usize);
    path
}

/// A descriptor together with the text of its link.
pub struct Descriptor {
    /// The descriptor's number.
    pub fd: i32,
    /// Text of the link `/proc/self/fd/<fd>`.
    pub link: Vec<u8>,
}

/// Accepts a descriptor whose link names an event object, and gives its
/// number; `RtipcError::InvalidResource` for any other.
pub fn into_eventfd(descriptor: &Descriptor) -> (r: Result<i32, RtipcError>)
    ensures
        r.is_ok() <==> has_prefix(descriptor.link@, eventfd_link()),
        r matches Ok(fd) ==> fd == descriptor.fd,
        r matches Err(e) ==> e == RtipcError::InvalidResource,
{
    let expected: Vec<u8> = vec![
        0x61u8, 0x6eu8, 0x6fu8, 0x6eu8, 0x5fu8, 0x69u8, 0x6eu8, 0x6fu8, 0x64u8, 0x65u8, 0x3au8,
        0x5bu8, 0x65u8, 0x76u8, 0x65u8, 0x6eu8, 0x74u8, 0x66u8, 0x64u8,
    ];
    assert(expected@ =~= eventfd_link());
    if starts_with(descriptor.link.as_slice(), expected.as_slice()) {
        Ok(descriptor.fd)
    } else {
        Err(RtipcError::InvalidResource)
    }
}

/// Accepts a descriptor whose link names a memory file;
/// `RtipcError::InvalidResource` for any other.
pub fn check_memfd(descriptor: &Descriptor) -> (r: Result<(), RtipcError>)
    ensures
        r.is_ok() <==> has_prefix(descriptor.link@, memfd_link()),
        r matches Err(e) ==> e == RtipcError::InvalidResource,
{
    let expected: Vec<u8> = vec![0x2fu8, 0x6du8, 0x65u8, 0x6du8, 0x66u8, 0x64u8, 0x3au8];
    assert(expected@ =~= memfd_link());
    if starts_with(descriptor.link.as_slice(), expected.as_slice()) {
        Ok(())
    } else {
        Err(RtipcError::InvalidResource)
    }
}

} // verus!
