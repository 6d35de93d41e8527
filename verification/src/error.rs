//! What can go wrong while an arena is laid out, a request is read or a
//! handshake is made.
use vstd::prelude::*;
use vstd::std_specs::convert::FromSpecImpl;
use nix::errno::Errno;

verus! {

/// `nix::errno::Errno`: the error number of a failed system call, as `nix`
/// reports it. Nothing is claimed of the type but that it exists; a value
/// of it is carried to the caller as it is.
#[verifier::external_type_specification]
#[verifier::external_body]
pub struct ExErrno(nix::errno::Errno);

/// A range does not fit the arena, or starts where a queue cannot start.
#[derive(Debug, Clone, Copy, PartialEq, Eq, Structural)]
pub enum ShmError {
    /// The range reaches beyond the region it was asked from, or the region
    /// is too small for the queue.
    Size,
    /// The range does not start at a multiple of the cache line size.
    Alignment,
}

/// Why a request or a response was refused.
#[derive(Debug, Clone, Copy, PartialEq, Eq, Structural)]
pub enum MessageError {
    /// The message is truncated, announces a zero message size, or announces
    /// metadata that reaches beyond its end.
    Size,
    /// The header does not start with the magic number.
    Magic,
    /// The header carries another protocol version.
    Version,
    /// The response is neither the accept nor the reject word.
    Cookie,
    /// The peer lays out its queues for another cache line size.
    CachelineSize,
    /// The peer uses index cells of another width.
    AtomicSize,
}

/// Why a handshake failed.
#[derive(Debug, Clone, Copy)]
pub enum RtipcError {
    /// A system call failed.
    Errno(Errno),
    /// A queue does not fit its place in the arena.
    Shm(ShmError),
    /// The request or the response was refused.
    Message(MessageError),
    /// The configuration asks for no channel at all, or for more bytes or
    /// descriptors than can be had.
    Argument,
    /// A descriptor is not of the kind that its place asks for.
    InvalidResource,
    /// Fewer descriptors came with the request than it has channels with a
    /// wake-up descriptor, or the arena's descriptor is missing.
    MissingDescriptor,
    /// The peer rejected the request.
    Rejected,
}

impl From<ShmError> for MessageError {
    fn from(e: ShmError) -> (r: MessageError) {
        MessageError::Size
    }
}

impl FromSpecImpl<ShmError> for MessageError {
    open spec fn obeys_from_spec() -> bool {
        true
    }

    open spec fn from_spec(e: ShmError) -> MessageError {
        MessageError::Size
    }
}

impl From<ShmError> for RtipcError {
    fn from(e: ShmError) -> (r: RtipcError) {
        RtipcError::Shm(e)
    }
}

impl FromSpecImpl<ShmError> for RtipcError {
    open spec fn obeys_from_spec() -> bool {
        true
    }

    open spec fn from_spec(e: ShmError) -> RtipcError {
        RtipcError::Shm(e)
    }
}

impl From<Errno> for RtipcError {
    fn from(errno: Errno) -> (r: RtipcError) {
        RtipcError::Errno(errno)
    }
}

impl FromSpecImpl<Errno> for RtipcError {
    open spec fn obeys_from_spec() -> bool {
        true
    }

    open spec fn from_spec(errno: Errno) -> RtipcError {
        RtipcError::Errno(errno)
    }
}

impl From<MessageError> for RtipcError {
    fn from(field: MessageError) -> (r: RtipcError) {
        RtipcError::Message(field)
    }
}

impl FromSpecImpl<MessageError> for RtipcError {
    open spec fn obeys_from_spec() -> bool {
        true
    }

    open spec fn from_spec(field: MessageError) -> RtipcError {
        RtipcError::Message(field)
    }
}

} // verus!
