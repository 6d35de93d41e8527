//! Lock-free message queues for one producer and one consumer each, laid
//! out in one shared memory arena, and the handshake that hands the arena
//! and its wake-up descriptors to a peer process.
//!
//! The library decides and computes; it makes no system call. Its callers
//! map the arena, make and pass descriptors, and send and receive the
//! messages of the handshake.
//!
//! * `layout`, `param`: sizes and places of the queues in the arena.
//! * `shm`: which ranges of the arena are handed out.
//! * `cells`: the shared words of a queue and the trace of the operations
//!   made on them.
//! * `producer`, `consumer`: the two ends of a queue, each operation a
//!   step of a state machine.
//! * `ring`, `discipline`: what every push keeps of the producer's chain,
//!   and what each end writes, in any schedule.
//! * `model`: both ends and the shared words as one system, for
//!   operations that run one after the other.
//! * `schedule`: the same system for pushes and pops whose atomic
//!   operations alternate in any way.
//! * `race`: a flush among pushes that overlap it, which is what the
//!   schedules leave out.
//! * `header`, `protocol`: the request and the response of the handshake.
//! * `request`, `resource`, `unix`: descriptors and whom they belong to.
//! * `channel`: channels, typed by their message, and the channel vector.
//! * `cache`: the cache line size of the host.
pub mod cache;
pub mod cells;
pub mod channel;
pub mod consumer;
pub mod discipline;
pub mod error;
pub mod header;
pub mod layout;
pub mod model;
pub mod param;
pub mod producer;
pub mod protocol;
pub mod queue;
pub mod race;
pub mod request;
pub mod resource;
pub mod ring;
pub mod schedule;
pub mod shm;
pub mod unix;

pub use channel::ChannelVector;
pub use channel::Consumer;
pub use channel::Producer;
pub use error::MessageError;
pub use error::RtipcError;
pub use error::ShmError;
pub use layout::cacheline_aligned;
pub use layout::mem_align;
pub use param::calc_shm_size;
pub use param::ChannelParam;
pub use param::VectorParam;
pub use queue::ConsumeResult;
pub use queue::ProduceForceResult;
pub use queue::ProduceTryResult;
