//! The results of the queue operations, and the two ends of a queue.
use vstd::prelude::*;

pub use crate::consumer::ConsumerQueue;
pub use crate::producer::ProducerQueue;

verus! {

/// How a pop or a flush ended.
#[derive(Debug, Clone, Copy, PartialEq, Eq, Structural)]
pub enum ConsumeResult {
    /// A shared cell held a value that names no slot.
    QueueError,
    /// Nothing was ever published.
    NoMessage,
    /// Nothing was published since the message in hand.
    NoNewMessage,
    /// The next message is in hand.
    Success,
    /// A message is in hand, and the producer discarded older ones.
    SuccessMessagesDiscarded,
}

/// How a force-push ended.
#[derive(Debug, Clone, Copy, PartialEq, Eq, Structural)]
pub enum ProduceForceResult {
    /// A shared cell held a value that names no slot.
    QueueError,
    /// The message is published.
    Success,
    /// The message is published, and the oldest unread one was discarded.
    SuccessMessageDiscarded,
}

/// How a try-push ended.
#[derive(Debug, Clone, Copy, PartialEq, Eq, Structural)]
pub enum ProduceTryResult {
    /// A shared cell held a value that names no slot.
    QueueError,
    /// The queue was full and nothing changed.
    QueueFull,
    /// The message is published.
    Success,
}

} // verus!
