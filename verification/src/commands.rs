//! The commands that clients send to the server, and its answers.
use vstd::prelude::*;

use crate::message::OwnedMessage;
use crate::queue_error::QueueError;
use crate::{MessageId, Role};

verus! {

/// The __On success__ sections will describe the valid responses for a given command.
pub enum Command {
    /// Operate on the given queue
    /// ## On success
    ///
    /// - Success
    ActiveQueue {
        role: Role,
        name: String,
        /// create the queue using the provided options if not exists
        create: Option<QueueOptions>,
    },
    /// Switches the current client's role, but does not change active queue
    ///
    /// ## On success
    ///
    /// - Success
    ChangeRole(Role),
    /// ## On success
    ///
    /// - MessageId
    PushMsg(Vec<u8>),
    /// Attempts to pop a message from the active queue
    ///
    /// ## On success
    ///
    /// - Success if the queue was empty
    /// - Message
    PopMsg,
    /// Send the response of a message
    ///
    /// ## On success
    ///
    /// - Success
    MsgResponse { id: MessageId, payload: Vec<u8> },
    /// Sends all accumulated responses to the client
    ///
    /// ## On success
    ///
    /// - Message[]
    ConsumeResponses,
    /// Retrieve the response to the given message
    ///
    /// ## On success
    ///
    /// - Message
    /// - Success if there is no response available
    GetSingleResponse(MessageId),
    /// Waits until a message is available and pops it
    ///
    /// ## On success
    ///
    /// - Message
    ListenForMsg {
        /// maximum time to wait for a message before returning (in milliseconds)
        timeout_ms: Option<u64>,
    },
    /// Clears the current queue
    ///
    /// ## On success
    ///
    /// - Success
    ClearQueue,
}

#[derive(Debug, Clone, Copy, PartialEq, Eq, Structural)]
pub struct QueueOptions {
    pub capacity: u32,
}

/// Possible results of a command
pub enum CommandResponse {
    Success,
    MessageId(MessageId),
    Message(OwnedMessage),
    Messages(Vec<OwnedMessage>),
}

#[derive(Debug, Clone, Copy, PartialEq, Eq, Structural)]
pub enum CommandError {
    /// Attempting to take the producer role on a single-producer queue that already has a producer.
    HasProducer,
    /// Given command was malformed.
    BadCommand,
    /// Queue does not exist
    QueueNotFound,
    /// Attempting to push to a queue without producer role
    NotProducer,
    /// Attempting to pop a queue without consumer role
    NotConsumer,
    /// The attempted command would produce a deadlock.
    WouldBlock,
    /// The producer disconnected while the current command was waiting for it
    LostProducer,
    /// Error in the underlying queue
    QueueError(QueueError),
    /// Command timed out
    Timeout,
}

pub type CommandResult = Result<CommandResponse, CommandError>;

} // verus!
