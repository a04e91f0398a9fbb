//! The decisions of a load-test consumer: it waits for messages until the producer leaves or a
//! message past its limit comes, then pops what is left until it meets such a message or
//! the queue is empty.
use vstd::prelude::*;

use crate::commands::{CommandError, CommandResponse};

verus! {

/// What the consumer does next.
#[derive(Debug, Clone, Copy, PartialEq, Eq, Structural)]
pub enum ConsumerStep {
    /// Send `ListenForMsg`, and hand the answer to `on_listen`.
    Listen,
    /// Send `PopMsg`, and hand the answer to `on_pop`.
    Pop,
    /// Close the connection.
    Close,
}

/// What a load-test consumer knows so far.
#[derive(Debug, Clone, Copy, PartialEq, Eq, Structural)]
pub struct BenchConsumer {
    /// The id past which a message is one of the last ones.
    pub limit: usize,
    pub has_producer: bool,
    pub has_msg_left: bool,
    /// Whether it still waits for messages.
    pub listening: bool,
}

impl BenchConsumer {
    /// A consumer among `num_threads`, of `num_messages` messages.
    pub fn new(num_messages: usize, num_threads: usize) -> (c: Self)
        requires
            num_threads + 1 <= num_messages,
        ensures
            c.limit == num_messages - num_threads - 1,
            c.has_producer,
            c.has_msg_left,
            c.listening,
    {
        Self {
            limit: num_messages - num_threads - 1,
            has_producer: true,
            has_msg_left: true,
            listening: true,
        }
    }

    /// Whether the message with id `id` is one of the last ones.
    pub open spec fn past_limit(&self, id: u64) -> bool {
        id as usize > self.limit
    }

    /// What to do next: wait while the producer is there, then pop what is left, then close.
    pub fn next(&self) -> (s: ConsumerStep)
        ensures
            s == if self.listening && self.has_producer {
                ConsumerStep::Listen
            } else if self.has_msg_left {
                ConsumerStep::Pop
            } else {
                ConsumerStep::Close
            },
    {
        if self.listening && self.has_producer {
            ConsumerStep::Listen
        } else if self.has_msg_left {
            ConsumerStep::Pop
        } else {
            ConsumerStep::Close
        }
    }

    /// Takes in the answer to `ListenForMsg`.
    pub fn on_listen(&mut self, res: &Result<CommandResponse, CommandError>)
        requires
            res matches Err(e) ==> e == CommandError::LostProducer,
        ensures
            final(self).limit == old(self).limit,
            match res {
                Ok(CommandResponse::Message(msg)) => if old(self).past_limit(msg.id.0) {
                    !final(self).has_msg_left && !final(self).listening && final(self).has_producer
                        == old(self).has_producer
                } else {
                    *final(self) == *old(self)
                },
                Ok(CommandResponse::Messages(msgs)) => {
                    &&& final(self).has_msg_left == (old(self).has_msg_left && forall|i: int|
                        0 <= i < msgs@.len() ==> !old(self).past_limit(#[trigger] msgs@[i].id.0))
                    &&& final(self).has_producer == old(self).has_producer
                    &&& final(self).listening == old(self).listening
                },
                Ok(_) => *final(self) == *old(self),
                Err(_) => !final(self).has_producer && final(self).has_msg_left == old(self).has_msg_left
                    && final(self).listening == old(self).listening,
            },
    {
        match res {
            Ok(CommandResponse::Success) => {},
            Ok(CommandResponse::MessageId(_)) => {},
            Ok(CommandResponse::Message(msg)) => {
                if msg.id.0 as usize > self.limit {
                    self.has_msg_left = false;
                    self.listening = false;
                }
            },
            Ok(CommandResponse::Messages(msgs)) => {
                let mut i: usize = 0;
                while i < msgs.len()
                    invariant
                        i <= msgs@.len(),
                        self.limit == old(self).limit,
                        self.has_producer == old(self).has_producer,
                        self.listening == old(self).listening,
                        self.has_msg_left == (old(self).has_msg_left && forall|j: int|
                            0 <= j < i ==> !old(self).past_limit(#[trigger] msgs@[j].id.0)),
                    decreases msgs@.len() - i,
                {
                    if msgs[i].id.0 as usize > self.limit {
                        self.has_msg_left = false;
                    }
                    i = i + 1;
                }
            },
            Err(_) => {
                self.has_producer = false;
            },
        }
    }

    /// Takes in the answer to `PopMsg`: an empty queue, or a message past the limit, ends it.
    pub fn on_pop(&mut self, res: &CommandResponse)
        ensures
            final(self).limit == old(self).limit,
            final(self).has_producer == old(self).has_producer,
            final(self).listening == old(self).listening,
            final(self).has_msg_left == (old(self).has_msg_left && match res {
                CommandResponse::Message(msg) => !old(self).past_limit(msg.id.0),
                _ => false,
            }),
    {
        match res {
            CommandResponse::Message(msg) => {
                if msg.id.0 as usize > self.limit {
                    self.has_msg_left = false;
                }
            },
            _ => {
                self.has_msg_left = false;
            },
        }
    }
}

} // verus!
