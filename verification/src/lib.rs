//! A message queue: bounded ring-buffer queues, a bump allocator for message
//! payloads, an open-addressing message map and the command logic of a
//! queue server, each with its contract proved by Verus.
use vstd::prelude::*;

pub mod atomic_option;
pub mod bench;
pub mod bounded;
pub mod bucket_allocator;
pub mod client;
pub mod commands;
pub mod exchange;
pub mod message;
pub mod message_map;
pub mod mpfifo;
pub mod queue_error;
pub mod spmcfifo;
pub mod table;

verus! {

/// Identifier of a message within a queue.
#[derive(Clone, Copy, Debug, PartialEq, Eq, Structural, PartialOrd, Ord, Hash)]
pub struct MessageId(pub u64);

/// Role of a client.
#[derive(Clone, Copy, Debug, PartialEq, Eq, Structural)]
pub enum Role {
    Producer,
    Consumer,
    /// Indicates a client that's both producer and consumer
    ProdCon,
    /// Indicates a client that's neither producer nor consumer
    NoRole,
}

impl Role {
    /// The bit pattern of the role: bit 0 is the producer bit, bit 1 the consumer bit.
    pub open spec fn spec_bits(self) -> u8 {
        match self {
            Role::Producer => 1u8,
            Role::Consumer => 2u8,
            Role::ProdCon => 3u8,
            Role::NoRole => 0u8,
        }
    }

    /// The bit pattern of the role.
    pub fn bits(self) -> (b: u8)
        ensures
            b == self.spec_bits(),
    {
        match self {
            Role::Producer => 1u8,
            Role::Consumer => 2u8,
            Role::ProdCon => 3u8,
            Role::NoRole => 0u8,
        }
    }

    pub open spec fn spec_is_producer(self) -> bool {
        self is Producer || self is ProdCon
    }

    pub open spec fn spec_is_consumer(self) -> bool {
        self is Consumer || self is ProdCon
    }

    /// Whether the role may push messages.
    pub fn is_producer(self) -> (b: bool)
        ensures
            b == self.spec_is_producer(),
    {
        let bits = self.bits();
        assert((bits & 1u8) != 0u8 <==> (bits == 1u8 || bits == 3u8)) by (bit_vector)
            requires
                bits == 0u8 || bits == 1u8 || bits == 2u8 || bits == 3u8,
        ;
        (bits & 1u8) != 0
    }

    /// Whether the role may pop messages.
    pub fn is_consumer(self) -> (b: bool)
        ensures
            b == self.spec_is_consumer(),
    {
        let bits = self.bits();
        assert((bits & 2u8) != 0u8 <==> (bits == 2u8 || bits == 3u8)) by (bit_vector)
            requires
                bits == 0u8 || bits == 1u8 || bits == 2u8 || bits == 3u8,
        ;
        (bits & 2u8) != 0
    }
}

} // verus!
