//! The whole-buffer fragmenter.
//!
//! This sender turns each outbound byte buffer into exactly one
//! [`OrderedMessage`], tagging it with the next value of a running counter.
//! Slicing a buffer into several bounded chunks is the job of the sender in
//! [`crate::ordered_buffer`]; this one is used where the caller has already
//! bounded the buffer size.

use vstd::prelude::*;

use crate::message::OrderedMessage;

verus! {

/// Assigns sequence indices to outbound byte buffers.  The resulting
/// messages can be reassembled into an ordered stream by a receiving
/// [`crate::ordered_buffer::OrderedMessageBuffer`].
pub struct OrderedMessageSender {
    next_index: u64,
}

impl OrderedMessageSender {
    /// The index the next emitted message will carry.
    pub closed spec fn spec_next_index(&self) -> u64 {
        self.next_index
    }

    /// The index the next emitted message will carry.
    #[verifier::when_used_as_spec(spec_next_index)]
    pub fn next_index(&self) -> (index: u64)
        ensures
            index == self.spec_next_index(),
    {
        self.next_index
    }

    /// A fresh sender, counting from zero.
    pub fn new() -> (sender: OrderedMessageSender)
        ensures
            sender.next_index() == 0,
    {
        OrderedMessageSender { next_index: 0 }
    }

    /// Wraps `input` in a message carrying the next sequence index and
    /// advances the counter by one.
    pub fn packetize(&mut self, input: Vec<u8>) -> (message: OrderedMessage)
        requires
            old(self).next_index() < u64::MAX,
        ensures
            message.index == old(self).next_index(),
            message.data@ == input@,
            final(self).next_index() == old(self).next_index() + 1,
    {
        let message = OrderedMessage { data: input, index: self.next_index };
        self.next_index = self.next_index + 1;
        message
    }
}

} // verus!
