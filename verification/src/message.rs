//! The fragment wire codec.
//!
//! An [`OrderedMessage`] is one indexed chunk of a larger byte stream: an
//! eight-byte big-endian sequence index followed by the payload.  There is no
//! length field; the payload is whatever remains of the packet.  Decoding is a
//! pure reinterpretation: it fails only when fewer than eight bytes are
//! supplied, never because of payload content.

use vstd::prelude::*;

use crate::wire::be64_bytes;
use crate::wire::be64_value;
use crate::wire::copy_tail;
use crate::wire::lemma_be64_round_trip;
use crate::wire::push_be64;
use crate::wire::read_be64;

verus! {

/// Why a byte buffer could not be decoded as an [`OrderedMessage`].
#[derive(Clone, Copy, Debug, PartialEq, Eq)]
pub enum MessageError {
    /// Fewer than the eight bytes of the index prefix were supplied.
    TooShort,
}

/// An indexed chunk of a byte stream.
///
/// `index` gives the chunk's position in the stream; `data` is the chunk
/// itself, possibly empty.  Within one stream, indices are assigned
/// contiguously from zero by the sender; gaps can appear only in transit.
#[derive(Clone, Debug, PartialEq, Eq)]
pub struct OrderedMessage {
    pub data: Vec<u8>,
    pub index: u64,
}

/// The wire encoding of a message: eight index bytes, then the payload.
pub open spec fn encoded_message(index: u64, data: Seq<u8>) -> Seq<u8> {
    be64_bytes(index) + data
}

impl OrderedMessage {
    /// Serializes the message as its wire encoding.
    pub fn into_bytes(self) -> (bytes: Vec<u8>)
        ensures
            bytes@ == encoded_message(self.index, self.data@),
            bytes@.len() == 8 + self.data@.len(),
    {
        let mut bytes: Vec<u8> = Vec::new();
        push_be64(&mut bytes, self.index);
        let mut i: usize = 0;
        while i < self.data.len()
            invariant
                i <= self.data@.len(),
                bytes@ == be64_bytes(self.index) + self.data@.take(i as int),
            decreases self.data@.len() - i,
        {
            bytes.push(self.data[i]);
            i = i + 1;
            assert(bytes@ =~= be64_bytes(self.index) + self.data@.take(i as int));
        }
        assert(bytes@ =~= encoded_message(self.index, self.data@));
        bytes
    }

    /// Decodes a wire buffer, failing when it cannot hold an index prefix.
    pub fn try_from_bytes(data: Vec<u8>) -> (r: Result<OrderedMessage, MessageError>)
        ensures
            data@.len() < 8 ==> r == Err::<OrderedMessage, MessageError>(MessageError::TooShort),
            data@.len() >= 8 ==> (r matches Ok(m) && m.index == be64_value(data@) && m.data@
                == data@.skip(8)),
    {
        if data.len() < 8 {
            return Err(MessageError::TooShort);
        }
        Ok(Self::from_be_bytes(data))
    }

    /// Decodes a wire buffer already known to hold an index prefix.
    pub fn from_be_bytes(data: Vec<u8>) -> (m: OrderedMessage)
        requires
            data@.len() >= 8,
        ensures
            m.index == be64_value(data@),
            m.data@ == data@.skip(8),
    {
        let index = read_be64(data.as_slice(), 0);
        let payload = copy_tail(data.as_slice(), 8);
        assert(data@.skip(0) =~= data@);
        OrderedMessage { data: payload, index }
    }
}

/// Decoding an encoded message recovers it exactly: the first eight bytes
/// read back as the original index, and the remainder is the original
/// payload.  Together with the contracts of [`OrderedMessage::into_bytes`]
/// and [`OrderedMessage::try_from_bytes`], this says that decoding the
/// encoding of any message yields that message.
pub proof fn lemma_message_round_trip(index: u64, data: Seq<u8>)
    ensures
        encoded_message(index, data).len() == 8 + data.len(),
        be64_value(encoded_message(index, data)) == index,
        encoded_message(index, data).skip(8) == data,
{
    lemma_be64_round_trip(index);
    assert(forall|i: int| 0 <= i < 8 ==> encoded_message(index, data)[i] == be64_bytes(index)[i]);
    assert(encoded_message(index, data).skip(8) =~= data);
}

} // verus!
