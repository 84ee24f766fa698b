//! The connection-scoped response envelope.
//!
//! A [`Response`] wraps one fragment together with the identifier of the
//! logical connection it belongs to, so that a single transport can carry
//! fragments for many concurrently open connections and the receiver can
//! route each fragment into the right reassembly buffer.  On the wire a
//! response is the eight-byte big-endian connection id, the eight-byte
//! big-endian fragment index, and then the payload: at least sixteen bytes,
//! even when the payload is empty.

use vstd::prelude::*;

use crate::message::MessageError;
use crate::message::OrderedMessage;
use crate::message::encoded_message;
use crate::wire::be64_bytes;
use crate::wire::be64_value;
use crate::wire::copy_tail;
use crate::wire::read_be64;
use crate::wire::push_be64;

verus! {

/// Identifies one logical connection multiplexed over the transport.  It is
/// assigned externally when the connection opens, stays fixed for the
/// connection's lifetime, and is never interpreted here.
pub type ConnectionId = u64;

/// Why a byte buffer could not be decoded as a [`Response`].
#[derive(Clone, Copy, Debug, PartialEq, Eq)]
pub enum ResponseError {
    /// Fewer than the eight bytes of the connection id were supplied.
    ConnectionIdTooShort,
    /// The buffer was empty.
    NoData,
    /// The bytes after the connection id could not be decoded as a
    /// fragment.
    OrderedMessageDeserializationError,
}

impl From<MessageError> for ResponseError {
    fn from(e: MessageError) -> (r: Self) {
        match e {
            MessageError::TooShort => ResponseError::OrderedMessageDeserializationError,
        }
    }
}

impl vstd::std_specs::convert::FromSpecImpl<MessageError> for ResponseError {
    open spec fn obeys_from_spec() -> bool {
        true
    }

    open spec fn from_spec(e: MessageError) -> Self {
        ResponseError::OrderedMessageDeserializationError
    }
}

/// The wire encoding of a response: the connection id, then the encoded
/// fragment.
pub open spec fn encoded_response(connection_id: u64, index: u64, data: Seq<u8>) -> Seq<u8> {
    be64_bytes(connection_id) + encoded_message(index, data)
}

/// A remote network response: one fragment of the response byte stream,
/// tagged with the logical connection it answers.
#[derive(Debug, PartialEq, Eq)]
pub struct Response {
    pub message: OrderedMessage,
    pub connection_id: ConnectionId,
}

impl Response {
    /// Constructor for responses.
    pub fn new(connection_id: ConnectionId, message: OrderedMessage) -> (response: Response)
        ensures
            response.connection_id == connection_id,
            response.message == message,
    {
        Response { connection_id, message }
    }

    /// Decodes a wire buffer into a response.
    ///
    /// An empty buffer, a buffer too short to hold the connection id, and a
    /// buffer whose remainder is too short to hold a fragment index are
    /// each rejected with their own error; any longer buffer decodes
    /// successfully, whatever its payload holds.
    pub fn try_from_bytes(b: &[u8]) -> (r: Result<Response, ResponseError>)
        ensures
            b@.len() == 0 ==> r == Err::<Response, ResponseError>(ResponseError::NoData),
            0 < b@.len() < 8 ==> r == Err::<Response, ResponseError>(
                ResponseError::ConnectionIdTooShort,
            ),
            8 <= b@.len() < 16 ==> r == Err::<Response, ResponseError>(
                ResponseError::OrderedMessageDeserializationError,
            ),
            b@.len() >= 16 ==> (r matches Ok(response) && response.connection_id == be64_value(b@)
                && response.message.index == be64_value(b@.skip(8)) && response.message.data@
                == b@.skip(16)),
    {
        if b.len() == 0 {
            return Err(ResponseError::NoData);
        }
        if b.len() < 8 {
            return Err(ResponseError::ConnectionIdTooShort);
        }
        let connection_id = read_be64(b, 0);
        let data = copy_tail(b, 8);
        match OrderedMessage::try_from_bytes(data) {
            Ok(message) => {
                proof {
                    assert(b@.skip(0) =~= b@);
                    assert(b@.skip(8).skip(8) =~= b@.skip(16));
                }
                Ok(Response { connection_id, message })
            },
            Err(e) => Err(ResponseError::from(e)),
        }
    }

    /// Serializes the response into bytes so that it can be sent back over
    /// the transport to the requesting application.  The format is the
    /// eight connection id bytes, the eight fragment index bytes, then the
    /// payload.
    pub fn into_bytes(self) -> (bytes: Vec<u8>)
        ensures
            bytes@ == encoded_response(self.connection_id, self.message.index, self.message.data@),
            bytes@.len() == 16 + self.message.data@.len(),
    {
        let mut bytes: Vec<u8> = Vec::new();
        push_be64(&mut bytes, self.connection_id);
        let mut message_bytes = self.message.into_bytes();
        bytes.append(&mut message_bytes);
        proof {
            assert(bytes@ =~= encoded_response(
                self.connection_id,
                self.message.index,
                self.message.data@,
            ));
        }
        bytes
    }
}

/// Decoding an encoded response recovers it exactly: the connection id, the
/// fragment index, and the payload all read back as what was encoded.
/// Together with the contracts of [`Response::into_bytes`] and
/// [`Response::try_from_bytes`], this says that decoding the encoding of
/// any response yields that response.
pub proof fn lemma_response_round_trip(connection_id: u64, index: u64, data: Seq<u8>)
    ensures
        encoded_response(connection_id, index, data).len() == 16 + data.len(),
        be64_value(encoded_response(connection_id, index, data)) == connection_id,
        be64_value(encoded_response(connection_id, index, data).skip(8)) == index,
        encoded_response(connection_id, index, data).skip(16) == data,
{
    let whole = encoded_response(connection_id, index, data);
    crate::wire::lemma_be64_round_trip(connection_id);
    crate::message::lemma_message_round_trip(index, data);
    assert(forall|i: int| 0 <= i < 8 ==> whole[i] == be64_bytes(connection_id)[i]);
    assert(whole.skip(8) =~= encoded_message(index, data));
    assert(whole.skip(16) =~= data);
}

} // verus!
