//! A sequenced-fragment reassembly library.
//!
//! Arbitrary-length byte streams are sliced into size-bounded, monotonically
//! indexed fragments on the sending side, carried as discrete packets over an
//! unordered and unreliable transport, and reassembled on the receiving side
//! into the longest gapless byte prefix currently available.  A
//! connection-scoped envelope adds a connection identifier so that one
//! transport can multiplex many logical connections.

pub mod chunking;
pub mod message;
pub mod ordered_buffer;
pub mod packetizer;
pub mod response;
pub mod sender;
pub mod tcp_client;
pub mod wire;
