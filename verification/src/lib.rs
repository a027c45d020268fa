//! Chunked message transport over datagrams: message and chunk wire formats,
//! splitting a message into chunks, and reassembling chunks into messages.
//! Every function here carries a contract that Verus proves.

pub mod net;


pub use net::message::{Message, MessageView};
