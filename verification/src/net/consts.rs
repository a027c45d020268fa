use vstd::prelude::*;

verus! {

/// Most bytes that one serialized chunk, header included, takes on the wire.
pub const CHUNK_SIZE: usize = 1450;

/// Bytes of the msg_id, idx and total fields at the front of a chunk; a chunk's
/// whole header, with the data length, is `chunk::CHUNK_HEADER_LEN` bytes.
pub const HEADER_SIZE: usize = 12;

/// Milliseconds that one send of a chunk may take before it is given up.
pub const SEND_TIMEOUT: u64 = 200;

} // verus!
