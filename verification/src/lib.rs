pub mod crypto;
pub mod envelope;
pub mod eval_info;
pub mod evaluator;
pub mod filter;
pub mod message;
pub mod net;
pub mod store;
pub mod wire;

use vstd::prelude::*;

verus! {

/// Hard cap on a packet, IPv6 and UDP headers included, chosen to avoid
/// IP fragmentation.
pub const MAX_PACKET_SIZE: usize = 1280;

/// Payload budget of one datagram: the packet cap minus 40 bytes of IPv6
/// header and 8 bytes of UDP header.
pub const MAX_MESSAGE_SIZE: usize = 1232;

/// Bytes of file content carried by one file message: the message budget
/// minus the message tag, the MAC, the file hash, the piece index and the
/// encryption nonce.
pub const FILE_CHUNK_SIZE: usize = 1151;

pub fn max_message_size() -> (r: usize)
    ensures
        r == MAX_MESSAGE_SIZE,
        r == MAX_PACKET_SIZE - 48,
{
    MAX_MESSAGE_SIZE
}

} // verus!
