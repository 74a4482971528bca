//! The word a protected service receives with each message: payload length
//! in the low 16 bits, the tag in the next 8, and the reply endpoint above.

use vstd::prelude::*;

verus! {

#[derive(Clone, Copy, Debug, PartialEq, Eq, Structural)]
pub struct MessageHeader {
    pub len: usize,
    pub tag: u8,
    pub reply: u32,
}

/// The header a receive word carries, when it carries a message whose
/// payload fits in `capacity` bytes; zero and all-ones mean nothing arrived.
pub open spec fn message_spec(raw: u64, capacity: usize) -> Option<MessageHeader> {
    let len = raw % 0x1_0000;
    if raw == 0 || raw == u64::MAX || len > capacity {
        None
    } else {
        Some(
            MessageHeader {
                len: len as usize,
                tag: ((raw / 0x1_0000) % 0x100) as u8,
                reply: ((raw / 0x100_0000) % 0x1_0000_0000) as u32,
            },
        )
    }
}

/// Split a receive word into the message header it carries.
pub fn decode_message_word(raw: u64, capacity: usize) -> (r: Option<MessageHeader>)
    ensures
        r == message_spec(raw, capacity),
{
    if raw == 0 || raw == u64::MAX {
        return None;
    }
    let len = raw & 0xffff;
    let tag = (raw >> 16u64) & 0xff;
    let reply = (raw >> 24u64) & 0xffff_ffff;
    assert(len == raw % 0x1_0000 && tag == (raw / 0x1_0000) % 0x100 && reply == (raw / 0x100_0000) % 0x1_0000_0000)
        by (bit_vector)
        requires
            len == raw & 0xffff,
            tag == (raw >> 16u64) & 0xff,
            reply == (raw >> 24u64) & 0xffff_ffff,
    ;
    if len > capacity as u64 {
        return None;
    }
    Some(MessageHeader { len: len as usize, tag: tag as u8, reply: reply as u32 })
}

} // verus!
