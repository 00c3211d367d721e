//! The status message that a launched command sends back to the process
//! that launched it: nine bytes, the two integers in little-endian order.

use vstd::prelude::*;

verus! {

/// A command's exit status, tagged with the id of the process waiting for it.
#[derive(Debug, Clone, Copy, PartialEq, Eq, Structural)]
pub struct Msg {
    pub id: u32,
    pub code: i32,
    pub success: bool,
}

/// Why bytes could not be read as a message.
#[derive(Debug, Clone, Copy, PartialEq, Eq, Structural)]
pub enum MsgDeserializeError {
    InvalidSize,
}

/// The four bytes of `x`, least significant first.
pub open spec fn le_bytes(x: u32) -> Seq<u8> {
    seq![(x & 0xff) as u8, ((x >> 8) & 0xff) as u8, ((x >> 16) & 0xff) as u8, ((x >> 24) & 0xff) as u8]
}

/// The number whose bytes, least significant first, are `b0`..`b3`.
pub open spec fn le_value(b0: u8, b1: u8, b2: u8, b3: u8) -> u32 {
    (b0 as u32) | ((b1 as u32) << 8) | ((b2 as u32) << 16) | ((b3 as u32) << 24)
}

/// The bytes of a message.
pub open spec fn msg_bytes(m: Msg) -> Seq<u8> {
    le_bytes(m.id) + le_bytes(m.code as u32) + seq![if m.success { 1u8 } else { 0u8 }]
}

/// The message that nine bytes hold.
pub open spec fn msg_of(b: Seq<u8>) -> Msg {
    Msg {
        id: le_value(b[0], b[1], b[2], b[3]),
        code: le_value(b[4], b[5], b[6], b[7]) as i32,
        success: b[8] != 0,
    }
}

proof fn lemma_le_round_trip(x: u32)
    ensures
        le_value(
            (x & 0xff) as u8,
            ((x >> 8) & 0xff) as u8,
            ((x >> 16) & 0xff) as u8,
            ((x >> 24) & 0xff) as u8,
        ) == x,
{
    assert(((((x & 0xff) as u8) as u32) | (((((x >> 8) & 0xff) as u8) as u32) << 8) | (
    ((((x >> 16) & 0xff) as u8) as u32) << 16) | (((((x >> 24) & 0xff) as u8) as u32) << 24)) == x)
        by (bit_vector);
}

/// Reading back the bytes of a message gives the message.
pub proof fn lemma_msg_round_trip(m: Msg)
    ensures
        msg_bytes(m).len() == 9,
        msg_of(msg_bytes(m)) == m,
{
    let b = msg_bytes(m);
    lemma_le_round_trip(m.id);
    lemma_le_round_trip(m.code as u32);
    assert(b[8] == if m.success { 1u8 } else { 0u8 });
    let c = m.code;
    assert(((c as u32) as i32) == c) by (bit_vector);
}

fn push_le(out: &mut Vec<u8>, x: u32)
    ensures
        final(out)@ == old(out)@ + le_bytes(x),
{
    out.push((x & 0xff) as u8);
    out.push(((x >> 8) & 0xff) as u8);
    out.push(((x >> 16) & 0xff) as u8);
    out.push(((x >> 24) & 0xff) as u8);
    assert(out@ =~= old(out)@ + le_bytes(x));
}

impl Msg {
    /// The message's nine bytes.
    pub fn serialize(self) -> (r: Vec<u8>)
        ensures
            r@ == msg_bytes(self),
    {
        let mut out: Vec<u8> = Vec::new();
        push_le(&mut out, self.id);
        push_le(&mut out, self.code as u32);
        out.push(if self.success { 1u8 } else { 0u8 });
        assert(out@ =~= msg_bytes(self));
        out
    }

    /// The message that `data` holds; only nine bytes make one.
    pub fn deserialize(data: &[u8]) -> (r: Result<Msg, MsgDeserializeError>)
        ensures
            data@.len() != 9 ==> r == Err::<Msg, MsgDeserializeError>(MsgDeserializeError::InvalidSize),
            data@.len() == 9 ==> r == Ok::<Msg, MsgDeserializeError>(msg_of(data@)),
    {
        if data.len() != 9 {
            return Err(MsgDeserializeError::InvalidSize);
        }
        let id = (data[0] as u32) | ((data[1] as u32) << 8) | ((data[2] as u32) << 16) | ((data[3] as u32)
            << 24);
        let code = (data[4] as u32) | ((data[5] as u32) << 8) | ((data[6] as u32) << 16) | ((data[7] as u32)
            << 24);
        Ok(Msg { id, code: code as i32, success: data[8] != 0 })
    }
}

/// What a process waiting on launched command `expected` makes of received
/// bytes: the command's exit code and success when they are a message
/// addressed to it; `None` when they are to be ignored.
pub fn reply_for(expected: u32, data: &[u8]) -> (r: Option<(i32, bool)>)
    ensures
        r == if data@.len() == 9 && msg_of(data@).id == expected {
            Some((msg_of(data@).code, msg_of(data@).success))
        } else {
            None::<(i32, bool)>
        },
{
    match Msg::deserialize(data) {
        Ok(msg) => if msg.id == expected {
            Some((msg.code, msg.success))
        } else {
            None
        },
        Err(_) => None,
    }
}

} // verus!
