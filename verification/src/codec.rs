//! The frame codec: fixed binary message formats over a byte stream. All
//! multi-byte integers are big-endian; a message starts with a one-byte type
//! tag; the plate field is length-prefixed with a single byte.

use vstd::prelude::*;

use crate::speed::Ticket;

verus! {

pub const ERROR: u8 = 0x10;

pub const PLATE: u8 = 0x20;

pub const WANT_HEARTBEAT: u8 = 0x40;

pub const HEARTBEAT: u8 = 0x41;

pub const I_AM_CAMERA: u8 = 0x80;

pub const I_AM_DISPATCHER: u8 = 0x81;

/// A complete client-to-server message.
pub enum Msg {
    Plate { plate: Vec<u8>, timestamp: u32 },
    WantHeartbeat { interval: u32 },
    IAmCamera { road: u16, mile: u16, limit: u16 },
    IAmDispatcher { roads: Vec<u16> },
}

/// Outcome of decoding the front of a byte buffer.
pub enum Decoded {
    /// A full frame stood at the front: the message and the exact number of
    /// bytes it occupied.
    Complete { msg: Msg, used: usize },
    /// The buffer holds no complete frame yet; more bytes are needed.
    Incomplete,
    /// The leading byte is not a client message tag: a protocol violation.
    BadTag { tag: u8 },
}

/// The big-endian 16-bit integer at offset `i`.
pub open spec fn be16(b: Seq<u8>, i: int) -> int
    recommends
        0 <= i,
        i + 2 <= b.len(),
{
    b[i] * 0x100 + b[i + 1]
}

/// The big-endian 32-bit integer at offset `i`.
pub open spec fn be32(b: Seq<u8>, i: int) -> int
    recommends
        0 <= i,
        i + 4 <= b.len(),
{
    b[i] * 0x1000000 + b[i + 1] * 0x10000 + b[i + 2] * 0x100 + b[i + 3]
}

pub open spec fn valid_tag(t: u8) -> bool {
    t == PLATE || t == WANT_HEARTBEAT || t == I_AM_CAMERA || t == I_AM_DISPATCHER
}

/// The one `Decoded` value the front of buffer `b` must produce.
pub open spec fn decode_ok(b: Seq<u8>, r: Decoded) -> bool {
    if b.len() == 0 {
        r is Incomplete
    } else if b[0] == PLATE {
        if b.len() < 2 || b.len() < 6 + b[1] {
            r is Incomplete
        } else {
            &&& r matches Decoded::Complete { msg, used }
            &&& used == 6 + b[1]
            &&& msg matches Msg::Plate { plate, timestamp }
            &&& plate@ == b.subrange(2, 2 + b[1])
            &&& timestamp == be32(b, 2 + b[1])
        }
    } else if b[0] == WANT_HEARTBEAT {
        if b.len() < 5 {
            r is Incomplete
        } else {
            &&& r matches Decoded::Complete { msg, used }
            &&& used == 5
            &&& msg matches Msg::WantHeartbeat { interval }
            &&& interval == be32(b, 1)
        }
    } else if b[0] == I_AM_CAMERA {
        if b.len() < 7 {
            r is Incomplete
        } else {
            &&& r matches Decoded::Complete { msg, used }
            &&& used == 7
            &&& msg matches Msg::IAmCamera { road, mile, limit }
            &&& road == be16(b, 1)
            &&& mile == be16(b, 3)
            &&& limit == be16(b, 5)
        }
    } else if b[0] == I_AM_DISPATCHER {
        if b.len() < 2 || b.len() < 2 + 2 * b[1] {
            r is Incomplete
        } else {
            &&& r matches Decoded::Complete { msg, used }
            &&& used == 2 + 2 * b[1]
            &&& msg matches Msg::IAmDispatcher { roads }
            &&& roads@.len() == b[1]
            &&& forall|i: int| 0 <= i < b[1] ==> roads@[i] == be16(b, 2 + 2 * i)
        }
    } else {
        &&& r matches Decoded::BadTag { tag }
        &&& tag == b[0]
    }
}

/// The big-endian 16-bit integer starting at byte `i` of `buf`.
pub fn read_be16(buf: &[u8], i: usize) -> (r: u16)
    requires
        i + 2 <= buf@.len(),
    ensures
        r == be16(buf@, i as int),
{
    (buf[i] as u16) * 0x100 + (buf[i + 1] as u16)
}

/// The big-endian 32-bit integer starting at byte `i` of `buf`.
pub fn read_be32(buf: &[u8], i: usize) -> (r: u32)
    requires
        i + 4 <= buf@.len(),
    ensures
        r == be32(buf@, i as int),
{
    (buf[i] as u32) * 0x1000000 + (buf[i + 1] as u32) * 0x10000 + (buf[i + 2] as u32) * 0x100 + (
    buf[i + 3] as u32)
}

/// Decode the message at the front of `buf`, if a complete one stands there.
/// Decoding consumes exactly the bytes the message type defines.
pub fn decode_msg(buf: &[u8]) -> (r: Decoded)
    ensures
        decode_ok(buf@, r),
{
    if buf.len() == 0 {
        return Decoded::Incomplete;
    }
    let tag = buf[0];
    if tag == PLATE {
        if buf.len() < 2 {
            return Decoded::Incomplete;
        }
        let n = buf[1] as usize;
        if buf.len() < 6 + n {
            return Decoded::Incomplete;
        }
        let mut plate: Vec<u8> = Vec::new();
        let mut i: usize = 0;
        while i < n
            invariant
                i <= n,
                n == buf@[1],
                buf@.len() >= 6 + n,
                plate@ =~= buf@.subrange(2, 2 + i as int),
            decreases n - i,
        {
            plate.push(buf[2 + i]);
            i += 1;
        }
        let timestamp = read_be32(buf, 2 + n);
        proof {
            assert(plate@ =~= buf@.subrange(2, 2 + buf@[1]));
        }
        Decoded::Complete { msg: Msg::Plate { plate, timestamp }, used: 6 + n }
    } else if tag == WANT_HEARTBEAT {
        if buf.len() < 5 {
            return Decoded::Incomplete;
        }
        let interval = read_be32(buf, 1);
        Decoded::Complete { msg: Msg::WantHeartbeat { interval }, used: 5 }
    } else if tag == I_AM_CAMERA {
        if buf.len() < 7 {
            return Decoded::Incomplete;
        }
        let road = read_be16(buf, 1);
        let mile = read_be16(buf, 3);
        let limit = read_be16(buf, 5);
        Decoded::Complete { msg: Msg::IAmCamera { road, mile, limit }, used: 7 }
    } else if tag == I_AM_DISPATCHER {
        if buf.len() < 2 {
            return Decoded::Incomplete;
        }
        let n = buf[1] as usize;
        if buf.len() < 2 + 2 * n {
            return Decoded::Incomplete;
        }
        let mut roads: Vec<u16> = Vec::new();
        let mut i: usize = 0;
        while i < n
            invariant
                i <= n,
                n == buf@[1],
                buf@.len() >= 2 + 2 * n,
                roads@.len() == i,
                forall|j: int| 0 <= j < i ==> roads@[j] == be16(buf@, 2 + 2 * j),
            decreases n - i,
        {
            roads.push(read_be16(buf, 2 + 2 * i));
            i += 1;
        }
        Decoded::Complete { msg: Msg::IAmDispatcher { roads }, used: 2 + 2 * n }
    } else {
        Decoded::BadTag { tag }
    }
}

/// The two big-endian bytes of a 16-bit integer.
pub open spec fn be16_bytes(x: u16) -> Seq<u8> {
    seq![(x / 0x100) as u8, (x % 0x100) as u8]
}

/// The four big-endian bytes of a 32-bit integer.
pub open spec fn be32_bytes(x: u32) -> Seq<u8> {
    seq![
        (x / 0x1000000) as u8,
        ((x / 0x10000) % 0x100) as u8,
        ((x / 0x100) % 0x100) as u8,
        (x % 0x100) as u8,
    ]
}

/// The wire image of a ticket: length-prefixed plate, road, the earlier
/// observation, the later observation, then the speed figure.
pub open spec fn ticket_bytes(t: Ticket) -> Seq<u8>
    recommends
        t.wf(),
{
    seq![t.plate@.len() as u8] + t.plate@ + be16_bytes(t.road) + be16_bytes(t.mile1) + be32_bytes(
        t.timestamp1,
    ) + be16_bytes(t.mile2) + be32_bytes(t.timestamp2) + be16_bytes(t.speed)
}

/// The wire image of an error frame: the tag, then the length-prefixed text.
pub open spec fn error_bytes(msg: Seq<u8>) -> Seq<u8>
    recommends
        msg.len() <= 255,
{
    seq![ERROR, msg.len() as u8] + msg
}

/// Append the two big-endian bytes of `x`.
pub fn push_be16(out: &mut Vec<u8>, x: u16)
    ensures
        final(out)@ == old(out)@ + be16_bytes(x),
{
    out.push((x / 0x100) as u8);
    out.push((x % 0x100) as u8);
    proof {
        assert(out@ =~= old(out)@ + be16_bytes(x));
    }
}

/// Append the four big-endian bytes of `x`.
pub fn push_be32(out: &mut Vec<u8>, x: u32)
    ensures
        final(out)@ == old(out)@ + be32_bytes(x),
{
    out.push((x / 0x1000000) as u8);
    out.push(((x / 0x10000) % 0x100) as u8);
    out.push(((x / 0x100) % 0x100) as u8);
    out.push((x % 0x100) as u8);
    proof {
        assert(out@ =~= old(out)@ + be32_bytes(x));
    }
}

/// Serialize a ticket frame.
pub fn encode_ticket(t: &Ticket) -> (r: Vec<u8>)
    requires
        t.wf(),
    ensures
        r@ == ticket_bytes(*t),
{
    let mut r: Vec<u8> = Vec::new();
    let n = t.plate.len();
    r.push(n as u8);
    let mut i: usize = 0;
    while i < n
        invariant
            i <= n,
            n == t.plate@.len(),
            r@ =~= seq![n as u8] + t.plate@.subrange(0, i as int),
        decreases n - i,
    {
        r.push(t.plate[i]);
        i += 1;
    }
    push_be16(&mut r, t.road);
    push_be16(&mut r, t.mile1);
    push_be32(&mut r, t.timestamp1);
    push_be16(&mut r, t.mile2);
    push_be32(&mut r, t.timestamp2);
    push_be16(&mut r, t.speed);
    proof {
        assert(t.plate@.subrange(0, t.plate@.len() as int) =~= t.plate@);
        assert(r@ =~= ticket_bytes(*t));
    }
    r
}

/// Serialize an error frame carrying `msg` as its text.
pub fn encode_error(msg: &[u8]) -> (r: Vec<u8>)
    requires
        msg@.len() <= 255,
    ensures
        r@ == error_bytes(msg@),
{
    let mut r: Vec<u8> = Vec::new();
    r.push(ERROR);
    r.push(msg.len() as u8);
    let n = msg.len();
    let mut i: usize = 0;
    while i < n
        invariant
            i <= n,
            n == msg@.len(),
            r@ =~= seq![ERROR, n as u8] + msg@.subrange(0, i as int),
        decreases n - i,
    {
        r.push(msg[i]);
        i += 1;
    }
    proof {
        assert(msg@.subrange(0, msg@.len() as int) =~= msg@);
        assert(r@ =~= error_bytes(msg@));
    }
    r
}

} // verus!
