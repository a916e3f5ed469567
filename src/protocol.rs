//! Packet-level helpers of the MySQL client/server protocol.

use vstd::prelude::*;
use crate::error::CdcError;

verus! {

/// True when the packet is an error packet (first byte `0xFF`).
pub fn is_error_packet(data: &[u8]) -> (r: bool)
    ensures
        r == (data@.len() > 0 && data@[0] == 0xFF),
{
    data.len() > 0 && data[0] == 0xFF
}

/// True when the packet is an OK packet (first byte `0x00`).
pub fn is_ok_packet(data: &[u8]) -> (r: bool)
    ensures
        r == (data@.len() > 0 && data@[0] == 0x00),
{
    data.len() > 0 && data[0] == 0x00
}

} // verus!

verus! {

/// Largest payload one packet carries; a payload of this length continues
/// in the next packet.
pub const MAX_PACKET_PAYLOAD: usize = 0xFF_FFFF;

/// The 4-byte packet header: payload length (3 bytes LE) and sequence id.
pub open spec fn packet_header(len: nat, seq: u8) -> Seq<u8> {
    crate::wire::u24_bytes(len as u32) + seq![seq]
}

/// The wire bytes that carry `body` starting with sequence id `seq`: full
/// packets of `0xFFFFFF` bytes while that much is left, then one shorter
/// (possibly empty) packet.
pub open spec fn framed(body: Seq<u8>, seq: u8) -> Seq<u8>
    decreases body.len(),
{
    if body.len() < 0xFF_FFFF {
        packet_header(body.len(), seq) + body
    } else {
        packet_header(0xFF_FFFF, seq) + body.subrange(0, 0xFF_FFFF) + framed(
            body.subrange(0xFF_FFFF, body.len() as int),
            (if seq == 255 { 0 } else { seq + 1 }) as u8,
        )
    }
}

/// A body of exactly `0xFFFFFF` bytes is followed by an empty continuation
/// packet with the next sequence id.
pub proof fn lemma_max_body_continues(body: Seq<u8>, seq: u8)
    requires
        body.len() == 0xFF_FFFF,
    ensures
        framed(body, seq) == packet_header(0xFF_FFFF, seq) + body + packet_header(
            0,
            (if seq == 255 { 0 } else { seq + 1 }) as u8,
        ),
{
    let rest = body.subrange(0xFF_FFFF, body.len() as int);
    assert(rest =~= Seq::<u8>::empty());
    assert(body.subrange(0, 0xFF_FFFF) =~= body);
    let s2 = (if seq == 255 { 0 } else { seq + 1 }) as u8;
    assert(framed(rest, s2) =~= packet_header(0, s2));
}

/// Frames `body` into packets starting at sequence id `seq`.
pub fn frame_packet(body: &[u8], seq: u8) -> (r: Vec<u8>)
    ensures
        r@ == framed(body@, seq),
{
    let n = body.len();
    let mut out: Vec<u8> = Vec::new();
    let mut start: usize = 0;
    let mut s = seq;
    assert(body@.subrange(0, n as int) =~= body@);
    while n - start >= MAX_PACKET_PAYLOAD
        invariant
            start <= n,
            n == body@.len(),
            out@ + framed(body@.subrange(start as int, n as int), s) == framed(body@, seq),
        decreases n - start,
    {
        let ghost rest = body@.subrange(start as int, n as int);
        let ghost s2 = (if s == 255 { 0 } else { s + 1 }) as u8;
        assert(rest.subrange(0xFF_FFFF, rest.len() as int) =~= body@.subrange(
            start + 0xFF_FFFF,
            n as int,
        ));
        assert(rest.subrange(0, 0xFF_FFFF) =~= body@.subrange(start as int, start + 0xFF_FFFF));
        let ghost before = out@;
        crate::wire::push_u24_le(&mut out, 0xFF_FFFF);
        out.push(s);
        crate::wire::push_all(&mut out, crate::rowcodec::copy_bytes(body, start, start + MAX_PACKET_PAYLOAD).as_slice());
        assert(out@ =~= before + packet_header(0xFF_FFFF, s) + rest.subrange(0, 0xFF_FFFF));
        start = start + MAX_PACKET_PAYLOAD;
        s = if s == 255 { 0 } else { s + 1 };
        assert(out@ + framed(body@.subrange(start as int, n as int), s) =~= framed(body@, seq));
    }
    let ghost before = out@;
    let ghost rest = body@.subrange(start as int, n as int);
    crate::wire::push_u24_le(&mut out, (n - start) as u32);
    out.push(s);
    crate::wire::push_all(&mut out, crate::rowcodec::copy_bytes(body, start, n).as_slice());
    assert(out@ =~= before + framed(rest, s));
    out
}

/// Payload length and sequence id of a packet header.
pub fn parse_packet_header(h: &[u8]) -> (r: (u32, u8))
    requires
        h@.len() >= 4,
    ensures
        r.0 == crate::wire::u24_le(h@, 0),
        r.1 == h@[3],
{
    (crate::wire::read_u24_le(h, 0), h[3])
}

/// Joins the payloads of a packet and its continuations.
pub struct PacketAssembler {
    pub body: Vec<u8>,
    pub complete: bool,
}

impl PacketAssembler {
    pub fn new() -> (r: PacketAssembler)
        ensures
            r.body@.len() == 0,
            !r.complete,
    {
        PacketAssembler { body: Vec::new(), complete: false }
    }

    /// Adds the payload of one packet whose header gave length `len`; the
    /// body is complete once a packet shorter than `0xFFFFFF` came.
    pub fn feed(&mut self, len: u32, payload: &[u8])
        requires
            !old(self).complete,
        ensures
            final(self).body@ == old(self).body@ + payload@,
            final(self).complete == (len < 0xFF_FFFF),
    {
        crate::wire::push_all(&mut self.body, payload);
        self.complete = len < 0xFF_FFFF;
    }
}

/// The server's handshake greeting.
pub struct GreetingPacket {
    pub protocol_version: u8,
    pub server_version: String,
    pub thread_id: u32,
    pub scramble: Vec<u8>,
    pub server_capabilities: u32,
    pub server_collation: u8,
    pub server_status: u16,
}

/// Index of the first zero byte at or after `i`.
pub open spec fn nul_from(b: Seq<u8>, i: int) -> Option<int> {
    if exists|k: int| i <= k < b.len() && b[k] == 0 {
        Some(choose|k: int| i <= k < b.len() && b[k] == 0 && forall|j: int| i <= j < k ==> b[j] != 0)
    } else {
        None
    }
}

/// Length of the second scramble part for an auth-data length `a`.
pub open spec fn scramble2_len(a: u8) -> int {
    if a >= 21 { a - 8 } else { 13 }
}

/// The greeting's scramble: part one and part two, part two without a
/// trailing NUL.
pub open spec fn greeting_scramble(b: Seq<u8>, z: int) -> Seq<u8> {
    let l2 = scramble2_len(b[z + 21]);
    let second = b.subrange(z + 32, z + 32 + l2);
    b.subrange(z + 5, z + 13) + if second.last() == 0 { second.drop_last() } else { second }
}

fn find_nul(b: &[u8], i: usize) -> (r: Option<usize>)
    ensures
        r is Some <==> nul_from(b@, i as int) is Some,
        r matches Some(k) ==> nul_from(b@, i as int) == Some(k as int) && i <= k < b@.len(),
{
    let mut k = i;
    while k < b.len()
        invariant
            i <= k,
            forall|j: int| i <= j < k ==> b@[j] != 0,
        decreases b@.len() - k,
    {
        if b[k] == 0 {
            proof {
                let c = choose|c: int|
                    i <= c < b@.len() && b@[c] == 0 && forall|j: int| i <= j < c ==> b@[j] != 0;
                assert(c == k) by {
                    if c < k {
                    } else if c > k {
                        assert(b@[k as int] == 0);
                    }
                }
            }
            return Some(k);
        }
        k = k + 1;
    }
    None
}

impl GreetingPacket {
    /// Reads the protocol-10 greeting.
    #[verifier::rlimit(40)]
    pub fn parse(data: &[u8]) -> (r: Result<GreetingPacket, CdcError>)
        ensures
            ({
                let b = data@;
                let ok = b.len() > 0 && b[0] == 10 && nul_from(b, 1) is Some && nul_from(b, 1)->Some_0
                    + 32 + scramble2_len(b[nul_from(b, 1)->Some_0 + 21]) <= b.len();
                &&& ok ==> {
                    let z = nul_from(b, 1)->Some_0;
                    let g = r->Ok_0;
                    &&& r is Ok
                    &&& g.protocol_version == 10
                    &&& g.server_version@ == crate::binlog::lossy_text(b.subrange(1, z))
                    &&& g.thread_id == crate::wire::u32_le(b, z + 1)
                    &&& g.server_capabilities == ((crate::wire::u16_le(b, z + 19) as u32) << 16u32)
                        | (crate::wire::u16_le(b, z + 14) as u32)
                    &&& g.server_collation == b[z + 16]
                    &&& g.server_status == crate::wire::u16_le(b, z + 17)
                    &&& g.scramble@ == greeting_scramble(b, z)
                }
                &&& !ok ==> r is Err && r->Err_0 is ProtocolError
            }),
    {
        let n = data.len();
        if n == 0 || data[0] != 10 {
            return Err(CdcError::ProtocolError("unsupported handshake protocol version".to_owned()));
        }
        let z = match find_nul(data, 1) {
            Some(z) => z,
            None => {
                return Err(CdcError::ProtocolError("greeting truncated".to_owned()));
            },
        };
        if n - z < 32 {
            return Err(CdcError::ProtocolError("greeting truncated".to_owned()));
        }
        let a = data[z + 21];
        let l2: usize = if a >= 21 { (a - 8) as usize } else { 13 };
        if n - z - 32 < l2 {
            return Err(CdcError::ProtocolError("greeting truncated".to_owned()));
        }
        let server_version = crate::binlog::utf8_lossy(crate::rowcodec::copy_bytes(data, 1, z).as_slice());
        let thread_id = crate::wire::read_u32_le(data, z + 1);
        let low = crate::wire::read_u16_le(data, z + 14);
        let collation = data[z + 16];
        let status = crate::wire::read_u16_le(data, z + 17);
        let high = crate::wire::read_u16_le(data, z + 19);
        let mut scramble = crate::rowcodec::copy_bytes(data, z + 5, z + 13);
        let end = if data[z + 32 + l2 - 1] == 0 { z + 32 + l2 - 1 } else { z + 32 + l2 };
        let part2 = crate::rowcodec::copy_bytes(data, z + 32, end);
        let ghost second = data@.subrange(z + 32, z + 32 + l2);
        assert(part2@ =~= if second.last() == 0 { second.drop_last() } else { second });
        crate::wire::push_all(&mut scramble, part2.as_slice());
        Ok(GreetingPacket {
            protocol_version: 10,
            server_version,
            thread_id,
            scramble,
            server_capabilities: ((high as u32) << 16u32) | (low as u32),
            server_collation: collation,
            server_status: status,
        })
    }
}

/// Fields of an error packet (`FF`, code, `#`, SQL state, message).
pub struct ErrorPacket {
    pub code: u16,
    pub sql_state: String,
    pub message: String,
}

/// Reads an error packet: code `u16 LE`, a state marker, 5 bytes of SQL
/// state, then the message. `None` unless it is one of at least 9 bytes.
pub fn parse_error_packet(data: &[u8]) -> (r: Option<ErrorPacket>)
    ensures
        (data@.len() >= 9 && data@[0] == 0xFF) ==> r is Some && r->Some_0.code
            == crate::wire::u16_le(data@, 1) && r->Some_0.sql_state@ == crate::binlog::lossy_text(
            data@.subrange(4, 9),
        ) && r->Some_0.message@ == crate::binlog::lossy_text(
            data@.subrange(9, data@.len() as int),
        ),
        !(data@.len() >= 9 && data@[0] == 0xFF) ==> r is None,
{
    if data.len() < 9 || data[0] != 0xFF {
        return None;
    }
    let code = crate::wire::read_u16_le(data, 1);
    let sql_state = crate::binlog::utf8_lossy(crate::rowcodec::copy_bytes(data, 4, 9).as_slice());
    let message = crate::binlog::utf8_lossy(crate::rowcodec::copy_bytes(data, 9, data.len()).as_slice());
    Some(ErrorPacket { code, sql_state, message })
}

} // verus!

verus! {

/// True for an EOF packet: first byte `0xFE` and shorter than 9 bytes.
pub fn is_eof_packet(data: &[u8]) -> (r: bool)
    ensures
        r == (data@.len() > 0 && data@[0] == 0xFE && data@.len() < 9),
{
    data.len() > 0 && data[0] == 0xFE && data.len() < 9
}

} // verus!

verus! {

/// How far the reply to a text query has been read.
#[derive(Debug, Clone, Copy, PartialEq, Eq, Structural)]
pub enum ReplyState {
    /// Nothing read yet.
    Start,
    /// In the column definitions of a result set.
    Columns,
    /// In the rows of a result set.
    Rows,
    /// The reply is complete.
    Done,
}

/// The state after reading `packet`: an OK or error packet is a whole
/// reply; otherwise a result set follows, whose column definitions and
/// rows each end with an EOF packet; an error packet ends it early.
pub open spec fn reply_next(s: ReplyState, packet: Seq<u8>) -> ReplyState {
    let err = packet.len() > 0 && packet[0] == 0xFF;
    let eof = packet.len() > 0 && packet[0] == 0xFE && packet.len() < 9;
    match s {
        ReplyState::Start => if err || (packet.len() > 0 && packet[0] == 0x00) {
            ReplyState::Done
        } else {
            ReplyState::Columns
        },
        ReplyState::Columns => if err {
            ReplyState::Done
        } else if eof {
            ReplyState::Rows
        } else {
            ReplyState::Columns
        },
        ReplyState::Rows => if err || eof {
            ReplyState::Done
        } else {
            ReplyState::Rows
        },
        ReplyState::Done => ReplyState::Done,
    }
}

impl ReplyState {
    /// The state after reading `packet`.
    pub fn next(self, packet: &[u8]) -> (r: ReplyState)
        ensures
            r == reply_next(self, packet@),
    {
        let err = is_error_packet(packet);
        let eof = is_eof_packet(packet);
        match self {
            ReplyState::Start => if err || is_ok_packet(packet) {
                ReplyState::Done
            } else {
                ReplyState::Columns
            },
            ReplyState::Columns => if err {
                ReplyState::Done
            } else if eof {
                ReplyState::Rows
            } else {
                ReplyState::Columns
            },
            ReplyState::Rows => if err || eof {
                ReplyState::Done
            } else {
                ReplyState::Rows
            },
            ReplyState::Done => ReplyState::Done,
        }
    }
}

} // verus!
