//! Binlog event codec: the event header, the bodies of the event types the
//! client reads, and the dump commands that start a replication stream.

use vstd::prelude::*;
use vstd::string::*;
use crate::error::CdcError;
use crate::events::{
    event_code, event_type_of, event_type_ok, lemma_event_code_round_trip, lemma_event_type_byte_kept, EventHeader, EventType,
    GtidEventData, QueryEventData, RotateEventData,
};
use crate::text::{dec, string_from_chars, u64_digits};
use crate::wire::{
    lemma_u16_round_trip, lemma_u32_round_trip, push_all, push_u16_le, push_u32_le, read_u16_le,
    read_u32_le, read_u64_le, u16_bytes, u16_le, u32_bytes, u32_le, u64_le,
};

verus! {

/// Size of an event header.
pub const EVENT_HEADER_SIZE: usize = 19;

/// Command byte of COM_BINLOG_DUMP.
pub const COM_BINLOG_DUMP: u8 = 0x12;

/// Command byte of COM_BINLOG_DUMP_GTID.
pub const COM_BINLOG_DUMP_GTID: u8 = 0x1e;

/// The text the bytes stand for, read as UTF-8 with each invalid sequence
/// replaced by U+FFFD.
pub uninterp spec fn lossy_text(b: Seq<u8>) -> Seq<char>;

/// Relies on `String::from_utf8_lossy`: the result depends on the bytes alone.
#[verifier::external_body]
pub(crate) fn utf8_lossy(b: &[u8]) -> (r: String)
    ensures
        r@ == lossy_text(b@),
{
    String::from_utf8_lossy(b).into_owned()
}

/// The bytes `b[lo..hi]` as text.
fn text_between(b: &[u8], lo: usize, hi: usize) -> (r: String)
    requires
        lo <= hi <= b@.len(),
    ensures
        r@ == lossy_text(b@.subrange(lo as int, hi as int)),
{
    let mut v: Vec<u8> = Vec::new();
    let mut i = lo;
    while i < hi
        invariant
            lo <= i <= hi <= b@.len(),
            v@ == b@.subrange(lo as int, i as int),
        decreases hi - i,
    {
        v.push(b[i]);
        i = i + 1;
        assert(v@ =~= b@.subrange(lo as int, i as int));
    }
    utf8_lossy(v.as_slice())
}

/// The header fields read from the first 19 bytes.
pub open spec fn header_spec(b: Seq<u8>) -> EventHeader {
    EventHeader {
        timestamp: u32_le(b, 0),
        event_type: event_type_of(b[4]),
        server_id: u32_le(b, 5),
        event_length: u32_le(b, 9),
        next_pos: u32_le(b, 13),
        flags: u16_le(b, 17),
    }
}

/// A QUERY body holds its fixed part, status block, schema and NUL.
pub open spec fn query_layout_ok(b: Seq<u8>) -> bool {
    b.len() >= 13 && 13 + u16_le(b, 11) + b[8] + 1 <= b.len()
}

/// The schema name of a QUERY body.
pub open spec fn query_db(b: Seq<u8>) -> Seq<char> {
    lossy_text(b.subrange(13 + u16_le(b, 11), 13 + u16_le(b, 11) + b[8]))
}

/// The statement of a QUERY body.
pub open spec fn query_text(b: Seq<u8>) -> Seq<char> {
    lossy_text(b.subrange(13 + u16_le(b, 11) + b[8] + 1, b.len() as int))
}

/// The `uuid:sequence` text of a GTID body.
pub open spec fn gtid_body_text(b: Seq<u8>) -> Seq<char> {
    uuid_text(b.subrange(1, 17)) + seq![':'] + dec(u64_le(b, 17) as nat)
}

/// The 19 header bytes of `h`.
pub open spec fn header_bytes(h: EventHeader) -> Seq<u8> {
    u32_bytes(h.timestamp) + seq![event_code(h.event_type)] + u32_bytes(h.server_id) + u32_bytes(
        h.event_length,
    ) + u32_bytes(h.next_pos) + u16_bytes(h.flags)
}

/// The binlog file magic `FE 62 69 6E`.
pub open spec fn is_magic(b: Seq<u8>) -> bool {
    b.len() >= 4 && b[0] == 0xFE && b[1] == 0x62 && b[2] == 0x69 && b[3] == 0x6E
}

/// Lower-case hexadecimal digit of `d < 16`.
pub open spec fn hex_digit(d: int) -> char {
    if d < 10 {
        ((d + 48) as u8) as char
    } else {
        ((d + 87) as u8) as char
    }
}

/// The two hex digits of a byte.
pub open spec fn hex_byte(x: u8) -> Seq<char> {
    seq![hex_digit(x as int / 16), hex_digit(x as int % 16)]
}

/// Hex digits of `b[lo..hi]`.
pub open spec fn hex_run(b: Seq<u8>, lo: int, hi: int) -> Seq<char>
    decreases hi - lo,
{
    if hi <= lo {
        Seq::empty()
    } else {
        hex_run(b, lo, hi - 1) + hex_byte(b[hi - 1])
    }
}

/// The 8-4-4-4-12 text of 16 UUID bytes.
pub open spec fn uuid_text(b: Seq<u8>) -> Seq<char> {
    hex_run(b, 0, 4) + seq!['-'] + hex_run(b, 4, 6) + seq!['-'] + hex_run(b, 6, 8) + seq!['-']
        + hex_run(b, 8, 10) + seq!['-'] + hex_run(b, 10, 16)
}

fn push_hex_run(out: &mut Vec<char>, b: &[u8], lo: usize, hi: usize)
    requires
        lo <= hi <= b@.len(),
    ensures
        final(out)@ == old(out)@ + hex_run(b@, lo as int, hi as int),
{
    let mut i = lo;
    while i < hi
        invariant
            lo <= i <= hi <= b@.len(),
            out@ == old(out)@ + hex_run(b@, lo as int, i as int),
        decreases hi - i,
    {
        let x = b[i];
        let d1 = x / 16;
        let d2 = x % 16;
        out.push(if d1 < 10 { (d1 + 48) as char } else { (d1 + 87) as char });
        out.push(if d2 < 10 { (d2 + 48) as char } else { (d2 + 87) as char });
        i = i + 1;
        assert(out@ =~= old(out)@ + hex_run(b@, lo as int, i as int));
    }
}

/// The 8-4-4-4-12 lower-case hex text of a 16-byte UUID.
pub fn format_uuid(bytes: &[u8; 16]) -> (r: String)
    ensures
        r@ == uuid_text(bytes@),
        r@.len() == 36,
{
    let b = bytes.as_slice();
    let mut out: Vec<char> = Vec::new();
    push_hex_run(&mut out, b, 0, 4);
    out.push('-');
    push_hex_run(&mut out, b, 4, 6);
    out.push('-');
    push_hex_run(&mut out, b, 6, 8);
    out.push('-');
    push_hex_run(&mut out, b, 8, 10);
    out.push('-');
    push_hex_run(&mut out, b, 10, 16);
    assert(out@ =~= uuid_text(b@));
    proof {
        lemma_hex_run_len(b@, 0, 4);
        lemma_hex_run_len(b@, 4, 6);
        lemma_hex_run_len(b@, 6, 8);
        lemma_hex_run_len(b@, 8, 10);
        lemma_hex_run_len(b@, 10, 16);
    }
    string_from_chars(&out)
}

proof fn lemma_hex_run_len(b: Seq<u8>, lo: int, hi: int)
    requires
        lo <= hi,
    ensures
        hex_run(b, lo, hi).len() == 2 * (hi - lo),
    decreases hi - lo,
{
    if hi > lo {
        lemma_hex_run_len(b, lo, hi - 1);
    }
}

/// Namespace of the binlog event decoders.
pub struct BinlogParser;

impl BinlogParser {
    /// Checks the 4-byte binlog file magic.
    pub fn verify_magic(data: &[u8]) -> (r: Result<(), CdcError>)
        ensures
            r is Ok <==> is_magic(data@),
            r is Err ==> r->Err_0 is BinlogParseError,
    {
        if data.len() < 4 {
            return Err(CdcError::BinlogParseError("binlog too short for its magic".to_owned()));
        }
        if data[0] == 0xFE && data[1] == 0x62 && data[2] == 0x69 && data[3] == 0x6E {
            Ok(())
        } else {
            Err(CdcError::BinlogParseError("invalid binlog magic number".to_owned()))
        }
    }

    /// Reads the event header; returns it with the header size.
    pub fn parse_header(data: &[u8]) -> (r: Result<(EventHeader, usize), CdcError>)
        ensures
            data@.len() >= 19 ==> event_code(r->Ok_0.0.event_type) == data@[4] && event_type_ok(
                r->Ok_0.0.event_type,
            ),
            data@.len() >= 19 ==> r == Ok::<(EventHeader, usize), CdcError>(
                (header_spec(data@), 19),
            ),
            data@.len() < 19 ==> r is Err && r->Err_0 is BinlogParseError,
    {
        if data.len() < EVENT_HEADER_SIZE {
            return Err(CdcError::BinlogParseError("event header too short".to_owned()));
        }
        proof {
            lemma_event_type_byte_kept(data@[4]);
        }
        let h = EventHeader {
            timestamp: read_u32_le(data, 0),
            event_type: EventType::from_u8(data[4]),
            server_id: read_u32_le(data, 5),
            event_length: read_u32_le(data, 9),
            next_pos: read_u32_le(data, 13),
            flags: read_u16_le(data, 17),
        };
        Ok((h, EVENT_HEADER_SIZE))
    }

    /// ROTATE body: `position:u64 LE` then the next file's name.
    pub fn parse_rotate_event(data: &[u8]) -> (r: Result<RotateEventData, CdcError>)
        ensures
            data@.len() >= 8 ==> r is Ok && r->Ok_0.position == u64_le(data@, 0)
                && r->Ok_0.next_binlog_name@ == lossy_text(data@.subrange(8, data@.len() as int)),
            data@.len() < 8 ==> r is Err && r->Err_0 is BinlogParseError,
    {
        if data.len() < 8 {
            return Err(CdcError::BinlogParseError("rotate event too short".to_owned()));
        }
        let position = read_u64_le(data, 0);
        let name = text_between(data, 8, data.len());
        Ok(RotateEventData { next_binlog_name: name, position })
    }

    /// QUERY body: thread, exec time, schema length, error code, status
    /// block, schema, a NUL, then the statement.
    pub fn parse_query_event(data: &[u8]) -> (r: Result<QueryEventData, CdcError>)
        ensures
            query_layout_ok(data@) ==> r is Ok && r->Ok_0.thread_id == u32_le(data@, 0)
                && r->Ok_0.exec_time == u32_le(data@, 4) && r->Ok_0.database@ == query_db(data@)
                && r->Ok_0.query@ == query_text(data@),
            !query_layout_ok(data@) ==> r is Err && r->Err_0 is BinlogParseError,
    {
        let n = data.len();
        if n < 13 {
            return Err(CdcError::BinlogParseError("query event too short".to_owned()));
        }
        let thread_id = read_u32_le(data, 0);
        let exec_time = read_u32_le(data, 4);
        let db_len = data[8] as usize;
        let status_len = read_u16_le(data, 11) as usize;
        if n - 13 < status_len + db_len + 1 {
            return Err(CdcError::BinlogParseError("query event truncated".to_owned()));
        }
        let db_start = 13 + status_len;
        let database = text_between(data, db_start, db_start + db_len);
        let query = text_between(data, db_start + db_len + 1, n);
        Ok(QueryEventData { thread_id, exec_time, database, query })
    }

    /// GTID body: flags, 16 UUID bytes, sequence number `u64 LE`, then the
    /// logical-clock fields; a body shorter than 42 bytes is refused.
    pub fn parse_gtid_event(data: &[u8]) -> (r: Result<GtidEventData, CdcError>)
        ensures
            data@.len() >= 42 ==> r is Ok && r->Ok_0.gtid@ == gtid_body_text(data@)
                && r->Ok_0.committed == (data@[0]
                == 0),
            data@.len() < 42 ==> r is Err && r->Err_0 is BinlogParseError,
    {
        if data.len() < 42 {
            return Err(CdcError::BinlogParseError("GTID event too short".to_owned()));
        }
        let mut uuid = [0u8; 16];
        let mut i: usize = 0;
        while i < 16
            invariant
                data@.len() >= 42,
                i <= 16,
                uuid@.len() == 16,
                forall|k: int| 0 <= k < i ==> uuid@[k] == data@[k + 1],
            decreases 16 - i,
        {
            uuid.set(i, data[i + 1]);
            i = i + 1;
        }
        assert(uuid@ =~= data@.subrange(1, 17));
        let u = format_uuid(&uuid);
        let seq_no = read_u64_le(data, 17);
        let mut out: Vec<char> = Vec::new();
        let uc = crate::text::chars_of(u.as_str());
        let mut k: usize = 0;
        while k < uc.len()
            invariant
                k <= uc@.len(),
                out@ == uc@.subrange(0, k as int),
            decreases uc@.len() - k,
        {
            out.push(uc[k]);
            k = k + 1;
            assert(out@ =~= uc@.subrange(0, k as int));
        }
        assert(out@ =~= u@);
        out.push(':');
        let digits = u64_digits(seq_no);
        let mut j: usize = 0;
        let ghost head = out@;
        while j < digits.len()
            invariant
                j <= digits@.len(),
                out@ == head + digits@.subrange(0, j as int),
            decreases digits@.len() - j,
        {
            out.push(digits[j]);
            j = j + 1;
            assert(out@ =~= head + digits@.subrange(0, j as int));
        }
        assert(digits@.subrange(0, digits@.len() as int) =~= digits@);
        Ok(GtidEventData { gtid: string_from_chars(&out), committed: data[0] == 0 })
    }
}

/// Writes the 19 header bytes of `h`.
pub fn encode_header(h: &EventHeader) -> (r: Vec<u8>)
    ensures
        r@ == header_bytes(*h),
        r@.len() == 19,
{
    let mut buf: Vec<u8> = Vec::new();
    push_u32_le(&mut buf, h.timestamp);
    buf.push(h.event_type.code());
    push_u32_le(&mut buf, h.server_id);
    push_u32_le(&mut buf, h.event_length);
    push_u32_le(&mut buf, h.next_pos);
    push_u16_le(&mut buf, h.flags);
    assert(buf@ =~= header_bytes(*h));
    buf
}

/// Reading back an encoded header recovers all six fields.
pub proof fn lemma_header_round_trip(h: EventHeader)
    requires
        event_type_ok(h.event_type),
    ensures
        header_bytes(h).len() == 19,
        header_spec(header_bytes(h)) == h,
{
    let b = header_bytes(h);
    lemma_u32_round_trip(h.timestamp);
    lemma_u32_round_trip(h.server_id);
    lemma_u32_round_trip(h.event_length);
    lemma_u32_round_trip(h.next_pos);
    lemma_u16_round_trip(h.flags);
    lemma_event_code_round_trip(h.event_type);
    assert(b.subrange(0, 4) =~= u32_bytes(h.timestamp));
    assert(u32_le(b, 0) == u32_le(u32_bytes(h.timestamp), 0));
    assert(u32_le(b, 5) == u32_le(u32_bytes(h.server_id), 0));
    assert(u32_le(b, 9) == u32_le(u32_bytes(h.event_length), 0));
    assert(u32_le(b, 13) == u32_le(u32_bytes(h.next_pos), 0));
    assert(u16_le(b, 17) == u16_le(u16_bytes(h.flags), 0));
}

/// The COM_BINLOG_DUMP request bytes.
pub open spec fn dump_command_bytes(server_id: u32, filename: Seq<u8>, position: u32) -> Seq<u8> {
    seq![COM_BINLOG_DUMP] + u32_bytes(position) + u16_bytes(0) + u32_bytes(server_id) + filename
}

/// COM_BINLOG_DUMP: command byte, position `u32 LE`, flags `0` (block),
/// server id `u32 LE`, then the file name's bytes. Positions past `u32`
/// cannot be requested and are refused.
pub fn create_binlog_dump_command(
    server_id: u32,
    binlog_filename: &str,
    binlog_position: u64,
) -> (r: Result<Vec<u8>, CdcError>)
    ensures
        binlog_position <= u32::MAX ==> r is Ok && r->Ok_0@ == dump_command_bytes(
            server_id,
            binlog_filename.spec_bytes(),
            binlog_position as u32,
        ),
        binlog_position > u32::MAX ==> r is Err && r->Err_0 is ProtocolError,
{
    if binlog_position > 0xFFFF_FFFF {
        return Err(CdcError::ProtocolError("binlog position does not fit the dump command".to_owned()));
    }
    let mut buf: Vec<u8> = Vec::new();
    buf.push(COM_BINLOG_DUMP);
    push_u32_le(&mut buf, binlog_position as u32);
    push_u16_le(&mut buf, 0);
    push_u32_le(&mut buf, server_id);
    push_all(&mut buf, binlog_filename.as_bytes());
    assert(buf@ =~= dump_command_bytes(
        server_id,
        binlog_filename.spec_bytes(),
        binlog_position as u32,
    ));
    Ok(buf)
}

/// Reads a COM_BINLOG_DUMP request back: server id, file name bytes and
/// position; `None` unless it is one.
pub fn decode_binlog_dump_command(cmd: &[u8]) -> (r: Option<(u32, Vec<u8>, u32)>)
    ensures
        (cmd@.len() >= 11 && cmd@[0] == COM_BINLOG_DUMP) ==> r is Some && r->Some_0.0 == u32_le(
            cmd@,
            7,
        ) && r->Some_0.1@ == cmd@.subrange(11, cmd@.len() as int) && r->Some_0.2 == u32_le(
            cmd@,
            1,
        ),
        !(cmd@.len() >= 11 && cmd@[0] == COM_BINLOG_DUMP) ==> r is None,
{
    if cmd.len() < 11 || cmd[0] != COM_BINLOG_DUMP {
        return None;
    }
    let position = read_u32_le(cmd, 1);
    let server_id = read_u32_le(cmd, 7);
    let mut name: Vec<u8> = Vec::new();
    let mut i: usize = 11;
    while i < cmd.len()
        invariant
            11 <= i <= cmd@.len(),
            name@ == cmd@.subrange(11, i as int),
        decreases cmd@.len() - i,
    {
        name.push(cmd[i]);
        i = i + 1;
        assert(name@ =~= cmd@.subrange(11, i as int));
    }
    Some((server_id, name, position))
}

/// Encoding a dump request and reading it back recovers server id, file
/// name and position.
pub proof fn lemma_dump_command_round_trip(server_id: u32, filename: Seq<u8>, position: u32)
    ensures
        ({
            let b = dump_command_bytes(server_id, filename, position);
            &&& b.len() >= 11
            &&& b[0] == COM_BINLOG_DUMP
            &&& u32_le(b, 7) == server_id
            &&& u32_le(b, 1) == position
            &&& b.subrange(11, b.len() as int) == filename
        }),
{
    let b = dump_command_bytes(server_id, filename, position);
    lemma_u32_round_trip(server_id);
    lemma_u32_round_trip(position);
    assert(u32_le(b, 1) == u32_le(u32_bytes(position), 0));
    assert(u32_le(b, 7) == u32_le(u32_bytes(server_id), 0));
    assert(b.subrange(11, b.len() as int) =~= filename);
}

} // verus!
