//! COM_BINLOG_DUMP_GTID: the dump request that starts the stream after the
//! GTIDs the replica already has, sent when the server runs with GTIDs.

use vstd::prelude::*;
use vstd::string::*;
use crate::binlog::COM_BINLOG_DUMP_GTID;
use crate::error::CdcError;
use crate::gtid::{entries_wf, GtidRange, GtidSet, UUIDGtidSet};
use crate::text::chars_of;
use crate::wire::{push_all, push_u16_le, push_u32_le, u16_bytes, u32_bytes};

verus! {

/// Flag asking the server to send only transactions outside the GTID set.
pub const BINLOG_THROUGH_GTID: u16 = 4;

/// The eight bytes of `x`, least significant first.
pub open spec fn u64_bytes(x: u64) -> Seq<u8> {
    u32_bytes(x as u32) + u32_bytes((x >> 32u64) as u32)
}

fn push_u64_le(buf: &mut Vec<u8>, x: u64)
    ensures
        final(buf)@ == old(buf)@ + u64_bytes(x),
{
    push_u32_le(buf, x as u32);
    push_u32_le(buf, (x >> 32u64) as u32);
    assert(final(buf)@ =~= old(buf)@ + u64_bytes(x));
}

/// Value of a hexadecimal digit.
pub open spec fn hex_value(c: char) -> Option<u8> {
    if '0' <= c && c <= '9' {
        Some(((c as u32) - 48) as u8)
    } else if 'a' <= c && c <= 'f' {
        Some(((c as u32) - 87) as u8)
    } else if 'A' <= c && c <= 'F' {
        Some(((c as u32) - 55) as u8)
    } else {
        None
    }
}

fn hex_value_of(c: char) -> (r: Option<u8>)
    ensures
        r == hex_value(c),
{
    if '0' <= c && c <= '9' {
        Some((c as u8) - 48)
    } else if 'a' <= c && c <= 'f' {
        Some((c as u8) - 87)
    } else if 'A' <= c && c <= 'F' {
        Some((c as u8) - 55)
    } else {
        None
    }
}

/// Index in 8-4-4-4-12 UUID text of hex digit `h`.
pub open spec fn digit_index(h: int) -> int {
    h + (if h >= 8 { 1int } else { 0 }) + (if h >= 12 { 1int } else { 0 }) + (if h >= 16 {
        1int
    } else {
        0
    }) + (if h >= 20 { 1int } else { 0 })
}

/// `u` is 8-4-4-4-12 hexadecimal text.
pub open spec fn uuid_layout(u: Seq<char>) -> bool {
    &&& u.len() == 36
    &&& u[8] == '-' && u[13] == '-' && u[18] == '-' && u[23] == '-'
    &&& forall|h: int| 0 <= h < 32 ==> (#[trigger] hex_value(u[digit_index(h)])) is Some
}

/// The 16 bytes of UUID text with that layout.
pub open spec fn uuid_bytes(u: Seq<char>) -> Seq<u8> {
    Seq::new(
        16,
        |k: int|
            (hex_value(u[digit_index(2 * k)])->Some_0 * 16 + hex_value(
                u[digit_index(2 * k + 1)],
            )->Some_0) as u8,
    )
}

/// Reads UUID text into its 16 bytes.
fn parse_uuid(u: &Vec<char>) -> (r: Option<Vec<u8>>)
    ensures
        uuid_layout(u@) ==> r is Some && r->Some_0@ == uuid_bytes(u@),
        !uuid_layout(u@) ==> r is None,
{
    if u.len() != 36 || u[8] != '-' || u[13] != '-' || u[18] != '-' || u[23] != '-' {
        return None;
    }
    let mut out: Vec<u8> = Vec::new();
    let mut k: usize = 0;
    while k < 16
        invariant
            k <= 16,
            u@.len() == 36,
            out@.len() == k,
            forall|h: int| 0 <= h < 2 * k ==> (#[trigger] hex_value(u@[digit_index(h)])) is Some,
            forall|j: int| 0 <= j < k ==> out@[j] == uuid_bytes(u@)[j],
        decreases 16 - k,
    {
        let h1 = 2 * k;
        let i1 = h1 + (if h1 >= 8 { 1 } else { 0 }) + (if h1 >= 12 { 1 } else { 0 }) + (if h1 >= 16 {
            1
        } else {
            0
        }) + (if h1 >= 20 { 1 } else { 0 });
        let h2 = 2 * k + 1;
        let i2 = h2 + (if h2 >= 8 { 1 } else { 0 }) + (if h2 >= 12 { 1 } else { 0 }) + (if h2 >= 16 {
            1
        } else {
            0
        }) + (if h2 >= 20 { 1 } else { 0 });
        assert(digit_index(2 * k as int) == i1);
        assert(digit_index(2 * k as int + 1) == i2);
        let a = match hex_value_of(u[i1]) {
            Some(a) => a,
            None => {
                assert(hex_value(u@[digit_index(2 * k as int)]) is None);
                return None;
            },
        };
        let b = match hex_value_of(u[i2]) {
            Some(b) => b,
            None => {
                assert(hex_value(u@[digit_index(2 * k as int + 1)]) is None);
                return None;
            },
        };
        out.push(a * 16 + b);
        proof {
            assert forall|h: int| 0 <= h < 2 * (k + 1) implies (#[trigger] hex_value(
                u@[digit_index(h)],
            )) is Some by {
                if h == 2 * k {
                    assert(digit_index(h) == i1);
                } else if h == 2 * k + 1 {
                    assert(digit_index(h) == i2);
                }
            }
            assert(digit_index(2 * k as int) == i1);
            assert(digit_index(2 * k as int + 1) == i2);
        }
        k = k + 1;
    }
    assert(out@ =~= uuid_bytes(u@));
    Some(out)
}

/// Each interval: start, and end plus one, both `u64 LE`.
pub open spec fn intervals_bytes(rs: Seq<GtidRange>) -> Seq<u8>
    decreases rs.len(),
{
    if rs.len() == 0 {
        Seq::empty()
    } else {
        intervals_bytes(rs.drop_last()) + u64_bytes(rs.last().start) + u64_bytes(
            (rs.last().end + 1) as u64,
        )
    }
}

/// One source: UUID bytes, interval count, intervals.
pub open spec fn sid_bytes(e: UUIDGtidSet) -> Seq<u8> {
    uuid_bytes(e.uuid@) + u64_bytes(e.ranges@.len() as u64) + intervals_bytes(e.ranges@)
}

pub open spec fn sids_bytes(ss: Seq<UUIDGtidSet>) -> Seq<u8>
    decreases ss.len(),
{
    if ss.len() == 0 {
        Seq::empty()
    } else {
        sids_bytes(ss.drop_last()) + sid_bytes(ss.last())
    }
}

/// The binary encoding of a GTID set: source count, then each source.
pub open spec fn gtid_set_bytes(ss: Seq<UUIDGtidSet>) -> Seq<u8> {
    u64_bytes(ss.len() as u64) + sids_bytes(ss)
}

/// The set can be sent: each UUID has the 8-4-4-4-12 layout and no range
/// ends at the largest `u64`.
pub open spec fn encodable(ss: Seq<UUIDGtidSet>) -> bool {
    forall|i: int|
        0 <= i < ss.len() ==> uuid_layout((#[trigger] ss[i]).uuid@) && forall|k: int|
            0 <= k < ss[i].ranges@.len() ==> (#[trigger] ss[i].ranges@[k]).end < u64::MAX
}

/// The COM_BINLOG_DUMP_GTID request bytes.
pub open spec fn dump_gtid_bytes(server_id: u32, filename: Seq<u8>, position: u64, data: Seq<u8>) -> Seq<u8> {
    seq![COM_BINLOG_DUMP_GTID] + u16_bytes(BINLOG_THROUGH_GTID) + u32_bytes(server_id) + u32_bytes(
        filename.len() as u32,
    ) + filename + u64_bytes(position) + u32_bytes(data.len() as u32) + data
}

/// COM_BINLOG_DUMP_GTID: command byte, flags, server id, file name with its
/// length, position, then the binary GTID set with its length. Refused
/// when the set cannot be encoded or a length does not fit `u32`.
pub fn create_binlog_dump_gtid_command(
    server_id: u32,
    binlog_filename: &str,
    binlog_position: u64,
    gtid_set: &GtidSet,
) -> (r: Result<Vec<u8>, CdcError>)
    requires
        gtid_set.wf(),
    ensures
        (encodable(gtid_set.sets@) && binlog_filename.spec_bytes().len() <= u32::MAX
            && gtid_set_bytes(gtid_set.sets@).len() <= u32::MAX) ==> r is Ok && r->Ok_0@
            == dump_gtid_bytes(
            server_id,
            binlog_filename.spec_bytes(),
            binlog_position,
            gtid_set_bytes(gtid_set.sets@),
        ),
        !(encodable(gtid_set.sets@) && binlog_filename.spec_bytes().len() <= u32::MAX
            && gtid_set_bytes(gtid_set.sets@).len() <= u32::MAX) ==> r is Err && r->Err_0 is ProtocolError,
{
    let data = match encode_gtid_set(gtid_set) {
        Some(d) => d,
        None => {
            return Err(CdcError::ProtocolError("GTID set cannot be encoded".to_owned()));
        },
    };
    let name = binlog_filename.as_bytes();
    if name.len() > 0xFFFF_FFFF || data.len() > 0xFFFF_FFFF {
        return Err(CdcError::ProtocolError("dump request field too long".to_owned()));
    }
    let mut buf: Vec<u8> = Vec::new();
    buf.push(COM_BINLOG_DUMP_GTID);
    push_u16_le(&mut buf, BINLOG_THROUGH_GTID);
    push_u32_le(&mut buf, server_id);
    push_u32_le(&mut buf, name.len() as u32);
    push_all(&mut buf, name);
    push_u64_le(&mut buf, binlog_position);
    push_u32_le(&mut buf, data.len() as u32);
    push_all(&mut buf, data.as_slice());
    assert(buf@ =~= dump_gtid_bytes(
        server_id,
        binlog_filename.spec_bytes(),
        binlog_position,
        gtid_set_bytes(gtid_set.sets@),
    ));
    Ok(buf)
}

/// The binary encoding of the set, when it is encodable.
fn encode_gtid_set(g: &GtidSet) -> (r: Option<Vec<u8>>)
    ensures
        encodable(g.sets@) ==> r is Some && r->Some_0@ == gtid_set_bytes(g.sets@),
        !encodable(g.sets@) ==> r is None,
{
    let mut buf: Vec<u8> = Vec::new();
    push_u64_le(&mut buf, g.sets.len() as u64);
    let ghost head = buf@;
    let mut i: usize = 0;
    assert(g.sets@.subrange(0, 0) =~= Seq::<UUIDGtidSet>::empty());
    while i < g.sets.len()
        invariant
            i <= g.sets@.len(),
            buf@ == head + sids_bytes(g.sets@.subrange(0, i as int)),
            encodable(g.sets@.subrange(0, i as int)),
        decreases g.sets@.len() - i,
    {
        let e = &g.sets[i];
        let uc = chars_of(e.uuid.as_str());
        let ub = match parse_uuid(&uc) {
            Some(b) => b,
            None => {
                assert(!uuid_layout(g.sets@[i as int].uuid@));
                return None;
            },
        };
        let ghost before = buf@;
        push_all(&mut buf, ub.as_slice());
        push_u64_le(&mut buf, e.ranges.len() as u64);
        let ghost mid = buf@;
        assert(mid == before + ub@ + u64_bytes(e.ranges@.len() as u64));
        let mut j: usize = 0;
        assert(e.ranges@.subrange(0, 0) =~= Seq::<GtidRange>::empty());
        while j < e.ranges.len()
            invariant
                j <= e.ranges@.len(),
                i < g.sets@.len(),
                *e == g.sets@[i as int],
                mid == before + ub@ + u64_bytes(e.ranges@.len() as u64),
                before == head + sids_bytes(g.sets@.subrange(0, i as int)),
                ub@ == uuid_bytes(e.uuid@),
                uuid_layout(e.uuid@),
                encodable(g.sets@.subrange(0, i as int)),
                buf@ == mid + intervals_bytes(e.ranges@.subrange(0, j as int)),
                forall|k: int| 0 <= k < j ==> (#[trigger] e.ranges@[k]).end < u64::MAX,
            decreases e.ranges@.len() - j,
        {
            let r = e.ranges[j];
            if r.end == u64::MAX {
                proof {
                    assert(!encodable(g.sets@)) by {
                        assert(g.sets@[i as int] == *e);
                        assert(e.ranges@[j as int].end == u64::MAX);
                    }
                }
                return None;
            }
            assert(e.ranges@.subrange(0, j + 1).drop_last() =~= e.ranges@.subrange(0, j as int));
            push_u64_le(&mut buf, r.start);
            push_u64_le(&mut buf, r.end + 1);
            j = j + 1;
        }
        assert(e.ranges@.subrange(0, e.ranges@.len() as int) =~= e.ranges@);
        assert(g.sets@.subrange(0, i + 1).drop_last() =~= g.sets@.subrange(0, i as int));
        assert(g.sets@.subrange(0, i + 1).last() == *e);
        assert(buf@ =~= head + sids_bytes(g.sets@.subrange(0, i + 1)));
        assert(encodable(g.sets@.subrange(0, i + 1))) by {
            let s2 = g.sets@.subrange(0, i + 1);
            assert forall|q: int| 0 <= q < s2.len() implies uuid_layout((#[trigger] s2[q]).uuid@)
                && forall|k: int| 0 <= k < s2[q].ranges@.len() ==> (#[trigger] s2[q].ranges@[k]).end
                < u64::MAX by {
                if q < i {
                    assert(s2[q] == g.sets@.subrange(0, i as int)[q]);
                }
            }
        }
        i = i + 1;
    }
    assert(g.sets@.subrange(0, g.sets@.len() as int) =~= g.sets@);
    Some(buf)
}

} // verus!
