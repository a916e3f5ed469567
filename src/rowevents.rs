//! TABLE_MAP and row events (WRITE / UPDATE / DELETE ROWS): their layout and
//! the decoding of row images with the table map's column types.

use vstd::prelude::*;
use crate::binlog::{lossy_text, BinlogParser};
use crate::error::CdcError;
use crate::events::{CellValue, DeleteRowsData, TableMapData, UpdateRowsData, WriteRowsData};
use crate::rowcodec::{cell_is, cell_len, copy_bytes, decode_cell, meta_fits, meta_size, meta_size_of};
use crate::wire::{lcb_spec, read_lcb, read_u16_le, read_u48_le, u16_le, u48_le};

verus! {

/// Bit `i` of a bitmap, least significant bit of each byte first.
pub open spec fn bit(bm: Seq<u8>, i: int) -> bool {
    0 <= i / 8 < bm.len() && ((bm[i / 8] >> ((i % 8) as u8)) & 1u8) == 1u8
}

/// How many of the first `n` bits are set.
pub open spec fn count_bits(bm: Seq<u8>, n: int) -> nat
    decreases n,
{
    if n <= 0 {
        0
    } else {
        count_bits(bm, n - 1) + if bit(bm, n - 1) {
            1nat
        } else {
            0nat
        }
    }
}

/// Offset of column `i`'s metadata in the table map's metadata block.
pub open spec fn meta_offset(types: Seq<u8>, i: int) -> nat
    decreases i,
{
    if i <= 0 {
        0
    } else {
        meta_offset(types, i - 1) + meta_size(types[i - 1])
    }
}

/// Positions inside a TABLE_MAP body: `(column count, where the types
/// start, where the metadata starts, metadata length, where the nullable
/// bitmap starts)`, or `None` when the body is malformed.
pub open spec fn table_map_layout(b: Seq<u8>) -> Option<(nat, int, int, nat, int)> {
    if b.len() < 11 || 11 + b[8] > b.len() {
        None
    } else {
        let dl = b[8] as int;
        let tl = b[10 + dl] as int;
        let c0 = 12 + dl + tl;
        if c0 > b.len() {
            None
        } else {
            match lcb_spec(b, c0) {
                None => None,
                Some((cols, pa)) => if pa + cols > b.len() {
                    None
                } else {
                    match lcb_spec(b, pa + cols) {
                        None => None,
                        Some((ml, pb)) => if pb + ml + (cols + 7) / 8 > b.len() || meta_offset(
                            b.subrange(pa, pa + cols),
                            cols as int,
                        ) != ml {
                            None
                        } else {
                            Some((cols as nat, pa, pb, ml as nat, pb + ml))
                        },
                    }
                },
            }
        }
    }
}

/// `tm` is what the TABLE_MAP body `b` holds: table id, schema and table
/// names, column types, each column's metadata bytes, nullable bitmap.
pub open spec fn table_map_is(tm: TableMapData, b: Seq<u8>) -> bool {
    match table_map_layout(b) {
        None => false,
        Some((cols, pt, pm, ml, pn)) => {
            let dl = b[8] as int;
            let tl = b[10 + dl] as int;
            &&& table_map_wf(tm)
            &&& tm.table_id == u48_le(b, 0)
            &&& tm.database@ == lossy_text(b.subrange(9, 9 + dl))
            &&& tm.table@ == lossy_text(b.subrange(11 + dl, 11 + dl + tl))
            &&& tm.column_types@ == b.subrange(pt, pt + cols)
            &&& tm.nullable_bitmap@ == b.subrange(pn, pn + (cols + 7) / 8)
            &&& forall|i: int|
                0 <= i < cols ==> (#[trigger] tm.column_meta@[i])@ == b.subrange(
                    pm + meta_offset(b.subrange(pt, pt + cols), i),
                    pm + meta_offset(b.subrange(pt, pt + cols), i) + meta_size(b[pt + i]),
                )
        },
    }
}

/// Well-formed table map: metadata of the size each column type carries.
pub open spec fn table_map_wf(tm: TableMapData) -> bool {
    &&& tm.column_meta@.len() == tm.column_types@.len()
    &&& forall|i: int|
        0 <= i < tm.column_types@.len() ==> meta_fits(
            #[trigger] tm.column_types@[i],
            tm.column_meta@[i]@,
        )
}

/// Where the cells of a row image end, after columns `0..i`, the null
/// bitmap being at `nb` and the first cell at `start`.
pub open spec fn cells_end(
    b: Seq<u8>,
    tm: TableMapData,
    present: Seq<u8>,
    nb: int,
    start: int,
    i: int,
) -> Option<int>
    decreases i,
{
    if i <= 0 {
        Some(start)
    } else {
        match cells_end(b, tm, present, nb, start, i - 1) {
            None => None,
            Some(p) => {
                let c = i - 1;
                if !bit(present, c) || bit(b.subrange(nb, start), count_bits(present, c) as int) {
                    Some(p)
                } else {
                    match cell_len(b, p, tm.column_types@[c], tm.column_meta@[c]@) {
                        Some(n) => Some(p + n),
                        None => None,
                    }
                }
            },
        }
    }
}

/// Where a row image at `p` ends: its null bitmap covers the present
/// columns, then the present non-null cells follow.
pub open spec fn row_end(b: Seq<u8>, tm: TableMapData, present: Seq<u8>, p: int) -> Option<int> {
    let cols = tm.column_types@.len() as int;
    let nbl = (count_bits(present, cols) + 7) / 8;
    if p + nbl > b.len() {
        None
    } else {
        cells_end(b, tm, present, p, p + nbl, cols)
    }
}

/// `row` is the image at `p`: absent and null columns are `Null`, the
/// others the value found where the previous cells end.
pub open spec fn row_is(row: Seq<CellValue>, b: Seq<u8>, tm: TableMapData, present: Seq<u8>, p: int) -> bool {
    let cols = tm.column_types@.len() as int;
    let nbl = (count_bits(present, cols) + 7) / 8;
    &&& row.len() == cols
    &&& forall|c: int|
        0 <= c < cols ==> if !bit(present, c) || bit(
            b.subrange(p, p + nbl),
            count_bits(present, c) as int,
        ) {
            (#[trigger] row[c]) is Null
        } else {
            cell_is(
                row[c],
                b,
                cells_end(b, tm, present, p, p + nbl, c)->Some_0,
                tm.column_types@[c],
                tm.column_meta@[c]@,
            )
        }
}

fn get_bit(bm: &[u8], i: usize) -> (r: bool)
    ensures
        r == bit(bm@, i as int),
{
    let k = i / 8;
    if k >= bm.len() {
        return false;
    }
    ((bm[k] >> ((i % 8) as u8)) & 1u8) == 1u8
}

/// Decodes one row image at `p`; returns it and where it ends.
fn decode_row(b: &[u8], p: usize, tm: &TableMapData, present: &[u8]) -> (r: Result<
    (Vec<CellValue>, usize),
    CdcError,
>)
    requires
        p <= b@.len(),
        table_map_wf(*tm),
    ensures
        match row_end(b@, *tm, present@, p as int) {
            Some(e) => r is Ok && r->Ok_0.1 == e && row_is(r->Ok_0.0@, b@, *tm, present@, p as int),
            None => r is Err && r->Err_0 is BinlogParseError,
        },
        r is Ok ==> p <= r->Ok_0.1 <= b@.len(),
{
    let cols = tm.column_types.len();
    let mut cnt: usize = 0;
    let mut i: usize = 0;
    while i < cols
        invariant
            i <= cols,
            cols == tm.column_types@.len(),
            cnt == count_bits(present@, i as int),
            cnt <= i,
        decreases cols - i,
    {
        if get_bit(present, i) {
            cnt = cnt + 1;
        }
        i = i + 1;
    }
    let nbl = cnt / 8 + if cnt % 8 == 0 {
        0
    } else {
        1
    };
    assert(nbl == (cnt + 7) / 8);
    if b.len() - p < nbl {
        return Err(CdcError::BinlogParseError("row image truncated".to_owned()));
    }
    let start = p + nbl;
    let nulls = copy_bytes(b, p, start);
    let blen = b.len();
    let mut pos = start;
    let mut row: Vec<CellValue> = Vec::new();
    let mut seen: usize = 0;
    let mut c: usize = 0;
    while c < cols
        invariant
            c <= cols,
            cols == tm.column_types@.len(),
            table_map_wf(*tm),
            p <= start <= pos <= b@.len(),
            blen == b@.len(),
            start == p + nbl,
            nbl == (count_bits(present@, cols as int) + 7) / 8,
            nulls@ == b@.subrange(p as int, start as int),
            seen == count_bits(present@, c as int),
            seen <= c,
            cells_end(b@, *tm, present@, p as int, start as int, c as int) == Some(pos as int),
            row@.len() == c,
            forall|k: int|
                0 <= k < c ==> if !bit(present@, k) || bit(
                    b@.subrange(p as int, p + nbl),
                    count_bits(present@, k) as int,
                ) {
                    (#[trigger] row@[k]) is Null
                } else {
                    cell_is(
                        row@[k],
                        b@,
                        cells_end(b@, *tm, present@, p as int, p + nbl, k)->Some_0,
                        tm.column_types@[k],
                        tm.column_meta@[k]@,
                    )
                },
        decreases cols - c,
    {
        let is_present = get_bit(present, c);
        if !is_present || get_bit(nulls.as_slice(), seen) {
            row.push(CellValue::Null);
        } else {
            let t = tm.column_types[c];
            let m = &tm.column_meta[c];
            assert(meta_fits(tm.column_types@[c as int], tm.column_meta@[c as int]@));
            match decode_cell(b, pos, t, m.as_slice()) {
                Ok((v, n)) => {
                    row.push(v);
                    pos = pos + n;
                },
                Err(e) => {
                    proof {
                        lemma_cells_end_fails(b@, *tm, present@, p as int, start as int, c + 1);
                    }
                    return Err(e);
                },
            }
        }
        if is_present {
            seen = seen + 1;
        }
        c = c + 1;
    }
    Ok((row, pos))
}

proof fn lemma_cells_end_fails(
    b: Seq<u8>,
    tm: TableMapData,
    present: Seq<u8>,
    nb: int,
    start: int,
    i: int,
)
    requires
        0 <= i <= tm.column_types@.len(),
        cells_end(b, tm, present, nb, start, i) is None,
    ensures
        cells_end(b, tm, present, nb, start, tm.column_types@.len() as int) is None,
    decreases tm.column_types@.len() - i,
{
    if i < tm.column_types@.len() {
        lemma_cells_end_fails(b, tm, present, nb, start, i + 1);
    }
}

/// Where the body of a row event has its bitmaps: `(column count, where
/// the present bitmap starts, bitmap length)`, or `None` when the header is
/// malformed or the column count is not the table map's.
pub open spec fn rows_header(b: Seq<u8>, tm: TableMapData) -> Option<(u64, int, nat)> {
    if b.len() < 8 {
        None
    } else {
        match lcb_spec(b, 8) {
            None => None,
            Some((cols, pa)) => {
                let bl = ((cols as nat) + 7) / 8;
                if pa + bl > b.len() || cols != tm.column_types@.len() {
                    None
                } else {
                    Some((cols, pa, bl))
                }
            },
        }
    }
}

/// The body of a WRITE/DELETE event decodes with table map `tm`.
pub open spec fn rows_decode(b: Seq<u8>, tm: TableMapData) -> bool {
    match rows_header(b, tm) {
        None => false,
        Some((cols, pp, bl)) => records_fill(b, tm, b.subrange(pp, pp + bl), None, pp + bl),
    }
}

/// `rows` are the row images of that body, in order.
pub open spec fn rows_decoded(rows: Seq<Vec<CellValue>>, b: Seq<u8>, tm: TableMapData) -> bool {
    match rows_header(b, tm) {
        None => false,
        Some((cols, pp, bl)) => {
            let present = b.subrange(pp, pp + bl);
            &&& records_at(b, tm, present, None, pp + bl, rows.len() as nat) == Some(b.len() as int)
            &&& forall|i: int|
                0 <= i < rows.len() ==> row_is(
                    (#[trigger] rows[i])@,
                    b,
                    tm,
                    present,
                    records_at(b, tm, present, None, pp + bl, i as nat)->Some_0,
                )
        },
    }
}

/// The body of an UPDATE event decodes with table map `tm`.
pub open spec fn pairs_decode(b: Seq<u8>, tm: TableMapData) -> bool {
    match rows_header(b, tm) {
        None => false,
        Some((cols, pp, bl)) => pp + 2 * bl <= b.len() && records_fill(
            b,
            tm,
            b.subrange(pp, pp + bl),
            Some(b.subrange(pp + bl, pp + 2 * bl)),
            pp + 2 * bl,
        ),
    }
}

/// `pairs` are the (before, complete after) images of that body, in order.
pub open spec fn pairs_decoded(
    pairs: Seq<(Vec<CellValue>, Vec<CellValue>)>,
    b: Seq<u8>,
    tm: TableMapData,
) -> bool {
    match rows_header(b, tm) {
        None => false,
        Some((cols, pp, bl)) => {
            let present = b.subrange(pp, pp + bl);
            let changed = b.subrange(pp + bl, pp + 2 * bl);
            &&& records_at(b, tm, present, Some(changed), pp + 2 * bl, pairs.len() as nat) == Some(
                b.len() as int,
            )
            &&& forall|i: int|
                0 <= i < pairs.len() ==> {
                    let q = records_at(b, tm, present, Some(changed), pp + 2 * bl, i as nat)->Some_0;
                    &&& row_is((#[trigger] pairs[i]).0@, b, tm, present, q)
                    &&& exists|given: Seq<CellValue>|
                        row_is(given, b, tm, changed, row_end(b, tm, present, q)->Some_0)
                            && pairs[i].1@.len() == given.len() && forall|c: int|
                            0 <= c < given.len() ==> filled_is(
                                #[trigger] pairs[i].1@[c],
                                pairs[i].0@[c],
                                given[c],
                                bit(changed, c),
                            )
                }
        },
    }
}

/// Where one record ends: a row image, or for updates a before image
/// followed by an after image.
pub open spec fn record_end(
    b: Seq<u8>,
    tm: TableMapData,
    present: Seq<u8>,
    changed: Option<Seq<u8>>,
    p: int,
) -> Option<int> {
    match row_end(b, tm, present, p) {
        None => None,
        Some(q) => match changed {
            None => Some(q),
            Some(ch) => row_end(b, tm, ch, q),
        },
    }
}

/// Where the first `k` records starting at `p` end.
pub open spec fn records_at(
    b: Seq<u8>,
    tm: TableMapData,
    present: Seq<u8>,
    changed: Option<Seq<u8>>,
    p: int,
    k: nat,
) -> Option<int>
    decreases k,
{
    if k == 0 {
        Some(p)
    } else {
        match records_at(b, tm, present, changed, p, (k - 1) as nat) {
            None => None,
            Some(q) => record_end(b, tm, present, changed, q),
        }
    }
}

/// Some number of whole records fills the bytes from `p` to the end.
pub open spec fn records_fill(
    b: Seq<u8>,
    tm: TableMapData,
    present: Seq<u8>,
    changed: Option<Seq<u8>>,
    p: int,
) -> bool {
    exists|k: nat| records_at(b, tm, present, changed, p, k) == Some(b.len() as int)
}

proof fn lemma_records_none(
    b: Seq<u8>,
    tm: TableMapData,
    present: Seq<u8>,
    changed: Option<Seq<u8>>,
    p: int,
    i: nat,
    k: nat,
)
    requires
        records_at(b, tm, present, changed, p, i) is None,
        i <= k,
    ensures
        records_at(b, tm, present, changed, p, k) is None,
    decreases k - i,
{
    if i < k {
        lemma_records_none(b, tm, present, changed, p, i, (k - 1) as nat);
    }
}

proof fn lemma_records_stuck(
    b: Seq<u8>,
    tm: TableMapData,
    present: Seq<u8>,
    changed: Option<Seq<u8>>,
    p: int,
    q: int,
    i: nat,
    k: nat,
)
    requires
        records_at(b, tm, present, changed, p, i) == Some(q),
        record_end(b, tm, present, changed, q) == Some(q),
        i <= k,
    ensures
        records_at(b, tm, present, changed, p, k) == Some(q),
    decreases k - i,
{
    if i < k {
        lemma_records_stuck(b, tm, present, changed, p, q, i, (k - 1) as nat);
    }
}

/// Decodes records from `start` to the end of `b`: for each, the image read
/// with `present` and, when `changed` is given, the one read with it.
fn decode_records(
    b: &[u8],
    start: usize,
    tm: &TableMapData,
    present: &[u8],
    changed: Option<&[u8]>,
) -> (r: Result<Vec<(Vec<CellValue>, Vec<CellValue>)>, CdcError>)
    requires
        start <= b@.len(),
        table_map_wf(*tm),
    ensures
        ({
            let ch = match changed {
                Some(c) => Some(c@),
                None => None,
            };
            &&& r is Ok <==> records_fill(b@, *tm, present@, ch, start as int)
            &&& r is Err ==> r->Err_0 is BinlogParseError
            &&& r is Ok ==> {
                let rs = r->Ok_0@;
                &&& records_at(b@, *tm, present@, ch, start as int, rs.len()) == Some(
                    b@.len() as int,
                )
                &&& forall|i: int|
                    0 <= i < rs.len() ==> {
                        let q = records_at(b@, *tm, present@, ch, start as int, i as nat)->Some_0;
                        &&& row_is((#[trigger] rs[i]).0@, b@, *tm, present@, q)
                        &&& match ch {
                            None => rs[i].1@.len() == 0,
                            Some(c) => row_is(
                                rs[i].1@,
                                b@,
                                *tm,
                                c,
                                row_end(b@, *tm, present@, q)->Some_0,
                            ),
                        }
                    }
            }
        }),
{
    let ghost ch = match changed {
        Some(c) => Some(c@),
        None => None,
    };
    let blen = b.len();
    let mut out: Vec<(Vec<CellValue>, Vec<CellValue>)> = Vec::new();
    let mut pos = start;
    while pos < blen
        invariant
            blen == b@.len(),
            start <= pos <= blen,
            table_map_wf(*tm),
            ch == match changed {
                Some(c) => Some(c@),
                None => None::<Seq<u8>>,
            },
            records_at(b@, *tm, present@, ch, start as int, out@.len() as nat) == Some(pos as int),
            forall|j: nat|
                j <= out@.len() ==> (#[trigger] records_at(b@, *tm, present@, ch, start as int, j)
                    is Some && records_at(b@, *tm, present@, ch, start as int, j)->Some_0 <= pos),
            forall|i: int|
                0 <= i < out@.len() ==> {
                    let q = records_at(b@, *tm, present@, ch, start as int, i as nat)->Some_0;
                    &&& row_is((#[trigger] out@[i]).0@, b@, *tm, present@, q)
                    &&& match ch {
                        None => out@[i].1@.len() == 0,
                        Some(c) => row_is(
                            out@[i].1@,
                            b@,
                            *tm,
                            c,
                            row_end(b@, *tm, present@, q)->Some_0,
                        ),
                    }
                },
        decreases blen - pos,
    {
        let ghost k = out@.len() as nat;
        assert(records_at(b@, *tm, present@, ch, start as int, k + 1) == record_end(
            b@,
            *tm,
            present@,
            ch,
            pos as int,
        ));
        let (img, q) = match decode_row(b, pos, tm, present) {
            Ok(x) => x,
            Err(e) => {
                proof {
                    lemma_records_none(b@, *tm, present@, ch, start as int, k + 1, k + 1);
                    assert forall|n: nat|
                        #[trigger] records_at(b@, *tm, present@, ch, start as int, n) != Some(
                            b@.len() as int,
                        ) by {
                        if n <= k {
                        } else {
                            lemma_records_none(b@, *tm, present@, ch, start as int, k + 1, n);
                        }
                    }
                }
                return Err(e);
            },
        };
        let (second, end) = match changed {
            None => (Vec::new(), q),
            Some(c) => match decode_row(b, q, tm, c) {
                Ok(x) => x,
                Err(e) => {
                    proof {
                        assert forall|n: nat|
                            #[trigger] records_at(b@, *tm, present@, ch, start as int, n) != Some(
                                b@.len() as int,
                            ) by {
                            if n > k {
                                lemma_records_none(b@, *tm, present@, ch, start as int, k + 1, n);
                            }
                        }
                    }
                    return Err(e);
                },
            },
        };
        if end <= pos {
            proof {
                assert(end == pos);
                assert forall|n: nat|
                    #[trigger] records_at(b@, *tm, present@, ch, start as int, n) != Some(
                        b@.len() as int,
                    ) by {
                    if n > k {
                        lemma_records_stuck(b@, *tm, present@, ch, start as int, pos as int, k, n);
                    }
                }
            }
            return Err(CdcError::BinlogParseError("row image without content".to_owned()));
        }
        out.push((img, second));
        pos = end;
        proof {
            assert forall|j: nat| j <= out@.len() implies (#[trigger] records_at(
                b@,
                *tm,
                present@,
                ch,
                start as int,
                j,
            ) is Some && records_at(b@, *tm, present@, ch, start as int, j)->Some_0 <= pos) by {
                if j < out@.len() {
                }
            }
        }
    }
    Ok(out)
}

/// Column `c` of the complete after image: the after image's value where
/// the column is flagged changed, else the before image's.
pub open spec fn filled_is(after: CellValue, before: CellValue, given: CellValue, changed: bool) -> bool {
    if changed {
        after == given
    } else {
        same_cell(after, before)
    }
}

/// Two cells hold the same value.
pub open spec fn same_cell(a: CellValue, b: CellValue) -> bool {
    ||| a == b
    ||| (a is String && b is String && a->String_0@ == b->String_0@)
    ||| (a is Bytes && b is Bytes && a->Bytes_0@ == b->Bytes_0@)
    ||| (a is Json && b is Json && a->Json_0@ == b->Json_0@)
    ||| (a is Date && b is Date && a->Date_0@ == b->Date_0@)
    ||| (a is Time && b is Time && a->Time_0@ == b->Time_0@)
    ||| (a is Decimal && b is Decimal && a->Decimal_0@ == b->Decimal_0@)
}

/// A copy of a string.
pub fn copy_string(s: &String) -> (r: String)
    ensures
        r@ == s@,
{
    let cs = crate::text::chars_of(s.as_str());
    crate::text::string_from_chars(&cs)
}

/// A copy of a cell.
pub fn copy_cell(c: &CellValue) -> (r: CellValue)
    ensures
        same_cell(r, *c),
{
    match c {
        CellValue::String(x) => CellValue::String(copy_string(x)),
        CellValue::Bytes(x) => {
            let y = copy_bytes(x.as_slice(), 0, x.len());
            assert(y@ =~= x@);
            CellValue::Bytes(y)
        },
        CellValue::Json(x) => {
            let y = copy_bytes(x.as_slice(), 0, x.len());
            assert(y@ =~= x@);
            CellValue::Json(y)
        },
        CellValue::Date(x) => CellValue::Date(copy_string(x)),
        CellValue::Time(x) => CellValue::Time(copy_string(x)),
        CellValue::Decimal(x) => CellValue::Decimal(copy_string(x)),
        CellValue::Null => CellValue::Null,
        CellValue::Int8(x) => CellValue::Int8(*x),
        CellValue::Int16(x) => CellValue::Int16(*x),
        CellValue::Int32(x) => CellValue::Int32(*x),
        CellValue::Int64(x) => CellValue::Int64(*x),
        CellValue::UInt8(x) => CellValue::UInt8(*x),
        CellValue::UInt16(x) => CellValue::UInt16(*x),
        CellValue::UInt32(x) => CellValue::UInt32(*x),
        CellValue::UInt64(x) => CellValue::UInt64(*x),
        CellValue::Float(x) => CellValue::Float(*x),
        CellValue::Double(x) => CellValue::Double(*x),
        CellValue::DateTime(x) => CellValue::DateTime(*x),
    }
}

/// The complete after image: changed columns from `after`, the others from
/// `before`.
fn fill_after(before: &Vec<CellValue>, after: Vec<CellValue>, changed: &[u8]) -> (r: Vec<CellValue>)
    requires
        before@.len() == after@.len(),
    ensures
        r@.len() == before@.len(),
        forall|c: int|
            0 <= c < r@.len() ==> filled_is(#[trigger] r@[c], before@[c], after@[c], bit(changed@, c)),
{
    let mut out: Vec<CellValue> = Vec::new();
    let mut i: usize = 0;
    let n = before.len();
    let mut rest = after;
    let ghost orig = rest@;
    while i < n
        invariant
            n == before@.len(),
            orig.len() == n,
            i <= n,
            out@.len() == i,
            rest@ == orig.subrange(i as int, n as int),
            forall|c: int|
                0 <= c < i ==> filled_is(#[trigger] out@[c], before@[c], orig[c], bit(changed@, c)),
        decreases n - i,
    {
        let v = rest.remove(0);
        assert(rest@ =~= orig.subrange(i + 1, n as int));
        if get_bit(changed, i) {
            out.push(v);
        } else {
            out.push(copy_cell(&before[i]));
        }
        i = i + 1;
    }
    out
}

/// Cuts the metadata block at `b[pb..pb + ml]` into each column's bytes;
/// an error unless the columns' sizes add up to `ml`.
fn split_meta(b: &[u8], pb: usize, ml: usize, types: &Vec<u8>) -> (r: Result<Vec<Vec<u8>>, CdcError>)
    requires
        pb + ml <= b@.len(),
    ensures
        r is Ok <==> meta_offset(types@, types@.len() as int) == ml,
        r is Err ==> r->Err_0 is BinlogParseError,
        r is Ok ==> r->Ok_0@.len() == types@.len() && forall|k: int|
            0 <= k < types@.len() ==> (#[trigger] r->Ok_0@[k])@ == b@.subrange(
                pb + meta_offset(types@, k),
                pb + meta_offset(types@, k) + meta_size(types@[k]),
            ) && meta_fits(types@[k], r->Ok_0@[k]@),
{
    let cols = types.len();
    let blen = b.len();
    let mut metas: Vec<Vec<u8>> = Vec::new();
    let mut off: usize = 0;
    let mut i: usize = 0;
    while i < cols
        invariant
            i <= cols,
            cols == types@.len(),
            pb + ml <= b@.len(),
            blen == b@.len(),
            off == meta_offset(types@, i as int),
            off <= ml,
            metas@.len() == i,
            forall|k: int|
                0 <= k < i ==> (#[trigger] metas@[k])@ == b@.subrange(
                    pb + meta_offset(types@, k),
                    pb + meta_offset(types@, k) + meta_size(types@[k]),
                ) && meta_fits(types@[k], metas@[k]@),
        decreases cols - i,
    {
        let sz = meta_size_of(types[i]);
        if sz > ml - off {
            proof {
                lemma_meta_offset_grows(types@, i as int + 1, cols as int);
            }
            return Err(CdcError::BinlogParseError("table map metadata does not fit".to_owned()));
        }
        metas.push(copy_bytes(b, pb + off, pb + off + sz));
        off = off + sz;
        i = i + 1;
    }
    if off != ml {
        return Err(CdcError::BinlogParseError("table map metadata does not fit".to_owned()));
    }
    Ok(metas)
}

impl BinlogParser {
    /// TABLE_MAP body: table id, flags, schema and table names (each
    /// length-prefixed and NUL-ended), column count, column types,
    /// metadata block, nullable bitmap.
    #[verifier::rlimit(60)]
    pub fn parse_table_map_event(data: &[u8]) -> (r: Result<TableMapData, CdcError>)
        ensures
            table_map_layout(data@) is None ==> r is Err && r->Err_0 is BinlogParseError,
            table_map_layout(data@) is Some ==> r is Ok && table_map_is(r->Ok_0, data@),
    {
        let b = data;
        let n = b.len();
        if n < 11 || 11 + (b[8] as usize) > n {
            return Err(CdcError::BinlogParseError("table map event truncated".to_owned()));
        }
        let table_id = read_u48_le(b, 0);
        let dl = b[8] as usize;
        let tl = b[10 + dl] as usize;
        let c0 = 12 + dl + tl;
        if c0 > n {
            return Err(CdcError::BinlogParseError("table map event truncated".to_owned()));
        }
        let database = crate::binlog::utf8_lossy(copy_bytes(b, 9, 9 + dl).as_slice());
        let table = crate::binlog::utf8_lossy(copy_bytes(b, 11 + dl, 11 + dl + tl).as_slice());
        let (cols64, pa) = read_lcb(b, c0)?;
        if cols64 > (n - pa) as u64 {
            return Err(CdcError::BinlogParseError("table map event truncated".to_owned()));
        }
        let cols = cols64 as usize;
        let types = copy_bytes(b, pa, pa + cols);
        let (ml64, pb) = read_lcb(b, pa + cols)?;
        if ml64 > (n - pb) as u64 {
            return Err(CdcError::BinlogParseError("table map event truncated".to_owned()));
        }
        let ml = ml64 as usize;
        let nbl = cols / 8 + if cols % 8 == 0 {
            0
        } else {
            1
        };
        assert(nbl == (cols + 7) / 8);
        if nbl > n - pb - ml {
            return Err(CdcError::BinlogParseError("table map event truncated".to_owned()));
        }
        let metas = split_meta(b, pb, ml, &types)?;
        let nulls = copy_bytes(b, pb + ml, pb + ml + nbl);
        let tm = TableMapData {
            table_id,
            database,
            table,
            column_types: types,
            column_meta: metas,
            nullable_bitmap: nulls,
        };
        Ok(tm)
    }

    /// WRITE_ROWS body decoded with the table map of its table.
    pub fn parse_write_rows_event(data: &[u8], table: &TableMapData) -> (r: Result<
        WriteRowsData,
        CdcError,
    >)
        requires
            table_map_wf(*table),
        ensures
            r is Ok <==> rows_decode(data@, *table),
            r is Ok ==> rows_decoded(r->Ok_0.rows@, data@, *table),
            match rows_header(data@, *table) {
                None => r is Err && r->Err_0 is BinlogParseError,
                Some((cols, pp, bl)) => {
                    let present = data@.subrange(pp, pp + bl);
                    &&& r is Ok <==> records_fill(data@, *table, present, None, pp + bl)
                    &&& r is Err ==> r->Err_0 is BinlogParseError
                    &&& r is Ok ==> {
                        let w = r->Ok_0;
                        &&& w.table_id == u48_le(data@, 0)
                        &&& w.flags == u16_le(data@, 6)
                        &&& w.column_count == cols
                        &&& w.columns_present@ == present
                        &&& records_at(data@, *table, present, None, pp + bl, w.rows@.len() as nat)
                            == Some(data@.len() as int)
                        &&& forall|i: int|
                            0 <= i < w.rows@.len() ==> row_is(
                                (#[trigger] w.rows@[i])@,
                                data@,
                                *table,
                                present,
                                records_at(data@, *table, present, None, pp + bl, i as nat)->Some_0,
                            )
                    }
                },
            },
    {
        let (table_id, flags, cols, present, p) = Self::rows_prefix(data, table)?;
        let recs = decode_records(data, p, table, present.as_slice(), None)?;
        let rows = first_images(recs);
        Ok(WriteRowsData { table_id, flags, column_count: cols, columns_present: present, rows })
    }

    /// DELETE_ROWS body decoded with the table map of its table.
    pub fn parse_delete_rows_event(data: &[u8], table: &TableMapData) -> (r: Result<
        DeleteRowsData,
        CdcError,
    >)
        requires
            table_map_wf(*table),
        ensures
            r is Ok <==> rows_decode(data@, *table),
            r is Ok ==> rows_decoded(r->Ok_0.rows@, data@, *table),
            match rows_header(data@, *table) {
                None => r is Err && r->Err_0 is BinlogParseError,
                Some((cols, pp, bl)) => {
                    let present = data@.subrange(pp, pp + bl);
                    &&& r is Ok <==> records_fill(data@, *table, present, None, pp + bl)
                    &&& r is Err ==> r->Err_0 is BinlogParseError
                    &&& r is Ok ==> {
                        let w = r->Ok_0;
                        &&& w.table_id == u48_le(data@, 0)
                        &&& w.flags == u16_le(data@, 6)
                        &&& w.column_count == cols
                        &&& w.columns_present@ == present
                        &&& records_at(data@, *table, present, None, pp + bl, w.rows@.len() as nat)
                            == Some(data@.len() as int)
                        &&& forall|i: int|
                            0 <= i < w.rows@.len() ==> row_is(
                                (#[trigger] w.rows@[i])@,
                                data@,
                                *table,
                                present,
                                records_at(data@, *table, present, None, pp + bl, i as nat)->Some_0,
                            )
                    }
                },
            },
    {
        let (table_id, flags, cols, present, p) = Self::rows_prefix(data, table)?;
        let recs = decode_records(data, p, table, present.as_slice(), None)?;
        let rows = first_images(recs);
        Ok(DeleteRowsData { table_id, flags, column_count: cols, columns_present: present, rows })
    }

    /// UPDATE_ROWS body decoded with the table map of its table: pairs of
    /// before image and complete after image.
    #[verifier::rlimit(100)]
    pub fn parse_update_rows_event(data: &[u8], table: &TableMapData) -> (r: Result<
        UpdateRowsData,
        CdcError,
    >)
        requires
            table_map_wf(*table),
        ensures
            r is Ok <==> pairs_decode(data@, *table),
            r is Ok ==> pairs_decoded(r->Ok_0.rows@, data@, *table),
            match rows_header(data@, *table) {
                None => r is Err && r->Err_0 is BinlogParseError,
                Some((cols, pp, bl)) => {
                    let present = data@.subrange(pp, pp + bl);
                    let changed = data@.subrange(pp + bl, pp + 2 * bl);
                    &&& pp + 2 * bl > data@.len() ==> r is Err && r->Err_0 is BinlogParseError
                    &&& pp + 2 * bl <= data@.len() ==> (r is Ok <==> records_fill(
                        data@,
                        *table,
                        present,
                        Some(changed),
                        pp + 2 * bl,
                    ))
                    &&& r is Err ==> r->Err_0 is BinlogParseError
                    &&& r is Ok ==> {
                        let w = r->Ok_0;
                        &&& w.table_id == u48_le(data@, 0)
                        &&& w.flags == u16_le(data@, 6)
                        &&& w.column_count == cols
                        &&& w.columns_present@ == present
                        &&& w.columns_changed@ == changed
                    }
                },
            },
    {
        let (table_id, flags, cols, present, p) = Self::rows_prefix(data, table)?;
        let bl = present.len();
        if data.len() - p < bl {
            return Err(CdcError::BinlogParseError("update rows event truncated".to_owned()));
        }
        let changed = copy_bytes(data, p, p + bl);
        let recs = decode_records(data, p + bl, table, present.as_slice(), Some(changed.as_slice()))?;
        let mut rows: Vec<(Vec<CellValue>, Vec<CellValue>)> = Vec::new();
        let mut rest = recs;
        let ghost orig = rest@;
        let mut i: usize = 0;
        let n = rest.len();
        while i < n
            invariant
                n == orig.len(),
                i <= n,
                rest@ == orig.subrange(i as int, n as int),
                rows@.len() == i,
                forall|k: int|
                    0 <= k < i ==> (#[trigger] rows@[k]).0@ == orig[k].0@ && rows@[k].1@.len()
                        == orig[k].1@.len() && forall|c: int|
                        0 <= c < orig[k].1@.len() ==> filled_is(
                            #[trigger] rows@[k].1@[c],
                            rows@[k].0@[c],
                            orig[k].1@[c],
                            bit(changed@, c),
                        ),
                forall|k: int| 0 <= k < n ==> (#[trigger] orig[k]).0@.len() == table.column_types@.len(),
                forall|k: int| 0 <= k < n ==> (#[trigger] orig[k]).1@.len() == table.column_types@.len(),
            decreases n - i,
        {
            let (before, after) = rest.remove(0);
            assert(rest@ =~= orig.subrange(i + 1, n as int));
            let full = fill_after(&before, after, changed.as_slice());
            rows.push((before, full));
            i = i + 1;
        }
        proof {
            let b = data@;
            let (c0, pp, bl0) = rows_header(b, *table)->Some_0;
            let pres = b.subrange(pp, pp + bl0);
            let chg = b.subrange(pp + bl0, pp + 2 * bl0);
            assert(pres == present@);
            assert(chg == changed@);
            assert forall|k: int| #![trigger rows@[k]] 0 <= k < rows@.len() implies {
                let q = records_at(b, *table, pres, Some(chg), pp + 2 * bl0, k as nat)->Some_0;
                exists|given: Seq<CellValue>|
                    row_is(given, b, *table, chg, row_end(b, *table, pres, q)->Some_0)
                        && rows@[k].1@.len() == given.len() && forall|c: int|
                        0 <= c < given.len() ==> filled_is(
                            #[trigger] rows@[k].1@[c],
                            rows@[k].0@[c],
                            given[c],
                            bit(chg, c),
                        )
            } by {
                let q = records_at(b, *table, pres, Some(chg), pp + 2 * bl0, k as nat)->Some_0;
                assert(row_is(orig[k].1@, b, *table, chg, row_end(b, *table, pres, q)->Some_0));
            }
        }
        Ok(UpdateRowsData {
            table_id,
            flags,
            column_count: cols,
            columns_present: present,
            columns_changed: changed,
            rows,
        })
    }

    /// Table id, flags, column count and present bitmap of a row event, and
    /// where its next part starts.
    fn rows_prefix(data: &[u8], table: &TableMapData) -> (r: Result<
        (u64, u16, u64, Vec<u8>, usize),
        CdcError,
    >)
        ensures
            match rows_header(data@, *table) {
                None => r is Err && r->Err_0 is BinlogParseError,
                Some((cols, pp, bl)) => r is Ok && r->Ok_0.0 == u48_le(data@, 0) && r->Ok_0.1
                    == u16_le(data@, 6) && r->Ok_0.2 == cols && r->Ok_0.3@ == data@.subrange(
                    pp,
                    pp + bl,
                ) && r->Ok_0.4 == pp + bl,
            },
    {
        let n = data.len();
        if n < 8 {
            return Err(CdcError::BinlogParseError("row event truncated".to_owned()));
        }
        let table_id = read_u48_le(data, 0);
        let flags = read_u16_le(data, 6);
        let (cols, pa) = read_lcb(data, 8)?;
        if cols != table.column_types.len() as u64 {
            return Err(CdcError::BinlogParseError("row event column count differs from its table map".to_owned()));
        }
        let c = cols as usize;
        let bl = c / 8 + if c % 8 == 0 {
            0
        } else {
            1
        };
        assert(bl == (c + 7) / 8);
        if bl > n - pa {
            return Err(CdcError::BinlogParseError("row event truncated".to_owned()));
        }
        let present = copy_bytes(data, pa, pa + bl);
        Ok((table_id, flags, cols, present, pa + bl))
    }
}

/// The first image of each record.
fn first_images(recs: Vec<(Vec<CellValue>, Vec<CellValue>)>) -> (r: Vec<Vec<CellValue>>)
    ensures
        r@.len() == recs@.len(),
        forall|i: int| 0 <= i < r@.len() ==> (#[trigger] r@[i])@ == recs@[i].0@,
{
    let mut out: Vec<Vec<CellValue>> = Vec::new();
    let mut rest = recs;
    let ghost orig = rest@;
    let n = rest.len();
    let mut i: usize = 0;
    while i < n
        invariant
            n == orig.len(),
            i <= n,
            rest@ == orig.subrange(i as int, n as int),
            out@.len() == i,
            forall|k: int| 0 <= k < i ==> (#[trigger] out@[k])@ == orig[k].0@,
        decreases n - i,
    {
        let (img, _) = rest.remove(0);
        assert(rest@ =~= orig.subrange(i + 1, n as int));
        out.push(img);
        i = i + 1;
    }
    out
}

proof fn lemma_meta_offset_grows(types: Seq<u8>, i: int, j: int)
    requires
        0 <= i <= j,
    ensures
        meta_offset(types, i) <= meta_offset(types, j),
    decreases j - i,
{
    if i < j {
        lemma_meta_offset_grows(types, i, j - 1);
    }
}

} // verus!

verus! {

/// Decimal text of a signed integer.
pub open spec fn int_text(i: int) -> Seq<char> {
    if i < 0 {
        seq!['-'] + crate::text::dec((-i) as nat)
    } else {
        crate::text::dec(i as nat)
    }
}

impl CellValue {
    /// Text of a cell, for the kinds whose text is fixed here: strings as
    /// they are, 64-bit integers in decimal, and `NULL`; `None` for the
    /// others (doubles and datetimes are rendered by callers).
    pub fn as_text(&self) -> (r: Option<String>)
        ensures
            *self is String ==> r is Some && r->Some_0@ == self->String_0@,
            *self is Int64 ==> r is Some && r->Some_0@ == int_text(self->Int64_0 as int),
            *self is UInt64 ==> r is Some && r->Some_0@ == crate::text::dec(self->UInt64_0 as nat),
            *self is Null ==> r is Some && r->Some_0@ == seq!['N', 'U', 'L', 'L'],
            !(*self is String || *self is Int64 || *self is UInt64 || *self is Null) ==> r is None,
    {
        match self {
            CellValue::String(s) => Some(copy_string(s)),
            CellValue::UInt64(u) => Some(crate::text::string_from_chars(&crate::text::u64_digits(*u))),
            CellValue::Int64(i) => {
                let neg = *i < 0;
                let mag: u64 = if neg { (0i128 - (*i as i128)) as u64 } else { *i as u64 };
                let d = crate::text::u64_digits(mag);
                let mut out: Vec<char> = Vec::new();
                if neg {
                    out.push('-');
                }
                let mut k: usize = 0;
                let ghost h = out@;
                while k < d.len()
                    invariant
                        k <= d@.len(),
                        out@ == h + d@.subrange(0, k as int),
                    decreases d@.len() - k,
                {
                    out.push(d[k]);
                    k = k + 1;
                    assert(out@ =~= h + d@.subrange(0, k as int));
                }
                assert(d@.subrange(0, d@.len() as int) =~= d@);
                assert(out@ =~= int_text(*i as int));
                Some(crate::text::string_from_chars(&out))
            },
            CellValue::Null => {
                let v: Vec<char> = vec!['N', 'U', 'L', 'L'];
                assert(v@ =~= seq!['N', 'U', 'L', 'L']);
                Some(crate::text::string_from_chars(&v))
            },
            _ => None,
        }
    }
}

} // verus!
