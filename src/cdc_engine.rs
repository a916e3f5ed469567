//! The replication session: table-map cache, filters, offset and GTID
//! bookkeeping, and the turning of row events into change records. The
//! caller reads packets from the server and hands each one to the engine.

use vstd::prelude::*;
use crate::binlog::{gtid_body_text, header_spec, lossy_text, query_db, query_layout_ok, query_text, BinlogParser};
use crate::connection::{BinlogStatus, ColumnInfo, ConnectionConfig};
use crate::error::CdcError;
use crate::events::{
    event_code, EventHeader,
    CellValue, ChangeEvent, DeleteRowsData, EventType, OperationType, QueryEventData, TableMapData,
    UpdateRowsData, WriteRowsData,
};
use crate::gtid::{gtid_spec, parse_spec, GtidSet};
use crate::offset::{BinlogOffset, ProcessingState};
use crate::rowcodec::copy_bytes;
use crate::rowevents::{
    bit, copy_cell, copy_string, filled_is, pairs_decode, pairs_decoded, records_at, row_end, row_is, rows_decode,
    rows_decoded, rows_header, same_cell, table_map_is, table_map_layout, table_map_wf,
};
use crate::text::{chars_of, compare_text, dec, string_from_chars, u64_digits};
use crate::wire::u48_le;

verus! {

/// How the external snapshotter treats existing rows.
#[derive(Debug, Clone, Copy, PartialEq, Eq, Structural)]
pub enum SnapshotMode {
    Initial,
    SchemaOnly,
    Never,
    Incremental,
}

/// Settings of a capture session.
#[derive(Debug, Clone)]
pub struct CdcConfig {
    pub connection: ConnectionConfig,
    /// Schemas whose changes are emitted; empty emits all.
    pub databases: Vec<String>,
    /// Tables, as `db.table`, whose changes are emitted; `None` emits all.
    pub tables: Option<Vec<String>>,
    pub snapshot_mode: SnapshotMode,
    pub include_ddl: bool,
    pub gtid_filter: Option<String>,
}

/// Column names and types of a table, from the server's catalog.
#[derive(Debug, Clone)]
pub struct TableMetadata {
    pub database: String,
    pub table: String,
    pub columns: Vec<String>,
    pub column_types: Vec<String>,
    pub primary_key: Vec<String>,
}

/// What one packet of the stream amounts to.
#[derive(Debug, Clone)]
pub enum StreamStep {
    /// Change records to deliver, in order (possibly none).
    Records(Vec<ChangeEvent>),
    /// Control record: the stream moved to file `.0` at position `.1`.
    Rotated(String, u64),
    /// Control record: a row event of table id `.0` and event type `.1`
    /// could not be decoded and was skipped; `.2` says why.
    DecodeSkipped(u64, u8, String),
    /// The server ended the stream.
    End,
}

/// Some element of `list` reads `x`.
pub open spec fn text_in(list: Seq<String>, x: Seq<char>) -> bool {
    exists|i: int| 0 <= i < list.len() && (#[trigger] list[i])@ == x
}

/// Changes of schema `db` are emitted.
pub open spec fn db_allowed(cfg: CdcConfig, db: Seq<char>) -> bool {
    cfg.databases@.len() == 0 || text_in(cfg.databases@, db)
}

/// Changes of table `db.t` are emitted.
pub open spec fn table_allowed(cfg: CdcConfig, db: Seq<char>, t: Seq<char>) -> bool {
    &&& db_allowed(cfg, db)
    &&& match cfg.tables {
        None => true,
        Some(ts) => text_in(ts@, db + seq!['.'] + t),
    }
}

/// A table map for `id` is cached.
pub open spec fn has_map(maps: Seq<TableMapData>, id: u64) -> bool {
    exists|i: int| 0 <= i < maps.len() && (#[trigger] maps[i]).table_id == id
}

/// The statement starts with one of the DDL words (any case) followed by
/// the end or a non-letter.
pub open spec fn is_ddl(q: Seq<char>) -> bool {
    starts_word(q, seq!['C', 'R', 'E', 'A', 'T', 'E']) || starts_word(q, seq!['A', 'L', 'T', 'E', 'R'])
        || starts_word(q, seq!['D', 'R', 'O', 'P']) || starts_word(
        q,
        seq!['T', 'R', 'U', 'N', 'C', 'A', 'T', 'E'],
    ) || starts_word(q, seq!['R', 'E', 'N', 'A', 'M', 'E'])
}

pub open spec fn upper(c: char) -> char {
    if 'a' <= c && c <= 'z' {
        ((c as u32) - 32) as char
    } else {
        c
    }
}

pub open spec fn is_letter(c: char) -> bool {
    ('a' <= c && c <= 'z') || ('A' <= c && c <= 'Z')
}

/// `q`, after leading spaces, starts with word `w` (compared in upper case).
pub open spec fn starts_word(q: Seq<char>, w: Seq<char>) -> bool {
    let t = q.subrange(crate::text::lead_spaces(q) as int, q.len() as int);
    &&& t.len() >= w.len()
    &&& forall|i: int| 0 <= i < w.len() ==> upper(#[trigger] t[i]) == w[i]
    &&& (t.len() == w.len() || !is_letter(t[w.len() as int]))
}

/// Name of column `i` when the catalog gave none: `@1`, `@2`, ...
pub open spec fn positional_name(i: int) -> Seq<char> {
    seq!['@'] + dec((i + 1) as nat)
}

/// `img` pairs `names` with the cells of `row`.
pub open spec fn image_is(img: Seq<(String, CellValue)>, names: Seq<Seq<char>>, row: Seq<CellValue>) -> bool {
    &&& img.len() == row.len()
    &&& forall|c: int|
        0 <= c < img.len() ==> (#[trigger] img[c]).0@ == names[c] && same_cell(img[c].1, row[c])
}

/// The texts of the strings.
pub open spec fn views(ns: Seq<String>) -> Seq<Seq<char>> {
    Seq::new(ns.len(), |i: int| ns[i]@)
}

/// The two images name the same columns in the same order.
pub open spec fn same_keys(a: Seq<(String, CellValue)>, b: Seq<(String, CellValue)>) -> bool {
    a.len() == b.len() && forall|c: int| 0 <= c < a.len() ==> (#[trigger] a[c]).0@ == b[c].0@
}

/// Some column holds different values in the two images.
pub open spec fn differs(a: Seq<(String, CellValue)>, b: Seq<(String, CellValue)>) -> bool {
    exists|c: int| 0 <= c < a.len() && !same_cell((#[trigger] a[c]).1, b[c].1)
}

/// Some cell differs between the two rows.
pub open spec fn rows_differ(a: Seq<CellValue>, b: Seq<CellValue>) -> bool {
    exists|c: int| 0 <= c < a.len() && !same_cell(#[trigger] a[c], b[c])
}

/// An UPDATE record: both images, the same columns, and some value changed.
pub open spec fn update_record_ok(e: ChangeEvent) -> bool {
    &&& e.before is Some
    &&& e.after is Some
    &&& same_keys(e.before->Some_0@, e.after->Some_0@)
    &&& differs(e.before->Some_0@, e.after->Some_0@)
}

/// The images and statement a record of each kind carries: INSERT only
/// `after`, DELETE only `before`, UPDATE both (same columns, some value
/// changed), DDL only the statement and no table.
pub open spec fn record_shape_ok(e: ChangeEvent) -> bool {
    match e.op {
        OperationType::Insert => e.before is None && e.after is Some && e.query is None,
        OperationType::Delete => e.before is Some && e.after is None && e.query is None,
        OperationType::Update => update_record_ok(e) && e.query is None,
        OperationType::Ddl => e.before is None && e.after is None && e.query is Some
            && e.table@.len() == 0,
    }
}

/// The kind of record a row event yields.
pub open spec fn row_op(t: EventType) -> OperationType {
    if t == EventType::WriteRowsEvent {
        OperationType::Insert
    } else if t == EventType::DeleteRowsEvent {
        OperationType::Delete
    } else {
        OperationType::Update
    }
}

/// `v` holds one INSERT or DELETE record per row of `rows`, in order.
pub open spec fn single_records_are(
    v: Seq<ChangeEvent>,
    op: OperationType,
    rows: Seq<Vec<CellValue>>,
    names: Seq<Seq<char>>,
    db: Seq<char>,
    tbl: Seq<char>,
    ts: u32,
    gtid: Option<Seq<char>>,
) -> bool {
    &&& v.len() == rows.len()
    &&& forall|i: int|
        0 <= i < v.len() ==> {
            let e = #[trigger] v[i];
            &&& record_head(e, op, db, tbl, ts, gtid)
            &&& op == OperationType::Insert ==> e.before is None && e.after is Some && image_is(
                e.after->Some_0@,
                names,
                rows[i]@,
            )
            &&& op == OperationType::Delete ==> e.after is None && e.before is Some && image_is(
                e.before->Some_0@,
                names,
                rows[i]@,
            )
        }
}

/// `v` holds one UPDATE record per pair whose images differ, in order.
pub open spec fn update_records_are(
    v: Seq<ChangeEvent>,
    pairs: Seq<(Vec<CellValue>, Vec<CellValue>)>,
    names: Seq<Seq<char>>,
    db: Seq<char>,
    tbl: Seq<char>,
    ts: u32,
    gtid: Option<Seq<char>>,
) -> bool {
    &&& v.len() == differing(pairs).len()
    &&& forall|i: int|
        0 <= i < v.len() ==> {
            let e = #[trigger] v[i];
            &&& record_head(e, OperationType::Update, db, tbl, ts, gtid)
            &&& update_record_ok(e)
            &&& image_is(e.before->Some_0@, names, differing(pairs)[i].0@)
            &&& image_is(e.after->Some_0@, names, differing(pairs)[i].1@)
        }
}

/// Every UPDATE record of a row event names the same columns, in the
/// table's order, in both images, and some value differs between them; a
/// pair whose images are equal yields no record.
pub proof fn lemma_update_records_law(
    v: Seq<ChangeEvent>,
    pairs: Seq<(Vec<CellValue>, Vec<CellValue>)>,
    names: Seq<Seq<char>>,
    db: Seq<char>,
    tbl: Seq<char>,
    ts: u32,
    gtid: Option<Seq<char>>,
)
    requires
        update_records_are(v, pairs, names, db, tbl, ts, gtid),
    ensures
        v.len() == differing(pairs).len(),
        forall|i: int|
            0 <= i < v.len() ==> {
                let e = #[trigger] v[i];
                &&& e.op == OperationType::Update
                &&& e.before is Some && e.after is Some
                &&& same_keys(e.before->Some_0@, e.after->Some_0@)
                &&& differs(e.before->Some_0@, e.after->Some_0@)
                &&& forall|c: int|
                    0 <= c < e.before->Some_0@.len() ==> (#[trigger] e.before->Some_0@[c]).0@ == names[c]
            },
{
    assert forall|i: int| 0 <= i < v.len() implies {
        let e = #[trigger] v[i];
        &&& e.op == OperationType::Update
        &&& e.before is Some && e.after is Some
        &&& same_keys(e.before->Some_0@, e.after->Some_0@)
        &&& differs(e.before->Some_0@, e.after->Some_0@)
        &&& forall|c: int|
            0 <= c < e.before->Some_0@.len() ==> (#[trigger] e.before->Some_0@[c]).0@ == names[c]
    } by {
        let e = v[i];
        assert(record_head(e, OperationType::Update, db, tbl, ts, gtid));
        assert(update_record_ok(e));
        assert(image_is(e.before->Some_0@, names, differing(pairs)[i].0@));
    }
}

/// Whether two cells hold the same value.
pub fn cell_equal(a: &CellValue, b: &CellValue) -> (r: bool)
    ensures
        r == same_cell(*a, *b),
{
    match (a, b) {
        (CellValue::String(x), CellValue::String(y)) => string_equal(x, y),
        (CellValue::Date(x), CellValue::Date(y)) => string_equal(x, y),
        (CellValue::Time(x), CellValue::Time(y)) => string_equal(x, y),
        (CellValue::Decimal(x), CellValue::Decimal(y)) => string_equal(x, y),
        (CellValue::Bytes(x), CellValue::Bytes(y)) => bytes_equal(x, y),
        (CellValue::Json(x), CellValue::Json(y)) => bytes_equal(x, y),
        (CellValue::Null, CellValue::Null) => true,
        (CellValue::Int8(x), CellValue::Int8(y)) => *x == *y,
        (CellValue::Int16(x), CellValue::Int16(y)) => *x == *y,
        (CellValue::Int32(x), CellValue::Int32(y)) => *x == *y,
        (CellValue::Int64(x), CellValue::Int64(y)) => *x == *y,
        (CellValue::UInt8(x), CellValue::UInt8(y)) => *x == *y,
        (CellValue::UInt16(x), CellValue::UInt16(y)) => *x == *y,
        (CellValue::UInt32(x), CellValue::UInt32(y)) => *x == *y,
        (CellValue::UInt64(x), CellValue::UInt64(y)) => *x == *y,
        (CellValue::Float(x), CellValue::Float(y)) => *x == *y,
        (CellValue::Double(x), CellValue::Double(y)) => *x == *y,
        (CellValue::DateTime(x), CellValue::DateTime(y)) => *x == *y,
        _ => false,
    }
}

fn string_equal(a: &String, b: &String) -> (r: bool)
    ensures
        r == (a@ == b@),
{
    let ca = chars_of(a.as_str());
    let cb = chars_of(b.as_str());
    compare_text(&ca, &cb) == 0
}

fn bytes_equal(a: &Vec<u8>, b: &Vec<u8>) -> (r: bool)
    ensures
        r == (a@ == b@),
{
    if a.len() != b.len() {
        return false;
    }
    let mut i: usize = 0;
    while i < a.len()
        invariant
            i <= a@.len(),
            a@.len() == b@.len(),
            forall|k: int| 0 <= k < i ==> a@[k] == b@[k],
        decreases a@.len() - i,
    {
        if a[i] != b[i] {
            return false;
        }
        i = i + 1;
    }
    assert(a@ =~= b@);
    true
}

/// Pairs each column name with the row's cell.
fn make_image(names: &Vec<String>, row: &Vec<CellValue>) -> (r: Vec<(String, CellValue)>)
    requires
        names@.len() == row@.len(),
    ensures
        image_is(r@, views(names@), row@),
{
    let mut out: Vec<(String, CellValue)> = Vec::new();
    let n = row.len();
    let mut i: usize = 0;
    while i < n
        invariant
            n == row@.len(),
            names@.len() == n,
            i <= n,
            out@.len() == i,
            forall|c: int|
                0 <= c < i ==> (#[trigger] out@[c]).0@ == names@[c]@ && same_cell(
                    out@[c].1,
                    row@[c],
                ),
        decreases n - i,
    {
        out.push((copy_string(&names[i]), copy_cell(&row[i])));
        i = i + 1;
    }
    out
}

/// Whether two rows of the same length differ in some cell.
fn rows_differ_exec(a: &Vec<CellValue>, b: &Vec<CellValue>) -> (r: bool)
    requires
        a@.len() == b@.len(),
    ensures
        r == rows_differ(a@, b@),
{
    let mut i: usize = 0;
    while i < a.len()
        invariant
            i <= a@.len(),
            a@.len() == b@.len(),
            forall|k: int| 0 <= k < i ==> same_cell(#[trigger] a@[k], b@[k]),
        decreases a@.len() - i,
    {
        if !cell_equal(&a[i], &b[i]) {
            return true;
        }
        i = i + 1;
    }
    false
}

/// An image keeps its relation to the row when the names and cells agree.
proof fn lemma_images_differ(
    bi: Seq<(String, CellValue)>,
    ai: Seq<(String, CellValue)>,
    names: Seq<Seq<char>>,
    b: Seq<CellValue>,
    a: Seq<CellValue>,
)
    requires
        image_is(bi, names, b),
        image_is(ai, names, a),
        rows_differ(b, a),
        b.len() == a.len(),
    ensures
        same_keys(bi, ai),
        differs(bi, ai),
{
    let c = choose|c: int| 0 <= c < b.len() && !same_cell(#[trigger] b[c], a[c]);
    assert(same_cell(bi[c].1, b[c]));
    assert(same_cell(ai[c].1, a[c]));
    assert forall|k: int| 0 <= k < bi.len() implies (#[trigger] bi[k]).0@ == ai[k].0@ by {
        assert(bi[k].0@ == names[k]);
        assert(ai[k].0@ == names[k]);
    }
    assert(!same_cell(bi[c].1, ai[c].1)) by {
        lemma_same_cell_transfer(bi[c].1, b[c], ai[c].1, a[c]);
    }
}

proof fn lemma_same_cell_transfer(x: CellValue, b: CellValue, y: CellValue, a: CellValue)
    requires
        same_cell(x, b),
        same_cell(y, a),
        !same_cell(b, a),
    ensures
        !same_cell(x, y),
{
}

/// The differing pairs, in order.
pub open spec fn differing(pairs: Seq<(Vec<CellValue>, Vec<CellValue>)>) -> Seq<
    (Vec<CellValue>, Vec<CellValue>),
>
    decreases pairs.len(),
{
    if pairs.len() == 0 {
        Seq::empty()
    } else {
        let p = differing(pairs.drop_last());
        if rows_differ(pairs.last().0@, pairs.last().1@) {
            p.push(pairs.last())
        } else {
            p
        }
    }
}

/// `e` is the record of kind `op` for table map `tm` at time `ts` under
/// GTID `gtid`, without images yet checked.
pub open spec fn record_head(
    e: ChangeEvent,
    op: OperationType,
    db: Seq<char>,
    tbl: Seq<char>,
    ts: u32,
    gtid: Option<Seq<char>>,
) -> bool {
    &&& e.op == op
    &&& e.database@ == db
    &&& e.table@ == tbl
    &&& e.timestamp == ts
    &&& e.query is None
    &&& match gtid {
        None => e.gtid is None,
        Some(g) => e.gtid is Some && e.gtid->Some_0@ == g,
    }
}

pub open spec fn opt_string(o: Option<String>) -> Option<Seq<char>> {
    match o {
        Some(s) => Some(s@),
        None => None,
    }
}

fn copy_opt_string(o: &Option<String>) -> (r: Option<String>)
    ensures
        opt_string(r) == opt_string(*o),
{
    match o {
        Some(s) => Some(copy_string(s)),
        None => None,
    }
}

/// One INSERT (`before` empty) or DELETE (`after` empty) record per row.
fn single_image_records(
    op: OperationType,
    db: &String,
    tbl: &String,
    names: &Vec<String>,
    rows: &Vec<Vec<CellValue>>,
    ts: u32,
    gtid: &Option<String>,
) -> (r: Vec<ChangeEvent>)
    requires
        op == OperationType::Insert || op == OperationType::Delete,
        forall|i: int| 0 <= i < rows@.len() ==> (#[trigger] rows@[i])@.len() == names@.len(),
    ensures
        single_records_are(r@, op, rows@, views(names@), db@, tbl@, ts, opt_string(*gtid)),
{
    let mut out: Vec<ChangeEvent> = Vec::new();
    let n = rows.len();
    let mut i: usize = 0;
    while i < n
        invariant
            n == rows@.len(),
            i <= n,
            op == OperationType::Insert || op == OperationType::Delete,
            forall|k: int| 0 <= k < rows@.len() ==> (#[trigger] rows@[k])@.len() == names@.len(),
            out@.len() == i,
            forall|k: int|
                0 <= k < i ==> {
                    let e = #[trigger] out@[k];
                    &&& record_head(e, op, db@, tbl@, ts, opt_string(*gtid))
                    &&& op == OperationType::Insert ==> e.before is None && e.after is Some
                        && image_is(e.after->Some_0@, views(names@), rows@[k]@)
                    &&& op == OperationType::Delete ==> e.after is None && e.before is Some
                        && image_is(e.before->Some_0@, views(names@), rows@[k]@)
                },
        decreases n - i,
    {
        let img = make_image(names, &rows[i]);
        let e = if op == OperationType::Insert {
            ChangeEvent {
                gtid: copy_opt_string(gtid),
                op,
                timestamp: ts,
                database: copy_string(db),
                table: copy_string(tbl),
                before: None,
                after: Some(img),
                query: None,
            }
        } else {
            ChangeEvent {
                gtid: copy_opt_string(gtid),
                op,
                timestamp: ts,
                database: copy_string(db),
                table: copy_string(tbl),
                before: Some(img),
                after: None,
                query: None,
            }
        };
        out.push(e);
        i = i + 1;
    }
    out
}

/// One UPDATE record per pair whose images differ; pairs with no change
/// give none.
fn update_records(
    db: &String,
    tbl: &String,
    names: &Vec<String>,
    pairs: &Vec<(Vec<CellValue>, Vec<CellValue>)>,
    ts: u32,
    gtid: &Option<String>,
) -> (r: Vec<ChangeEvent>)
    requires
        forall|i: int|
            0 <= i < pairs@.len() ==> (#[trigger] pairs@[i]).0@.len() == names@.len()
                && pairs@[i].1@.len() == names@.len(),
    ensures
        update_records_are(r@, pairs@, views(names@), db@, tbl@, ts, opt_string(*gtid)),
{
    let mut out: Vec<ChangeEvent> = Vec::new();
    let ghost orig = pairs@;
    let n = pairs.len();
    let mut i: usize = 0;
    assert(orig.subrange(0, 0) =~= Seq::<(Vec<CellValue>, Vec<CellValue>)>::empty());
    while i < n
        invariant
            n == orig.len(),
            orig == pairs@,
            i <= n,
            forall|k: int|
                0 <= k < orig.len() ==> (#[trigger] orig[k]).0@.len() == names@.len()
                    && orig[k].1@.len() == names@.len(),
            out@.len() == differing(orig.subrange(0, i as int)).len(),
            forall|k: int|
                0 <= k < out@.len() ==> {
                    let e = #[trigger] out@[k];
                    &&& record_head(e, OperationType::Update, db@, tbl@, ts, opt_string(*gtid))
                    &&& update_record_ok(e)
                    &&& image_is(e.before->Some_0@, views(names@), differing(orig.subrange(0, i as int))[k].0@)
                    &&& image_is(e.after->Some_0@, views(names@), differing(orig.subrange(0, i as int))[k].1@)
                },
        decreases n - i,
    {
        let ghost pre = orig.subrange(0, i as int);
        let ghost nxt = orig.subrange(0, i + 1);
        assert(nxt.drop_last() =~= pre);
        assert(nxt.last() == orig[i as int]);
        let b = &pairs[i].0;
        let a = &pairs[i].1;
        if rows_differ_exec(b, a) {
            let bi = make_image(names, b);
            let ai = make_image(names, a);
            proof {
                lemma_images_differ(bi@, ai@, views(names@), b@, a@);
            }
            let e = ChangeEvent {
                gtid: copy_opt_string(gtid),
                op: OperationType::Update,
                timestamp: ts,
                database: copy_string(db),
                table: copy_string(tbl),
                before: Some(bi),
                after: Some(ai),
                query: None,
            };
            out.push(e);
        }
        i = i + 1;
    }
    assert(orig.subrange(0, n as int) =~= orig);
    out
}

/// Whether `x` is one of the texts of `list`.
fn text_list_contains(list: &Vec<String>, x: &Vec<char>) -> (r: bool)
    ensures
        r == text_in(list@, x@),
{
    let mut i: usize = 0;
    while i < list.len()
        invariant
            i <= list@.len(),
            forall|k: int| 0 <= k < i ==> (#[trigger] list@[k])@ != x@,
        decreases list@.len() - i,
    {
        let c = chars_of(list[i].as_str());
        if compare_text(&c, x) == 0 {
            return true;
        }
        i = i + 1;
    }
    false
}

fn starts_word_exec(q: &Vec<char>, w: &[char]) -> (r: bool)
    ensures
        r == starts_word(q@, w@),
{
    let mut a: usize = 0;
    while a < q.len() && (q[a] == ' ' || q[a] == '\t' || q[a] == '\n' || q[a] == '\r')
        invariant
            a <= q@.len(),
            forall|j: int| 0 <= j < a ==> crate::text::is_space(#[trigger] q@[j]),
        decreases q@.len() - a,
    {
        a = a + 1;
    }
    proof {
        crate::text::lemma_lead_spaces(q@, a as int);
    }
    let ghost t = q@.subrange(a as int, q@.len() as int);
    let qlen = q.len();
    if qlen - a < w.len() {
        return false;
    }
    let mut i: usize = 0;
    while i < w.len()
        invariant
            i <= w@.len(),
            qlen == q@.len(),
            crate::text::lead_spaces(q@) == a,
            a + w@.len() <= q@.len(),
            t == q@.subrange(a as int, q@.len() as int),
            forall|k: int| 0 <= k < i ==> upper(#[trigger] t[k]) == w@[k],
        decreases w@.len() - i,
    {
        let c = q[a + i];
        let u = if 'a' <= c && c <= 'z' { ((c as u8) - 32) as char } else { c };
        assert(u == upper(t[i as int]));
        if u != w[i] {
            return false;
        }
        i = i + 1;
    }
    if q.len() - a == w.len() {
        return true;
    }
    let c = q[a + w.len()];
    let letter = ('a' <= c && c <= 'z') || ('A' <= c && c <= 'Z');
    !letter
}

fn is_ddl_exec(q: &Vec<char>) -> (r: bool)
    ensures
        r == is_ddl(q@),
{
    let w1: [char; 6] = ['C', 'R', 'E', 'A', 'T', 'E'];
    let w2: [char; 5] = ['A', 'L', 'T', 'E', 'R'];
    let w3: [char; 4] = ['D', 'R', 'O', 'P'];
    let w4: [char; 8] = ['T', 'R', 'U', 'N', 'C', 'A', 'T', 'E'];
    let w5: [char; 6] = ['R', 'E', 'N', 'A', 'M', 'E'];
    assert(w1@ =~= seq!['C', 'R', 'E', 'A', 'T', 'E']);
    assert(w2@ =~= seq!['A', 'L', 'T', 'E', 'R']);
    assert(w3@ =~= seq!['D', 'R', 'O', 'P']);
    assert(w4@ =~= seq!['T', 'R', 'U', 'N', 'C', 'A', 'T', 'E']);
    assert(w5@ =~= seq!['R', 'E', 'N', 'A', 'M', 'E']);
    starts_word_exec(q, w1.as_slice()) || starts_word_exec(q, w2.as_slice()) || starts_word_exec(
        q,
        w3.as_slice(),
    ) || starts_word_exec(q, w4.as_slice()) || starts_word_exec(q, w5.as_slice())
}

fn is_commit_exec(q: &Vec<char>) -> (r: bool)
    ensures
        r == starts_word(q@, seq!['C', 'O', 'M', 'M', 'I', 'T']),
{
    let w: [char; 6] = ['C', 'O', 'M', 'M', 'I', 'T'];
    assert(w@ =~= seq!['C', 'O', 'M', 'M', 'I', 'T']);
    starts_word_exec(q, w.as_slice())
}

/// The capture engine of one replication session.
pub struct CdcEngine {
    pub config: CdcConfig,
    pub offset: BinlogOffset,
    pub state: ProcessingState,
    /// Column names per table, from the catalog.
    pub table_metadata: Vec<TableMetadata>,
    /// The session's table maps, at most one per table id.
    pub table_maps: Vec<TableMapData>,
    /// GTID of the transaction in progress.
    pub current_gtid: Option<String>,
    /// Events carry a 4-byte checksum after their body.
    pub checksum_enabled: bool,
    /// When set, only records of transactions whose GTID is in this set
    /// are emitted.
    pub gtid_filter_set: Option<GtidSet>,
}

/// The event body of a stream packet's event bytes: after the header, and
/// before the checksum when events carry one.
pub open spec fn body_of(ev: Seq<u8>, checksum: bool) -> Seq<u8> {
    ev.subrange(19, ev.len() - if checksum { 4int } else { 0int })
}

/// `r` is a fresh engine for `config`: at the start of `mysql-bin.000001`,
/// nothing cached, no transaction open, and the GTID filter, when given,
/// holding exactly the GTIDs its text names.
pub open spec fn fresh_engine(r: CdcEngine, config: CdcConfig) -> bool {
    &&& r.wf()
    &&& r.config == config
    &&& r.state == ProcessingState::Snapshotting
    &&& r.offset.binlog_position.filename@ == "mysql-bin.000001"@
    &&& r.offset.binlog_position.position == 4
    &&& r.offset.gtid_set.sets@.len() == 0
    &&& r.table_metadata@.len() == 0
    &&& r.table_maps@.len() == 0
    &&& r.current_gtid is None
    &&& !r.checksum_enabled
    &&& config.gtid_filter is None ==> r.gtid_filter_set is None
    &&& config.gtid_filter matches Some(t) ==> r.gtid_filter_set is Some && forall|u: Seq<char>, n: int|
        #[trigger] r.gtid_filter_set->Some_0.has(u, n) <==> parse_spec(t@)->Some_0.contains((u, n))
}

/// Table ids of the cached maps are distinct.
pub open spec fn unique_ids(maps: Seq<TableMapData>) -> bool {
    forall|i: int, j: int|
        0 <= i < maps.len() && 0 <= j < maps.len() && i != j ==> (#[trigger] maps[i]).table_id
            != (#[trigger] maps[j]).table_id
}

/// Index of the cached map for `id`.
pub open spec fn map_index(maps: Seq<TableMapData>, id: u64) -> int {
    choose|i: int| 0 <= i < maps.len() && (#[trigger] maps[i]).table_id == id
}

/// The cache without the map for `id`.
pub open spec fn without_id(maps: Seq<TableMapData>, id: u64) -> Seq<TableMapData> {
    if has_map(maps, id) {
        maps.remove(map_index(maps, id))
    } else {
        maps
    }
}

/// Catalog entry `m` describes table `db.t` with `n` columns.
pub open spec fn meta_matches(m: TableMetadata, db: Seq<char>, t: Seq<char>, n: nat) -> bool {
    m.database@ == db && m.table@ == t && m.columns@.len() == n
}

/// The first catalog entry describing `db.t` with `n` columns.
pub open spec fn first_meta(meta: Seq<TableMetadata>, db: Seq<char>, t: Seq<char>, n: nat) -> Option<int> {
    if exists|k: int| 0 <= k < meta.len() && meta_matches(meta[k], db, t, n) {
        Some(
            choose|k: int|
                0 <= k < meta.len() && meta_matches(meta[k], db, t, n) && forall|j: int|
                    0 <= j < k ==> !meta_matches(meta[j], db, t, n),
        )
    } else {
        None
    }
}

/// Column names of records for table `db.t` with `n` columns: the
/// catalog's when it lists that many, else `@1`, `@2`, ...
pub open spec fn names_for(meta: Seq<TableMetadata>, db: Seq<char>, t: Seq<char>, n: nat) -> Seq<
    Seq<char>,
> {
    match first_meta(meta, db, t, n) {
        Some(k) => views(meta[k].columns@),
        None => Seq::new(n, |i: int| positional_name(i)),
    }
}

/// Names of the columns, in order.
pub open spec fn column_names_of(cols: Seq<ColumnInfo>) -> Seq<Seq<char>> {
    Seq::new(cols.len(), |i: int| cols[i].name@)
}

/// Types of the columns, in order.
pub open spec fn column_types_of(cols: Seq<ColumnInfo>) -> Seq<Seq<char>> {
    Seq::new(cols.len(), |i: int| cols[i].column_type@)
}

/// Names of the key columns, in order.
pub open spec fn key_names(cols: Seq<ColumnInfo>) -> Seq<Seq<char>>
    decreases cols.len(),
{
    if cols.len() == 0 {
        Seq::empty()
    } else if cols.last().is_key {
        key_names(cols.drop_last()).push(cols.last().name@)
    } else {
        key_names(cols.drop_last())
    }
}

/// The step delivers no record.
pub open spec fn no_records(r: Result<StreamStep, CdcError>) -> bool {
    r is Ok && r->Ok_0 is Records && r->Ok_0->Records_0@.len() == 0
}

/// Settings and catalog stay as they were.
pub open spec fn keeps_settings(s0: CdcEngine, s1: CdcEngine) -> bool {
    s1.config == s0.config && s1.table_metadata == s0.table_metadata && s1.state == s0.state
        && s1.gtid_filter_set == s0.gtid_filter_set
}

/// Cache, transaction and GTID set stay as they were.
pub open spec fn keeps_session(s0: CdcEngine, s1: CdcEngine) -> bool {
    &&& s1.table_maps == s0.table_maps
    &&& s1.current_gtid == s0.current_gtid
    &&& s1.checksum_enabled == s0.checksum_enabled
    &&& s1.offset.gtid_set == s0.offset.gtid_set
}

/// The GTID of the finished transaction is folded into the set, and no
/// transaction is open any more.
pub open spec fn committed(s0: CdcEngine, s1: CdcEngine) -> bool {
    &&& s1.current_gtid is None
    &&& s1.offset.gtid_set.wf()
    &&& match opt_string(s0.current_gtid) {
        Some(g) => match gtid_spec(g) {
            Some((u, n)) => forall|u2: Seq<char>, n2: int|
                #[trigger] s1.offset.gtid_set.has(u2, n2) <==> (s0.offset.gtid_set.has(u2, n2) || (
                u2 == u && n2 == n)),
            None => s1.offset.gtid_set.sets@ == s0.offset.gtid_set.sets@,
        },
        None => s1.offset.gtid_set.sets@ == s0.offset.gtid_set.sets@,
    }
}

/// The open transaction passes the GTID filter: there is none, or the
/// transaction's GTID is in it.
pub open spec fn gtid_passes(s: CdcEngine) -> bool {
    match s.gtid_filter_set {
        None => true,
        Some(f) => match opt_string(s.current_gtid) {
            Some(g) => match gtid_spec(g) {
                Some((u, n)) => f.has(u, n as int),
                None => false,
            },
            None => false,
        },
    }
}

/// A row event (WRITE / UPDATE / DELETE ROWS) with body `b`: refused when
/// too short or when no table map is cached for its table id; skipped with a
/// control record when its rows do not decode; else the records of the
/// decoded rows when the table is selected, none when it is not.
pub open spec fn rows_outcome(s0: CdcEngine, h: EventHeader, b: Seq<u8>, r: Result<StreamStep, CdcError>) -> bool {
    let id = u48_le(b, 0);
    if b.len() < 8 {
        r is Err && r->Err_0 is BinlogParseError
    } else if !has_map(s0.table_maps@, id) {
        r is Err && r->Err_0 is ProtocolError
    } else {
        let tm = s0.table_maps@[map_index(s0.table_maps@, id)];
        let names = names_for(s0.table_metadata@, tm.database@, tm.table@, tm.column_types@.len());
        let sel = table_allowed(s0.config, tm.database@, tm.table@) && gtid_passes(s0);
        let g = opt_string(s0.current_gtid);
        let update = h.event_type == EventType::UpdateRowsEvent;
        let decodes = if update {
            pairs_decode(b, tm)
        } else {
            rows_decode(b, tm)
        };
        &&& r is Ok
        &&& !decodes ==> r->Ok_0 is DecodeSkipped && r->Ok_0->DecodeSkipped_0 == id
            && r->Ok_0->DecodeSkipped_1 == event_code(h.event_type)
        &&& decodes ==> r->Ok_0 is Records
        &&& (decodes && !sel) ==> r->Ok_0->Records_0@.len() == 0
        &&& (decodes && sel && update) ==> exists|pairs: Seq<(Vec<CellValue>, Vec<CellValue>)>|
            pairs_decoded(pairs, b, tm) && update_records_are(
                r->Ok_0->Records_0@,
                pairs,
                names,
                tm.database@,
                tm.table@,
                h.timestamp,
                g,
            )
        &&& (decodes && sel && !update) ==> exists|rows: Seq<Vec<CellValue>>|
            rows_decoded(rows, b, tm) && single_records_are(
                r->Ok_0->Records_0@,
                row_op(h.event_type),
                rows,
                names,
                tm.database@,
                tm.table@,
                h.timestamp,
                g,
            )
    }
}

/// A TABLE_MAP body: refused unless it reads; else the map is cached in
/// place of any earlier map for its table id, and no record is delivered.
pub open spec fn table_map_outcome(s0: CdcEngine, s1: CdcEngine, b: Seq<u8>, r: Result<StreamStep, CdcError>) -> bool {
    if table_map_layout(b) is None {
        r is Err && r->Err_0 is BinlogParseError
    } else {
        &&& no_records(r)
        &&& s1.table_maps@.len() > 0
        &&& table_map_is(s1.table_maps@.last(), b)
        &&& s1.table_maps@.drop_last() == without_id(s0.table_maps@, u48_le(b, 0))
        &&& s1.current_gtid == s0.current_gtid
        &&& s1.checksum_enabled == s0.checksum_enabled
        &&& s1.offset.gtid_set == s0.offset.gtid_set
    }
}

/// A ROTATE body: refused when shorter than 8 bytes; else the position
/// moves to the named file and offset, a control record says so, and the
/// table maps are dropped when the file changes.
pub open spec fn rotate_outcome(s0: CdcEngine, s1: CdcEngine, b: Seq<u8>, r: Result<StreamStep, CdcError>) -> bool {
    if b.len() < 8 {
        r is Err && r->Err_0 is BinlogParseError
    } else {
        let name = lossy_text(b.subrange(8, b.len() as int));
        let pos = crate::wire::u64_le(b, 0);
        &&& r is Ok && r->Ok_0 is Rotated && r->Ok_0->Rotated_0@ == name && r->Ok_0->Rotated_1 == pos
        &&& s1.offset.binlog_position.filename@ == name
        &&& s1.offset.binlog_position.position == pos
        &&& s1.offset.gtid_set == s0.offset.gtid_set
        &&& s1.current_gtid == s0.current_gtid
        &&& s1.checksum_enabled == s0.checksum_enabled
        &&& name != s0.offset.binlog_position.filename@ ==> s1.table_maps@.len() == 0
        &&& name == s0.offset.binlog_position.filename@ ==> s1.table_maps == s0.table_maps
    }
}

/// A GTID body: refused when shorter than 42 bytes; else it opens the
/// transaction with that GTID.
pub open spec fn gtid_outcome(s0: CdcEngine, s1: CdcEngine, b: Seq<u8>, r: Result<StreamStep, CdcError>) -> bool {
    if b.len() < 42 {
        r is Err && r->Err_0 is BinlogParseError
    } else {
        &&& no_records(r)
        &&& s1.current_gtid is Some && s1.current_gtid->Some_0@ == gtid_body_text(b)
        &&& s1.table_maps == s0.table_maps
        &&& s1.checksum_enabled == s0.checksum_enabled
        &&& s1.offset.gtid_set == s0.offset.gtid_set
    }
}

/// A QUERY body: refused unless it reads; `COMMIT` ends the transaction;
/// a DDL statement yields one DDL record exactly when DDL is reported and
/// its schema is selected; anything else yields nothing.
pub open spec fn query_outcome(
    s0: CdcEngine,
    s1: CdcEngine,
    h: EventHeader,
    b: Seq<u8>,
    r: Result<StreamStep, CdcError>,
) -> bool {
    if !query_layout_ok(b) {
        r is Err && r->Err_0 is BinlogParseError
    } else {
        let q = query_text(b);
        let db = query_db(b);
        let commit = starts_word(q, seq!['C', 'O', 'M', 'M', 'I', 'T']);
        let ddl = s0.config.include_ddl && is_ddl(q) && db_allowed(s0.config, db);
        &&& r is Ok && r->Ok_0 is Records
        &&& s1.table_maps == s0.table_maps
        &&& s1.checksum_enabled == s0.checksum_enabled
        &&& commit ==> r->Ok_0->Records_0@.len() == 0 && committed(s0, s1)
        &&& !commit ==> s1.current_gtid == s0.current_gtid && s1.offset.gtid_set == s0.offset.gtid_set
        &&& (!commit && !ddl) ==> r->Ok_0->Records_0@.len() == 0
        &&& (!commit && ddl) ==> {
            let v = r->Ok_0->Records_0@;
            &&& v.len() == 1
            &&& v[0].op == OperationType::Ddl
            &&& v[0].database@ == db
            &&& v[0].table@.len() == 0
            &&& v[0].query is Some && v[0].query->Some_0@ == q
            &&& v[0].before is None && v[0].after is None
            &&& v[0].timestamp == h.timestamp
            &&& opt_string(v[0].gtid) == opt_string(s0.current_gtid)
        }
    }
}

pub open spec fn is_row_event(t: EventType) -> bool {
    t == EventType::WriteRowsEvent || t == EventType::UpdateRowsEvent || t == EventType::DeleteRowsEvent
}

/// What handling the event bytes `ev` does, from engine `s0` to `s1` with
/// result `r`. Too short an event, and any refusal, leave the engine as it
/// was. Otherwise the event type decides the step, and every event but a
/// ROTATE moves the position to the header's `next_pos` when it is not 0.
pub open spec fn event_outcome(s0: CdcEngine, s1: CdcEngine, ev: Seq<u8>, r: Result<StreamStep, CdcError>) -> bool {
    let cs: int = if s0.checksum_enabled { 4 } else { 0 };
    if ev.len() < 19 + cs {
        r is Err && r->Err_0 is BinlogParseError && s1 == s0
    } else {
        let h = header_spec(ev);
        let b = body_of(ev, s0.checksum_enabled);
        let t = h.event_type;
        &&& r is Err ==> s1 == s0
        &&& keeps_settings(s0, s1)
        &&& r is Ok ==> !(r->Ok_0 is End)
        &&& t == EventType::TableMapEvent ==> table_map_outcome(s0, s1, b, r)
        &&& t == EventType::RotateEvent ==> rotate_outcome(s0, s1, b, r)
        &&& t == EventType::GtidEvent ==> gtid_outcome(s0, s1, b, r)
        &&& t == EventType::QueryEvent ==> query_outcome(s0, s1, h, b, r)
        &&& is_row_event(t) ==> rows_outcome(s0, h, b, r) && keeps_session(s0, s1)
        &&& t == EventType::XidEvent ==> no_records(r) && committed(s0, s1) && s1.table_maps
            == s0.table_maps && s1.checksum_enabled == s0.checksum_enabled
        &&& t == EventType::FormatDescriptionEvent ==> no_records(r) && s1.table_maps@.len() == 0
            && s1.checksum_enabled == (if ev.len() >= 24 {
            ev[ev.len() - 5] == 1
        } else {
            s0.checksum_enabled
        }) && s1.current_gtid == s0.current_gtid && s1.offset.gtid_set == s0.offset.gtid_set
        &&& (t != EventType::TableMapEvent && t != EventType::RotateEvent && t != EventType::GtidEvent
            && t != EventType::QueryEvent && !is_row_event(t) && t != EventType::XidEvent && t
            != EventType::FormatDescriptionEvent) ==> no_records(r) && keeps_session(s0, s1)
        &&& (r is Ok && t != EventType::RotateEvent && h.next_pos > 0) ==> (
        s1.offset.binlog_position.filename@ == s0.offset.binlog_position.filename@
            && s1.offset.binlog_position.position == h.next_pos as u64)
        &&& (r is Ok && t != EventType::RotateEvent && h.next_pos == 0) ==> s1.offset.binlog_position
            == s0.offset.binlog_position
    }
}

impl CdcEngine {
    pub open spec fn wf(&self) -> bool {
        &&& self.offset.gtid_set.wf()
        &&& forall|i: int| 0 <= i < self.table_maps@.len() ==> table_map_wf(#[trigger] self.table_maps@[i])
        &&& unique_ids(self.table_maps@)
        &&& self.gtid_filter_set matches Some(f) ==> f.wf()
    }

    /// A fresh engine: at the start of `mysql-bin.000001`, nothing cached.
    /// Its GTID filter text, when given, must read (see `try_new`).
    pub fn new(config: CdcConfig) -> (r: CdcEngine)
        requires
            config.gtid_filter matches Some(t) ==> parse_spec(t@) is Some,
        ensures
            fresh_engine(r, config),
    {
        let filter = match &config.gtid_filter {
            None => None,
            Some(t) => match GtidSet::parse(t.as_str()) {
                Ok(g) => Some(g),
                Err(_) => {
                    assert(false);
                    None
                },
            },
        };
        CdcEngine {
            config,
            offset: BinlogOffset::new("mysql-bin.000001".to_owned()),
            state: ProcessingState::Snapshotting,
            table_metadata: Vec::new(),
            table_maps: Vec::new(),
            current_gtid: None,
            checksum_enabled: false,
            gtid_filter_set: filter,
        }
    }

    /// A fresh engine, or a `GtidError` when the GTID filter text does not
    /// read.
    pub fn try_new(config: CdcConfig) -> (r: Result<CdcEngine, CdcError>)
        ensures
            match config.gtid_filter {
                Some(t) => parse_spec(t@) is None <==> r is Err,
                None => r is Ok,
            },
            r is Err ==> r->Err_0 is GtidError,
            r is Ok ==> fresh_engine(r->Ok_0, config),
    {
        let filter = match &config.gtid_filter {
            None => None,
            Some(t) => match GtidSet::parse(t.as_str()) {
                Ok(g) => Some(g),
                Err(e) => {
                    return Err(e);
                },
            },
        };
        Ok(CdcEngine {
            config,
            offset: BinlogOffset::new("mysql-bin.000001".to_owned()),
            state: ProcessingState::Snapshotting,
            table_metadata: Vec::new(),
            table_maps: Vec::new(),
            current_gtid: None,
            checksum_enabled: false,
            gtid_filter_set: filter,
        })
    }

    pub fn get_offset(&self) -> (r: &BinlogOffset)
        ensures
            *r == self.offset,
    {
        &self.offset
    }

    /// Persisting offsets is left to the consumer; nothing is written here.
    pub fn save_offset(&mut self) -> (r: Result<(), CdcError>)
        ensures
            r is Ok,
            *final(self) == *old(self),
    {
        Ok(())
    }

    pub fn get_state(&self) -> (r: ProcessingState)
        ensures
            r == self.state,
    {
        self.state
    }

    /// Records whether the server appends a checksum to each event.
    pub fn set_checksum_enabled(&mut self, on: bool)
        ensures
            final(self).checksum_enabled == on,
            final(self).offset == old(self).offset,
            final(self).table_maps == old(self).table_maps,
            final(self).state == old(self).state,
            final(self).config == old(self).config,
            final(self).current_gtid == old(self).current_gtid,
            final(self).table_metadata == old(self).table_metadata,
    {
        self.checksum_enabled = on;
    }

    /// Starts streaming from what the server reported: its current file,
    /// position and executed GTIDs.
    pub fn begin_streaming(&mut self, status: BinlogStatus)
        requires
            old(self).wf(),
            status.executed_gtid_set.wf(),
        ensures
            final(self).wf(),
            final(self).offset.binlog_position.filename == status.file,
            final(self).offset.binlog_position.position == status.position,
            final(self).offset.gtid_set == status.executed_gtid_set,
            final(self).state == ProcessingState::Streaming,
    {
        self.offset.update_position(status.file, status.position);
        self.offset.gtid_set = status.executed_gtid_set;
        self.state = ProcessingState::Streaming;
    }

    /// Ends the session: no table map survives it.
    pub fn stop(&mut self)
        requires
            old(self).wf(),
        ensures
            final(self).wf(),
            final(self).state == ProcessingState::Stopped,
            final(self).table_maps@.len() == 0,
            final(self).current_gtid is None,
            final(self).offset == old(self).offset,
    {
        self.table_maps = Vec::new();
        self.current_gtid = None;
        self.state = ProcessingState::Stopped;
    }

    /// Whether changes of `database.table` are emitted.
    pub fn table_selected(&self, database: &str, table: &str) -> (r: bool)
        ensures
            r == table_allowed(self.config, database@, table@),
    {
        let db = chars_of(database);
        if self.config.databases.len() > 0 && !text_list_contains(&self.config.databases, &db) {
            return false;
        }
        match &self.config.tables {
            None => true,
            Some(ts) => {
                let mut q = db;
                q.push('.');
                let t = chars_of(table);
                let mut i: usize = 0;
                let ghost head = q@;
                while i < t.len()
                    invariant
                        i <= t@.len(),
                        q@ == head + t@.subrange(0, i as int),
                    decreases t@.len() - i,
                {
                    q.push(t[i]);
                    i = i + 1;
                    assert(q@ =~= head + t@.subrange(0, i as int));
                }
                assert(q@ =~= database@ + seq!['.'] + table@);
                text_list_contains(ts, &q)
            },
        }
    }

    /// Keeps the columns of `database.table` when the table is selected;
    /// returns whether it was kept.
    pub fn add_table_metadata(&mut self, database: &str, table: &str, columns: &Vec<ColumnInfo>) -> (r: bool)
        requires
            old(self).wf(),
        ensures
            final(self).wf(),
            r == table_allowed(old(self).config, database@, table@),
            r ==> {
                let m = final(self).table_metadata@.last();
                &&& final(self).table_metadata@.len() == old(self).table_metadata@.len() + 1
                &&& final(self).table_metadata@.drop_last() == old(self).table_metadata@
                &&& m.database@ == database@
                &&& m.table@ == table@
                &&& views(m.columns@) == column_names_of(columns@)
                &&& views(m.column_types@) == column_types_of(columns@)
                &&& views(m.primary_key@) == key_names(columns@)
            },
            !r ==> final(self).table_metadata@ == old(self).table_metadata@,
            final(self).offset == old(self).offset,
            final(self).table_maps == old(self).table_maps,
            final(self).config == old(self).config,
    {
        if !self.table_selected(database, table) {
            return false;
        }
        let mut names: Vec<String> = Vec::new();
        let mut types: Vec<String> = Vec::new();
        let mut keys: Vec<String> = Vec::new();
        let mut i: usize = 0;
        while i < columns.len()
            invariant
                i <= columns@.len(),
                names@.len() == i,
                types@.len() == i,
                forall|k: int| 0 <= k < i ==> (#[trigger] names@[k])@ == columns@[k].name@,
                forall|k: int| 0 <= k < i ==> (#[trigger] types@[k])@ == columns@[k].column_type@,
                views(keys@) == key_names(columns@.subrange(0, i as int)),
            decreases columns@.len() - i,
        {
            let ghost pre = columns@.subrange(0, i as int);
            let ghost nxt = columns@.subrange(0, i + 1);
            assert(nxt.drop_last() =~= pre);
            names.push(copy_string(&columns[i].name));
            types.push(copy_string(&columns[i].column_type));
            if columns[i].is_key {
                keys.push(copy_string(&columns[i].name));
            }
            assert(views(keys@) =~= key_names(nxt));
            i = i + 1;
        }
        assert(columns@.subrange(0, columns@.len() as int) =~= columns@);
        assert(views(names@) =~= column_names_of(columns@));
        assert(views(types@) =~= column_types_of(columns@));
        self.table_metadata.push(
            TableMetadata {
                database: database.to_owned(),
                table: table.to_owned(),
                columns: names,
                column_types: types,
                primary_key: keys,
            },
        );
        assert(self.table_metadata@.drop_last() =~= old(self).table_metadata@);
        true
    }

    /// Column names for a table map: the catalog's when it lists as many
    /// columns, else `@1`, `@2`, ...
    fn column_names(&self, tm: &TableMapData) -> (r: Vec<String>)
        ensures
            views(r@) == names_for(self.table_metadata@, tm.database@, tm.table@, tm.column_types@.len()),
            r@.len() == tm.column_types@.len(),
    {
        let n = tm.column_types.len();
        let db = chars_of(tm.database.as_str());
        let tb = chars_of(tm.table.as_str());
        let ghost meta = self.table_metadata@;
        let mut k: usize = 0;
        while k < self.table_metadata.len()
            invariant
                k <= meta.len(),
                meta == self.table_metadata@,
                n == tm.column_types@.len(),
                db@ == tm.database@,
                tb@ == tm.table@,
                forall|j: int| 0 <= j < k ==> !meta_matches(#[trigger] meta[j], db@, tb@, n as nat),
            decreases meta.len() - k,
        {
            let m = &self.table_metadata[k];
            let md = chars_of(m.database.as_str());
            let mt = chars_of(m.table.as_str());
            if compare_text(&md, &db) == 0 && compare_text(&mt, &tb) == 0 && m.columns.len() == n {
                proof {
                    let c = choose|c: int|
                        0 <= c < meta.len() && meta_matches(meta[c], db@, tb@, n as nat) && forall|j: int|
                            0 <= j < c ==> !meta_matches(meta[j], db@, tb@, n as nat);
                    assert(c == k) by {
                        if c > k {
                            assert(meta_matches(meta[k as int], db@, tb@, n as nat));
                        }
                    }
                }
                let mut out: Vec<String> = Vec::new();
                let mut i: usize = 0;
                while i < n
                    invariant
                        i <= n,
                        n == m.columns@.len(),
                        n == tm.column_types@.len(),
                        out@.len() == i,
                        forall|j: int| 0 <= j < i ==> (#[trigger] out@[j])@ == m.columns@[j]@,
                    decreases n - i,
                {
                    out.push(copy_string(&m.columns[i]));
                    i = i + 1;
                }
                assert(views(out@) =~= views(m.columns@));
                return out;
            }
            k = k + 1;
        }
        let mut out: Vec<String> = Vec::new();
        let mut i: usize = 0;
        while i < n
            invariant
                i <= n,
                out@.len() == i,
                forall|j: int| 0 <= j < i ==> (#[trigger] out@[j])@ == positional_name(j),
            decreases n - i,
        {
            let mut name: Vec<char> = Vec::new();
            name.push('@');
            let d = u64_digits(i as u64 + 1);
            let mut j: usize = 0;
            while j < d.len()
                invariant
                    j <= d@.len(),
                    name@ == seq!['@'] + d@.subrange(0, j as int),
                decreases d@.len() - j,
            {
                name.push(d[j]);
                j = j + 1;
                assert(name@ =~= seq!['@'] + d@.subrange(0, j as int));
            }
            assert(d@.subrange(0, d@.len() as int) =~= d@);
            out.push(string_from_chars(&name));
            i = i + 1;
        }
        assert(views(out@) =~= Seq::new(n as nat, |i: int| positional_name(i)));
        out
    }

    /// Index of the cached table map for `id`.
    fn find_map(&self, id: u64) -> (r: Option<usize>)
        requires
            unique_ids(self.table_maps@),
        ensures
            r matches Some(i) ==> i < self.table_maps@.len() && self.table_maps@[i as int].table_id
                == id && i == map_index(self.table_maps@, id),
            r is None ==> !has_map(self.table_maps@, id),
    {
        let mut i: usize = 0;
        while i < self.table_maps.len()
            invariant
                i <= self.table_maps@.len(),
                unique_ids(self.table_maps@),
                forall|k: int| 0 <= k < i ==> (#[trigger] self.table_maps@[k]).table_id != id,
            decreases self.table_maps@.len() - i,
        {
            if self.table_maps[i].table_id == id {
                proof {
                    let c = map_index(self.table_maps@, id);
                    assert(self.table_maps@[i as int].table_id == id);
                    assert(c == i) by {
                        if c != i {
                            assert(self.table_maps@[c].table_id != self.table_maps@[i as int].table_id);
                        }
                    }
                }
                return Some(i);
            }
            i = i + 1;
        }
        None
    }

    /// Caches a table map, replacing the one for the same id.
    fn put_map(&mut self, tm: TableMapData)
        requires
            old(self).wf(),
            table_map_wf(tm),
        ensures
            final(self).wf(),
            final(self).table_maps@ == without_id(old(self).table_maps@, tm.table_id).push(tm),
            final(self).offset == old(self).offset,
            final(self).current_gtid == old(self).current_gtid,
            final(self).config == old(self).config,
            final(self).table_metadata == old(self).table_metadata,
            final(self).state == old(self).state,
            final(self).checksum_enabled == old(self).checksum_enabled,
            final(self).gtid_filter_set == old(self).gtid_filter_set,
    {
        let ghost id = tm.table_id;
        let ghost old_maps = self.table_maps@;
        match self.find_map(tm.table_id) {
            Some(i) => {
                self.table_maps.remove(i);
                assert(self.table_maps@ == without_id(old_maps, id));
            },
            None => {},
        }
        let ghost rest = self.table_maps@;
        assert(rest == without_id(old_maps, id));
        assert(forall|k: int| 0 <= k < rest.len() ==> (#[trigger] rest[k]).table_id != id) by {
            if has_map(old_maps, id) {
                let c = map_index(old_maps, id);
                assert forall|k: int| 0 <= k < rest.len() implies (#[trigger] rest[k]).table_id != id by {
                    if k < c {
                        assert(rest[k] == old_maps[k]);
                    } else {
                        assert(rest[k] == old_maps[k + 1]);
                    }
                }
            }
        }
        assert(forall|k: int| 0 <= k < rest.len() ==> table_map_wf(#[trigger] rest[k])) by {
            if has_map(old_maps, id) {
                let c = map_index(old_maps, id);
                assert forall|k: int| 0 <= k < rest.len() implies table_map_wf(#[trigger] rest[k]) by {
                    if k < c {
                        assert(rest[k] == old_maps[k]);
                    } else {
                        assert(rest[k] == old_maps[k + 1]);
                    }
                }
            }
        }
        assert(unique_ids(rest)) by {
            if has_map(old_maps, id) {
                let c = map_index(old_maps, id);
                assert forall|a: int, b: int|
                    0 <= a < rest.len() && 0 <= b < rest.len() && a != b implies (#[trigger] rest[a]).table_id
                    != (#[trigger] rest[b]).table_id by {
                    let a2 = if a < c { a } else { a + 1 };
                    let b2 = if b < c { b } else { b + 1 };
                    assert(rest[a] == old_maps[a2]);
                    assert(rest[b] == old_maps[b2]);
                }
            }
        }
        self.table_maps.push(tm);
        assert(unique_ids(self.table_maps@)) by {
            let s = self.table_maps@;
            assert forall|a: int, b: int|
                0 <= a < s.len() && 0 <= b < s.len() && a != b implies (#[trigger] s[a]).table_id
                != (#[trigger] s[b]).table_id by {
                if a < rest.len() && b < rest.len() {
                    assert(s[a] == rest[a] && s[b] == rest[b]);
                } else if a < rest.len() {
                    assert(s[a] == rest[a]);
                } else if b < rest.len() {
                    assert(s[b] == rest[b]);
                }
            }
        }
        assert(forall|k: int| 0 <= k < self.table_maps@.len() ==> table_map_wf(#[trigger] self.table_maps@[k])) by {
            assert forall|k: int| 0 <= k < self.table_maps@.len() implies table_map_wf(#[trigger] self.table_maps@[k]) by {
                if k < rest.len() {
                    assert(self.table_maps@[k] == rest[k]);
                }
            }
        }
    }

    /// Folds the GTID of the finished transaction into the offset.
    fn commit_gtid(&mut self)
        requires
            old(self).wf(),
        ensures
            final(self).wf(),
            committed(*old(self), *final(self)),
            final(self).offset.binlog_position == old(self).offset.binlog_position,
            final(self).table_maps == old(self).table_maps,
            final(self).config == old(self).config,
            final(self).table_metadata == old(self).table_metadata,
            final(self).state == old(self).state,
            final(self).checksum_enabled == old(self).checksum_enabled,
            final(self).gtid_filter_set == old(self).gtid_filter_set,
    {
        let g = self.current_gtid.take();
        match g {
            Some(s) => {
                let _ = self.offset.gtid_set.add_gtid(s.as_str());
            },
            None => {},
        }
    }

    fn on_table_map(&mut self, b: &Vec<u8>) -> (r: Result<StreamStep, CdcError>)
        requires
            old(self).wf(),
        ensures
            final(self).wf(),
            table_map_outcome(*old(self), *final(self), b@, r),
            r is Err ==> *final(self) == *old(self),
            keeps_settings(*old(self), *final(self)),
            final(self).offset == old(self).offset,
    {
        match BinlogParser::parse_table_map_event(b.as_slice()) {
            Err(e) => Err(e),
            Ok(tm) => {
                let ghost t = tm;
                self.put_map(tm);
                assert(self.table_maps@.drop_last() =~= without_id(old(self).table_maps@, t.table_id));
                Ok(StreamStep::Records(Vec::new()))
            },
        }
    }

    fn on_rotate(&mut self, b: &Vec<u8>) -> (r: Result<StreamStep, CdcError>)
        requires
            old(self).wf(),
        ensures
            final(self).wf(),
            rotate_outcome(*old(self), *final(self), b@, r),
            r is Err ==> *final(self) == *old(self),
            keeps_settings(*old(self), *final(self)),
    {
        match BinlogParser::parse_rotate_event(b.as_slice()) {
            Err(e) => Err(e),
            Ok(rot) => {
                let cur = chars_of(self.offset.binlog_position.filename.as_str());
                let next = chars_of(rot.next_binlog_name.as_str());
                if compare_text(&cur, &next) != 0 {
                    self.table_maps = Vec::new();
                }
                let name = copy_string(&rot.next_binlog_name);
                self.offset.update_position(rot.next_binlog_name, rot.position);
                Ok(StreamStep::Rotated(name, rot.position))
            },
        }
    }

    fn on_gtid(&mut self, b: &Vec<u8>) -> (r: Result<StreamStep, CdcError>)
        requires
            old(self).wf(),
        ensures
            final(self).wf(),
            gtid_outcome(*old(self), *final(self), b@, r),
            r is Err ==> *final(self) == *old(self),
            keeps_settings(*old(self), *final(self)),
            final(self).offset == old(self).offset,
    {
        match BinlogParser::parse_gtid_event(b.as_slice()) {
            Err(e) => Err(e),
            Ok(g) => {
                self.current_gtid = Some(g.gtid);
                Ok(StreamStep::Records(Vec::new()))
            },
        }
    }

    fn on_query(&mut self, h: &EventHeader, b: &Vec<u8>) -> (r: Result<StreamStep, CdcError>)
        requires
            old(self).wf(),
        ensures
            final(self).wf(),
            query_outcome(*old(self), *final(self), *h, b@, r),
            r is Err ==> *final(self) == *old(self),
            keeps_settings(*old(self), *final(self)),
            final(self).offset.binlog_position == old(self).offset.binlog_position,
    {
        let q = match BinlogParser::parse_query_event(b.as_slice()) {
            Err(e) => {
                return Err(e);
            },
            Ok(q) => q,
        };
        let qc = chars_of(q.query.as_str());
        let mut records: Vec<ChangeEvent> = Vec::new();
        if is_commit_exec(&qc) {
            self.commit_gtid();
        } else {
            match self.query_to_change_event(&q, h.timestamp) {
                Some(e) => records.push(e),
                None => {},
            }
        }
        Ok(StreamStep::Records(records))
    }

    fn gtid_passes_exec(&self) -> (r: bool)
        requires
            self.wf(),
        ensures
            r == gtid_passes(*self),
    {
        match &self.gtid_filter_set {
            None => true,
            Some(f) => match &self.current_gtid {
                None => false,
                Some(g) => f.contains(g.as_str()),
            },
        }
    }

    fn on_rows(&self, h: &EventHeader, b: &Vec<u8>) -> (r: Result<StreamStep, CdcError>)
        requires
            self.wf(),
            is_row_event(h.event_type),
        ensures
            rows_outcome(*self, *h, b@, r),
    {
        if b.len() < 8 {
            return Err(CdcError::BinlogParseError("row event truncated".to_owned()));
        }
        let id = crate::wire::read_u48_le(b.as_slice(), 0);
        let i = match self.find_map(id) {
            Some(i) => i,
            None => {
                return Err(CdcError::ProtocolError("row event without preceding table map".to_owned()));
            },
        };
        let tm = &self.table_maps[i];
        assert(table_map_wf(*tm));
        let selected = self.table_selected(tm.database.as_str(), tm.table.as_str()) && self.gtid_passes_exec();
        let names = self.column_names(tm);
        let code = h.event_type.code();
        if h.event_type == EventType::UpdateRowsEvent {
            match BinlogParser::parse_update_rows_event(b.as_slice(), tm) {
                Err(_) => Ok(StreamStep::DecodeSkipped(id, code, "row body does not decode".to_owned())),
                Ok(u) => {
                    if !selected {
                        return Ok(StreamStep::Records(Vec::new()));
                    }
                    let ghost pairs = u.rows@;
                    proof {
                        assert forall|k: int| 0 <= k < pairs.len() implies (#[trigger] pairs[k]).0@.len()
                            == names@.len() && pairs[k].1@.len() == names@.len() by {
                            let (c0, pp, bl) = rows_header(b@, *tm)->Some_0;
                            let present = b@.subrange(pp, pp + bl);
                            let changed = b@.subrange(pp + bl, pp + 2 * bl);
                            let q = records_at(b@, *tm, present, Some(changed), pp + 2 * bl, k as nat)->Some_0;
                            let given = choose|given: Seq<CellValue>|
                                row_is(given, b@, *tm, changed, row_end(b@, *tm, present, q)->Some_0)
                                    && pairs[k].1@.len() == given.len() && forall|c: int|
                                    0 <= c < given.len() ==> filled_is(
                                        #[trigger] pairs[k].1@[c],
                                        pairs[k].0@[c],
                                        given[c],
                                        bit(changed, c),
                                    );
                        }
                    }
                    let v = update_records(&tm.database, &tm.table, &names, &u.rows, h.timestamp, &self.current_gtid);
                    Ok(StreamStep::Records(v))
                },
            }
        } else {
            let res = if h.event_type == EventType::WriteRowsEvent {
                match BinlogParser::parse_write_rows_event(b.as_slice(), tm) {
                    Err(e) => Err(e),
                    Ok(w) => Ok(w.rows),
                }
            } else {
                match BinlogParser::parse_delete_rows_event(b.as_slice(), tm) {
                    Err(e) => Err(e),
                    Ok(d) => Ok(d.rows),
                }
            };
            match res {
                Err(_) => Ok(StreamStep::DecodeSkipped(id, code, "row body does not decode".to_owned())),
                Ok(rows) => {
                    if !selected {
                        return Ok(StreamStep::Records(Vec::new()));
                    }
                    let ghost rv = rows@;
                    proof {
                        assert forall|k: int| 0 <= k < rv.len() implies (#[trigger] rv[k])@.len()
                            == names@.len() by {
                            let (c0, pp, bl) = rows_header(b@, *tm)->Some_0;
                            assert(row_is(rv[k]@, b@, *tm, b@.subrange(pp, pp + bl),
                                records_at(b@, *tm, b@.subrange(pp, pp + bl), None, pp + bl, k as nat)->Some_0));
                        }
                    }
                    let op = if h.event_type == EventType::WriteRowsEvent {
                        OperationType::Insert
                    } else {
                        OperationType::Delete
                    };
                    let v = single_image_records(op, &tm.database, &tm.table, &names, &rows, h.timestamp, &self.current_gtid);
                    Ok(StreamStep::Records(v))
                },
            }
        }
    }

    /// One INSERT record per row of a WRITE_ROWS event, the columns named
    /// by the catalog entry `table`, under the open transaction's GTID.
    pub fn write_rows_to_change_event(
        &self,
        data: &WriteRowsData,
        table: &TableMetadata,
        timestamp: u32,
    ) -> (r: Vec<ChangeEvent>)
        requires
            forall|i: int| 0 <= i < data.rows@.len() ==> (#[trigger] data.rows@[i])@.len() == table.columns@.len(),
        ensures
            single_records_are(
                r@,
                OperationType::Insert,
                data.rows@,
                views(table.columns@),
                table.database@,
                table.table@,
                timestamp,
                opt_string(self.current_gtid),
            ),
    {
        single_image_records(
            OperationType::Insert,
            &table.database,
            &table.table,
            &table.columns,
            &data.rows,
            timestamp,
            &self.current_gtid,
        )
    }

    /// One DELETE record per row of a DELETE_ROWS event.
    pub fn delete_rows_to_change_event(
        &self,
        data: &DeleteRowsData,
        table: &TableMetadata,
        timestamp: u32,
    ) -> (r: Vec<ChangeEvent>)
        requires
            forall|i: int| 0 <= i < data.rows@.len() ==> (#[trigger] data.rows@[i])@.len() == table.columns@.len(),
        ensures
            single_records_are(
                r@,
                OperationType::Delete,
                data.rows@,
                views(table.columns@),
                table.database@,
                table.table@,
                timestamp,
                opt_string(self.current_gtid),
            ),
    {
        single_image_records(
            OperationType::Delete,
            &table.database,
            &table.table,
            &table.columns,
            &data.rows,
            timestamp,
            &self.current_gtid,
        )
    }

    /// One UPDATE record per pair of an UPDATE_ROWS event whose images
    /// differ; a pair with equal images gives none.
    pub fn update_rows_to_change_event(
        &self,
        data: &UpdateRowsData,
        table: &TableMetadata,
        timestamp: u32,
    ) -> (r: Vec<ChangeEvent>)
        requires
            forall|i: int|
                0 <= i < data.rows@.len() ==> (#[trigger] data.rows@[i]).0@.len() == table.columns@.len()
                    && data.rows@[i].1@.len() == table.columns@.len(),
        ensures
            update_records_are(
                r@,
                data.rows@,
                views(table.columns@),
                table.database@,
                table.table@,
                timestamp,
                opt_string(self.current_gtid),
            ),
    {
        update_records(&table.database, &table.table, &table.columns, &data.rows, timestamp, &self.current_gtid)
    }

    /// The DDL record of a QUERY event: one exactly when DDL is reported,
    /// the statement starts with a DDL word and its schema is selected.
    pub fn query_to_change_event(&self, data: &QueryEventData, timestamp: u32) -> (r: Option<ChangeEvent>)
        ensures
            r is Some <==> (self.config.include_ddl && is_ddl(data.query@) && db_allowed(
                self.config,
                data.database@,
            )),
            r matches Some(e) ==> {
                &&& e.op == OperationType::Ddl
                &&& e.database@ == data.database@
                &&& e.table@.len() == 0
                &&& e.query is Some && e.query->Some_0@ == data.query@
                &&& e.before is None && e.after is None
                &&& e.timestamp == timestamp
                &&& opt_string(e.gtid) == opt_string(self.current_gtid)
            },
    {
        let qc = chars_of(data.query.as_str());
        if !(self.config.include_ddl && is_ddl_exec(&qc)) {
            return None;
        }
        let dbc = chars_of(data.database.as_str());
        if self.config.databases.len() == 0 || text_list_contains(&self.config.databases, &dbc) {
            Some(
                ChangeEvent {
                    gtid: copy_opt_string(&self.current_gtid),
                    op: OperationType::Ddl,
                    timestamp,
                    database: copy_string(&data.database),
                    table: String::new(),
                    before: None,
                    after: None,
                    query: Some(copy_string(&data.query)),
                },
            )
        } else {
            None
        }
    }

    /// Handles the bytes of one binlog event (header, body, and a checksum
    /// when events carry one).
    pub fn handle_event(&mut self, ev: &[u8]) -> (r: Result<StreamStep, CdcError>)
        requires
            old(self).wf(),
        ensures
            final(self).wf(),
            event_outcome(*old(self), *final(self), ev@, r),
    {
        let cs: usize = if self.checksum_enabled { 4 } else { 0 };
        if ev.len() < 19 + cs {
            return Err(CdcError::BinlogParseError("event shorter than its header".to_owned()));
        }
        let (h, _) = match BinlogParser::parse_header(ev) {
            Ok(x) => x,
            Err(e) => {
                return Err(e);
            },
        };
        let body = copy_bytes(ev, 19, ev.len() - cs);
        let step = match h.event_type {
            EventType::TableMapEvent => self.on_table_map(&body),
            EventType::RotateEvent => {
                return self.on_rotate(&body);
            },
            EventType::FormatDescriptionEvent => {
                self.table_maps = Vec::new();
                if ev.len() >= 24 {
                    self.checksum_enabled = ev[ev.len() - 5] == 1;
                }
                Ok(StreamStep::Records(Vec::new()))
            },
            EventType::GtidEvent => self.on_gtid(&body),
            EventType::XidEvent => {
                self.commit_gtid();
                Ok(StreamStep::Records(Vec::new()))
            },
            EventType::QueryEvent => self.on_query(&h, &body),
            EventType::WriteRowsEvent | EventType::UpdateRowsEvent | EventType::DeleteRowsEvent => {
                self.on_rows(&h, &body)
            },
            _ => Ok(StreamStep::Records(Vec::new())),
        };
        match step {
            Err(e) => Err(e),
            Ok(s) => {
                if h.next_pos > 0 {
                    let file = copy_string(&self.offset.binlog_position.filename);
                    self.offset.update_position(file, h.next_pos as u64);
                }
                Ok(s)
            },
        }
    }

    /// Handles one packet of the replication stream: `00` and an event,
    /// `FE` (short) for the end of the stream, or `FF` and a server error.
    pub fn handle_packet(&mut self, packet: &[u8]) -> (r: Result<StreamStep, CdcError>)
        requires
            old(self).wf(),
        ensures
            final(self).wf(),
            packet@.len() == 0 ==> r is Err && r->Err_0 is ProtocolError,
            packet@.len() > 0 && packet@[0] == 0 ==> event_outcome(
                *old(self),
                *final(self),
                packet@.subrange(1, packet@.len() as int),
                r,
            ),
            packet@.len() > 0 && packet@[0] == 0xFF ==> r is Err && r->Err_0 is ServerError,
            (packet@.len() >= 9 && packet@[0] == 0xFF) ==> (r matches Err(
                CdcError::ServerError { code, sql_state, message },
            ) && code == crate::wire::u16_le(packet@, 1) && sql_state@ == lossy_text(
                packet@.subrange(4, 9),
            ) && message@ == lossy_text(packet@.subrange(9, packet@.len() as int))),
            packet@.len() > 0 && packet@[0] == 0xFE && packet@.len() < 9 ==> r is Ok && r->Ok_0 is End,
            packet@.len() > 0 && packet@[0] != 0 && packet@[0] != 0xFF && !(packet@[0] == 0xFE
                && packet@.len() < 9) ==> r is Err && r->Err_0 is ProtocolError,
            !(packet@.len() > 0 && packet@[0] == 0) ==> *final(self) == *old(self),
    {
        if packet.len() == 0 {
            return Err(CdcError::ProtocolError("empty packet in the stream".to_owned()));
        }
        if packet[0] == 0xFF {
            return match crate::protocol::parse_error_packet(packet) {
                Some(e) => Err(
                    CdcError::ServerError { code: e.code, sql_state: e.sql_state, message: e.message },
                ),
                None => Err(
                    CdcError::ServerError {
                        code: 0,
                        sql_state: String::new(),
                        message: "malformed error packet".to_owned(),
                    },
                ),
            };
        }
        if packet[0] == 0xFE && packet.len() < 9 {
            return Ok(StreamStep::End);
        }
        if packet[0] != 0 {
            return Err(CdcError::ProtocolError("unexpected packet in the stream".to_owned()));
        }
        let ev = copy_bytes(packet, 1, packet.len());
        self.handle_event(ev.as_slice())
    }
}

/// The offset never lags a delivered record: after an event that delivers
/// records, the position is at least the event's own (its file and the
/// header's `next_pos`).
pub proof fn lemma_offset_covers_records(
    s0: CdcEngine,
    s1: CdcEngine,
    ev: Seq<u8>,
    r: Result<StreamStep, CdcError>,
)
    requires
        event_outcome(s0, s1, ev, r),
        ev.len() >= 19 + if s0.checksum_enabled { 4int } else { 0int },
        r is Ok,
        r->Ok_0 is Records,
        r->Ok_0->Records_0@.len() > 0,
        header_spec(ev).next_pos > 0,
    ensures
        crate::offset::position_le(
            (s0.offset.binlog_position.filename@, header_spec(ev).next_pos as u64),
            s1.offset.binlog_position.view(),
        ),
{
}

/// A row event is decoded only with a table map cached earlier in the
/// session: without one it is refused as a protocol error and changes
/// nothing; and only a TABLE_MAP event puts a map into the cache.
pub proof fn lemma_row_events_need_table_maps(
    s0: CdcEngine,
    s1: CdcEngine,
    ev: Seq<u8>,
    r: Result<StreamStep, CdcError>,
)
    requires
        event_outcome(s0, s1, ev, r),
        ev.len() >= 19 + if s0.checksum_enabled { 4int } else { 0int },
    ensures
        (is_row_event(header_spec(ev).event_type) && body_of(ev, s0.checksum_enabled).len() >= 8
            && !has_map(s0.table_maps@, u48_le(body_of(ev, s0.checksum_enabled), 0))) ==> (r is Err
            && r->Err_0 is ProtocolError && s1 == s0),
        header_spec(ev).event_type != EventType::TableMapEvent ==> forall|id: u64|
            #[trigger] has_map(s1.table_maps@, id) ==> has_map(s0.table_maps@, id),
{
    if header_spec(ev).event_type != EventType::TableMapEvent {
        assert forall|id: u64| #[trigger] has_map(s1.table_maps@, id) implies has_map(s0.table_maps@, id) by {
            if s1.table_maps@.len() > 0 && s1.table_maps == s0.table_maps {
            }
        }
    }
}

/// After a ROTATE whose body reads, the offset is the named file and
/// position, and a control record reports it.
pub proof fn lemma_rotate_sets_offset(
    s0: CdcEngine,
    s1: CdcEngine,
    ev: Seq<u8>,
    r: Result<StreamStep, CdcError>,
)
    requires
        event_outcome(s0, s1, ev, r),
        ev.len() >= 19 + if s0.checksum_enabled { 4int } else { 0int },
        header_spec(ev).event_type == EventType::RotateEvent,
        body_of(ev, s0.checksum_enabled).len() >= 8,
    ensures
        ({
            let b = body_of(ev, s0.checksum_enabled);
            &&& r is Ok && r->Ok_0 is Rotated
            &&& s1.offset.binlog_position.filename@ == lossy_text(b.subrange(8, b.len() as int))
            &&& s1.offset.binlog_position.position == crate::wire::u64_le(b, 0)
        }),
{
}

/// Checks the server's `binlog_format`: only `ROW` carries row images.
pub fn check_binlog_format(format: &str) -> (r: Result<(), CdcError>)
    ensures
        r is Ok <==> format@ == "ROW"@,
        r is Err ==> r->Err_0 is ServerConfig,
{
    let f = chars_of(format);
    proof {
        reveal_strlit("ROW");
    }
    if f.len() == 3 && f[0] == 'R' && f[1] == 'O' && f[2] == 'W' {
        assert(format@ =~= "ROW"@);
        Ok(())
    } else {
        Err(CdcError::ServerConfig("binlog_format must be ROW".to_owned()))
    }
}

} // verus!
