//! Binlog event records and the change records built from them.

use vstd::prelude::*;

verus! {

/// Binlog event type, read from the header's type byte.
#[derive(Debug, Clone, Copy, PartialEq, Eq, Hash, Structural)]
pub enum EventType {
    /// A type byte this client does not decode, kept as read.
    Unknown(u8),
    RotateEvent,
    QueryEvent,
    TableMapEvent,
    WriteRowsEvent,
    UpdateRowsEvent,
    DeleteRowsEvent,
    GtidEvent,
    AnonymousGtidEvent,
    RowsQueryEvent,
    TransactionPayloadEvent,
    FormatDescriptionEvent,
    XidEvent,
}

pub open spec fn event_type_of(val: u8) -> EventType {
    if val == 4 {
        EventType::RotateEvent
    } else if val == 2 {
        EventType::QueryEvent
    } else if val == 19 {
        EventType::TableMapEvent
    } else if val == 30 {
        EventType::WriteRowsEvent
    } else if val == 31 {
        EventType::UpdateRowsEvent
    } else if val == 32 {
        EventType::DeleteRowsEvent
    } else if val == 33 {
        EventType::GtidEvent
    } else if val == 34 {
        EventType::AnonymousGtidEvent
    } else if val == 36 {
        EventType::RowsQueryEvent
    } else if val == 38 {
        EventType::TransactionPayloadEvent
    } else if val == 15 {
        EventType::FormatDescriptionEvent
    } else if val == 16 {
        EventType::XidEvent
    } else {
        EventType::Unknown(val)
    }
}

pub open spec fn event_code(t: EventType) -> u8 {
    match t {
        EventType::Unknown(v) => v,
        EventType::RotateEvent => 4,
        EventType::QueryEvent => 2,
        EventType::TableMapEvent => 19,
        EventType::WriteRowsEvent => 30,
        EventType::UpdateRowsEvent => 31,
        EventType::DeleteRowsEvent => 32,
        EventType::GtidEvent => 33,
        EventType::AnonymousGtidEvent => 34,
        EventType::RowsQueryEvent => 36,
        EventType::TransactionPayloadEvent => 38,
        EventType::FormatDescriptionEvent => 15,
        EventType::XidEvent => 16,
    }
}

/// A type as the decoder produces it: `Unknown` only for a byte that names
/// no known type.
pub open spec fn event_type_ok(t: EventType) -> bool {
    match t {
        EventType::Unknown(v) => event_type_of(v) == t,
        _ => true,
    }
}

/// Reading back the code of a type gives the type.
pub proof fn lemma_event_code_round_trip(t: EventType)
    requires
        event_type_ok(t),
    ensures
        event_type_of(event_code(t)) == t,
{
}

/// The type read from a byte writes back as that byte, and is well formed.
pub proof fn lemma_event_type_byte_kept(v: u8)
    ensures
        event_code(event_type_of(v)) == v,
        event_type_ok(event_type_of(v)),
{
}

impl EventType {
    pub fn from_u8(val: u8) -> (r: EventType)
        ensures
            r == event_type_of(val),
    {
        match val {
            4 => EventType::RotateEvent,
            2 => EventType::QueryEvent,
            19 => EventType::TableMapEvent,
            30 => EventType::WriteRowsEvent,
            31 => EventType::UpdateRowsEvent,
            32 => EventType::DeleteRowsEvent,
            33 => EventType::GtidEvent,
            34 => EventType::AnonymousGtidEvent,
            36 => EventType::RowsQueryEvent,
            38 => EventType::TransactionPayloadEvent,
            15 => EventType::FormatDescriptionEvent,
            16 => EventType::XidEvent,
            _ => EventType::Unknown(val),
        }
    }

    /// The type byte of this event type.
    pub fn code(&self) -> (r: u8)
        ensures
            r == event_code(*self),
    {
        match self {
            EventType::Unknown(v) => *v,
            EventType::RotateEvent => 4,
            EventType::QueryEvent => 2,
            EventType::TableMapEvent => 19,
            EventType::WriteRowsEvent => 30,
            EventType::UpdateRowsEvent => 31,
            EventType::DeleteRowsEvent => 32,
            EventType::GtidEvent => 33,
            EventType::AnonymousGtidEvent => 34,
            EventType::RowsQueryEvent => 36,
            EventType::TransactionPayloadEvent => 38,
            EventType::FormatDescriptionEvent => 15,
            EventType::XidEvent => 16,
        }
    }
}

/// The fixed 19-byte header of every binlog event.
#[derive(Debug, Clone, Copy, PartialEq, Eq, Structural)]
pub struct EventHeader {
    pub timestamp: u32,
    pub event_type: EventType,
    pub server_id: u32,
    pub event_length: u32,
    pub next_pos: u32,
    pub flags: u16,
}

/// A TABLE_MAP event: binds a session-scoped table id to a table layout.
#[derive(Debug, Clone)]
pub struct TableMapData {
    pub table_id: u64,
    pub database: String,
    pub table: String,
    pub column_types: Vec<u8>,
    /// Per-column metadata bytes, as many as the column's type carries.
    pub column_meta: Vec<Vec<u8>>,
    pub nullable_bitmap: Vec<u8>,
}

/// A calendar date and time of day with microseconds.
#[derive(Debug, Clone, Copy, PartialEq, Eq, Structural)]
pub struct DateTimeValue {
    pub year: u32,
    pub month: u32,
    pub day: u32,
    pub hour: u32,
    pub minute: u32,
    pub second: u32,
    pub micros: u32,
}

/// One typed column value of a row image.
#[derive(Debug, Clone)]
pub enum CellValue {
    Null,
    Int8(i8),
    Int16(i16),
    Int32(i32),
    Int64(i64),
    UInt8(u8),
    UInt16(u16),
    UInt32(u32),
    UInt64(u64),
    /// The IEEE-754 bits of a FLOAT column.
    Float(u32),
    /// The IEEE-754 bits of a DOUBLE column.
    Double(u64),
    String(String),
    Bytes(Vec<u8>),
    DateTime(DateTimeValue),
    Date(String),
    Time(String),
    Decimal(String),
    /// The server's binary JSON encoding.
    Json(Vec<u8>),
}

/// WRITE_ROWS event: the inserted row images.
#[derive(Debug, Clone)]
pub struct WriteRowsData {
    pub table_id: u64,
    pub flags: u16,
    pub column_count: u64,
    pub columns_present: Vec<u8>,
    pub rows: Vec<Vec<CellValue>>,
}

/// UPDATE_ROWS event: pairs of before and after images.
#[derive(Debug, Clone)]
pub struct UpdateRowsData {
    pub table_id: u64,
    pub flags: u16,
    pub column_count: u64,
    pub columns_present: Vec<u8>,
    pub columns_changed: Vec<u8>,
    pub rows: Vec<(Vec<CellValue>, Vec<CellValue>)>,
}

/// DELETE_ROWS event: the deleted row images.
#[derive(Debug, Clone)]
pub struct DeleteRowsData {
    pub table_id: u64,
    pub flags: u16,
    pub column_count: u64,
    pub columns_present: Vec<u8>,
    pub rows: Vec<Vec<CellValue>>,
}

/// GTID event: the GTID of the transaction that follows.
#[derive(Debug, Clone)]
pub struct GtidEventData {
    /// `uuid:sequence`.
    pub gtid: String,
    pub committed: bool,
}

/// QUERY event.
#[derive(Debug, Clone)]
pub struct QueryEventData {
    pub thread_id: u32,
    pub exec_time: u32,
    pub database: String,
    pub query: String,
}

/// ROTATE event: the next binlog file and the position to read it from.
#[derive(Debug, Clone)]
pub struct RotateEventData {
    pub next_binlog_name: String,
    pub position: u64,
}

/// The decoded body of a binlog event.
#[derive(Debug, Clone)]
pub enum BinlogEventData {
    TableMap(TableMapData),
    WriteRows(WriteRowsData),
    UpdateRows(UpdateRowsData),
    DeleteRows(DeleteRowsData),
    Query(QueryEventData),
    Rotate(RotateEventData),
    Gtid(GtidEventData),
    RowsQuery(String),
    Unknown(Vec<u8>),
}

/// A binlog event: header and decoded body.
#[derive(Debug, Clone)]
pub struct BinlogEvent {
    pub header: EventHeader,
    pub data: BinlogEventData,
}

/// Kind of change a change record reports.
#[derive(Debug, Clone, Copy, PartialEq, Eq, Structural)]
pub enum OperationType {
    Insert,
    Update,
    Delete,
    Ddl,
}

impl OperationType {
    pub fn as_str(&self) -> (r: &'static str)
        ensures
            *self == OperationType::Insert ==> r@ == "INSERT"@,
            *self == OperationType::Update ==> r@ == "UPDATE"@,
            *self == OperationType::Delete ==> r@ == "DELETE"@,
            *self == OperationType::Ddl ==> r@ == "DDL"@,
    {
        match self {
            OperationType::Insert => "INSERT",
            OperationType::Update => "UPDATE",
            OperationType::Delete => "DELETE",
            OperationType::Ddl => "DDL",
        }
    }
}

/// A row-level change (or a DDL statement) ready for consumers. Row images
/// are ordered column-name/value lists.
#[derive(Debug, Clone)]
pub struct ChangeEvent {
    pub gtid: Option<String>,
    pub op: OperationType,
    /// Seconds since the Unix epoch, from the event header.
    pub timestamp: u32,
    pub database: String,
    pub table: String,
    pub before: Option<Vec<(String, CellValue)>>,
    pub after: Option<Vec<(String, CellValue)>>,
    pub query: Option<String>,
}

} // verus!
