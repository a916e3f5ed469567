//! Verified core of a MySQL binlog change-data-capture client: packet framing,
//! handshake and authentication, binlog event decoding, GTID sets and offsets,
//! and the replication session logic that turns row events into change records.

pub mod error;
pub mod protocol;
pub mod wire;
pub mod text;
pub mod gtid;
pub mod gtid_text;
pub mod events;
pub mod offset;
pub mod binlog;
pub mod rowcodec;
pub mod rowevents;
pub mod capabilities;
pub mod auth;
pub mod connection;
pub mod cdc_engine;
pub mod session;
pub mod dump_gtid;

pub use cdc_engine::CdcEngine;
pub use error::{CdcError, Result};
pub use events::{BinlogEvent, ChangeEvent, EventType};
pub use gtid::GtidSet;
pub use offset::SourceInfo;
