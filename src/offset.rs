//! Binlog positions and the restartable offset of a replication session.

use vstd::prelude::*;
use crate::gtid::GtidSet;
use crate::text::{chars_of, lemma_split_nonempty, parse_u64, parse_u64_spec, split_chars, split_spec};

verus! {

/// A position in the binlog: file name and byte offset in it.
#[derive(Debug, Clone, PartialEq, Eq)]
pub struct BinlogPosition {
    pub filename: String,
    pub position: u64,
}

/// Position order: by file name (the server numbers files with a fixed-width
/// suffix), then by offset.
pub open spec fn position_le(a: (Seq<char>, u64), b: (Seq<char>, u64)) -> bool {
    crate::text::text_lt(a.0, b.0) || (a.0 == b.0 && a.1 <= b.1)
}

impl BinlogPosition {
    pub open spec fn view(&self) -> (Seq<char>, u64) {
        (self.filename@, self.position)
    }

    pub fn new(filename: String, position: u64) -> (r: BinlogPosition)
        ensures
            r.filename == filename,
            r.position == position,
    {
        BinlogPosition { filename, position }
    }

    /// The number after the last `.` of the file name, if it reads as one.
    pub fn file_sequence(&self) -> (r: Option<u64>)
        ensures
            r == parse_u64_spec(split_spec(self.filename@, '.').last()),
    {
        let cs = chars_of(self.filename.as_str());
        let parts = split_chars(&cs, 0, cs.len(), '.');
        assert(cs@.subrange(0, cs@.len() as int) =~= cs@);
        proof {
            lemma_split_nonempty(cs@, '.');
        }
        let last = &parts[parts.len() - 1];
        parse_u64(last.as_slice())
    }
}

/// The restartable offset: position, executed GTIDs and snapshot hints.
#[derive(Debug, Clone)]
pub struct BinlogOffset {
    pub binlog_position: BinlogPosition,
    pub gtid_set: GtidSet,
    pub snapshot_completed: bool,
    pub events_to_skip: Option<u64>,
    pub rows_to_skip: Option<u64>,
}

impl BinlogOffset {
    /// Start of file `filename` (offset 4, after the file magic), no GTIDs.
    pub fn new(filename: String) -> (r: BinlogOffset)
        ensures
            r.binlog_position.filename == filename,
            r.binlog_position.position == 4,
            r.gtid_set.wf(),
            r.gtid_set.sets@.len() == 0,
            !r.snapshot_completed,
            r.events_to_skip is None,
            r.rows_to_skip is None,
    {
        BinlogOffset {
            binlog_position: BinlogPosition::new(filename, 4),
            gtid_set: GtidSet::new(),
            snapshot_completed: false,
            events_to_skip: None,
            rows_to_skip: None,
        }
    }

    pub fn update_position(&mut self, filename: String, position: u64)
        ensures
            final(self).binlog_position.filename == filename,
            final(self).binlog_position.position == position,
            final(self).gtid_set == old(self).gtid_set,
            final(self).snapshot_completed == old(self).snapshot_completed,
            final(self).events_to_skip == old(self).events_to_skip,
            final(self).rows_to_skip == old(self).rows_to_skip,
    {
        self.binlog_position = BinlogPosition::new(filename, position);
    }
}

/// Where the stream stands, in the shape consumers expect.
#[derive(Debug, Clone)]
pub struct SourceInfo {
    pub server_id: u32,
    pub binlog_filename: String,
    pub binlog_position: u64,
    pub gtid: Option<String>,
    pub ts_sec: u32,
    pub row: Option<u64>,
    pub snapshot: bool,
    pub database: Option<String>,
    pub table: Option<String>,
    pub thread_id: Option<u32>,
}

impl SourceInfo {
    pub fn new(server_id: u32, binlog_filename: String) -> (r: SourceInfo)
        ensures
            r.server_id == server_id,
            r.binlog_filename == binlog_filename,
            r.binlog_position == 4,
            r.gtid is None,
            r.ts_sec == 0,
            r.row is None,
            !r.snapshot,
            r.database is None,
            r.table is None,
            r.thread_id is None,
    {
        SourceInfo {
            server_id,
            binlog_filename,
            binlog_position: 4,
            gtid: None,
            ts_sec: 0,
            row: None,
            snapshot: false,
            database: None,
            table: None,
            thread_id: None,
        }
    }
}

/// Phase of the capture engine.
#[derive(Debug, Clone, Copy, PartialEq, Eq, Structural)]
pub enum ProcessingState {
    Snapshotting,
    Streaming,
    Stopped,
}

} // verus!
