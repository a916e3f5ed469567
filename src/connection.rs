//! Connection settings of a replication session and the server facts read
//! before streaming.

use vstd::prelude::*;
use std::time::Duration;
use crate::gtid::GtidSet;

verus! {

/// Relies on std's `Duration::from_secs`, which never fails; the value is
/// only carried through.
pub assume_specification[ Duration::from_secs ](secs: u64) -> Duration;

/// Relies on `Duration` being `Copy`: a clone is the same value.
pub assume_specification[ <Duration as Clone>::clone ](d: &Duration) -> (r: Duration)
    ensures
        r == *d,
;

/// Where and as whom to connect.
#[derive(Debug, Clone)]
pub struct ConnectionConfig {
    pub hostname: String,
    pub port: u16,
    pub username: String,
    pub password: String,
    pub database: Option<String>,
    pub server_id: u32,
    pub timeout: Duration,
}

impl Default for ConnectionConfig {
    /// `root@localhost:3306`, no password, no schema, server id 1, 30 s.
    fn default() -> (r: ConnectionConfig)
        ensures
            r.hostname@ == "localhost"@,
            r.port == 3306,
            r.username@ == "root"@,
            r.password@.len() == 0,
            r.database is None,
            r.server_id == 1,
    {
        ConnectionConfig {
            hostname: "localhost".to_owned(),
            port: 3306,
            username: "root".to_owned(),
            password: String::new(),
            database: None,
            server_id: 1,
            timeout: Duration::from_secs(30),
        }
    }
}

impl ConnectionConfig {
    /// The defaults, with the given host and user.
    pub fn new(hostname: &str, username: &str) -> (r: ConnectionConfig)
        ensures
            r.hostname@ == hostname@,
            r.username@ == username@,
            r.port == 3306,
            r.password@.len() == 0,
            r.database is None,
            r.server_id == 1,
    {
        ConnectionConfig {
            hostname: hostname.to_owned(),
            port: 3306,
            username: username.to_owned(),
            password: String::new(),
            database: None,
            server_id: 1,
            timeout: Duration::from_secs(30),
        }
    }
}

/// What `SHOW BINARY LOG STATUS` reports.
#[derive(Debug, Clone)]
pub struct BinlogStatus {
    pub file: String,
    pub position: u64,
    pub binlog_do_db: Option<String>,
    pub binlog_ignore_db: Option<String>,
    pub executed_gtid_set: GtidSet,
}

/// One column of a table, as the server's catalog describes it.
#[derive(Debug, Clone)]
pub struct ColumnInfo {
    pub name: String,
    pub column_type: String,
    pub nullable: bool,
    pub is_key: bool,
    pub extra: String,
}

} // verus!
