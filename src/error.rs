//! Error taxonomy of the replication client.

use vstd::prelude::*;

verus! {

/// Every failure the library reports. Each variant carries a message.
#[derive(Debug, Clone, PartialEq, Eq)]
pub enum CdcError {
    ConnectionError(String),
    BinlogParseError(String),
    InvalidEvent(String),
    GtidError(String),
    QueryError(String),
    IoError(String),
    ProtocolError(String),
    SerializationError(String),
    Timeout,
    ChannelClosed,
    Other(String),
    /// The server refused the credentials.
    AuthFailed { code: u16, state: String, message: String },
    /// The server sent an error packet in the middle of the stream.
    ServerError { code: u16, sql_state: String, message: String },
    /// The server is not set up for row-based replication.
    ServerConfig(String),
    /// The session was stopped.
    Cancelled,
}

pub type Result<T> = std::result::Result<T, CdcError>;

} // verus!
