//! Client capability flags of the MySQL protocol.

use vstd::prelude::*;

verus! {

pub const LONG_PASSWORD: u32 = 1;
pub const FOUND_ROWS: u32 = 2;
pub const LONG_FLAG: u32 = 4;
pub const CONNECT_WITH_DB: u32 = 8;
pub const NO_SCHEMA: u32 = 16;
pub const COMPRESS: u32 = 32;
pub const ODBC: u32 = 64;
pub const LOCAL_FILES: u32 = 128;
pub const IGNORE_SPACE: u32 = 256;
pub const PROTOCOL_41: u32 = 512;
pub const INTERACTIVE: u32 = 1024;
pub const SSL: u32 = 2048;
pub const IGNORE_SIGPIPE: u32 = 4096;
pub const TRANSACTIONS: u32 = 8192;
pub const SECURE_CONNECTION: u32 = 32768;
pub const MULTI_STATEMENTS: u32 = 0x1_0000;
pub const MULTI_RESULTS: u32 = 0x2_0000;
pub const PS_MULTI_RESULTS: u32 = 0x4_0000;
pub const PLUGIN_AUTH: u32 = 0x8_0000;
pub const CONNECT_ATTRS: u32 = 0x10_0000;

} // verus!
