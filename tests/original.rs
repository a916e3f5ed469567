use rust_mysql::auth::{create_auth_response, create_handshake_response};
use rust_mysql::binlog::{create_binlog_dump_command, format_uuid, BinlogParser, COM_BINLOG_DUMP};
use rust_mysql::cdc_engine::{CdcConfig, CdcEngine, SnapshotMode};
use rust_mysql::connection::ConnectionConfig;
use rust_mysql::gtid::GtidSet;
use rust_mysql::offset::{BinlogPosition, ProcessingState};
use rust_mysql::protocol::{is_error_packet, is_ok_packet};

#[test]
fn test_create_auth_response_empty_password() {
    let response = create_auth_response("", &[1, 2, 3, 4]);
    assert!(response.is_empty());
}

#[test]
fn test_create_auth_response() {
    let scramble = vec![0x40, 0x3B, 0x57, 0x68, 0x3A, 0x77, 0x23, 0x29];
    let response = create_auth_response("password", &scramble);
    assert_eq!(response.len(), 20);
}

#[test]
fn test_create_handshake_response() {
    let scramble = vec![0x40, 0x3B, 0x57, 0x68, 0x3A, 0x77, 0x23, 0x29];
    let packet = create_handshake_response("root", "password", Some("testdb"), &scramble, 33).unwrap();
    assert!(packet.len() > 50);
}

#[test]
fn test_verify_magic() {
    let valid = vec![0xfe, 0x62, 0x69, 0x6e];
    assert!(BinlogParser::verify_magic(&valid).is_ok());

    let invalid = vec![0x00, 0x00, 0x00, 0x00];
    assert!(BinlogParser::verify_magic(&invalid).is_err());
}

#[test]
fn test_format_uuid() {
    let bytes = [
        0x12, 0x34, 0x56, 0x78, 0x9a, 0xbc, 0xde, 0xf0, 0x12, 0x34, 0x56, 0x78, 0x9a, 0xbc, 0xde, 0xf0,
    ];
    let uuid = format_uuid(&bytes);
    assert!(uuid.contains('-'));
    assert_eq!(uuid.len(), 36);
}

#[test]
fn test_create_binlog_dump_command() {
    let cmd = create_binlog_dump_command(1, "mysql-bin.000001", 4).unwrap();
    assert!(cmd.len() > 11);
    assert_eq!(cmd[0], COM_BINLOG_DUMP);
}

#[test]
fn test_cdc_config() {
    let config = CdcConfig {
        connection: ConnectionConfig::default(),
        databases: vec!["test".to_string()],
        tables: None,
        snapshot_mode: SnapshotMode::Initial,
        include_ddl: true,
        gtid_filter: None,
    };

    let engine = CdcEngine::new(config);
    assert_eq!(engine.state, ProcessingState::Snapshotting);
}

#[test]
fn test_connection_config_default() {
    let config = ConnectionConfig::default();
    assert_eq!(config.hostname, "localhost");
    assert_eq!(config.port, 3306);
}

#[test]
fn test_connection_config_new() {
    let config = ConnectionConfig::new("127.0.0.1", "root");
    assert_eq!(config.hostname, "127.0.0.1");
    assert_eq!(config.username, "root");
}

#[test]
fn test_gtid_parse() {
    let gtid_str = "550e8400-e29b-41d4-a716-446655440000:1-100,200,300-400";
    let gtid_set = GtidSet::parse(gtid_str).unwrap();
    assert!(!gtid_set.sets.is_empty());
}

#[test]
fn test_gtid_contains() {
    let mut gtid_set = GtidSet::new();
    gtid_set.add_gtid("550e8400-e29b-41d4-a716-446655440000:50").unwrap();
    assert!(gtid_set.contains("550e8400-e29b-41d4-a716-446655440000:50"));
    assert!(!gtid_set.contains("550e8400-e29b-41d4-a716-446655440000:51"));
}

#[test]
fn test_binlog_position_parse() {
    let pos = BinlogPosition::new("mysql-bin.000123".to_string(), 4096);
    assert_eq!(pos.file_sequence(), Some(123));
}

#[test]
fn test_is_error_packet() {
    assert!(is_error_packet(&[0xFF, 0x01, 0x02]));
    assert!(!is_error_packet(&[0x00, 0x01, 0x02]));
}

#[test]
fn test_is_ok_packet() {
    assert!(is_ok_packet(&[0x00, 0x01, 0x02]));
    assert!(!is_ok_packet(&[0xFF, 0x01, 0x02]));
}
