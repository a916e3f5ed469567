use rust_mysql::auth::{create_auth_response, create_handshake_response, scramble_reply};
use rust_mysql::binlog::{
    create_binlog_dump_command, decode_binlog_dump_command, encode_header, BinlogParser,
};
use rust_mysql::cdc_engine::{check_binlog_format, CdcConfig, CdcEngine, SnapshotMode, StreamStep};
use rust_mysql::connection::{BinlogStatus, ColumnInfo, ConnectionConfig};
use rust_mysql::dump_gtid::create_binlog_dump_gtid_command;
use rust_mysql::error::CdcError;
use rust_mysql::events::{
    CellValue, ChangeEvent, DeleteRowsData, EventHeader, EventType, OperationType, QueryEventData, UpdateRowsData,
    WriteRowsData,
};
use rust_mysql::gtid::{GtidRange, GtidSet, UUIDGtidSet};
use rust_mysql::offset::{BinlogOffset, SourceInfo};
use rust_mysql::rowcodec::decode_cell;
use rust_mysql::protocol::{is_eof_packet, ReplyState, frame_packet, parse_error_packet, parse_packet_header, GreetingPacket, PacketAssembler};
use rust_mysql::session::{SessionEvent, SessionState};
use rust_mysql::wire::read_lcb;
use sha1::{Digest, Sha1};

const UUID: &str = "550e8400-e29b-41d4-a716-446655440000";

fn event(kind: u8, body: &[u8], next_pos: u32) -> Vec<u8> {
    let h = EventHeader {
        timestamp: 1_700_000_000,
        event_type: EventType::from_u8(kind),
        server_id: 1,
        event_length: (19 + body.len()) as u32,
        next_pos,
        flags: 0,
    };
    let mut ev = encode_header(&h);
    ev.extend_from_slice(body);
    ev
}

fn packet(ev: &[u8]) -> Vec<u8> {
    let mut p = vec![0u8];
    p.extend_from_slice(ev);
    p
}

fn users_table_map() -> Vec<u8> {
    let mut b = vec![0x55, 0, 0, 0, 0, 0, 0, 0];
    b.push(6);
    b.extend_from_slice(b"testdb");
    b.push(0);
    b.push(5);
    b.extend_from_slice(b"users");
    b.push(0);
    b.push(4);
    b.extend_from_slice(&[3, 15, 15, 18]);
    b.push(5);
    b.extend_from_slice(&[0x90, 0x01, 0x90, 0x01, 0x00]);
    b.push(0x0E);
    b
}

fn datetime2(y: u64, mo: u64, d: u64, h: u64, mi: u64, s: u64) -> [u8; 5] {
    let ymd = ((y * 13 + mo) << 5) | d;
    let hms = (h << 12) | (mi << 6) | s;
    let v = ((ymd << 17) | hms) + 0x80_0000_0000;
    [(v >> 32) as u8, (v >> 24) as u8, (v >> 16) as u8, (v >> 8) as u8, v as u8]
}

fn user_row(id: u32, name: &str, email: &str) -> Vec<u8> {
    let mut r = vec![0x00];
    r.extend_from_slice(&id.to_le_bytes());
    r.extend_from_slice(&(name.len() as u16).to_le_bytes());
    r.extend_from_slice(name.as_bytes());
    r.extend_from_slice(&(email.len() as u16).to_le_bytes());
    r.extend_from_slice(email.as_bytes());
    r.extend_from_slice(&datetime2(2024, 1, 15, 10, 30, 0));
    r
}

fn rows_prefix(update: bool) -> Vec<u8> {
    let mut b = vec![0x55, 0, 0, 0, 0, 0, 0, 0, 4, 0x0F];
    if update {
        b.push(0x0F);
    }
    b
}

fn engine() -> CdcEngine {
    let config = CdcConfig {
        connection: ConnectionConfig::default(),
        databases: vec!["testdb".to_string()],
        tables: None,
        snapshot_mode: SnapshotMode::Never,
        include_ddl: true,
        gtid_filter: None,
    };
    let mut e = CdcEngine::new(config);
    let cols: Vec<ColumnInfo> = ["id", "name", "email", "created_at"]
        .iter()
        .map(|n| ColumnInfo {
            name: n.to_string(),
            column_type: String::new(),
            nullable: false,
            is_key: *n == "id",
            extra: String::new(),
        })
        .collect();
    assert!(e.add_table_metadata("testdb", "users", &cols));
    e.handle_packet(&packet(&event(19, &users_table_map(), 200))).unwrap();
    e
}

fn records(step: StreamStep) -> Vec<ChangeEvent> {
    match step {
        StreamStep::Records(v) => v,
        other => panic!("not a record step: {:?}", other),
    }
}

fn text_of(c: &CellValue) -> String {
    match c {
        CellValue::String(s) => s.clone(),
        _ => panic!("not a string"),
    }
}

#[test]
fn insert_capture_yields_one_insert_record() {
    let mut e = engine();
    let mut body = rows_prefix(false);
    body.extend_from_slice(&user_row(1, "홍길동", "hong@example.com"));
    let recs = records(e.handle_packet(&packet(&event(30, &body, 300))).unwrap());
    assert_eq!(recs.len(), 1);
    let r = &recs[0];
    assert_eq!(r.op, OperationType::Insert);
    assert_eq!(r.database, "testdb");
    assert_eq!(r.table, "users");
    assert!(r.before.is_none());
    let after = r.after.as_ref().unwrap();
    let names: Vec<&str> = after.iter().map(|(n, _)| n.as_str()).collect();
    assert_eq!(names, vec!["id", "name", "email", "created_at"]);
    assert!(matches!(after[0].1, CellValue::Int32(1)));
    assert_eq!(text_of(&after[1].1), "홍길동");
    assert_eq!(text_of(&after[2].1), "hong@example.com");
    match &after[3].1 {
        CellValue::DateTime(dt) => {
            assert_eq!((dt.year, dt.month, dt.day), (2024, 1, 15));
            assert_eq!((dt.hour, dt.minute, dt.second, dt.micros), (10, 30, 0, 0));
        }
        _ => panic!("created_at is not a datetime"),
    }
    assert_eq!(r.timestamp, 1_700_000_000);
}

#[test]
fn offset_follows_next_position_after_delivery() {
    let mut e = engine();
    let mut body = rows_prefix(false);
    body.extend_from_slice(&user_row(1, "a", "b"));
    let recs = records(e.handle_packet(&packet(&event(30, &body, 4321))).unwrap());
    assert_eq!(recs.len(), 1);
    assert_eq!(e.get_offset().binlog_position.position, 4321);
    assert_eq!(e.get_offset().binlog_position.filename, "mysql-bin.000001");
}

#[test]
fn update_capture_keeps_keys_and_reports_change() {
    let mut e = engine();
    let mut body = rows_prefix(true);
    body.extend_from_slice(&user_row(1, "홍길동", "hong@example.com"));
    body.extend_from_slice(&user_row(1, "홍길동", "hong_new@example.com"));
    let recs = records(e.handle_packet(&packet(&event(31, &body, 400))).unwrap());
    assert_eq!(recs.len(), 1);
    let r = &recs[0];
    assert_eq!(r.op, OperationType::Update);
    let before = r.before.as_ref().unwrap();
    let after = r.after.as_ref().unwrap();
    assert_eq!(before.len(), after.len());
    for (b, a) in before.iter().zip(after.iter()) {
        assert_eq!(b.0, a.0);
    }
    assert_eq!(text_of(&before[2].1), "hong@example.com");
    assert_eq!(text_of(&after[2].1), "hong_new@example.com");
    assert_eq!(text_of(&before[1].1), text_of(&after[1].1));
}

#[test]
fn update_without_change_yields_no_record() {
    let mut e = engine();
    let mut body = rows_prefix(true);
    body.extend_from_slice(&user_row(1, "a", "b"));
    body.extend_from_slice(&user_row(1, "a", "b"));
    let recs = records(e.handle_packet(&packet(&event(31, &body, 400))).unwrap());
    assert!(recs.is_empty());
}

#[test]
fn update_fills_unchanged_columns_from_before_image() {
    let mut e = engine();
    let mut body = vec![0x55, 0, 0, 0, 0, 0, 0, 0, 4, 0x0F, 0x04];
    body.extend_from_slice(&user_row(7, "kim", "old@example.com"));
    body.push(0x00);
    body.extend_from_slice(&3u16.to_le_bytes());
    body.extend_from_slice(b"n@x");
    let recs = records(e.handle_packet(&packet(&event(31, &body, 500))).unwrap());
    assert_eq!(recs.len(), 1);
    let after = recs[0].after.as_ref().unwrap();
    assert!(matches!(after[0].1, CellValue::Int32(7)));
    assert_eq!(text_of(&after[1].1), "kim");
    assert_eq!(text_of(&after[2].1), "n@x");
}

#[test]
fn delete_capture_has_before_only() {
    let mut e = engine();
    let mut body = rows_prefix(false);
    body.extend_from_slice(&user_row(2, "김철수", "kim@example.com"));
    let recs = records(e.handle_packet(&packet(&event(32, &body, 500))).unwrap());
    assert_eq!(recs.len(), 1);
    assert_eq!(recs[0].op, OperationType::Delete);
    assert!(recs[0].after.is_none());
    let before = recs[0].before.as_ref().unwrap();
    assert_eq!(text_of(&before[1].1), "김철수");
}

#[test]
fn row_event_without_table_map_is_a_protocol_error() {
    let config = CdcConfig {
        connection: ConnectionConfig::default(),
        databases: vec![],
        tables: None,
        snapshot_mode: SnapshotMode::Never,
        include_ddl: false,
        gtid_filter: None,
    };
    let mut e = CdcEngine::new(config);
    let mut body = rows_prefix(false);
    body.extend_from_slice(&user_row(1, "a", "b"));
    let r = e.handle_packet(&packet(&event(30, &body, 300)));
    assert!(matches!(r, Err(CdcError::ProtocolError(_))));
}

#[test]
fn rotate_moves_the_offset_to_the_new_file() {
    let mut e = engine();
    let mut body = 4u64.to_le_bytes().to_vec();
    body.extend_from_slice(b"mysql-bin.000008");
    match e.handle_packet(&packet(&event(4, &body, 0))).unwrap() {
        StreamStep::Rotated(f, p) => assert_eq!((f.as_str(), p), ("mysql-bin.000008", 4)),
        other => panic!("expected a rotate control record: {:?}", other),
    }
    let off = e.get_offset();
    assert_eq!(off.binlog_position.filename, "mysql-bin.000008");
    assert_eq!(off.binlog_position.position, 4);
    let mut rows = rows_prefix(false);
    rows.extend_from_slice(&user_row(1, "a", "b"));
    let r = e.handle_packet(&packet(&event(30, &rows, 300)));
    assert!(matches!(r, Err(CdcError::ProtocolError(_))));
}

#[test]
fn gtid_then_xid_folds_the_transaction() {
    let mut e = engine();
    let mut body = vec![0u8];
    body.extend_from_slice(&[
        0x55, 0x0e, 0x84, 0x00, 0xe2, 0x9b, 0x41, 0xd4, 0xa7, 0x16, 0x44, 0x66, 0x55, 0x44, 0x00, 0x00,
    ]);
    body.extend_from_slice(&42u64.to_le_bytes());
    body.extend_from_slice(&[0u8; 17]);
    records(e.handle_packet(&packet(&event(33, &body, 600))).unwrap());
    assert_eq!(e.current_gtid.as_deref(), Some("550e8400-e29b-41d4-a716-446655440000:42"));
    records(e.handle_packet(&packet(&event(16, &0u64.to_le_bytes(), 700))).unwrap());
    assert!(e.current_gtid.is_none());
    assert!(e.get_offset().gtid_set.contains("550e8400-e29b-41d4-a716-446655440000:42"));
}

#[test]
fn ddl_query_emits_a_ddl_record() {
    let mut e = engine();
    let mut body = vec![0u8; 13];
    body[8] = 6;
    body.extend_from_slice(b"testdb");
    body.push(0);
    body.extend_from_slice(b"alter table users add column age int");
    let recs = records(e.handle_packet(&packet(&event(2, &body, 800))).unwrap());
    assert_eq!(recs.len(), 1);
    assert_eq!(recs[0].op, OperationType::Ddl);
    assert_eq!(recs[0].table, "");
    assert_eq!(recs[0].query.as_deref(), Some("alter table users add column age int"));
}

#[test]
fn stream_end_and_server_error_packets() {
    let mut e = engine();
    assert!(matches!(e.handle_packet(&[0xFE, 0, 0, 2, 0]), Ok(StreamStep::End)));
    let mut err = vec![0xFF, 0x15, 0x04, b'#'];
    err.extend_from_slice(b"28000Access denied");
    match e.handle_packet(&err) {
        Err(CdcError::ServerError { code, sql_state, message }) => {
            assert_eq!(code, 1045);
            assert_eq!(sql_state, "28000");
            assert_eq!(message, "Access denied");
        }
        _ => panic!("expected a server error"),
    }
    assert!(matches!(e.handle_packet(&[]), Err(CdcError::ProtocolError(_))));
}

#[test]
fn filtered_tables_are_decoded_but_not_emitted() {
    let config = CdcConfig {
        connection: ConnectionConfig::default(),
        databases: vec!["otherdb".to_string()],
        tables: None,
        snapshot_mode: SnapshotMode::Never,
        include_ddl: false,
        gtid_filter: None,
    };
    let mut e = CdcEngine::new(config);
    e.handle_packet(&packet(&event(19, &users_table_map(), 200))).unwrap();
    let mut body = rows_prefix(false);
    body.extend_from_slice(&user_row(1, "a", "b"));
    let recs = records(e.handle_packet(&packet(&event(30, &body, 900))).unwrap());
    assert!(recs.is_empty());
    assert_eq!(e.get_offset().binlog_position.position, 900);
    assert!(!e.table_selected("testdb", "users"));
    assert!(e.table_selected("otherdb", "users"));
}

#[test]
fn table_allow_list_is_qualified() {
    let config = CdcConfig {
        connection: ConnectionConfig::default(),
        databases: vec![],
        tables: Some(vec!["testdb.users".to_string()]),
        snapshot_mode: SnapshotMode::Never,
        include_ddl: false,
        gtid_filter: None,
    };
    let e = CdcEngine::new(config);
    assert!(e.table_selected("testdb", "users"));
    assert!(!e.table_selected("testdb", "orders"));
    assert!(!e.table_selected("other", "users"));
}

#[test]
fn begin_streaming_takes_the_server_status() {
    let mut e = engine();
    let status = BinlogStatus {
        file: "mysql-bin.000003".to_string(),
        position: 4097,
        binlog_do_db: None,
        binlog_ignore_db: None,
        executed_gtid_set: GtidSet::parse("550e8400-e29b-41d4-a716-446655440000:1-5").unwrap(),
    };
    e.begin_streaming(status);
    assert_eq!(e.get_offset().binlog_position.filename, "mysql-bin.000003");
    assert_eq!(e.get_offset().binlog_position.position, 4097);
    assert!(e.get_offset().gtid_set.contains("550e8400-e29b-41d4-a716-446655440000:5"));
    e.stop();
    assert!(e.table_maps.is_empty());
}

#[test]
fn gtid_parse_scenario() {
    let g = GtidSet::parse("550e8400-e29b-41d4-a716-446655440000:1-100:200:300-400").unwrap();
    assert_eq!(g.sets.len(), 1);
    let r: Vec<(u64, u64)> = g.sets[0].ranges.iter().map(|r| (r.start, r.end)).collect();
    assert_eq!(r, vec![(1, 100), (200, 200), (300, 400)]);
    assert!(!g.contains("550e8400-e29b-41d4-a716-446655440000:150"));
    assert!(g.contains("550e8400-e29b-41d4-a716-446655440000:200"));
    assert_eq!(g.to_string(), "550e8400-e29b-41d4-a716-446655440000:1-100:200:300-400");
}

#[test]
fn serialize_of_parse_is_canonical() {
    let g = GtidSet::parse(
        "bbbb:7, aaaa:300-400:1-100:101-150, bbbb:5-6\n,aaaa:200",
    )
    .unwrap();
    assert_eq!(g.to_string(), "aaaa:1-150:200:300-400,bbbb:5-7");
}

#[test]
fn canonical_text_is_stable() {
    let s = "3e11fa47-71ca-11e1-9e33-c80aa9429562:1-5:11-18,550e8400-e29b-41d4-a716-446655440000:7";
    assert_eq!(GtidSet::parse(s).unwrap().to_string(), s);
    assert_eq!(GtidSet::parse("").unwrap().to_string(), "");
    assert!(GtidSet::parse("NULL").unwrap().is_empty());
}

#[test]
fn gtid_parse_errors() {
    assert!(matches!(GtidSet::parse("uuid:5-3"), Err(CdcError::GtidError(_))));
    assert!(matches!(GtidSet::parse("uuid:0"), Err(CdcError::GtidError(_))));
    assert!(matches!(GtidSet::parse("12-14"), Err(CdcError::GtidError(_))));
    assert!(matches!(GtidSet::parse("uuid:1-x"), Err(CdcError::GtidError(_))));
    assert!(matches!(GtidSet::parse("uuid:"), Err(CdcError::GtidError(_))));
}

#[test]
fn added_gtid_is_contained_and_adding_again_changes_nothing() {
    let mut g = GtidSet::new();
    g.add_gtid("aaaa:5").unwrap();
    g.add_gtid("aaaa:7").unwrap();
    g.add_gtid("aaaa:6").unwrap();
    assert!(g.contains("aaaa:6"));
    assert_eq!(g.to_string(), "aaaa:5-7");
    g.add_gtid("aaaa:6").unwrap();
    assert_eq!(g.to_string(), "aaaa:5-7");
    assert!(matches!(g.add_gtid("aaaa"), Err(CdcError::GtidError(_))));
    assert!(matches!(g.add_gtid("aaaa:0"), Err(CdcError::GtidError(_))));
    assert!(!g.contains("bbbb:6"));
}

#[test]
fn subtract_removes_exactly_the_other_set() {
    let a = GtidSet::parse("aaaa:1-100,bbbb:1-10").unwrap();
    let b = GtidSet::parse("aaaa:20-30:50,bbbb:1-10,cccc:1").unwrap();
    let d = a.subtract(&b);
    assert_eq!(d.to_string(), "aaaa:1-19:31-49:51-100");
    assert!(d.contains("aaaa:19"));
    assert!(!d.contains("aaaa:20"));
    assert!(!d.contains("bbbb:3"));
}

#[test]
fn range_merge_touching_and_split() {
    let a = GtidRange::new(1, 10).unwrap();
    let b = GtidRange::new(11, 20).unwrap();
    let c = GtidRange::new(12, 20).unwrap();
    assert_eq!(a.merge(&b), Some(GtidRange { start: 1, end: 20 }));
    assert_eq!(a.merge(&c), None);
    assert!(GtidRange::new(5, 4).is_err());
    assert!(a.contains(10) && !a.contains(11));
}

#[test]
fn uuid_set_text_and_add() {
    let mut u = UUIDGtidSet::new("x".to_string());
    u.add_gtid(3).unwrap();
    u.add_gtid(1).unwrap();
    u.add_gtid(2).unwrap();
    u.add_gtid(9).unwrap();
    assert_eq!(u.to_string(), "1-3:9");
    assert!(u.contains(2) && !u.contains(4));
    assert!(u.add_gtid(0).is_err());
}

#[test]
fn empty_password_gives_empty_reply() {
    assert!(create_auth_response("", &[0x40, 0x3B]).is_empty());
}

#[test]
fn auth_reply_matches_native_password_formula() {
    let scramble: Vec<u8> = vec![
        0x40, 0x3B, 0x57, 0x68, 0x3A, 0x77, 0x23, 0x29, 0x11, 0x22, 0x33, 0x44, 0x55, 0x66, 0x77, 0x01,
        0x02, 0x03, 0x04, 0x05,
    ];
    let reply = create_auth_response("password", &scramble);
    assert_eq!(reply.len(), 20);
    let stage1 = Sha1::digest(b"password").to_vec();
    let stage2 = Sha1::digest(&stage1).to_vec();
    let mut combined = scramble.clone();
    combined.extend_from_slice(&stage2);
    let stage3 = Sha1::digest(&combined).to_vec();
    assert_eq!(reply[0], stage1[0] ^ stage3[0]);
    let expected: Vec<u8> = stage1.iter().zip(stage3.iter()).map(|(a, b)| a ^ b).collect();
    assert_eq!(reply, expected);
    assert_ne!(reply, stage1);
    assert_eq!(scramble_reply(&stage1, &stage3), expected);
}

#[test]
fn handshake_response_layout() {
    let p = create_handshake_response("root", "", Some("testdb"), &[1, 2, 3], 33).unwrap();
    assert_eq!(&p[0..4], &[0x0D, 0x82, 0x0B, 0x00]);
    assert_eq!(&p[4..8], &[0, 0, 0, 0]);
    assert_eq!(p[8], 33);
    assert!(p[9..32].iter().all(|b| *b == 0));
    assert_eq!(&p[32..37], b"root\0");
    assert_eq!(p[37], 0);
    assert_eq!(&p[38..45], b"testdb\0");
    assert_eq!(&p[45..], b"mysql_native_password\0");
    let q = create_handshake_response("u", "pw", None, &[1, 2, 3], 8).unwrap();
    assert_eq!(&q[0..4], &[0x05, 0x82, 0x0B, 0x00]);
    assert_eq!(q[34], 20);
}

#[test]
fn greeting_is_parsed() {
    let mut g = vec![10u8];
    g.extend_from_slice(b"8.0.36\0");
    g.extend_from_slice(&77u32.to_le_bytes());
    g.extend_from_slice(&[1, 2, 3, 4, 5, 6, 7, 8]);
    g.push(0);
    g.extend_from_slice(&0xF7FFu16.to_le_bytes());
    g.push(255);
    g.extend_from_slice(&2u16.to_le_bytes());
    g.extend_from_slice(&0xDFFFu16.to_le_bytes());
    g.push(21);
    g.extend_from_slice(&[0u8; 10]);
    g.extend_from_slice(&[9, 10, 11, 12, 13, 14, 15, 16, 17, 18, 19, 20, 0]);
    let p = GreetingPacket::parse(&g).unwrap();
    assert_eq!(p.protocol_version, 10);
    assert_eq!(p.server_version, "8.0.36");
    assert_eq!(p.thread_id, 77);
    assert_eq!(p.scramble, (1u8..=20).collect::<Vec<u8>>());
    assert_eq!(p.server_capabilities, 0xDFFF_F7FF);
    assert_eq!(p.server_collation, 255);
    assert_eq!(p.server_status, 2);
    g[0] = 9;
    assert!(matches!(GreetingPacket::parse(&g), Err(CdcError::ProtocolError(_))));
}

#[test]
fn error_packet_fields() {
    let mut p = vec![0xFF, 0x15, 0x04, b'#'];
    p.extend_from_slice(b"28000Access denied for user");
    let e = parse_error_packet(&p).unwrap();
    assert_eq!(e.code, 1045);
    assert_eq!(e.sql_state, "28000");
    assert_eq!(e.message, "Access denied for user");
    assert!(parse_error_packet(&[0x00, 1, 2]).is_none());
}

#[test]
fn max_size_body_gets_a_continuation_packet() {
    let body = vec![7u8; 0xFF_FFFF];
    let framed = frame_packet(&body, 3);
    assert_eq!(framed.len(), 4 + 0xFF_FFFF + 4);
    assert_eq!(&framed[0..4], &[0xFF, 0xFF, 0xFF, 3]);
    assert_eq!(&framed[framed.len() - 4..], &[0, 0, 0, 4]);
    let small = frame_packet(&[1, 2, 3], 0);
    assert_eq!(small, vec![3, 0, 0, 0, 1, 2, 3]);
    assert_eq!(parse_packet_header(&small), (3, 0));
    let mut joiner = PacketAssembler::new();
    joiner.feed(0xFF_FFFF, &[1, 2]);
    assert!(!joiner.complete);
    joiner.feed(1, &[3]);
    assert!(joiner.complete);
    assert_eq!(joiner.body, vec![1, 2, 3]);
}

#[test]
fn wide_length_coded_zero_is_valid() {
    let b = [0xFE, 0, 0, 0, 0, 0, 0, 0, 0];
    assert_eq!(read_lcb(&b, 0).unwrap(), (0, 9));
    assert_eq!(read_lcb(&[0xFA], 0).unwrap(), (250, 1));
    assert_eq!(read_lcb(&[0xFB], 0).unwrap(), (0, 1));
    assert_eq!(read_lcb(&[0xFC, 0x34, 0x12], 0).unwrap(), (0x1234, 3));
    assert_eq!(read_lcb(&[0xFD, 0x56, 0x34, 0x12], 0).unwrap(), (0x123456, 4));
    assert!(matches!(read_lcb(&[0xFF], 0), Err(CdcError::BinlogParseError(_))));
    assert!(read_lcb(&[0xFE, 1], 0).is_err());
}

#[test]
fn dump_command_round_trip() {
    let cmd = create_binlog_dump_command(77, "mysql-bin.000042", 1234).unwrap();
    let (sid, file, pos) = decode_binlog_dump_command(&cmd).unwrap();
    assert_eq!(sid, 77);
    assert_eq!(file, b"mysql-bin.000042".to_vec());
    assert_eq!(pos, 1234);
    assert_eq!(&cmd[5..7], &[0, 0]);
    assert!(matches!(
        create_binlog_dump_command(1, "f", 1 << 33),
        Err(CdcError::ProtocolError(_))
    ));
}

#[test]
fn header_round_trip() {
    let h = EventHeader {
        timestamp: 0x0102_0304,
        event_type: EventType::UpdateRowsEvent,
        server_id: 99,
        event_length: 1000,
        next_pos: 0xDEAD_BEEF,
        flags: 0x8001,
    };
    let bytes = encode_header(&h);
    assert_eq!(bytes.len(), 19);
    let (back, size) = BinlogParser::parse_header(&bytes).unwrap();
    assert_eq!(back, h);
    assert_eq!(size, 19);
    assert!(BinlogParser::parse_header(&bytes[..18]).is_err());
    assert_eq!(EventType::from_u8(200), EventType::Unknown(200));
    let odd = EventHeader { event_type: EventType::from_u8(99), ..h };
    assert_eq!(BinlogParser::parse_header(&encode_header(&odd)).unwrap().0, odd);
    assert_eq!(encode_header(&odd)[4], 99);
}

#[test]
fn rotate_query_and_gtid_bodies() {
    let mut b = 4u64.to_le_bytes().to_vec();
    b.extend_from_slice(b"mysql-bin.000008");
    let r = BinlogParser::parse_rotate_event(&b).unwrap();
    assert_eq!((r.next_binlog_name.as_str(), r.position), ("mysql-bin.000008", 4));
    assert!(BinlogParser::parse_rotate_event(&[1, 2]).is_err());
    let mut q = vec![7, 0, 0, 0, 1, 0, 0, 0, 2, 0, 0, 1, 0, 0xAA];
    q.extend_from_slice(b"db\0BEGIN");
    let qe = BinlogParser::parse_query_event(&q).unwrap();
    assert_eq!((qe.thread_id, qe.exec_time), (7, 1));
    assert_eq!(qe.database, "db");
    assert_eq!(qe.query, "BEGIN");
    assert!(BinlogParser::parse_query_event(&q[..12]).is_err());
    assert!(BinlogParser::parse_gtid_event(&[0u8; 41]).is_err());
    assert!(BinlogParser::parse_gtid_event(&[0u8; 30]).is_err());
    assert!(BinlogParser::parse_gtid_event(&[0u8; 42]).is_ok());
}

#[test]
fn table_map_is_decoded() {
    let tm = BinlogParser::parse_table_map_event(&users_table_map()).unwrap();
    assert_eq!(tm.table_id, 0x55);
    assert_eq!(tm.database, "testdb");
    assert_eq!(tm.table, "users");
    assert_eq!(tm.column_types, vec![3, 15, 15, 18]);
    assert_eq!(tm.column_meta, vec![vec![], vec![0x90, 1], vec![0x90, 1], vec![0]]);
    assert_eq!(tm.nullable_bitmap, vec![0x0E]);
    let mut bad = users_table_map();
    bad.truncate(bad.len() - 3);
    assert!(matches!(BinlogParser::parse_table_map_event(&bad), Err(CdcError::BinlogParseError(_))));
}

#[test]
fn offsets_and_source_info_start_at_four() {
    let o = BinlogOffset::new("mysql-bin.000002".to_string());
    assert_eq!(o.binlog_position.position, 4);
    assert!(o.gtid_set.is_empty());
    let mut o2 = o.clone();
    o2.update_position("mysql-bin.000003".to_string(), 120);
    assert_eq!(o2.binlog_position.filename, "mysql-bin.000003");
    let s = SourceInfo::new(5, "f".to_string());
    assert_eq!((s.server_id, s.binlog_position), (5, 4));
    assert_eq!(OperationType::Update.as_str(), "UPDATE");
}

#[test]
fn auth_success_session_transitions() {
    let mut s = SessionState::Disconnected;
    s = s.next(SessionEvent::Connect);
    assert_eq!(s, SessionState::Connecting);
    s = s.next(SessionEvent::Connected);
    assert_eq!(s, SessionState::Greeting);
    s = s.next(SessionEvent::GreetingRead);
    assert_eq!(s, SessionState::Authenticating);
    s = s.next(SessionEvent::AuthOk);
    assert_eq!(s, SessionState::Configuring);
    assert!(!s.emits_records());
    s = s.next(SessionEvent::Configured).next(SessionEvent::DumpSent);
    assert!(s.emits_records());
    assert_eq!(s.next(SessionEvent::Rotate), SessionState::Rotating);
    assert_eq!(s.next(SessionEvent::TransportError), SessionState::Disconnected);
    assert_eq!(s.next(SessionEvent::FatalError), SessionState::Failed);
    assert_eq!(SessionState::Greeting.next(SessionEvent::AuthOk), SessionState::Failed);
}

#[test]
fn merge_unions_per_uuid() {
    let mut a = GtidSet::parse("aaaa:1-5:20,cccc:3").unwrap();
    let b = GtidSet::parse("aaaa:6-10,bbbb:1").unwrap();
    a.merge(&b);
    assert_eq!(a.to_string(), "aaaa:1-10:20,bbbb:1,cccc:3");
}

#[test]
fn dump_gtid_command_layout() {
    let g = GtidSet::parse("550e8400-e29b-41d4-a716-446655440000:1-5").unwrap();
    let cmd = create_binlog_dump_gtid_command(9, "f.1", 4, &g).unwrap();
    assert_eq!(cmd[0], 0x1e);
    assert_eq!(&cmd[1..3], &[4, 0]);
    assert_eq!(&cmd[3..7], &9u32.to_le_bytes());
    assert_eq!(&cmd[7..11], &3u32.to_le_bytes());
    assert_eq!(&cmd[11..14], b"f.1");
    assert_eq!(&cmd[14..22], &4u64.to_le_bytes());
    let data = &cmd[26..];
    assert_eq!(&cmd[22..26], &(data.len() as u32).to_le_bytes());
    assert_eq!(&data[0..8], &1u64.to_le_bytes());
    assert_eq!(&data[8..24], &[0x55, 0x0e, 0x84, 0x00, 0xe2, 0x9b, 0x41, 0xd4, 0xa7, 0x16, 0x44, 0x66, 0x55, 0x44, 0x00, 0x00]);
    assert_eq!(&data[24..32], &1u64.to_le_bytes());
    assert_eq!(&data[32..40], &1u64.to_le_bytes());
    assert_eq!(&data[40..48], &6u64.to_le_bytes());
    let bad = GtidSet::parse("not-a-uuid:1").unwrap();
    assert!(matches!(create_binlog_dump_gtid_command(9, "f", 4, &bad), Err(CdcError::ProtocolError(_))));
}

#[test]
fn uuid_set_binary_search_finds_each_range() {
    let g = GtidSet::parse("x:1-3:10:20-30:40-41:50").unwrap();
    for n in [1u64, 3, 10, 20, 25, 30, 40, 41, 50] {
        assert!(g.sets[0].contains(n));
    }
    for n in [0u64, 4, 9, 11, 19, 31, 39, 42, 49, 51] {
        assert!(!g.sets[0].contains(n));
    }
}

#[test]
fn format_description_switches_checksum_stripping() {
    let mut e = engine();
    let mut fde = vec![0u8; 57];
    fde.push(1);
    fde.extend_from_slice(&[9, 9, 9, 9]);
    records(e.handle_packet(&packet(&event(15, &fde, 0))).unwrap());
    assert!(e.checksum_enabled);
    assert!(e.table_maps.is_empty());
    let mut body = 4u64.to_le_bytes().to_vec();
    body.extend_from_slice(b"mysql-bin.000009");
    body.extend_from_slice(&[0xAA, 0xBB, 0xCC, 0xDD]);
    assert!(matches!(e.handle_packet(&packet(&event(4, &body, 0))).unwrap(), StreamStep::Rotated(..)));
    assert_eq!(e.get_offset().binlog_position.filename, "mysql-bin.000009");
}

#[test]
fn temporal_values_are_decoded() {
    let v: u32 = 2024 * 512 + 32 + 15;
    let b = v.to_le_bytes();
    match decode_cell(&b[0..3], 0, 10, &[]).unwrap() {
        (CellValue::Date(s), 3) => assert_eq!(s, "2024-01-15"),
        _ => panic!("DATE"),
    }
    let w: u32 = (10 << 12) | (30 << 6) | 5;
    let t = (w + 0x80_0000).to_be_bytes();
    match decode_cell(&t[1..4], 0, 19, &[0]).unwrap() {
        (CellValue::Time(s), 3) => assert_eq!(s, "10:30:05"),
        _ => panic!("TIME2"),
    }
    let ts = 1_700_000_000u32.to_be_bytes();
    let mut tb = ts.to_vec();
    tb.push(12);
    match decode_cell(&tb, 0, 17, &[2]).unwrap() {
        (CellValue::DateTime(d), 5) => {
            assert_eq!((d.year, d.month, d.day, d.hour, d.minute, d.second), (2023, 11, 14, 22, 13, 20));
            assert_eq!(d.micros, 120_000);
        }
        _ => panic!("TIMESTAMP2"),
    }
    assert!(matches!(decode_cell(&[1, 2, 3], 0, 246, &[10, 2]), Err(CdcError::BinlogParseError(_))));
    match decode_cell(&[1, 2, 3], 1, 200, &[]).unwrap() {
        (CellValue::Bytes(b), 2) => assert_eq!(b, vec![2, 3]),
        _ => panic!("unknown type"),
    }
    match decode_cell(&[0xFF, 0x7F], 0, 2, &[]).unwrap() {
        (CellValue::Int16(x), 2) => assert_eq!(x, 0x7FFF),
        _ => panic!("SHORT"),
    }
    match decode_cell(&[0xFF, 0xFF, 0xFF], 0, 9, &[]).unwrap() {
        (CellValue::Int32(x), 3) => assert_eq!(x, -1),
        _ => panic!("INT24"),
    }
}

#[test]
fn decimal_values_are_decoded() {
    let pos = [0x80u8, 0x00, 0x04, 0xD2, 0x38];
    match decode_cell(&pos, 0, 246, &[10, 2]).unwrap() {
        (CellValue::Decimal(s), 5) => assert_eq!(s, "1234.56"),
        _ => panic!("DECIMAL"),
    }
    let neg: Vec<u8> = pos.iter().map(|b| b ^ 0xFF).collect();
    match decode_cell(&neg, 0, 246, &[10, 2]).unwrap() {
        (CellValue::Decimal(s), 5) => assert_eq!(s, "-1234.56"),
        _ => panic!("DECIMAL"),
    }
    let zero = [0x80u8, 0x00];
    match decode_cell(&zero, 0, 246, &[3, 1]).unwrap() {
        (CellValue::Decimal(s), 2) => assert_eq!(s, "0.0"),
        _ => panic!("DECIMAL"),
    }
    assert!(matches!(decode_cell(&pos, 0, 246, &[70, 2]), Err(CdcError::BinlogParseError(_))));
}

#[test]
fn undecodable_rows_are_skipped_with_a_control_record() {
    let mut e = engine();
    let mut body = rows_prefix(false);
    body.extend_from_slice(&[0x00, 1, 2]);
    match e.handle_packet(&packet(&event(30, &body, 1234))).unwrap() {
        StreamStep::DecodeSkipped(id, code, _) => assert_eq!((id, code), (0x55, 30)),
        other => panic!("expected a skip: {:?}", other),
    }
    assert_eq!(e.get_offset().binlog_position.position, 1234);
}

#[test]
fn binlog_format_and_eof_checks() {
    assert!(check_binlog_format("ROW").is_ok());
    assert!(matches!(check_binlog_format("MIXED"), Err(CdcError::ServerConfig(_))));
    assert!(is_eof_packet(&[0xFE, 0, 0, 2, 0]));
    assert!(!is_eof_packet(&[0xFE, 0, 0, 0, 0, 0, 0, 0, 0]));
    assert!(!is_eof_packet(&[0x00]));
}

#[test]
fn table_metadata_keeps_columns_in_order() {
    let e = engine();
    let m = e.table_metadata.last().unwrap();
    assert_eq!((m.database.as_str(), m.table.as_str()), ("testdb", "users"));
    assert_eq!(m.columns, vec!["id", "name", "email", "created_at"]);
    assert_eq!(m.primary_key, vec!["id"]);
}

#[test]
fn unknown_events_only_move_the_offset() {
    let mut e = engine();
    let r = records(e.handle_packet(&packet(&event(99, &[1, 2, 3], 777))).unwrap());
    assert!(r.is_empty());
    assert_eq!(e.get_offset().binlog_position.position, 777);
    let before = e.get_offset().binlog_position.position;
    assert!(e.handle_packet(&[0xFF, 1, 2]).is_err());
    assert_eq!(e.get_offset().binlog_position.position, before);
}

fn gtid_body(seq: u64) -> Vec<u8> {
    let mut body = vec![0u8];
    body.extend_from_slice(&[
        0x55, 0x0e, 0x84, 0x00, 0xe2, 0x9b, 0x41, 0xd4, 0xa7, 0x16, 0x44, 0x66, 0x55, 0x44, 0x00, 0x00,
    ]);
    body.extend_from_slice(&seq.to_le_bytes());
    body.extend_from_slice(&[0u8; 17]);
    body
}

#[test]
fn gtid_filter_keeps_only_listed_transactions() {
    let config = CdcConfig {
        connection: ConnectionConfig::default(),
        databases: vec![],
        tables: None,
        snapshot_mode: SnapshotMode::Never,
        include_ddl: false,
        gtid_filter: Some("550e8400-e29b-41d4-a716-446655440000:1-10".to_string()),
    };
    let mut e = CdcEngine::new(config);
    e.handle_packet(&packet(&event(19, &users_table_map(), 200))).unwrap();
    let mut body = rows_prefix(false);
    body.extend_from_slice(&user_row(1, "a", "b"));
    records(e.handle_packet(&packet(&event(33, &gtid_body(42), 300))).unwrap());
    assert!(records(e.handle_packet(&packet(&event(30, &body, 400))).unwrap()).is_empty());
    records(e.handle_packet(&packet(&event(16, &0u64.to_le_bytes(), 500))).unwrap());
    records(e.handle_packet(&packet(&event(33, &gtid_body(5), 600))).unwrap());
    assert_eq!(records(e.handle_packet(&packet(&event(30, &body, 700))).unwrap()).len(), 1);
}

#[test]
fn old_temporal_types_are_decoded() {
    match decode_cell(&1_700_000_000u32.to_le_bytes(), 0, 7, &[]).unwrap() {
        (CellValue::DateTime(d), 4) => {
            assert_eq!((d.year, d.month, d.day, d.hour, d.minute, d.second), (2023, 11, 14, 22, 13, 20))
        }
        _ => panic!("TIMESTAMP"),
    }
    match decode_cell(&20240115103005u64.to_le_bytes(), 0, 12, &[]).unwrap() {
        (CellValue::DateTime(d), 8) => {
            assert_eq!((d.year, d.month, d.day, d.hour, d.minute, d.second), (2024, 1, 15, 10, 30, 5))
        }
        _ => panic!("DATETIME"),
    }
    match decode_cell(&103005u32.to_le_bytes()[0..3], 0, 11, &[]).unwrap() {
        (CellValue::Time(s), 3) => assert_eq!(s, "10:30:05"),
        _ => panic!("TIME"),
    }
    let v: u32 = 2024 * 512 + 32 + 15;
    match decode_cell(&v.to_le_bytes()[0..3], 0, 14, &[]).unwrap() {
        (CellValue::Date(s), 3) => assert_eq!(s, "2024-01-15"),
        _ => panic!("NEWDATE"),
    }
}

#[test]
fn unknown_column_type_keeps_the_rest_as_bytes() {
    let mut tm = vec![0x56, 0, 0, 0, 0, 0, 0, 0];
    tm.push(6);
    tm.extend_from_slice(b"testdb");
    tm.push(0);
    tm.push(1);
    tm.extend_from_slice(b"t");
    tm.push(0);
    tm.push(2);
    tm.extend_from_slice(&[3, 0]);
    tm.push(0);
    tm.push(0x02);
    let mut e = engine();
    e.handle_packet(&packet(&event(19, &tm, 200))).unwrap();
    let mut body = vec![0x56, 0, 0, 0, 0, 0, 0, 0, 2, 0x03, 0x00];
    body.extend_from_slice(&9u32.to_le_bytes());
    body.extend_from_slice(&[0xAB, 0xCD]);
    let recs = records(e.handle_packet(&packet(&event(30, &body, 300))).unwrap());
    assert_eq!(recs.len(), 1);
    let after = recs[0].after.as_ref().unwrap();
    assert!(matches!(after[0].1, CellValue::Int32(9)));
    match &after[1].1 {
        CellValue::Bytes(b) => assert_eq!(b, &vec![0xAB, 0xCD]),
        other => panic!("expected raw bytes: {:?}", other),
    }
    assert_eq!(after[1].0, "@2");
}

#[test]
fn unreadable_gtid_filter_is_an_error() {
    let config = CdcConfig {
        connection: ConnectionConfig::default(),
        databases: vec![],
        tables: None,
        snapshot_mode: SnapshotMode::Never,
        include_ddl: false,
        gtid_filter: Some("uuid:5-3".to_string()),
    };
    assert!(matches!(CdcEngine::try_new(config), Err(CdcError::GtidError(_))));
}

#[test]
fn query_reply_states() {
    let s = ReplyState::Start;
    assert_eq!(s.next(&[0x00, 0, 0]), ReplyState::Done);
    assert_eq!(s.next(&[0xFF, 1, 2]), ReplyState::Done);
    let c = s.next(&[0x02]);
    assert_eq!(c, ReplyState::Columns);
    assert_eq!(c.next(&[0x03, b'd', b'e', b'f']), ReplyState::Columns);
    let r = c.next(&[0xFE, 0, 0, 2, 0]);
    assert_eq!(r, ReplyState::Rows);
    assert_eq!(r.next(&[0x03, b'R', b'O', b'W']), ReplyState::Rows);
    assert_eq!(r.next(&[0xFE, 0, 0, 2, 0]), ReplyState::Done);
}

#[test]
fn record_builders_and_cell_text() {
    let e = engine();
    let table = e.table_metadata[0].clone();
    let w = WriteRowsData {
        table_id: 1,
        flags: 0,
        column_count: 4,
        columns_present: vec![0x0F],
        rows: vec![vec![
            CellValue::Int32(1),
            CellValue::String("홍길동".to_string()),
            CellValue::String("hong@example.com".to_string()),
            CellValue::Null,
        ]],
    };
    let r = e.write_rows_to_change_event(&w, &table, 7);
    assert_eq!(r.len(), 1);
    assert_eq!(r[0].op, OperationType::Insert);
    assert_eq!((r[0].database.as_str(), r[0].table.as_str(), r[0].timestamp), ("testdb", "users", 7));
    let after = r[0].after.as_ref().unwrap();
    assert_eq!(after[1].0, "name");
    assert_eq!(after[1].1.as_text().as_deref(), Some("홍길동"));
    let u = UpdateRowsData {
        table_id: 1,
        flags: 0,
        column_count: 4,
        columns_present: vec![0x0F],
        columns_changed: vec![0x0F],
        rows: vec![(w.rows[0].clone(), w.rows[0].clone())],
    };
    assert!(e.update_rows_to_change_event(&u, &table, 7).is_empty());
    let d = DeleteRowsData { table_id: 1, flags: 0, column_count: 4, columns_present: vec![0x0F], rows: w.rows.clone() };
    let del = e.delete_rows_to_change_event(&d, &table, 7);
    assert!(del[0].after.is_none() && del[0].before.is_some());
    let q = QueryEventData { thread_id: 1, exec_time: 0, database: "testdb".to_string(), query: "DROP TABLE x".to_string() };
    let ddl = e.query_to_change_event(&q, 9).unwrap();
    assert_eq!((ddl.op, ddl.query.as_deref()), (OperationType::Ddl, Some("DROP TABLE x")));
    let q2 = QueryEventData { query: "INSERT INTO x VALUES (1)".to_string(), ..q };
    assert!(e.query_to_change_event(&q2, 9).is_none());
    assert_eq!(CellValue::Int64(-42).as_text().as_deref(), Some("-42"));
    assert_eq!(CellValue::Int64(i64::MIN).as_text().as_deref(), Some("-9223372036854775808"));
    assert_eq!(CellValue::UInt64(7).as_text().as_deref(), Some("7"));
    assert_eq!(CellValue::Null.as_text().as_deref(), Some("NULL"));
    assert!(CellValue::Int32(1).as_text().is_none());
}
