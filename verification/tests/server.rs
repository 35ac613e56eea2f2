use monkeygang_server::database::{add_record, Database};
use monkeygang_server::server::{ConnectionState, ReadOutcome, Server};
use monkeygang_server::wire::{ClientPacket, PacketSendRecord, PACKET_SIZE};

fn empty_board() -> Database {
    Database::new("board.txt".to_string(), b"").unwrap()
}

fn entries(db: &Database) -> Vec<(String, u32, u32)> {
    db.top(db.len()).iter().map(|r| (r.name.clone(), r.wave, r.time)).collect()
}

fn frame_of(kind: u32, name: &[u8], wave: u32, time: u32) -> [u8; PACKET_SIZE] {
    let mut frame = [0u8; PACKET_SIZE];
    frame[0..4].copy_from_slice(&kind.to_le_bytes());
    frame[4..4 + name.len()].copy_from_slice(name);
    frame[132..136].copy_from_slice(&wave.to_le_bytes());
    frame[136..140].copy_from_slice(&time.to_le_bytes());
    frame
}

fn full(frame: [u8; PACKET_SIZE]) -> ReadOutcome {
    ReadOutcome::Read { bytes: frame, count: PACKET_SIZE }
}

fn padded(name: &str) -> String {
    let mut field = name.to_string();
    while field.len() < 128 {
        field.push('\0');
    }
    field
}

#[test]
fn a_new_connection_is_active() {
    let server = Server::new();
    assert!(server.is_active());
}

#[test]
fn a_query_on_an_empty_board_is_answered_with_ten_empty_slots() {
    let mut server = Server::new();
    let mut db = empty_board();
    let reply = server.run(&mut db, full(frame_of(0, b"", 0, 0)));
    assert_eq!(reply, Some(vec![0u8; 1364]));
    assert!(server.is_active());
    assert_eq!(db.len(), 0);
}

#[test]
fn a_ping_is_answered_with_a_ping() {
    let mut server = Server::new();
    let mut db = empty_board();
    let reply = server.run(&mut db, full(frame_of(2, b"", 0, 0))).unwrap();
    assert_eq!(reply.len(), 1364);
    assert_eq!(&reply[0..4], &[1, 0, 0, 0]);
    assert!(reply[4..].iter().all(|b| *b == 0));
    assert!(server.is_active());
    assert_eq!(Server::send_ping(), reply);
}

#[test]
fn a_record_is_entered_and_not_answered() {
    let mut server = Server::new();
    let mut db = empty_board();
    let reply = server.run(&mut db, full(frame_of(1, b"ann", 5, 7)));
    assert_eq!(reply, None);
    assert!(server.is_active());
    assert_eq!(entries(&db), vec![(padded("ann"), 5, 7)]);
}

#[test]
fn a_record_that_was_entered_is_sent_back_byte_for_byte() {
    let mut server = Server::new();
    let mut db = empty_board();
    assert_eq!(server.run(&mut db, full(frame_of(1, b"ann", 5, 7))), None);
    assert_eq!(server.run(&mut db, full(frame_of(1, b"bob\0x", 6, 1))), None);
    assert_eq!(server.run(&mut db, full(frame_of(1, b"ann", 5, 3))), None);
    let reply = server.run(&mut db, full(frame_of(0, b"", 0, 0))).unwrap();
    assert_eq!(reply.len(), 1364);
    assert_eq!(&reply[0..4], &[0, 0, 0, 0]);
    assert_eq!(&reply[4..140], &frame_of(1, b"bob\0x", 6, 1)[4..140]);
    assert_eq!(&reply[140..276], &frame_of(1, b"ann", 5, 3)[4..140]);
    assert!(reply[276..].iter().all(|b| *b == 0));
    assert_eq!(db.len(), 2);
}

#[test]
fn a_query_is_answered_with_the_ten_best() {
    let mut server = Server::new();
    let mut db = empty_board();
    for i in 0..15u32 {
        let name = format!("q{}", i);
        assert_eq!(server.run(&mut db, full(frame_of(1, name.as_bytes(), i, 0))), None);
    }
    let reply = server.run(&mut db, full(frame_of(0, b"", 0, 0))).unwrap();
    assert_eq!(reply.len(), 1364);
    for k in 0..10usize {
        let i = 14 - k as u32;
        let slot = &reply[4 + 136 * k..4 + 136 * (k + 1)];
        assert_eq!(slot, &frame_of(1, format!("q{}", i).as_bytes(), i, 0)[4..140]);
    }
    assert_eq!(db.len(), 15);
}

#[test]
fn a_record_whose_name_is_not_text_changes_nothing() {
    let mut server = Server::new();
    let mut db = empty_board();
    add_record(&mut db, "kept".to_string(), 1, 1);
    let before = entries(&db);
    assert_eq!(server.run(&mut db, full(frame_of(1, b"\xff\xfe", 9, 9))), None);
    assert_eq!(server.run(&mut db, full(frame_of(1, b"ann\x80", 9, 9))), None);
    assert_eq!(server.run(&mut db, full(frame_of(1, b"\xc3", 9, 9))), None);
    let mut tail = [0u8; 128];
    tail[127] = 0xe2;
    assert_eq!(server.run(&mut db, full(frame_of(1, &tail, 9, 9))), None);
    assert_eq!(entries(&db), before);
    assert!(server.is_active());
    assert!(server.run(&mut db, full(frame_of(2, b"", 0, 0))).is_some());
}

#[test]
fn a_record_whose_name_is_text_beyond_ascii_changes_nothing() {
    let mut server = Server::new();
    let mut db = empty_board();
    assert_eq!(server.run(&mut db, full(frame_of(1, "h\u{e9}l\u{e8}ne".as_bytes(), 9, 9))), None);
    assert_eq!(server.run(&mut db, full(frame_of(1, "\u{1f600}".as_bytes(), 9, 9))), None);
    assert_eq!(db.len(), 0);
    assert!(server.is_active());
}

#[test]
fn every_ascii_byte_may_stand_in_a_name() {
    let mut server = Server::new();
    let mut db = empty_board();
    let field: Vec<u8> = (0..128u8).collect();
    assert_eq!(server.run(&mut db, full(frame_of(1, &field, 2, 3))), None);
    let name: String = (0..128u8).map(|b| b as char).collect();
    assert_eq!(entries(&db), vec![(name, 2, 3)]);
    let reply = server.run(&mut db, full(frame_of(0, b"", 0, 0))).unwrap();
    assert_eq!(&reply[4..132], &field[..]);
}

#[test]
fn an_unknown_tag_is_passed_over() {
    let mut server = Server::new();
    let mut db = empty_board();
    assert_eq!(server.run(&mut db, full(frame_of(3, b"ann", 5, 7))), None);
    assert_eq!(server.run(&mut db, full(frame_of(0xffffffff, b"ann", 5, 7))), None);
    assert_eq!(server.run(&mut db, full(frame_of(0x100, b"ann", 5, 7))), None);
    assert!(server.is_active());
    assert_eq!(db.len(), 0);
}

#[test]
fn a_failed_read_closes_the_connection() {
    let mut server = Server::new();
    let mut db = empty_board();
    assert_eq!(server.run(&mut db, ReadOutcome::Failed), None);
    assert!(!server.is_active());
}

#[test]
fn a_short_read_closes_the_connection() {
    for count in [0usize, 1, 4, 139] {
        let mut server = Server::new();
        let mut db = empty_board();
        let read = ReadOutcome::Read { bytes: frame_of(1, b"ann", 5, 7), count };
        assert_eq!(server.run(&mut db, read), None);
        assert!(!server.is_active());
        assert_eq!(db.len(), 0);
    }
}

#[test]
fn a_closed_connection_stays_closed() {
    let mut server = Server::new();
    let mut db = empty_board();
    assert_eq!(server.run(&mut db, ReadOutcome::Failed), None);
    assert_eq!(server.run(&mut db, full(frame_of(2, b"", 0, 0))), None);
    assert_eq!(server.run(&mut db, full(frame_of(1, b"ann", 5, 7))), None);
    assert_eq!(server.run(&mut db, full(frame_of(0, b"", 0, 0))), None);
    assert!(!server.is_active());
    assert_eq!(db.len(), 0);
}

#[test]
fn one_connection_closing_leaves_the_others_and_the_board() {
    let mut one = Server::new();
    let mut other = Server::new();
    let mut db = empty_board();
    assert_eq!(one.run(&mut db, full(frame_of(1, b"ann", 5, 7))), None);
    assert_eq!(one.run(&mut db, ReadOutcome::Failed), None);
    assert!(!one.is_active());
    assert!(other.is_active());
    assert_eq!(other.run(&mut db, full(frame_of(1, b"bob", 6, 7))), None);
    assert_eq!(entries(&db), vec![(padded("bob"), 6, 7), (padded("ann"), 5, 7)]);
}

#[test]
fn a_name_from_a_snapshot_that_fits_is_sent() {
    let long = "n".repeat(128);
    let text = format!("{}\n3\n4\nshort\n1\n2\n", long);
    let mut db = Database::new("board.txt".to_string(), text.as_bytes()).unwrap();
    let mut server = Server::new();
    let reply = server.run(&mut db, full(frame_of(0, b"", 0, 0))).unwrap();
    assert_eq!(&reply[4..132], long.as_bytes());
    assert_eq!(&reply[132..140], &[3, 0, 0, 0, 4, 0, 0, 0]);
    assert_eq!(&reply[140..145], b"short");
    assert!(reply[145..268].iter().all(|b| *b == 0));
    assert!(server.is_active());
}

#[test]
fn a_name_from_a_snapshot_that_does_not_fit_ends_the_query() {
    let long = "n".repeat(129);
    let text = format!("{}\n3\n4\n", long);
    let mut db = Database::new("board.txt".to_string(), text.as_bytes()).unwrap();
    assert_eq!(Server::handle_get_records(&db), None);
    let mut server = Server::new();
    assert_eq!(server.run(&mut db, full(frame_of(0, b"", 0, 0))), None);
    assert!(!server.is_active());
    assert_eq!(db.len(), 1);
}

#[test]
fn a_name_that_does_not_fit_matters_only_among_the_ten_best() {
    let mut text = String::new();
    for i in 0..10u32 {
        text.push_str(&format!("q{}\n{}\n0\n", i, 100 - i));
    }
    text.push_str(&format!("{}\n1\n0\n", "n".repeat(200)));
    let mut db = Database::new("board.txt".to_string(), text.as_bytes()).unwrap();
    let mut server = Server::new();
    let reply = server.run(&mut db, full(frame_of(0, b"", 0, 0)));
    assert_eq!(reply.map(|r| r.len()), Some(1364));
    assert!(server.is_active());
}

#[test]
fn the_handlers_are_the_steps_of_run() {
    let mut db = empty_board();
    let packet = match ClientPacket::decode(&frame_of(1, b"ann", 5, 7)) {
        ClientPacket::SendRecord(p) => p,
        _ => panic!("not a record"),
    };
    Server::handle_send_record(&packet, &mut db);
    assert_eq!(entries(&db), vec![(padded("ann"), 5, 7)]);
    let mut field = [0u8; 128];
    field[0] = 0x80;
    let bad = PacketSendRecord { string_buffer: field, wave: 9, time: 9 };
    Server::handle_send_record(&bad, &mut db);
    assert_eq!(entries(&db), vec![(padded("ann"), 5, 7)]);
    let reply = Server::handle_get_records(&db).unwrap();
    assert_eq!(&reply[4..140], &frame_of(1, b"ann", 5, 7)[4..140]);
    assert_eq!(ConnectionState::Active, ConnectionState::Active);
    assert_ne!(ConnectionState::Active, ConnectionState::Closed);
}
