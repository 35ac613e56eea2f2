use monkeygang_server::bytes::{push_all, push_u32_le, push_zeros, read_u32_le};
use monkeygang_server::database::Record;
use monkeygang_server::wire::{
    encode_ping, encode_records, ClientPacket, PACKET_SIZE, RECORD_SIZE, RECORD_SLOTS,
    RESPONSE_SIZE,
};
use monkeygang_server::STRING_BUFFER_SIZE;

fn frame_of(kind: u32, name: &[u8], wave: u32, time: u32) -> [u8; PACKET_SIZE] {
    let mut frame = [0u8; PACKET_SIZE];
    frame[0..4].copy_from_slice(&kind.to_le_bytes());
    frame[4..4 + name.len()].copy_from_slice(name);
    frame[132..136].copy_from_slice(&wave.to_le_bytes());
    frame[136..140].copy_from_slice(&time.to_le_bytes());
    frame
}

fn record(name: &str, wave: u32, time: u32) -> Record {
    Record { name: name.to_string(), wave, time }
}

#[test]
fn the_sizes_are_those_of_the_layout() {
    assert_eq!(STRING_BUFFER_SIZE, 128);
    assert_eq!(RECORD_SIZE, STRING_BUFFER_SIZE + 4 + 4);
    assert_eq!(PACKET_SIZE, 4 + RECORD_SIZE);
    assert_eq!(RECORD_SLOTS, 10);
    assert_eq!(RESPONSE_SIZE, 4 + RECORD_SLOTS * RECORD_SIZE);
}

#[test]
fn a_frame_tagged_zero_is_a_query() {
    assert!(matches!(ClientPacket::decode(&frame_of(0, b"", 0, 0)), ClientPacket::GetInfo));
    assert!(matches!(ClientPacket::decode(&frame_of(0, b"ignored", 7, 9)), ClientPacket::GetInfo));
}

#[test]
fn a_frame_tagged_two_is_a_ping() {
    assert!(matches!(ClientPacket::decode(&frame_of(2, b"", 0, 0)), ClientPacket::Ping));
    assert!(matches!(ClientPacket::decode(&frame_of(2, b"ignored", 7, 9)), ClientPacket::Ping));
}

#[test]
fn a_frame_tagged_one_is_a_record() {
    match ClientPacket::decode(&frame_of(1, b"ann", 5, 7)) {
        ClientPacket::SendRecord(p) => {
            let mut name = [0u8; 128];
            name[0] = b'a';
            name[1] = b'n';
            name[2] = b'n';
            assert_eq!(p.string_buffer, name);
            assert_eq!(p.wave, 5);
            assert_eq!(p.time, 7);
        }
        _ => panic!("not a record"),
    }
}

#[test]
fn the_name_field_is_taken_as_it_stands() {
    let field: Vec<u8> = (0..128u32).map(|i| (255 - i) as u8).collect();
    match ClientPacket::decode(&frame_of(1, &field, 0x01020304, 0xfffefdfc)) {
        ClientPacket::SendRecord(p) => {
            assert_eq!(p.string_buffer.to_vec(), field);
            assert_eq!(p.wave, 0x01020304);
            assert_eq!(p.time, 0xfffefdfc);
        }
        _ => panic!("not a record"),
    }
}

#[test]
fn numbers_have_their_least_significant_byte_first() {
    let mut frame = [0u8; PACKET_SIZE];
    frame[0] = 1;
    frame[132] = 0x78;
    frame[133] = 0x56;
    frame[134] = 0x34;
    frame[135] = 0x12;
    frame[139] = 0x80;
    match ClientPacket::decode(&frame) {
        ClientPacket::SendRecord(p) => {
            assert_eq!(p.wave, 0x12345678);
            assert_eq!(p.time, 0x80000000);
        }
        _ => panic!("not a record"),
    }
    assert_eq!(read_u32_le(&[0xff, 0x01, 0x02, 0x03, 0x04], 1), 0x04030201);
    let mut out = vec![9u8];
    push_u32_le(&mut out, 0x12345678);
    assert_eq!(out, vec![9, 0x78, 0x56, 0x34, 0x12]);
    let mut out = Vec::new();
    push_u32_le(&mut out, u32::MAX);
    push_u32_le(&mut out, 256);
    assert_eq!(out, vec![255, 255, 255, 255, 0, 1, 0, 0]);
}

#[test]
fn any_other_tag_is_unknown() {
    assert!(matches!(ClientPacket::decode(&frame_of(3, b"", 0, 0)), ClientPacket::Unknown(3)));
    assert!(matches!(
        ClientPacket::decode(&frame_of(256, b"", 0, 0)),
        ClientPacket::Unknown(256)
    ));
    assert!(matches!(
        ClientPacket::decode(&frame_of(0x01000000, b"", 0, 0)),
        ClientPacket::Unknown(0x01000000)
    ));
    assert!(matches!(
        ClientPacket::decode(&frame_of(u32::MAX, b"", 0, 0)),
        ClientPacket::Unknown(u32::MAX)
    ));
}

#[test]
fn a_ping_reply_is_tagged_one_and_zero_filled() {
    let frame = encode_ping();
    assert_eq!(frame.len(), 1364);
    assert_eq!(&frame[0..4], &[1, 0, 0, 0]);
    assert!(frame[4..].iter().all(|b| *b == 0));
}

#[test]
fn a_reply_without_records_is_all_zeros() {
    let frame = encode_records(&vec![]);
    assert_eq!(frame, vec![0u8; 1364]);
}

#[test]
fn a_reply_holds_its_records_slot_by_slot() {
    let ann = record("ann", 5, 7);
    let bob = record("bob", 0x01020304, 0xa0b0c0d0);
    let frame = encode_records(&vec![&ann, &bob]);
    assert_eq!(frame.len(), 1364);
    assert_eq!(&frame[0..4], &[0, 0, 0, 0]);
    assert_eq!(&frame[4..7], b"ann");
    assert!(frame[7..132].iter().all(|b| *b == 0));
    assert_eq!(&frame[132..136], &[5, 0, 0, 0]);
    assert_eq!(&frame[136..140], &[7, 0, 0, 0]);
    assert_eq!(&frame[140..143], b"bob");
    assert!(frame[143..268].iter().all(|b| *b == 0));
    assert_eq!(&frame[268..272], &[0x04, 0x03, 0x02, 0x01]);
    assert_eq!(&frame[272..276], &[0xd0, 0xc0, 0xb0, 0xa0]);
    assert!(frame[276..].iter().all(|b| *b == 0));
}

#[test]
fn a_reply_holds_up_to_ten_records() {
    let records: Vec<Record> = (0..10u32).map(|i| record(&format!("q{}", i), i, 10 * i)).collect();
    let best: Vec<&Record> = records.iter().collect();
    let frame = encode_records(&best);
    assert_eq!(frame.len(), 1364);
    for i in 0..10usize {
        let at = 4 + 136 * i;
        assert_eq!(&frame[at..at + 2], format!("q{}", i).as_bytes());
        assert!(frame[at + 2..at + 128].iter().all(|b| *b == 0));
        assert_eq!(read_u32_le(&frame, at + 128), i as u32);
        assert_eq!(read_u32_le(&frame, at + 132), 10 * i as u32);
    }
}

#[test]
fn a_name_may_fill_its_field() {
    let long = "x".repeat(128);
    let full = record(&long, 1, 2);
    let frame = encode_records(&vec![&full]);
    assert_eq!(frame.len(), 1364);
    assert_eq!(&frame[4..132], long.as_bytes());
    assert_eq!(&frame[132..136], &[1, 0, 0, 0]);
    let wide = record("\u{e9}t\u{e9}", 1, 2);
    let frame = encode_records(&vec![&wide]);
    assert_eq!(&frame[4..9], &[0xc3, 0xa9, b't', 0xc3, 0xa9]);
    assert!(frame[9..132].iter().all(|b| *b == 0));
}

#[test]
fn bytes_are_appended_in_order() {
    let mut out = vec![1u8, 2];
    push_all(&mut out, &[3, 4, 5]);
    push_all(&mut out, &[]);
    push_zeros(&mut out, 3);
    push_zeros(&mut out, 0);
    assert_eq!(out, vec![1, 2, 3, 4, 5, 0, 0, 0]);
}
