use recordlog::{Record, Serializable};

fn encode(rec: &Record) -> Vec<u8> {
    let mut buf = Vec::new();
    rec.serialize(&mut buf);
    buf
}

#[test]
fn record_round_trip_add() {
    let rec = Record::AddRecord {
        position: 7,
        queue: String::from("my-queue"),
        payload: vec![1, 2, 3, 0, 255],
    };
    let bytes = encode(&rec);
    assert_eq!(bytes[0], 0);
    assert_eq!(bytes.len(), 11 + 8 + 5);
    let back = Record::deserialize(&bytes).unwrap();
    assert_eq!(back, rec);
}

#[test]
fn record_round_trip_truncate() {
    let rec = Record::Truncate { position: u64::MAX, queue: String::from("q") };
    let bytes = encode(&rec);
    assert_eq!(bytes[0], 1);
    let back = Record::deserialize(&bytes).unwrap();
    assert_eq!(back, rec);
}

#[test]
fn record_round_trip_empty_payload() {
    let rec = Record::AddRecord {
        position: 0,
        queue: String::from("q"),
        payload: Vec::new(),
    };
    let back = Record::deserialize(&encode(&rec)).unwrap();
    assert_eq!(back, rec);
}

#[test]
fn record_wire_format_is_little_endian() {
    let rec = Record::AddRecord {
        position: 0x0102030405060708,
        queue: String::from("ab"),
        payload: vec![9],
    };
    let bytes = encode(&rec);
    assert_eq!(
        bytes,
        vec![0, 0x08, 0x07, 0x06, 0x05, 0x04, 0x03, 0x02, 0x01, 2, 0, b'a', b'b', 9]
    );
}

#[test]
fn record_position() {
    let add = Record::AddRecord { position: 3, queue: String::from("q"), payload: vec![] };
    let trunc = Record::Truncate { position: 9, queue: String::from("q") };
    assert_eq!(add.position(), 3);
    assert_eq!(trunc.position(), 9);
}

#[test]
fn record_decode_short_buffer() {
    // fewer than the 11 header bytes
    assert!(Record::deserialize(&[0u8; 10]).is_none());
    assert!(Record::deserialize(&[]).is_none());
}

#[test]
fn record_decode_unknown_tag() {
    let rec = Record::Truncate { position: 1, queue: String::from("q") };
    let mut bytes = encode(&rec);
    bytes[0] = 2;
    assert!(Record::deserialize(&bytes).is_none());
}

#[test]
fn record_decode_queue_length_overruns_buffer() {
    let rec = Record::Truncate { position: 1, queue: String::from("q") };
    let mut bytes = encode(&rec);
    bytes[9] = 200; // declared queue length far beyond the buffer
    assert!(Record::deserialize(&bytes).is_none());
}

#[test]
fn record_decode_invalid_utf8_queue() {
    let rec = Record::Truncate { position: 1, queue: String::from("qq") };
    let mut bytes = encode(&rec);
    bytes[11] = 0xFF; // not valid UTF-8
    assert!(Record::deserialize(&bytes).is_none());
}

#[test]
fn bytes_serializable_round_trip() {
    let v: Vec<u8> = vec![1, 2, 3];
    let mut buf = vec![9, 9];
    v.serialize(&mut buf);
    assert_eq!(buf, v);
    let back: Vec<u8> = <Vec<u8> as Serializable>::deserialize(&buf).unwrap();
    assert_eq!(back, v);
}

#[test]
fn string_serializable_round_trip() {
    let s = String::from("héllo");
    let mut buf = Vec::new();
    s.serialize(&mut buf);
    assert_eq!(buf, s.as_bytes());
    let back: String = <String as Serializable>::deserialize(&buf).unwrap();
    assert_eq!(back, s);
    assert!(<String as Serializable>::deserialize(&[0xFF, 0xFE]).is_none());
}
