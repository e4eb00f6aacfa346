//! Tests of the segment record format.

use bitcask::bytes::{push_u32_be, read_u32_be};
use bitcask::format::{DataEntry, DataHeader, HintEntry, HEADER_SIZE};
use rand::RngExt;

fn header_bytes(header: &DataHeader) -> Vec<u8> {
    let mut buf: Vec<u8> = Vec::new();
    push_u32_be(&mut buf, header.crc());
    push_u32_be(&mut buf, header.timestamp());
    push_u32_be(&mut buf, header.key_sz());
    push_u32_be(&mut buf, header.value_sz());
    buf
}

fn header_from_bytes(data: &Vec<u8>) -> DataHeader {
    DataHeader::new(
        read_u32_be(data, 0),
        read_u32_be(data, 4),
        read_u32_be(data, 8),
        read_u32_be(data, 12),
    )
}

fn header_test(header: DataHeader) {
    let data = header_bytes(&header);
    assert_eq!(data.len(), HEADER_SIZE);
    let deserialized_header = header_from_bytes(&data);

    assert_eq!(header, deserialized_header)
}

fn random_header() -> DataHeader {
    let mut rng = rand::rng();

    DataHeader::new(rng.random(), rng.random(), rng.random(), rng.random())
}

#[test]
fn it_should_serialize_header() {
    let tests = [
        DataHeader::new(10, 10, 10, 10),
        DataHeader::new(0, 0, 0, 0),
        DataHeader::new(10000, 10000, 10000, 10000),
    ];

    for test in tests {
        header_test(test)
    }
}

#[test]
fn it_should_serialize_header_random() {
    for _ in 0..10 {
        header_test(random_header());
    }
}

#[test]
fn it_should_create_disk_entry() {
    let entry = DataEntry::new(b"hello".to_vec(), b"world".to_vec());

    assert_eq!(entry.header.key_sz(), 5);
    assert_eq!(entry.header.value_sz(), 5);
}

#[test]
fn test_entry_io() {
    let entry = DataEntry::new(b"hello".to_vec(), b"world".to_vec());

    let mut buf: Vec<u8> = Vec::new();

    let offset = entry.write_to(&mut buf).unwrap();
    assert_eq!(offset, 0);

    let entry1 = DataEntry::read_from(&buf, offset).unwrap();
    assert_eq!(entry1.is_some(), true);

    let e = entry1.unwrap();
    assert_eq!(e.key, b"hello".to_vec());
}

#[test]
fn header_layout_is_big_endian() {
    let header = DataHeader::new(0x01020304, 0x05060708, 0x090a0b0c, 0x0d0e0f10);
    let data = header_bytes(&header);
    assert_eq!(
        data,
        vec![1, 2, 3, 4, 5, 6, 7, 8, 9, 0x0a, 0x0b, 0x0c, 0x0d, 0x0e, 0x0f, 0x10]
    );
}

#[test]
fn record_round_trips_through_bytes() {
    let entry = DataEntry::with_timestamp(b"key-1".to_vec(), b"value-1".to_vec(), 77);
    let mut buf: Vec<u8> = Vec::new();
    buf.push(0xAA);
    let offset = entry.write_to(&mut buf).unwrap();
    assert_eq!(offset, 1);
    assert_eq!(buf.len(), 1 + HEADER_SIZE + 5 + 7);

    let read = DataEntry::read_from(&buf, offset).unwrap().unwrap();
    assert_eq!(read.key, b"key-1".to_vec());
    assert_eq!(read.value, b"value-1".to_vec());
    assert_eq!(read.header.timestamp(), 77);
    assert_eq!(read.header.crc(), 0);

    // reading at the end of the stream yields no record
    let done = DataEntry::read_from(&buf, buf.len() as u64).unwrap();
    assert!(done.is_none());
}

#[test]
fn truncated_record_is_a_deserialize_error() {
    let entry = DataEntry::with_timestamp(b"key-1".to_vec(), b"value-1".to_vec(), 77);
    let mut buf: Vec<u8> = Vec::new();
    let _ = entry.write_to(&mut buf).unwrap();
    buf.truncate(HEADER_SIZE + 2);
    let r = DataEntry::read_from(&buf, 0);
    assert!(matches!(
        r,
        Err(bitcask::error::StoreError::DeserializeError)
    ));
}

#[test]
fn hint_record_round_trips_through_bytes() {
    // a hint for a data record of total size 16 + 3 + 5 at offset 96
    let hint = HintEntry::new(b"abc".to_vec(), 96, 24);
    assert_eq!(hint.offset(), 96);
    assert_eq!(hint.size(), 24);
    assert_eq!(hint.selfsize(), 19);

    let mut buf: Vec<u8> = Vec::new();
    let offset = hint.write_to(&mut buf).unwrap();
    assert_eq!(offset, 0);
    assert_eq!(buf.len(), 19);

    let read = HintEntry::read_from(&buf, 0).unwrap().unwrap();
    assert_eq!(read.key, b"abc".to_vec());
    assert_eq!(read.offset(), 96);
    assert_eq!(read.size(), 24);
}
