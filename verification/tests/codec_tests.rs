use rustdb::codec::{read_record, write_record};
use rustdb::{DataSgment, DbError};

fn crc32_ieee(data: &[u8]) -> u32 {
    crc::Crc::<u32>::new(&crc::CRC_32_ISO_HDLC).checksum(data)
}

#[test]
fn frame_layout_is_exact() {
    let mut data: Vec<u8> = Vec::new();
    let key = b"abc".to_vec();
    let value = b"xyzw".to_vec();

    let written = write_record(&mut data, &key, &value);

    assert_eq!(written, 12 + 3 + 4);
    assert_eq!(data.len(), 19);
    let expected_crc = crc32_ieee(b"abcxyzw");
    assert_eq!(&data[0..4], &expected_crc.to_be_bytes());
    assert_eq!(&data[4..8], &3u32.to_be_bytes());
    assert_eq!(&data[8..12], &4u32.to_be_bytes());
    assert_eq!(&data[12..15], b"abc");
    assert_eq!(&data[15..19], b"xyzw");
}

#[test]
fn record_round_trip() {
    let mut data: Vec<u8> = Vec::new();
    write_record(&mut data, &b"key-1".to_vec(), &b"value-1".to_vec());
    write_record(&mut data, &b"key-2".to_vec(), &b"value-2".to_vec());

    let first = read_record(&data, 0).unwrap();
    assert_eq!(first.key, b"key-1");
    assert_eq!(first.value, b"value-1");

    let second = read_record(&data, 24).unwrap();
    assert_eq!(second.key, b"key-2");
    assert_eq!(second.value, b"value-2");
}

#[test]
fn clean_end_of_stream() {
    let mut data: Vec<u8> = Vec::new();
    write_record(&mut data, &b"k".to_vec(), &b"v".to_vec());

    let result = read_record(&data, data.len() as u64);
    assert_eq!(result.unwrap_err(), DbError::EndOfStream);
}

#[test]
fn short_read_mid_frame_is_truncation() {
    let mut data: Vec<u8> = Vec::new();
    write_record(&mut data, &b"key".to_vec(), &b"value".to_vec());
    data.truncate(data.len() - 2);

    let result = read_record(&data, 0);
    assert_eq!(result.unwrap_err(), DbError::TruncatedRecord { position: 0 });
}

#[test]
fn checksum_mismatch_is_corruption() {
    let mut data: Vec<u8> = Vec::new();
    write_record(&mut data, &b"key".to_vec(), &b"value".to_vec());
    // flip one bit of the stored checksum
    data[0] ^= 0x01;

    let expected = crc32_ieee(b"keyvalue");
    let result = read_record(&data, 0);
    assert_eq!(
        result.unwrap_err(),
        DbError::CorruptRecord {
            position: 20,
            expected,
            found: u32::from_be_bytes([data[0], data[1], data[2], data[3]]),
        }
    );
}

#[test]
fn payload_bit_flip_is_corruption() {
    let mut data: Vec<u8> = Vec::new();
    write_record(&mut data, &b"key".to_vec(), &b"value".to_vec());
    // flip one bit inside the value bytes
    let last = data.len() - 1;
    data[last] ^= 0x80;

    match read_record(&data, 0) {
        Err(DbError::CorruptRecord { position, .. }) => assert_eq!(position, 20),
        other => panic!("expected corruption, got {:?}", other),
    }
}

#[test]
fn open_reports_corrupt_record() {
    let mut data: Vec<u8> = Vec::new();
    data.extend_from_slice(&0x1234u64.to_be_bytes());
    data.extend_from_slice(&0u64.to_be_bytes());
    write_record(&mut data, &b"alpha".to_vec(), &b"beta".to_vec());
    // a bit flipped inside the record frame must fail the replay
    data[30] ^= 0x04;

    match DataSgment::open(data).map(|_| ()) {
        Err(DbError::CorruptRecord { .. }) => {}
        other => panic!("expected corruption, got {:?}", other),
    }
}

#[test]
fn open_rejects_short_header() {
    let result = DataSgment::open(vec![1, 2, 3]).map(|_| ());
    assert_eq!(result.unwrap_err(), DbError::InvalidHeader);
}

#[test]
fn hex_file_names() {
    assert_eq!(
        rustdb::names::parse_file_name(0x53e155bcbdeb560f),
        "53e155bcbdeb560f"
    );
    assert_eq!(rustdb::names::parse_file_name(0), "0000000000000000");
    assert_eq!(rustdb::names::parse_next_segment_name(0), None);
    assert_eq!(
        rustdb::names::parse_next_segment_name(0xff),
        Some(String::from("00000000000000ff"))
    );
}
