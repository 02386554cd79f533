use redis_lite::snapshot::{
    interpret_length_encoding, read_expiry_timestamp, read_length_encoded_int, read_length_encoding,
    read_string_encoded, DataType, ExpiryTimestamp, LengthEncoding, RdbReadError, RdbReader,
};

fn header() -> Vec<u8> {
    b"REDIS0011".to_vec()
}

fn text_of(v: Option<&DataType>) -> String {
    match v {
        Some(DataType::String(s)) => s.clone(),
        _ => panic!("expected a string value"),
    }
}

#[test]
fn parses_one_string_key() {
    let mut data = header();
    data.extend_from_slice(&[0xFE, 0x00, 0x00, 0x03]);
    data.extend_from_slice(b"foo");
    data.push(0x03);
    data.extend_from_slice(b"bar");
    data.push(0xFF);
    data.extend_from_slice(&[0; 8]);
    let rdb = RdbReader::read(&data).unwrap();
    assert_eq!(rdb.rdb_version, 11);
    let db0 = &rdb.databases[0];
    assert_eq!(text_of(db0.get(&"foo".to_string())), "bar");
    assert_eq!(db0.keys().len(), 1);
    for (i, db) in rdb.databases.iter().enumerate() {
        if i != 0 {
            assert!(db.keys().is_empty());
        }
    }
    assert!(rdb.expirations[0].keys().is_empty());
}

#[test]
fn length_encoding_schemes() {
    assert_eq!(read_length_encoded_int(&[0b0000_0101], 0).unwrap(), (5, 1));
    assert_eq!(read_length_encoded_int(&[0b0100_0001, 0x02], 0).unwrap(), (0x102, 2));
    assert_eq!(read_length_encoded_int(&[0x80, 0x01, 0x00, 0x01, 0x00], 0).unwrap(), (0x10001, 5));
    let (text, n) = read_string_encoded(&[0b1100_0000, 0x2A], 0).unwrap();
    assert_eq!(text, "42");
    assert_eq!(n, 2);
}

#[test]
fn special_format_integers_in_strings() {
    let (text, n) = read_string_encoded(&[0xC1, 0x39, 0x30], 0).unwrap();
    assert_eq!((text.as_str(), n), ("12345", 3));
    let (text, n) = read_string_encoded(&[0xC2, 0x01, 0x00, 0x00, 0x01], 0).unwrap();
    assert_eq!((text.as_str(), n), ("16777217", 5));
    assert_eq!(read_string_encoded(&[0xC3], 0).unwrap_err(), RdbReadError::UnsupportedStringEncoding(3));
}

#[test]
fn length_encoding_of_byte() {
    assert_eq!(read_length_encoding(&[0x45], 0).unwrap(), (LengthEncoding::RemainingAndNextByte, 5));
    assert_eq!(read_length_encoding(&[0xBF], 0).unwrap(), (LengthEncoding::DiscardRemainingGetNext4Bytes, 0));
    assert_eq!(read_length_encoding(&[0xC2], 0).unwrap(), (LengthEncoding::SpecialFormat, 2));
    assert_eq!(read_length_encoding(&[], 0).unwrap_err(), RdbReadError::UnexpectedEof);
    assert_eq!(
        interpret_length_encoding(&[], 0, LengthEncoding::SpecialFormat, 0).unwrap_err(),
        RdbReadError::SpecialFormatInvalidIntEncoded
    );
}

#[test]
fn special_format_is_no_plain_length() {
    assert_eq!(read_length_encoded_int(&[0xC0, 0x01], 0).unwrap_err(), RdbReadError::SpecialFormatInvalidIntEncoded);
}

#[test]
fn expiry_records_fill_the_side_table() {
    let mut data = header();
    data.extend_from_slice(&[0xFA, 0x03]);
    data.extend_from_slice(b"ver");
    data.extend_from_slice(&[0x03]);
    data.extend_from_slice(b"7.2");
    data.extend_from_slice(&[0xFE, 0x02, 0xFB, 0x02, 0x01]);
    data.push(0xFC);
    data.extend_from_slice(&1_700_000_000_123u64.to_le_bytes());
    data.extend_from_slice(&[0x00, 0x01, b'a', 0x01, b'1']);
    data.push(0xFD);
    data.extend_from_slice(&1_700_000_000u32.to_le_bytes());
    data.extend_from_slice(&[0x00, 0x01, b'b', 0xC0, 0x07]);
    data.push(0xFF);
    data.extend_from_slice(&[0; 8]);
    let rdb = RdbReader::read(&data).unwrap();
    assert_eq!(rdb.metadata.get(&"ver".to_string()), Some(&"7.2".to_string()));
    assert_eq!(text_of(rdb.databases[2].get(&"a".to_string())), "1");
    assert_eq!(text_of(rdb.databases[2].get(&"b".to_string())), "7");
    assert_eq!(rdb.expirations[2].get(&"a".to_string()), Some(&1_700_000_000_123u64));
    assert_eq!(rdb.expirations[2].get(&"b".to_string()), Some(&1_700_000_000_000u64));
}

#[test]
fn expiry_timestamp_flags() {
    match read_expiry_timestamp(&[1, 0, 0, 0], 0, 0xFD).unwrap() {
        (ExpiryTimestamp::Seconds(1), 4) => {}
        _ => panic!("expected one second"),
    }
    assert!(matches!(read_expiry_timestamp(&[0; 8], 0, 0xFC).unwrap(), (ExpiryTimestamp::Milliseconds(0), 8)));
    assert!(matches!(read_expiry_timestamp(&[0; 8], 0, 0x01), Err(RdbReadError::InvalidExpiryTimestampFlag(1))));
}

#[test]
fn bad_magic_is_not_a_database() {
    assert_eq!(RdbReader::read(b"RADIS0011\xFF").err(), Some(RdbReadError::NotRedisDatabase));
    assert_eq!(RdbReader::read(b"RED").err(), Some(RdbReadError::UnexpectedEof));
    assert_eq!(RdbReader::is_rdb_file(b"REDIS").unwrap(), true);
}

#[test]
fn bad_version_is_rejected() {
    assert_eq!(RdbReader::read(b"REDIS00x1\xFF").err(), Some(RdbReadError::ParseIntError));
    assert_eq!(RdbReader::read(b"REDIS\xFF\xFE01\xFF").err(), Some(RdbReadError::Utf8Error));
    assert_eq!(RdbReader::read(b"REDIS+011\xFF\0\0\0\0\0\0\0\0").unwrap().rdb_version, 11);
}

#[test]
fn key_before_select_is_refused() {
    let mut data = header();
    data.extend_from_slice(&[0x00, 0x01, b'k', 0x01, b'v', 0xFF]);
    assert_eq!(RdbReader::read(&data).err(), Some(RdbReadError::AttemptReadKeyWithoutDatabaseSelected));
    let mut data = header();
    data.extend_from_slice(&[0xFC]);
    assert_eq!(RdbReader::read(&data).err(), Some(RdbReadError::AttemptReadKeyWithoutDatabaseSelected));
}

#[test]
fn truncated_snapshot_fails() {
    let mut data = header();
    data.extend_from_slice(&[0xFE, 0x00, 0x00, 0x05, b'a']);
    assert_eq!(RdbReader::read(&data).err(), Some(RdbReadError::UnexpectedEof));
    let mut data = header();
    data.extend_from_slice(&[0xFF, 0, 0]);
    assert_eq!(RdbReader::read(&data).err(), Some(RdbReadError::UnexpectedEof));
}

#[test]
fn other_value_types_are_not_decoded() {
    let mut data = header();
    data.extend_from_slice(&[0xFE, 0x00, 0x01, 0x01, b'k', 0x00]);
    assert_eq!(RdbReader::read(&data).err(), Some(RdbReadError::UnsupportedValueType(1)));
}

#[test]
fn expiry_timestamps_keep_their_unit() {
    let bytes = 0x0102_0304u32.to_le_bytes();
    assert!(matches!(read_expiry_timestamp(&bytes, 0, 0xFD).unwrap(), (ExpiryTimestamp::Seconds(0x0102_0304), 4)));
    let bytes = 0x0102_0304_0506_0708u64.to_le_bytes();
    assert!(matches!(
        read_expiry_timestamp(&bytes, 0, 0xFC).unwrap(),
        (ExpiryTimestamp::Milliseconds(0x0102_0304_0506_0708), 8)
    ));
    assert!(matches!(read_expiry_timestamp(&[0; 3], 0, 0xFD), Err(RdbReadError::UnexpectedEof)));
}

#[test]
fn key_redefined_without_expiry_loses_it() {
    let mut data = header();
    data.extend_from_slice(&[0xFE, 0x01, 0xFC]);
    data.extend_from_slice(&5u64.to_le_bytes());
    data.extend_from_slice(&[0x00, 0x01, b'k', 0x01, b'a']);
    data.extend_from_slice(&[0x00, 0x01, b'k', 0x01, b'b', 0xFF]);
    data.extend_from_slice(&[0; 8]);
    let rdb = RdbReader::read(&data).unwrap();
    assert_eq!(text_of(rdb.databases[1].get(&"k".to_string())), "b");
    assert!(rdb.expirations[1].get(&"k".to_string()).is_none());
}
