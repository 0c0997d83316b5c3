use mini_bitcask::key_order::{order_keys, KeyOrder};
use mini_bitcask::keydir::KeyDir;
use mini_bitcask::log::Log;
use mini_bitcask::record::{
    append_record, encode_entry, get_be32, put_be32, put_bytes, value_offset, Location,
    StoreError, HEADER_LEN, MAX_VALUE_LEN, TOMBSTONE,
};

#[test]
fn value_record_is_header_key_value() {
    let bytes = encode_entry(b"key", Some(b"hello")).unwrap();
    assert_eq!(
        bytes,
        vec![0, 0, 0, 3, 0, 0, 0, 5, b'k', b'e', b'y', b'h', b'e', b'l', b'l', b'o']
    );
}

#[test]
fn tombstone_record_has_all_bits_set_and_no_value() {
    let bytes = encode_entry(b"key", None).unwrap();
    assert_eq!(bytes, vec![0, 0, 0, 3, 255, 255, 255, 255, b'k', b'e', b'y']);
    assert_eq!(TOMBSTONE, (-1i32) as u32);
}

#[test]
fn empty_value_is_no_tombstone() {
    let bytes = encode_entry(b"k", Some(b"")).unwrap();
    assert_eq!(bytes, vec![0, 0, 0, 1, 0, 0, 0, 0, b'k']);
}

#[test]
fn lengths_are_written_most_significant_byte_first() {
    let key = vec![7u8; 0x0102];
    let value = vec![9u8; 0x01_0203];
    let bytes = encode_entry(&key, Some(&value)).unwrap();
    assert_eq!(&bytes[..8], &[0, 0, 1, 2, 0, 1, 2, 3]);
    assert_eq!(bytes.len(), HEADER_LEN + 0x0102 + 0x01_0203);
    assert_eq!(&bytes[8..8 + 0x0102], key.as_slice());
    assert_eq!(&bytes[8 + 0x0102..], value.as_slice());
}

#[test]
fn be32_fields_round_trip() {
    let mut buf = vec![0xAAu8];
    put_be32(&mut buf, 0x0102_0304);
    put_be32(&mut buf, 0xFFFF_FFFE);
    put_be32(&mut buf, 0);
    assert_eq!(buf, vec![0xAA, 1, 2, 3, 4, 255, 255, 255, 254, 0, 0, 0, 0]);
    assert_eq!(get_be32(&buf, 1), 0x0102_0304);
    assert_eq!(get_be32(&buf, 5), 0xFFFF_FFFE);
    assert_eq!(get_be32(&buf, 9), 0);
}

#[test]
fn put_bytes_appends() {
    let mut buf = vec![1u8, 2];
    put_bytes(&mut buf, &[3, 4, 5]);
    put_bytes(&mut buf, &[]);
    assert_eq!(buf, vec![1, 2, 3, 4, 5]);
}

#[test]
fn append_record_keeps_what_was_there() {
    let mut buf = vec![9u8];
    assert_eq!(append_record(&mut buf, b"a", Some(b"b")), Ok(()));
    assert_eq!(buf, vec![9, 0, 0, 0, 1, 0, 0, 0, 1, b'a', b'b']);
}

#[test]
fn encode_entry_turns_down_a_value_of_two_gibibytes() {
    let value = vec![0u8; MAX_VALUE_LEN as usize + 1];
    assert_eq!(encode_entry(b"k", Some(&value)), Err(StoreError::ValueTooLong));
    let mut buf = vec![1u8];
    assert_eq!(append_record(&mut buf, b"k", Some(&value)), Err(StoreError::ValueTooLong));
    assert_eq!(buf, vec![1u8]);
}

#[test]
fn value_offset_of_an_empty_value_is_the_record_end() {
    assert_eq!(value_offset(100, 8 + 3, 0), 111);
}

#[test]
fn value_offset_of_a_tombstone_is_the_record_end() {
    assert_eq!(value_offset(0, 8 + 5, 0), 13);
}

#[test]
fn value_offset_of_a_value_record() {
    assert_eq!(value_offset(40, 8 + 2 + 6, 6), 50);
}

#[test]
fn value_offset_of_the_longest_value() {
    let total = 8 + 4 + MAX_VALUE_LEN as u64;
    assert_eq!(value_offset(1000, total, MAX_VALUE_LEN), 1012);
    assert_eq!(
        value_offset(u64::MAX - total, total, MAX_VALUE_LEN),
        u64::MAX - MAX_VALUE_LEN as u64
    );
}

#[test]
fn keys_are_ordered_byte_by_byte() {
    assert_eq!(order_keys(b"a", b"b"), KeyOrder::Before);
    assert_eq!(order_keys(b"b", b"a"), KeyOrder::After);
    assert_eq!(order_keys(b"ab", b"ab"), KeyOrder::Same);
    assert_eq!(order_keys(b"a", b"ab"), KeyOrder::Before);
    assert_eq!(order_keys(b"ab", b"a"), KeyOrder::After);
    assert_eq!(order_keys(b"", b""), KeyOrder::Same);
    assert_eq!(order_keys(b"", b"\0"), KeyOrder::Before);
    assert_eq!(order_keys(&[0xFF], &[0x7F, 0xFF]), KeyOrder::After);
    assert_eq!(order_keys(b"abc", b"abd"), KeyOrder::Before);
}

#[test]
fn keydir_keeps_its_keys_in_order() {
    let mut dir = KeyDir::new();
    dir.insert(b"m".to_vec(), Location { offset: 1, len: 1 });
    dir.insert(b"a".to_vec(), Location { offset: 2, len: 2 });
    dir.insert(b"z".to_vec(), Location { offset: 3, len: 3 });
    dir.insert(b"ma".to_vec(), Location { offset: 4, len: 4 });
    assert_eq!(dir.len(), 4);
    let keys: Vec<Vec<u8>> = (0..dir.len()).map(|i| dir.key_at(i).clone()).collect();
    assert_eq!(keys, vec![b"a".to_vec(), b"m".to_vec(), b"ma".to_vec(), b"z".to_vec()]);
    assert_eq!(dir.location_at(2), Location { offset: 4, len: 4 });
}

#[test]
fn keydir_insert_overwrites_and_remove_takes_out() {
    let mut dir = KeyDir::new();
    assert_eq!(dir.get(b"a"), None);
    dir.insert(b"a".to_vec(), Location { offset: 9, len: 1 });
    dir.insert(b"b".to_vec(), Location { offset: 19, len: 2 });
    dir.insert(b"a".to_vec(), Location { offset: 30, len: 3 });
    assert_eq!(dir.len(), 2);
    assert_eq!(dir.get(b"a"), Some(Location { offset: 30, len: 3 }));
    assert_eq!(dir.get(b"b"), Some(Location { offset: 19, len: 2 }));
    dir.remove(b"a");
    dir.remove(b"missing");
    assert_eq!(dir.len(), 1);
    assert_eq!(dir.get(b"a"), None);
    assert_eq!(dir.get(b"b"), Some(Location { offset: 19, len: 2 }));
}

#[test]
fn write_entry_returns_start_and_whole_length() {
    let mut log = Log::new(Vec::new());
    assert_eq!(log.write_entry(b"key", Some(b"value")), Ok((0, 16)));
    assert_eq!(log.write_entry(b"key", None), Ok((16, 11)));
    assert_eq!(log.write_entry(b"", Some(b"")), Ok((27, 8)));
    assert_eq!(log.len(), 35);
    assert_eq!(&log.as_bytes()[16..27], &[0, 0, 0, 3, 255, 255, 255, 255, b'k', b'e', b'y']);
}

#[test]
fn read_value_reads_exactly_the_range() {
    let mut log = Log::new(Vec::new());
    let (start, total) = log.write_entry(b"key", Some(b"value")).unwrap();
    let offset = value_offset(start, total, 5);
    assert_eq!(offset, 11);
    assert_eq!(log.read_value(offset, 5), Ok(b"value".to_vec()));
    assert_eq!(log.read_value(0, 0), Ok(Vec::new()));
    assert_eq!(log.read_value(16, 0), Ok(Vec::new()));
}

#[test]
fn read_value_past_the_end_is_an_error() {
    let log = Log::new(vec![1, 2, 3]);
    assert_eq!(log.read_value(1, 3), Err(StoreError::OutOfRange));
    assert_eq!(log.read_value(4, 0), Err(StoreError::OutOfRange));
    assert_eq!(log.read_value(u64::MAX, u32::MAX), Err(StoreError::OutOfRange));
    assert_eq!(log.read_value(1, 2), Ok(vec![2, 3]));
}

#[test]
fn load_index_points_at_the_latest_values() {
    let mut log = Log::new(Vec::new());
    log.write_entry(b"a", Some(b"1")).unwrap();
    log.write_entry(b"b", Some(b"22")).unwrap();
    log.write_entry(b"a", Some(b"333")).unwrap();
    log.write_entry(b"b", None).unwrap();
    let dir = log.load_index().unwrap();
    assert_eq!(dir.len(), 1);
    assert_eq!(dir.get(b"a"), Some(Location { offset: 10 + 11 + 9, len: 3 }));
    assert_eq!(dir.get(b"b"), None);
}

#[test]
fn load_index_of_an_empty_log_is_empty() {
    let dir = Log::new(Vec::new()).load_index().unwrap();
    assert_eq!(dir.len(), 0);
}

#[test]
fn load_index_turns_down_a_negative_length_that_is_no_tombstone() {
    let mut data = encode_entry(b"a", Some(b"1")).unwrap();
    data.extend_from_slice(&[0, 0, 0, 1, 0x80, 0, 0, 0, b'a']);
    assert!(matches!(Log::new(data).load_index(), Err(StoreError::Corrupt)));
    let data = vec![0, 0, 0, 1, 0xFF, 0xFF, 0xFF, 0xFE, 0x61];
    assert!(matches!(Log::new(data).load_index(), Err(StoreError::Corrupt)));
}

#[test]
fn load_index_takes_minus_one_as_a_tombstone() {
    let mut data = encode_entry(b"a", Some(b"1")).unwrap();
    data.extend_from_slice(&[0, 0, 0, 1, 0xFF, 0xFF, 0xFF, 0xFF, b'a']);
    let dir = Log::new(data).load_index().unwrap();
    assert_eq!(dir.len(), 0);
}

#[test]
fn load_index_turns_down_truncated_bytes() {
    assert!(matches!(Log::new(vec![0]).load_index(), Err(StoreError::Corrupt)));
    assert!(matches!(
        Log::new(vec![0, 0, 0, 2, 255, 255, 255, 255, b'a']).load_index(),
        Err(StoreError::Corrupt)
    ));
    assert!(matches!(
        Log::new(vec![0, 0, 0, 1, 0, 0, 0, 2, b'a', b'v']).load_index(),
        Err(StoreError::Corrupt)
    ));
}
