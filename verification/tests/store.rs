use mini_bitcask::engine::MiniBitcask;
use mini_bitcask::record::{encode_entry, StoreError};

fn empty_store() -> MiniBitcask {
    MiniBitcask::new(Vec::new()).unwrap()
}

fn record(key: &[u8], value: Option<&[u8]>) -> Vec<u8> {
    encode_entry(key, value).unwrap()
}

#[test]
fn set_then_get_returns_the_value() {
    let mut store = empty_store();
    store.set(b"key", b"value".to_vec()).unwrap();
    assert_eq!(store.get(b"key").unwrap(), Some(b"value".to_vec()));
    assert_eq!(store.get(b"other").unwrap(), None);
}

#[test]
fn set_then_get_with_empty_key_and_empty_value() {
    let mut store = empty_store();
    store.set(b"", b"x".to_vec()).unwrap();
    store.set(b"e", Vec::new()).unwrap();
    assert_eq!(store.get(b"").unwrap(), Some(b"x".to_vec()));
    assert_eq!(store.get(b"e").unwrap(), Some(Vec::new()));
    assert_eq!(store.live_keys(), 2);
}

#[test]
fn get_on_an_empty_store_finds_nothing() {
    let mut store = empty_store();
    assert_eq!(store.get(b"a").unwrap(), None);
    assert_eq!(store.live_keys(), 0);
    assert!(store.log_image().is_empty());
}

#[test]
fn delete_hides_the_key() {
    let mut store = empty_store();
    store.set(b"k", b"v".to_vec()).unwrap();
    store.delete(b"k").unwrap();
    assert_eq!(store.get(b"k").unwrap(), None);
    assert_eq!(store.live_keys(), 0);
}

#[test]
fn delete_of_an_absent_key_succeeds_and_appends_a_tombstone() {
    let mut store = empty_store();
    store.set(b"a", b"1".to_vec()).unwrap();
    let before = store.log_image().to_vec();
    assert_eq!(store.delete(b"never"), Ok(()));
    assert_eq!(store.get(b"never").unwrap(), None);
    assert_eq!(store.get(b"a").unwrap(), Some(b"1".to_vec()));
    let mut expected = before;
    expected.extend_from_slice(&record(b"never", None));
    assert_eq!(store.log_image(), expected.as_slice());
}

#[test]
fn overwrite_returns_the_latest_value() {
    let mut store = empty_store();
    store.set(b"k", b"first".to_vec()).unwrap();
    store.set(b"k", b"second!".to_vec()).unwrap();
    assert_eq!(store.get(b"k").unwrap(), Some(b"second!".to_vec()));
    assert_eq!(store.live_keys(), 1);
    let mut expected = record(b"k", Some(b"first"));
    expected.extend_from_slice(&record(b"k", Some(b"second!")));
    assert_eq!(store.log_image(), expected.as_slice());
}

#[test]
fn set_appends_one_record_to_the_log() {
    let mut store = empty_store();
    store.set(b"ab", b"xyz".to_vec()).unwrap();
    assert_eq!(
        store.log_image(),
        &[0, 0, 0, 2, 0, 0, 0, 3, b'a', b'b', b'x', b'y', b'z'][..]
    );
}

#[test]
fn reopening_the_log_rebuilds_the_same_state() {
    let mut store = empty_store();
    store.set(b"a", b"1".to_vec()).unwrap();
    store.set(b"b", b"22".to_vec()).unwrap();
    store.delete(b"a").unwrap();
    store.set(b"c", b"".to_vec()).unwrap();
    store.set(b"b", b"4444".to_vec()).unwrap();
    store.delete(b"zz").unwrap();
    let mut again = MiniBitcask::new(store.log_image().to_vec()).unwrap();
    assert_eq!(again.live_keys(), store.live_keys());
    for key in [&b"a"[..], b"b", b"c", b"zz", b""] {
        assert_eq!(again.get(key).unwrap(), store.get(key).unwrap());
    }
    assert_eq!(again.get(b"b").unwrap(), Some(b"4444".to_vec()));
    assert_eq!(again.get(b"a").unwrap(), None);
    assert_eq!(again.get(b"c").unwrap(), Some(Vec::new()));
}

#[test]
fn open_turns_down_a_log_that_ends_inside_a_header() {
    assert!(matches!(MiniBitcask::new(vec![0, 0, 0]), Err(StoreError::Corrupt)));
    let mut data = record(b"a", Some(b"1"));
    data.extend_from_slice(&[0, 0, 0, 1, 0, 0, 0]);
    assert!(matches!(MiniBitcask::new(data), Err(StoreError::Corrupt)));
}

#[test]
fn open_turns_down_a_log_that_ends_inside_a_key() {
    let data = vec![0, 0, 0, 5, 0, 0, 0, 0, b'a', b'b'];
    assert!(matches!(MiniBitcask::new(data), Err(StoreError::Corrupt)));
}

#[test]
fn open_turns_down_a_log_that_ends_inside_a_value() {
    let mut data = record(b"a", Some(b"12345"));
    data.pop();
    assert!(matches!(MiniBitcask::new(data), Err(StoreError::Corrupt)));
}

#[test]
fn merge_keeps_every_value_and_shrinks_the_log() {
    let mut store = empty_store();
    for round in 0..10u8 {
        store.set(b"x", vec![round; 3]).unwrap();
        store.set(b"y", vec![round; 5]).unwrap();
        store.set(b"gone", vec![round]).unwrap();
    }
    store.delete(b"gone").unwrap();
    store.delete(b"never").unwrap();
    let before = store.log_image().len();
    assert_eq!(store.merge(), Ok(()));
    assert_eq!(store.get(b"x").unwrap(), Some(vec![9u8; 3]));
    assert_eq!(store.get(b"y").unwrap(), Some(vec![9u8; 5]));
    assert_eq!(store.get(b"gone").unwrap(), None);
    assert_eq!(store.get(b"never").unwrap(), None);
    assert_eq!(store.live_keys(), 2);
    assert_eq!(store.log_image().len(), (8 + 1 + 3) + (8 + 1 + 5));
    assert!(store.log_image().len() < before);
}

#[test]
fn merge_writes_the_live_records_in_key_order() {
    let mut store = empty_store();
    store.set(b"b", b"2".to_vec()).unwrap();
    store.set(b"a", b"1".to_vec()).unwrap();
    store.set(b"ab", b"3".to_vec()).unwrap();
    store.merge().unwrap();
    let mut expected = record(b"a", Some(b"1"));
    expected.extend_from_slice(&record(b"ab", Some(b"3")));
    expected.extend_from_slice(&record(b"b", Some(b"2")));
    assert_eq!(store.log_image(), expected.as_slice());
}

#[test]
fn merge_of_an_empty_store_gives_an_empty_log() {
    let mut store = empty_store();
    store.set(b"a", b"1".to_vec()).unwrap();
    store.delete(b"a").unwrap();
    store.merge().unwrap();
    assert!(store.log_image().is_empty());
    assert_eq!(store.get(b"a").unwrap(), None);
}

#[test]
fn merged_store_takes_further_writes_and_reopens() {
    let mut store = empty_store();
    store.set(b"a", b"1".to_vec()).unwrap();
    store.set(b"a", b"2".to_vec()).unwrap();
    store.merge().unwrap();
    store.set(b"b", b"3".to_vec()).unwrap();
    let mut again = MiniBitcask::new(store.log_image().to_vec()).unwrap();
    assert_eq!(again.get(b"a").unwrap(), Some(b"2".to_vec()));
    assert_eq!(again.get(b"b").unwrap(), Some(b"3".to_vec()));
}

#[test]
fn scenario_of_sets_a_delete_and_a_merge() {
    let mut store = empty_store();
    store.set(b"a", b"1".to_vec()).unwrap();
    store.set(b"b", b"22".to_vec()).unwrap();
    store.set(b"a", b"333".to_vec()).unwrap();
    store.delete(b"b").unwrap();
    store.merge().unwrap();
    assert_eq!(store.get(b"a").unwrap(), Some(b"333".to_vec()));
    assert_eq!(store.get(b"b").unwrap(), None);
    assert_eq!(store.live_keys(), 1);
    assert_eq!(store.log_image(), record(b"a", Some(b"333")).as_slice());
    assert_eq!(store.log_image(), &[0, 0, 0, 1, 0, 0, 0, 3, b'a', b'3', b'3', b'3'][..]);
}

#[test]
fn set_turns_down_a_value_too_long_for_its_field() {
    let mut store = empty_store();
    store.set(b"a", b"1".to_vec()).unwrap();
    let before = store.log_image().to_vec();
    let value = vec![0u8; 0x8000_0000];
    assert_eq!(store.set(b"big", value), Err(StoreError::ValueTooLong));
    assert_eq!(store.log_image(), before.as_slice());
    assert_eq!(store.get(b"big").unwrap(), None);
    assert_eq!(store.get(b"a").unwrap(), Some(b"1".to_vec()));
}

#[test]
fn opening_a_written_log_gives_what_the_writes_left() {
    let mut data = Vec::new();
    data.extend_from_slice(&record(b"a", Some(b"1")));
    data.extend_from_slice(&record(b"b", Some(b"22")));
    data.extend_from_slice(&record(b"a", None));
    data.extend_from_slice(&record(b"c", Some(b"")));
    data.extend_from_slice(&record(b"b", Some(b"333")));
    let mut store = MiniBitcask::new(data.clone()).unwrap();
    assert_eq!(store.log_image(), data.as_slice());
    assert_eq!(store.live_keys(), 2);
    assert_eq!(store.get(b"a").unwrap(), None);
    assert_eq!(store.get(b"b").unwrap(), Some(b"333".to_vec()));
    assert_eq!(store.get(b"c").unwrap(), Some(Vec::new()));
}

#[test]
fn get_leaves_the_log_as_it_is() {
    let mut store = empty_store();
    store.set(b"a", b"1".to_vec()).unwrap();
    let before = store.log_image().to_vec();
    store.get(b"a").unwrap();
    store.get(b"b").unwrap();
    assert_eq!(store.log_image(), before.as_slice());
}

#[test]
fn merging_twice_changes_nothing_more() {
    let mut store = empty_store();
    store.set(b"k2", b"b".to_vec()).unwrap();
    store.set(b"k1", b"a".to_vec()).unwrap();
    store.set(b"k2", b"c".to_vec()).unwrap();
    store.merge().unwrap();
    let once = store.log_image().to_vec();
    store.merge().unwrap();
    assert_eq!(store.log_image(), once.as_slice());
    assert_eq!(store.get(b"k1").unwrap(), Some(b"a".to_vec()));
    assert_eq!(store.get(b"k2").unwrap(), Some(b"c".to_vec()));
}

#[test]
fn many_keys_are_found_after_writes_in_mixed_order() {
    let mut store = empty_store();
    for i in 0..200u32 {
        let n = (i * 37) % 200;
        store.set(&n.to_be_bytes(), n.to_le_bytes().to_vec()).unwrap();
    }
    for i in (0..200u32).filter(|i| i % 3 == 0) {
        store.delete(&i.to_be_bytes()).unwrap();
    }
    assert_eq!(store.live_keys(), 200 - 67);
    for i in 0..200u32 {
        let expected = if i % 3 == 0 { None } else { Some(i.to_le_bytes().to_vec()) };
        assert_eq!(store.get(&i.to_be_bytes()).unwrap(), expected);
    }
    store.merge().unwrap();
    assert_eq!(store.log_image().len(), (200 - 67) * (8 + 4 + 4));
    for i in 0..200u32 {
        let expected = if i % 3 == 0 { None } else { Some(i.to_le_bytes().to_vec()) };
        assert_eq!(store.get(&i.to_be_bytes()).unwrap(), expected);
    }
}

#[test]
fn open_turns_down_a_negative_length_that_is_no_tombstone() {
    let data = vec![0, 0, 0, 1, 0xFF, 0xFF, 0xFF, 0xFE, 0x61];
    assert!(matches!(MiniBitcask::new(data), Err(StoreError::Corrupt)));
}

#[test]
fn merge_never_lengthens_the_log() {
    let mut store = empty_store();
    store.set(b"a", b"1".to_vec()).unwrap();
    store.set(b"b", b"22".to_vec()).unwrap();
    let before = store.log_image().to_vec();
    store.merge().unwrap();
    assert_eq!(store.log_image(), before.as_slice());
    store.set(b"a", b"".to_vec()).unwrap();
    let longer = store.log_image().len();
    store.merge().unwrap();
    assert_eq!(store.log_image().len(), (8 + 1) + (8 + 1 + 2));
    assert!(store.log_image().len() <= longer);
}
