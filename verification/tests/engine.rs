use actionkv::codec::{decode_at, encode, DecodeError};
use actionkv::index::Index;
use actionkv::ActionKV;

#[test]
fn it_works() {}

#[test]
fn round_trip_insert_then_get() {
    let mut store = ActionKV::open(Vec::new());
    store.insert(b"key", b"value");
    assert_eq!(store.get(b"key"), Some(b"value".to_vec()));
    assert_eq!(store.get(b"other"), None);
}

#[test]
fn rebuild_is_idempotent() {
    let mut store = ActionKV::open(Vec::new());
    store.insert(b"alpha", b"1");
    store.insert(b"beta", b"2");
    store.insert(b"alpha", b"3");
    let bytes = store.log_contents().to_vec();

    let mut first = ActionKV::open(bytes.clone());
    assert!(first.load().is_ok());
    let mut second = ActionKV::open(bytes);
    assert!(second.load().is_ok());
    assert!(second.load().is_ok());

    assert_eq!(first.index_len(), second.index_len());
    for key in [b"alpha".as_slice(), b"beta".as_slice()] {
        assert_eq!(first.offset_of(key), second.offset_of(key));
        assert!(first.offset_of(key).is_some());
    }
}

#[test]
fn last_write_wins() {
    let mut store = ActionKV::open(Vec::new());
    store.insert(b"k", b"v1");
    let second_offset = store.log_len() as u64;
    store.insert(b"k", b"v2");
    assert_eq!(store.get(b"k"), Some(b"v2".to_vec()));
    assert_eq!(store.index_len(), 1);
    assert_eq!(store.offset_of(b"k"), Some(second_offset));
}

#[test]
fn tombstone_is_visible_as_empty_value() {
    let mut store = ActionKV::open(Vec::new());
    store.insert(b"k", b"v");
    store.delete(b"k");
    // The key is still found; its value is empty, not absent.
    assert_eq!(store.get(b"k"), Some(Vec::new()));
}

#[test]
fn single_bit_flip_is_detected_as_corruption() {
    let mut store = ActionKV::open(Vec::new());
    store.insert(b"a", b"1");
    let bytes = store.log_contents().to_vec();
    assert_eq!(bytes.len(), 14);
    // Flip every bit of the key byte and of the value byte in turn.
    for byte_index in [12usize, 13usize] {
        for bit in 0..8 {
            let mut tampered = bytes.clone();
            tampered[byte_index] ^= 1 << bit;
            match decode_at(&tampered, 0) {
                Err(DecodeError::Corruption) => {}
                other => panic!("tampered record was not rejected: {:?}", other.is_ok()),
            }
            let mut reopened = ActionKV::open(tampered);
            assert_eq!(reopened.load(), Err(DecodeError::Corruption));
        }
    }
}

#[test]
fn empty_key_and_value_occupy_a_bare_header() {
    let record = encode(b"", b"");
    assert_eq!(record.len(), 12);

    let mut store = ActionKV::open(Vec::new());
    store.insert(b"", b"");
    assert_eq!(store.log_len(), 12);
    assert_eq!(store.get(b""), Some(Vec::new()));
}

#[test]
fn concrete_scenario_with_reopen() {
    let mut store = ActionKV::open(Vec::new());
    store.insert(b"a", b"1");
    assert_eq!(store.offset_of(b"a"), Some(0));
    store.insert(b"b", b"2");
    assert_eq!(store.offset_of(b"b"), Some(14));
    store.update(b"a", b"3");
    assert_eq!(store.offset_of(b"a"), Some(28));
    // Each record occupies 12 header bytes plus its payload, so the
    // 14-byte update record puts the tombstone at 28 + 14 = 42, and the
    // 13-byte tombstone ends the file at 55.
    store.delete(b"b");
    assert_eq!(store.offset_of(b"b"), Some(42));
    assert_eq!(store.log_len(), 55);

    let bytes = store.log_contents().to_vec();
    let mut reopened = ActionKV::open(bytes);
    assert_eq!(reopened.load(), Ok(()));
    assert_eq!(reopened.get(b"a"), Some(b"3".to_vec()));
    assert_eq!(reopened.get(b"b"), Some(Vec::new()));
    assert_eq!(reopened.index_len(), 2);
    assert_eq!(reopened.offset_of(b"a"), Some(28));
    assert_eq!(reopened.offset_of(b"b"), Some(42));
}

#[test]
fn checksum_matches_the_published_check_value() {
    // The CRC-32/CKSUM check value for the bytes "123456789" is 0x765e7680;
    // the checksum of a record is computed over key ++ value.
    let record = encode(b"1234", b"56789");
    assert_eq!(&record[0..4], &[0x80, 0x76, 0x5e, 0x76]);
    // Little-endian lengths follow the checksum.
    assert_eq!(&record[4..8], &[4, 0, 0, 0]);
    assert_eq!(&record[8..12], &[5, 0, 0, 0]);
    assert_eq!(&record[12..], b"123456789");
}

#[test]
fn decode_reports_end_of_log_and_truncation() {
    assert_eq!(decode_at(&[], 0).unwrap_err(), DecodeError::EndOfLog);

    let record = encode(b"a", b"1");
    // Past-the-end positions are the clean end of a scan.
    assert_eq!(decode_at(&record, 14).unwrap_err(), DecodeError::EndOfLog);
    assert_eq!(decode_at(&record, 99).unwrap_err(), DecodeError::EndOfLog);
    // A short header is a truncated record.
    assert_eq!(decode_at(&record[..7], 0).unwrap_err(), DecodeError::Truncated);
    // A full header whose payload runs past the end is truncated too.
    assert_eq!(decode_at(&record[..13], 0).unwrap_err(), DecodeError::Truncated);
}

#[test]
fn decode_returns_the_encoded_pair() {
    let record = encode(b"spam", b"eggs");
    let (kv, end) = decode_at(&record, 0).unwrap();
    assert_eq!(kv.key, b"spam".to_vec());
    assert_eq!(kv.value, b"eggs".to_vec());
    assert_eq!(end, record.len());
}

#[test]
fn get_at_reads_records_by_offset() {
    let mut store = ActionKV::open(Vec::new());
    store.insert(b"a", b"1");
    store.insert(b"b", b"2");
    let kv = store.get_at(0).unwrap();
    assert_eq!(kv.key, b"a".to_vec());
    assert_eq!(kv.value, b"1".to_vec());
    let kv = store.get_at(14).unwrap();
    assert_eq!(kv.key, b"b".to_vec());
    assert_eq!(kv.value, b"2".to_vec());
    assert_eq!(store.get_at(53).unwrap_err(), DecodeError::EndOfLog);
    // An offset inside a record's payload reads garbage lengths or a bad
    // checksum, never tampered data.
    assert!(store.get_at(1).is_err());
}

#[test]
fn insert_but_ignore_index_leaves_the_index_alone() {
    let mut store = ActionKV::open(Vec::new());
    let offset = store.insert_but_ignore_index(b"ghost", b"value");
    assert_eq!(offset, 0);
    assert_eq!(store.log_len(), 22);
    assert_eq!(store.get(b"ghost"), None);
    // A later load replays the record and finds it.
    assert_eq!(store.load(), Ok(()));
    assert_eq!(store.get(b"ghost"), Some(b"value".to_vec()));
}

#[test]
fn load_stops_at_a_truncated_tail() {
    let mut store = ActionKV::open(Vec::new());
    store.insert(b"a", b"1");
    store.insert(b"b", b"2");
    let mut bytes = store.log_contents().to_vec();
    bytes.truncate(20); // cut into the second record's header
    let mut reopened = ActionKV::open(bytes);
    assert_eq!(reopened.load(), Err(DecodeError::Truncated));
    // The record before the tear was still replayed.
    assert_eq!(reopened.get(b"a"), Some(b"1".to_vec()));
    assert_eq!(reopened.get(b"b"), None);
}

#[test]
fn index_maps_keys_to_latest_offsets() {
    let mut index = Index::new();
    assert_eq!(index.len(), 0);
    assert_eq!(index.lookup(b"k"), None);
    index.set(b"k", 7);
    index.set(b"m", 21);
    assert_eq!(index.len(), 2);
    assert_eq!(index.lookup(b"k"), Some(7));
    index.set(b"k", 35);
    assert_eq!(index.len(), 2);
    assert_eq!(index.lookup(b"k"), Some(35));
    assert_eq!(index.lookup(b"m"), Some(21));
    index.clear();
    assert_eq!(index.len(), 0);
    assert_eq!(index.lookup(b"m"), None);
}

#[test]
fn empty_log_loads_to_an_empty_index() {
    let mut store = ActionKV::open(Vec::new());
    assert_eq!(store.load(), Ok(()));
    assert_eq!(store.index_len(), 0);
    assert_eq!(store.get(b"anything"), None);
}
