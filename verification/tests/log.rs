//! The write-ahead log.

use lsm_storage_engine::wal::{fnv1a_32, replay};
use lsm_storage_engine::WalRecord;

fn put(key: &[u8], value: &[u8]) -> WalRecord {
    WalRecord::Put(key.to_vec(), value.to_vec())
}

fn delete(key: &[u8]) -> WalRecord {
    WalRecord::Delete(key.to_vec())
}

#[test]
fn records_have_exact_bytes() {
    assert_eq!(
        put(b"k", b"val").encode(),
        vec![0, 1, 0, 0, 0, 107, 3, 0, 0, 0, 118, 97, 108, 67, 191, 12, 170]
    );
    assert_eq!(
        delete(b"k").encode(),
        vec![1, 1, 0, 0, 0, 107, 2, 154, 200, 162]
    );
}

#[test]
fn a_log_is_replayed_as_it_was_written() {
    let records = vec![
        put(b"a", b"1"),
        delete(b"b"),
        put(b"", b""),
        delete(b""),
        put(b"a", b"2"),
    ];
    let mut log = Vec::new();
    for r in &records {
        log.extend_from_slice(&r.encode());
    }
    let (replayed, len) = replay(&log);
    assert_eq!(replayed, records);
    assert_eq!(len, log.len());
    assert_eq!(replay(&[]), (Vec::new(), 0));
}

#[test]
fn a_torn_record_is_dropped_wherever_it_is_torn() {
    let mut log = put(b"a", b"1").encode();
    log.extend_from_slice(&delete(b"b").encode());
    let complete = log.len();
    for torn in [put(b"key", b"value"), delete(b"key")] {
        let bytes = torn.encode();
        for n in 0..bytes.len() {
            let mut cut = log.clone();
            cut.extend_from_slice(&bytes[0..n]);
            let (replayed, len) = replay(&cut);
            assert_eq!(replayed, vec![put(b"a", b"1"), delete(b"b")]);
            assert_eq!(len, complete);
        }
    }
}

#[test]
fn replay_stops_at_the_first_damaged_record() {
    let first = put(b"a", b"1").encode();
    let second = put(b"b", b"2").encode();
    let third = put(b"c", b"3").encode();
    for at in 0..second.len() {
        let mut log = first.clone();
        let mut damaged = second.clone();
        damaged[at] ^= 0x10;
        log.extend_from_slice(&damaged);
        log.extend_from_slice(&third);
        let (replayed, len) = replay(&log);
        assert_eq!(replayed, vec![put(b"a", b"1")], "damaged byte: {at}");
        assert_eq!(len, first.len());
    }
}

#[test]
fn an_unknown_tag_is_not_a_record() {
    let mut log = delete(b"k").encode();
    log[0] = 2;
    assert_eq!(replay(&log), (Vec::new(), 0));
}

#[test]
fn a_copied_record_is_equal() {
    assert_eq!(put(b"k", b"v").clone(), put(b"k", b"v"));
    assert_eq!(delete(b"k").clone(), delete(b"k"));
    assert_ne!(put(b"k", b"v"), delete(b"k"));
}

#[test]
fn checksums_have_exact_values() {
    assert_eq!(fnv1a_32(b""), 0x811c_9dc5);
    assert_eq!(fnv1a_32(b"a"), 0xe40c_292c);
    assert_eq!(fnv1a_32(b"foobar"), 0xbf9c_f968);
}

#[test]
fn the_checksum_differs_where_one_byte_differs() {
    let data = b"some bytes to look after".to_vec();
    let checksum = fnv1a_32(&data);
    for at in 0..data.len() {
        for byte in 0..=255u8 {
            let mut damaged = data.clone();
            damaged[at] = byte;
            assert_eq!(fnv1a_32(&damaged) == checksum, byte == data[at]);
        }
    }
}
