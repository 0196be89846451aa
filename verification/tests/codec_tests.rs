//! The record codec and the recovery scan on hand-crafted bytes.

use kvs::{CmdType, Entry, KvStore, KvsError};

// One PUT record for ("ab", "c"), byte for byte.
#[test]
fn encode_exact_bytes() {
    let e = Entry::new("ab".to_owned(), "c".to_owned(), CmdType::PUT);
    assert_eq!(e.size(), 20);
    let buf = e.encode();
    let mut expected: Vec<u8> = Vec::new();
    expected.extend_from_slice(&[0, 0, 0, 0, 0, 0, 0, 2]);
    expected.extend_from_slice(&[0, 0, 0, 0, 0, 0, 0, 1]);
    expected.push(1);
    expected.extend_from_slice(b"ab");
    expected.extend_from_slice(b"c");
    assert_eq!(buf, expected);
}

// A DEL record has command byte 2 and an empty value.
#[test]
fn encode_del_record() {
    let e = Entry::new("k".to_owned(), String::new(), CmdType::DEL);
    assert_eq!(e.size(), 18);
    let buf = e.encode();
    assert_eq!(buf.len(), 18);
    assert_eq!(buf[16], 2);
    assert_eq!(buf[17], b'k');
}

// Length fields count UTF-8 bytes, not characters.
#[test]
fn encode_counts_utf8_bytes() {
    let e = Entry::new("\u{00e9}".to_owned(), "\u{2713}".to_owned(), CmdType::PUT);
    assert_eq!(e.size(), 17 + 2 + 3);
    let buf = e.encode();
    assert_eq!(buf[7], 2);
    assert_eq!(buf[15], 3);
}

// Decoding a header gives back the three fields.
#[test]
fn decode_header_fields() {
    let e = Entry::new("ab".to_owned(), "c".to_owned(), CmdType::PUT);
    let buf = e.encode();
    let header: Vec<u8> = buf[..17].to_vec();
    let d = Entry::decode(&header).unwrap();
    assert_eq!(d.key_len, 2);
    assert_eq!(d.value_len, 1);
    assert_eq!(d.cmd_type, CmdType::PUT);
}

// A slice that is not exactly the header size is rejected.
#[test]
fn decode_wrong_size_slice() {
    let buf: Vec<u8> = vec![0; 16];
    assert!(matches!(Entry::decode(&buf), Err(KvsError::SliceDecode)));
    let buf: Vec<u8> = vec![0; 18];
    assert!(matches!(Entry::decode(&buf), Err(KvsError::SliceDecode)));
}

// An unrecognized command byte is rejected.
#[test]
fn decode_bad_command_byte() {
    let mut buf: Vec<u8> = vec![0; 17];
    buf[16] = 3;
    assert!(matches!(Entry::decode(&buf), Err(KvsError::ReprDecode)));
}

// Builds the bytes of one record by hand.
fn raw_record(cmd: u8, key: &[u8], value: &[u8]) -> Vec<u8> {
    let mut buf: Vec<u8> = Vec::new();
    buf.extend_from_slice(&(key.len() as u64).to_be_bytes());
    buf.extend_from_slice(&(value.len() as u64).to_be_bytes());
    buf.push(cmd);
    buf.extend_from_slice(key);
    buf.extend_from_slice(value);
    buf
}

// A complete record with an unknown command byte fails recovery.
#[test]
fn open_rejects_unknown_command() {
    let data = raw_record(9, b"k", b"v");
    assert!(matches!(KvStore::open(data), Err(KvsError::ReprDecode)));
}

// A complete record whose payload is not UTF-8 fails recovery.
#[test]
fn open_rejects_invalid_utf8() {
    let data = raw_record(1, &[0xff, 0xfe], b"v");
    assert!(matches!(KvStore::open(data), Err(KvsError::StringDecode)));
}

// A truncated tail is cut off: recovery stops at the last complete
// record and later appends start from there.
#[test]
fn open_truncates_partial_tail() {
    let mut data = raw_record(1, b"k", b"v");
    let good_len = data.len();
    let mut partial = raw_record(1, b"lost", b"value");
    partial.truncate(partial.len() - 3);
    data.extend_from_slice(&partial);
    let mut store = KvStore::open(data).unwrap();
    assert_eq!(store.data().len(), good_len);
    assert_eq!(store.get("k".to_owned()).unwrap(), Some("v".to_owned()));
    assert_eq!(store.get("lost".to_owned()).unwrap(), None);
}

// Replay applies records in order: later PUTs win and DELs unbind.
#[test]
fn open_replays_puts_and_dels() {
    let mut data = Vec::new();
    data.extend_from_slice(&raw_record(1, b"a", b"1"));
    data.extend_from_slice(&raw_record(1, b"b", b"2"));
    data.extend_from_slice(&raw_record(1, b"a", b"3"));
    data.extend_from_slice(&raw_record(2, b"b", b""));
    let mut store = KvStore::open(data).unwrap();
    assert_eq!(store.get("a".to_owned()).unwrap(), Some("3".to_owned()));
    assert_eq!(store.get("b".to_owned()).unwrap(), None);
}
