use objstore::kind::Kind;
use objstore::store::Store;
use objstore::writer::{read_record, write_to_sink};

fn roundtrip_through_store(kind: Kind, payload: &[u8]) {
    let mut store = Store::new();
    let digest = store.write_to_store(kind, payload.len() as u64, payload);
    let name = hex::encode(digest).into_bytes();
    let (k, size, body) = store.read(&name).expect("record must round-trip");
    assert_eq!(k, kind);
    assert_eq!(size, payload.len() as u64);
    assert_eq!(body, payload.to_vec());
}

#[test]
fn blob_hello_scenario() {
    let mut store = Store::new();
    let digest = store.write_to_store(Kind::Blob, 5, b"hello");
    assert_eq!(digest.len(), 20);
    let expected = <sha1::Sha1 as sha1::Digest>::digest(b"blob 5\0hello");
    assert_eq!(digest.as_slice(), expected.as_slice());
    let name = hex::encode(digest).into_bytes();
    let (kind, size, payload) = store.read(&name).expect("written record must be readable");
    assert_eq!(kind, Kind::Blob);
    assert_eq!(size, 5);
    assert_eq!(payload, b"hello".to_vec());
}

#[test]
fn empty_blob_roundtrips() {
    let mut store = Store::new();
    let digest = store.write_to_store(Kind::Blob, 0, b"");
    // the well-known name of the empty blob record
    assert_eq!(hex::encode(digest), "e69de29bb2d1d6434b8b29ae775ad8c2e48c5391");
    let name = hex::encode(digest).into_bytes();
    let (kind, size, payload) = store.read(&name).expect("empty record must be readable");
    assert_eq!(kind, Kind::Blob);
    assert_eq!(size, 0);
    assert_eq!(payload, Vec::<u8>::new());
}

#[test]
fn all_kinds_roundtrip() {
    roundtrip_through_store(Kind::Blob, b"payload bytes");
    roundtrip_through_store(Kind::Tree, b"100644 file\x00\x01\x02\x03");
    roundtrip_through_store(Kind::Commit, b"tree abc\n\nmessage\n");
}

#[test]
fn boundary_sizes_roundtrip() {
    roundtrip_through_store(Kind::Blob, b"");
    roundtrip_through_store(Kind::Blob, b"x");
    let big: Vec<u8> = (0..70000u32).map(|i| (i % 251) as u8).collect();
    roundtrip_through_store(Kind::Blob, &big);
}

#[test]
fn payload_with_nul_bytes_roundtrips() {
    roundtrip_through_store(Kind::Tree, b"\x00\x00mode\x00name\x00");
}

#[test]
fn sink_write_then_raw_read_is_deterministic() {
    let mut sink: Vec<u8> = Vec::new();
    let digest = write_to_sink(Kind::Blob, 11, b"hello world", &mut sink);
    assert_eq!(digest.len(), 20);
    let (kind, size, payload) = read_record(&sink).expect("sink bytes must decode");
    assert_eq!(kind, Kind::Blob);
    assert_eq!(size, 11);
    assert_eq!(payload, b"hello world".to_vec());
}

#[test]
fn digests_are_stable_across_calls() {
    let mut sink1: Vec<u8> = Vec::new();
    let mut sink2: Vec<u8> = Vec::new();
    let d1 = write_to_sink(Kind::Commit, 4, b"abcd", &mut sink1);
    let d2 = write_to_sink(Kind::Commit, 4, b"abcd", &mut sink2);
    assert_eq!(d1, d2);
    assert_eq!(sink1, sink2);

    let mut store = Store::new();
    let d3 = store.write_to_store(Kind::Commit, 4, b"abcd");
    assert_eq!(d1, d3);
}

#[test]
fn idempotent_placement() {
    let mut store = Store::new();
    let d1 = store.write_to_store(Kind::Blob, 5, b"hello");
    assert_eq!(store.record_count(), 1);
    let d2 = store.write_to_store(Kind::Blob, 5, b"hello");
    assert_eq!(d1, d2);
    assert_eq!(store.record_count(), 1);
    let name = hex::encode(d1).into_bytes();
    let (kind, size, payload) = store.read(&name).expect("record must still be readable");
    assert_eq!((kind, size), (Kind::Blob, 5));
    assert_eq!(payload, b"hello".to_vec());
}

#[test]
fn kind_names_roundtrip() {
    assert_eq!(Kind::Blob.as_name(), b"blob".to_vec());
    assert_eq!(Kind::Tree.as_name(), b"tree".to_vec());
    assert_eq!(Kind::Commit.as_name(), b"commit".to_vec());
    assert_eq!(Kind::from_name(b"blob"), Some(Kind::Blob));
    assert_eq!(Kind::from_name(b"tree"), Some(Kind::Tree));
    assert_eq!(Kind::from_name(b"commit"), Some(Kind::Commit));
    assert_eq!(Kind::from_name(b"widget"), None);
    assert_eq!(Kind::from_name(b""), None);
}

#[test]
fn fresh_store_is_empty() {
    let store = Store::new();
    assert_eq!(store.record_count(), 0);
}

#[test]
fn distinct_content_gets_distinct_records() {
    let mut store = Store::new();
    let d1 = store.write_to_store(Kind::Blob, 1, b"a");
    let d2 = store.write_to_store(Kind::Blob, 1, b"b");
    assert_ne!(d1, d2);
    assert_eq!(store.record_count(), 2);
}
