use objstore::codec::StoreError;
use objstore::kind::Kind;
use objstore::store::{shard_path, Store};
use objstore::writer::read_record;
use std::io::Write;

fn zlib(data: &[u8]) -> Vec<u8> {
    let mut enc = flate2::write::ZlibEncoder::new(Vec::new(), flate2::Compression::default());
    enc.write_all(data).unwrap();
    enc.finish().unwrap()
}

#[test]
fn unknown_kind_is_rejected() {
    let record = zlib(b"widget 5\0hello");
    assert_eq!(read_record(&record), Err(StoreError::UnknownKind));
}

#[test]
fn missing_nul_is_malformed() {
    let record = zlib(b"blob 5 hello with no terminator anywhere");
    assert_eq!(read_record(&record), Err(StoreError::MalformedHeader));
}

#[test]
fn missing_space_is_malformed() {
    let record = zlib(b"blob5\0hello");
    assert_eq!(read_record(&record), Err(StoreError::MalformedHeader));
}

#[test]
fn non_numeric_size_is_malformed() {
    let record = zlib(b"blob x5\0hello");
    assert_eq!(read_record(&record), Err(StoreError::MalformedHeader));
}

#[test]
fn oversized_size_field_is_malformed() {
    let record = zlib(b"blob 99999999999999999999\0hello");
    assert_eq!(read_record(&record), Err(StoreError::MalformedHeader));
}

#[test]
fn non_utf8_header_is_malformed_not_unknown() {
    // the UTF-8 check precedes kind classification, as for a header parsed
    // as text
    let record = zlib(b"bl\xffb 5\0hello");
    assert_eq!(read_record(&record), Err(StoreError::MalformedHeader));
}

#[test]
fn signed_size_field_parses_like_a_decimal_u64() {
    let record = zlib(b"blob +5\0hello");
    let (kind, size, payload) = read_record(&record).expect("a + sign is accepted");
    assert_eq!((kind, size), (Kind::Blob, 5));
    assert_eq!(payload, b"hello".to_vec());

    let record = zlib(b"blob 005\0hello");
    let (_, size, _) = read_record(&record).expect("leading zeros are accepted");
    assert_eq!(size, 5);
}

#[test]
fn declared_size_bounds_the_payload() {
    // a record may have trailing bytes past the declared size: the reader
    // must cut the payload off at the declaration
    let record = zlib(b"blob 5\0hello-and-trailing-padding");
    let (_, size, payload) = read_record(&record).expect("record must decode");
    assert_eq!(size, 5);
    assert_eq!(payload, b"hello".to_vec());
}

#[test]
fn corrupt_stream_is_reported() {
    let garbage = [0x01u8, 0x02, 0x03, 0x04, 0x05];
    assert_eq!(read_record(&garbage), Err(StoreError::CorruptStream));
}

#[test]
fn absent_digest_is_not_found() {
    let store = Store::new();
    let name = b"0123456789abcdef0123456789abcdef01234567";
    assert_eq!(store.read(name), Err(StoreError::NotFound));
}

#[test]
fn shard_path_splits_the_hex_name() {
    let mut store = Store::new();
    let digest = store.write_to_store(Kind::Blob, 0, b"");
    let (dir, file) = shard_path(&digest);
    assert_eq!(dir, b"e6".to_vec());
    assert_eq!(file, b"9de29bb2d1d6434b8b29ae775ad8c2e48c5391".to_vec());
}

#[test]
fn header_size_need_not_match_payload() {
    // the store records the declared size as given; a short payload makes a
    // record whose header overstates it, and reading yields what is there
    let mut store = Store::new();
    let digest = store.write_to_store(Kind::Blob, 10, b"abc");
    let name = hex::encode(digest).into_bytes();
    let (kind, size, payload) = store.read(&name).expect("record must decode");
    assert_eq!((kind, size), (Kind::Blob, 10));
    assert_eq!(payload, b"abc".to_vec());
}
