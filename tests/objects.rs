use nyx::errors::NyxError;
use nyx::object::{append_object_header, calculate_sha1, object_hash, read_object_data};
use nyx::object_type::NyxObjectType;
use nyx::store::ObjectStore;

#[test]
fn frame_has_type_length_and_nul() {
    let f = append_object_header(b"hi", NyxObjectType::Blob);
    assert_eq!(f, b"blob 2\0hi".to_vec());
    let f = append_object_header(b"", NyxObjectType::Tree);
    assert_eq!(f, b"tree 0\0".to_vec());
    let content = vec![b'x'; 12];
    let f = append_object_header(&content, NyxObjectType::Commit);
    assert_eq!(&f[..10], b"commit 12\0");
}

#[test]
fn sha1_is_lowercase_hex_of_digest() {
    assert_eq!(calculate_sha1(b"abc"), "a9993e364706816aba3e25717850c26c9cd0d89d");
}

#[test]
fn blob_hash_matches_known_digest() {
    assert_eq!(
        object_hash(b"hi", NyxObjectType::Blob),
        "32f95c0d1244a78b2be1bab8de17906fabb2c4a8"
    );
    assert_eq!(
        object_hash(b"", NyxObjectType::Tree),
        "4b825dc642cb6eb9a060e54bf8d69288fbee4904"
    );
}

#[test]
fn content_addressing_equal_and_distinct() {
    let a = object_hash(b"same", NyxObjectType::Blob);
    let b = object_hash(b"same", NyxObjectType::Blob);
    assert_eq!(a, b);
    let c = object_hash(b"other", NyxObjectType::Blob);
    assert_ne!(a, c);
    let d = object_hash(b"same", NyxObjectType::Tree);
    assert_ne!(a, d);
}

#[test]
fn read_object_data_returns_text_after_first_nul() {
    assert_eq!(read_object_data(b"blob 5\0a\0b c"), Ok("a\0b c".to_string()));
    assert_eq!(read_object_data(b"no separator"), Err(NyxError::EncodingError));
    assert_eq!(read_object_data(b"blob 2\0\xff\xfe"), Err(NyxError::EncodingError));
}

#[test]
fn store_round_trip() {
    let mut store = ObjectStore::new();
    let h = store.write("hello world".as_bytes(), NyxObjectType::Blob);
    assert_eq!(store.read(&h), Ok("hello world".to_string()));
    let h2 = store.write("hello world".as_bytes(), NyxObjectType::Blob);
    assert_eq!(h, h2);
    assert_eq!(store.len(), 1);
    assert!(store.contains(&h));
    assert_eq!(store.data_at(0), &b"blob 11\0hello world".to_vec());
}

#[test]
fn store_round_trip_empty_and_unicode() {
    let mut store = ObjectStore::new();
    let h = store.write(b"", NyxObjectType::Blob);
    assert_eq!(store.read(&h), Ok(String::new()));
    let text = "grüße\n€";
    let h = store.write(text.as_bytes(), NyxObjectType::Blob);
    assert_eq!(store.read(&h), Ok(text.to_string()));
}

#[test]
fn store_read_missing_is_not_found() {
    let store = ObjectStore::new();
    assert_eq!(store.read("0123456789"), Err(NyxError::NotFound));
    assert!(!store.contains("0123456789"));
}

#[test]
fn store_insert_raw_replaces() {
    let mut store = ObjectStore::new();
    store.insert_raw("ab".to_string(), b"blob 1\0x".to_vec());
    store.insert_raw("ab".to_string(), b"blob 1\0y".to_vec());
    assert_eq!(store.len(), 1);
    assert_eq!(store.read("ab"), Ok("y".to_string()));
    assert_eq!(store.hash_at(0), "ab");
}

#[test]
fn object_type_names() {
    assert_eq!(NyxObjectType::Blob.name(), "blob");
    assert_eq!(NyxObjectType::Tree.name(), "tree");
    assert_eq!(NyxObjectType::Commit.name(), "commit");
}
