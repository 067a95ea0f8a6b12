use filetracker::error::StorageError;
use filetracker::hex::{bytes_to_hex, hex_to_byte_array};
use filetracker::listfmt::format_listing;
use filetracker::meta::Compression;
use filetracker::storage::LocalStorage;

const V_2023_06_01: i64 = 1685577600000;
const V_2024_01_01: i64 = 1704067200000;
const V_2024_12_31: i64 = 1735603200000;

const HELLO_SHA: &str = "2cf24dba5fb0a30e26e83b2ac5b9e29e1b161e5c1fa7425e73043362938b9824";

fn gz(data: &[u8]) -> Vec<u8> {
    let mut enc = flate2::read::GzEncoder::new(
        std::io::Cursor::new(data),
        flate2::Compression::new(9),
    );
    let mut out = Vec::new();
    std::io::Read::read_to_end(&mut enc, &mut out).unwrap();
    out
}

fn gunzip(data: &[u8]) -> Vec<u8> {
    let mut dec = flate2::read::GzDecoder::new(std::io::Cursor::new(data));
    let mut out = Vec::new();
    std::io::Read::read_to_end(&mut dec, &mut out).unwrap();
    out
}

fn sha(data: &[u8]) -> [u8; 32] {
    <sha2::Sha256 as sha2::Digest>::digest(data).into()
}

#[test]
fn put_raw_then_get_round_trip() {
    let mut store = LocalStorage::new();
    store
        .put("a/b", V_2024_01_01, b"hello", false, None, None)
        .unwrap();
    let (meta, body) = store.get("a/b").unwrap();
    assert_eq!(gunzip(&body), b"hello".to_vec());
    assert_eq!(bytes_to_hex(&meta.checksum), HELLO_SHA);
    assert_eq!(meta.decompressed_size, 5);
    assert_eq!(meta.version, V_2024_01_01);
    assert!(matches!(meta.compression, Compression::Gzip));
    let expected = hex_to_byte_array::<32>(HELLO_SHA).unwrap();
    assert_eq!(store.blob_refcount(&expected), Some(1));
}

#[test]
fn head_reports_stored_size() {
    let mut store = LocalStorage::new();
    store
        .put("a/b", V_2024_01_01, b"hello", false, None, None)
        .unwrap();
    let (meta, stored_size) = store.head("a/b").unwrap();
    assert_eq!(stored_size, gz(b"hello").len());
    assert_eq!(meta.decompressed_size, 5);
}

#[test]
fn older_version_is_dropped() {
    let mut store = LocalStorage::new();
    store
        .put("a/b", V_2024_01_01, b"hello", false, None, None)
        .unwrap();
    store
        .put("a/b", V_2023_06_01, b"world", false, None, None)
        .unwrap();
    let (meta, body) = store.get("a/b").unwrap();
    assert_eq!(gunzip(&body), b"hello".to_vec());
    assert_eq!(meta.version, V_2024_01_01);
}

#[test]
fn newer_version_replaces() {
    let mut store = LocalStorage::new();
    store
        .put("a/b", V_2023_06_01, b"world", false, None, None)
        .unwrap();
    store
        .put("a/b", V_2024_01_01, b"hello", false, None, None)
        .unwrap();
    let (meta, body) = store.get("a/b").unwrap();
    assert_eq!(gunzip(&body), b"hello".to_vec());
    assert_eq!(meta.version, V_2024_01_01);
    assert_eq!(store.blob_refcount(&sha(b"world")), None);
}

#[test]
fn equal_version_overwrites() {
    let mut store = LocalStorage::new();
    store
        .put("p", V_2024_01_01, b"one", false, None, None)
        .unwrap();
    store
        .put("p", V_2024_01_01, b"two", false, None, None)
        .unwrap();
    let (_, body) = store.get("p").unwrap();
    assert_eq!(gunzip(&body), b"two".to_vec());
}

#[test]
fn shared_blob_refcount_and_delete() {
    let mut store = LocalStorage::new();
    store
        .put("a/b", V_2024_01_01, b"hello", false, None, None)
        .unwrap();
    store
        .put("c", V_2024_01_01, b"hello", false, None, None)
        .unwrap();
    let hash = hex_to_byte_array::<32>(HELLO_SHA).unwrap();
    assert_eq!(store.blob_refcount(&hash), Some(2));
    store.delete("a/b", V_2024_12_31).unwrap();
    assert_eq!(store.blob_refcount(&hash), Some(1));
    assert!(store.get("c").is_ok());
    assert!(matches!(store.get("a/b"), Err(StorageError::NotFound)));
}

#[test]
fn delete_below_version_is_noop() {
    let mut store = LocalStorage::new();
    store
        .put("a/b", V_2024_01_01, b"hello", false, None, None)
        .unwrap();
    store.delete("a/b", V_2023_06_01).unwrap();
    assert!(store.get("a/b").is_ok());
    store.delete("a/b", V_2024_01_01).unwrap();
    assert!(matches!(store.get("a/b"), Err(StorageError::NotFound)));
}

#[test]
fn delete_missing_path_is_not_found() {
    let mut store = LocalStorage::new();
    assert!(matches!(store.delete("nope", V_2024_01_01), Err(StorageError::NotFound)));
}

#[test]
fn n_puts_then_n_deletes_leave_no_blob() {
    let mut store = LocalStorage::new();
    let paths = ["p0", "p1", "p2", "p3", "p4"];
    for p in paths.iter() {
        store.put(p, V_2024_01_01, b"hello", false, None, None).unwrap();
    }
    let hash = hex_to_byte_array::<32>(HELLO_SHA).unwrap();
    assert_eq!(store.blob_refcount(&hash), Some(5));
    for p in paths.iter() {
        store.delete(p, V_2024_12_31).unwrap();
    }
    assert_eq!(store.blob_refcount(&hash), None);
}

#[test]
fn gzip_put_with_trusted_quantities_stores_verbatim() {
    let mut store = LocalStorage::new();
    let body = gz(b"payload");
    let checksum = sha(b"payload");
    store
        .put("x", V_2024_01_01, &body, true, Some(checksum), Some(7))
        .unwrap();
    let (meta, stored) = store.get("x").unwrap();
    assert_eq!(stored, body);
    assert_eq!(meta.checksum, checksum);
    assert_eq!(meta.decompressed_size, 7);
}

#[test]
fn gzip_put_without_checksum_derives_it() {
    let mut store = LocalStorage::new();
    let body = gz(b"payload");
    store.put("x", V_2024_01_01, &body, true, None, None).unwrap();
    let (meta, stored) = store.get("x").unwrap();
    assert_eq!(stored, body);
    assert_eq!(meta.checksum, sha(b"payload"));
    assert_eq!(meta.decompressed_size, 7);
}

#[test]
fn gzip_put_with_malformed_stream_is_invalid_data() {
    let mut store = LocalStorage::new();
    let r = store.put("x", V_2024_01_01, b"not gzip at all", true, None, None);
    assert!(matches!(r, Err(StorageError::InvalidData)));
    assert!(matches!(store.get("x"), Err(StorageError::NotFound)));
}

#[test]
fn list_filters_by_version_inclusively() {
    let mut store = LocalStorage::new();
    store.put("a/b", V_2024_01_01, b"hello", false, None, None).unwrap();
    store.put("c", V_2023_06_01, b"hello", false, None, None).unwrap();
    store.delete("a/b", V_2024_12_31).unwrap();
    let entries = store.list("", V_2023_06_01).unwrap();
    assert_eq!(entries.len(), 1);
    assert_eq!(entries[0].0, "c");
    assert_eq!(entries[0].1.version, V_2023_06_01);
    assert_eq!(entries[0].1.decompressed_size, 5);
    let body = format_listing(&entries);
    assert_eq!(body, "c\n1685577600\n5\n");
}

#[test]
fn list_excludes_newer_entries() {
    let mut store = LocalStorage::new();
    store.put("new", V_2024_01_01, b"hello", false, None, None).unwrap();
    let entries = store.list("", V_2023_06_01).unwrap();
    assert_eq!(entries.len(), 0);
}

#[test]
fn list_file_prefix_is_not_a_directory() {
    let mut store = LocalStorage::new();
    store.put("a/b", V_2024_01_01, b"hello", false, None, None).unwrap();
    assert!(matches!(store.list("a/b", V_2024_12_31), Err(StorageError::NotADirectory)));
}

#[test]
fn list_missing_prefix_is_not_found() {
    let mut store = LocalStorage::new();
    store.put("a/b", V_2024_01_01, b"hello", false, None, None).unwrap();
    assert!(matches!(store.list("zzz", V_2024_12_31), Err(StorageError::NotFound)));
}

#[test]
fn list_directory_prefix_yields_full_relative_paths() {
    let mut store = LocalStorage::new();
    store.put("a/b", V_2024_01_01, b"hello", false, None, None).unwrap();
    store.put("other", V_2024_01_01, b"hello", false, None, None).unwrap();
    let entries = store.list("a", V_2024_12_31).unwrap();
    assert_eq!(entries.len(), 1);
    assert_eq!(entries[0].0, "a/b");
}
