use filetracker::blobstorage::BlobStorage;
use filetracker::error::StorageError;
use filetracker::headers::parse_put_headers;
use filetracker::hex::{bytes_to_hex, hex_to_byte_array};

const HELLO_SHA: &str = "2cf24dba5fb0a30e26e83b2ac5b9e29e1b161e5c1fa7425e73043362938b9824";

#[test]
fn hex_encoding_is_lowercase_two_digits_per_byte() {
    assert_eq!(bytes_to_hex(&[]), "");
    assert_eq!(bytes_to_hex(&[0x00, 0xff, 0x2c]), "00ff2c");
    let hash = <sha2::Sha256 as sha2::Digest>::digest(b"hello");
    assert_eq!(bytes_to_hex(&hash), HELLO_SHA);
}

#[test]
fn hex_decoding_round_trips() {
    let bytes = hex_to_byte_array::<32>(HELLO_SHA).unwrap();
    assert_eq!(bytes_to_hex(&bytes), HELLO_SHA);
    let upper = HELLO_SHA.to_uppercase();
    assert_eq!(hex_to_byte_array::<32>(&upper).unwrap(), bytes);
}

#[test]
fn hex_decoding_rejects_wrong_length_and_bad_chars() {
    assert!(hex_to_byte_array::<32>("").is_none());
    assert!(hex_to_byte_array::<32>("2cf2").is_none());
    let mut too_long = String::from(HELLO_SHA);
    too_long.push_str("ab");
    assert!(hex_to_byte_array::<32>(&too_long).is_none());
    let bad = HELLO_SHA.replace('2', "g");
    assert!(hex_to_byte_array::<32>(&bad).is_none());
    let non_ascii = HELLO_SHA.replace('2', "é");
    assert!(hex_to_byte_array::<32>(&non_ascii).is_none());
    assert_eq!(hex_to_byte_array::<2>("00ff"), Some([0x00, 0xff]));
}

#[test]
fn blob_path_splits_after_two_hex_chars() {
    let hash = hex_to_byte_array::<32>(HELLO_SHA).unwrap();
    assert_eq!(
        BlobStorage::path_to_blob(&hash),
        "2c/f24dba5fb0a30e26e83b2ac5b9e29e1b161e5c1fa7425e73043362938b9824"
    );
}

#[test]
fn headers_accept_the_supported_shapes() {
    let o = parse_put_headers(None, None, None).unwrap();
    assert!(!o.is_gzip);
    assert!(o.checksum.is_none());
    assert!(o.logical_size.is_none());

    let o = parse_put_headers(Some("gzip"), Some(HELLO_SHA), Some("7")).unwrap();
    assert!(o.is_gzip);
    assert_eq!(bytes_to_hex(&o.checksum.unwrap()), HELLO_SHA);
    assert_eq!(o.logical_size, Some(7));
}

#[test]
fn headers_reject_malformed_values() {
    assert!(matches!(
        parse_put_headers(Some("deflate"), None, None),
        Err(StorageError::BadRequest)
    ));
    assert!(matches!(
        parse_put_headers(None, Some("zz"), None),
        Err(StorageError::BadRequest)
    ));
    assert!(matches!(
        parse_put_headers(None, None, Some("seven")),
        Err(StorageError::BadRequest)
    ));
}
