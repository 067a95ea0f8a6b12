use filetracker::error::StorageError;
use filetracker::error::http_status;
use filetracker::meta::{Compression, FileMetadata};
use filetracker::metacodec::{parse_metadata, serialize_metadata};
use filetracker::listfmt::format_listing;
use filetracker::numfmt::{i64_to_dec, parse_dec_usize, u64_to_dec};
use filetracker::timefmt::{VERSION_MILLIS_MAX, VERSION_MILLIS_MIN};

const V_2024_01_01: i64 = 1704067200000;

#[test]
fn metadata_round_trips_through_json() {
    let mut checksum = [0u8; 32];
    for (i, b) in checksum.iter_mut().enumerate() {
        *b = (i * 7 + 3) as u8;
    }
    let m = FileMetadata {
        version: V_2024_01_01,
        checksum,
        compression: Compression::Gzip,
        decompressed_size: 5,
    };
    let text = serialize_metadata(&m);
    let back = parse_metadata(&text).unwrap();
    assert_eq!(back.version, m.version);
    assert_eq!(back.checksum, m.checksum);
    assert!(matches!(back.compression, Compression::Gzip));
    assert_eq!(back.decompressed_size, m.decompressed_size);
}

#[test]
fn metadata_json_is_canonical() {
    let m = FileMetadata {
        version: V_2024_01_01,
        checksum: [0u8; 32],
        compression: Compression::Gzip,
        decompressed_size: 5,
    };
    let mut expected = String::from("{\"version\":\"2024-01-01T00:00:00.000Z\",\"checksum\":[0");
    for _ in 1..32 {
        expected.push_str(",0");
    }
    expected.push_str("],\"compression\":\"Gzip\",\"decompressed_size\":5}");
    assert_eq!(serialize_metadata(&m), expected);
}

#[test]
fn metadata_round_trips_at_the_version_boundaries() {
    for version in [VERSION_MILLIS_MIN, VERSION_MILLIS_MAX] {
        let m = FileMetadata {
            version,
            checksum: [7u8; 32],
            compression: Compression::Gzip,
            decompressed_size: 1,
        };
        let text = serialize_metadata(&m);
        let back = parse_metadata(&text).unwrap();
        assert_eq!(back.version, version);
    }
}

#[test]
fn uncompressed_label_round_trips() {
    let m = FileMetadata {
        version: V_2024_01_01,
        checksum: [9u8; 32],
        compression: Compression::Uncompressed,
        decompressed_size: 0,
    };
    let text = serialize_metadata(&m);
    assert!(text.contains("\"compression\":\"None\""));
    let back = parse_metadata(&text).unwrap();
    assert!(matches!(back.compression, Compression::Uncompressed));
}

#[test]
fn missing_field_is_invalid_data_not_not_found() {
    let r = parse_metadata("{\"version\":\"2024-01-01T00:00:00.000Z\"}");
    assert!(matches!(r, Err(StorageError::InvalidData)));
    let r2 = parse_metadata("{}");
    assert!(matches!(r2, Err(StorageError::InvalidData)));
    let r3 = parse_metadata("");
    assert!(matches!(r3, Err(StorageError::InvalidData)));
}

#[test]
fn trailing_data_is_invalid() {
    let m = FileMetadata {
        version: V_2024_01_01,
        checksum: [0u8; 32],
        compression: Compression::Gzip,
        decompressed_size: 5,
    };
    let mut text = serialize_metadata(&m);
    text.push(' ');
    assert!(matches!(parse_metadata(&text), Err(StorageError::InvalidData)));
}

#[test]
fn bad_version_string_is_invalid() {
    let r = parse_metadata(
        "{\"version\":\"yesterday\",\"checksum\":[0,0,0,0,0,0,0,0,0,0,0,0,0,0,0,0,0,0,0,0,0,0,0,0,0,0,0,0,0,0,0,0],\"compression\":\"Gzip\",\"decompressed_size\":5}",
    );
    assert!(matches!(r, Err(StorageError::InvalidData)));
}

#[test]
fn decimal_rendering_is_exact() {
    assert_eq!(u64_to_dec(0), "0");
    assert_eq!(u64_to_dec(1704067200), "1704067200");
    assert_eq!(i64_to_dec(-42), "-42");
    assert_eq!(i64_to_dec(7), "7");
}

#[test]
fn decimal_parsing_rejects_junk() {
    assert_eq!(parse_dec_usize("123"), Some(123));
    assert_eq!(parse_dec_usize("0"), Some(0));
    assert_eq!(parse_dec_usize(""), None);
    assert_eq!(parse_dec_usize("12a"), None);
    assert_eq!(parse_dec_usize("-5"), None);
    assert_eq!(parse_dec_usize("99999999999999999999999999999"), None);
}

#[test]
fn listing_renders_negative_seconds_floored() {
    let entries = vec![(
        String::from("p"),
        FileMetadata {
            version: -1000,
            checksum: [0u8; 32],
            compression: Compression::Gzip,
            decompressed_size: 5,
        },
    )];
    assert_eq!(format_listing(&entries), "p\n-1\n5\n");
    let entries2 = vec![(
        String::from("q"),
        FileMetadata {
            version: -1500,
            checksum: [0u8; 32],
            compression: Compression::Gzip,
            decompressed_size: 0,
        },
    )];
    assert_eq!(format_listing(&entries2), "q\n-2\n0\n");
}

#[test]
fn status_codes_follow_the_taxonomy() {
    assert_eq!(http_status(&StorageError::NotFound), 404);
    assert_eq!(http_status(&StorageError::BadRequest), 400);
    assert_eq!(http_status(&StorageError::NotADirectory), 400);
    assert_eq!(http_status(&StorageError::InvalidData), 500);
    assert_eq!(http_status(&StorageError::IoError), 500);
}
