use ic_oss::codec::{DeploymentRecord, ObjectId, derive_gcm_nonce, decode_cbor_uint, encode_cbor_uint};
use ic_oss::file::{valid_file_name, valid_file_parent};
use ic_oss::paths::{canonical_path, descendant_start, parse_path, parse_prefix, validate_distinct_paths, validate_part_idx};
use ic_oss::object_types::Error;
use ic_oss::bucket::Role;
use ic_oss::MILLISECONDS;
use ic_oss::client::decryption_window;
use object_store::path::Path;

#[test]
fn file_valid_file_name_works() {
    assert!(valid_file_name("file"));
    assert!(valid_file_name("file.txt"));
    assert!(valid_file_name(".file.txt"));
    assert!(valid_file_name("file.txt."));
    assert!(valid_file_name("..."));

    assert!(!valid_file_name(""));
    assert!(!valid_file_name("."));
    assert!(!valid_file_name(".."));
    assert!(!valid_file_name(" file.txt"));
    assert!(!valid_file_name("/file.txt"));
    assert!(!valid_file_name("./file.txt"));
    assert!(!valid_file_name("test/file.txt"));
    assert!(!valid_file_name("file.txt/"));
}

#[test]
fn file_valid_file_parent_works() {
    assert!(valid_file_parent(""));
    assert!(valid_file_parent("/"));
    assert!(valid_file_parent("/file"));
    assert!(valid_file_parent("/file.txt"));
    assert!(valid_file_parent("/file/.txt"));

    assert!(!valid_file_parent("file.txt"));
    assert!(!valid_file_parent("//file.txt"));
    assert!(!valid_file_parent("/./file.txt"));
    assert!(!valid_file_parent("/../file.txt"));
    assert!(!valid_file_parent("test/file.txt"));
    assert!(!valid_file_parent("/file/"));
}

#[test]
fn it_works() {
    assert_eq!(decryption_window((0, 0), 10), (0, 10));
}

#[test]
fn path_validation_matches_object_store() {
    let cases = [
        "", "/", "a", "/a", "a/", "/a/", "a/b", "a//b", "//", ".", "..", "a/./b", "a/../b",
        "a%2Fb/c", "你好/世界", "a\0b", "a\nb",
    ];

    for case in cases {
        let expected = Path::parse(case);
        let actual = parse_path(case);
        assert_eq!(actual.is_ok(), expected.is_ok(), "{case:?}");
        if let (Ok(actual), Ok(expected)) = (actual, expected) {
            assert_eq!(actual, expected.as_ref(), "{case:?}");
        }
    }
}

#[test]
fn invalid_paths_are_reported_with_the_path() {
    assert_eq!(parse_path("a//b"), Err(Error::InvalidPath { path: "a//b".to_string() }));
    assert_eq!(parse_path("/a/b/").unwrap(), "a/b");
    assert_eq!(parse_prefix(None).unwrap(), "");
    assert_eq!(parse_prefix(Some("/x/".to_string())).unwrap(), "x");
    assert_eq!(
        validate_distinct_paths("a", "a"),
        Err(Error::Precondition {
            path: "a".to_string(),
            error: "location 'to' is equal to 'from'".to_string()
        })
    );
    assert_eq!(validate_distinct_paths("a", "b/../c"), Err(Error::InvalidPath { path: "b/../c".to_string() }));
    assert!(validate_distinct_paths("a", "b").is_ok());
    assert_eq!(validate_part_idx("p", 1023), Ok(1023));
    assert_eq!(
        validate_part_idx("p", 1024),
        Err(Error::Precondition {
            path: "p".to_string(),
            error: "part index 1024 exceeds max index 1023".to_string()
        })
    );
    assert_eq!(canonical_path("/a/b/"), "a/b");
    assert_eq!(canonical_path("/"), "");
    assert_eq!(descendant_start(""), "");
    assert_eq!(descendant_start("dir"), "dir/");
}

#[test]
fn test_role() {
    assert!(Role::Manager > Role::Auditor);
    assert!(Role::Auditor > Role::User);
}

#[test]
fn roles_rank_in_order() {
    assert!(Role::Manager.at_least(&Role::Auditor));
    assert!(Role::Auditor.at_least(&Role::Auditor));
    assert!(!Role::User.at_least(&Role::Auditor));
}

#[test]
fn test_milliseconds_constant() {
    assert_eq!(1_700_000_000_123_000_000u64 / MILLISECONDS, 1_700_000_000_123);
    assert_eq!(ic_oss::ns_to_ms(1_700_000_000_123_000_000u64), 1_700_000_000_123);
}

#[test]
fn test_deployment_record_roundtrip() {
    let record = DeploymentRecord { log_id: u64::MAX - 7, wasm_hash: [0xabu8; 32] };
    let bytes = record.to_bytes();
    assert_eq!(bytes.len(), 40);
    assert_eq!(DeploymentRecord::from_bytes(&bytes), record);
}

#[test]
fn deployment_record_layout_is_little_endian() {
    let record = DeploymentRecord { log_id: 0x0102, wasm_hash: [7u8; 32] };
    let bytes = record.to_bytes();
    assert_eq!(&bytes[..8], &[2, 1, 0, 0, 0, 0, 0, 0]);
    assert_eq!(&bytes[8..], &[7u8; 32]);
}

#[test]
fn cbor_integers_use_the_shortest_form() {
    let cases: [(u64, Vec<u8>); 8] = [
        (0, vec![0]),
        (23, vec![23]),
        (24, vec![0x18, 24]),
        (255, vec![0x18, 0xff]),
        (256, vec![0x19, 1, 0]),
        (65_536, vec![0x1a, 0, 1, 0, 0]),
        (u32::MAX as u64 + 1, vec![0x1b, 0, 0, 0, 1, 0, 0, 0, 0]),
        (u64::MAX, vec![0x1b, 0xff, 0xff, 0xff, 0xff, 0xff, 0xff, 0xff, 0xff]),
    ];
    for (v, expected) in cases {
        let mut bytes = Vec::new();
        encode_cbor_uint(&mut bytes, v);
        assert_eq!(bytes, expected);
        bytes.push(0x99);
        assert_eq!(decode_cbor_uint(&bytes), (v, expected.len()));
    }
}

/// The CBOR (RFC 8949) head of an unsigned integer, written out from the standard.
fn reference_uint(v: u64) -> Vec<u8> {
    match v {
        0..=23 => vec![v as u8],
        24..=0xff => vec![0x18, v as u8],
        0x100..=0xffff => {
            let mut b = vec![0x19];
            b.extend_from_slice(&(v as u16).to_be_bytes());
            b
        },
        0x1_0000..=0xffff_ffff => {
            let mut b = vec![0x1a];
            b.extend_from_slice(&(v as u32).to_be_bytes());
            b
        },
        _ => {
            let mut b = vec![0x1b];
            b.extend_from_slice(&v.to_be_bytes());
            b
        },
    }
}

#[test]
fn test_bound_max_size() {
    let etags = [0, 23, 24, 255, 256, 65_535, 65_536, u32::MAX as u64, u32::MAX as u64 + 1, u64::MAX];
    let part_indices = [0, 23, 24, 255, 256, 65_535, 65_536, u32::MAX];
    for etag in etags {
        for part_idx in part_indices {
            let id = ObjectId(etag, part_idx);
            let mut legacy_bytes = vec![0x82];
            legacy_bytes.extend(reference_uint(etag));
            legacy_bytes.extend(reference_uint(part_idx as u64));
            assert_eq!(id.to_bytes(), legacy_bytes);
            assert_eq!(ObjectId::from_bytes(&legacy_bytes), id);
        }
    }
    assert_eq!(ObjectId(u64::MAX, u32::MAX).to_bytes().len(), 15);
    assert_eq!(ObjectId(0, 0).to_bytes().len(), 3);
    assert_eq!(ObjectId(0, 0).to_bytes(), vec![0x82, 0, 0]);
}

#[test]
fn gcm_nonces_count_up_from_the_base() {
    let base = [1u8, 2, 3, 4, 0xff, 0, 0, 0, 0, 0, 0, 0];
    assert_eq!(derive_gcm_nonce(&base, 0), base);
    assert_eq!(derive_gcm_nonce(&base, 1), [1, 2, 3, 4, 0, 1, 0, 0, 0, 0, 0, 0]);
    let top = [9u8, 9, 9, 9, 0xff, 0xff, 0xff, 0xff, 0xff, 0xff, 0xff, 0xff];
    assert_eq!(derive_gcm_nonce(&top, 2), [9, 9, 9, 9, 1, 0, 0, 0, 0, 0, 0, 0]);
}
