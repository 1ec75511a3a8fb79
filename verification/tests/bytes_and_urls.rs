use ic_oss::bytes::{ByteN, Bytes32};
use ic_oss::file::{parse_u32, UrlFileParam, UrlParts};

#[test]
fn bytes32_reads_exactly_32_bytes() {
    let b = Bytes32::try_from_slice(&[7u8; 32]).unwrap();
    assert_eq!(b.to_vec(), vec![7u8; 32]);
    assert_eq!(
        Bytes32::try_from_slice(&[7u8; 31]).unwrap_err(),
        "expected 32 bytes, got 31"
    );
    assert_eq!(
        Bytes32::try_from_vec(vec![1u8; 33]).unwrap_err(),
        "expected 32 bytes, got 33"
    );
    let hex = "00".repeat(31) + "ff";
    let b = Bytes32::try_from_hex(&hex).unwrap();
    assert_eq!(b.0[31], 255);
    assert_eq!(b.0[0], 0);
    assert_eq!(
        Bytes32::try_from_hex("zz").unwrap_err(),
        "failed to decode hex: zz"
    );
    assert_eq!(
        Bytes32::try_from_hex("0a0B").unwrap_err(),
        "expected 32 bytes, got 2"
    );
}

#[test]
fn byte_n_reads_its_length() {
    let b4: ByteN<4> = ByteN::from([1, 2, 3, 4]);
    assert_eq!(b4.0, [1, 2, 3, 4]);
    let b: ByteN<4> = ByteN::from_hex("01020304").unwrap();
    assert_eq!(b, b4);
    let e = ByteN::<4>::try_from(&[1u8, 2, 3, 4, 0]).unwrap_err();
    assert_eq!(e, "expected 4 bytes, got 5");
    assert_eq!(
        ByteN::<4>::from_hex("0102030").unwrap_err(),
        "failed to decode hex: 0102030"
    );
}

#[test]
fn decimal_ids_parse_like_std() {
    assert_eq!(parse_u32("42"), Some(42));
    assert_eq!(parse_u32("+7"), Some(7));
    assert_eq!(parse_u32("4294967295"), Some(u32::MAX));
    assert_eq!(parse_u32("4294967296"), None);
    assert_eq!(parse_u32(""), None);
    assert_eq!(parse_u32("+"), None);
    assert_eq!(parse_u32("-1"), None);
    assert_eq!(parse_u32("1a"), None);
    for s in ["0", "007", "123456", "+99", " 1"] {
        assert_eq!(parse_u32(s), s.parse::<u32>().ok());
    }
}

#[test]
fn download_urls_name_a_file() {
    let p = UrlFileParam::from_url("/f/1").unwrap();
    assert_eq!(p.file, 1);
    assert!(p.hash.is_none() && p.token.is_none() && p.name.is_none() && !p.inline);

    let hash = "85".repeat(32);
    let p = UrlFileParam::from_url(&format!(
        "http://mmrxu-fqaaa-aaaap-ahhna-cai.localhost:4943/h/{}?filename=a.txt&inline",
        hash
    ))
    .unwrap();
    assert_eq!(p.hash, Some([0x85u8; 32]));
    assert_eq!(p.name, Some("a.txt".to_string()));
    assert!(p.inline);

    let p = UrlFileParam::from_url("/f/2/name.bin?filename=other&token=AQID").unwrap();
    assert_eq!(p.file, 2);
    assert_eq!(p.token, Some(vec![1, 2, 3]));
    assert_eq!(p.name, Some("name.bin".to_string()));
}

#[test]
fn bad_download_urls_are_refused() {
    assert_eq!(UrlFileParam::from_url("/f/abc").unwrap_err(), "invalid file id");
    assert_eq!(UrlFileParam::from_url("/f").unwrap_err(), "invalid file id");
    assert_eq!(UrlFileParam::from_url("/x/1").unwrap_err(), "invalid url path: /x/1");
    assert_eq!(UrlFileParam::from_url("not a url").unwrap_err(), "invalid url: not a url");
    assert_eq!(UrlFileParam::from_url("/h/0102").unwrap_err(), "[1, 2]");
    assert_eq!(UrlFileParam::from_url("/h/").unwrap_err(), "[]");
    assert_eq!(
        UrlFileParam::from_url("/h/zz").unwrap_err(),
        "InvalidHexCharacter { c: 'z', index: 0 }"
    );
    assert_eq!(
        UrlFileParam::from_url("/f/1?token=%%%").unwrap_err(),
        "failed to decode base64 token from %%%"
    );
}

#[test]
fn read_urls_give_the_download_they_name() {
    let parts = UrlParts {
        segments: Some(vec!["f".to_string(), "12".to_string(), "report.pdf".to_string()]),
        query: vec![("inline".to_string(), String::new())],
    };
    let p = UrlFileParam::url_param_of(parts, "/f/12/report.pdf?inline").unwrap();
    assert_eq!((p.file, p.inline, p.name.as_deref()), (12, true, Some("report.pdf")));
    let parts = UrlParts { segments: Some(vec!["g".to_string()]), query: vec![] };
    assert_eq!(UrlFileParam::url_param_of(parts, "/g").unwrap_err(), "invalid url path: /g");
    let parts = UrlParts { segments: None, query: vec![] };
    assert_eq!(UrlFileParam::url_param_of(parts, "x:y").unwrap_err(), "invalid url path: x:y");
    let parts = UrlParts { segments: Some(vec!["f".to_string(), "x".to_string()]), query: vec![] };
    assert_eq!(UrlFileParam::url_param_of(parts, "/f/x").unwrap_err(), "invalid file id");
}
