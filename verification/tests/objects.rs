use ic_oss::object_types::{
    Error, GetOptions, GetRange, PutMode, PutMultipartOptions, PutOptions, UpdateVersion, CHUNK_SIZE,
};
use ic_oss::objects::{collect_with_delimiter, etag_matches, ObjectStore};

fn store() -> ObjectStore {
    ObjectStore::new("test".to_string())
}

fn create() -> PutOptions {
    PutOptions {
        mode: PutMode::Create,
        ..Default::default()
    }
}

fn locations(v: &[ic_oss::object_types::ObjectMeta]) -> Vec<String> {
    v.iter().map(|x| x.location.clone()).collect()
}

#[test]
fn test_objects() {
    let mut s = store();
    let path = "test/a.txt".to_string();
    let payload = b"hello world".to_vec();
    let opts = create();

    let res = s.put_opts(path.clone(), payload.clone(), opts.clone(), 0).unwrap();
    assert_eq!(res.e_tag, Some("0".to_string()));

    let res = s.get_opts(path.clone(), GetOptions::default()).unwrap();
    assert_eq!(res.payload, payload);

    let meta = s.head(path.clone()).unwrap();
    assert_eq!(meta.size as usize, payload.len());
    assert_eq!(meta.e_tag, Some("0".to_string()));

    assert!(s.put_opts(path.clone(), payload.clone(), opts, 0).is_err());

    let payload = b"hello Anda".to_vec();
    let res = s
        .put_opts(
            path.clone(),
            payload.clone(),
            PutOptions {
                mode: PutMode::Overwrite,
                ..Default::default()
            },
            0,
        )
        .unwrap();
    assert_eq!(res.e_tag, Some("1".to_string()));

    let res = s.get_opts(path.clone(), GetOptions::default()).unwrap();
    assert_eq!(res.payload, payload);
    assert_eq!(res.meta.size as usize, payload.len());

    let payload = b"hello Anda 2".to_vec();
    let res = s.put_opts(
        path.clone(),
        payload.clone(),
        PutOptions {
            mode: PutMode::Update(UpdateVersion {
                e_tag: Some("0".to_string()),
                version: Some("0".to_string()),
            }),
            ..Default::default()
        },
        0,
    );
    assert!(res.is_err());
    let res = s
        .put_opts(
            path.clone(),
            payload.clone(),
            PutOptions {
                mode: PutMode::Update(UpdateVersion {
                    e_tag: Some("1".to_string()),
                    version: Some("0".to_string()),
                }),
                ..Default::default()
            },
            0,
        )
        .unwrap();
    assert_eq!(res.e_tag, Some("2".to_string()));
    assert_eq!(res.version, Some("0".to_string()));
    let res = s.get_opts(path.clone(), GetOptions::default()).unwrap();
    assert_eq!(res.payload, payload);
    assert_eq!(res.meta.location, path);
    assert_eq!(res.meta.e_tag, Some("2".to_string()));
    assert_eq!(res.meta.size as usize, payload.len());
    assert_eq!(res.meta.version, Some("0".to_string()));

    let to = "test/b.txt".to_string();
    assert!(s.copy(to.clone(), path.clone()).is_err());
    s.copy(path.clone(), to.clone()).unwrap();
    assert!(s.copy_if_not_exists(path.clone(), to.clone()).is_err());

    s.delete(path.clone()).unwrap();
    assert!(s.get_opts(path.clone(), GetOptions::default()).is_err());

    let res = s.get_opts(to.clone(), GetOptions::default()).unwrap();
    assert_eq!(res.payload, payload);
    assert_eq!(res.meta.location, to);
    assert_eq!(res.meta.e_tag, Some("3".to_string()));
    assert_eq!(res.meta.size as usize, payload.len());
    assert_eq!(res.meta.version, Some("0".to_string()));

    s.copy_if_not_exists(to.clone(), path.clone()).unwrap();
    let res = s.get_opts(path.clone(), GetOptions::default()).unwrap();
    assert_eq!(res.payload, payload);
    assert_eq!(res.meta.location, path);
    assert_eq!(res.meta.e_tag, Some("4".to_string()));
    assert_eq!(res.meta.size as usize, payload.len());
    assert_eq!(res.meta.version, Some("0".to_string()));

    let rename = "test/c.txt".to_string();
    s.rename(to.clone(), rename.clone()).unwrap();
    assert!(s.get_opts(to.clone(), GetOptions::default()).is_err());
    assert!(s.rename(to.clone(), rename.clone()).is_err());
    let res = s.get_opts(rename.clone(), GetOptions::default()).unwrap();
    assert_eq!(res.payload, payload);
    assert_eq!(res.meta.location, rename);
    assert_eq!(res.meta.e_tag, Some("3".to_string()));
    assert_eq!(res.meta.size as usize, payload.len());
    assert_eq!(res.meta.version, Some("0".to_string()));

    assert!(s.rename_if_not_exists(path.clone(), rename.clone()).is_err());
    let rename = "test/d.txt".to_string();
    s.rename_if_not_exists(path.clone(), rename.clone()).unwrap();
    assert!(s.get_opts(path.clone(), GetOptions::default()).is_err());
    let res = s.get_opts(rename.clone(), GetOptions::default()).unwrap();
    assert_eq!(res.payload, payload);
    assert_eq!(res.meta.location, rename);
    assert_eq!(res.meta.e_tag, Some("4".to_string()));
    assert_eq!(res.meta.size as usize, payload.len());
    assert_eq!(res.meta.version, Some("0".to_string()));

    let path = "test/c.txt".to_string();
    s.rename(path.clone(), rename.clone()).unwrap();
    assert!(s.get_opts(path.clone(), GetOptions::default()).is_err());
    let res = s.get_opts(rename.clone(), GetOptions::default()).unwrap();
    assert_eq!(res.payload, payload);
    assert_eq!(res.meta.location, rename);
    assert_eq!(res.meta.e_tag, Some("3".to_string()));
    assert_eq!(res.meta.size as usize, payload.len());
    assert_eq!(res.meta.version, Some("0".to_string()));
}

#[test]
fn test_list() {
    let mut s = store();
    let paths = vec![
        "a/1.txt".to_string(),
        "a/1.txt/1.txt".to_string(),
        "aa/1.txt".to_string(),
        "b/1.txt".to_string(),
        "a/2.txt".to_string(),
        "b/2.txt".to_string(),
        "a/3.txt".to_string(),
        "a/b%2Fc/foo.file".to_string(),
    ];
    let mut paths_sorted = paths.clone();
    paths_sorted.sort();
    assert_ne!(&paths, &paths_sorted);
    for path in paths.iter() {
        s.put_opts(path.clone(), path.as_bytes().to_vec(), create(), 0).unwrap();
    }
    let res = s.list(String::new()).unwrap();
    assert_eq!(locations(&res), paths_sorted);

    let res = s.list("a".to_string()).unwrap();
    assert_eq!(
        locations(&res),
        vec![
            "a/1.txt".to_string(),
            "a/1.txt/1.txt".to_string(),
            "a/2.txt".to_string(),
            "a/3.txt".to_string(),
            "a/b%2Fc/foo.file".to_string()
        ]
    );

    let res = s.list("a/1".to_string()).unwrap();
    assert!(res.is_empty());
    let res = s.list("a/1.txt".to_string()).unwrap();
    assert_eq!(locations(&res), vec!["a/1.txt/1.txt".to_string()]);

    let res = s.list_with_offset("a".to_string(), "a/1.txt/1.txt".to_string()).unwrap();
    assert_eq!(
        locations(&res),
        vec![
            "a/2.txt".to_string(),
            "a/3.txt".to_string(),
            "a/b%2Fc/foo.file".to_string()
        ]
    );

    let res = s.list_with_delimiter(String::new()).unwrap();
    assert_eq!(
        res.common_prefixes,
        vec!["a".to_string(), "aa".to_string(), "b".to_string()]
    );
    assert!(res.objects.is_empty());

    let res = s.list_with_delimiter("a".to_string()).unwrap();
    assert_eq!(
        res.common_prefixes,
        vec!["a/1.txt".to_string(), "a/b%2Fc".to_string()]
    );
    assert_eq!(
        locations(&res.objects),
        vec![
            "a/1.txt".to_string(),
            "a/2.txt".to_string(),
            "a/3.txt".to_string()
        ]
    );
}

#[test]
fn test_noncanonical_listing_compatibility() {
    let mut s = store();
    for path in ["/leading.txt", "trailing/"] {
        s.put_opts(path.to_string(), path.as_bytes().to_vec(), PutOptions::default(), 0)
            .unwrap();
    }

    let expected = vec!["/leading.txt".to_string(), "trailing/".to_string()];
    let objects = s.list(String::new()).unwrap();
    assert_eq!(locations(&objects), expected);

    let result = s.list_with_delimiter(String::new()).unwrap();
    assert!(result.common_prefixes.is_empty());
    assert_eq!(locations(&result.objects), expected);

    let objects = s.list_with_offset(String::new(), "a".to_string()).unwrap();
    assert_eq!(locations(&objects), expected);
}

#[test]
fn test_copy_shares_and_reclaims_object_data() {
    let mut s = store();
    let source = "shared/source.bin".to_string();
    let first_copy = "shared/first.bin".to_string();
    let second_copy = "shared/second.bin".to_string();
    let payload = vec![9u8; CHUNK_SIZE as usize + 17];

    s.put_opts(source.clone(), payload.clone(), PutOptions::default(), 0).unwrap();
    assert_eq!(s.parts_stored(), 2);

    s.copy(source.clone(), first_copy.clone()).unwrap();
    s.copy(first_copy.clone(), second_copy.clone()).unwrap();
    assert_eq!(s.parts_stored(), 2);
    assert_eq!(s.data_etag(1), 0);
    assert_eq!(s.data_etag(2), 0);

    s.delete(source).unwrap();
    assert_eq!(s.parts_stored(), 2);
    assert_eq!(
        s.get_opts(second_copy.clone(), GetOptions::default()).unwrap().payload,
        payload
    );

    s.put_opts(first_copy.clone(), b"replacement".to_vec(), PutOptions::default(), 0)
        .unwrap();
    assert_eq!(s.parts_stored(), 3);

    s.delete(second_copy).unwrap();
    assert_eq!(s.parts_stored(), 1);
    s.delete(first_copy).unwrap();
    assert_eq!(s.parts_stored(), 0);
}

#[test]
fn test_multipart_completion_avoids_chunk_decoding() {
    let mut s = store();
    let path = "tracked/multipart.bin".to_string();
    let id = s.create_multipart(path.clone()).unwrap();
    s.put_part(path.clone(), id.clone(), 0, vec![1; CHUNK_SIZE as usize]).unwrap();
    s.put_part(path.clone(), id.clone(), 1, vec![2; 37]).unwrap();
    s.complete_multipart(path.clone(), id, PutMultipartOptions::default(), 0)
        .unwrap();
    let meta = s.head(path.clone()).unwrap();
    assert_eq!(meta.size, CHUNK_SIZE + 37);
    assert_eq!(s.get_part(path, 1).unwrap(), vec![2; 37]);
}

#[test]
fn test_pending_multipart_is_reclaimed() {
    let mut s = store();
    let path = "test/pending.bin".to_string();
    let part = vec![7u8; CHUNK_SIZE as usize];

    let empty_id = s.create_multipart(path.clone()).unwrap();
    assert!(s.put_part(path.clone(), empty_id.clone(), 0, Vec::new()).is_err());
    s.complete_multipart(path.clone(), empty_id, PutMultipartOptions::default(), 0)
        .unwrap();
    assert_eq!(s.get_part(path.clone(), 0).unwrap(), Vec::<u8>::new());
    s.delete(path.clone()).unwrap();
    assert_eq!(s.parts_stored(), 0);

    let id = s.create_multipart(path.clone()).unwrap();
    for idx in 0..4u32 {
        s.put_part(path.clone(), id.clone(), idx, part.clone()).unwrap();
    }
    assert_eq!(s.parts_stored(), 4);
    s.delete(path.clone()).unwrap();
    assert_eq!(s.parts_stored(), 0);

    let id = s.create_multipart(path.clone()).unwrap();
    for idx in 0..3u32 {
        s.put_part(path.clone(), id.clone(), idx, part.clone()).unwrap();
    }
    assert_eq!(s.parts_stored(), 3);
    s.put_opts(path.clone(), b"small".to_vec(), PutOptions::default(), 0)
        .unwrap();
    assert_eq!(s.parts_stored(), 1);

    s.delete(path.clone()).unwrap();
    assert_eq!(s.parts_stored(), 0);

    let id = s.create_multipart(path.clone()).unwrap();
    s.put_part(path.clone(), id.clone(), 0, part.clone()).unwrap();
    assert!(s
        .put_opts(
            path.clone(),
            b"x".to_vec(),
            PutOptions {
                mode: PutMode::Update(UpdateVersion {
                    e_tag: Some(id.clone()),
                    version: None,
                }),
                ..Default::default()
            },
            0,
        )
        .is_err());

    s.abort_multipart(path.clone(), id).unwrap();
    assert_eq!(s.parts_stored(), 0);
}

fn patterned(count: u64) -> Vec<u8> {
    let mut payload = Vec::with_capacity((count * 32) as usize);
    for i in 0..count {
        let b = i.to_be_bytes();
        for j in 0..32usize {
            payload.push(b[j % 8] ^ (j as u8).wrapping_mul(31));
        }
    }
    payload
}

#[test]
fn test_large_objects() {
    let mut s = store();
    let path = "test/a.bin".to_string();
    let count = 10000u64;
    let len = count * 32;
    let payload = patterned(count);
    assert_eq!(payload.len(), len as usize);

    s.put_opts(path.clone(), payload.clone(), create(), 0).unwrap();
    let res = s.get_opts(path.clone(), GetOptions::default()).unwrap();
    assert_eq!(&res.payload, &payload);
    assert_eq!(res.meta.location, path);
    assert_eq!(res.meta.size as usize, payload.len());

    let res = s.get_part(path.clone(), 0).unwrap();
    assert_eq!(res, payload[0..CHUNK_SIZE as usize]);
    let res = s.get_part(path.clone(), 1).unwrap();
    assert_eq!(res, payload[CHUNK_SIZE as usize..]);
    assert!(s.get_part(path.clone(), 2).is_err());

    let ranges = vec![(0u64, 1000), (10, 10000), (100, len)];
    let rt = s.get_ranges(path.clone(), ranges.clone()).unwrap();
    assert_eq!(rt.len(), ranges.len());
    for (i, (start, end)) in ranges.into_iter().enumerate() {
        let res = s
            .get_opts(
                path.clone(),
                GetOptions {
                    range: Some(GetRange::Bounded(start, end)),
                    ..Default::default()
                },
            )
            .unwrap();
        assert_eq!(rt[i], res.payload);
        assert_eq!(&res.payload, &payload[start as usize..end as usize]);
        assert_eq!(res.meta.location, path);
        assert_eq!(res.meta.size as usize, payload.len());
    }

    assert!(s
        .get_opts(
            path.clone(),
            GetOptions {
                range: Some(GetRange::Bounded(100, 100)),
                ..Default::default()
            }
        )
        .is_err());
    assert!(s
        .get_opts(
            path.clone(),
            GetOptions {
                range: Some(GetRange::Bounded(len, len + 1)),
                ..Default::default()
            }
        )
        .is_err());
    let res = s
        .get_opts(
            path.clone(),
            GetOptions {
                range: Some(GetRange::Bounded(1, len + 1)),
                ..Default::default()
            },
        )
        .unwrap();
    assert_eq!(&res.payload, &payload[1..]);
}

#[test]
fn test_multipart() {
    let mut s = store();
    let path = "test/b.bin".to_string();
    let count = 100000u64;
    let len = count * 32;
    let payload = patterned(count);
    assert_eq!(payload.len(), len as usize);

    let id = s.create_multipart(path.clone()).unwrap();

    let chunks: Vec<&[u8]> = payload.chunks(CHUNK_SIZE as usize).collect();
    for (i, chunk) in chunks.iter().enumerate().skip(1) {
        s.put_part(path.clone(), id.clone(), i as u32, chunk.to_vec()).unwrap();
    }

    assert!(s
        .complete_multipart(path.clone(), id.clone(), PutMultipartOptions::default(), 0)
        .is_err());

    s.put_part(path.clone(), id.clone(), 0, chunks[0].to_vec()).unwrap();

    s.complete_multipart(path.clone(), id.clone(), PutMultipartOptions::default(), 0)
        .unwrap();

    let ranges = vec![(0u64, 1000), (100, 100000), (len - CHUNK_SIZE * 2, len)];
    let rt = s.get_ranges(path.clone(), ranges.clone()).unwrap();
    assert_eq!(rt.len(), ranges.len());
    for (i, (start, end)) in ranges.into_iter().enumerate() {
        let res = s
            .get_opts(
                path.clone(),
                GetOptions {
                    range: Some(GetRange::Bounded(start, end)),
                    ..Default::default()
                },
            )
            .unwrap();
        assert_eq!(rt[i], res.payload);
        assert_eq!(&res.payload, &payload[start as usize..end as usize]);
        assert_eq!(res.meta.location, path);
        assert_eq!(res.meta.size as usize, payload.len());
    }
}

#[test]
fn etags_match_only_their_canonical_decimal() {
    assert!(etag_matches("0", 0));
    assert!(etag_matches(&u64::MAX.to_string(), u64::MAX));
    for noncanonical in ["", "00", "01", "+1", " 1", "1 "] {
        assert!(!etag_matches(noncanonical, 1));
    }
}

#[test]
fn missing_objects_are_not_found() {
    let s = store();
    assert_eq!(
        s.head("nope".to_string()).unwrap_err(),
        Error::NotFound {
            path: "nope".to_string()
        }
    );
}

#[test]
fn renaming_to_itself_is_refused() {
    let mut s = store();
    s.put_opts("a".to_string(), b"1".to_vec(), PutOptions::default(), 0).unwrap();
    assert!(s.rename("a".to_string(), "a".to_string()).is_err());
    assert_eq!(s.get_opts("a".to_string(), GetOptions::default()).unwrap().payload, b"1".to_vec());
}

fn meta(location: &str) -> ic_oss::object_types::ObjectMeta {
    ic_oss::object_types::ObjectMeta {
        location: location.to_string(),
        last_modified: 0,
        size: 1,
        e_tag: None,
        version: None,
        aes_nonce: None,
        aes_tags: None,
    }
}

#[test]
fn flat_listings_group_one_level_down() {
    let metas = vec![
        meta("dir/b/2"),
        meta("dir/a"),
        meta("dir/b/1"),
        meta("dirx"),
        meta("dir/a/x"),
        meta("other/z"),
    ];
    let res = collect_with_delimiter(metas, Some("dir".to_string())).unwrap();
    assert_eq!(locations(&res.objects), vec!["dir/a".to_string()]);
    assert_eq!(
        res.common_prefixes,
        vec!["dir/a".to_string(), "dir/b".to_string()]
    );

    let res = collect_with_delimiter(vec![meta("x"), meta("y/z")], None).unwrap();
    assert_eq!(locations(&res.objects), vec!["x".to_string()]);
    assert_eq!(res.common_prefixes, vec!["y".to_string()]);

    assert!(collect_with_delimiter(vec![meta("../x")], None).is_err());
}

#[test]
fn conditional_puts_without_an_etag_fail_their_precondition() {
    let mut s = store();
    let path = "a/b.txt".to_string();
    s.put_opts(path.clone(), b"one".to_vec(), create(), 0).unwrap();
    let res = s.put_opts(
        path.clone(),
        b"two".to_vec(),
        PutOptions {
            mode: PutMode::Update(UpdateVersion { e_tag: None, version: None }),
            ..Default::default()
        },
        0,
    );
    match res {
        Err(Error::Precondition { path: p, .. }) => assert_eq!(p, path),
        other => panic!("{:?}", other.map(|r| r.e_tag)),
    }
    assert_eq!(s.get_opts(path, GetOptions::default()).unwrap().payload, b"one".to_vec());
}

#[test]
fn listing_prefixes_must_be_valid_paths() {
    match collect_with_delimiter(vec![meta("../x")], None) {
        Err(Error::InvalidPath { path }) => assert_eq!(
            path,
            "..: Error parsing Path \"..\": Encountered illegal character sequence \"..\" whilst parsing path segment \"..\""
        ),
        other => panic!("{:?}", other.map(|r| r.common_prefixes)),
    }
    match collect_with_delimiter(vec![meta("a\u{1}/x")], None) {
        Err(Error::InvalidPath { path }) => assert_eq!(
            path,
            "a\u{1}: Error parsing Path \"a\u{1}\": Encountered illegal character sequence \"\u{1}\" whilst parsing path segment \"a\u{1}\""
        ),
        other => panic!("{:?}", other.map(|r| r.common_prefixes)),
    }
}
