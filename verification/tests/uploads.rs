use ic_oss::client::{
    asked_range, decryption_keys, decryption_plan, decryption_window, encrypted_read, read_plan, ChunkStep,
    ChunkUploads, ChunksCodec, DecryptionStream, ReadPlan,
};
use ic_oss::codec::derive_gcm_nonce;
use ic_oss::object_types::{GetRange, ObjectMeta};

#[test]
fn content_is_cut_into_whole_chunks_then_the_rest() {
    let codec = ChunksCodec::new(4);
    let mut buf = b"abcdefghij".to_vec();
    assert_eq!(codec.decode(&mut buf), Some(b"abcd".to_vec()));
    assert_eq!(codec.decode(&mut buf), Some(b"efgh".to_vec()));
    assert_eq!(codec.decode(&mut buf), None);
    assert_eq!(buf, b"ij".to_vec());
    assert_eq!(codec.decode_eof(&mut buf), Some(b"ij".to_vec()));
    assert!(buf.is_empty());
    assert_eq!(codec.decode_eof(&mut buf), None);
}

#[test]
fn uploads_skip_the_chunks_uploaded_before() {
    let mut up = ChunkUploads::new(7, Some(30), &vec![1, 5]);
    match up.read_chunk(10) {
        ChunkStep::Send(i) => assert_eq!(i, 0),
        ChunkStep::Skip(_) => panic!("chunk 0 was not uploaded before"),
    }
    match up.read_chunk(10) {
        ChunkStep::Skip(p) => {
            assert_eq!((p.filled, p.size, p.chunk_index, p.concurrency), (10, Some(30), 1, 0));
        },
        ChunkStep::Send(_) => panic!("chunk 1 was uploaded before"),
    }
    let p = up.chunk_uploaded(0, 10, 20, 2);
    assert_eq!((p.filled, p.chunk_index, p.concurrency), (20, 0, 2));
    match up.read_chunk(10) {
        ChunkStep::Send(i) => assert_eq!(i, 2),
        ChunkStep::Skip(_) => panic!("chunk 2 was not uploaded before"),
    }
    up.chunk_uploaded(2, 10, 30, 1);

    let commit = up.commit_input(None, [3u8; 32], true);
    assert_eq!((commit.id, commit.hash, commit.status, commit.size), (7, Some([3u8; 32]), Some(1), Some(30)));
    let commit = up.commit_input(Some([4u8; 32]), [3u8; 32], false);
    assert_eq!((commit.hash, commit.status), (Some([4u8; 32]), None));

    let out = up.finish(Some("network".to_string()));
    assert_eq!(out.id, 7);
    assert_eq!(out.filled, 30);
    assert_eq!(out.uploaded_chunks, vec![0, 1, 2, 5]);
    assert_eq!(out.error.as_deref(), Some("network"));
}

const C: u64 = 262144;

#[test]
fn asked_ranges_follow_object_store() {
    assert_eq!(asked_range(&None, 10), Ok((0, 10)));
    assert_eq!(asked_range(&Some(GetRange::Bounded(2, 5)), 10), Ok((2, 5)));
    assert_eq!(asked_range(&Some(GetRange::Bounded(2, 50)), 10), Ok((2, 10)));
    assert_eq!(asked_range(&Some(GetRange::Offset(4)), 10), Ok((4, 10)));
    assert_eq!(asked_range(&Some(GetRange::Suffix(3)), 10), Ok((7, 10)));
    assert_eq!(asked_range(&Some(GetRange::Suffix(30)), 10), Ok((0, 10)));
    assert_eq!(
        asked_range(&Some(GetRange::Offset(10)), 10).unwrap_err(),
        "Wanted range starting at 10, but object was only 10 bytes long"
    );
    assert_eq!(asked_range(&Some(GetRange::Bounded(5, 5)), 10).unwrap_err(), "Range started at 5 and ended at 5");
}

#[test]
fn reads_stream_what_the_first_answer_did_not_cover() {
    assert_eq!(read_plan(&None, false, (0, 10), 10), Ok(ReadPlan::Whole { range: (0, 10) }));
    assert_eq!(read_plan(&None, true, (0, 4), 10), Ok(ReadPlan::Whole { range: (0, 4) }));
    assert_eq!(
        read_plan(&Some(GetRange::Offset(2)), false, (2, 6), 10),
        Ok(ReadPlan::Rest { asked: (2, 10), first: (2, 6) })
    );
}

#[test]
fn encrypted_reads_fetch_whole_chunks() {
    assert_eq!(decryption_window((0, 0), 0), (0, 0));
    assert_eq!(decryption_window((10, 20), 3 * C), (0, C));
    assert_eq!(decryption_window((C + 1, 2 * C + 1), 3 * C), (C, 3 * C));
    assert_eq!(decryption_window((C + 1, 2 * C + 1), 2 * C + 5), (C, 2 * C + 5));
    let p = decryption_plan(&Some(GetRange::Bounded(C + 3, C + 10)), 3 * C).unwrap();
    assert_eq!((p.window, p.ranged, p.start_idx, p.start_offset, p.size), ((C, 2 * C), true, 1, 3, 7));
    let p = decryption_plan(&None, 0).unwrap();
    assert_eq!((p.window, p.ranged, p.size), ((0, 0), false, 0));
}

fn head_meta(e_tag: Option<&str>, tags: Option<Vec<[u8; 16]>>, nonce: Option<[u8; 12]>) -> ObjectMeta {
    ObjectMeta {
        location: "a/b.bin".to_string(),
        last_modified: 1,
        size: 600_000,
        e_tag: e_tag.map(|t| t.to_string()),
        version: None,
        aes_nonce: nonce,
        aes_tags: tags,
    }
}

#[test]
fn encrypted_reads_are_pinned_to_the_etag_and_need_their_keys() {
    let missing = head_meta(None, None, None);
    assert_eq!(encrypted_read(&missing, &None).unwrap_err(), "missing object ETag");

    let meta = head_meta(Some("7"), Some(vec![[1u8; 16]; 3]), Some([2u8; 12]));
    let (etag, plan) = encrypted_read(&meta, &Some(GetRange::Bounded(300_000, 300_010))).unwrap();
    assert_eq!(etag, "7");
    assert_eq!(plan.window, (262_144, 524_288));
    assert_eq!((plan.start_idx, plan.start_offset, plan.size), (1, 300_000 - 262_144, 10));
    assert!(encrypted_read(&meta, &Some(GetRange::Offset(700_000))).is_err());

    let (tags, nonce) = decryption_keys(meta, "a/b.bin").unwrap();
    assert_eq!((tags.len(), nonce), (3, [2u8; 12]));
    assert_eq!(
        decryption_keys(head_meta(Some("7"), None, Some([2u8; 12])), "a/b.bin").unwrap_err(),
        "missing AES256 tags for path a/b.bin"
    );
    assert_eq!(
        decryption_keys(head_meta(Some("7"), Some(vec![]), None), "a/b.bin").unwrap_err(),
        "missing AES256 nonce for path a/b.bin"
    );
}

#[test]
fn an_encrypted_read_is_reassembled_chunk_by_chunk() {
    let meta = head_meta(Some("7"), Some(vec![[1u8; 16], [2u8; 16], [3u8; 16]]), Some([9u8; 12]));
    let (_, plan) = encrypted_read(&meta, &Some(GetRange::Bounded(300_000, 530_000))).unwrap();
    assert_eq!(plan.window, (262_144, 600_000));
    let (tags, nonce) = decryption_keys(meta, "a/b.bin").unwrap();
    let mut s = DecryptionStream::new(&plan, tags, nonce);

    let body: Vec<u8> = (0..(600_000 - 262_144)).map(|i| (i % 251) as u8).collect();
    assert!(s.push(&body[..100_000]));
    assert!(s.next_sealed("a/b.bin").unwrap().is_none());
    assert!(s.push(&body[100_000..]));

    let c = s.next_sealed("a/b.bin").unwrap().unwrap();
    assert_eq!((c.idx, c.tag, c.bytes.len()), (1, [2u8; 16], 262_144));
    assert_eq!(c.nonce, derive_gcm_nonce(&[9u8; 12], 1));
    let first = s.open(c.bytes.clone());
    assert_eq!(first, c.bytes[300_000 - 262_144..].to_vec());
    assert_eq!(s.remaining, 230_000 - first.len() as u64);

    assert!(s.next_sealed("a/b.bin").unwrap().is_none());
    let c = s.last_sealed("a/b.bin").unwrap().unwrap();
    assert_eq!((c.idx, c.tag, c.bytes.len()), (2, [3u8; 16], 600_000 - 524_288));
    let last = s.open(c.bytes.clone());
    assert_eq!(last, c.bytes[..(530_000 - 524_288)].to_vec());
    assert_eq!(s.remaining, 0);
    assert!(!s.push(b"more"));

    let mut bare = DecryptionStream::new(&plan, vec![], [0u8; 12]);
    assert!(bare.push(&body));
    assert_eq!(bare.next_sealed("a/b.bin").unwrap_err(), "missing AES256 tag for chunk 1 for path a/b.bin");
}
