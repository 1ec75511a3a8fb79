use ic_oss::bucket::FileMetadata;
use ic_oss::fs::BucketStore;
use ic_oss::access::{authorize_read, Token};
use ic_oss::file::UrlFileParam;
use ic_oss::http::{range_of, ByteRange, IfRangeValue, RangeHeader};
use ic_oss::http::{
    content_disposition, detect_range, file_response, range_body, range_response, streaming_callback,
    StreamingCallbackToken, StreamingStrategy,
};

#[test]
fn api_http_test_content_disposition() {
    assert_eq!(content_disposition(""), "inline");
    assert_eq!(
        content_disposition("统计数据.txt"),
        "attachment; filename*=UTF-8''%E7%BB%9F%E8%AE%A1%E6%95%B0%E6%8D%AE.txt",
    );
    assert_eq!(
        content_disposition("/统计数据.txt"),
        "attachment; filename*=UTF-8''%E7%BB%9F%E8%AE%A1%E6%95%B0%E6%8D%AE.txt",
    );
    assert_eq!(
        content_disposition("./test.txt"),
        "attachment; filename=\"test.txt\"",
    );
}

fn headers(v: &[(&str, &str)]) -> Vec<(String, String)> {
    v.iter().map(|(a, b)| (a.to_string(), b.to_string())).collect()
}

#[test]
fn ranges_are_read_from_the_range_header() {
    assert_eq!(detect_range(&headers(&[("content-type", "x")]), 100, ""), None);
    assert_eq!(
        detect_range(&headers(&[("Range", "bytes=10-19")]), 100, ""),
        Some(Ok((10, 19)))
    );
    assert_eq!(
        detect_range(&headers(&[("RANGE", "bytes=90-")]), 100, ""),
        Some(Ok((90, 99)))
    );
    assert_eq!(
        detect_range(&headers(&[("range", "bytes=-30")]), 100, ""),
        Some(Ok((70, 99)))
    );
    assert_eq!(
        detect_range(&headers(&[("range", "bytes=10-500")]), 100, ""),
        Some(Ok((10, 99)))
    );
    assert_eq!(
        detect_range(&headers(&[("range", "bytes=100-")]), 100, ""),
        Some(Err("invalid range, out of range".to_string()))
    );
    assert_eq!(
        detect_range(&headers(&[("range", "bytes=0-1,5-6")]), 100, ""),
        Some(Err("invalid range, multiple byte ranges not support".to_string()))
    );
    assert_eq!(
        detect_range(&headers(&[("range", "items=0-1")]), 100, ""),
        Some(Err("invalid range, custom range not support".to_string()))
    );
    assert!(matches!(
        detect_range(&headers(&[("range", "nonsense")]), 100, ""),
        Some(Err(_))
    ));
}

#[test]
fn large_ranges_are_cut_to_one_call() {
    let size = 10 * 1024 * 1024u64;
    assert_eq!(
        detect_range(&headers(&[("range", "bytes=0-")]), size, ""),
        Some(Ok((0, 2 * 1024 * 1024 - 1)))
    );
}

#[test]
fn if_range_must_match_the_etag() {
    let h = headers(&[("range", "bytes=0-9"), ("if-range", "\"abc\"")]);
    assert_eq!(detect_range(&h, 100, "abc"), Some(Ok((0, 9))));
    assert_eq!(
        detect_range(&h, 100, "xyz"),
        Some(Err("invalid if-range value, etag not match".to_string()))
    );
    let h = headers(&[("range", "bytes=0-9"), ("If-Range", "Wed, 21 Oct 2015 07:28:00 GMT")]);
    assert_eq!(
        detect_range(&h, 100, "abc"),
        Some(Err("invalid if-range value, date value not support".to_string()))
    );
}

fn store_with_file(chunks: &[Vec<u8>]) -> (BucketStore, u32) {
    let mut store = BucketStore::new();
    let size: usize = chunks.iter().map(|c| c.len()).sum();
    let id = store
        .add_file(FileMetadata {
            name: "f.bin".to_string(),
            size: size as u64,
            ..Default::default()
        })
        .unwrap();
    for (i, c) in chunks.iter().enumerate() {
        store.update_chunk(id, i as u32, 1, c.clone(), |_| Ok(())).unwrap();
    }
    (store, id)
}

#[test]
fn range_bodies_span_chunks() {
    let chunk = 256 * 1024usize;
    let a: Vec<u8> = (0..chunk).map(|i| (i % 251) as u8).collect();
    let b: Vec<u8> = (0..100).map(|i| (i * 3) as u8).collect();
    let (store, id) = store_with_file(&[a.clone(), b.clone()]);
    let start = (chunk - 5) as u64;
    let end = (chunk + 9) as u64;
    let body = range_body(&store, id, start, end).unwrap();
    let mut want = a[chunk - 5..].to_vec();
    want.extend_from_slice(&b[..10]);
    assert_eq!(body, want);
    assert_eq!(
        range_body(&store, id, 0, (chunk + 100) as u64).unwrap_err(),
        "invalid range at chunk 1"
    );
}

#[test]
fn range_responses_carry_content_headers() {
    let (store, id) = store_with_file(&[b"hello world".to_vec()]);
    let meta = store.get_file(id).unwrap();
    let res = range_response(headers(&[("content-type", "text/plain")]), &store, id, &meta, 0, 4).unwrap();
    assert_eq!(res.status_code, 206);
    assert_eq!(res.body, b"hello".to_vec());
    assert_eq!(
        res.headers,
        headers(&[
            ("content-type", "application/octet-stream"),
            ("content-disposition", "attachment; filename=\"f.bin\""),
            ("content-length", "5"),
            ("content-range", "bytes 0-4/11"),
        ])
    );
}

#[test]
fn streaming_tokens_walk_the_chunks() {
    let t = StreamingCallbackToken {
        id: 3,
        chunk_index: 0,
        chunks: 2,
        token: None,
    };
    let n = t.next().unwrap();
    assert_eq!((n.id, n.chunk_index, n.chunks), (3, 1, 2));
    assert!(n.next().is_none());
}

const CANISTER: [u8; 2] = [1, 2];

fn base_headers() -> Vec<(String, String)> {
    headers(&[("content-type", "text/plain"), ("x-content-type-options", "nosniff")])
}

fn download(store: &BucketStore, url: &str, method: &str, req: &[(&str, &str)], token: Option<&str>) -> ic_oss::http::HttpStreamingResponse {
    let grant = authorize_read(
        store.bucket(),
        &[5u8],
        &CANISTER,
        "bkt".to_string(),
        token.map(|p| Ok(Token { subject: vec![5u8], audience: CANISTER.to_vec(), policies: p.to_string() })),
    );
    file_response(base_headers(), UrlFileParam::from_url(url), method, &headers(req), store, grant)
}

fn public(mut store: BucketStore) -> BucketStore {
    let mut b = store.bucket().clone();
    b.visibility = 1;
    store.set_bucket(b);
    store
}

#[test]
fn downloads_answer_bad_urls_and_missing_files() {
    let (store, _) = store_with_file(&[b"hello world".to_vec()]);
    let store = public(store);
    let res = download(&store, "/x/1", "GET", &[], None);
    assert_eq!(res.status_code, 400);
    assert_eq!(res.body, b"invalid url path: /x/1".to_vec());
    assert_eq!(res.headers, base_headers());
    let res = download(&store, "/f/9", "GET", &[], None);
    assert_eq!(res.status_code, 404);
    assert_eq!(res.body, b"file not found".to_vec());
}

#[test]
fn private_downloads_need_a_grant() {
    let (store, id) = store_with_file(&[b"hello world".to_vec()]);
    let url = format!("/f/{}", id);
    let res = download(&store, &url, "GET", &[], None);
    assert_eq!(res.status_code, 401);
    assert_eq!(res.body, b"Unauthorized".to_vec());
    let res = download(&store, &url, "GET", &[], Some("File.Read:99"));
    assert_eq!(res.status_code, 403);
    assert_eq!(res.body, b"permission denied".to_vec());
    let res = download(&store, &url, "GET", &[], Some(&format!("File.Read:{}", id)));
    assert_eq!(res.status_code, 200);
    assert_eq!(res.body, b"hello world".to_vec());
}

#[test]
fn small_files_come_whole() {
    let (store, id) = store_with_file(&[b"hello world".to_vec()]);
    let store = public(store);
    let res = download(&store, &format!("/f/{}?filename=a.txt", id), "GET", &[], None);
    assert_eq!(res.status_code, 200);
    assert_eq!(res.body, b"hello world".to_vec());
    assert!(res.streaming_strategy.is_none());
    assert_eq!(
        res.headers,
        headers(&[
            ("content-type", "application/octet-stream"),
            ("x-content-type-options", "nosniff"),
            ("accept-ranges", "bytes"),
            ("content-disposition", "attachment; filename=\"a.txt\""),
            ("content-length", "11"),
            ("cache-control", "max-age=2592000, public"),
        ])
    );
    let res = download(&store, &format!("/f/{}?inline", id), "HEAD", &[], None);
    assert_eq!(res.status_code, 200);
    assert!(res.body.is_empty());
    assert_eq!(
        res.headers,
        headers(&[
            ("content-type", "application/octet-stream"),
            ("x-content-type-options", "nosniff"),
            ("accept-ranges", "bytes"),
            ("content-length", "11"),
            ("cache-control", "max-age=2592000, public"),
            ("content-disposition", "inline"),
        ])
    );
}

#[test]
fn hashed_files_carry_an_entity_tag_and_serve_ranges() {
    let mut store = BucketStore::new();
    let mut b = store.bucket().clone();
    b.visibility = 1;
    b.enable_hash_index = true;
    store.set_bucket(b);
    let id = store
        .add_file(FileMetadata {
            name: "f.txt".to_string(),
            content_type: "text/plain".to_string(),
            size: 11,
            hash: Some([1u8; 32]),
            ..Default::default()
        })
        .unwrap();
    store.update_chunk(id, 0, 1, b"hello world".to_vec(), |_| Ok(())).unwrap();
    let etag = format!("{}AQE=", "AQEB".repeat(10));
    let res = download(&store, &format!("/h/{}", "01".repeat(32)), "GET", &[("Range", "bytes=6-")], None);
    assert_eq!(res.status_code, 206);
    assert_eq!(res.body, b"world".to_vec());
    assert_eq!(
        res.headers,
        headers(&[
            ("content-type", "text/plain"),
            ("x-content-type-options", "nosniff"),
            ("accept-ranges", "bytes"),
            ("etag", &format!("\"{}\"", etag)),
            ("content-disposition", "attachment; filename=\"f.txt\""),
            ("content-length", "5"),
            ("content-range", "bytes 6-10/11"),
        ])
    );
    let res = download(&store, &format!("/f/{}", id), "GET", &[("range", "bytes=0-1"), ("if-range", "\"nope\"")], None);
    assert_eq!(res.status_code, 416);
    assert_eq!(res.body, b"invalid if-range value, etag not match".to_vec());
}

#[test]
fn unfinished_and_archived_files_are_refused() {
    let mut store = BucketStore::new();
    let id = store
        .add_file(FileMetadata { name: "f".to_string(), size: 10, ..Default::default() })
        .unwrap();
    store.update_chunk(id, 0, 1, b"abc".to_vec(), |_| Ok(())).unwrap();
    let store = public(store);
    let res = download(&store, &format!("/f/{}", id), "GET", &[], None);
    assert_eq!(res.status_code, 422);
    assert_eq!(res.body, b"file not fully uploaded".to_vec());

    let mut store = BucketStore::new();
    let id = store
        .add_file(FileMetadata { name: "f".to_string(), size: 3, status: -1, ..Default::default() })
        .unwrap();
    let res = download(&store, &format!("/f/{}", id), "GET", &[], Some("File.Read"));
    assert_eq!(res.status_code, 403);
    assert_eq!(res.body, b"file archived".to_vec());
}

#[test]
fn large_files_stream_chunk_by_chunk() {
    let chunk = 256 * 1024usize;
    let chunks: Vec<Vec<u8>> = (0..9u8).map(|i| vec![i; chunk]).collect();
    let (store, id) = store_with_file(&chunks);
    let store = public(store);
    let res = download(&store, &format!("/f/{}", id), "GET", &[], None);
    assert_eq!(res.status_code, 200);
    assert_eq!(res.body, chunks[0]);
    assert!(!res.headers.iter().any(|(k, _)| k == "content-length"));
    let token = match res.streaming_strategy {
        Some(StreamingStrategy::Callback { token }) => token,
        None => panic!("no streaming strategy"),
    };
    assert_eq!((token.id, token.chunk_index, token.chunks), (id, 1, 9));
    let next = streaming_callback(&store, token).unwrap();
    assert_eq!(next.body, chunks[1]);
    assert_eq!(next.token.as_ref().map(|t| t.chunk_index), Some(2));
    let last = streaming_callback(&store, StreamingCallbackToken { id, chunk_index: 8, chunks: 9, token: None }).unwrap();
    assert_eq!(last.body, chunks[8]);
    assert!(last.token.is_none());
    assert_eq!(
        streaming_callback(&store, StreamingCallbackToken { id, chunk_index: 9, chunks: 9, token: None }).unwrap_err(),
        "chunk not found"
    );
}

#[test]
fn a_files_hash_reads_it_when_it_allows_so() {
    let mut store = BucketStore::new();
    let id = store
        .add_file(FileMetadata {
            name: "h.txt".to_string(),
            size: 2,
            hash: Some([1u8; 32]),
            by_hash: true,
            ..Default::default()
        })
        .unwrap();
    store.update_chunk(id, 0, 1, b"hi".to_vec(), |_| Ok(())).unwrap();
    // the token query value is the URL-safe base64 of 32 bytes of 1
    let token = format!("{}AQE", "AQEB".repeat(10));
    let res = download(&store, &format!("/f/{}?token={}", id, token), "GET", &[], None);
    assert_eq!(res.status_code, 200);
    assert_eq!(res.body, b"hi".to_vec());
    let res = download(&store, &format!("/f/{}", id), "GET", &[], None);
    assert_eq!(res.status_code, 401);
}

#[test]
fn parsed_ranges_give_the_bytes_to_send() {
    assert_eq!(range_of(RangeHeader::Bytes(vec![ByteRange::FromTo(10, 19)]), None, 100, ""), Ok((10, 19)));
    assert_eq!(range_of(RangeHeader::Bytes(vec![ByteRange::Last(30)]), None, 100, ""), Ok((70, 99)));
    assert_eq!(
        range_of(RangeHeader::Bytes(vec![ByteRange::AllFrom(100)]), None, 100, ""),
        Err("invalid range, out of range".to_string())
    );
    assert_eq!(
        range_of(RangeHeader::Unregistered("items".to_string(), "0-1".to_string()), None, 100, ""),
        Err("invalid range, custom range not support".to_string())
    );
    let tag = Some(Ok(IfRangeValue::EntityTag("abc".to_string())));
    assert_eq!(range_of(RangeHeader::Bytes(vec![ByteRange::FromTo(0, 9)]), tag.clone(), 100, "abc"), Ok((0, 9)));
    assert_eq!(
        range_of(RangeHeader::Bytes(vec![ByteRange::FromTo(0, 9)]), tag, 100, "xyz"),
        Err("invalid if-range value, etag not match".to_string())
    );
    assert_eq!(
        range_of(RangeHeader::Bytes(vec![ByteRange::FromTo(0, 9)]), Some(Ok(IfRangeValue::Date)), 100, ""),
        Err("invalid if-range value, date value not support".to_string())
    );
    assert_eq!(
        range_of(RangeHeader::Bytes(vec![ByteRange::AllFrom(0)]), None, 10 * 1024 * 1024, ""),
        Ok((0, 2 * 1024 * 1024 - 1))
    );
}
