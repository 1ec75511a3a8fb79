//! Serving files over HTTP: the byte range that `Range` and `If-Range`
//! headers ask for, the bytes and headers that answer it, the content
//! disposition of a download, and the tokens that page through a streamed file.
use vstd::prelude::*;
use std::str::FromStr;
use hyperx::header::Header;
use base64::Engine;
use vstd::utf8::encode_utf8;
use crate::access::{file_read_admitted, AccessModel, Context};
use crate::bucket::{chunk_key, readable_by_hash, FileMetadata, FileModel, Role};
use crate::file::{UrlFileParam, UrlFileParamModel, CHUNK_SIZE, MAX_FILE_SIZE_PER_CALL};
use crate::fs::{file_bytes, full_chunks_error, BucketStore, StoreModel};
use crate::text::{chars_of, decimal, decimal_string, owned, push_decimal, push_str};

verus! {

// ---------------------------------------------------------------- streaming

/// Where a streamed download of file `id` stands: the chunk just sent, out of `chunks`.
#[derive(Clone, Debug)]
pub struct StreamingCallbackToken {
    pub id: u32,
    pub chunk_index: u32,
    pub chunks: u32,
    pub token: Option<Vec<u8>>,
}

impl StreamingCallbackToken {
    /// The token of the next chunk, or `None` after the last one.
    pub fn next(self) -> (r: Option<StreamingCallbackToken>)
        requires
            self.chunk_index < u32::MAX,
        ensures
            self.chunk_index + 1 >= self.chunks ==> r is None,
            self.chunk_index + 1 < self.chunks ==> (r matches Some(t) && t.id == self.id && t.chunk_index
                == self.chunk_index + 1 && t.chunks == self.chunks && t.token == self.token),
    {
        if self.chunk_index + 1 >= self.chunks {
            None
        } else {
            Some(
                StreamingCallbackToken {
                    id: self.id,
                    chunk_index: self.chunk_index + 1,
                    chunks: self.chunks,
                    token: self.token,
                },
            )
        }
    }
}

/// How the rest of a download is fetched: by calling back with a token.
#[derive(Clone, Debug)]
pub enum StreamingStrategy {
    Callback { token: StreamingCallbackToken },
}

/// An answer to an HTTP request.
#[derive(Clone, Debug, Default)]
pub struct HttpStreamingResponse {
    pub status_code: u16,
    pub headers: Vec<(String, String)>,
    pub body: Vec<u8>,
    pub upgrade: Option<bool>,
    pub streaming_strategy: Option<StreamingStrategy>,
}

/// An answer to a streaming callback: the chunk and the token of the next one.
#[derive(Clone, Debug)]
pub struct StreamingCallbackHttpResponse {
    pub body: Vec<u8>,
    pub token: Option<StreamingCallbackToken>,
}

// ---------------------------------------------------------------- header values

/// A byte range of a `Range` header.
#[derive(Clone, Copy, Debug, PartialEq, Eq)]
pub enum ByteRange {
    /// Bytes `from..=to`.
    FromTo(u64, u64),
    /// Bytes from `from` to the end.
    AllFrom(u64),
    /// The last bytes.
    Last(u64),
}

/// A parsed `Range` header.
#[derive(Clone, Debug)]
pub enum RangeHeader {
    Bytes(Vec<ByteRange>),
    /// A range in a unit other than bytes: the unit and the range.
    Unregistered(String, String),
}

/// The mathematical value of a [`RangeHeader`].
pub enum RangeHeaderModel {
    Bytes(Seq<ByteRange>),
    Unregistered(Seq<char>, Seq<char>),
}

/// A parsed `If-Range` header: an entity tag or a date.
#[derive(Clone, Debug)]
pub enum IfRangeValue {
    EntityTag(String),
    Date,
}

/// The mathematical value of an [`IfRangeValue`].
pub enum IfRangeModel {
    EntityTag(Seq<char>),
    Date,
}

/// What hyperx reads a `Range` header value as, or its error message.
pub uninterp spec fn range_header_of(value: Seq<char>) -> Result<RangeHeaderModel, Seq<char>>;

/// What hyperx reads an `If-Range` header value as (the tag of an entity tag),
/// or its error message.
pub uninterp spec fn if_range_of(value: Seq<char>) -> Result<IfRangeModel, Seq<char>>;

pub open spec fn range_header_view(r: Result<RangeHeader, String>) -> Result<RangeHeaderModel, Seq<char>> {
    match r {
        Ok(RangeHeader::Bytes(v)) => Ok(RangeHeaderModel::Bytes(v@)),
        Ok(RangeHeader::Unregistered(u, s)) => Ok(RangeHeaderModel::Unregistered(u@, s@)),
        Err(e) => Err(e@),
    }
}

pub open spec fn if_range_view(r: Result<IfRangeValue, String>) -> Result<IfRangeModel, Seq<char>> {
    match r {
        Ok(IfRangeValue::EntityTag(t)) => Ok(IfRangeModel::EntityTag(t@)),
        Ok(IfRangeValue::Date) => Ok(IfRangeModel::Date),
        Err(e) => Err(e@),
    }
}

/// Reads a `Range` header value (`hyperx::header::Range::from_str`); the
/// result is named, as hyperx's grammar and messages are hyperx's own.
#[verifier::external_body]
fn parse_range_header(value: &str) -> (r: Result<RangeHeader, String>)
    ensures
        range_header_view(r) == range_header_of(value@),
{
    match hyperx::header::Range::from_str(value) {
        Err(e) => Err(e.to_string()),
        Ok(hyperx::header::Range::Unregistered(u, s)) => Ok(RangeHeader::Unregistered(u, s)),
        Ok(hyperx::header::Range::Bytes(v)) => Ok(RangeHeader::Bytes(v.into_iter().map(|b| match b {
            hyperx::header::ByteRangeSpec::FromTo(a, c) => ByteRange::FromTo(a, c),
            hyperx::header::ByteRangeSpec::AllFrom(a) => ByteRange::AllFrom(a),
            hyperx::header::ByteRangeSpec::Last(a) => ByteRange::Last(a),
        }).collect())),
    }
}

/// Reads an `If-Range` header value (`hyperx::header::IfRange::parse_header`);
/// an entity tag is kept as its tag, a date as no more than that it is one.
#[verifier::external_body]
fn parse_if_range(value: &str) -> (r: Result<IfRangeValue, String>)
    ensures
        if_range_view(r) == if_range_of(value@),
{
    match hyperx::header::IfRange::parse_header(&hyperx::header::Raw::from(value)) {
        Err(e) => Err(e.to_string()),
        Ok(hyperx::header::IfRange::EntityTag(t)) => Ok(IfRangeValue::EntityTag(t.tag().to_string())),
        Ok(hyperx::header::IfRange::Date(_)) => Ok(IfRangeValue::Date),
    }
}

/// The end-inclusive bytes of a `len`-byte entity that a byte range selects,
/// if it selects any (RFC 7233).
pub open spec fn satisfiable(b: ByteRange, len: u64) -> Option<(u64, u64)> {
    if len == 0 {
        None
    } else {
        match b {
            ByteRange::FromTo(from, to) => if from < len && from <= to {
                Some((from, if to < len - 1 { to } else { (len - 1) as u64 }))
            } else {
                None
            },
            ByteRange::AllFrom(from) => if from < len {
                Some((from, (len - 1) as u64))
            } else {
                None
            },
            ByteRange::Last(last) => if last > 0 {
                if last > len {
                    Some((0, (len - 1) as u64))
                } else {
                    Some(((len - last) as u64, (len - 1) as u64))
                }
            } else {
                None
            },
        }
    }
}

/// The bytes a byte range selects (`hyperx::header::ByteRangeSpec::to_satisfiable_range`),
/// as its source states them.
#[verifier::external_body]
fn satisfiable_range(b: ByteRange, full_length: u64) -> (r: Option<(u64, u64)>)
    ensures
        r == satisfiable(b, full_length),
{
    let spec = match b {
        ByteRange::FromTo(a, c) => hyperx::header::ByteRangeSpec::FromTo(a, c),
        ByteRange::AllFrom(a) => hyperx::header::ByteRangeSpec::AllFrom(a),
        ByteRange::Last(a) => hyperx::header::ByteRangeSpec::Last(a),
    };
    spec.to_satisfiable_range(full_length)
}

// ---------------------------------------------------------------- ranges

/// The code of a character in lower case, for ASCII letters.
pub open spec fn lower_code(c: char) -> u32 {
    if 'A' <= c <= 'Z' {
        ((c as u32) + 32) as u32
    } else {
        c as u32
    }
}

/// Whether the header name `name` is `target`, a lower-case ASCII name, in
/// any case. (Lower-casing a non-ASCII character never gives a letter of
/// `range` or `if-range`.)
pub open spec fn header_named(name: Seq<char>, target: Seq<char>) -> bool {
    name.len() == target.len() && forall|i: int| 0 <= i < name.len() ==> lower_code(#[trigger] name[i]) == target[i] as u32
}

fn lower_code_of(c: char) -> (r: u32)
    ensures
        r == lower_code(c),
{
    if 'A' <= c && c <= 'Z' {
        (c as u32) + 32
    } else {
        c as u32
    }
}

/// Whether the header name `name` is the lower-case name `target`, in any case.
pub fn is_header(name: &str, target: &str) -> (r: bool)
    ensures
        r == header_named(name@, target@),
{
    let a = chars_of(name);
    let b = chars_of(target);
    if a.len() != b.len() {
        return false;
    }
    let mut i: usize = 0;
    while i < a.len()
        invariant
            a@ == name@,
            b@ == target@,
            a@.len() == b@.len(),
            i <= a@.len(),
            forall|j: int| 0 <= j < i ==> lower_code(#[trigger] a@[j]) == b@[j] as u32,
        decreases a@.len() - i,
    {
        if lower_code_of(a[i]) != (b[i] as u32) {
            return false;
        }
        i += 1;
    }
    true
}

/// The value of the first header of `h` named `name`, in any case.
pub open spec fn first_header(h: Seq<(Seq<char>, Seq<char>)>, name: Seq<char>) -> Option<Seq<char>>
    decreases h.len(),
{
    if h.len() == 0 {
        None
    } else if header_named(h[0].0, name) {
        Some(h[0].1)
    } else {
        first_header(h.drop_first(), name)
    }
}

pub open spec fn header_views(h: Seq<(String, String)>) -> Seq<(Seq<char>, Seq<char>)> {
    h.map_values(|p: (String, String)| (p.0@, p.1@))
}

/// The value of the first header named `name` (lower case), in any case.
fn find_header<'a>(headers: &'a [(String, String)], name: &str) -> (r: Option<&'a String>)
    ensures
        match r {
            Some(v) => first_header(header_views(headers@), name@) == Some(v@),
            None => first_header(header_views(headers@), name@) is None,
        },
{
    let ghost hv = header_views(headers@);
    assert(hv.subrange(0, hv.len() as int) =~= hv);
    let mut i: usize = 0;
    while i < headers.len()
        invariant
            hv == header_views(headers@),
            i <= headers@.len(),
            first_header(hv, name@) == first_header(hv.subrange(i as int, hv.len() as int), name@),
        decreases headers@.len() - i,
    {
        let ghost rest = hv.subrange(i as int, hv.len() as int);
        assert(rest[0] == (headers@[i as int].0@, headers@[i as int].1@));
        assert(rest.drop_first() =~= hv.subrange(i + 1, hv.len() as int));
        if is_header(headers[i].0.as_str(), name) {
            return Some(&headers[i].1);
        }
        i += 1;
    }
    assert(hv.subrange(i as int, hv.len() as int) =~= Seq::<(Seq<char>, Seq<char>)>::empty());
    None
}

/// The range limited to what one call can carry.
pub open spec fn capped(r: (u64, u64)) -> (u64, u64) {
    if r.1 + 1 - r.0 > MAX_FILE_SIZE_PER_CALL {
        (r.0, (r.0 + MAX_FILE_SIZE_PER_CALL - 1) as u64)
    } else {
        r
    }
}

/// The answer to a parsed `Range` header `h` for a `len`-byte file whose
/// entity tag is `etag`, with the parsed `If-Range` header `ir` if there is
/// one: the end-inclusive range to send, or why the range cannot be served.
pub open spec fn range_answer_of(
    h: RangeHeaderModel,
    ir: Option<Result<IfRangeModel, Seq<char>>>,
    len: u64,
    etag: Seq<char>,
) -> Result<(u64, u64), Seq<char>> {
    match h {
        RangeHeaderModel::Unregistered(_, _) => Err("invalid range, custom range not support"@),
        RangeHeaderModel::Bytes(brs) => if brs.len() != 1 {
            Err("invalid range, multiple byte ranges not support"@)
        } else {
            match satisfiable(brs[0], len) {
                None => Err("invalid range, out of range"@),
                Some(r) => match ir {
                    None => Ok(capped(r)),
                    Some(Err(e)) => Err(e),
                    Some(Ok(IfRangeModel::Date)) => Err("invalid if-range value, date value not support"@),
                    Some(Ok(IfRangeModel::EntityTag(t))) => if t == etag {
                        Ok(capped(r))
                    } else {
                        Err("invalid if-range value, etag not match"@)
                    },
                },
            }
        },
    }
}

/// The answer to the range headers `h` for a `len`-byte file whose entity
/// tag is `etag`: none when no range is asked, the end-inclusive range to
/// send, or why the range cannot be served.
pub open spec fn range_answer(h: Seq<(Seq<char>, Seq<char>)>, len: u64, etag: Seq<char>) -> Option<Result<(u64, u64), Seq<char>>> {
    match first_header(h, "range"@) {
        None => None,
        Some(v) => match range_header_of(v) {
            Err(e) => Some(Err(e)),
            Ok(rh) => Some(
                range_answer_of(
                    rh,
                    match first_header(h, "if-range"@) {
                        None => None,
                        Some(iv) => Some(if_range_of(iv)),
                    },
                    len,
                    etag,
                ),
            ),
        },
    }
}

pub open spec fn answer_view(r: Option<Result<(u64, u64), String>>) -> Option<Result<(u64, u64), Seq<char>>> {
    match r {
        None => None,
        Some(Ok(x)) => Some(Ok(x)),
        Some(Err(e)) => Some(Err(e@)),
    }
}

/// The byte range that the `Range` and `If-Range` headers ask of a file of
/// `full_length` bytes with entity tag `etag`: one satisfiable byte range, cut
/// to what one call carries, and only if an `If-Range` tag matches.
pub fn detect_range(headers: &[(String, String)], full_length: u64, etag: &str) -> (r: Option<Result<(u64, u64), String>>)
    ensures
        answer_view(r) == range_answer(header_views(headers@), full_length, etag@),
        r matches Some(Ok((a, b))) ==> a <= b < full_length && b - a < MAX_FILE_SIZE_PER_CALL,
{
    let value = match find_header(headers, "range") {
        None => {
            return None;
        },
        Some(v) => v,
    };
    let h = match parse_range_header(value.as_str()) {
        Err(e) => {
            return Some(Err(e));
        },
        Ok(h) => h,
    };
    let if_range = match find_header(headers, "if-range") {
        None => None,
        Some(iv) => Some(parse_if_range(iv.as_str())),
    };
    Some(range_of(h, if_range, full_length, etag))
}

/// The value of a parsed `If-Range` header, if there is one.
pub open spec fn opt_if_range_view(r: Option<Result<IfRangeValue, String>>) -> Option<Result<IfRangeModel, Seq<char>>> {
    match r {
        None => None,
        Some(x) => Some(if_range_view(x)),
    }
}

/// The value of a parsed `Range` header.
pub open spec fn range_header_model(h: RangeHeader) -> RangeHeaderModel {
    match h {
        RangeHeader::Bytes(v) => RangeHeaderModel::Bytes(v@),
        RangeHeader::Unregistered(u, s) => RangeHeaderModel::Unregistered(u@, s@),
    }
}

/// The byte range that a parsed `Range` header `h` asks of a file of
/// `full_length` bytes with entity tag `etag`, given the parsed `If-Range`
/// header, if there is one: one satisfiable byte range, cut to what one call
/// carries, and only if an `If-Range` tag matches.
pub fn range_of(
    h: RangeHeader,
    if_range: Option<Result<IfRangeValue, String>>,
    full_length: u64,
    etag: &str,
) -> (r: Result<(u64, u64), String>)
    ensures
        match r {
            Ok(x) => range_answer_of(range_header_model(h), opt_if_range_view(if_range), full_length, etag@) == Ok::<
                (u64, u64),
                Seq<char>,
            >(x),
            Err(e) => range_answer_of(range_header_model(h), opt_if_range_view(if_range), full_length, etag@) == Err::<
                (u64, u64),
                Seq<char>,
            >(e@),
        },
        r matches Ok((a, b)) ==> a <= b < full_length && b - a < MAX_FILE_SIZE_PER_CALL,
{
    let brs = match h {
        RangeHeader::Unregistered(_, _) => {
            return Err(owned("invalid range, custom range not support"));
        },
        RangeHeader::Bytes(brs) => brs,
    };
    if brs.len() != 1 {
        return Err(owned("invalid range, multiple byte ranges not support"));
    }
    let mut range = match satisfiable_range(brs[0], full_length) {
        None => {
            return Err(owned("invalid range, out of range"));
        },
        Some(r) => r,
    };
    if range.1 + 1 - range.0 > MAX_FILE_SIZE_PER_CALL {
        range = (range.0, range.0 + MAX_FILE_SIZE_PER_CALL - 1);
    }
    match if_range {
        None => Ok(range),
        Some(Err(e)) => Err(e),
        Some(Ok(IfRangeValue::Date)) => Err(owned("invalid if-range value, date value not support")),
        Some(Ok(IfRangeValue::EntityTag(t))) => {
            if crate::text::str_eq(t.as_str(), etag) {
                Ok(range)
            } else {
                Err(owned("invalid if-range value, etag not match"))
            }
        },
    }
}

// ---------------------------------------------------------------- range bodies

/// The stored bytes of chunk `i` of file `id`, none when it is missing.
pub open spec fn stored_chunk(m: StoreModel, id: u32, i: u32) -> Seq<u8> {
    if m.chunks.contains_key(chunk_key(id, i)) {
        m.chunks[chunk_key(id, i)]
    } else {
        Seq::empty()
    }
}

/// The first and last offsets within chunk `i` of the end-inclusive range `start..=end`.
pub open spec fn chunk_span(i: int, start: u64, end: u64) -> (int, int) {
    let first = start / (CHUNK_SIZE as u64);
    let last = end / (CHUNK_SIZE as u64);
    (if i == first { (start % (CHUNK_SIZE as u64)) as int } else { 0 }, if i == last {
        (end % (CHUNK_SIZE as u64)) as int
    } else {
        CHUNK_SIZE - 1
    })
}

/// The bytes of `start..=end` taken from chunks `first..i` of file `id`, or
/// the first chunk too short to hold its part.
pub open spec fn range_bytes(m: StoreModel, id: u32, start: u64, end: u64, i: int) -> Result<Seq<u8>, int>
    decreases i - start / (CHUNK_SIZE as u64),
{
    let first = start / (CHUNK_SIZE as u64);
    if i <= first {
        Ok(Seq::empty())
    } else {
        match range_bytes(m, id, start, end, i - 1) {
            Err(k) => Err(k),
            Ok(b) => {
                let c = stored_chunk(m, id, (i - 1) as u32);
                let (s, e) = chunk_span(i - 1, start, end);
                if e >= c.len() {
                    Err(i - 1)
                } else {
                    Ok(b + c.subrange(s, e + 1))
                }
            },
        }
    }
}

/// The bytes `start..=end` of file `id`, gathered chunk by chunk, or the
/// message naming the first chunk too short to hold its part.
pub fn range_body(store: &BucketStore, id: u32, start: u64, end: u64) -> (r: Result<Vec<u8>, String>)
    requires
        start <= end,
    ensures
        match range_bytes(store@, id, start, end, end / (CHUNK_SIZE as u64) + 1) {
            Ok(b) => r matches Ok(v) && v@ == b,
            Err(k) => r matches Err(e) && e@ == "invalid range at chunk "@ + decimal(k as nat),
        },
{
    let cs: u64 = CHUNK_SIZE as u64;
    let first = start / cs;
    let last = end / cs;
    let mut body: Vec<u8> = Vec::new();
    let mut i: u64 = first;
    while i <= last
        invariant
            cs == CHUNK_SIZE as u64,
            first == start / cs,
            last == end / cs,
            first <= i <= last + 1,
            last < u64::MAX,
            start <= end,
            range_bytes(store@, id, start, end, i as int) == Ok::<Seq<u8>, int>(body@),
        decreases last + 1 - i,
    {
        let idx: u32 = #[verifier::truncate] (i as u32);
        assert(idx == #[verifier::truncate] ((i as int) as u32));
        let chunk: Vec<u8> = match store.get_chunk(id, idx) {
            Some(fc) => fc.1,
            None => Vec::new(),
        };
        assert(chunk@ == stored_chunk(store@, id, idx));
        let s: usize = if i == first { (start % cs) as usize } else { 0 };
        let e: usize = if i == last { (end % cs) as usize } else { (cs - 1) as usize };
        assert((s as int, e as int) == chunk_span(i as int, start, end));
        if e >= chunk.len() {
            let mut msg = owned("invalid range at chunk ");
            push_decimal(&mut msg, i);
            assert(range_bytes(store@, id, start, end, i + 1) == Err::<Seq<u8>, int>(i as int));
            proof {
                lemma_range_bytes_err(store@, id, start, end, i as int + 1, last as int + 1);
            }
            return Err(msg);
        }
        let ghost before = body@;
        if i == first && i == last {
            assert(start % cs <= end % cs) by (nonlinear_arith)
                requires
                    start / cs == end / cs,
                    start <= end,
                    cs > 0,
            ;
        }
        assert(chunk@.subrange(s as int, s as int) =~= Seq::<u8>::empty());
        assert(before + Seq::<u8>::empty() =~= before);
        let clen: usize = chunk.len();
        let mut k: usize = s;
        while k <= e
            invariant
                s <= k <= e + 1,
                e < clen,
                clen == chunk@.len(),
                body@ == before + chunk@.subrange(s as int, k as int),
            decreases e + 1 - k,
        {
            body.push(chunk[k]);
            assert(chunk@.subrange(s as int, k + 1) =~= chunk@.subrange(s as int, k as int).push(chunk@[k as int]));
            k += 1;
        }
        i += 1;
    }
    Ok(body)
}

/// Once a chunk is too short, the gathered range stays that error.
proof fn lemma_range_bytes_err(m: StoreModel, id: u32, start: u64, end: u64, i: int, j: int)
    requires
        i <= j,
        i > start / (CHUNK_SIZE as u64),
        range_bytes(m, id, start, end, i) is Err,
    ensures
        range_bytes(m, id, start, end, j) == range_bytes(m, id, start, end, i),
    decreases j - i,
{
    if i < j {
        lemma_range_bytes_err(m, id, start, end, i, j - 1);
    }
}

// ---------------------------------------------------------------- headers

/// The `Content-Range` value of the bytes `start..=end` of a `len`-byte
/// entity (hyperx's `ContentRangeSpec::Bytes`), as its source writes it.
#[verifier::external_body]
fn content_range(start: u64, end: u64, len: u64) -> (r: String)
    ensures
        r@ == "bytes "@ + decimal(start as nat) + "-"@ + decimal(end as nat) + "/"@ + decimal(len as nat),
{
    hyperx::header::ContentRangeSpec::Bytes { range: Some((start, end)), instance_length: Some(len) }.to_string()
}

/// The `Content-Disposition` value of a response shown in place (hyperx's
/// `ContentDisposition` with `DispositionType::Inline` and no parameter).
#[verifier::external_body]
fn inline_disposition() -> (r: String)
    ensures
        r@ == "inline"@,
{
    hyperx::header::ContentDisposition {
        disposition: hyperx::header::DispositionType::Inline,
        parameters: vec![],
    }.to_string()
}

/// The `Content-Disposition` value of a download named `name` in the simple
/// `filename="..."` form (hyperx's `ContentDisposition` with an `UTF-8`
/// filename and no language), as its source writes it.
#[verifier::external_body]
fn attachment_disposition(name: &str) -> (r: String)
    ensures
        r@ == "attachment; filename=\""@ + name@ + "\""@,
{
    hyperx::header::ContentDisposition {
        disposition: hyperx::header::DispositionType::Attachment,
        parameters: vec![hyperx::header::DispositionParam::Filename(
            hyperx::header::Charset::Ext("UTF-8".to_owned()), None, name.as_bytes().to_vec())],
    }.to_string()
}

/// Whether a byte is percent-encoded in an HTTP header value (RFC 5987,
/// section 3.2, as hyperx's `HTTP_VALUE` set): non-ASCII bytes, controls,
/// and the delimiters ` "%'()*,/:;<->?[\]{}`.
pub open spec fn http_value_escaped(b: u8) -> bool {
    b >= 0x80 || b < 0x20 || b == 0x7f || b == 0x20 || b == 0x22 || b == 0x25 || b == 0x27 || b == 0x28 || b
        == 0x29 || b == 0x2a || b == 0x2c || b == 0x2f || b == 0x3a || b == 0x3b || b == 0x3c || b == 0x2d || b
        == 0x3e || b == 0x3f || b == 0x5b || b == 0x5c || b == 0x5d || b == 0x7b || b == 0x7d
}

/// The upper-case hexadecimal digit of `n`, below 16.
pub open spec fn upper_hex(n: int) -> char {
    if n < 10 {
        (n + 48) as char
    } else {
        (n + 55) as char
    }
}

/// Bytes percent-encoded for an HTTP header value: an escaped byte becomes
/// `%` and two upper-case hexadecimal digits, any other stays a character.
pub open spec fn percent_encoded(b: Seq<u8>) -> Seq<char>
    decreases b.len(),
{
    if b.len() == 0 {
        Seq::empty()
    } else {
        let x = b[0];
        let head = if http_value_escaped(x) {
            seq!['%', upper_hex((x / 16) as int), upper_hex((x % 16) as int)]
        } else {
            seq![x as char]
        };
        head + percent_encoded(b.drop_first())
    }
}

/// The percent-encoded UTF-8 form of `name` (hyperx's `ExtendedValue` with an
/// `UTF-8` charset and no language): `UTF-8''` and the encoded bytes.
pub open spec fn utf8_extended_value(name: Seq<char>) -> Seq<char> {
    "UTF-8''"@ + percent_encoded(vstd::utf8::encode_utf8(name))
}

/// Writes `name` as hyperx's `ExtendedValue` with an `UTF-8` charset and no
/// language (its `Display`): the source writes the charset, `''`, and the
/// bytes through `percent_encoding::percent_encode` with its `HTTP_VALUE` set.
#[verifier::external_body]
fn extended_value(name: &str) -> (r: String)
    ensures
        r@ == utf8_extended_value(name@),
{
    hyperx::header::parsing::ExtendedValue {
        charset: hyperx::header::Charset::Ext("UTF-8".to_owned()),
        language_tag: None,
        value: name.as_bytes().to_vec(),
    }.to_string()
}

/// The last component of a path, if it is a file or directory name in UTF-8
/// (`std::path::Path::file_name`).
pub uninterp spec fn path_file_name(path: Seq<char>) -> Option<Seq<char>>;

#[verifier::external_body]
fn file_name_of(path: &str) -> (r: Option<String>)
    ensures
        match r {
            Some(s) => path_file_name(path@) == Some(s@),
            None => path_file_name(path@) is None,
        },
{
    std::path::Path::new(path).file_name().and_then(|s| s.to_str()).map(|s| s.to_string())
}

/// Whether every character is ASCII.
pub open spec fn all_ascii(s: Seq<char>) -> bool {
    forall|i: int| 0 <= i < s.len() ==> (#[trigger] s[i] as u32) < 128
}

/// The `Content-Disposition` value of a download of `filename`.
pub open spec fn disposition_of(filename: Seq<char>) -> Seq<char> {
    if filename.len() == 0 {
        "inline"@
    } else {
        let name = match path_file_name(filename) {
            Some(n) => n,
            None => filename,
        };
        if all_ascii(name) {
            "attachment; filename=\""@ + name + "\""@
        } else {
            "attachment; filename*="@ + utf8_extended_value(name)
        }
    }
}

/// The `Content-Disposition` value of a download of `filename`: shown in place
/// when there is no name, else an attachment named after the last component of
/// the path, in the simple form for an ASCII name and percent-encoded UTF-8
/// otherwise.
pub fn content_disposition(filename: &str) -> (r: String)
    ensures
        r@ == disposition_of(filename@),
{
    let cs = chars_of(filename);
    if cs.len() == 0 {
        return inline_disposition();
    }
    let name = match file_name_of(filename) {
        Some(n) => n,
        None => owned(filename),
    };
    let nc = chars_of(name.as_str());
    let mut ascii = true;
    let mut i: usize = 0;
    while i < nc.len()
        invariant
            nc@ == name@,
            i <= nc@.len(),
            ascii == (forall|j: int| 0 <= j < i ==> (#[trigger] nc@[j] as u32) < 128),
        decreases nc@.len() - i,
    {
        if (nc[i] as u32) >= 128 {
            ascii = false;
        }
        i += 1;
    }
    if ascii {
        attachment_disposition(name.as_str())
    } else {
        let mut r = owned("attachment; filename*=");
        let v = extended_value(name.as_str());
        push_str(&mut r, v.as_str());
        r
    }
}

/// The content type sent for a file: its own, or `application/octet-stream`.
pub open spec fn content_type_of(f: Seq<char>) -> Seq<char> {
    if f.len() == 0 {
        "application/octet-stream"@
    } else {
        f
    }
}

/// The answer to a request for the bytes `start..=end` of file `id`: the
/// first header becomes the content type, then come the content disposition,
/// length and range; the body is the bytes. The error names the first chunk too
/// short to hold its part.
pub fn range_response(
    headers: Vec<(String, String)>,
    store: &BucketStore,
    id: u32,
    metadata: &FileMetadata,
    start: u64,
    end: u64,
) -> (r: Result<HttpStreamingResponse, String>)
    requires
        headers@.len() > 0,
        start <= end,
    ensures
        match range_bytes(store@, id, start, end, end / (CHUNK_SIZE as u64) + 1) {
            Err(k) => r matches Err(e) && e@ == "invalid range at chunk "@ + decimal(k as nat),
            Ok(b) => (r matches Ok(x) && x.status_code == 206 && x.body@ == b && x.upgrade is None
                && x.streaming_strategy is None && header_views(x.headers@) == header_views(headers@).update(
                0,
                (headers@[0].0@, content_type_of(metadata.content_type@)),
            ) + seq![
                ("content-disposition"@, disposition_of(metadata.name@)),
                ("content-length"@, decimal(b.len())),
                ("content-range"@, "bytes "@ + decimal(start as nat) + "-"@ + decimal(end as nat) + "/"@ + decimal(
                    metadata.size as nat,
                )),
            ]),
        },
{
    let body = range_body(store, id, start, end)?;
    let mut headers = headers;
    let ghost h0 = header_views(headers@);
    let ct = if chars_of(metadata.content_type.as_str()).len() == 0 {
        owned("application/octet-stream")
    } else {
        metadata.content_type.clone()
    };
    let name0 = headers[0].0.clone();
    headers.set(0, (name0, ct));
    assert(header_views(headers@) =~= h0.update(0, (h0[0].0, content_type_of(metadata.content_type@))));
    let ghost h1 = header_views(headers@);
    headers.push((owned("content-disposition"), content_disposition(metadata.name.as_str())));
    headers.push((owned("content-length"), decimal_string(body.len() as u64)));
    headers.push((owned("content-range"), content_range(start, end, metadata.size)));
    assert(header_views(headers@) =~= h1 + seq![
        ("content-disposition"@, disposition_of(metadata.name@)),
        ("content-length"@, decimal(body@.len())),
        ("content-range"@, "bytes "@ + decimal(start as nat) + "-"@ + decimal(end as nat) + "/"@ + decimal(
            metadata.size as nat,
        )),
    ]);
    Ok(HttpStreamingResponse { status_code: 206, headers, body, upgrade: None, streaming_strategy: None })
}


// ---------------------------------------------------------------- downloads

/// What standard base64 with padding (`base64::engine::general_purpose::STANDARD`)
/// encodes the bytes `b` as.
pub uninterp spec fn base64_encoded(b: Seq<u8>) -> Seq<char>;

/// Encodes bytes with `Engine::encode` of `base64::engine::general_purpose::STANDARD`;
/// the text is named, as the encoding is base64's own.
#[verifier::external_body]
fn base64_encode(b: &[u8]) -> (r: String)
    ensures
        r@ == base64_encoded(b@),
{
    base64::engine::general_purpose::STANDARD.encode(b)
}

/// The mathematical value of an answer to an HTTP request: its status, its
/// headers, its body, and the file, chunk and chunk count of the token that
/// fetches the rest of a streamed body.
pub struct AnswerModel {
    pub status: u16,
    pub headers: Seq<(Seq<char>, Seq<char>)>,
    pub body: Seq<u8>,
    pub stream: Option<(u32, u32, u32)>,
}

/// The value of a response that is not upgraded and whose streaming tokens carry no access token.
pub open spec fn response_view(r: HttpStreamingResponse) -> AnswerModel {
    AnswerModel {
        status: r.status_code,
        headers: header_views(r.headers@),
        body: r.body@,
        stream: match r.streaming_strategy {
            None => None,
            Some(StreamingStrategy::Callback { token }) => Some((token.id, token.chunk_index, token.chunks)),
        },
    }
}

/// Whether the response is neither upgraded nor carries an access token in its streaming token.
pub open spec fn plain_response(r: HttpStreamingResponse) -> bool {
    &&& r.upgrade is None
    &&& r.streaming_strategy matches Some(StreamingStrategy::Callback { token }) ==> token.token is None
}

/// An answer of status `status` whose body is the text `msg`.
pub open spec fn refused(status: u16, headers: Seq<(Seq<char>, Seq<char>)>, msg: Seq<char>) -> AnswerModel {
    AnswerModel { status, headers, body: encode_utf8(msg), stream: None }
}

/// The file a download asks for: through the hash index (0 when the hash is
/// not indexed) when it gives a hash, else by id.
pub open spec fn requested_file(m: StoreModel, p: UrlFileParamModel) -> u32 {
    match p.hash {
        Some(h) => if m.hashes.contains_key(h) { m.hashes[h] } else { 0 },
        None => p.file,
    }
}

/// The entity tag of a file: its hash in base64, or nothing.
pub open spec fn entity_tag(f: FileModel) -> Seq<char> {
    match f.hash {
        Some(h) => base64_encoded(h),
        None => Seq::empty(),
    }
}

/// The name a download is saved under: none when it is shown in place, else
/// the name the request gives, else the file's.
pub open spec fn download_name(p: UrlFileParamModel, f: FileModel) -> Seq<char> {
    if p.inline {
        Seq::empty()
    } else {
        match p.name {
            Some(n) => n,
            None => f.name,
        }
    }
}

/// The headers of every answer with content: byte ranges are accepted, the
/// entity tag is given when there is one, and the first header becomes the
/// content type.
pub open spec fn served_headers(h: Seq<(Seq<char>, Seq<char>)>, f: FileModel) -> Seq<(Seq<char>, Seq<char>)> {
    let h1 = h.push(("accept-ranges"@, "bytes"@));
    let h2 = if entity_tag(f).len() > 0 {
        h1.push(("etag"@, "\""@ + entity_tag(f) + "\""@))
    } else {
        h1
    };
    h2.update(0, (h2[0].0, content_type_of(f.content_type)))
}

/// The chunk last sent and the body of a whole-file answer: all chunks for a
/// file small enough for one call (nothing when they cannot be read), else
/// the first chunk (nothing when it is missing).
pub open spec fn first_part(m: StoreModel, id: u32) -> (u32, Seq<u8>) {
    let f = m.files[id];
    if f.size <= MAX_FILE_SIZE_PER_CALL {
        (
            if f.chunks > 0 { (f.chunks - 1) as u32 } else { 0 },
            if full_chunks_error(m, id) is None { file_bytes(m.chunks, id, f.chunks as nat) } else { Seq::empty() },
        )
    } else {
        (0, if m.chunks.contains_key(chunk_key(id, 0)) { m.chunks[chunk_key(id, 0)] } else { Seq::empty() })
    }
}

/// The caching header of answers that carry a whole file.
pub open spec fn cache_header() -> (Seq<char>, Seq<char>) {
    ("cache-control"@, "max-age=2592000, public"@)
}

/// The answer to a download of file `id`, readable and fully uploaded, with
/// the headers `h` and the request headers `req`.
pub open spec fn content_answer(
    m: StoreModel,
    p: UrlFileParamModel,
    id: u32,
    head: bool,
    h: Seq<(Seq<char>, Seq<char>)>,
    req: Seq<(Seq<char>, Seq<char>)>,
) -> AnswerModel {
    let f = m.files[id];
    let hs = served_headers(h, f);
    let disposition = ("content-disposition"@, disposition_of(download_name(p, f)));
    if head {
        AnswerModel {
            status: 200,
            headers: hs + seq![("content-length"@, decimal(f.size as nat)), cache_header(), disposition],
            body: Seq::empty(),
            stream: None,
        }
    } else {
        match range_answer(req, f.size, entity_tag(f)) {
            Some(Err(e)) => refused(416, hs, e),
            Some(Ok((start, end))) => match range_bytes(m, id, start, end, end / (CHUNK_SIZE as u64) + 1) {
                Err(k) => refused(416, hs, "invalid range at chunk "@ + decimal(k as nat)),
                Ok(b) => AnswerModel {
                    status: 206,
                    headers: hs + seq![
                        ("content-disposition"@, disposition_of(f.name)),
                        ("content-length"@, decimal(b.len())),
                        ("content-range"@, "bytes "@ + decimal(start as nat) + "-"@ + decimal(end as nat) + "/"@
                            + decimal(f.size as nat)),
                    ],
                    body: b,
                    stream: None,
                },
            },
            None => {
                let (last, body) = first_part(m, id);
                if last + 1 >= f.chunks {
                    AnswerModel {
                        status: 200,
                        headers: hs + seq![disposition, ("content-length"@, decimal(body.len())), cache_header()],
                        body,
                        stream: None,
                    }
                } else {
                    AnswerModel { status: 200, headers: hs.push(disposition), body, stream: Some((id, (last + 1) as u32, f.chunks)) }
                }
            },
        }
    }
}

/// The value of a read grant: the caller's role and access, or the refusal.
pub open spec fn grant_view(g: Result<Context, (u16, String)>) -> Result<(Role, AccessModel), (u16, Seq<char>)> {
    match g {
        Ok(ctx) => Ok((ctx.caller_role(), ctx.access())),
        Err((c, m)) => Err((c, m@)),
    }
}

/// The answer to a download request: a bad URL, a missing file, a refused
/// grant, an archived file (below auditor), a file the grant does not cover,
/// and a partly uploaded file are answered with their message; else the
/// file's content. A token that is the file's hash reads a file that allows
/// it without the grant.
pub open spec fn download_answer(
    m: StoreModel,
    param: Result<UrlFileParamModel, Seq<char>>,
    head: bool,
    h: Seq<(Seq<char>, Seq<char>)>,
    req: Seq<(Seq<char>, Seq<char>)>,
    grant: Result<(Role, AccessModel), (u16, Seq<char>)>,
) -> AnswerModel {
    match param {
        Err(e) => refused(400, h, e),
        Ok(p) => {
            let id = requested_file(m, p);
            if !m.files.contains_key(id) {
                refused(404, h, "file not found"@)
            } else {
                let f = m.files[id];
                match grant_barrier(f, m.folders, id, p.token, grant) {
                    Some((c, e)) => refused(c, h, e),
                    None => if f.size != f.filled {
                        refused(422, h, "file not fully uploaded"@)
                    } else {
                        content_answer(m, p, id, head, h, req)
                    },
                }
            }
        },
    }
}

/// Why the request may not read file `id` (`f`), if it may not: none when
/// the token reads the file by its hash; else a refused grant, an archived
/// file (below auditor), or a file the grant does not cover.
pub open spec fn grant_barrier(
    f: FileModel,
    folders: crate::tree::FolderMap,
    id: u32,
    token: Option<Seq<u8>>,
    grant: Result<(Role, AccessModel), (u16, Seq<char>)>,
) -> Option<(u16, Seq<char>)> {
    if readable_by_hash(f, token) {
        None
    } else {
        match grant {
            Err((c, e)) => Some((c, e)),
            Ok((role, a)) => if f.status < 0 && role.rank() < Role::Auditor.rank() {
                Some((403, "file archived"@))
            } else if !file_read_admitted(a, folders, id, f.parent) {
                Some((403, "permission denied"@))
            } else {
                None
            },
        }
    }
}

/// The value of a parsed download URL.
pub open spec fn param_view(p: Result<UrlFileParam, String>) -> Result<UrlFileParamModel, Seq<char>> {
    match p {
        Ok(x) => Ok(x.model()),
        Err(e) => Err(e@),
    }
}

/// The UTF-8 bytes of a text.
fn text_bytes(s: &str) -> (r: Vec<u8>)
    ensures
        r@ == encode_utf8(s@),
{
    s.as_bytes_vec()
}

/// An answer of status `status` whose body is `msg`.
fn refusal(status: u16, headers: Vec<(String, String)>, msg: &str) -> (r: HttpStreamingResponse)
    ensures
        response_view(r) == refused(status, header_views(headers@), msg@),
        plain_response(r),
{
    HttpStreamingResponse { status_code: status, headers, body: text_bytes(msg), upgrade: None, streaming_strategy: None }
}

/// A copy of a list of headers.
fn copy_headers(h: &Vec<(String, String)>) -> (r: Vec<(String, String)>)
    ensures
        header_views(r@) == header_views(h@),
        r@.len() == h@.len(),
{
    let mut r: Vec<(String, String)> = Vec::new();
    let mut i: usize = 0;
    while i < h.len()
        invariant
            i <= h@.len(),
            header_views(r@) == header_views(h@.take(i as int)),
            r@.len() == i,
        decreases h@.len() - i,
    {
        r.push((h[i].0.clone(), h[i].1.clone()));
        assert(header_views(h@.take(i + 1)) =~= header_views(h@.take(i as int)).push((h@[i as int].0@, h@[i as int].1@)));
        assert(header_views(r@) =~= header_views(h@.take(i as int)).push((h@[i as int].0@, h@[i as int].1@)));
        i += 1;
    }
    assert(h@.take(i as int) =~= h@);
    r
}

/// The answer to a download request (`GET` or `HEAD`) for the parsed URL
/// `param`, with the request headers `request_headers`, given the read
/// `grant` of the request. `headers` are the headers every answer carries;
/// the first one is the content type. A token that is the hash of a file
/// that allows reading by hash reads it without the grant.
pub fn file_response(
    headers: Vec<(String, String)>,
    param: Result<UrlFileParam, String>,
    method: &str,
    request_headers: &[(String, String)],
    store: &BucketStore,
    grant: Result<Context, (u16, String)>,
) -> (r: HttpStreamingResponse)
    requires
        headers@.len() > 0,
        store.wf(),
    ensures
        plain_response(r),
        response_view(r) == download_answer(
            store@,
            param_view(param),
            method@ == "HEAD"@,
            header_views(headers@),
            header_views(request_headers@),
            grant_view(grant),
        ),
{
    proof {
        reveal_strlit("file not found");
        reveal_strlit("file archived");
        reveal_strlit("permission denied");
        reveal_strlit("file not fully uploaded");
    }
    let ghost m = store@;
    let p = match param {
        Err(e) => {
            return refusal(400, headers, e.as_str());
        },
        Ok(p) => p,
    };
    let id = match p.hash {
        Some(h) => match store.get_file_id(&h) {
            Some(i) => i,
            None => 0,
        },
        None => p.file,
    };
    let file = match store.get_file(id) {
        None => {
            return refusal(404, headers, "file not found");
        },
        Some(f) => f,
    };
    if !file.read_by_hash(&p.token) {
        let ctx = match grant {
            Err((code, e)) => {
                return refusal(code, headers, e.as_str());
            },
            Ok(c) => c,
        };
        if file.status < 0 && !ctx.role().at_least(&Role::Auditor) {
            return refusal(403, headers, "file archived");
        }
        if !crate::access::check_file_read(&ctx, store, id, file.parent) {
            return refusal(403, headers, "permission denied");
        }
    }
    if file.size != file.filled {
        return refusal(422, headers, "file not fully uploaded");
    }
    content_response(headers, &p, method, request_headers, store, id, &file)
}

/// The answer with the content of file `id`, readable and fully uploaded:
/// its headers and, for `HEAD`, no more; else the byte range asked for, or
/// the whole file when one call carries it, else its first chunk and a token
/// for the next.
fn content_response(
    headers: Vec<(String, String)>,
    p: &UrlFileParam,
    method: &str,
    request_headers: &[(String, String)],
    store: &BucketStore,
    id: u32,
    file: &FileMetadata,
) -> (r: HttpStreamingResponse)
    requires
        headers@.len() > 0,
        store.wf(),
        store@.files.contains_key(id),
        file@ == store@.files[id],
        file.size == file.filled,
    ensures
        plain_response(r),
        response_view(r) == content_answer(
            store@,
            p.model(),
            id,
            method@ == "HEAD"@,
            header_views(headers@),
            header_views(request_headers@),
        ),
{
    proof {
        reveal_strlit("HEAD");
    }
    let ghost m = store@;
    let ghost f = m.files[id];
    let ghost h0 = header_views(headers@);
    let mut headers = headers;
    let etag = match file.hash {
        Some(h) => base64_encode(&h),
        None => String::new(),
    };
    assert(etag@ == entity_tag(f));
    headers.push((owned("accept-ranges"), owned("bytes")));
    let ghost h1 = h0.push(("accept-ranges"@, "bytes"@));
    assert(header_views(headers@) =~= h1);
    if chars_of(etag.as_str()).len() > 0 {
        let mut tag = owned("\"");
        push_str(&mut tag, etag.as_str());
        push_str(&mut tag, "\"");
        headers.push((owned("etag"), tag));
    }
    let ghost h2 = if entity_tag(f).len() > 0 {
        h1.push(("etag"@, "\""@ + entity_tag(f) + "\""@))
    } else {
        h1
    };
    assert(header_views(headers@) =~= h2);
    let ct = if chars_of(file.content_type.as_str()).len() == 0 {
        owned("application/octet-stream")
    } else {
        file.content_type.clone()
    };
    let name0 = headers[0].0.clone();
    headers.set(0, (name0, ct));
    let ghost hs = served_headers(h0, f);
    assert(header_views(headers@) =~= hs);
    let name: String = if p.inline {
        String::new()
    } else {
        match &p.name {
            Some(n) => n.clone(),
            None => file.name.clone(),
        }
    };
    assert(name@ == download_name(p.model(), f));
    if crate::text::str_eq(method, "HEAD") {
        headers.push((owned("content-length"), decimal_string(file.size)));
        headers.push((owned("cache-control"), owned("max-age=2592000, public")));
        headers.push((owned("content-disposition"), content_disposition(name.as_str())));
        assert(header_views(headers@) =~= hs + seq![
            ("content-length"@, decimal(f.size as nat)),
            cache_header(),
            ("content-disposition"@, disposition_of(download_name(p.model(), f))),
        ]);
        return HttpStreamingResponse {
            status_code: 200,
            headers,
            body: Vec::new(),
            upgrade: None,
            streaming_strategy: None,
        };
    }
    match detect_range(request_headers, file.size, etag.as_str()) {
        Some(Err(e)) => {
            return refusal(416, headers, e.as_str());
        },
        Some(Ok((start, end))) => {
            let kept = copy_headers(&headers);
            assert(hs.update(0, (headers@[0].0@, content_type_of(file.content_type@))) =~= hs);
            return match range_response(headers, store, id, file, start, end) {
                Ok(resp) => resp,
                Err(e) => refusal(416, kept, e.as_str()),
            };
        },
        None => {},
    }
    headers.push((owned("content-disposition"), content_disposition(name.as_str())));
    let ghost h3 = hs.push(("content-disposition"@, disposition_of(download_name(p.model(), f))));
    assert(header_views(headers@) =~= h3);
    let (last, body): (u32, Vec<u8>) = if file.size <= MAX_FILE_SIZE_PER_CALL {
        let last = if file.chunks > 0 {
            file.chunks - 1
        } else {
            0
        };
        let body = match store.get_full_chunks(id) {
            Ok(b) => b,
            Err(_) => Vec::new(),
        };
        (last, body)
    } else {
        let body = match store.get_chunk(id, 0) {
            Some(c) => c.1,
            None => Vec::new(),
        };
        (0, body)
    };
    assert((last, body@) == first_part(m, id));
    let next = StreamingCallbackToken { id, chunk_index: last, chunks: file.chunks, token: None }.next();
    match next {
        None => {
            headers.push((owned("content-length"), decimal_string(body.len() as u64)));
            headers.push((owned("cache-control"), owned("max-age=2592000, public")));
            assert(header_views(headers@) =~= h3 + seq![
                ("content-length"@, decimal(body@.len())),
                cache_header(),
            ]);
            assert(hs + seq![
                ("content-disposition"@, disposition_of(download_name(p.model(), f))),
                ("content-length"@, decimal(body@.len())),
                cache_header(),
            ] =~= h3 + seq![("content-length"@, decimal(body@.len())), cache_header()]);
            HttpStreamingResponse { status_code: 200, headers, body, upgrade: None, streaming_strategy: None }
        },
        Some(t) => HttpStreamingResponse {
            status_code: 200,
            headers,
            body,
            upgrade: None,
            streaming_strategy: Some(StreamingStrategy::Callback { token: t }),
        },
    }
}

/// The next piece of a streamed download: the chunk `token` names and the
/// token of the chunk after it; an error when the chunk is missing.
pub fn streaming_callback(store: &BucketStore, token: StreamingCallbackToken) -> (r: Result<StreamingCallbackHttpResponse, String>)
    requires
        token.chunk_index < u32::MAX,
    ensures
        !store@.chunks.contains_key(chunk_key(token.id, token.chunk_index)) ==> (r matches Err(e) && e@
            == "chunk not found"@),
        store@.chunks.contains_key(chunk_key(token.id, token.chunk_index)) ==> (r matches Ok(x) && x.body@
            == store@.chunks[chunk_key(token.id, token.chunk_index)] && (if token.chunk_index + 1 >= token.chunks {
            x.token is None
        } else {
            x.token matches Some(t) && t.id == token.id && t.chunk_index == token.chunk_index + 1 && t.chunks
                == token.chunks && t.token == token.token
        })),
{
    match store.get_chunk(token.id, token.chunk_index) {
        None => Err(owned("chunk not found")),
        Some(chunk) => Ok(StreamingCallbackHttpResponse { body: chunk.1, token: token.next() }),
    }
}

} // verus!
