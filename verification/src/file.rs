//! File names and paths, file inputs and their validation, and the size limits
//! of stored files.
use vstd::prelude::*;
use vstd::utf8::encode_utf8;
use base64::Engine;
use crate::text::{chars_of, is_whitespace, is_whitespace_spec, owned, split_char, split_spec, str_eq, views};

verus! {

/// The size of one stored chunk of a file, in bytes.
pub const CHUNK_SIZE: u32 = 262144;

/// The largest file a bucket accepts by default (384 GiB).
pub const MAX_FILE_SIZE: u64 = 412316860416;

/// The most file content handed out by one call (2 MiB).
pub const MAX_FILE_SIZE_PER_CALL: u64 = 2097152;

/// The custom metadata key that marks a file as readable by its hash.
pub const CUSTOM_KEY_BY_HASH: &'static str = "by_hash";

/// A file name: non-empty, without surrounding white space, at most 96 bytes
/// long, a single path component (no `/`), and neither `.` nor `..`.
pub open spec fn is_file_name(s: Seq<char>) -> bool {
    &&& s.len() > 0
    &&& !is_whitespace_spec(s[0])
    &&& !is_whitespace_spec(s.last())
    &&& encode_utf8(s).len() <= 96
    &&& !s.contains('/')
    &&& s != "."@
    &&& s != ".."@
}

/// `s` without its leading white space, as `str::trim_start` leaves it.
pub open spec fn trim_start(s: Seq<char>) -> Seq<char>
    decreases s.len(),
{
    if s.len() > 0 && is_whitespace_spec(s[0]) {
        trim_start(s.drop_first())
    } else {
        s
    }
}

/// `s` without its trailing white space, as `str::trim_end` leaves it.
pub open spec fn trim_end(s: Seq<char>) -> Seq<char>
    decreases s.len(),
{
    if s.len() > 0 && is_whitespace_spec(s.last()) {
        trim_end(s.drop_last())
    } else {
        s
    }
}

/// `s` without white space at either end, as `str::trim` leaves it.
pub open spec fn trimmed(s: Seq<char>) -> Seq<char> {
    trim_end(trim_start(s))
}

proof fn lemma_trim_start_len(s: Seq<char>)
    ensures
        trim_start(s).len() <= s.len(),
    decreases s.len(),
{
    if s.len() > 0 && is_whitespace_spec(s[0]) {
        lemma_trim_start_len(s.drop_first());
    }
}

proof fn lemma_trim_end_len(s: Seq<char>)
    ensures
        trim_end(s).len() <= s.len(),
    decreases s.len(),
{
    if s.len() > 0 && is_whitespace_spec(s.last()) {
        lemma_trim_end_len(s.drop_last());
    }
}

/// A file name is exactly a non-empty name that trimming leaves as it is, at
/// most 96 bytes long, with no `/`, and neither `.` nor `..`.
pub proof fn lemma_file_name_trimmed(s: Seq<char>)
    ensures
        is_file_name(s) <==> (s.len() > 0 && trimmed(s) == s && encode_utf8(s).len() <= 96 && !s.contains('/')
            && s != "."@ && s != ".."@),
{
    if s.len() > 0 {
        if is_whitespace_spec(s[0]) {
            lemma_trim_start_len(s.drop_first());
            lemma_trim_end_len(trim_start(s));
        } else if is_whitespace_spec(s.last()) {
            lemma_trim_end_len(s.drop_last());
        }
    }
}

/// A folder path: empty, `/`, or `/` followed by `/`-separated file names.
pub open spec fn is_file_parent(s: Seq<char>) -> bool {
    ||| s.len() == 0
    ||| s == "/"@
    ||| (s[0] == '/' && forall|i: int|
        0 <= i < split_spec(s.drop_first(), '/').len() ==> is_file_name(
            #[trigger] split_spec(s.drop_first(), '/')[i],
        ))
}

/// Whether `name` is a valid file (or folder) name.
pub fn valid_file_name(name: &str) -> (r: bool)
    ensures
        r == is_file_name(name@),
{
    let cs = chars_of(name);
    if cs.len() == 0 {
        return false;
    }
    if is_whitespace(cs[0]) || is_whitespace(cs[cs.len() - 1]) {
        return false;
    }
    if crate::text::utf8_len(&cs) > 96 {
        return false;
    }
    if str_eq(name, ".") || str_eq(name, "..") {
        return false;
    }
    assert(cs@.last() == name@.last());
    assert(!is_whitespace_spec(name@[0]));
    assert(!is_whitespace_spec(name@.last()));
    !crate::text::has_char(&cs, '/')
}

/// Whether `parent` is a valid folder path.
pub fn valid_file_parent(parent: &str) -> (r: bool)
    ensures
        r == is_file_parent(parent@),
{
    let cs = chars_of(parent);
    if cs.len() == 0 || str_eq(parent, "/") {
        return true;
    }
    if cs[0] != '/' {
        return false;
    }
    let rest = crate::text::string_of_range(&cs, 1, cs.len());
    assert(rest@ == parent@.drop_first());
    let pieces = split_char(rest.as_str(), '/');
    for i in 0..pieces.len()
        invariant
            parent@.len() > 0,
            parent@ != "/"@,
            parent@[0] == '/',
            views(pieces@) == split_spec(parent@.drop_first(), '/'),
            forall|j: int| 0 <= j < i ==> is_file_name(#[trigger] split_spec(parent@.drop_first(), '/')[j]),
    {
        assert(pieces@[i as int]@ == split_spec(parent@.drop_first(), '/')[i as int]);
        if !valid_file_name(pieces[i].as_str()) {
            assert(!is_file_name(split_spec(parent@.drop_first(), '/')[i as int]));
            return false;
        }
    }
    true
}

/// The input to create a file.
#[derive(Clone, Debug, Default)]
pub struct CreateFileInput {
    pub parent: u32,
    pub name: String,
    pub content_type: String,
    pub size: Option<u64>,
    pub content: Option<Vec<u8>>,
    pub status: Option<i8>,
    pub hash: Option<[u8; 32]>,
    pub dek: Option<Vec<u8>>,
}

/// Why a file creation input is rejected, if it is.
pub open spec fn create_file_error(name: Seq<char>, content_type: Seq<char>, content: Option<Seq<u8>>, status: Option<i8>) -> Option<Seq<char>> {
    if !is_file_name(name) {
        Some("invalid file name"@)
    } else if content_type.len() == 0 {
        Some("content_type cannot be empty"@)
    } else if content is Some && content->0.len() == 0 {
        Some("content cannot be empty"@)
    } else if status is Some && !(0 <= status->0 <= 1) {
        Some("status should be 0 or 1"@)
    } else {
        None
    }
}

pub open spec fn opt_bytes(o: Option<Vec<u8>>) -> Option<Seq<u8>> {
    match o {
        Some(v) => Some(v@),
        None => None,
    }
}

impl CreateFileInput {
    /// Checks the name, the content type, the inline content and the status.
    pub fn validate(&self) -> (r: Result<(), String>)
        ensures
            match create_file_error(self.name@, self.content_type@, opt_bytes(self.content), self.status) {
                Some(m) => r matches Err(e) && e@ == m,
                None => r is Ok,
            },
    {
        if !valid_file_name(self.name.as_str()) {
            return Err(owned("invalid file name"));
        }
        if self.content_type.as_str().is_empty() {
            return Err(owned("content_type cannot be empty"));
        }
        if let Some(content) = &self.content {
            if content.len() == 0 {
                return Err(owned("content cannot be empty"));
            }
        }
        if let Some(status) = self.status {
            if !(0 <= status && status <= 1) {
                return Err(owned("status should be 0 or 1"));
            }
        }
        Ok(())
    }
}

/// The input to update a file's metadata.
#[derive(Clone, Debug, Default)]
pub struct UpdateFileInput {
    pub id: u32,
    pub name: Option<String>,
    pub content_type: Option<String>,
    pub status: Option<i8>,
    pub size: Option<u64>,
    pub hash: Option<[u8; 32]>,
    /// When the change carries custom data: whether that data has the
    /// `by_hash` key.
    pub by_hash: Option<bool>,
}

pub open spec fn opt_text(o: Option<String>) -> Option<Seq<char>> {
    match o {
        Some(s) => Some(s@),
        None => None,
    }
}

/// Why a file update input is rejected, if it is.
pub open spec fn update_file_error(name: Option<Seq<char>>, content_type: Option<Seq<char>>, status: Option<i8>) -> Option<Seq<char>> {
    if name is Some && !is_file_name(name->0) {
        Some("invalid file name"@)
    } else if content_type is Some && content_type->0.len() == 0 {
        Some("content_type cannot be empty"@)
    } else if status is Some && !(-1 <= status->0 <= 1) {
        Some("status should be -1, 0 or 1"@)
    } else {
        None
    }
}

impl UpdateFileInput {
    /// Checks the new name, content type and status, where given.
    pub fn validate(&self) -> (r: Result<(), String>)
        ensures
            match update_file_error(opt_text(self.name), opt_text(self.content_type), self.status) {
                Some(m) => r matches Err(e) && e@ == m,
                None => r is Ok,
            },
    {
        if let Some(name) = &self.name {
            if !valid_file_name(name.as_str()) {
                return Err(owned("invalid file name"));
            }
        }
        if let Some(content_type) = &self.content_type {
            if content_type.as_str().is_empty() {
                return Err(owned("content_type cannot be empty"));
            }
        }
        if let Some(status) = self.status {
            if !(-1 <= status && status <= 1) {
                return Err(owned("status should be -1, 0 or 1"));
            }
        }
        Ok(())
    }
}

/// The outcome of updating a file's metadata.
#[derive(Clone, Debug, Default)]
pub struct UpdateFileOutput {
    pub updated_at: u64,
}

/// A chunk to write: the file, the chunk's index and its bytes.
#[derive(Clone, Debug, Default)]
pub struct UpdateFileChunkInput {
    pub id: u32,
    pub chunk_index: u32,
    pub content: Vec<u8>,
}

/// The outcome of writing a chunk: the bytes filled and when.
#[derive(Clone, Debug, Default)]
pub struct UpdateFileChunkOutput {
    pub filled: u64,
    pub updated_at: u64,
}

/// A request to move a file or folder from one folder to another.
#[derive(Clone, Debug, Default)]
pub struct MoveInput {
    pub id: u32,
    pub from: u32,
    pub to: u32,
}

/// A chunk of a file: its index and its bytes.
#[derive(Clone, Debug, Default)]
pub struct FileChunk(pub u32, pub Vec<u8>);

/// What a file looks like from outside.
#[derive(Clone, Debug, Default)]
pub struct FileInfo {
    pub id: u32,
    pub parent: u32,
    pub name: String,
    pub content_type: String,
    pub size: u64,
    pub filled: u64,
    pub created_at: u64,
    pub updated_at: u64,
    pub chunks: u32,
    pub status: i8,
    pub hash: Option<[u8; 32]>,
    pub dek: Option<Vec<u8>>,
}

// ---------------------------------------------------------------- file urls

/// What `url::Url::parse` makes of a URL: its path split at `/` (when the URL
/// can be a base), and its query pairs, percent-decoded.
#[derive(Clone, Debug)]
pub struct UrlParts {
    pub segments: Option<Vec<String>>,
    pub query: Vec<(String, String)>,
}

/// The mathematical value of [`UrlParts`].
pub struct UrlPartsModel {
    pub segments: Option<Seq<Seq<char>>>,
    pub query: Seq<(Seq<char>, Seq<char>)>,
}

/// What the `url` crate reads the URL `url` as: `None` when it does not parse.
pub uninterp spec fn url_parts_of(url: Seq<char>) -> Option<UrlPartsModel>;

pub open spec fn pair_views(v: Seq<(String, String)>) -> Seq<(Seq<char>, Seq<char>)> {
    v.map_values(|p: (String, String)| (p.0@, p.1@))
}

/// The value of a read URL.
pub open spec fn parts_model(u: UrlParts) -> UrlPartsModel {
    UrlPartsModel {
        segments: match u.segments {
            Some(v) => Some(views(v@)),
            None => None,
        },
        query: pair_views(u.query@),
    }
}

pub open spec fn url_parts_view(r: Option<UrlParts>) -> Option<UrlPartsModel> {
    match r {
        None => None,
        Some(u) => Some(parts_model(u)),
    }
}

/// Parses a URL (`url::Url::parse`) and reads its path segments
/// (`Url::path_segments`) and its query pairs (`Url::query_pairs`); the result
/// is named, as the URL grammar is the `url` crate's own.
#[verifier::external_body]
fn parse_url(url: &str) -> (r: Option<UrlParts>)
    ensures
        url_parts_view(r) == url_parts_of(url@),
{
    let u = url::Url::parse(url).ok()?;
    Some(UrlParts {
        segments: u.path_segments().map(|s| s.map(|x| x.to_string()).collect()),
        query: u.query_pairs().map(|(k, v)| (k.to_string(), v.to_string())).collect(),
    })
}

/// What URL-safe base64 without padding (`base64::engine::general_purpose::URL_SAFE_NO_PAD`)
/// decodes `s` to, if it decodes.
pub uninterp spec fn base64_url_decoded(s: Seq<char>) -> Option<Seq<u8>>;

#[verifier::external_body]
fn base64_url_decode(s: &str) -> (r: Option<Vec<u8>>)
    ensures
        match r {
            Some(v) => base64_url_decoded(s@) == Some(v@),
            None => base64_url_decoded(s@) is None,
        },
{
    base64::engine::general_purpose::URL_SAFE_NO_PAD.decode(s.as_bytes()).ok()
}

/// A decimal digit.
pub open spec fn is_digit(c: char) -> bool {
    '0' <= c <= '9'
}

/// The value of the decimal digits `d`.
pub open spec fn digits_value(d: Seq<char>) -> nat
    decreases d.len(),
{
    if d.len() == 0 {
        0
    } else {
        digits_value(d.drop_last()) * 10 + (d.last() as nat - '0' as nat) as nat
    }
}

/// What `str::parse::<u32>` reads: an optional `+` and then digits only, of a
/// value that fits.
pub open spec fn parsed_u32(s: Seq<char>) -> Option<u32> {
    let d = digits_part(s);
    if d.len() > 0 && all_digits(d) && digits_value(d) <= u32::MAX {
        Some(digits_value(d) as u32)
    } else {
        None
    }
}

/// The text after an optional leading `+`.
pub open spec fn digits_part(s: Seq<char>) -> Seq<char> {
    if s.len() > 0 && s[0] == '+' { s.drop_first() } else { s }
}

/// Every character is a decimal digit.
pub open spec fn all_digits(d: Seq<char>) -> bool {
    forall|i: int| 0 <= i < d.len() ==> is_digit(#[trigger] d[i])
}

/// Reads a `u32` written in decimal, with an optional `+`.
pub fn parse_u32(s: &str) -> (r: Option<u32>)
    ensures
        r == parsed_u32(s@),
{
    let cs = chars_of(s);
    let start: usize = if cs.len() > 0 && cs[0] == '+' { 1 } else { 0 };
    let ghost d = digits_part(s@);
    if start >= cs.len() {
        return None;
    }
    let mut v: u64 = 0;
    let mut i: usize = start;
    while i < cs.len()
        invariant
            cs@ == s@,
            start <= i <= cs@.len(),
            d == cs@.subrange(start as int, cs@.len() as int),
            d == digits_part(s@),
            forall|j: int| start <= j < i ==> is_digit(#[trigger] cs@[j]),
            v == digits_value(cs@.subrange(start as int, i as int)),
            v <= u32::MAX,
        decreases cs@.len() - i,
    {
        let c = cs[i];
        if c < '0' || c > '9' {
            assert(d[i - start] == cs@[i as int]);
            assert(!is_digit(d[i - start]));
            assert(!all_digits(d));
            return None;
        }
        let digit: u64 = (c as u64) - ('0' as u64);
        assert(cs@.subrange(start as int, i + 1).drop_last() =~= cs@.subrange(start as int, i as int));
        v = v * 10 + digit;
        if v > u32::MAX as u64 {
            assert(cs@.subrange(start as int, i + 1) =~= d.subrange(0, i + 1 - start));
            proof {
                if all_digits(d) {
                    lemma_digits_value_grows(d, (i + 1 - start) as int);
                }
            }
            return None;
        }
        i += 1;
    }
    assert(cs@.subrange(start as int, i as int) =~= d);
    assert forall|j: int| 0 <= j < d.len() implies is_digit(#[trigger] d[j]) by {
        assert(d[j] == cs@[start + j]);
    }
    assert(all_digits(d));
    Some(v as u32)
}

/// The value of a run of digits is at least that of its prefixes.
proof fn lemma_digits_value_grows(d: Seq<char>, k: int)
    requires
        0 <= k <= d.len(),
        all_digits(d),
    ensures
        digits_value(d.subrange(0, k)) <= digits_value(d),
    decreases d.len() - k,
{
    if k < d.len() {
        lemma_digits_value_grows(d, k + 1);
        assert(d.subrange(0, k + 1).drop_last() =~= d.subrange(0, k));
    } else {
        assert(d.subrange(0, k) =~= d);
    }
}

/// The `Debug` text of a byte vector: its bytes in decimal, comma-separated, in brackets.
pub open spec fn bytes_debug(v: Seq<u8>) -> Seq<char> {
    "["@ + bytes_list(v) + "]"@
}

pub open spec fn bytes_list(v: Seq<u8>) -> Seq<char>
    decreases v.len(),
{
    if v.len() == 0 {
        Seq::empty()
    } else if v.len() == 1 {
        crate::text::decimal(v[0] as nat)
    } else {
        bytes_list(v.drop_last()) + ", "@ + crate::text::decimal(v.last() as nat)
    }
}

fn debug_bytes(v: &Vec<u8>) -> (r: String)
    ensures
        r@ == bytes_debug(v@),
{
    let mut s = owned("[");
    let mut i: usize = 0;
    while i < v.len()
        invariant
            i <= v@.len(),
            s@ == "["@ + bytes_list(v@.take(i as int)),
        decreases v@.len() - i,
    {
        assert(v@.take(i + 1).drop_last() =~= v@.take(i as int));
        if i > 0 {
            crate::text::push_str(&mut s, ", ");
        }
        crate::text::push_decimal(&mut s, v[i] as u64);
        i += 1;
        proof {
            if i == 1 {
                assert(v@.take(0) =~= Seq::<u8>::empty());
            }
        }
    }
    assert(v@.take(i as int) =~= v@);
    crate::text::push_str(&mut s, "]");
    s
}

/// The file a download URL asks for, and how.
#[derive(Clone, Debug)]
pub struct UrlFileParam {
    /// The file's id, when asked by id.
    pub file: u32,
    /// The file's hash, when asked by hash.
    pub hash: Option<[u8; 32]>,
    /// An access token.
    pub token: Option<Vec<u8>>,
    /// The name to download the file under.
    pub name: Option<String>,
    /// Whether to show the file in place.
    pub inline: bool,
}

/// The mathematical value of a [`UrlFileParam`].
pub struct UrlFileParamModel {
    pub file: u32,
    pub hash: Option<Seq<u8>>,
    pub token: Option<Seq<u8>>,
    pub name: Option<Seq<char>>,
    pub inline: bool,
}

/// The parameter once the query pairs `q` are read: the first `token` ends
/// the reading, `filename` names the download, `inline` shows it in place.
pub open spec fn with_query(p: UrlFileParamModel, q: Seq<(Seq<char>, Seq<char>)>) -> Result<UrlFileParamModel, Seq<char>>
    decreases q.len(),
{
    if q.len() == 0 {
        Ok(p)
    } else {
        let (k, v) = q[0];
        if k == "token"@ {
            match base64_url_decoded(v) {
                None => Err("failed to decode base64 token from "@ + v),
                Some(d) => Ok(UrlFileParamModel { token: Some(d), ..p }),
            }
        } else if k == "filename"@ {
            with_query(UrlFileParamModel { name: Some(v), ..p }, q.drop_first())
        } else if k == "inline"@ {
            with_query(UrlFileParamModel { inline: true, ..p }, q.drop_first())
        } else {
            with_query(p, q.drop_first())
        }
    }
}

/// The segment `i` of `segs`, or empty text past the end.
pub open spec fn segment_or_empty(segs: Seq<Seq<char>>, i: int) -> Seq<char> {
    if i < segs.len() { segs[i] } else { Seq::empty() }
}

/// What a download URL asks for: `/f/<id>` or `/h/<hex hash>`, then an
/// optional last segment naming the download, and query pairs.
pub open spec fn url_file_param(req: Seq<char>) -> Result<UrlFileParamModel, Seq<char>> {
    let full = if req.len() > 0 && req[0] == '/' { "http://localhost"@ + req } else { req };
    match url_parts_of(full) {
        None => Err("invalid url: "@ + req),
        Some(u) => url_param_of_parts(u, req),
    }
}

/// What a download URL `req` asks for, once the URL is read as `u`.
pub open spec fn url_param_of_parts(u: UrlPartsModel, req: Seq<char>) -> Result<UrlFileParamModel, Seq<char>> {
    match u.segments {
        None => Err("invalid url path: "@ + req),
        Some(segs) => {
            let first = if segs.len() > 0 { Some(segs[0]) } else { None };
            let start: Result<UrlFileParamModel, Seq<char>> = if first == Some("f"@) {
                match parsed_u32(segment_or_empty(segs, 1)) {
                    None => Err("invalid file id"@),
                    Some(id) => Ok(UrlFileParamModel { file: id, hash: None, token: None, name: None, inline: false }),
                }
            } else if first == Some("h"@) {
                let val = segment_or_empty(segs, 1);
                if !crate::bytes::hex_ok(val) {
                    Err(crate::bytes::hex_error_text(val))
                } else if crate::bytes::hex_bytes(val).len() != 32 {
                    Err(bytes_debug(crate::bytes::hex_bytes(val)))
                } else {
                    Ok(UrlFileParamModel { file: 0, hash: Some(crate::bytes::hex_bytes(val)), token: None, name: None, inline: false })
                }
            } else {
                Err("invalid url path: "@ + req)
            };
            match start {
                Err(e) => Err(e),
                Ok(p) => finished(with_query(p, u.query), segs),
            }
        },
    }
}

/// The parameter once the query is read and a third path segment, if any,
/// names the download.
pub open spec fn finished(r: Result<UrlFileParamModel, Seq<char>>, segs: Seq<Seq<char>>) -> Result<UrlFileParamModel, Seq<char>> {
    match r {
        Err(e) => Err(e),
        Ok(q) => if segs.len() > 2 {
            Ok(UrlFileParamModel { name: Some(segs[2]), ..q })
        } else {
            Ok(q)
        },
    }
}

pub open spec fn opt_bytes_view(o: Option<Vec<u8>>) -> Option<Seq<u8>> {
    match o {
        Some(v) => Some(v@),
        None => None,
    }
}

impl UrlFileParam {
    pub open spec fn model(self) -> UrlFileParamModel {
        UrlFileParamModel {
            file: self.file,
            hash: match self.hash {
                Some(h) => Some(h@),
                None => None,
            },
            token: opt_bytes_view(self.token),
            name: opt_text(self.name),
            inline: self.inline,
        }
    }

    /// Reads what a download URL (absolute, or a path from `/`) asks for.
    pub fn from_url(req_url: &str) -> (r: Result<UrlFileParam, String>)
        ensures
            match url_file_param(req_url@) {
                Ok(p) => r matches Ok(x) && x.model() == p,
                Err(e) => r matches Err(x) && x@ == e,
            },
    {
        let rc = chars_of(req_url);
        let full = if rc.len() > 0 && rc[0] == '/' {
            let mut f = owned("http://localhost");
            crate::text::push_str(&mut f, req_url);
            f
        } else {
            owned(req_url)
        };
        let parts = match parse_url(full.as_str()) {
            None => {
                let mut e = owned("invalid url: ");
                crate::text::push_str(&mut e, req_url);
                return Err(e);
            },
            Some(u) => u,
        };
        Self::url_param_of(parts, req_url)
    }

    /// What the download URL `req_url` asks for, once it is read as `parts`:
    /// `/f/<id>` or `/h/<hex hash>`, then an optional last segment naming the
    /// download, and query pairs.
    pub fn url_param_of(parts: UrlParts, req_url: &str) -> (r: Result<UrlFileParam, String>)
        ensures
            match url_param_of_parts(parts_model(parts), req_url@) {
                Ok(p) => r matches Ok(x) && x.model() == p,
                Err(e) => r matches Err(x) && x@ == e,
            },
    {
        proof {
            reveal_strlit("f");
            reveal_strlit("h");
        }
        let ghost pm = parts_model(parts);
        let segs = match parts.segments {
            None => {
                let mut e = owned("invalid url path: ");
                crate::text::push_str(&mut e, req_url);
                return Err(e);
            },
            Some(v) => v,
        };
        let ghost sv = views(segs@);
        assert(pm.segments == Some(sv));
        assert(pm.query == pair_views(parts.query@));
        let second: String = if segs.len() > 1 { segs[1].clone() } else { String::new() };
        assert(second@ == segment_or_empty(sv, 1));
        let first_is_f = segs.len() > 0 && str_eq(segs[0].as_str(), "f");
        let first_is_h = segs.len() > 0 && str_eq(segs[0].as_str(), "h");
        assert(segs@.len() > 0 ==> sv[0] == segs@[0]@);
        let mut param = if first_is_f {
            match parse_u32(second.as_str()) {
                None => {
                    return Err(owned("invalid file id"));
                },
                Some(id) => UrlFileParam { file: id, hash: None, token: None, name: None, inline: false },
            }
        } else if first_is_h {
            let data = match crate::bytes::hex_decode(second.as_str()) {
                Err(e) => {
                    return Err(e);
                },
                Ok(d) => d,
            };
            match crate::bytes::Bytes32::try_from_slice(data.as_slice()) {
                Err(_) => {
                    return Err(debug_bytes(&data));
                },
                Ok(b) => UrlFileParam { file: 0, hash: Some(b.0), token: None, name: None, inline: false },
            }
        } else {
            let mut e = owned("invalid url path: ");
            crate::text::push_str(&mut e, req_url);
            return Err(e);
        };
        let ghost p0 = param.model();
        let ghost q = pair_views(parts.query@);
        assert(q.subrange(0, q.len() as int) =~= q);
        assert(url_param_of_parts(pm, req_url@) == finished(with_query(p0, q), sv));
        let mut i: usize = 0;
        while i < parts.query.len()
            invariant
                q == pair_views(parts.query@),
                i <= q.len(),
                sv == views(segs@),
                pm == parts_model(parts),
                url_param_of_parts(pm, req_url@) == finished(with_query(p0, q), sv),
                with_query(p0, q) == with_query(param.model(), q.subrange(i as int, q.len() as int)),
            ensures
                url_param_of_parts(pm, req_url@) == finished(with_query(p0, q), sv),
                with_query(p0, q) == Ok::<UrlFileParamModel, Seq<char>>(param.model()),
            decreases q.len() - i,
        {
            proof {
                reveal_strlit("token");
                reveal_strlit("filename");
                reveal_strlit("inline");
            }
            let ghost rest = q.subrange(i as int, q.len() as int);
            assert(rest[0] == (parts.query@[i as int].0@, parts.query@[i as int].1@));
            assert(rest.drop_first() =~= q.subrange(i + 1, q.len() as int));
            let key = parts.query[i].0.as_str();
            let value = parts.query[i].1.as_str();
            if str_eq(key, "token") {
                match base64_url_decode(value) {
                    None => {
                        let mut e = owned("failed to decode base64 token from ");
                        crate::text::push_str(&mut e, value);
                        return Err(e);
                    },
                    Some(d) => {
                        param.token = Some(d);
                        assert(param.model().token == base64_url_decoded(rest[0].1));
                        break;
                    },
                }
            } else if str_eq(key, "filename") {
                param.name = Some(owned(value));
            } else if str_eq(key, "inline") {
                param.inline = true;
            }
            i += 1;
        }
        assert(i == q.len() ==> q.subrange(i as int, q.len() as int) =~= Seq::<(Seq<char>, Seq<char>)>::empty());
        if segs.len() > 2 {
            param.name = Some(segs[2].clone());
            assert(sv[2] == segs@[2]@);
        }
        Ok(param)
    }
}

} // verus!
