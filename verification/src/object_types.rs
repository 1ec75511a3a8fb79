//! The types of the object store: put modes, attributes, read options and
//! ranges, object descriptions and errors.
use vstd::prelude::*;
use std::ops::Range;
use crate::text::{decimal, owned, push_decimal, push_str, split_char, split_spec, str_eq, trim, trim_spec, views};

verus! {

/// The size of a part of an object.
pub const CHUNK_SIZE: u64 = 262144;

/// The most parts an object can have.
pub const MAX_PARTS: u64 = 1024;

/// The most bytes one call can carry.
pub const MAX_PAYLOAD_SIZE: u64 = 2048000;

/// How a put treats an object already at the path.
#[derive(Clone, Debug, Default, PartialEq, Eq)]
pub enum PutMode {
    /// Overwrite whatever is there.
    #[default]
    Overwrite,
    /// Fail if an object is there.
    Create,
    /// Replace the object only if its etag matches.
    Update(UpdateVersion),
}

/// The version of an object that a conditional put expects, and the result of a put.
#[derive(Clone, Debug, Default, PartialEq, Eq)]
pub struct UpdateVersion {
    pub e_tag: Option<String>,
    pub version: Option<String>,
}

/// The outcome of a put: the new object's etag and version.
pub type PutResult = UpdateVersion;

/// An attribute of an object.
#[derive(Clone, Debug, PartialEq, Eq, PartialOrd, Ord)]
pub enum Attribute {
    ContentDisposition,
    ContentEncoding,
    ContentLanguage,
    ContentType,
    CacheControl,
    Metadata(String),
}

/// The options of a put.
#[derive(Clone, Debug, Default)]
pub struct PutOptions {
    pub mode: PutMode,
    pub tags: String,
    pub attributes: Vec<(Attribute, String)>,
    /// The nonce of AES-256-GCM encryption.
    pub aes_nonce: Option<[u8; 12]>,
    /// The AES-256-GCM tag of each part.
    pub aes_tags: Option<Vec<[u8; 16]>>,
}

/// The options of the completion of a multipart upload.
#[derive(Clone, Debug, Default)]
pub struct PutMultipartOptions {
    pub tags: String,
    pub attributes: Vec<(Attribute, String)>,
    pub aes_nonce: Option<[u8; 12]>,
    pub aes_tags: Option<Vec<[u8; 16]>>,
}

/// The part of an object to read.
#[derive(Clone, Copy, Debug, PartialEq, Eq)]
pub enum GetRange {
    /// Bytes `start..end`; an end past the object is cut to the object.
    Bounded(u64, u64),
    /// All bytes from an offset.
    Offset(u64),
    /// The last `n` bytes, or all of them.
    Suffix(u64),
}

/// The options of a read.
#[derive(Clone, Debug, Default)]
pub struct GetOptions {
    /// Succeed only if the etag is among these (comma separated), or `*`.
    pub if_match: Option<String>,
    /// Succeed only if the etag is not among these, nor `*`.
    pub if_none_match: Option<String>,
    /// Succeed only if modified after this time.
    pub if_modified_since: Option<u64>,
    /// Succeed only if not modified after this time.
    pub if_unmodified_since: Option<u64>,
    pub range: Option<GetRange>,
    pub version: Option<String>,
    /// Read the description only.
    pub head: bool,
}

/// The description of an object.
#[derive(Clone, Debug)]
pub struct ObjectMeta {
    pub location: String,
    /// Unix timestamp in milliseconds.
    pub last_modified: u64,
    pub size: u64,
    pub e_tag: Option<String>,
    pub version: Option<String>,
    pub aes_nonce: Option<[u8; 12]>,
    pub aes_tags: Option<Vec<[u8; 16]>>,
}

/// What a read returns.
#[derive(Debug)]
pub struct GetResult {
    pub payload: Vec<u8>,
    pub meta: ObjectMeta,
    pub range: (u64, u64),
    pub attributes: Vec<(Attribute, String)>,
}

/// What a listing returns.
#[derive(Clone, Debug, Default)]
pub struct ListResult {
    pub common_prefixes: Vec<String>,
    pub objects: Vec<ObjectMeta>,
}

/// The id of a multipart upload.
pub type MultipartId = String;

/// The id of an uploaded part.
#[derive(Clone, Debug)]
pub struct PartId {
    pub content_id: String,
}

/// An error of the object store.
#[derive(Clone, Debug, PartialEq, Eq)]
pub enum Error {
    Generic { error: String },
    NotFound { path: String },
    InvalidPath { path: String },
    NotSupported { error: String },
    AlreadyExists { path: String },
    Precondition { path: String, error: String },
    NotModified { path: String, error: String },
    NotImplemented,
    PermissionDenied { path: String, error: String },
    Unauthenticated { path: String, error: String },
    UnknownConfigurationKey { key: String },
}

/// The mathematical value of an [`Error`].
pub enum ErrorModel {
    Generic { error: Seq<char> },
    NotFound { path: Seq<char> },
    InvalidPath { path: Seq<char> },
    NotSupported { error: Seq<char> },
    AlreadyExists { path: Seq<char> },
    Precondition { path: Seq<char>, error: Seq<char> },
    NotModified { path: Seq<char>, error: Seq<char> },
    NotImplemented,
    PermissionDenied { path: Seq<char>, error: Seq<char> },
    Unauthenticated { path: Seq<char>, error: Seq<char> },
    UnknownConfigurationKey { key: Seq<char> },
}

impl View for Error {
    type V = ErrorModel;

    open spec fn view(&self) -> ErrorModel {
        match self {
            Error::Generic { error } => ErrorModel::Generic { error: error@ },
            Error::NotFound { path } => ErrorModel::NotFound { path: path@ },
            Error::InvalidPath { path } => ErrorModel::InvalidPath { path: path@ },
            Error::NotSupported { error } => ErrorModel::NotSupported { error: error@ },
            Error::AlreadyExists { path } => ErrorModel::AlreadyExists { path: path@ },
            Error::Precondition { path, error } => ErrorModel::Precondition { path: path@, error: error@ },
            Error::NotModified { path, error } => ErrorModel::NotModified { path: path@, error: error@ },
            Error::NotImplemented => ErrorModel::NotImplemented,
            Error::PermissionDenied { path, error } => ErrorModel::PermissionDenied { path: path@, error: error@ },
            Error::Unauthenticated { path, error } => ErrorModel::Unauthenticated { path: path@, error: error@ },
            Error::UnknownConfigurationKey { key } => ErrorModel::UnknownConfigurationKey { key: key@ },
        }
    }
}

/// The bytes `start..end` that a range asks for in an object of `len` bytes,
/// or why it cannot be served.
pub open spec fn range_in(r: GetRange, len: u64) -> Result<(u64, u64), Seq<char>> {
    match r {
        GetRange::Bounded(start, end) => if start >= end {
            Err("wanted range starting at "@ + decimal(start as nat) + " and ending at "@ + decimal(end as nat)
                + ", but start >= end"@)
        } else if start >= len {
            Err("wanted range starting at "@ + decimal(start as nat) + ", but object was only "@ + decimal(
                len as nat,
            ) + " bytes long"@)
        } else if end > len {
            Ok((start, len))
        } else {
            Ok((start, end))
        },
        GetRange::Offset(start) => if start >= len {
            Err("wanted range starting at "@ + decimal(start as nat) + ", but object was only "@ + decimal(
                len as nat,
            ) + " bytes long"@)
        } else {
            Ok((start, len))
        },
        GetRange::Suffix(n) => Ok((if len >= n { (len - n) as u64 } else { 0 }, len)),
    }
}

impl GetRange {
    /// The bytes of an object of `len` bytes that the range asks for.
    pub fn into_range(self, len: u64) -> (r: Result<Range<u64>, String>)
        ensures
            match range_in(self, len) {
                Ok((a, b)) => r matches Ok(x) && x.start == a && x.end == b,
                Err(e) => r matches Err(x) && x@ == e,
            },
            r matches Ok(x) ==> x.start <= x.end <= len,
    {
        match self {
            GetRange::Bounded(start, end) => {
                if start >= end {
                    let mut e = owned("wanted range starting at ");
                    push_decimal(&mut e, start);
                    push_str(&mut e, " and ending at ");
                    push_decimal(&mut e, end);
                    push_str(&mut e, ", but start >= end");
                    return Err(e);
                }
                if start >= len {
                    Err(range_past_end(start, len))
                } else if end > len {
                    Ok(start..len)
                } else {
                    Ok(start..end)
                }
            },
            GetRange::Offset(start) => {
                if start >= len {
                    Err(range_past_end(start, len))
                } else {
                    Ok(start..len)
                }
            },
            GetRange::Suffix(n) => Ok(len.saturating_sub(n)..len),
        }
    }
}

/// Why the byte range `start..end` does not lie within `len` bytes, if it does not.
pub open spec fn range_error(start: u64, end: u64, len: u64) -> Option<Seq<char>> {
    if start >= len {
        Some("start "@ + decimal(start as nat) + " is larger than length "@ + decimal(len as nat))
    } else if end <= start {
        Some("end "@ + decimal(end as nat) + " is less than start "@ + decimal(start as nat))
    } else if end > len {
        Some("end "@ + decimal(end as nat) + " is larger than length "@ + decimal(len as nat))
    } else {
        None
    }
}

/// The first `n` of `ranges` are non-empty and lie within `len` bytes.
pub open spec fn all_ranges_valid(ranges: Seq<Range<u64>>, n: int, len: u64) -> bool {
    forall|j: int| 0 <= j < n ==> (#[trigger] range_error(ranges[j].start, ranges[j].end, len)) == None::<Seq<char>>
}

/// Checks that each range is non-empty and lies within `len` bytes; the error
/// names the first range that does not.
pub fn ranges_is_valid(ranges: &[Range<u64>], len: u64) -> (r: Result<(), Error>)
    ensures
        (r is Ok <==> all_ranges_valid(ranges@, ranges@.len() as int, len)),
        (r matches Err(e) ==> exists|i: int|
            0 <= i < ranges@.len() && all_ranges_valid(ranges@, i, len) && ((#[trigger] range_error(
                ranges@[i].start,
                ranges@[i].end,
                len,
            )) matches Some(m) && e@ == (ErrorModel::Generic { error: m }))),
{
    let mut i: usize = 0;
    while i < ranges.len()
        invariant
            i <= ranges@.len(),
            all_ranges_valid(ranges@, i as int, len),
        decreases ranges@.len() - i,
    {
        let start = ranges[i].start;
        let end = ranges[i].end;
        if start >= len {
            let mut e = owned("start ");
            push_decimal(&mut e, start);
            push_str(&mut e, " is larger than length ");
            push_decimal(&mut e, len);
            return Err(Error::Generic { error: e });
        }
        if end <= start {
            let mut e = owned("end ");
            push_decimal(&mut e, end);
            push_str(&mut e, " is less than start ");
            push_decimal(&mut e, start);
            assert(range_error(ranges@[i as int].start, ranges@[i as int].end, len) == Some(e@));
            return Err(Error::Generic { error: e });
        }
        if end > len {
            let mut e = owned("end ");
            push_decimal(&mut e, end);
            push_str(&mut e, " is larger than length ");
            push_decimal(&mut e, len);
            return Err(Error::Generic { error: e });
        }
        i += 1;
    }
    Ok(())
}

/// The message for a range that starts at or past the end of the object.
fn range_past_end(start: u64, len: u64) -> (r: String)
    ensures
        r@ == "wanted range starting at "@ + decimal(start as nat) + ", but object was only "@ + decimal(
            len as nat,
        ) + " bytes long"@,
{
    let mut e = owned("wanted range starting at ");
    push_decimal(&mut e, start);
    push_str(&mut e, ", but object was only ");
    push_decimal(&mut e, len);
    push_str(&mut e, " bytes long");
    e
}

/// Whether `etag` is among the comma separated etags of `m` (each trimmed).
pub open spec fn etag_listed(m: Seq<char>, etag: Seq<char>) -> bool {
    exists|i: int| 0 <= i < split_spec(m, ',').len() && trim_spec(#[trigger] split_spec(m, ',')[i]) == etag
}

/// Whether `etag` is among the comma separated etags of `m`.
fn listed(m: &str, etag: &str) -> (r: bool)
    ensures
        r == etag_listed(m@, etag@),
{
    let pieces = split_char(m, ',');
    let mut i: usize = 0;
    while i < pieces.len()
        invariant
            views(pieces@) == split_spec(m@, ','),
            i <= pieces@.len(),
            forall|j: int| 0 <= j < i ==> trim_spec(#[trigger] split_spec(m@, ',')[j]) != etag@,
        decreases pieces@.len() - i,
    {
        let t = trim(pieces[i].as_str());
        assert(views(pieces@)[i as int] == pieces@[i as int]@);
        if str_eq(t.as_str(), etag) {
            assert(trim_spec(split_spec(m@, ',')[i as int]) == etag@);
            return true;
        }
        i += 1;
    }
    false
}

/// The etag that preconditions compare: the object's, or `*` when it has
/// none, which never matches.
pub open spec fn etag_or_star(e: Option<String>) -> Seq<char> {
    match e {
        Some(x) => x@,
        None => "*"@,
    }
}

/// Why the conditions of a read fail on the object at `location` with
/// `etag` (or `*`) and `lm`, if they do.
pub open spec fn precondition_failure_of(o: GetOptions, location: Seq<char>, etag: Seq<char>, lm: u64) -> Option<ErrorModel> {
    let first = match o.if_match {
        Some(m) => if m@ != "*"@ && !etag_listed(m@, etag) {
            Some(ErrorModel::Precondition { path: location, error: etag + " does not match "@ + m@ })
        } else {
            None
        },
        None => match o.if_unmodified_since {
            Some(date) => if lm > date {
                Some(ErrorModel::Precondition { path: location, error: decimal(date as nat) + " < "@ + decimal(lm as nat) })
            } else {
                None
            },
            None => None,
        },
    };
    if first is Some {
        first
    } else {
        match o.if_none_match {
            Some(m) => if m@ == "*"@ || etag_listed(m@, etag) {
                Some(ErrorModel::NotModified { path: location, error: etag + " matches "@ + m@ })
            } else {
                None
            },
            None => match o.if_modified_since {
                Some(date) => if lm <= date {
                    Some(
                        ErrorModel::NotModified {
                            path: location,
                            error: decimal(date as nat) + " >= "@ + decimal(lm as nat),
                        },
                    )
                } else {
                    None
                },
                None => None,
            },
        }
    }
}

/// Why the conditions of a read fail on the object `meta` describes, if they do.
pub open spec fn precondition_failure(o: GetOptions, meta: ObjectMeta) -> Option<ErrorModel> {
    precondition_failure_of(o, meta.location@, etag_or_star(meta.e_tag), meta.last_modified)
}

impl GetOptions {
    /// Checks the conditions of the read on the object described by `meta`.
    pub fn check_preconditions(&self, meta: &ObjectMeta) -> (r: Result<(), Error>)
        ensures
            match precondition_failure(*self, *meta) {
                Some(e) => r matches Err(x) && x@ == e,
                None => r is Ok,
            },
    {
        let star = owned("*");
        proof {
            reveal_strlit("*");
        }
        let etag: String = match &meta.e_tag {
            Some(e) => e.clone(),
            None => owned("*"),
        };
        if let Some(m) = &self.if_match {
            if !str_eq(m.as_str(), "*") && !listed(m.as_str(), etag.as_str()) {
                let mut e = etag.clone();
                push_str(&mut e, " does not match ");
                push_str(&mut e, m.as_str());
                return Err(Error::Precondition { path: meta.location.clone(), error: e });
            }
        } else if let Some(date) = self.if_unmodified_since {
            if meta.last_modified > date {
                let mut e = owned("");
                push_decimal(&mut e, date);
                push_str(&mut e, " < ");
                push_decimal(&mut e, meta.last_modified);
                proof {
                    reveal_strlit("");
                }
                return Err(Error::Precondition { path: meta.location.clone(), error: e });
            }
        }
        if let Some(m) = &self.if_none_match {
            if str_eq(m.as_str(), "*") || listed(m.as_str(), etag.as_str()) {
                let mut e = etag.clone();
                push_str(&mut e, " matches ");
                push_str(&mut e, m.as_str());
                return Err(Error::NotModified { path: meta.location.clone(), error: e });
            }
        } else if let Some(date) = self.if_modified_since {
            if meta.last_modified <= date {
                let mut e = owned("");
                push_decimal(&mut e, date);
                push_str(&mut e, " >= ");
                push_decimal(&mut e, meta.last_modified);
                proof {
                    reveal_strlit("");
                }
                return Err(Error::NotModified { path: meta.location.clone(), error: e });
            }
        }
        Ok(())
    }
}

} // verus!
