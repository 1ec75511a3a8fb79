//! What a client of a bucket keeps while it uploads a file: the progress, the
//! outcome, and the splitting of the content into chunks.
use vstd::prelude::*;
use crate::file::UpdateFileInput;
use crate::ids::{ordered, IdSet};
use crate::object_types::{GetRange, ObjectMeta, CHUNK_SIZE};
use crate::codec::{derive_gcm_nonce, gcm_nonce};
use crate::text::{decimal, owned, push_decimal, push_str};

verus! {

/// The outcome of uploading the chunks of a file.
#[derive(Clone, Debug, Default)]
pub struct UploadFileChunksResult {
    pub id: u32,
    pub filled: u64,
    /// The indexes of the chunks uploaded, in increasing order.
    pub uploaded_chunks: Vec<u32>,
    /// The error that stopped the upload, if one did.
    pub error: Option<String>,
}

/// How far an upload has come.
#[derive(Clone, Debug, Default)]
pub struct Progress {
    pub filled: u64,
    /// The size of the file, when known.
    pub size: Option<u64>,
    pub chunk_index: u32,
    pub concurrency: u8,
}

/// Splits a stream of bytes into chunks of a fixed length.
#[derive(Clone, Copy, Debug)]
pub struct ChunksCodec(pub u32);

impl ChunksCodec {
    /// A splitter into chunks of `len` bytes.
    pub fn new(len: u32) -> (r: ChunksCodec)
        ensures
            r.0 == len,
    {
        ChunksCodec(len)
    }

    /// Takes the next chunk off the front of `buf` once it holds a whole one.
    pub fn decode(&self, buf: &mut Vec<u8>) -> (r: Option<Vec<u8>>)
        ensures
            old(buf)@.len() >= self.0 ==> (r matches Some(c) && c@ == old(buf)@.take(self.0 as int) && final(buf)@
                == old(buf)@.skip(self.0 as int)),
            old(buf)@.len() < self.0 ==> (r is None && final(buf)@ == old(buf)@),
    {
        let n = self.0 as usize;
        if buf.len() >= n {
            Some(split_front(buf, n))
        } else {
            None
        }
    }

    /// At the end of the stream: whatever is left, as a last chunk.
    pub fn decode_eof(&self, buf: &mut Vec<u8>) -> (r: Option<Vec<u8>>)
        ensures
            old(buf)@.len() == 0 ==> (r is None && final(buf)@ == old(buf)@),
            old(buf)@.len() > 0 ==> (r matches Some(c) && c@ == old(buf)@ && final(buf)@.len() == 0),
    {
        if buf.len() == 0 {
            None
        } else {
            let n = buf.len();
            Some(split_front(buf, n))
        }
    }
}

/// Takes the first `n` bytes off `buf`.
fn split_front(buf: &mut Vec<u8>, n: usize) -> (r: Vec<u8>)
    requires
        n <= old(buf)@.len(),
    ensures
        r@ == old(buf)@.take(n as int),
        final(buf)@ == old(buf)@.skip(n as int),
{
    let mut front: Vec<u8> = Vec::new();
    let mut rest: Vec<u8> = Vec::new();
    let mut i: usize = 0;
    while i < buf.len()
        invariant
            buf@ == old(buf)@,
            n <= buf@.len(),
            i <= buf@.len(),
            i <= n ==> front@ == buf@.take(i as int) && rest@.len() == 0,
            i > n ==> front@ == buf@.take(n as int) && rest@ == buf@.subrange(n as int, i as int),
        decreases buf@.len() - i,
    {
        if i < n {
            front.push(buf[i]);
            assert(buf@.take(i + 1) =~= buf@.take(i as int).push(buf@[i as int]));
        } else {
            rest.push(buf[i]);
            assert(buf@.subrange(n as int, i + 1) =~= buf@.subrange(n as int, i as int).push(buf@[i as int]));
        }
        i += 1;
    }
    proof {
        if i <= n {
            assert(buf@.skip(n as int) =~= Seq::<u8>::empty());
        } else {
            assert(buf@.skip(n as int) =~= buf@.subrange(n as int, i as int));
        }
    }
    *buf = rest;
    front
}

// ---------------------------------------------------------------- chunk uploads

/// What to do with the next chunk read from the content.
#[derive(Clone, Debug)]
pub enum ChunkStep {
    /// It was uploaded before: it only counts, and the progress is reported.
    Skip(Progress),
    /// Upload it under this index.
    Send(u32),
}

/// The state of an upload of the chunks of file `id`: the index of the next
/// chunk, the bytes counted so far, the chunks uploaded before the upload
/// began, and the chunks uploaded so far (those included).
#[derive(Debug)]
pub struct ChunkUploads {
    id: u32,
    size: Option<u64>,
    next: u32,
    filled: u64,
    before: IdSet,
    uploaded: IdSet,
}

impl ChunkUploads {
    pub closed spec fn file(&self) -> u32 {
        self.id
    }

    pub closed spec fn declared_size(&self) -> Option<u64> {
        self.size
    }

    pub closed spec fn next_index(&self) -> u32 {
        self.next
    }

    pub closed spec fn counted(&self) -> u64 {
        self.filled
    }

    pub closed spec fn uploaded_before(&self) -> Set<u32> {
        self.before@
    }

    pub closed spec fn uploaded(&self) -> Set<u32> {
        self.uploaded@
    }

    /// An upload of the chunks of file `id`, of `size` bytes when known,
    /// where the chunks `done` were uploaded before.
    pub fn new(id: u32, size: Option<u64>, done: &Vec<u32>) -> (r: ChunkUploads)
        ensures
            r.file() == id,
            r.declared_size() == size,
            r.next_index() == 0,
            r.counted() == 0,
            r.uploaded_before() == done@.to_set(),
            r.uploaded() == done@.to_set(),
    {
        let mut before = IdSet::new();
        let mut i: usize = 0;
        while i < done.len()
            invariant
                i <= done@.len(),
                before@ == done@.take(i as int).to_set(),
            decreases done@.len() - i,
        {
            before.insert(done[i]);
            assert(done@.take(i + 1) =~= done@.take(i as int).push(done@[i as int]));
            proof {
                done@.take(i as int).lemma_push_to_set_commute(done@[i as int]);
            }
            i += 1;
        }
        assert(done@.take(i as int) =~= done@);
        let uploaded = before.copy();
        ChunkUploads { id, size, next: 0, filled: 0, before, uploaded }
    }

    /// Takes the next chunk read, of `len` bytes: one uploaded before only
    /// counts; any other is to be uploaded.
    pub fn read_chunk(&mut self, len: u32) -> (r: ChunkStep)
        requires
            old(self).next_index() < u32::MAX,
            old(self).counted() + len <= u64::MAX,
        ensures
            final(self).file() == old(self).file(),
            final(self).declared_size() == old(self).declared_size(),
            final(self).uploaded_before() == old(self).uploaded_before(),
            final(self).uploaded() == old(self).uploaded(),
            final(self).next_index() == old(self).next_index() + 1,
            old(self).uploaded_before().contains(old(self).next_index()) ==> final(self).counted() == old(self).counted()
                + len && (r matches ChunkStep::Skip(p) && p.filled == final(self).counted() && p.size
                == old(self).declared_size() && p.chunk_index == old(self).next_index() && p.concurrency == 0),
            !old(self).uploaded_before().contains(old(self).next_index()) ==> final(self).counted()
                == old(self).counted() && r == ChunkStep::Send(old(self).next_index()),
    {
        let index = self.next;
        self.next = index + 1;
        if self.before.contains(index) {
            self.filled = self.filled + len as u64;
            ChunkStep::Skip(Progress { filled: self.filled, size: self.size, chunk_index: index, concurrency: 0 })
        } else {
            ChunkStep::Send(index)
        }
    }

    /// Records that chunk `chunk_index`, of `len` bytes, was uploaded, the
    /// bucket having `filled` bytes of the file after it, while `concurrency`
    /// uploads were under way; returns the progress to report.
    pub fn chunk_uploaded(&mut self, chunk_index: u32, len: u32, filled: u64, concurrency: u8) -> (r: Progress)
        requires
            old(self).counted() + len <= u64::MAX,
        ensures
            final(self).file() == old(self).file(),
            final(self).declared_size() == old(self).declared_size(),
            final(self).uploaded_before() == old(self).uploaded_before(),
            final(self).next_index() == old(self).next_index(),
            final(self).counted() == old(self).counted() + len,
            final(self).uploaded() == old(self).uploaded().insert(chunk_index),
            r.filled == filled && r.size == old(self).declared_size() && r.chunk_index == chunk_index
                && r.concurrency == concurrency,
    {
        self.filled = self.filled + len as u64;
        self.uploaded.insert(chunk_index);
        Progress { filled, size: self.size, chunk_index, concurrency }
    }

    /// The change that commits the uploaded file: its hash (the one given,
    /// else the one computed over the content), its size when known, and
    /// read-only when asked.
    pub fn commit_input(&self, hash: Option<[u8; 32]>, computed: [u8; 32], readonly: bool) -> (r: UpdateFileInput)
        ensures
            r.id == self.file(),
            r.hash == Some(match hash {
                Some(h) => h,
                None => computed,
            }),
            r.status == (if readonly { Some(1i8) } else { None }),
            r.size == self.declared_size(),
            r.name is None,
            r.content_type is None,
            r.by_hash is None,
    {
        UpdateFileInput {
            id: self.id,
            name: None,
            content_type: None,
            status: if readonly {
                Some(1)
            } else {
                None
            },
            size: self.size,
            by_hash: None,
            hash: Some(
                match hash {
                    Some(h) => h,
                    None => computed,
                },
            ),
        }
    }

    /// The outcome of the upload, with the error that stopped it, if one did.
    pub fn finish(self, error: Option<String>) -> (r: UploadFileChunksResult)
        ensures
            r.id == self.file(),
            r.filled == self.counted(),
            r.uploaded_chunks@ == ordered(self.uploaded()),
            r.error == error,
    {
        self.uploaded.seq_facts();
        UploadFileChunksResult { id: self.id, filled: self.filled, uploaded_chunks: self.uploaded.to_vec(), error }
    }
}

// ---------------------------------------------------------------- reads

/// The message of a range that starts at or past the end of a `len`-byte object.
pub open spec fn start_too_large(start: u64, len: u64) -> Seq<char> {
    "Wanted range starting at "@ + decimal(start as nat) + ", but object was only "@ + decimal(len as nat)
        + " bytes long"@
}

/// The end-exclusive bytes of a `len`-byte object that `r` selects, or why
/// it selects none (`object_store::GetRange::as_range`).
pub open spec fn range_in(r: GetRange, len: u64) -> Result<(u64, u64), Seq<char>> {
    match r {
        GetRange::Bounded(start, end) => if end <= start {
            Err("Range started at "@ + decimal(start as nat) + " and ended at "@ + decimal(end as nat))
        } else if end - start > usize::MAX {
            Err("Range "@ + decimal(start as nat) + " is larger than system memory limit "@ + decimal(
                usize::MAX as nat,
            ))
        } else if start >= len {
            Err(start_too_large(start, len))
        } else if end > len {
            Ok((start, len))
        } else {
            Ok((start, end))
        },
        GetRange::Offset(o) => if o >= len {
            Err(start_too_large(o, len))
        } else {
            Ok((o, len))
        },
        GetRange::Suffix(n) => Ok((if len >= n { (len - n) as u64 } else { 0 }, len)),
    }
}

/// The bytes of a `len`-byte object that `r` selects
/// (`object_store::GetRange::as_range`), with its error as text; the source
/// states the result, and so does the contract.
#[verifier::external_body]
fn range_within(r: &GetRange, len: u64) -> (out: Result<(u64, u64), String>)
    ensures
        match out {
            Ok(x) => range_in(*r, len) == Ok::<(u64, u64), Seq<char>>(x),
            Err(e) => range_in(*r, len) == Err::<(u64, u64), Seq<char>>(e@),
        },
{
    let g = match r {
        GetRange::Bounded(a, b) => object_store::GetRange::Bounded(*a..*b),
        GetRange::Offset(o) => object_store::GetRange::Offset(*o),
        GetRange::Suffix(n) => object_store::GetRange::Suffix(*n),
    };
    match g.as_range(len) {
        Ok(x) => Ok((x.start, x.end)),
        Err(e) => Err(e.to_string()),
    }
}

/// The bytes a read asks of a `size`-byte object: those `range` selects, or
/// all of them.
pub fn asked_range(range: &Option<GetRange>, size: u64) -> (out: Result<(u64, u64), String>)
    ensures
        match range {
            None => out == Ok::<(u64, u64), String>((0, size)),
            Some(r) => match out {
                Ok(x) => range_in(*r, size) == Ok::<(u64, u64), Seq<char>>(x),
                Err(e) => range_in(*r, size) == Err::<(u64, u64), Seq<char>>(e@),
            },
        },
{
    match range {
        None => Ok((0, size)),
        Some(r) => range_within(r, size),
    }
}

/// How the answer to a read is handed on: as the one piece that came, or as
/// a stream that fetches the rest of the bytes asked.
#[derive(Clone, Copy, Debug, PartialEq, Eq)]
pub enum ReadPlan {
    /// The bytes that came are the answer (a head read, or all that was asked).
    Whole { range: (u64, u64) },
    /// The bytes `first` came; the bytes `asked` are streamed, those first.
    Rest { asked: (u64, u64), first: (u64, u64) },
}

/// How a read is handed on once its first answer covered the bytes `first`
/// of a `size`-byte object: whole for a head read or when it covered all that
/// `range` asks; else streamed.
pub fn read_plan(range: &Option<GetRange>, head: bool, first: (u64, u64), size: u64) -> (out: Result<ReadPlan, String>)
    ensures
        ({
            let asked: Result<(u64, u64), Seq<char>> = match range {
                None => Ok((0, size)),
                Some(r) => range_in(*r, size),
            };
            match asked {
                Err(e) => out matches Err(x) && x@ == e,
                Ok(a) => if head || a == first {
                    out == Ok::<ReadPlan, String>(ReadPlan::Whole { range: first })
                } else {
                    out == Ok::<ReadPlan, String>(ReadPlan::Rest { asked: a, first })
                },
            }
        }),
{
    let asked = asked_range(range, size)?;
    if head || (asked.0 == first.0 && asked.1 == first.1) {
        Ok(ReadPlan::Whole { range: first })
    } else {
        Ok(ReadPlan::Rest { asked, first })
    }
}

/// The end of the last whole chunk that holds the bytes before `end`
/// (the first chunk's end when `end` is 0).
pub open spec fn chunk_ceiling(end: u64) -> int {
    let last: u64 = if end >= 1 { (end - 1) as u64 } else { 0 };
    (1 + last / CHUNK_SIZE) * CHUNK_SIZE
}

/// The whole chunks that hold the bytes `range.0..range.1` of an encrypted
/// object of `size` bytes: decryption needs each chunk whole.
pub fn decryption_window(range: (u64, u64), size: u64) -> (w: (u64, u64))
    requires
        range.0 <= range.1 <= size,
        size <= u64::MAX - CHUNK_SIZE,
    ensures
        w.0 == range.0 / CHUNK_SIZE * CHUNK_SIZE,
        w.1 == (if size < chunk_ceiling(range.1) { size as int } else { chunk_ceiling(range.1) }),
{
    let last = if range.1 >= 1 {
        range.1 - 1
    } else {
        0
    };
    assert(last / CHUNK_SIZE * CHUNK_SIZE <= last) by (nonlinear_arith)
        requires
            CHUNK_SIZE > 0,
    ;
    let up = (1 + last / CHUNK_SIZE) * CHUNK_SIZE;
    assert(range.0 / CHUNK_SIZE * CHUNK_SIZE <= range.0) by (nonlinear_arith)
        requires
            CHUNK_SIZE > 0,
    ;
    let start = range.0 / CHUNK_SIZE * CHUNK_SIZE;
    let end = if size < up {
        size
    } else {
        up
    };
    (start, end)
}

/// What a read of an encrypted object does: the whole chunks to fetch (and
/// whether to ask for them as a range, which an empty window does not), the
/// first chunk's index, where the bytes asked start in the first chunk, and
/// how many bytes are asked.
#[derive(Clone, Copy, Debug, PartialEq, Eq)]
pub struct DecryptionPlan {
    pub window: (u64, u64),
    pub ranged: bool,
    pub start_idx: u64,
    pub start_offset: u64,
    pub size: u64,
}

/// The bytes a read asks of a `size`-byte object, or why `range` cannot be
/// served.
pub open spec fn asked_of(range: Option<GetRange>, size: u64) -> Result<(u64, u64), Seq<char>> {
    match range {
        None => Ok((0, size)),
        Some(r) => range_in(r, size),
    }
}

/// `p` is the plan of reading the bytes `a` of an encrypted `size`-byte object.
pub open spec fn plan_for(p: DecryptionPlan, a: (u64, u64), size: u64) -> bool {
    &&& p.window.0 == a.0 / CHUNK_SIZE * CHUNK_SIZE
    &&& p.window.1 == (if size < chunk_ceiling(a.1) { size as int } else { chunk_ceiling(a.1) })
    &&& p.ranged == (p.window.1 > p.window.0)
    &&& p.start_idx == p.window.0 / CHUNK_SIZE
    &&& p.start_offset == a.0 - p.window.0
    &&& p.size == a.1 - a.0
}

/// The plan of a read of the bytes `range` selects (all when none) of an
/// encrypted object of `size` bytes.
pub fn decryption_plan(range: &Option<GetRange>, size: u64) -> (out: Result<DecryptionPlan, String>)
    requires
        size <= u64::MAX - CHUNK_SIZE,
    ensures
        match asked_of(*range, size) {
            Err(e) => out matches Err(x) && x@ == e,
            Ok(a) => out matches Ok(p) && plan_for(p, a, size),
        },
{
    let asked = asked_range(range, size)?;
    let w = decryption_window(asked, size);
    Ok(DecryptionPlan {
        window: w,
        ranged: w.1 > w.0,
        start_idx: w.0 / CHUNK_SIZE,
        start_offset: asked.0 - w.0,
        size: asked.1 - asked.0,
    })
}

/// Before an encrypted read: the read is pinned to the etag that the head of
/// the object gave, and planned over whole chunks. An object with no etag
/// cannot be pinned, and is refused.
pub fn encrypted_read(meta: &ObjectMeta, range: &Option<GetRange>) -> (out: Result<(String, DecryptionPlan), String>)
    requires
        meta.size <= u64::MAX - CHUNK_SIZE,
    ensures
        match meta.e_tag {
            None => out matches Err(x) && x@ == "missing object ETag"@,
            Some(t) => match asked_of(*range, meta.size) {
                Err(e) => out matches Err(x) && x@ == e,
                Ok(a) => out matches Ok((t2, p)) && t2@ == t@ && plan_for(p, a, meta.size),
            },
        },
{
    let etag = match &meta.e_tag {
        None => {
            return Err(owned("missing object ETag"));
        },
        Some(t) => t.clone(),
    };
    let plan = decryption_plan(range, meta.size)?;
    Ok((etag, plan))
}

/// The keys an encrypted read of `location` decrypts with: the tags of its
/// chunks and the nonce they derive from, both from the object's head.
pub fn decryption_keys(meta: ObjectMeta, location: &str) -> (out: Result<(Vec<[u8; 16]>, [u8; 12]), String>)
    ensures
        match (meta.aes_tags, meta.aes_nonce) {
            (None, _) => out matches Err(x) && x@ == "missing AES256 tags for path "@ + location@,
            (Some(_), None) => out matches Err(x) && x@ == "missing AES256 nonce for path "@ + location@,
            (Some(t), Some(n)) => out matches Ok((t2, n2)) && t2@ == t@ && n2 == n,
        },
{
    let tags = match meta.aes_tags {
        None => {
            let mut e = owned("missing AES256 tags for path ");
            push_str(&mut e, location);
            return Err(e);
        },
        Some(t) => t,
    };
    let nonce = match meta.aes_nonce {
        None => {
            let mut e = owned("missing AES256 nonce for path ");
            push_str(&mut e, location);
            return Err(e);
        },
        Some(n) => n,
    };
    Ok((tags, nonce))
}

/// One sealed chunk of an encrypted read, ready for the cipher: its index,
/// its bytes, the nonce derived for it and its tag.
#[derive(Clone, Debug)]
pub struct SealedChunk {
    pub idx: u64,
    pub bytes: Vec<u8>,
    pub nonce: [u8; 12],
    pub tag: [u8; 16],
}

/// The re-assembly of an encrypted read: the bytes that came and are not yet
/// cut into chunks, the index of the next chunk, how many bytes are still
/// asked, where the asked bytes start in the first chunk, and the keys.
#[derive(Clone, Debug)]
pub struct DecryptionStream {
    pub buf: Vec<u8>,
    pub idx: u64,
    pub remaining: u64,
    pub start_idx: u64,
    pub start_offset: u64,
    pub tags: Vec<[u8; 16]>,
    pub base_nonce: [u8; 12],
}

/// The message for a chunk with no tag.
pub open spec fn missing_tag(idx: u64, location: Seq<char>) -> Seq<char> {
    "missing AES256 tag for chunk "@ + decimal(idx as nat) + " for path "@ + location
}

/// The asked part of chunk `idx` once opened: the first chunk loses the bytes
/// before the start, and no chunk gives more than is still asked.
pub open spec fn opened_piece(plain: Seq<u8>, idx: u64, start_idx: u64, start_offset: u64, remaining: u64) -> Seq<u8> {
    let p = if idx == start_idx { plain.subrange(start_offset as int, plain.len() as int) } else { plain };
    if p.len() > remaining { p.subrange(0, remaining as int) } else { p }
}

impl DecryptionStream {
    /// The start of a read planned by `plan`, with its keys.
    pub fn new(plan: &DecryptionPlan, tags: Vec<[u8; 16]>, base_nonce: [u8; 12]) -> (r: DecryptionStream)
        ensures
            r.buf@ == Seq::<u8>::empty(),
            r.idx == plan.start_idx,
            r.remaining == plan.size,
            r.start_idx == plan.start_idx,
            r.start_offset == plan.start_offset,
            r.tags@ == tags@,
            r.base_nonce == base_nonce,
    {
        DecryptionStream {
            buf: Vec::new(),
            idx: plan.start_idx,
            remaining: plan.size,
            start_idx: plan.start_idx,
            start_offset: plan.start_offset,
            tags,
            base_nonce,
        }
    }

    /// Takes bytes that came; once nothing more is asked the read stops
    /// (`false`) and they are left.
    pub fn push(&mut self, data: &[u8]) -> (more: bool)
        ensures
            more == (old(self).remaining > 0),
            more ==> final(self).buf@ == old(self).buf@ + data@,
            !more ==> final(self).buf@ == old(self).buf@,
            final(self).idx == old(self).idx,
            final(self).remaining == old(self).remaining,
            final(self).start_idx == old(self).start_idx,
            final(self).start_offset == old(self).start_offset,
            final(self).tags@ == old(self).tags@,
            final(self).base_nonce == old(self).base_nonce,
    {
        if self.remaining == 0 {
            return false;
        }
        self.buf.extend_from_slice(data);
        true
    }

    /// The next whole chunk to open, while bytes are still asked and a whole
    /// chunk has come; refused when the chunk has no tag.
    pub fn next_sealed(&mut self, location: &str) -> (r: Result<Option<SealedChunk>, String>)
        ensures
            final(self).idx == old(self).idx,
            final(self).remaining == old(self).remaining,
            final(self).start_idx == old(self).start_idx,
            final(self).start_offset == old(self).start_offset,
            final(self).tags@ == old(self).tags@,
            final(self).base_nonce == old(self).base_nonce,
            !(old(self).remaining > 0 && old(self).buf@.len() >= CHUNK_SIZE) ==> r == Ok::<Option<SealedChunk>, String>(None)
                && final(self).buf@ == old(self).buf@,
            old(self).remaining > 0 && old(self).buf@.len() >= CHUNK_SIZE && old(self).idx >= old(self).tags@.len() ==> (
            r matches Err(e) && e@ == missing_tag(old(self).idx, location@) && final(self).buf@ == old(self).buf@),
            old(self).remaining > 0 && old(self).buf@.len() >= CHUNK_SIZE && old(self).idx < old(self).tags@.len() ==> (
            r matches Ok(Some(c)) && c.idx == old(self).idx && c.bytes@ == old(self).buf@.subrange(0, CHUNK_SIZE as int)
                && c.nonce@ == gcm_nonce(old(self).base_nonce@, old(self).idx) && c.tag == old(self).tags@[old(
            self).idx as int] && final(self).buf@ == old(self).buf@.subrange(CHUNK_SIZE as int, old(self).buf@.len() as int)),
    {
        if self.remaining == 0 || (self.buf.len() as u64) < CHUNK_SIZE {
            return Ok(None);
        }
        self.sealed(CHUNK_SIZE as usize, location)
    }

    /// At the end of the bytes: the last, partial chunk to open, if bytes are
    /// still asked and some came; refused when it has no tag.
    pub fn last_sealed(&mut self, location: &str) -> (r: Result<Option<SealedChunk>, String>)
        ensures
            final(self).idx == old(self).idx,
            final(self).remaining == old(self).remaining,
            final(self).start_idx == old(self).start_idx,
            final(self).start_offset == old(self).start_offset,
            final(self).tags@ == old(self).tags@,
            final(self).base_nonce == old(self).base_nonce,
            !(old(self).remaining > 0 && old(self).buf@.len() > 0) ==> r == Ok::<Option<SealedChunk>, String>(None)
                && final(self).buf@ == old(self).buf@,
            old(self).remaining > 0 && old(self).buf@.len() > 0 && old(self).idx >= old(self).tags@.len() ==> (
            r matches Err(e) && e@ == missing_tag(old(self).idx, location@) && final(self).buf@ == old(self).buf@),
            old(self).remaining > 0 && old(self).buf@.len() > 0 && old(self).idx < old(self).tags@.len() ==> (
            r matches Ok(Some(c)) && c.idx == old(self).idx && c.bytes@ == old(self).buf@ && c.nonce@ == gcm_nonce(
                old(self).base_nonce@,
                old(self).idx,
            ) && c.tag == old(self).tags@[old(self).idx as int] && final(self).buf@ == Seq::<u8>::empty()),
    {
        if self.remaining == 0 || self.buf.len() == 0 {
            return Ok(None);
        }
        let n = self.buf.len();
        self.sealed(n, location)
    }

    /// Cuts the first `n` bytes off as the chunk of the current index.
    fn sealed(&mut self, n: usize, location: &str) -> (r: Result<Option<SealedChunk>, String>)
        requires
            n <= old(self).buf@.len(),
        ensures
            final(self).idx == old(self).idx,
            final(self).remaining == old(self).remaining,
            final(self).start_idx == old(self).start_idx,
            final(self).start_offset == old(self).start_offset,
            final(self).tags@ == old(self).tags@,
            final(self).base_nonce == old(self).base_nonce,
            old(self).idx >= old(self).tags@.len() ==> (r matches Err(e) && e@ == missing_tag(old(self).idx, location@)
                && final(self).buf@ == old(self).buf@),
            old(self).idx < old(self).tags@.len() ==> (r matches Ok(Some(c)) && c.idx == old(self).idx && c.bytes@
                == old(self).buf@.subrange(0, n as int) && c.nonce@ == gcm_nonce(old(self).base_nonce@, old(self).idx)
                && c.tag == old(self).tags@[old(self).idx as int] && final(self).buf@ == old(self).buf@.subrange(
                n as int,
                old(self).buf@.len() as int,
            )),
    {
        if self.idx >= self.tags.len() as u64 {
            let mut e = owned("missing AES256 tag for chunk ");
            push_decimal(&mut e, self.idx);
            push_str(&mut e, " for path ");
            push_str(&mut e, location);
            return Err(e);
        }
        let tag = self.tags[self.idx as usize];
        let nonce = derive_gcm_nonce(&self.base_nonce, self.idx);
        let mut rest = self.buf.split_off(n);
        std::mem::swap(&mut self.buf, &mut rest);
        Ok(Some(SealedChunk { idx: self.idx, bytes: rest, nonce, tag }))
    }

    /// Hands on the asked part of the chunk just opened, `plain`, and moves to
    /// the next chunk.
    pub fn open(&mut self, plain: Vec<u8>) -> (piece: Vec<u8>)
        requires
            old(self).idx == old(self).start_idx ==> old(self).start_offset <= plain@.len(),
            old(self).idx < u64::MAX,
        ensures
            piece@ == opened_piece(plain@, old(self).idx, old(self).start_idx, old(self).start_offset, old(self).remaining),
            final(self).remaining == old(self).remaining - piece@.len(),
            final(self).idx == old(self).idx + 1,
            final(self).buf@ == old(self).buf@,
            final(self).start_idx == old(self).start_idx,
            final(self).start_offset == old(self).start_offset,
            final(self).tags@ == old(self).tags@,
            final(self).base_nonce == old(self).base_nonce,
    {
        let mut p = plain;
        let plen = p.len();
        if self.idx == self.start_idx {
            assert(self.start_offset <= plen);
            let at = self.start_offset as usize;
            assert(at == self.start_offset);
            p = p.split_off(at);
        }
        if p.len() as u64 > self.remaining {
            let keep = self.remaining as usize;
            assert(keep == self.remaining);
            p.truncate(keep);
        }
        assert(p@ == opened_piece(plain@, old(self).idx, old(self).start_idx, old(self).start_offset, old(self).remaining));
        self.remaining = self.remaining - p.len() as u64;
        self.idx = self.idx + 1;
        p
    }
}

} // verus!
