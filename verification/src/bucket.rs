//! The state of a bucket: its settings, the folder tree, the file metadata,
//! the file chunks and the hash index, with the file system operations on them.
use vstd::prelude::*;
use crate::file::{FileInfo, MAX_FILE_SIZE};
use crate::permission::Policies;
use crate::text::{decimal, owned, push_decimal, push_str};

verus! {

/// What a caller may do in a bucket, from least to most.
#[derive(Clone, Copy, Debug, PartialEq, Eq, PartialOrd)]
pub enum Role {
    User,
    Auditor,
    Manager,
}

impl Role {
    /// The position of the role in the order `User < Auditor < Manager`.
    pub open spec fn rank(self) -> nat {
        match self {
            Role::User => 0,
            Role::Auditor => 1,
            Role::Manager => 2,
        }
    }

    /// Whether the role is `other` or above it.
    pub fn at_least(&self, other: &Role) -> (b: bool)
        ensures
            b == (self.rank() >= other.rank()),
    {
        let a: u8 = match self {
            Role::User => 0,
            Role::Auditor => 1,
            Role::Manager => 2,
        };
        let b: u8 = match other {
            Role::User => 0,
            Role::Auditor => 1,
            Role::Manager => 2,
        };
        a >= b
    }
}

/// Who makes a request and what the request may do.
#[derive(Debug)]
pub struct Context {
    /// The caller's principal, as bytes.
    pub caller: Vec<u8>,
    pub ps: Policies,
    pub role: Role,
}


/// The settings of a bucket that its file system follows.
#[derive(Clone, Debug)]
pub struct Bucket {
    pub name: String,
    /// The id the next file gets.
    pub file_id: u32,
    /// The id the next folder gets; the root folder 0 exists from the start.
    pub folder_id: u32,
    pub max_file_size: u64,
    pub max_folder_depth: u8,
    pub max_children: u16,
    pub max_custom_data_size: u16,
    /// Whether files are indexed by their hash.
    pub enable_hash_index: bool,
    /// -1: archived; 0: readable and writable; 1: read-only.
    pub status: i8,
    /// 0: private; 1: public.
    pub visibility: u8,
    /// The principals, as bytes, that may read and write.
    pub managers: Vec<Vec<u8>>,
    /// The principals, as bytes, that may read and list even a private bucket.
    pub auditors: Vec<Vec<u8>>,
}

/// The settings of a new bucket.
pub open spec fn is_default_bucket(r: Bucket) -> bool {
    &&& r.name@ == "default"@
    &&& r.file_id == 0
    &&& r.folder_id == 1
    &&& r.max_file_size == MAX_FILE_SIZE
    &&& r.max_folder_depth == 10
    &&& r.max_children == 100
    &&& r.max_custom_data_size == 4096
    &&& !r.enable_hash_index
    &&& r.status == 0
    &&& r.visibility == 0
    &&& r.managers@.len() == 0
    &&& r.auditors@.len() == 0
}

impl Default for Bucket {
    fn default() -> (r: Self)
        ensures
            is_default_bucket(r),
    {
        proof {
            reveal_strlit("default");
        }
        Bucket {
            name: owned("default"),
            file_id: 0,
            folder_id: 1,
            max_file_size: MAX_FILE_SIZE,
            max_folder_depth: 10,
            max_children: 100,
            max_custom_data_size: 4096,
            enable_hash_index: false,
            status: 0,
            visibility: 0,
            managers: Vec::new(),
            auditors: Vec::new(),
        }
    }
}

/// A chunk of a file: the file's id and the chunk's index.
#[derive(Clone, Copy, Debug, Default, PartialEq, Eq)]
pub struct FileId(pub u32, pub u32);

/// The key under which chunk `idx` of file `id` is stored.
pub open spec fn chunk_key(id: u32, idx: u32) -> u64 {
    (id as int * 0x1_0000_0000 + idx as int) as u64
}

/// Distinct chunks have distinct keys.
pub proof fn lemma_chunk_key_injective(a: u32, b: u32, c: u32, d: u32)
    ensures
        chunk_key(a, b) == chunk_key(c, d) ==> a == c && b == d,
{
    assert(0 <= (a as int) * 0x1_0000_0000 + (b as int) <= 0xffff_ffff_ffff_ffff) by (nonlinear_arith);
    assert(0 <= (c as int) * 0x1_0000_0000 + (d as int) <= 0xffff_ffff_ffff_ffff) by (nonlinear_arith);
    if a as int * 0x1_0000_0000 + b as int == c as int * 0x1_0000_0000 + d as int {
        assert(a == c && b == d) by (nonlinear_arith)
            requires
                a as int * 0x1_0000_0000 + b as int == c as int * 0x1_0000_0000 + d as int,
                0 <= b < 0x1_0000_0000,
                0 <= d < 0x1_0000_0000,
                0 <= a,
                0 <= c,
        ;
    }
}

impl FileId {
    /// The key under which the chunk is stored.
    pub fn key(&self) -> (k: u64)
        ensures
            k == chunk_key(self.0, self.1),
    {
        assert(0 <= (self.0 as int) * 0x1_0000_0000 + (self.1 as int) <= 0xffff_ffff_ffff_ffff) by (nonlinear_arith);
        (self.0 as u64) * 0x1_0000_0000 + (self.1 as u64)
    }
}

/// The bytes of one chunk of a file.
#[derive(Clone, Debug, Default)]
pub struct Chunk(pub Vec<u8>);

/// File metadata as the bucket stores it.
#[derive(Clone, Debug, Default)]
pub struct FileMetadata {
    /// The folder holding the file; 0 is the root.
    pub parent: u32,
    pub name: String,
    /// The MIME type.
    pub content_type: String,
    /// The declared size in bytes; 0 while unknown.
    pub size: u64,
    /// The number of bytes uploaded so far.
    pub filled: u64,
    /// Unix timestamp in milliseconds.
    pub created_at: u64,
    /// Unix timestamp in milliseconds.
    pub updated_at: u64,
    /// The number of chunks, one past the highest chunk index written.
    pub chunks: u32,
    /// -1: archived; 0: readable and writable; 1: read-only.
    pub status: i8,
    /// The content's hash (SHA3-256 recommended).
    pub hash: Option<[u8; 32]>,
    /// The data encryption key, itself encrypted.
    pub dek: Option<Vec<u8>>,
    /// Whether the file's custom data has the `by_hash` key: then whoever
    /// presents the file's hash as a token may read it.
    pub by_hash: bool,
}

/// The mathematical value of a [`FileMetadata`].
#[verifier::ext_equal]
pub struct FileModel {
    pub parent: u32,
    pub name: Seq<char>,
    pub content_type: Seq<char>,
    pub size: u64,
    pub filled: u64,
    pub created_at: u64,
    pub updated_at: u64,
    pub chunks: u32,
    pub status: i8,
    pub hash: Option<Seq<u8>>,
    pub dek: Option<Seq<u8>>,
    pub by_hash: bool,
}

pub open spec fn hash_view(h: Option<[u8; 32]>) -> Option<Seq<u8>> {
    match h {
        Some(a) => Some(a@),
        None => None,
    }
}

impl View for FileMetadata {
    type V = FileModel;

    open spec fn view(&self) -> FileModel {
        FileModel {
            parent: self.parent,
            name: self.name@,
            content_type: self.content_type@,
            size: self.size,
            filled: self.filled,
            created_at: self.created_at,
            updated_at: self.updated_at,
            chunks: self.chunks,
            status: self.status,
            hash: hash_view(self.hash),
            dek: match self.dek {
                Some(d) => Some(d@),
                None => None,
            },
            by_hash: self.by_hash,
        }
    }
}

/// Whether two hashes are equal.
pub fn same_hash(a: &[u8; 32], b: &[u8; 32]) -> (r: bool)
    ensures
        r == (a@ == b@),
{
    let mut i: usize = 0;
    while i < 32
        invariant
            i <= 32,
            a@.len() == 32,
            b@.len() == 32,
            forall|j: int| 0 <= j < i ==> a@[j] == b@[j],
        decreases 32 - i,
    {
        if a[i] != b[i] {
            return false;
        }
        i += 1;
    }
    assert(a@ =~= b@);
    true
}

/// The hash index described by a list of entries: a later entry for the same
/// hash wins.
pub open spec fn index_map(v: Seq<([u8; 32], u32)>) -> Map<Seq<u8>, u32>
    decreases v.len(),
{
    if v.len() == 0 {
        Map::empty()
    } else {
        index_map(v.drop_last()).insert(v.last().0@, v.last().1)
    }
}

/// An entry for a hash other than `h` does not change what `h` maps to.
proof fn lemma_index_map_other(v: Seq<([u8; 32], u32)>, i: int, h: Seq<u8>)
    requires
        0 <= i <= v.len(),
        forall|j: int| i <= j < v.len() ==> (#[trigger] v[j]).0@ != h,
    ensures
        index_map(v).contains_key(h) == index_map(v.take(i)).contains_key(h),
        index_map(v).contains_key(h) ==> index_map(v)[h] == index_map(v.take(i))[h],
    decreases v.len() - i,
{
    if i < v.len() {
        assert(v.drop_last() =~= v.drop_last());
        lemma_index_map_other(v.drop_last(), i, h);
        assert(v.drop_last().take(i) =~= v.take(i));
    } else {
        assert(v.take(i) =~= v);
    }
}

/// The index from file hashes to file ids.
#[derive(Debug)]
pub struct HashIndex(Vec<([u8; 32], u32)>);

impl View for HashIndex {
    type V = Map<Seq<u8>, u32>;

    closed spec fn view(&self) -> Map<Seq<u8>, u32> {
        index_map(self.0@)
    }
}

impl HashIndex {
    /// An empty index.
    pub fn new() -> (r: HashIndex)
        ensures
            r@ == Map::<Seq<u8>, u32>::empty(),
    {
        HashIndex(Vec::new())
    }

    /// The file indexed under `hash`.
    pub fn get(&self, hash: &[u8; 32]) -> (r: Option<u32>)
        ensures
            match r {
                Some(id) => self@.contains_key(hash@) && self@[hash@] == id,
                None => !self@.contains_key(hash@),
            },
    {
        let mut i: usize = self.0.len();
        while i > 0
            invariant
                i <= self.0@.len(),
                forall|j: int| i <= j < self.0@.len() ==> (#[trigger] self.0@[j]).0@ != hash@,
            decreases i,
        {
            i -= 1;
            if same_hash(&self.0[i].0, hash) {
                proof {
                    lemma_index_map_other(self.0@, i + 1, hash@);
                    assert(self.0@.take(i + 1).drop_last() =~= self.0@.take(i as int));
                }
                return Some(self.0[i].1);
            }
        }
        proof {
            lemma_index_map_other(self.0@, 0, hash@);
        }
        None
    }

    /// Indexes file `id` under `hash`.
    pub fn insert(&mut self, hash: [u8; 32], id: u32)
        ensures
            final(self)@ == old(self)@.insert(hash@, id),
    {
        self.0.push((hash, id));
        proof {
            assert(self.0@.drop_last() =~= old(self).0@);
        }
    }

    /// Drops `hash` from the index.
    pub fn remove(&mut self, hash: &[u8; 32])
        ensures
            final(self)@ == old(self)@.remove(hash@),
    {
        let mut kept: Vec<([u8; 32], u32)> = Vec::new();
        let mut i: usize = 0;
        while i < self.0.len()
            invariant
                i <= self.0@.len(),
                index_map(kept@) == index_map(self.0@.take(i as int)).remove(hash@),
            decreases self.0@.len() - i,
        {
            let e = self.0[i];
            let ghost before = kept@;
            assert(self.0@.take(i + 1).drop_last() =~= self.0@.take(i as int));
            if !same_hash(&e.0, hash) {
                kept.push(e);
                assert(kept@.drop_last() =~= before);
                assert(index_map(kept@) =~= index_map(self.0@.take(i + 1)).remove(hash@));
            } else {
                assert(index_map(kept@) =~= index_map(self.0@.take(i + 1)).remove(hash@));
            }
            i += 1;
        }
        assert(self.0@.take(self.0@.len() as int) =~= self.0@);
        self.0 = kept;
    }
}


/// A copy of the bytes.
pub fn copy_bytes(v: &Vec<u8>) -> (r: Vec<u8>)
    ensures
        r@ == v@,
{
    let r = v.clone();
    assert(r@ =~= v@);
    r
}

impl FileMetadata {
    /// A copy of the metadata.
    pub fn copy(&self) -> (r: FileMetadata)
        ensures
            r@ == self@,
    {
        let dek = match &self.dek {
            Some(d) => Some(copy_bytes(d)),
            None => None,
        };
        FileMetadata {
            parent: self.parent,
            name: self.name.clone(),
            content_type: self.content_type.clone(),
            size: self.size,
            filled: self.filled,
            created_at: self.created_at,
            updated_at: self.updated_at,
            chunks: self.chunks,
            status: self.status,
            hash: self.hash,
            dek,
            by_hash: self.by_hash,
        }
    }

    /// Whether `token` lets its holder read the file without a grant: the
    /// file is not archived, its custom data allows reading by hash, and the
    /// token is the file's hash.
    pub fn read_by_hash(&self, token: &Option<Vec<u8>>) -> (r: bool)
        ensures
            r == readable_by_hash(self@, opt_token(*token)),
    {
        match token {
            None => false,
            Some(t) => {
                if self.status < 0 || !self.by_hash {
                    return false;
                }
                match &self.hash {
                    None => false,
                    Some(h) => crate::access::same_bytes(h.as_slice(), t.as_slice()),
                }
            },
        }
    }

    /// The file as seen from outside, under the id `id`.
    pub fn into_info(self, id: u32) -> (r: FileInfo)
        ensures
            file_info_of(r, id, self@),
    {
        FileInfo {
            id,
            parent: self.parent,
            name: self.name,
            content_type: self.content_type,
            size: self.size,
            filled: self.filled,
            created_at: self.created_at,
            updated_at: self.updated_at,
            chunks: self.chunks,
            status: self.status,
            hash: self.hash,
            dek: self.dek,
        }
    }
}

/// The view of an optional token.
pub open spec fn opt_token(t: Option<Vec<u8>>) -> Option<Seq<u8>> {
    match t {
        Some(v) => Some(v@),
        None => None,
    }
}

/// Whether the holder of `token` may read file `f` without a grant: the file
/// is not archived, allows reading by hash, and the token is its hash.
pub open spec fn readable_by_hash(f: FileModel, token: Option<Seq<u8>>) -> bool {
    token is Some && f.status >= 0 && f.by_hash && f.hash is Some && f.hash->0 == token->0
}

/// `info` describes file `f` under the id `id`.
pub open spec fn file_info_of(info: FileInfo, id: u32, f: FileModel) -> bool {
    &&& info.id == id
    &&& info.parent == f.parent
    &&& info.name@ == f.name
    &&& info.content_type@ == f.content_type
    &&& info.size == f.size
    &&& info.filled == f.filled
    &&& info.created_at == f.created_at
    &&& info.updated_at == f.updated_at
    &&& info.chunks == f.chunks
    &&& info.status == f.status
    &&& hash_view(info.hash) == f.hash
    &&& (match info.dek {
        Some(d) => f.dek == Some(d@),
        None => f.dek is None,
    })
}

/// Why a file of `size` bytes, whose custom data measured `custom_size`
/// (when there is any), is over the bucket's limits, if it is.
pub open spec fn file_limits_error(bucket: Bucket, size: u64, custom_size: Option<Result<u64, String>>) -> Option<Seq<char>> {
    if size > bucket.max_file_size {
        Some("file size exceeds the limit "@ + decimal(bucket.max_file_size as nat))
    } else {
        match custom_size {
            None => None,
            Some(Err(m)) => Some("failed to measure custom data: "@ + m@),
            Some(Ok(n)) => if n > bucket.max_custom_data_size {
                Some("custom data size exceeds the limit "@ + decimal(bucket.max_custom_data_size as nat))
            } else {
                None
            },
        }
    }
}

/// Checks a file of `size` bytes, whose custom data measured `custom_size`
/// bytes once encoded (or could not be measured), against the bucket's limits.
pub fn validate_file_limits(bucket: &Bucket, size: u64, custom_size: Option<Result<u64, String>>) -> (r: Result<(), String>)
    ensures
        match file_limits_error(*bucket, size, custom_size) {
            Some(m) => r matches Err(e) && e@ == m,
            None => r is Ok,
        },
{
    if size > bucket.max_file_size {
        let mut e = owned("file size exceeds the limit ");
        push_decimal(&mut e, bucket.max_file_size);
        return Err(e);
    }
    match custom_size {
        None => Ok(()),
        Some(Err(m)) => {
            let mut e = owned("failed to measure custom data: ");
            push_str(&mut e, m.as_str());
            Err(e)
        },
        Some(Ok(n)) => {
            if n > bucket.max_custom_data_size as u64 {
                let mut e = owned("custom data size exceeds the limit ");
                push_decimal(&mut e, bucket.max_custom_data_size as u64);
                Err(e)
            } else {
                Ok(())
            }
        },
    }
}

} // verus!
