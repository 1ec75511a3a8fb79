//! The file system of a bucket: folders, files, their chunks and the hash
//! index, with the operations that keep them consistent.
use vstd::prelude::*;
use std::collections::BTreeMap;
use crate::bucket::{
    chunk_key, copy_bytes, is_default_bucket, file_info_of, hash_view, Bucket, Chunk, Context, FileId, FileMetadata,
    FileModel, HashIndex, Role,
};
use crate::file::{FileChunk, FileInfo, CHUNK_SIZE, MAX_FILE_SIZE, MAX_FILE_SIZE_PER_CALL};
use crate::folder::{FolderName, UpdateFolderInput};
use crate::can::{lemma_stored_extend, lemma_stored_within, lemma_stored_write, stored_len, stored_sum};
use crate::ids::{desc_below, ordered};
use crate::text::{decimal, decimal_string, owned, push_decimal, push_str};
use crate::tree::{
    added_folder, add_folder_error, ancestry, listing_hidden, moved_file, moved_folder,
    moving_file_error, moving_folder_error, parent_to_add_file_error, parent_to_update_error,
    is_root_model, tree_wf, with_file, touched, FolderMap, FolderMetadata, FolderModel, FoldersTree, DEPTH_LIMIT,
};

verus! {

/// The mathematical value of a [`BucketStore`].
#[verifier::ext_equal]
pub struct StoreModel {
    pub bucket: Bucket,
    pub folders: FolderMap,
    pub files: Map<u32, FileModel>,
    pub chunks: Map<u64, Seq<u8>>,
    pub hashes: Map<Seq<u8>, u32>,
}

/// The whole state of a bucket.
#[derive(Debug)]
pub struct BucketStore {
    bucket: Bucket,
    folders: FoldersTree,
    files: BTreeMap<u32, FileMetadata>,
    chunks: BTreeMap<u64, Chunk>,
    hashes: HashIndex,
}

impl View for BucketStore {
    type V = StoreModel;

    closed spec fn view(&self) -> StoreModel {
        StoreModel {
            bucket: self.bucket,
            folders: self.folders@,
            files: self.files@.map_values(|f: FileMetadata| f@),
            chunks: self.chunks@.map_values(|c: Chunk| c.0@),
            hashes: self.hashes@,
        }
    }
}

/// `prefix` followed by the decimal form of `n`.
fn message_with_id(prefix: &str, n: u32) -> (r: String)
    ensures
        r@ == prefix@ + decimal(n as nat),
{
    let mut s = owned(prefix);
    push_decimal(&mut s, n as u64);
    s
}

/// `r` lists, from `ids`, the files that exist in `files`, in order, stopping
/// at the first id that is missing and after `take` of them (at least one).
pub open spec fn file_listing(files: Map<u32, FileModel>, ids: Seq<u32>, take: u32, r: Seq<FileInfo>) -> bool {
    let cap: int = if take == 0 { 1 } else { take as int };
    &&& r.len() <= ids.len()
    &&& r.len() <= cap
    &&& forall|j: int| 0 <= j < r.len() ==> files.contains_key(#[trigger] ids[j])
    &&& forall|j: int| 0 <= j < r.len() ==> file_info_of(#[trigger] r[j], ids[j], files[ids[j]])
    &&& (r.len() < cap && r.len() < ids.len() ==> !files.contains_key(ids[r.len() as int]))
}

impl BucketStore {
    /// The store is well formed: its folders form a tree rooted at folder 0.
    pub open spec fn wf(self) -> bool {
        tree_wf(self@.folders)
    }

    /// An empty bucket with default settings: only the root folder, named
    /// "root", empty and writable.
    pub fn new() -> (r: BucketStore)
        ensures
            r.wf(),
            is_default_bucket(r@.bucket),
            r@.folders.dom() == set![0u32],
            is_root_model(r@.folders[0]),
            r@.files == Map::<u32, FileModel>::empty(),
            r@.chunks == Map::<u64, Seq<u8>>::empty(),
            r@.hashes == Map::<Seq<u8>, u32>::empty(),
    {
        let r = BucketStore {
            bucket: Bucket::default(),
            folders: FoldersTree::new(),
            files: BTreeMap::new(),
            chunks: BTreeMap::new(),
            hashes: HashIndex::new(),
        };
        assert(r@.files =~= Map::<u32, FileModel>::empty());
        assert(r@.chunks =~= Map::<u64, Seq<u8>>::empty());
        r
    }

    /// The bucket's settings.
    pub fn bucket(&self) -> (r: &Bucket)
        ensures
            *r == self@.bucket,
    {
        &self.bucket
    }

    /// Replaces the bucket's settings.
    pub fn set_bucket(&mut self, bucket: Bucket)
        ensures
            final(self)@ == (StoreModel { bucket, ..old(self)@ }),
    {
        self.bucket = bucket;
    }

    /// The number of files.
    pub fn total_files(&self) -> (n: u64)
        ensures
            n == self@.files.len(),
    {
        proof {
            assert(self@.files.dom() =~= self.files@.dom());
        }
        self.files.len() as u64
    }

    /// The number of stored chunks.
    pub fn total_chunks(&self) -> (n: u64)
        ensures
            n == self@.chunks.len(),
    {
        proof {
            assert(self@.chunks.dom() =~= self.chunks@.dom());
        }
        self.chunks.len() as u64
    }

    /// The number of folders, the root included.
    pub fn total_folders(&self) -> (n: u64)
        ensures
            n == self@.folders.len(),
    {
        self.folders.len() as u64
    }

    /// The file indexed under `hash`.
    pub fn get_file_id(&self, hash: &[u8; 32]) -> (r: Option<u32>)
        ensures
            match r {
                Some(id) => self@.hashes.contains_key(hash@) && self@.hashes[hash@] == id,
                None => !self@.hashes.contains_key(hash@),
            },
    {
        self.hashes.get(hash)
    }

    /// A copy of folder `id`.
    pub fn get_folder(&self, id: u32) -> (r: Option<FolderMetadata>)
        ensures
            match r {
                Some(f) => self@.folders.contains_key(id) && f@ == self@.folders[id],
                None => !self@.folders.contains_key(id),
            },
    {
        self.folders.get(id)
    }

    /// A copy of the metadata of file `id`.
    pub fn get_file(&self, id: u32) -> (r: Option<FileMetadata>)
        ensures
            match r {
                Some(f) => self@.files.contains_key(id) && f@ == self@.files[id],
                None => !self@.files.contains_key(id),
            },
    {
        match self.files.get(&id) {
            Some(f) => Some(f.copy()),
            None => None,
        }
    }

    /// The ids, as decimal text, of the folders met walking up from `start`
    /// to the root.
    pub fn get_ancestors(&self, start: u32) -> (r: Vec<String>)
        requires
            self.wf(),
        ensures
            r@.len() == ancestry(self@.folders, start).len(),
            forall|i: int| 0 <= i < r@.len() ==> (#[trigger] r@[i])@ == decimal(ancestry(self@.folders, start)[i] as nat),
    {
        let ids = self.folders.ancestor_ids(start);
        let mut res: Vec<String> = Vec::new();
        for i in 0..ids.len()
            invariant
                ids@ == ancestry(self@.folders, start),
                res@.len() == i,
                forall|j: int| 0 <= j < i ==> (#[trigger] res@[j])@ == decimal(ids@[j] as nat),
        {
            res.push(decimal_string(ids[i] as u64));
        }
        res
    }

    /// The ancestors of folder `id`, nearest first: nothing when it is missing.
    pub fn get_folder_ancestors(&self, id: u32) -> (r: Vec<FolderName>)
        requires
            self.wf(),
        ensures
            !self@.folders.contains_key(id) ==> r@.len() == 0,
            self@.folders.contains_key(id) ==> {
                let a = ancestry(self@.folders, self@.folders[id].parent);
                &&& r@.len() == a.len()
                &&& forall|i: int| 0 <= i < r@.len() ==> (#[trigger] r@[i]).id == a[i] && r@[i].name@
                    == self@.folders[a[i]].name
            },
    {
        match self.folders.get(id) {
            None => Vec::new(),
            Some(folder) => self.folders.ancestors(folder.parent),
        }
    }

    /// The folders holding file `id`, nearest first: nothing when it is missing.
    pub fn get_file_ancestors(&self, id: u32) -> (r: Vec<FolderName>)
        requires
            self.wf(),
        ensures
            !self@.files.contains_key(id) ==> r@.len() == 0,
            self@.files.contains_key(id) ==> {
                let a = ancestry(self@.folders, self@.files[id].parent);
                &&& r@.len() == a.len()
                &&& forall|i: int| 0 <= i < r@.len() ==> (#[trigger] r@[i]).id == a[i] && r@[i].name@
                    == self@.folders[a[i]].name
            },
    {
        match self.files.get(&id) {
            None => Vec::new(),
            Some(file) => self.folders.ancestors(file.parent),
        }
    }

    /// The sub folders of `parent` below `prev`, largest id first, at most
    /// `take` of them (and at least one), stopping at the first missing one;
    /// nothing when `parent` is missing, or archived and the caller is below
    /// auditor.
    pub fn list_folders(&self, ctx: &Context, parent: u32, prev: u32, take: u32) -> (r: Vec<crate::folder::FolderInfo>)
        ensures
            listing_hidden(self@.folders, parent, ctx.role) ==> r@.len() == 0,
            !listing_hidden(self@.folders, parent, ctx.role) ==> crate::tree::folder_listing(
                self@.folders,
                desc_below(ordered(self@.folders[parent].folders), prev),
                take,
                r@,
            ),
    {
        self.folders.list_folders(ctx, parent, prev, take)
    }

    /// The sub folders of `parent` below `prev` that a caller of role `role`
    /// sees, largest id first, at most `take` of them (and at least one).
    pub fn list_folders_for(&self, role: Role, parent: u32, prev: u32, take: u32) -> (r: Vec<crate::folder::FolderInfo>)
        ensures
            listing_hidden(self@.folders, parent, role) ==> r@.len() == 0,
            !listing_hidden(self@.folders, parent, role) ==> crate::tree::folder_listing(
                self@.folders,
                desc_below(ordered(self@.folders[parent].folders), prev),
                take,
                r@,
            ),
    {
        self.folders.list_folders_for(role, parent, prev, take)
    }

    /// The files of folder `parent` below `prev`, largest id first, at most
    /// `take` of them (and at least one), stopping at the first missing one;
    /// nothing when `parent` is missing, or archived and the caller is below
    /// auditor.
    pub fn list_files(&self, ctx: &Context, parent: u32, prev: u32, take: u32) -> (r: Vec<FileInfo>)
        ensures
            listing_hidden(self@.folders, parent, ctx.role) ==> r@.len() == 0,
            !listing_hidden(self@.folders, parent, ctx.role) ==> file_listing(
                self@.files,
                desc_below(ordered(self@.folders[parent].files), prev),
                take,
                r@,
            ),
    {
        self.list_files_for(ctx.role, parent, prev, take)
    }

    /// The files of folder `parent` below `prev` that a caller of role `role`
    /// sees, largest id first, at most `take` of them (and at least one).
    pub fn list_files_for(&self, role: Role, parent: u32, prev: u32, take: u32) -> (r: Vec<FileInfo>)
        ensures
            listing_hidden(self@.folders, parent, role) ==> r@.len() == 0,
            !listing_hidden(self@.folders, parent, role) ==> file_listing(
                self@.files,
                desc_below(ordered(self@.folders[parent].files), prev),
                take,
                r@,
            ),
    {
        let ghost files = self@.files;
        match self.folders.get(parent) {
            None => Vec::new(),
            Some(pf) => {
                if pf.status < 0 && !role.at_least(&Role::Auditor) {
                    return Vec::new();
                }
                pf.files.seq_facts();
                let ids = pf.files.below_desc(prev);
                let mut res: Vec<FileInfo> = Vec::new();
                let mut i: usize = 0;
                while i < ids.len()
                    invariant_except_break
                        files == self@.files,
                        i <= ids@.len(),
                        res@.len() == i,
                        i == 0 || i < take,
                        forall|j: int| 0 <= j < i ==> files.contains_key(#[trigger] ids@[j]),
                        forall|j: int| 0 <= j < i ==> file_info_of(#[trigger] res@[j], ids@[j], files[ids@[j]]),
                    ensures
                        file_listing(files, ids@, take, res@),
                    decreases ids@.len() - i,
                {
                    let fid = ids[i];
                    match self.files.get(&fid) {
                        None => {
                            assert(!files.contains_key(fid));
                            break;
                        },
                        Some(f) => {
                            assert(files.contains_key(fid) && files[fid] == f@);
                            let info = f.copy().into_info(fid);
                            let ghost before = res@;
                            res.push(info);
                            assert(forall|j: int| 0 <= j < i ==> res@[j] == before[j]);
                            if res.len() >= take as usize {
                                break;
                            }
                        },
                    }
                    i += 1;
                }
                res
            },
        }
    }

    /// Adds folder `metadata` under the next folder id, and returns that id.
    pub fn add_folder(&mut self, metadata: FolderMetadata) -> (r: Result<u32, String>)
        requires
            old(self).wf(),
        ensures
            final(self).wf(),
            old(self)@.bucket.folder_id == u32::MAX ==> (r matches Err(e) && e@ == "folder id overflow"@
                && final(self)@ == old(self)@),
            old(self)@.bucket.folder_id < u32::MAX ==> match add_folder_error(
                old(self)@.folders,
                metadata.parent,
                old(self)@.bucket.folder_id,
                old(self)@.bucket.max_folder_depth as nat,
                old(self)@.bucket.max_children as nat,
            ) {
                Some(e) => r matches Err(x) && x@ == e && final(self)@ == old(self)@,
                None => r == Ok::<u32, String>(old(self)@.bucket.folder_id) && final(self)@ == (StoreModel {
                    bucket: Bucket { folder_id: (old(self)@.bucket.folder_id + 1) as u32, ..old(self)@.bucket },
                    folders: added_folder(old(self)@.folders, old(self)@.bucket.folder_id, metadata@),
                    ..old(self)@
                }),
            },
    {
        let id = self.bucket.folder_id;
        if id == u32::MAX {
            return Err(owned("folder id overflow"));
        }
        let max_depth = self.bucket.max_folder_depth as usize;
        let max_children = self.bucket.max_children as usize;
        let ghost m = self@;
        let r = self.folders.add_folder(metadata, id, max_depth, max_children);
        match r {
            Err(e) => {
                assert(self@ =~= m);
                Err(e)
            },
            Ok(()) => {
                self.bucket.folder_id = id + 1;
                Ok(id)
            },
        }
    }

    /// Moves folder `id` from folder `from` to folder `to` at `now_ms`.
    pub fn move_folder(&mut self, id: u32, from: u32, to: u32, now_ms: u64) -> (r: Result<(), String>)
        requires
            old(self).wf(),
        ensures
            final(self).wf(),
            match moving_folder_error(
                old(self)@.folders,
                id,
                from,
                to,
                old(self)@.bucket.max_folder_depth as nat,
                old(self)@.bucket.max_children as nat,
            ) {
                Some(e) => r matches Err(x) && x@ == e && final(self)@ == old(self)@,
                None => r is Ok && final(self)@ == (StoreModel {
                    folders: moved_folder(old(self)@.folders, id, from, to, now_ms),
                    ..old(self)@
                }),
            },
    {
        let max_depth = self.bucket.max_folder_depth as usize;
        let max_children = self.bucket.max_children as usize;
        self.folders.check_moving_folder(id, from, to, max_depth, max_children)?;
        self.folders.move_folder(id, from, to, now_ms);
        Ok(())
    }

    /// Renames folder `change.id` and/or sets its status at `now_ms`, once
    /// `checker` accepts the folder.
    pub fn update_folder<F>(&mut self, change: UpdateFolderInput, now_ms: u64, checker: F) -> (r: Result<(), String>)
        where
            F: FnOnce(&FolderMetadata) -> Result<(), String>,
        requires
            old(self).wf(),
            forall|f: &FolderMetadata| #[trigger] checker.requires((f,)),
        ensures
            final(self).wf(),
            change.id == 0 ==> (r matches Err(e) && e@ == "root folder cannot be updated"@ && final(self)@ == old(self)@),
            change.id != 0 && !old(self)@.folders.contains_key(change.id) ==> (r matches Err(e) && e@
                == "folder not found: "@ + decimal(change.id as nat) && final(self)@ == old(self)@),
            change.id != 0 && old(self)@.folders.contains_key(change.id) ==> {
                let f = old(self)@.folders[change.id];
                let status = match change.status {
                    Some(s) => s,
                    None => f.status,
                };
                match r {
                    Err(e) => final(self)@ == old(self)@ && ((exists|x: FolderMetadata| x@ == f && #[trigger] checker.ensures((&x,), Err(e)))
                        || ((exists|x: FolderMetadata| x@ == f && #[trigger] checker.ensures((&x,), Ok(())))
                        && e@ == "folder is readonly"@ && f.status > 0 && status > 0)),
                    Ok(()) => (exists|x: FolderMetadata| x@ == f && #[trigger] checker.ensures((&x,), Ok(())))
                        && !(f.status > 0 && status > 0) && final(self)@ == (StoreModel {
                        folders: old(self)@.folders.insert(
                            change.id,
                            FolderModel {
                                name: match change.name {
                                    Some(n) => n@,
                                    None => f.name,
                                },
                                status,
                                updated_at: now_ms,
                                ..f
                            },
                        ),
                        ..old(self)@
                    }),
                }
            },
    {
        if change.id == 0 {
            return Err(owned("root folder cannot be updated"));
        }
        let folder = match self.folders.get(change.id) {
            None => {
                return Err(message_with_id("folder not found: ", change.id));
            },
            Some(f) => f,
        };
        let checked = checker(&folder);
        match checked {
            Err(e) => {
                assert(checker.ensures((&folder,), Err(e)));
                return Err(e);
            },
            Ok(u) => {
                assert(checker.ensures((&folder,), Ok(u)));
                assert(Ok::<(), String>(u) == Ok::<(), String>(()));
            },
        }
        let status = match change.status {
            Some(s) => s,
            None => folder.status,
        };
        if folder.status > 0 && status > 0 {
            return Err(owned("folder is readonly"));
        }
        self.folders.set_name_status(change.id, change.name, status, now_ms);
        Ok(())
    }
}


/// Whether the stored key `k` belongs to one of the first `n` chunks of file `id`.
pub open spec fn chunk_of(k: u64, id: u32, n: u32) -> bool {
    k / 0x1_0000_0000 == id && k % 0x1_0000_0000 < n
}

/// The chunks without the first `n` chunks of file `id`.
pub open spec fn without_chunks(c: Map<u64, Seq<u8>>, id: u32, n: u32) -> Map<u64, Seq<u8>> {
    c.remove_keys(Set::new(|k: u64| chunk_of(k, id, n)))
}

/// The key of chunk `i` of file `id` splits back into `id` and `i`.
pub proof fn lemma_chunk_key_parts(id: u32, i: u32)
    ensures
        chunk_key(id, i) / 0x1_0000_0000 == id,
        chunk_key(id, i) % 0x1_0000_0000 == i,
        chunk_key(id, i) == (id as int) * 0x1_0000_0000 + (i as int),
{
    assert(0 <= (id as int) * 0x1_0000_0000 + (i as int) <= 0xffff_ffff_ffff_ffff) by (nonlinear_arith);
    let k = (id as int) * 0x1_0000_0000 + (i as int);
    vstd::arithmetic::div_mod::lemma_fundamental_div_mod_converse(k, 0x1_0000_0000, id as int, i as int);
}

/// The bytes of the first `n` chunks of file `id`, in order.
pub open spec fn file_bytes(c: Map<u64, Seq<u8>>, id: u32, n: nat) -> Seq<u8>
    decreases n,
{
    if n == 0 {
        Seq::empty()
    } else {
        file_bytes(c, id, (n - 1) as nat) + c[chunk_key(id, (n - 1) as u32)]
    }
}

/// The first of the first `n` chunks of file `id` that is missing.
pub open spec fn first_missing(c: Map<u64, Seq<u8>>, id: u32, n: nat) -> Option<u32>
    decreases n,
{
    if n == 0 {
        None
    } else {
        match first_missing(c, id, (n - 1) as nat) {
            Some(i) => Some(i),
            None => if !c.contains_key(chunk_key(id, (n - 1) as u32)) {
                Some((n - 1) as u32)
            } else {
                None
            },
        }
    }
}

/// The chunks of file `id` read from index `i` up to `end`: missing ones are
/// skipped; reading stops before a chunk that would take the bytes read past
/// the per-call limit, and after one that reaches it exactly.
pub open spec fn chunk_run(c: Map<u64, Seq<u8>>, id: u32, i: int, end: int, filled: int) -> Seq<(u32, Seq<u8>)>
    decreases end - i,
{
    if i >= end {
        Seq::empty()
    } else if !c.contains_key(chunk_key(id, i as u32)) {
        chunk_run(c, id, i + 1, end, filled)
    } else {
        let bytes = c[chunk_key(id, i as u32)];
        let f2 = filled + bytes.len();
        if f2 > MAX_FILE_SIZE_PER_CALL {
            Seq::empty()
        } else if f2 == MAX_FILE_SIZE_PER_CALL {
            seq![(i as u32, bytes)]
        } else {
            seq![(i as u32, bytes)] + chunk_run(c, id, i + 1, end, f2)
        }
    }
}

/// The indexes and bytes of file chunks.
pub open spec fn chunk_views(r: Seq<FileChunk>) -> Seq<(u32, Seq<u8>)> {
    r.map_values(|fc: FileChunk| (fc.0, fc.1@))
}

/// The limit on the size of a file read in one piece.
pub open spec fn full_read_limit() -> u64 {
    if MAX_FILE_SIZE <= usize::MAX { MAX_FILE_SIZE } else { usize::MAX as u64 }
}

/// Why `get_full_chunks` fails for file `id`, if it does.
pub open spec fn full_chunks_error(m: StoreModel, id: u32) -> Option<Seq<char>> {
    if !m.files.contains_key(id) {
        Some("file not found: "@ + decimal(id as nat))
    } else if m.files[id].size != m.files[id].filled {
        Some("file not fully uploaded"@)
    } else if m.files[id].size > full_read_limit() {
        Some("file size exceeds limit: "@ + decimal(full_read_limit() as nat))
    } else if m.files[id].chunks == 0 {
        None
    } else if first_missing(m.chunks, id, m.files[id].chunks as nat) is Some {
        Some("file chunk not found: "@ + decimal(id as nat) + ", "@ + decimal(
            first_missing(m.chunks, id, m.files[id].chunks as nat)->0 as nat,
        ))
    } else if file_bytes(m.chunks, id, m.files[id].chunks as nat).len() != m.files[id].size {
        Some("file size mismatch, expected "@ + decimal(m.files[id].size as nat) + ", got "@ + decimal(
            file_bytes(m.chunks, id, m.files[id].chunks as nat).len(),
        ))
    } else {
        None
    }
}

/// Why `update_chunk` refuses a chunk before storing it, if it does; the
/// checker's verdict comes between the file's status and its size.
pub open spec fn chunk_precheck_error(m: StoreModel, id: u32, len: nat) -> Option<Seq<char>> {
    if len == 0 {
        Some("empty chunk"@)
    } else if len > CHUNK_SIZE {
        Some("chunk size too large, max size is "@ + decimal(CHUNK_SIZE as nat) + " bytes"@)
    } else if !m.files.contains_key(id) {
        Some("file not found: "@ + decimal(id as nat))
    } else if m.files[id].status != 0 {
        Some("file "@ + decimal(id as nat) + " is not writable"@)
    } else {
        None
    }
}

/// The store once `chunk` is stored as chunk `idx` of file `id`, before the
/// file's metadata follows.
pub open spec fn chunk_stored(m: StoreModel, id: u32, idx: u32, chunk: Seq<u8>) -> StoreModel {
    StoreModel { chunks: m.chunks.insert(chunk_key(id, idx), chunk), ..m }
}

/// Why a chunk of `len` bytes cannot be written at `idx` of file `id`, once
/// the checker accepts it: the file would outgrow the bucket's limit, or its
/// declared size.
pub open spec fn chunk_failure(m: StoreModel, id: u32, idx: u32, len: nat) -> Option<Seq<char>> {
    let f = m.files[id];
    let max = m.bucket.max_file_size;
    let filled = filled_after(m, id, idx, len);
    if f.filled + len > max {
        Some("file size exceeds limit: "@ + decimal(max as nat))
    } else if f.size > 0 && filled > f.size {
        Some("file size mismatch, expected "@ + decimal(f.size as nat) + ", got "@ + decimal(filled as nat))
    } else {
        None
    }
}

/// The store once `chunk` is written as chunk `idx` of file `id` at `now`.
pub open spec fn store_after_chunk(m: StoreModel, id: u32, idx: u32, chunk: Seq<u8>, now: u64) -> StoreModel {
    let f = m.files[id];
    let stored = chunk_stored(m, id, idx, chunk);
    StoreModel {
        files: stored.files.insert(
            id,
            FileModel {
                updated_at: now,
                filled: filled_after(m, id, idx, chunk.len()) as u64,
                chunks: if f.chunks <= idx { (idx + 1) as u32 } else { f.chunks },
                ..f
            },
        ),
        ..stored
    }
}

/// The bytes filled in a file once `chunk` is written at `idx`: an
/// overwritten chunk below the file's chunk count no longer counts.
pub open spec fn filled_after(m: StoreModel, id: u32, idx: u32, len: nat) -> int {
    let f = m.files[id];
    let filled = f.filled + len;
    let key = chunk_key(id, idx);
    if m.chunks.contains_key(key) && idx < f.chunks {
        if filled >= m.chunks[key].len() { filled - m.chunks[key].len() } else { 0 }
    } else {
        filled
    }
}

impl BucketStore {
    /// Drops the first `n` chunks of file `id`.
    fn remove_chunks(&mut self, id: u32, n: u32)
        ensures
            final(self)@ == (StoreModel { chunks: without_chunks(old(self)@.chunks, id, n), ..old(self)@ }),
    {
        let ghost c0 = self@.chunks;
        assert(without_chunks(c0, id, 0) =~= c0);
        for i in 0..n
            invariant
                self@ == (StoreModel { chunks: without_chunks(c0, id, i), ..old(self)@ }),
        {
            let key = FileId(id, i).key();
            let ghost before = self@;
            self.chunks.remove(&key);
            proof {
                lemma_chunk_key_parts(id, i);
                assert(without_chunks(c0, id, (i + 1) as u32) =~= without_chunks(c0, id, i).remove(key));
                assert(self@.chunks =~= before.chunks.remove(key));
                assert(self@ =~= (StoreModel { chunks: without_chunks(c0, id, (i + 1) as u32), ..old(self)@ }));
            }
        }
    }

    /// Chunk `chunk_index` of file `id`.
    pub fn get_chunk(&self, id: u32, chunk_index: u32) -> (r: Option<FileChunk>)
        ensures
            match r {
                Some(fc) => self@.chunks.contains_key(chunk_key(id, chunk_index)) && fc.0 == chunk_index
                    && fc.1@ == self@.chunks[chunk_key(id, chunk_index)],
                None => !self@.chunks.contains_key(chunk_key(id, chunk_index)),
            },
    {
        let key = FileId(id, chunk_index).key();
        match self.chunks.get(&key) {
            Some(c) => Some(FileChunk(chunk_index, copy_bytes(&c.0))),
            None => None,
        }
    }

    /// Up to `max_take` chunks of file `id` from `chunk_index` on, skipping
    /// missing ones, within the per-call size limit.
    pub fn get_chunks(&self, id: u32, chunk_index: u32, max_take: u32) -> (r: Vec<FileChunk>)
        requires
            chunk_index + max_take <= u32::MAX,
        ensures
            chunk_views(r@) == chunk_run(self@.chunks, id, chunk_index as int, chunk_index + max_take, 0),
    {
        let ghost c = self@.chunks;
        let end = chunk_index + max_take;
        let mut buf: Vec<FileChunk> = Vec::new();
        let mut filled: u64 = 0;
        let mut i = chunk_index;
        while i < end
            invariant_except_break
                c == self@.chunks,
                chunk_index <= i <= end,
                filled < MAX_FILE_SIZE_PER_CALL,
                chunk_views(buf@) + chunk_run(c, id, i as int, end as int, filled as int) == chunk_run(
                    c,
                    id,
                    chunk_index as int,
                    end as int,
                    0,
                ),
            ensures
                chunk_views(buf@) == chunk_run(c, id, chunk_index as int, end as int, 0),
            decreases end - i,
        {
            let key = FileId(id, i).key();
            let ghost before = buf@;
            match self.chunks.get(&key) {
                None => {},
                Some(chunk) => {
                    let len = chunk.0.len() as u64;
                    if len > MAX_FILE_SIZE_PER_CALL - filled {
                        assert(chunk_views(buf@) + Seq::<(u32, Seq<u8>)>::empty() =~= chunk_views(buf@));
                        break;
                    }
                    filled = filled + len;
                    buf.push(FileChunk(i, copy_bytes(&chunk.0)));
                    assert(chunk_views(buf@) =~= chunk_views(before) + seq![(i, c[key])]);
                    if filled == MAX_FILE_SIZE_PER_CALL {
                        break;
                    }
                },
            }
            i += 1;
        }
        proof {
            if i >= end {
                assert(chunk_views(buf@) + Seq::<(u32, Seq<u8>)>::empty() =~= chunk_views(buf@));
            }
        }
        buf
    }

    /// The whole content of file `id`, once fully uploaded.
    pub fn get_full_chunks(&self, id: u32) -> (r: Result<Vec<u8>, String>)
        ensures
            match full_chunks_error(self@, id) {
                Some(e) => r matches Err(x) && x@ == e,
                None => r matches Ok(v) && v@ == file_bytes(self@.chunks, id, self@.files[id].chunks as nat),
            },
    {
        let ghost c = self@.chunks;
        let (size, chunks) = match self.files.get(&id) {
            None => {
                return Err(message_with_id("file not found: ", id));
            },
            Some(file) => {
                if file.size != file.filled {
                    return Err(owned("file not fully uploaded"));
                }
                (file.size, file.chunks)
            },
        };
        let limit: u64 = if MAX_FILE_SIZE <= usize::MAX as u64 { MAX_FILE_SIZE } else { usize::MAX as u64 };
        if size > limit {
            let mut e = owned("file size exceeds limit: ");
            push_decimal(&mut e, limit);
            return Err(e);
        }
        let mut buf: Vec<u8> = Vec::new();
        if chunks == 0 {
            return Ok(buf);
        }
        for i in 0..chunks
            invariant
                c == self@.chunks,
                self@.files.contains_key(id),
                self@.files[id].chunks == chunks,
                self@.files[id].size == size,
                self@.files[id].filled == size,
                size <= full_read_limit(),
                chunks > 0,
                first_missing(c, id, i as nat) is None,
                buf@ == file_bytes(c, id, i as nat),
        {
            let key = FileId(id, i).key();
            match self.chunks.get(&key) {
                None => {
                    let mut e = message_with_id("file chunk not found: ", id);
                    push_str(&mut e, ", ");
                    push_decimal(&mut e, i as u64);
                    proof {
                        assert(first_missing(c, id, (i + 1) as nat) == Some(i));
                        lemma_first_missing_stays(c, id, (i + 1) as nat, chunks as nat);
                    }
                    return Err(e);
                },
                Some(chunk) => {
                    let ghost before = buf@;
                    buf.extend_from_slice(chunk.0.as_slice());
                    assert(buf@ =~= before + c[key]);
                },
            }
        }
        if buf.len() as u64 != size {
            let mut e = owned("file size mismatch, expected ");
            push_decimal(&mut e, size);
            push_str(&mut e, ", got ");
            push_decimal(&mut e, buf.len() as u64);
            return Err(e);
        }
        Ok(buf)
    }

    /// Writes `chunk` as chunk `chunk_index` of file `file_id` at `now_ms`,
    /// once `checker` accepts the file; returns the bytes filled so far.
    pub fn update_chunk<F>(&mut self, file_id: u32, chunk_index: u32, now_ms: u64, chunk: Vec<u8>, checker: F) -> (r: Result<u64, String>)
        where
            F: FnOnce(&FileMetadata) -> Result<(), String>,
        requires
            old(self).wf(),
            chunk_index < u32::MAX,
            forall|f: &FileMetadata| #[trigger] checker.requires((f,)),
        ensures
            final(self).wf(),
            chunk_precheck_error(old(self)@, file_id, chunk@.len()) matches Some(e) ==> (r matches Err(x) && x@ == e
                && final(self)@ == old(self)@),
            chunk_precheck_error(old(self)@, file_id, chunk@.len()) is None ==> {
                let m = old(self)@;
                let f = m.files[file_id];
                match r {
                    Err(e) => ((exists|x: FileMetadata| x@ == f && #[trigger] checker.ensures((&x,), Err(e)))
                        && final(self)@ == m) || ((exists|x: FileMetadata| x@ == f && #[trigger] checker.ensures(
                        (&x,),
                        Ok(()),
                    )) && chunk_failure(m, file_id, chunk_index, chunk@.len()) == Some(e@) && final(self)@ == (
                    if f.filled + chunk@.len() > m.bucket.max_file_size {
                        m
                    } else {
                        chunk_stored(m, file_id, chunk_index, chunk@)
                    })),
                    Ok(n) => (exists|x: FileMetadata| x@ == f && #[trigger] checker.ensures((&x,), Ok(())))
                        && chunk_failure(m, file_id, chunk_index, chunk@.len()) is None && n == filled_after(
                        m,
                        file_id,
                        chunk_index,
                        chunk@.len(),
                    ) && final(self)@ == store_after_chunk(m, file_id, chunk_index, chunk@, now_ms),
                }
            },
    {
        if chunk.len() == 0 {
            return Err(owned("empty chunk"));
        }
        if chunk.len() > CHUNK_SIZE as usize {
            let mut e = owned("chunk size too large, max size is ");
            push_decimal(&mut e, CHUNK_SIZE as u64);
            push_str(&mut e, " bytes");
            return Err(e);
        }
        let max = self.bucket.max_file_size;
        let mut file = match self.files.get(&file_id) {
            None => {
                return Err(message_with_id("file not found: ", file_id));
            },
            Some(f) => f.copy(),
        };
        if file.status != 0 {
            let mut e = message_with_id("file ", file_id);
            push_str(&mut e, " is not writable");
            return Err(e);
        }
        let checked = checker(&file);
        match checked {
            Err(e) => {
                assert(checker.ensures((&file,), Err(e)));
                return Err(e);
            },
            Ok(u) => {
                assert(checker.ensures((&file,), Ok(u)));
                assert(Ok::<(), String>(u) == Ok::<(), String>(()));
            },
        }
        let ghost f0 = file@;
        let len = chunk.len() as u64;
        let filled = match file.filled.checked_add(len) {
            Some(x) => x,
            None => {
                let mut e = owned("file size exceeds limit: ");
                push_decimal(&mut e, max);
                return Err(e);
            },
        };
        if filled > max {
            let mut e = owned("file size exceeds limit: ");
            push_decimal(&mut e, max);
            return Err(e);
        }
        file.updated_at = now_ms;
        file.filled = filled;
        let key = FileId(file_id, chunk_index).key();
        let ghost m0 = self@;
        let old_chunk = self.chunks.insert(key, Chunk(chunk));
        proof {
            assert(self@ =~= (StoreModel { chunks: m0.chunks.insert(key, chunk@), ..m0 }));
        }
        match old_chunk {
            None => {},
            Some(old) => {
                if chunk_index < file.chunks {
                    file.filled = file.filled.saturating_sub(old.0.len() as u64);
                }
            },
        }
        if file.chunks <= chunk_index {
            file.chunks = chunk_index + 1;
        }
        let filled = file.filled;
        if file.size > 0 && filled > file.size {
            let mut e = owned("file size mismatch, expected ");
            push_decimal(&mut e, file.size);
            push_str(&mut e, ", got ");
            push_decimal(&mut e, filled);
            return Err(e);
        }
        let ghost m1 = self@;
        self.files.insert(file_id, file);
        proof {
            assert(self@ =~= (StoreModel { files: m1.files.insert(file_id, file@), ..m1 }));
        }
        Ok(filled)
    }
}

/// A successful chunk write keeps a file's fill equal to the bytes stored for
/// it: when the fill counted exactly the chunks stored below the file's chunk
/// count (and none is stored above it), then after the write the fill, which
/// the write returns, counts exactly the chunks stored below the new count. An
/// overwritten chunk is counted once, with its new length.
pub proof fn lemma_chunk_write_fill(m: StoreModel, id: u32, idx: u32, chunk: Seq<u8>, now: u64)
    requires
        chunk_precheck_error(m, id, chunk.len()) is None,
        chunk_failure(m, id, idx, chunk.len()) is None,
        idx < u32::MAX,
        m.files[id].filled == stored_sum(m.chunks, id, m.files[id].chunks as nat),
        forall|i: u32| i >= m.files[id].chunks ==> !m.chunks.contains_key(#[trigger] chunk_key(id, i)),
    ensures
        ({
            let m2 = store_after_chunk(m, id, idx, chunk, now);
            &&& m2.files[id].filled == stored_sum(m2.chunks, id, m2.files[id].chunks as nat)
            &&& filled_after(m, id, idx, chunk.len()) == m2.files[id].filled
            &&& forall|i: u32| i >= m2.files[id].chunks ==> !m2.chunks.contains_key(#[trigger] chunk_key(id, i))
        }),
{
    let f = m.files[id];
    let key = chunk_key(id, idx);
    let n = f.chunks as nat;
    let n2: nat = if f.chunks <= idx { (idx + 1) as nat } else { n };
    let c2 = m.chunks.insert(key, chunk);
    let m2 = store_after_chunk(m, id, idx, chunk, now);
    assert(m2.chunks == c2);
    if m.chunks.contains_key(key) {
        assert(idx < f.chunks);
        lemma_stored_within(m.chunks, id, idx, n);
        lemma_stored_write(m.chunks, id, idx, chunk, n);
    } else {
        assert forall|i: u32| n <= i < n2 implies !m.chunks.contains_key(#[trigger] chunk_key(id, i)) by {}
        lemma_stored_extend(m.chunks, id, n, n2);
        lemma_stored_write(m.chunks, id, idx, chunk, n2);
    }
    assert forall|i: u32| i >= m2.files[id].chunks implies !m2.chunks.contains_key(#[trigger] chunk_key(id, i)) by {
        crate::bucket::lemma_chunk_key_injective(id, i, id, idx);
    }
}

/// Sending an existing chunk again with as many bytes (a retry) leaves the
/// file's fill as it was: the old chunk's length is taken off.
pub proof fn lemma_chunk_rewrite_keeps_fill(m: StoreModel, id: u32, idx: u32, chunk: Seq<u8>, now: u64)
    requires
        m.files.contains_key(id),
        idx < m.files[id].chunks,
        m.chunks.contains_key(chunk_key(id, idx)),
        m.chunks[chunk_key(id, idx)].len() == chunk.len(),
        m.files[id].filled + chunk.len() <= u64::MAX,
    ensures
        filled_after(m, id, idx, chunk.len()) == m.files[id].filled,
        store_after_chunk(m, id, idx, chunk, now).files[id].filled == m.files[id].filled,
        store_after_chunk(m, id, idx, chunk, now).files[id].chunks == m.files[id].chunks,
        m.files[id].filled <= m.files[id].size && m.files[id].filled + chunk.len() <= m.bucket.max_file_size
            ==> chunk_failure(m, id, idx, chunk.len()) is None,
{
}

/// Once a chunk is missing among the first `n`, it stays the first missing
/// one among more.
pub proof fn lemma_first_missing_stays(c: Map<u64, Seq<u8>>, id: u32, n: nat, n2: nat)
    requires
        n <= n2,
        first_missing(c, id, n) is Some,
    ensures
        first_missing(c, id, n2) == first_missing(c, id, n),
    decreases n2 - n,
{
    if n < n2 {
        lemma_first_missing_stays(c, id, n, (n2 - 1) as nat);
    }
}


/// The hash made of zero bytes, which the index ignores.
pub open spec fn zero_hash() -> Seq<u8> {
    Seq::new(32, |i: int| 0u8)
}

/// Whether `h` is made of zero bytes.
fn is_zero_hash(h: &[u8; 32]) -> (r: bool)
    ensures
        r == (h@ == zero_hash()),
{
    let mut i: usize = 0;
    while i < 32
        invariant
            i <= 32,
            h@.len() == 32,
            forall|j: int| 0 <= j < i ==> h@[j] == 0,
        decreases 32 - i,
    {
        if h[i] != 0 {
            return false;
        }
        i += 1;
    }
    assert(h@ =~= zero_hash());
    true
}

/// Why `add_file` refuses file `f`, if it does.
pub open spec fn add_file_error(m: StoreModel, f: FileModel) -> Option<Seq<char>> {
    if m.bucket.file_id == u32::MAX {
        Some("file id overflow"@)
    } else if parent_to_add_file_error(m.folders, f.parent, m.bucket.max_children as nat) is Some {
        parent_to_add_file_error(m.folders, f.parent, m.bucket.max_children as nat)
    } else if m.bucket.enable_hash_index && f.hash is None {
        Some("file hash is required when enable_hash_index"@)
    } else if m.bucket.enable_hash_index && f.hash->0 != zero_hash() && m.hashes.contains_key(f.hash->0) {
        Some("file hash conflict, "@ + decimal(m.hashes[f.hash->0] as nat))
    } else {
        None
    }
}

/// The bucket after adding file `f` under the next file id.
pub open spec fn added_file(m: StoreModel, f: FileModel) -> StoreModel {
    let id = m.bucket.file_id;
    StoreModel {
        bucket: Bucket { file_id: (id + 1) as u32, ..m.bucket },
        folders: with_file(m.folders, f.parent, id, true),
        files: m.files.insert(id, f),
        hashes: if m.bucket.enable_hash_index && f.hash->0 != zero_hash() {
            m.hashes.insert(f.hash->0, id)
        } else {
            m.hashes
        },
        ..m
    }
}

/// Why `move_file` refuses to move file `id`, if it does.
pub open spec fn move_file_error(m: StoreModel, id: u32, from: u32, to: u32) -> Option<Seq<char>> {
    if moving_file_error(m.folders, from, to, m.bucket.max_children as nat) is Some {
        moving_file_error(m.folders, from, to, m.bucket.max_children as nat)
    } else if !m.files.contains_key(id) {
        Some("file not found: "@ + decimal(id as nat))
    } else if m.files[id].status != 0 {
        Some("file "@ + decimal(id as nat) + " is not writable"@)
    } else if m.files[id].parent != from {
        Some("file "@ + decimal(id as nat) + " is not in folder "@ + decimal(from as nat))
    } else {
        None
    }
}

/// The bucket after file `id` of folder `parent` is removed: its metadata,
/// its hash entry and its chunks go, and the folder no longer lists it.
pub open spec fn without_file(m: StoreModel, parent: u32, id: u32) -> StoreModel {
    let f = m.files[id];
    StoreModel {
        folders: with_file(m.folders, parent, id, false),
        files: m.files.remove(id),
        hashes: match f.hash {
            Some(h) => m.hashes.remove(h),
            None => m.hashes,
        },
        chunks: without_chunks(m.chunks, id, f.chunks),
        ..m
    }
}

/// One step of clearing the files of folder `parent`: a listed file that is
/// missing is unlisted; one that is not read-only is removed (and reported).
pub open spec fn purge_step(m: StoreModel, parent: u32, id: u32) -> (StoreModel, bool) {
    if !m.folders[parent].files.contains(id) {
        (m, false)
    } else if !m.files.contains_key(id) {
        (StoreModel { folders: with_file(m.folders, parent, id, false), ..m }, false)
    } else if m.files[id].status < 1 {
        (without_file(m, parent, id), true)
    } else {
        (m, false)
    }
}

/// Clearing the files `ids` of folder `parent` in order: the bucket after, and
/// the ids removed.
pub open spec fn purge(m: StoreModel, parent: u32, ids: Seq<u32>) -> (StoreModel, Seq<u32>)
    decreases ids.len(),
{
    if ids.len() == 0 {
        (m, Seq::empty())
    } else {
        let (m1, r1) = purge(m, parent, ids.drop_last());
        let (m2, removed) = purge_step(m1, parent, ids.last());
        (m2, if removed { r1.push(ids.last()) } else { r1 })
    }
}

/// Whether `a` and `b` differ, as optional hashes.
pub open spec fn hash_changed(a: Option<Seq<u8>>, b: Option<Seq<u8>>) -> bool {
    a != b
}

/// File `f` once `change` is applied at `now`: a size of 0 keeps what is
/// filled, and a size below what is filled empties the file.
pub open spec fn file_after_update(f: FileModel, change: crate::file::UpdateFileInput, now: u64) -> FileModel {
    let size1: u64 = match change.size {
        Some(x) => x,
        None => f.size,
    };
    let size: u64 = if size1 == 0 { f.filled } else { size1 };
    let emptied = size < f.filled;
    FileModel {
        size,
        filled: if emptied { 0 } else { f.filled },
        chunks: if emptied { 0 } else { f.chunks },
        status: match change.status {
            Some(x) => x,
            None => f.status,
        },
        name: match change.name {
            Some(n) => n@,
            None => f.name,
        },
        content_type: match change.content_type {
            Some(t) => t@,
            None => f.content_type,
        },
        hash: match change.hash {
            Some(h) => Some(h@),
            None => f.hash,
        },
        by_hash: match change.by_hash {
            Some(b) => b,
            None => f.by_hash,
        },
        updated_at: now,
        ..f
    }
}

/// Whether applying `change` moves the file in the hash index.
pub open spec fn update_reindexes(m: StoreModel, change: crate::file::UpdateFileInput) -> bool {
    m.bucket.enable_hash_index && hash_changed(m.files[change.id].hash, file_after_update(m.files[change.id], change, 0).hash)
}

/// Why `change` cannot be applied to file `change.id`, once the checker accepts it.
pub open spec fn update_file_failure(m: StoreModel, change: crate::file::UpdateFileInput) -> Option<Seq<char>> {
    let f = m.files[change.id];
    let nf = file_after_update(f, change, 0);
    let status = nf.status;
    if f.status > 0 && status > 0 {
        Some("file is readonly"@)
    } else if status == 1 && f.hash is None && change.hash is None {
        Some("readonly file must have hash"@)
    } else if status == 1 && nf.size != f.filled {
        Some("file not fully uploaded"@)
    } else if update_reindexes(m, change) && nf.hash is Some && m.hashes.contains_key(nf.hash->0) {
        Some("file hash conflict, "@ + decimal(m.hashes[nf.hash->0] as nat))
    } else {
        None
    }
}

/// The store once `change` is applied at `now`: a size below what is
/// filled deletes the file's content, which must then be uploaded again.
pub open spec fn store_after_update(m: StoreModel, change: crate::file::UpdateFileInput, now: u64) -> StoreModel {
    let f = m.files[change.id];
    let nf = file_after_update(f, change, now);
    StoreModel {
        files: m.files.insert(change.id, nf),
        chunks: if nf.size < f.filled { without_chunks(m.chunks, change.id, f.chunks) } else { m.chunks },
        hashes: if update_reindexes(m, change) {
            let h1 = match nf.hash {
                Some(h) => m.hashes.insert(h, change.id),
                None => m.hashes,
            };
            match f.hash {
                Some(p) => h1.remove(p),
                None => h1,
            }
        } else {
            m.hashes
        },
        ..m
    }
}

impl BucketStore {
    /// Adds file `metadata` under the next file id, and returns that id.
    pub fn add_file(&mut self, metadata: FileMetadata) -> (r: Result<u32, String>)
        requires
            old(self).wf(),
        ensures
            final(self).wf(),
            match add_file_error(old(self)@, metadata@) {
                Some(e) => r matches Err(x) && x@ == e && final(self)@ == old(self)@,
                None => r == Ok::<u32, String>(old(self)@.bucket.file_id) && final(self)@ == added_file(
                    old(self)@,
                    metadata@,
                ),
            },
    {
        let id = self.bucket.file_id;
        if id == u32::MAX {
            return Err(owned("file id overflow"));
        }
        let parent = metadata.parent;
        self.folders.parent_to_add_file(parent, self.bucket.max_children as usize)?;
        let ghost m = self@;
        if self.bucket.enable_hash_index {
            match &metadata.hash {
                Some(hash) => {
                    if !is_zero_hash(hash) {
                        match self.hashes.get(hash) {
                            Some(prev) => {
                                let mut e = owned("file hash conflict, ");
                                push_decimal(&mut e, prev as u64);
                                return Err(e);
                            },
                            None => {},
                        }
                        self.hashes.insert(*hash, id);
                    }
                },
                None => {
                    return Err(owned("file hash is required when enable_hash_index"));
                },
            }
        }
        self.bucket.file_id = id + 1;
        self.folders.set_file(parent, id, true);
        let ghost m1 = self@;
        self.files.insert(id, metadata);
        proof {
            assert(self@.files =~= m1.files.insert(id, metadata@));
            assert(self@ =~= added_file(m, metadata@));
        }
        Ok(id)
    }

    /// Moves file `id` from folder `from` to folder `to` at `now_ms`.
    pub fn move_file(&mut self, id: u32, from: u32, to: u32, now_ms: u64) -> (r: Result<(), String>)
        requires
            old(self).wf(),
        ensures
            final(self).wf(),
            match move_file_error(old(self)@, id, from, to) {
                Some(e) => r matches Err(x) && x@ == e && final(self)@ == old(self)@,
                None => r is Ok && final(self)@ == (StoreModel {
                    folders: moved_file(old(self)@.folders, id, from, to, now_ms),
                    files: old(self)@.files.insert(
                        id,
                        FileModel { parent: to, updated_at: now_ms, ..old(self)@.files[id] },
                    ),
                    ..old(self)@
                }),
            },
    {
        self.folders.check_moving_file(from, to, self.bucket.max_children as usize)?;
        let mut file = match self.files.get(&id) {
            None => {
                return Err(message_with_id("file not found: ", id));
            },
            Some(f) => f.copy(),
        };
        if file.status != 0 {
            let mut e = message_with_id("file ", id);
            push_str(&mut e, " is not writable");
            return Err(e);
        }
        if file.parent != from {
            let mut e = message_with_id("file ", id);
            push_str(&mut e, " is not in folder ");
            push_decimal(&mut e, from as u64);
            return Err(e);
        }
        file.parent = to;
        file.updated_at = now_ms;
        let ghost m = self@;
        self.files.insert(id, file);
        self.folders.move_file(id, from, to, now_ms);
        proof {
            assert(self@.files =~= m.files.insert(id, file@));
        }
        Ok(())
    }

    /// Changes the metadata of file `change.id` at `now_ms`, once `checker`
    /// accepts the file. A size below what is filled empties the file.
    pub fn update_file<F>(&mut self, change: crate::file::UpdateFileInput, now_ms: u64, checker: F) -> (r: Result<(), String>)
        where
            F: FnOnce(&FileMetadata) -> Result<(), String>,
        requires
            old(self).wf(),
            forall|f: &FileMetadata| #[trigger] checker.requires((f,)),
        ensures
            final(self).wf(),
            !old(self)@.files.contains_key(change.id) ==> (r matches Err(e) && e@ == "file not found: "@ + decimal(
                change.id as nat,
            ) && final(self)@ == old(self)@),
            old(self)@.files.contains_key(change.id) ==> {
                let m = old(self)@;
                let f = m.files[change.id];
                match r {
                    Err(e) => final(self)@ == m && ((exists|x: FileMetadata| x@ == f && #[trigger] checker.ensures((&x,), Err(e)))
                        || ((exists|x: FileMetadata| x@ == f && #[trigger] checker.ensures((&x,), Ok(())))
                        && update_file_failure(m, change) == Some(e@))),
                    Ok(()) => (exists|x: FileMetadata| x@ == f && #[trigger] checker.ensures((&x,), Ok(())))
                        && update_file_failure(m, change) is None && final(self)@ == store_after_update(m, change, now_ms),
                }
            },
    {
        let id = change.id;
        let mut file = match self.files.get(&id) {
            None => {
                return Err(message_with_id("file not found: ", id));
            },
            Some(f) => f.copy(),
        };
        let ghost f0 = file@;
        let checked = checker(&file);
        match checked {
            Err(e) => {
                assert(checker.ensures((&file,), Err(e)));
                return Err(e);
            },
            Ok(u) => {
                assert(checker.ensures((&file,), Ok(u)));
                assert(Ok::<(), String>(u) == Ok::<(), String>(()));
            },
        }
        if let Some(size) = change.size {
            file.size = size;
        }
        if file.size == 0 {
            file.size = file.filled;
        }
        let prev_hash = file.hash;
        let status = match change.status {
            Some(s) => s,
            None => file.status,
        };
        if file.status > 0 && status > 0 {
            return Err(owned("file is readonly"));
        }
        if status == 1 && file.hash.is_none() && change.hash.is_none() {
            return Err(owned("readonly file must have hash"));
        }
        if status == 1 && file.size != file.filled {
            return Err(owned("file not fully uploaded"));
        }
        let emptied = file.size < file.filled;
        let old_chunks = file.chunks;
        if emptied {
            file.filled = 0;
            file.chunks = 0;
        }
        file.status = status;
        if let Some(name) = change.name {
            file.name = name;
        }
        if let Some(content_type) = change.content_type {
            file.content_type = content_type;
        }
        if change.hash.is_some() {
            file.hash = change.hash;
        }
        if let Some(b) = change.by_hash {
            file.by_hash = b;
        }
        file.updated_at = now_ms;
        let ghost m = self@;
        let changed = match (&prev_hash, &file.hash) {
            (Some(a), Some(b)) => !crate::bucket::same_hash(a, b),
            (None, None) => false,
            _ => true,
        };
        if self.bucket.enable_hash_index && changed {
            if let Some(hash) = &file.hash {
                if let Some(prev) = self.hashes.get(hash) {
                    let mut e = owned("file hash conflict, ");
                    push_decimal(&mut e, prev as u64);
                    return Err(e);
                }
                self.hashes.insert(*hash, id);
            }
            if let Some(p) = &prev_hash {
                self.hashes.remove(p);
            }
        }
        if emptied {
            self.remove_chunks(id, old_chunks);
        }
        let ghost m1 = self@;
        self.files.insert(id, file);
        proof {
            assert(self@.files =~= m1.files.insert(id, file@));
            assert(self@ =~= (StoreModel { files: m.files.insert(id, file@), hashes: m1.hashes, chunks: m1.chunks, ..m }));
        }
        Ok(())
    }

    /// Removes file `id` at `now_ms`, once `checker` accepts it: `Ok(false)`
    /// when it does not exist.
    pub fn delete_file<F>(&mut self, id: u32, now_ms: u64, checker: F) -> (r: Result<bool, String>)
        where
            F: FnOnce(&FileMetadata) -> Result<(), String>,
        requires
            old(self).wf(),
            forall|f: &FileMetadata| #[trigger] checker.requires((f,)),
        ensures
            final(self).wf(),
            !old(self)@.files.contains_key(id) ==> r == Ok::<bool, String>(false) && final(self)@ == old(self)@,
            old(self)@.files.contains_key(id) ==> {
                let m = old(self)@;
                let f = m.files[id];
                match r {
                    Err(e) => final(self)@ == m && (if f.status > 0 {
                        e@ == "file is readonly"@
                    } else {
                        (exists|x: FileMetadata| x@ == f && #[trigger] checker.ensures((&x,), Err(e)))
                            || ((exists|x: FileMetadata| x@ == f && #[trigger] checker.ensures((&x,), Ok(())))
                            && parent_to_update_error(m.folders, f.parent) == Some(e@))
                    }),
                    Ok(b) => b && f.status <= 0 && (exists|x: FileMetadata| x@ == f && #[trigger] checker.ensures(
                        (&x,),
                        Ok(()),
                    )) && parent_to_update_error(m.folders, f.parent) is None && final(self)@ == (StoreModel {
                        folders: touched(without_file(m, f.parent, id).folders, f.parent, now_ms),
                        ..without_file(m, f.parent, id)
                    }),
                }
            },
    {
        let file = match self.files.get(&id) {
            None => {
                return Ok(false);
            },
            Some(f) => f.copy(),
        };
        if file.status > 0 {
            return Err(owned("file is readonly"));
        }
        let checked = checker(&file);
        match checked {
            Err(e) => {
                assert(checker.ensures((&file,), Err(e)));
                return Err(e);
            },
            Ok(u) => {
                assert(checker.ensures((&file,), Ok(u)));
                assert(Ok::<(), String>(u) == Ok::<(), String>(()));
            },
        }
        let parent = file.parent;
        self.folders.parent_to_update(parent)?;
        let ghost m = self@;
        self.remove_file(parent, id);
        self.folders.touch(parent, now_ms);
        Ok(true)
    }

    /// Removes file `id`, which exists, and unlists it from folder `parent`,
    /// which exists.
    fn remove_file(&mut self, parent: u32, id: u32)
        requires
            old(self).wf(),
            old(self)@.files.contains_key(id),
            old(self)@.folders.contains_key(parent),
        ensures
            final(self).wf(),
            final(self)@ == without_file(old(self)@, parent, id),
    {
        let ghost m = self@;
        let file = self.files.remove(&id);
        match file {
            Some(file) => {
                self.folders.set_file(parent, id, false);
                if let Some(hash) = &file.hash {
                    self.hashes.remove(hash);
                }
                self.remove_chunks(id, file.chunks);
                proof {
                    assert(self@ =~= without_file(m, parent, id));
                }
            },
            None => {},
        }
    }

    /// One step of clearing the files of folder `parent`, which exists.
    fn purge_file(&mut self, parent: u32, id: u32) -> (removed: bool)
        requires
            old(self).wf(),
            old(self)@.folders.contains_key(parent),
        ensures
            final(self).wf(),
            final(self)@.folders.contains_key(parent),
            (final(self)@, removed) == purge_step(old(self)@, parent, id),
    {
        let ghost m = self@;
        let listed = match self.folders.get(parent) {
            Some(f) => f.files.contains(id),
            None => false,
        };
        if !listed {
            return false;
        }
        let status = match self.files.get(&id) {
            Some(f) => f.status,
            None => {
                self.folders.set_file(parent, id, false);
                return false;
            },
        };
        if status < 1 {
            self.remove_file(parent, id);
            true
        } else {
            false
        }
    }

    /// Clears the files `ids` of folder `parent` in order; returns the ids removed.
    fn purge_files(&mut self, parent: u32, ids: &Vec<u32>) -> (removed: Vec<u32>)
        requires
            old(self).wf(),
            old(self)@.folders.contains_key(parent),
        ensures
            final(self).wf(),
            final(self)@.folders.contains_key(parent),
            (final(self)@, removed@) == purge(old(self)@, parent, ids@),
    {
        let ghost m = self@;
        let mut removed: Vec<u32> = Vec::new();
        for i in 0..ids.len()
            invariant
                self.wf(),
                self@.folders.contains_key(parent),
                (self@, removed@) == purge(m, parent, ids@.take(i as int)),
        {
            let id = ids[i];
            assert(ids@.take(i + 1).drop_last() =~= ids@.take(i as int));
            if self.purge_file(parent, id) {
                removed.push(id);
            }
        }
        assert(ids@.take(ids@.len() as int) =~= ids@);
        removed
    }

    /// Removes the files `ids` of folder `parent` at `now_ms`, but those that
    /// are read-only, taking each id once in increasing order; returns the
    /// ids removed.
    pub fn batch_delete_subfiles(&mut self, parent: u32, ids: Vec<u32>, now_ms: u64) -> (r: Result<Vec<u32>, String>)
        requires
            old(self).wf(),
        ensures
            final(self).wf(),
            match parent_to_update_error(old(self)@.folders, parent) {
                Some(e) => r matches Err(x) && x@ == e && final(self)@ == old(self)@,
                None => r matches Ok(v) && {
                    let (m1, removed) = purge(old(self)@, parent, ordered(ids@.to_set()));
                    &&& v@ == removed
                    &&& final(self)@ == if removed.len() > 0 {
                        StoreModel { folders: touched(m1.folders, parent, now_ms), ..m1 }
                    } else {
                        m1
                    }
                },
            },
    {
        self.folders.parent_to_update(parent)?;
        let ids = crate::ids::sorted_distinct(&ids);
        let removed = self.purge_files(parent, &ids);
        if removed.len() > 0 {
            self.folders.touch(parent, now_ms);
        }
        Ok(removed)
    }

    /// Deletes folder `id` at `now_ms`, once `checker` accepts it: its files
    /// that are not read-only go first; the folder goes if it is then empty.
    pub fn delete_folder<F>(&mut self, id: u32, now_ms: u64, checker: F) -> (r: Result<bool, String>)
        where
            F: FnOnce(&FolderMetadata) -> Result<(), String>,
        requires
            old(self).wf(),
            forall|f: &FolderMetadata| #[trigger] checker.requires((f,)),
        ensures
            final(self).wf(),
            id == 0 ==> (r matches Err(e) && e@ == "root folder cannot be deleted"@ && final(self)@ == old(self)@),
            id != 0 && parent_to_update_error(old(self)@.folders, id) is Some ==> (r matches Err(e) && Some(e@)
                == parent_to_update_error(old(self)@.folders, id) && final(self)@ == old(self)@),
            id != 0 && parent_to_update_error(old(self)@.folders, id) is None ==> {
                let m = old(self)@;
                let f = m.folders[id];
                let m1 = purge(m, id, ordered(f.files)).0;
                match r {
                    Err(e) => ((exists|x: FolderMetadata| x@ == f && #[trigger] checker.ensures((&x,), Err(e)))
                        && final(self)@ == m) || ((exists|x: FolderMetadata| x@ == f && #[trigger] checker.ensures(
                        (&x,),
                        Ok(()),
                    )) && crate::tree::delete_folder_error(m1.folders, id) == Some(e@) && final(self)@ == m1),
                    Ok(b) => (exists|x: FolderMetadata| x@ == f && #[trigger] checker.ensures((&x,), Ok(())))
                        && crate::tree::delete_folder_error(m1.folders, id) is None && b && final(self)@ == (StoreModel {
                        folders: crate::tree::deleted_folder(m1.folders, id, now_ms),
                        ..m1
                    }),
                }
            },
    {
        if id == 0 {
            return Err(owned("root folder cannot be deleted"));
        }
        self.folders.parent_to_update(id)?;
        let folder = match self.folders.get(id) {
            Some(f) => f,
            None => {
                return Err(owned("folder not found"));
            },
        };
        assert(folder@ == old(self)@.folders[id]);
        assert(self@ == old(self)@);
        let checked = checker(&folder);
        match checked {
            Err(e) => {
                assert(checker.ensures((&folder,), Err(e)));
                return Err(e);
            },
            Ok(u) => {
                assert(checker.ensures((&folder,), Ok(u)));
                assert(Ok::<(), String>(u) == Ok::<(), String>(()));
            },
        }
        folder.files.seq_facts();
        let files = folder.files.to_vec();
        self.purge_files(id, &files);
        let ghost m1 = self@;
        let r = self.folders.delete_folder(id, now_ms);
        proof {
            if r is Err {
                assert(self@ =~= m1);
            }
        }
        r
    }
}

} // verus!
