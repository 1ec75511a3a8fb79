//! A flat file store that a canister can embed: files by id, from 1 up,
//! their chunks, a size limit, a visibility and managers.
use vstd::prelude::*;
use std::collections::BTreeMap;
use crate::access::{bytes_views, contains_bytes};
use crate::bucket::{chunk_key, FileId};
use crate::file::{FileChunk, FileInfo, UpdateFileInput, CHUNK_SIZE, MAX_FILE_SIZE};
use crate::fs::{chunk_of, file_bytes, first_missing, without_chunks};
use crate::ids::{desc_below, ordered, IdSet};
use crate::text::{decimal, owned, push_decimal, push_str};

verus! {

/// File metadata as the store keeps it.
#[derive(Clone, Debug, Default)]
pub struct FileMetadata {
    pub name: String,
    /// The MIME type.
    pub content_type: String,
    pub size: u64,
    pub filled: u64,
    /// Unix timestamp in milliseconds.
    pub created_at: u64,
    /// Unix timestamp in milliseconds.
    pub updated_at: u64,
    pub chunks: u32,
    /// The content's hash (SHA3-256 recommended).
    pub hash: Option<[u8; 32]>,
}

/// The mathematical value of a [`FileMetadata`].
pub struct FileModel {
    pub name: Seq<char>,
    pub content_type: Seq<char>,
    pub size: u64,
    pub filled: u64,
    pub created_at: u64,
    pub updated_at: u64,
    pub chunks: u32,
    pub hash: Option<Seq<u8>>,
}

impl View for FileMetadata {
    type V = FileModel;

    open spec fn view(&self) -> FileModel {
        FileModel {
            name: self.name@,
            content_type: self.content_type@,
            size: self.size,
            filled: self.filled,
            created_at: self.created_at,
            updated_at: self.updated_at,
            chunks: self.chunks,
            hash: crate::bucket::hash_view(self.hash),
        }
    }
}

/// `info` describes file `f` under the id `id`, at the root, readable and writable.
pub open spec fn described(info: FileInfo, id: u32, f: FileModel) -> bool {
    &&& info.id == id
    &&& info.parent == 0
    &&& info.name@ == f.name
    &&& info.content_type@ == f.content_type
    &&& info.size == f.size
    &&& info.filled == f.filled
    &&& info.created_at == f.created_at
    &&& info.updated_at == f.updated_at
    &&& info.chunks == f.chunks
    &&& info.status == 0
    &&& crate::bucket::hash_view(info.hash) == f.hash
    &&& info.dek is None
}

impl FileMetadata {
    /// A copy of the metadata.
    pub fn copy(&self) -> (r: FileMetadata)
        ensures
            r@ == self@,
    {
        FileMetadata {
            name: self.name.clone(),
            content_type: self.content_type.clone(),
            size: self.size,
            filled: self.filled,
            created_at: self.created_at,
            updated_at: self.updated_at,
            chunks: self.chunks,
            hash: self.hash,
        }
    }

    /// The file as seen from outside, under the id `id`.
    pub fn into_info(self, id: u32) -> (r: FileInfo)
        ensures
            described(r, id, self@),
    {
        FileInfo {
            id,
            parent: 0,
            name: self.name,
            content_type: self.content_type,
            size: self.size,
            filled: self.filled,
            created_at: self.created_at,
            updated_at: self.updated_at,
            chunks: self.chunks,
            status: 0,
            hash: self.hash,
            dek: None,
        }
    }
}

/// The mathematical value of a [`Files`] store.
pub struct FilesModel {
    /// The id the next file gets.
    pub file_id: u32,
    pub max_file_size: u64,
    /// 0: private; 1: public.
    pub visibility: u8,
    pub managers: Seq<Seq<u8>>,
    pub files: Map<u32, FileModel>,
    pub chunks: Map<u64, Seq<u8>>,
}

/// The files of a canister and their chunks.
#[derive(Debug)]
pub struct Files {
    file_id: u32,
    max_file_size: u64,
    visibility: u8,
    managers: Vec<Vec<u8>>,
    files: BTreeMap<u32, FileMetadata>,
    ids: IdSet,
    chunks: BTreeMap<u64, Vec<u8>>,
    /// For each file, the indexes under which chunks of it were stored.
    parts: BTreeMap<u32, Vec<u32>>,
}

impl View for Files {
    type V = FilesModel;

    closed spec fn view(&self) -> FilesModel {
        FilesModel {
            file_id: self.file_id,
            max_file_size: self.max_file_size,
            visibility: self.visibility,
            managers: bytes_views(self.managers@),
            files: self.files@.map_values(|f: FileMetadata| f@),
            chunks: self.chunks@.map_values(|c: Vec<u8>| c@),
        }
    }
}

/// The files listed below `prev`, largest id first: `r` describes the first
/// of `ids`, at most `take` of them (and at least one).
pub open spec fn listing(files: Map<u32, FileModel>, ids: Seq<u32>, take: u32, r: Seq<FileInfo>) -> bool {
    let cap: int = if take == 0 { 1 } else { take as int };
    &&& r.len() == (if ids.len() < cap { ids.len() as int } else { cap })
    &&& forall|j: int| 0 <= j < r.len() ==> files.contains_key(#[trigger] ids[j])
    &&& forall|j: int| 0 <= j < r.len() ==> described(#[trigger] r[j], ids[j], files[ids[j]])
}

impl Files {
    /// The store is well formed: file ids run from 1 up to the next id, the
    /// index of ids holds the files' ids, every stored chunk belongs to a file,
    /// below its chunk count, and is listed among that file's parts, and no
    /// file stores more bytes than it has filled.
    pub closed spec fn wf(&self) -> bool {
        &&& self.file_id >= 1
        &&& self.ids@ == self.files@.dom()
        &&& forall|k: u32| #[trigger] self.files@.contains_key(k) ==> 1 <= k < self.file_id
        &&& forall|id: u32, i: u32| #[trigger] self.chunks@.contains_key(chunk_key(id, i)) ==> {
            &&& self.files@.contains_key(id)
            &&& i < self.files@[id].chunks
            &&& self.parts@.contains_key(id)
            &&& self.parts@[id]@.contains(i)
        }
        &&& forall|id: u32| #[trigger] self.files@.contains_key(id) ==> stored_sum(
            self@.chunks,
            id,
            self.files@[id].chunks as nat,
        ) <= self.files@[id].filled
    }

    /// A store with no file, for files of up to `MAX_FILE_SIZE` bytes,
    /// private and with no manager; the first file gets the id 1.
    pub fn new() -> (r: Files)
        ensures
            r.wf(),
            r@.file_id == 1,
            r@.max_file_size == MAX_FILE_SIZE,
            r@.visibility == 0,
            r@.managers.len() == 0,
            r@.files == Map::<u32, FileModel>::empty(),
            r@.chunks == Map::<u64, Seq<u8>>::empty(),
    {
        let r = Files {
            file_id: 1,
            max_file_size: MAX_FILE_SIZE,
            visibility: 0,
            managers: Vec::new(),
            files: BTreeMap::new(),
            ids: IdSet::new(),
            chunks: BTreeMap::new(),
            parts: BTreeMap::new(),
        };
        assert(r@.files =~= Map::<u32, FileModel>::empty());
        assert(r@.chunks =~= Map::<u64, Seq<u8>>::empty());
        assert(r@.managers =~= Seq::<Seq<u8>>::empty());
        r
    }

    /// Sets the size limit of a file.
    pub fn set_max_file_size(&mut self, size: u64)
        requires
            old(self).wf(),
        ensures
            final(self).wf(),
            final(self)@ == (FilesModel { max_file_size: size, ..old(self)@ }),
    {
        self.max_file_size = size;
    }

    /// Sets the visibility: 0 private, 1 public.
    pub fn set_visibility(&mut self, visibility: u8)
        requires
            old(self).wf(),
        ensures
            final(self).wf(),
            final(self)@ == (FilesModel { visibility, ..old(self)@ }),
    {
        self.visibility = visibility;
    }

    /// Sets the managers, as principals' bytes.
    pub fn set_managers(&mut self, managers: Vec<Vec<u8>>)
        requires
            old(self).wf(),
        ensures
            final(self).wf(),
            final(self)@ == (FilesModel { managers: bytes_views(managers@), ..old(self)@ }),
    {
        self.managers = managers;
    }

    /// Whether `caller` is a manager.
    pub fn is_manager(&self, caller: &[u8]) -> (r: bool)
        ensures
            r == self@.managers.contains(caller@),
    {
        contains_bytes(&self.managers, caller)
    }

    /// The number of stored chunks.
    pub fn total_chunks(&self) -> (n: u64)
        ensures
            n == self@.chunks.len(),
    {
        proof {
            assert(self@.chunks.dom() =~= self.chunks@.dom());
        }
        self.chunks.len() as u64
    }

    /// A copy of the metadata of file `id`; none for the id 0.
    pub fn get_file(&self, id: u32) -> (r: Option<FileMetadata>)
        ensures
            id == 0 ==> r is None,
            id != 0 ==> match r {
                Some(f) => self@.files.contains_key(id) && f@ == self@.files[id],
                None => !self@.files.contains_key(id),
            },
    {
        if id == 0 {
            return None;
        }
        match self.files.get(&id) {
            Some(f) => Some(f.copy()),
            None => None,
        }
    }

    /// The files below `prev`, largest id first, at most `take` of them (and
    /// at least one when there is one).
    pub fn list_files(&self, prev: u32, take: u32) -> (r: Vec<FileInfo>)
        requires
            self.wf(),
        ensures
            listing(self@.files, desc_below(ordered(self@.files.dom()), prev), take, r@),
    {
        let ghost files = self@.files;
        assert(self@.files.dom() =~= self.files@.dom());
        self.ids.seq_facts();
        let ids = self.ids.below_desc(prev);
        proof {
            crate::ids::lemma_desc_below_members(self.ids.seq(), prev);
        }
        let mut res: Vec<FileInfo> = Vec::new();
        let mut i: usize = 0;
        while i < ids.len()
            invariant_except_break
                files == self@.files,
                self.ids@ == self.files@.dom(),
                forall|j: int| 0 <= j < ids@.len() ==> self.ids@.contains(#[trigger] ids@[j]),
                i <= ids@.len(),
                res@.len() == i,
                i == 0 || i < take,
                forall|j: int| 0 <= j < i ==> files.contains_key(#[trigger] ids@[j]),
                forall|j: int| 0 <= j < i ==> described(#[trigger] res@[j], ids@[j], files[ids@[j]]),
            ensures
                listing(files, ids@, take, res@),
            decreases ids@.len() - i,
        {
            let fid = ids[i];
            assert(self.ids@.contains(fid));
            let f = match self.files.get(&fid) {
                Some(f) => f,
                None => {
                    assert(false);
                    break;
                },
            };
            let info = f.copy().into_info(fid);
            let ghost before = res@;
            res.push(info);
            assert(forall|j: int| 0 <= j < i ==> res@[j] == before[j]);
            if res.len() >= take as usize {
                break;
            }
            i += 1;
        }
        res
    }

    /// Adds file `file` under the next id, and returns that id.
    pub fn add_file(&mut self, file: FileMetadata) -> (r: Result<u32, String>)
        requires
            old(self).wf(),
        ensures
            final(self).wf(),
            file.size > old(self)@.max_file_size ==> (r matches Err(e) && e@ == "file size exceeds limit: "@
                + decimal(old(self)@.max_file_size as nat) && final(self)@ == old(self)@),
            file.size <= old(self)@.max_file_size && old(self)@.file_id == u32::MAX ==> (r matches Err(e) && e@
                == "file id overflow"@ && final(self)@ == old(self)@),
            file.size <= old(self)@.max_file_size && old(self)@.file_id < u32::MAX ==> (r == Ok::<u32, String>(
                old(self)@.file_id,
            ) && final(self)@ == (FilesModel {
                file_id: (old(self)@.file_id + 1) as u32,
                files: old(self)@.files.insert(old(self)@.file_id, file@),
                ..old(self)@
            })),
    {
        if file.size > self.max_file_size {
            let mut e = owned("file size exceeds limit: ");
            push_decimal(&mut e, self.max_file_size);
            return Err(e);
        }
        let id = self.file_id;
        if id == u32::MAX {
            return Err(owned("file id overflow"));
        }
        let ghost m = self@;
        self.file_id = id + 1;
        self.files.insert(id, file);
        self.ids.insert(id);
        proof {
            assert(self@.files =~= m.files.insert(id, file@));
            assert(self.ids@ =~= self.files@.dom());
            assert forall|i: u32| 0 <= i < self.files@[id].chunks implies !m.chunks.contains_key(#[trigger] chunk_key(id, i)) by {
                if m.chunks.contains_key(chunk_key(id, i)) {
                    assert(old(self).chunks@.contains_key(chunk_key(id, i)));
                }
            }
            lemma_stored_extend(m.chunks, id, 0, self.files@[id].chunks as nat);
            assert forall|k: u32| #[trigger] self.files@.contains_key(k) implies stored_sum(
                self@.chunks,
                k,
                self.files@[k].chunks as nat,
            ) <= self.files@[k].filled by {
                if k != id {
                    assert(old(self).files@.contains_key(k));
                }
            }
        }
        Ok(id)
    }

    /// Renames file `change.id`, or sets its content type or hash, at
    /// `now_ms`, once it is fully uploaded.
    pub fn update_file(&mut self, change: UpdateFileInput, now_ms: u64) -> (r: Result<(), String>)
        requires
            old(self).wf(),
        ensures
            final(self).wf(),
            change.id == 0 ==> (r matches Err(e) && e@ == "invalid file id"@ && final(self)@ == old(self)@),
            change.id != 0 && !old(self)@.files.contains_key(change.id) ==> (r matches Err(e) && e@
                == "file not found: "@ + decimal(change.id as nat) && final(self)@ == old(self)@),
            change.id != 0 && old(self)@.files.contains_key(change.id) ==> {
                let f = old(self)@.files[change.id];
                if f.size != f.filled {
                    r matches Err(e) && e@ == "file not fully uploaded"@ && final(self)@ == old(self)@
                } else {
                    r is Ok && final(self)@ == (FilesModel {
                        files: old(self)@.files.insert(
                            change.id,
                            FileModel {
                                name: match change.name {
                                    Some(n) => n@,
                                    None => f.name,
                                },
                                content_type: match change.content_type {
                                    Some(t) => t@,
                                    None => f.content_type,
                                },
                                hash: match change.hash {
                                    Some(h) => Some(h@),
                                    None => f.hash,
                                },
                                updated_at: now_ms,
                                ..f
                            },
                        ),
                        ..old(self)@
                    })
                }
            },
    {
        if change.id == 0 {
            return Err(owned("invalid file id"));
        }
        let mut file = match self.files.get(&change.id) {
            None => {
                let mut e = owned("file not found: ");
                push_decimal(&mut e, change.id as u64);
                return Err(e);
            },
            Some(f) => f.copy(),
        };
        if file.size != file.filled {
            return Err(owned("file not fully uploaded"));
        }
        if let Some(name) = change.name {
            file.name = name;
        }
        if let Some(content_type) = change.content_type {
            file.content_type = content_type;
        }
        if change.hash.is_some() {
            file.hash = change.hash;
        }
        file.updated_at = now_ms;
        let ghost m = self@;
        self.files.insert(change.id, file);
        proof {
            assert(self@.files =~= m.files.insert(change.id, file@));
            assert(self.ids@ =~= self.files@.dom());
        }
        Ok(())
    }

    /// Chunk `chunk_index` of file `id`; none for the id 0.
    pub fn get_chunk(&self, id: u32, chunk_index: u32) -> (r: Option<FileChunk>)
        ensures
            id == 0 ==> r is None,
            id != 0 ==> match r {
                Some(fc) => self@.chunks.contains_key(chunk_key(id, chunk_index)) && fc.0 == chunk_index && fc.1@
                    == self@.chunks[chunk_key(id, chunk_index)],
                None => !self@.chunks.contains_key(chunk_key(id, chunk_index)),
            },
    {
        if id == 0 {
            return None;
        }
        match self.chunks.get(&FileId(id, chunk_index).key()) {
            Some(c) => Some(FileChunk(chunk_index, crate::bucket::copy_bytes(c))),
            None => None,
        }
    }

    /// The whole content of file `id`, once fully uploaded and all its
    /// chunks are there.
    pub fn get_full_chunks(&self, id: u32) -> (r: Result<Vec<u8>, String>)
        requires
            self.wf(),
        ensures
            match full_chunks_failure(self@, id) {
                Some(e) => r matches Err(x) && x@ == e,
                None => r matches Ok(v) && v@ == file_bytes(self@.chunks, id, self@.files[id].chunks as nat),
            },
    {
        let ghost c = self@.chunks;
        if id == 0 {
            return Err(owned("invalid file id"));
        }
        let (size, chunks) = match self.files.get(&id) {
            None => {
                let mut e = owned("file not found: ");
                push_decimal(&mut e, id as u64);
                return Err(e);
            },
            Some(file) => {
                if file.size != file.filled {
                    return Err(owned("file not fully uploaded"));
                }
                (file.size, file.chunks)
            },
        };
        let mut buf: Vec<u8> = Vec::new();
        for i in 0..chunks
            invariant
                c == self@.chunks,
                self@.files.contains_key(id),
                self@.files[id].chunks == chunks,
                self@.files[id].size == size,
                self@.files[id].filled == size,
                id != 0,
                first_missing(c, id, i as nat) is None,
                buf@ == file_bytes(c, id, i as nat),
        {
            let key = FileId(id, i).key();
            match self.chunks.get(&key) {
                None => {
                    let mut e = owned("file chunk not found: ");
                    push_decimal(&mut e, id as u64);
                    push_str(&mut e, ", ");
                    push_decimal(&mut e, i as u64);
                    proof {
                        assert(first_missing(c, id, (i + 1) as nat) == Some(i));
                        crate::fs::lemma_first_missing_stays(c, id, (i + 1) as nat, chunks as nat);
                    }
                    return Err(e);
                },
                Some(chunk) => {
                    let ghost before = buf@;
                    buf.extend_from_slice(chunk.as_slice());
                    assert(buf@ =~= before + c[key]);
                },
            }
        }
        if buf.len() as u64 != size {
            let mut e = owned("file size mismatch, expected ");
            push_decimal(&mut e, size);
            push_str(&mut e, ", got ");
            push_decimal(&mut e, buf.len() as u64);
            return Err(e);
        }
        Ok(buf)
    }

    /// Writes `chunk` as chunk `chunk_index` of file `file_id` at `now_ms`,
    /// and returns the bytes filled: the file's fill, less the chunk it
    /// replaces, plus the new one. A write that would take the fill past the
    /// size limit is refused and changes nothing; a fill past the declared
    /// size grows it.
    pub fn update_chunk(&mut self, file_id: u32, chunk_index: u32, now_ms: u64, chunk: Vec<u8>) -> (r: Result<u64, String>)
        requires
            old(self).wf(),
            old(self)@.files.contains_key(file_id) ==> old(self)@.files[file_id].filled + chunk@.len() <= u64::MAX,
        ensures
            final(self).wf(),
            match chunk_failure(old(self)@, file_id, chunk_index, chunk@.len()) {
                Some(e) => r matches Err(x) && x@ == e && final(self)@ == old(self)@,
                None => {
                    let m = old(self)@;
                    let f = m.files[file_id];
                    let key = chunk_key(file_id, chunk_index);
                    let filled = f.filled + chunk@.len() - stored_len(m.chunks, key);
                    if filled > m.max_file_size {
                        r matches Err(x) && x@ == "file size exceeds limit: "@ + decimal(m.max_file_size as nat)
                            && final(self)@ == m
                    } else {
                        let chunks: u32 = if !m.chunks.contains_key(key) && f.chunks <= chunk_index {
                            (chunk_index + 1) as u32
                        } else {
                            f.chunks
                        };
                        r == Ok::<u64, String>(filled as u64) && final(self)@ == (FilesModel {
                            files: m.files.insert(
                                file_id,
                                FileModel {
                                    filled: filled as u64,
                                    chunks,
                                    size: if f.size < filled { filled as u64 } else { f.size },
                                    updated_at: now_ms,
                                    ..f
                                },
                            ),
                            chunks: m.chunks.insert(key, chunk@),
                            ..m
                        })
                    }
                },
            },
    {
        if file_id == 0 {
            return Err(owned("invalid file id"));
        }
        if chunk.len() == 0 {
            return Err(owned("empty chunk"));
        }
        if chunk.len() > CHUNK_SIZE as usize {
            let mut e = owned("chunk size too large, max size is ");
            push_decimal(&mut e, CHUNK_SIZE as u64);
            push_str(&mut e, " bytes");
            return Err(e);
        }
        if chunk_index == u32::MAX {
            return Err(owned("invalid chunk index"));
        }
        let mut file = match self.files.get(&file_id) {
            None => {
                let mut e = owned("file not found: ");
                push_decimal(&mut e, file_id as u64);
                return Err(e);
            },
            Some(f) => f.copy(),
        };
        let key = FileId(file_id, chunk_index).key();
        let (existed, old_len) = match self.chunks.get(&key) {
            Some(c) => (true, c.len() as u64),
            None => (false, 0u64),
        };
        proof {
            if existed {
                assert(old(self).chunks@.contains_key(chunk_key(file_id, chunk_index)));
                lemma_stored_within(self@.chunks, file_id, chunk_index, file.chunks as nat);
            }
            assert(old_len == stored_len(self@.chunks, key));
        }
        let filled = file.filled + chunk.len() as u64 - old_len;
        if filled > self.max_file_size {
            let mut e = owned("file size exceeds limit: ");
            push_decimal(&mut e, self.max_file_size);
            return Err(e);
        }
        let ghost m = self@;
        let ghost stored = chunk@;
        self.chunks.insert(key, chunk);
        if !existed {
            if file.chunks <= chunk_index {
                file.chunks = chunk_index + 1;
            }
            let mut idxs = match self.parts.remove(&file_id) {
                Some(v) => v,
                None => Vec::new(),
            };
            idxs.push(chunk_index);
            self.parts.insert(file_id, idxs);
        }
        file.filled = filled;
        file.updated_at = now_ms;
        if file.size < filled {
            file.size = filled;
        }
        self.files.insert(file_id, file);
        proof {
            assert(self.ids@ =~= self.files@.dom());
            assert(self@.chunks =~= m.chunks.insert(key, stored));
            assert(self@.files =~= m.files.insert(file_id, self.files@[file_id]@));
            assert forall|id: u32, i: u32| #[trigger] self.chunks@.contains_key(chunk_key(id, i)) implies {
                &&& self.files@.contains_key(id)
                &&& i < self.files@[id].chunks
                &&& self.parts@.contains_key(id)
                &&& self.parts@[id]@.contains(i)
            } by {
                crate::bucket::lemma_chunk_key_injective(id, i, file_id, chunk_index);
                if chunk_key(id, i) == key {
                    assert(id == file_id && i == chunk_index);
                    if existed {
                        assert(old(self).chunks@.contains_key(chunk_key(id, i)));
                    } else {
                        assert(self.parts@[id]@.last() == i);
                    }
                } else {
                    assert(old(self).chunks@.contains_key(chunk_key(id, i)));
                    assert(old(self).files@.contains_key(id));
                    if id == file_id && !existed {
                        let v = self.parts@[id]@;
                        let w = old(self).parts@[id]@;
                        assert(w.contains(i));
                        let q = choose|q: int| 0 <= q < w.len() && w[q] == i;
                        assert(v[q] == i);
                    } else if id != file_id {
                        assert(self.parts@[id] == old(self).parts@[id]);
                        assert(self.files@[id] == old(self).files@[id]);
                    }
                }
            }
            let n0 = m.files[file_id].chunks as nat;
            let n1 = self.files@[file_id].chunks as nat;
            if !existed {
                assert forall|i: u32| n0 <= i < n1 implies !m.chunks.contains_key(#[trigger] chunk_key(file_id, i)) by {
                    if m.chunks.contains_key(chunk_key(file_id, i)) {
                        assert(old(self).chunks@.contains_key(chunk_key(file_id, i)));
                    }
                }
                lemma_stored_extend(m.chunks, file_id, n0, n1);
            }
            lemma_stored_write(m.chunks, file_id, chunk_index, stored, n1);
            assert forall|k: u32| #[trigger] self.files@.contains_key(k) implies stored_sum(
                self@.chunks,
                k,
                self.files@[k].chunks as nat,
            ) <= self.files@[k].filled by {
                if k != file_id {
                    assert(old(self).files@.contains_key(k));
                    assert forall|i: u32| i < self.files@[k].chunks implies stored_len(self@.chunks, #[trigger] chunk_key(k, i))
                        == stored_len(m.chunks, chunk_key(k, i)) by {
                        crate::bucket::lemma_chunk_key_injective(k, i, file_id, chunk_index);
                    }
                    lemma_stored_same(self@.chunks, m.chunks, k, self.files@[k].chunks as nat);
                }
            }
        }
        Ok(filled)
    }

    /// Deletes file `id` and its chunks; `Ok(false)` when it does not exist.
    pub fn delete_file(&mut self, id: u32) -> (r: Result<bool, String>)
        requires
            old(self).wf(),
        ensures
            final(self).wf(),
            id == 0 ==> (r matches Err(e) && e@ == "invalid file id"@ && final(self)@ == old(self)@),
            id != 0 && !old(self)@.files.contains_key(id) ==> (r == Ok::<bool, String>(false) && final(self)@
                == old(self)@),
            id != 0 && old(self)@.files.contains_key(id) ==> (r == Ok::<bool, String>(true) && final(self)@ == (
            FilesModel {
                files: old(self)@.files.remove(id),
                chunks: without_chunks(old(self)@.chunks, id, old(self)@.files[id].chunks),
                ..old(self)@
            })),
    {
        if id == 0 {
            return Err(owned("invalid file id"));
        }
        let ghost m = self@;
        match self.files.remove(&id) {
            None => {
                assert(self.files@ =~= old(self).files@);
                assert(self@ =~= m);
                Ok(false)
            },
            Some(_) => {
                self.ids.remove(id);
                assert(self.ids@ =~= self.files@.dom());
                let idxs = match self.parts.remove(&id) {
                    Some(v) => v,
                    None => Vec::new(),
                };
                let ghost c0 = self.chunks@;
                let ghost parts0 = self.parts@;
                let mut j: usize = 0;
                while j < idxs.len()
                    invariant
                        self.ids@ == self.files@.dom(),
                        self.file_id == m.file_id,
                        self.max_file_size == m.max_file_size,
                        self.visibility == m.visibility,
                        self.managers@ == old(self).managers@,
                        self.files@ == old(self).files@.remove(id),
                        self.parts@ == parts0,
                        c0 == old(self).chunks@,
                        j <= idxs.len(),
                        forall|k: u64| #[trigger] self.chunks@.contains_key(k) ==> c0.contains_key(k) && self.chunks@[k]
                            == c0[k],
                        forall|k: u64| #[trigger] c0.contains_key(k) && k / 0x1_0000_0000 != id ==> self.chunks@.contains_key(k),
                        forall|q: int| 0 <= q < j ==> !self.chunks@.contains_key(chunk_key(id, #[trigger] idxs@[q])),
                    decreases idxs.len() - j,
                {
                    let key = FileId(id, idxs[j]).key();
                    self.chunks.remove(&key);
                    proof {
                        crate::fs::lemma_chunk_key_parts(id, idxs@[j as int]);
                    }
                    j += 1;
                }
                proof {
                    lemma_deleted_chunks(old(self).chunks@, self.chunks@, old(self).files@, old(self).parts@, idxs@, id);
                    assert(self@.chunks =~= without_chunks(m.chunks, id, m.files[id].chunks));
                    assert(self@.files =~= m.files.remove(id));
                    assert(forall|k: u32| #[trigger] self.files@.contains_key(k) ==> old(self).files@.contains_key(k));
                    assert forall|k: u32| #[trigger] self.files@.contains_key(k) implies stored_sum(
                        self@.chunks,
                        k,
                        self.files@[k].chunks as nat,
                    ) <= self.files@[k].filled by {
                        assert(old(self).files@.contains_key(k));
                        assert forall|i: u32| i < self.files@[k].chunks implies stored_len(self@.chunks, #[trigger] chunk_key(k, i))
                            == stored_len(m.chunks, chunk_key(k, i)) by {
                            crate::fs::lemma_chunk_key_parts(k, i);
                        }
                        lemma_stored_same(self@.chunks, m.chunks, k, self.files@[k].chunks as nat);
                    }
                }
                Ok(true)
            },
        }
    }
}

/// What is left of the chunks once those of file `id` listed in `idxs` are
/// gone: none of that file, the others as they were.
proof fn lemma_deleted_chunks(
    c0: Map<u64, Vec<u8>>,
    c: Map<u64, Vec<u8>>,
    files: Map<u32, FileMetadata>,
    parts: Map<u32, Vec<u32>>,
    idxs: Seq<u32>,
    id: u32,
)
    requires
        files.contains_key(id),
        parts.contains_key(id) ==> parts[id]@ == idxs,
        !parts.contains_key(id) ==> idxs.len() == 0,
        forall|x: u32, i: u32| #[trigger] c0.contains_key(chunk_key(x, i)) ==> {
            &&& files.contains_key(x)
            &&& i < files[x].chunks
            &&& parts.contains_key(x)
            &&& parts[x]@.contains(i)
        },
        forall|k: u64| #[trigger] c.contains_key(k) ==> c0.contains_key(k) && c[k] == c0[k],
        forall|k: u64| #[trigger] c0.contains_key(k) && k / 0x1_0000_0000 != id ==> c.contains_key(k),
        forall|q: int| 0 <= q < idxs.len() ==> !c.contains_key(chunk_key(id, #[trigger] idxs[q])),
    ensures
        forall|k: u64| #[trigger] c.contains_key(k) <==> c0.contains_key(k) && !chunk_of(k, id, files[id].chunks),
        forall|x: u32, i: u32| #[trigger] c.contains_key(chunk_key(x, i)) ==> x != id,
{
    assert forall|k: u64| #[trigger] c.contains_key(k) <==> c0.contains_key(k) && !chunk_of(k, id, files[id].chunks) by {
        lemma_key_split(k);
        let x = (k / 0x1_0000_0000) as u32;
        let i = (k % 0x1_0000_0000) as u32;
        if c0.contains_key(k) && x == id {
            assert(c0.contains_key(chunk_key(x, i)));
            assert(parts[id]@.contains(i));
            let q = choose|q: int| 0 <= q < idxs.len() && idxs[q] == i;
            assert(!c.contains_key(chunk_key(id, idxs[q])));
        }
    }
    assert forall|x: u32, i: u32| #[trigger] c.contains_key(chunk_key(x, i)) implies x != id by {
        crate::fs::lemma_chunk_key_parts(x, i);
    }
}

/// Every key is the key of one chunk: its high half names the file, its low
/// half the index.
proof fn lemma_key_split(k: u64)
    ensures
        k / 0x1_0000_0000 <= u32::MAX,
        k % 0x1_0000_0000 <= u32::MAX,
        k == chunk_key((k / 0x1_0000_0000) as u32, (k % 0x1_0000_0000) as u32),
{
    vstd::arithmetic::div_mod::lemma_fundamental_div_mod(k as int, 0x1_0000_0000);
    vstd::arithmetic::div_mod::lemma_div_pos_is_pos(k as int, 0x1_0000_0000);
    assert(k / 0x1_0000_0000 <= u32::MAX) by (nonlinear_arith)
        requires k <= u64::MAX;
}

/// Why writing a chunk of `len` bytes at index `idx` of file `id` is refused
/// before the file's fill is looked at.
pub open spec fn chunk_failure(m: FilesModel, id: u32, idx: u32, len: nat) -> Option<Seq<char>> {
    if id == 0 {
        Some("invalid file id"@)
    } else if len == 0 {
        Some("empty chunk"@)
    } else if len > CHUNK_SIZE {
        Some("chunk size too large, max size is "@ + decimal(CHUNK_SIZE as nat) + " bytes"@)
    } else if idx == u32::MAX {
        Some("invalid chunk index"@)
    } else if !m.files.contains_key(id) {
        Some("file not found: "@ + decimal(id as nat))
    } else {
        None
    }
}

/// The bytes stored for the first `n` chunks of file `id`.
pub open spec fn stored_sum(c: Map<u64, Seq<u8>>, id: u32, n: nat) -> nat
    decreases n,
{
    if n == 0 {
        0
    } else {
        stored_sum(c, id, (n - 1) as nat) + stored_len(c, chunk_key(id, (n - 1) as u32)) as nat
    }
}

/// A stored chunk counts in its file's sum.
pub proof fn lemma_stored_within(c: Map<u64, Seq<u8>>, id: u32, i: u32, n: nat)
    requires
        i < n,
        n <= u32::MAX + 1,
    ensures
        stored_len(c, chunk_key(id, i)) <= stored_sum(c, id, n),
    decreases n,
{
    if i + 1 < n {
        lemma_stored_within(c, id, i, (n - 1) as nat);
    }
}

/// Sums over maps that agree on the first `n` chunks of `id` agree.
pub proof fn lemma_stored_same(c1: Map<u64, Seq<u8>>, c2: Map<u64, Seq<u8>>, id: u32, n: nat)
    requires
        n <= u32::MAX + 1,
        forall|i: u32| i < n ==> stored_len(c1, #[trigger] chunk_key(id, i)) == stored_len(c2, chunk_key(id, i)),
    ensures
        stored_sum(c1, id, n) == stored_sum(c2, id, n),
    decreases n,
{
    if n > 0 {
        lemma_stored_same(c1, c2, id, (n - 1) as nat);
        let i = (n - 1) as u32;
        assert(stored_len(c1, chunk_key(id, i)) == stored_len(c2, chunk_key(id, i)));
    }
}

/// With no chunk of `id` from `n` up to `n2`, the sums up to both agree.
pub proof fn lemma_stored_extend(c: Map<u64, Seq<u8>>, id: u32, n: nat, n2: nat)
    requires
        n <= n2 <= u32::MAX + 1,
        forall|i: u32| n <= i < n2 ==> !c.contains_key(#[trigger] chunk_key(id, i)),
    ensures
        stored_sum(c, id, n2) == stored_sum(c, id, n),
    decreases n2,
{
    if n2 > n {
        lemma_stored_extend(c, id, n, (n2 - 1) as nat);
        assert(!c.contains_key(chunk_key(id, (n2 - 1) as u32)));
    }
}

/// Writing one chunk below `n` changes the sum by the difference in length.
pub proof fn lemma_stored_write(c: Map<u64, Seq<u8>>, id: u32, idx: u32, v: Seq<u8>, n: nat)
    requires
        idx < n,
        n <= u32::MAX + 1,
    ensures
        stored_sum(c.insert(chunk_key(id, idx), v), id, n) + stored_len(c, chunk_key(id, idx)) == stored_sum(c, id, n)
            + v.len(),
    decreases n,
{
    let c2 = c.insert(chunk_key(id, idx), v);
    let i = (n - 1) as u32;
    crate::bucket::lemma_chunk_key_injective(id, i, id, idx);
    if i == idx {
        assert forall|j: u32| j < i implies stored_len(c2, #[trigger] chunk_key(id, j)) == stored_len(c, chunk_key(id, j)) by {
            crate::bucket::lemma_chunk_key_injective(id, j, id, idx);
        }
        lemma_stored_same(c2, c, id, i as nat);
    } else {
        lemma_stored_write(c, id, idx, v, (n - 1) as nat);
    }
}

/// The length of the chunk stored under `key`, or 0 when there is none.
pub open spec fn stored_len(c: Map<u64, Seq<u8>>, key: u64) -> int {
    if c.contains_key(key) {
        c[key].len() as int
    } else {
        0
    }
}

/// Why reading file `id` whole fails, if it does.
pub open spec fn full_chunks_failure(m: FilesModel, id: u32) -> Option<Seq<char>> {
    if id == 0 {
        Some("invalid file id"@)
    } else if !m.files.contains_key(id) {
        Some("file not found: "@ + decimal(id as nat))
    } else if m.files[id].size != m.files[id].filled {
        Some("file not fully uploaded"@)
    } else if first_missing(m.chunks, id, m.files[id].chunks as nat) is Some {
        Some("file chunk not found: "@ + decimal(id as nat) + ", "@ + decimal(
            first_missing(m.chunks, id, m.files[id].chunks as nat)->0 as nat,
        ))
    } else if file_bytes(m.chunks, id, m.files[id].chunks as nat).len() != m.files[id].size {
        Some("file size mismatch, expected "@ + decimal(m.files[id].size as nat) + ", got "@ + decimal(
            file_bytes(m.chunks, id, m.files[id].chunks as nat).len(),
        ))
    } else {
        None
    }
}

} // verus!
