//! The bucket's calls: what each query answers and what each update changes,
//! given the grant of the request (see `access::authorize_read` and
//! `access::authorize_write`) and the time of the call.
use vstd::prelude::*;
use crate::access::{
    access_admits, bucket_or_ancestors, check_file_create, check_file_delete, check_file_list, check_file_read,
    check_file_update, check_folder_create, check_folder_delete, check_folder_list, check_folder_read,
    check_folder_update, file_read_admitted, pm, AccessModel, Context,
};
use crate::bucket::{opt_token, readable_by_hash, file_limits_error, validate_file_limits, FileMetadata, FileModel, Role};
use crate::file::{
    is_file_name, update_file_error, FileChunk, FileInfo, MoveInput, UpdateFileChunkInput, UpdateFileChunkOutput,
    UpdateFileInput, UpdateFileOutput,
};
use crate::folder::{
    update_folder_error, CreateFolderInput, CreateFolderOutput, FolderInfo, FolderName, UpdateFolderInput,
    UpdateFolderOutput,
};
use crate::fs::{
    chunk_failure, chunk_precheck_error, chunk_run, chunk_stored, chunk_views, file_listing, filled_after,
    move_file_error, purge, store_after_chunk, store_after_update, update_file_failure, without_file, BucketStore,
    StoreModel,
};
use crate::permission::{OperationModel, ResourceModel};
use crate::text::{decimal, owned, push_str};
use crate::ids::{desc_below, ordered};
use crate::tree::{
    add_folder_error, added_folder, ancestry, delete_folder_error, deleted_folder, folder_listing, info_of,
    listing_hidden, moved_file, moved_folder, moving_folder_error, parent_to_update_error, touched, FolderMap,
    FolderMetadata, FolderModel,
};

verus! {

/// Whether access `a` may do `op` on items of kind `target` of folder
/// `parent`: on the whole bucket, or on one of the folders from `parent` up.
pub open spec fn grants(a: AccessModel, m: FolderMap, op: OperationModel, target: ResourceModel, parent: u32) -> bool {
    bucket_or_ancestors(
        a,
        pm(ResourceModel::Bucket, op, Some(target)),
        pm(ResourceModel::Folder, op, Some(target)),
        m,
        parent,
    )
}

/// The message of a check that fails.
pub open spec fn denied() -> Seq<char> {
    "permission denied"@
}

/// `info` describes file `f` under the id `id`.
pub open spec fn described(info: FileInfo, id: u32, f: FileModel) -> bool {
    crate::bucket::file_info_of(info, id, f)
}

// ---------------------------------------------------------------- queries

/// The information of file `id`: refused when it is missing, and, unless
/// `access_token` reads the file by its hash, when the grant is refused or
/// does not cover reading it.
pub fn get_file_info(
    store: &BucketStore,
    id: u32,
    access_token: &Option<Vec<u8>>,
    grant: Result<Context, (u16, String)>,
) -> (r: Result<FileInfo, String>)
    requires
        store.wf(),
    ensures
        !store@.files.contains_key(id) ==> (r matches Err(e) && e@ == "file not found"@),
        store@.files.contains_key(id) && readable_by_hash(store@.files[id], opt_token(*access_token)) ==> (r matches Ok(
            info,
        ) && described(info, id, store@.files[id])),
        store@.files.contains_key(id) && !readable_by_hash(store@.files[id], opt_token(*access_token)) ==> match grant {
            Err((_, m)) => r matches Err(e) && e@ == m@,
            Ok(ctx) => if file_read_admitted(ctx.access(), store@.folders, id, store@.files[id].parent) {
                r matches Ok(info) && described(info, id, store@.files[id])
            } else {
                r matches Err(e) && e@ == denied()
            },
        },
{
    proof {
        reveal_strlit("file not found");
        reveal_strlit("permission denied");
    }
    let file = match store.get_file(id) {
        None => {
            return Err(owned("file not found"));
        },
        Some(f) => f,
    };
    if !file.read_by_hash(access_token) {
        let ctx = match grant {
            Err((_, e)) => {
                return Err(e);
            },
            Ok(c) => c,
        };
        if !check_file_read(&ctx, store, id, file.parent) {
            return Err(owned("permission denied"));
        }
    }
    Ok(file.into_info(id))
}

/// The information of the file indexed under `hash`, as [`get_file_info`]
/// gives it; refused when no file is indexed under it.
pub fn get_file_info_by_hash(
    store: &BucketStore,
    hash: [u8; 32],
    access_token: &Option<Vec<u8>>,
    grant: Result<Context, (u16, String)>,
) -> (r: Result<FileInfo, String>)
    requires
        store.wf(),
    ensures
        !store@.hashes.contains_key(hash@) ==> (r matches Err(e) && e@ == "file not found"@),
        store@.hashes.contains_key(hash@) ==> {
            let id = store@.hashes[hash@];
            &&& !store@.files.contains_key(id) ==> (r matches Err(e) && e@ == "file not found"@)
            &&& store@.files.contains_key(id) && readable_by_hash(store@.files[id], opt_token(*access_token)) ==> (
            r matches Ok(info) && described(info, id, store@.files[id]))
            &&& store@.files.contains_key(id) && !readable_by_hash(store@.files[id], opt_token(*access_token)) ==> match grant {
                Err((_, m)) => r matches Err(e) && e@ == m@,
                Ok(ctx) => if file_read_admitted(ctx.access(), store@.folders, id, store@.files[id].parent) {
                    r matches Ok(info) && described(info, id, store@.files[id])
                } else {
                    r matches Err(e) && e@ == denied()
                },
            }
        },
{
    proof {
        reveal_strlit("file not found");
    }
    match store.get_file_id(&hash) {
        None => Err(owned("file not found")),
        Some(id) => get_file_info(store, id, access_token, grant),
    }
}

/// The folders holding file `id`, nearest first; when there are any, the
/// grant must cover reading the file.
pub fn get_file_ancestors(store: &BucketStore, id: u32, grant: Result<Context, (u16, String)>) -> (r: Result<
    Vec<FolderName>,
    String,
>)
    requires
        store.wf(),
    ensures
        ({
            let a = if store@.files.contains_key(id) {
                ancestry(store@.folders, store@.files[id].parent)
            } else {
                Seq::empty()
            };
            if a.len() == 0 {
                r matches Ok(v) && v@.len() == 0
            } else {
                match grant {
                    Err((_, m)) => r matches Err(e) && e@ == m@,
                    Ok(ctx) => if file_read_admitted(ctx.access(), store@.folders, id, a[0]) {
                        r matches Ok(v) && v@.len() == a.len() && forall|i: int|
                            0 <= i < v@.len() ==> (#[trigger] v@[i]).id == a[i] && v@[i].name@
                                == store@.folders[a[i]].name
                    } else {
                        r matches Err(e) && e@ == denied()
                    },
                }
            }
        }),
{
    proof {
        reveal_strlit("permission denied");
    }
    let ancestors = store.get_file_ancestors(id);
    if ancestors.len() > 0 {
        let ctx = match grant {
            Err((_, e)) => {
                return Err(e);
            },
            Ok(c) => c,
        };
        if !check_file_read(&ctx, store, id, ancestors[0].id) {
            return Err(owned("permission denied"));
        }
    }
    Ok(ancestors)
}

/// Up to `take` (8 when not given, and at most 8) chunks of file `id` from
/// chunk `index` on; refused when the file is missing, and, unless
/// `access_token` reads the file by its hash, when the grant is refused, when
/// the file is archived and the caller below auditor, or when the grant does
/// not cover reading it.
pub fn get_file_chunks(
    store: &BucketStore,
    id: u32,
    index: u32,
    take: Option<u32>,
    access_token: &Option<Vec<u8>>,
    grant: Result<Context, (u16, String)>,
) -> (r: Result<Vec<FileChunk>, String>)
    requires
        store.wf(),
        index + (match take {
            Some(t) => if t < 8 { t } else { 8 },
            None => 8,
        }) <= u32::MAX,
    ensures
        !store@.files.contains_key(id) ==> (r matches Err(e) && e@ == "file not found"@),
        store@.files.contains_key(id) && readable_by_hash(store@.files[id], opt_token(*access_token)) ==> (r matches Ok(
            v,
        ) && chunk_views(v@) == chunk_run(
            store@.chunks,
            id,
            index as int,
            index + (match take {
                Some(t) => if t < 8 { t } else { 8 },
                None => 8,
            }),
            0,
        )),
        store@.files.contains_key(id) && !readable_by_hash(store@.files[id], opt_token(*access_token)) ==> match grant {
            Err((_, m)) => r matches Err(e) && e@ == m@,
            Ok(ctx) => {
                let f = store@.files[id];
                let n: u32 = match take {
                    Some(t) => if t < 8 { t } else { 8 },
                    None => 8,
                };
                if f.status < 0 && ctx.caller_role().rank() < Role::Auditor.rank() {
                    r matches Err(e) && e@ == "file archived"@
                } else if !file_read_admitted(ctx.access(), store@.folders, id, f.parent) {
                    r matches Err(e) && e@ == denied()
                } else {
                    r matches Ok(v) && chunk_views(v@) == chunk_run(store@.chunks, id, index as int, index + n, 0)
                }
            },
        },
{
    proof {
        reveal_strlit("file not found");
        reveal_strlit("file archived");
        reveal_strlit("permission denied");
    }
    let file = match store.get_file(id) {
        None => {
            return Err(owned("file not found"));
        },
        Some(f) => f,
    };
    if !file.read_by_hash(access_token) {
        let ctx = match grant {
            Err((_, e)) => {
                return Err(e);
            },
            Ok(c) => c,
        };
        if file.status < 0 && !ctx.role().at_least(&Role::Auditor) {
            return Err(owned("file archived"));
        }
        if !check_file_read(&ctx, store, id, file.parent) {
            return Err(owned("permission denied"));
        }
    }
    let n: u32 = match take {
        Some(t) => if t < 8 {
            t
        } else {
            8
        },
        None => 8,
    };
    Ok(store.get_chunks(id, index, n))
}

/// The number of items a listing takes: 10 when not given, at most 100.
pub open spec fn listing_take(take: Option<u32>) -> u32 {
    match take {
        Some(t) => if t < 100 { t } else { 100 },
        None => 10,
    }
}

/// The id a listing starts below: all ids when not given.
pub open spec fn listing_start(prev: Option<u32>) -> u32 {
    match prev {
        Some(p) => p,
        None => u32::MAX,
    }
}

fn take_of(take: Option<u32>) -> (r: u32)
    ensures
        r == listing_take(take),
{
    match take {
        Some(t) => if t < 100 {
            t
        } else {
            100
        },
        None => 10,
    }
}

fn start_of(prev: Option<u32>) -> (r: u32)
    ensures
        r == listing_start(prev),
{
    match prev {
        Some(p) => p,
        None => u32::MAX,
    }
}

/// The files of folder `parent` below `prev`, largest id first: refused when
/// the grant is refused or does not cover listing the folder's files.
pub fn list_files(
    store: &BucketStore,
    parent: u32,
    prev: Option<u32>,
    take: Option<u32>,
    grant: Result<Context, (u16, String)>,
) -> (r: Result<Vec<FileInfo>, String>)
    requires
        store.wf(),
    ensures
        match grant {
            Err((_, m)) => r matches Err(e) && e@ == m@,
            Ok(ctx) => if !grants(ctx.access(), store@.folders, OperationModel::List, ResourceModel::File, parent) {
                r matches Err(e) && e@ == denied()
            } else if listing_hidden(store@.folders, parent, ctx.caller_role()) {
                r matches Ok(v) && v@.len() == 0
            } else {
                r matches Ok(v) && file_listing(
                    store@.files,
                    desc_below(ordered(store@.folders[parent].files), listing_start(prev)),
                    listing_take(take),
                    v@,
                )
            },
        },
{
    proof {
        reveal_strlit("permission denied");
    }
    let prev = start_of(prev);
    let take = take_of(take);
    let ctx = match grant {
        Err((_, e)) => {
            return Err(e);
        },
        Ok(c) => c,
    };
    if !check_file_list(&ctx, store, parent) {
        return Err(owned("permission denied"));
    }
    Ok(store.list_files_for(ctx.role(), parent, prev, take))
}

/// The information of folder `id`: refused when it is missing, when the
/// grant is refused, or when the grant does not cover reading it.
pub fn get_folder_info(store: &BucketStore, id: u32, grant: Result<Context, (u16, String)>) -> (r: Result<
    FolderInfo,
    String,
>)
    requires
        store.wf(),
    ensures
        !store@.folders.contains_key(id) ==> (r matches Err(e) && e@ == "folder not found"@),
        store@.folders.contains_key(id) ==> match grant {
            Err((_, m)) => r matches Err(e) && e@ == m@,
            Ok(ctx) => if grants(ctx.access(), store@.folders, OperationModel::Read, ResourceModel::Folder, id) {
                r matches Ok(info) && info_of(info, id, store@.folders[id])
            } else {
                r matches Err(e) && e@ == denied()
            },
        },
{
    proof {
        reveal_strlit("folder not found");
        reveal_strlit("permission denied");
    }
    let folder = match store.get_folder(id) {
        None => {
            return Err(owned("folder not found"));
        },
        Some(f) => f,
    };
    let ctx = match grant {
        Err((_, e)) => {
            return Err(e);
        },
        Ok(c) => c,
    };
    if !check_folder_read(&ctx, store, id) {
        return Err(owned("permission denied"));
    }
    Ok(folder.into_info(id))
}

/// The ancestors of folder `id`, nearest first; when there are any, the
/// grant must cover reading the folder.
pub fn get_folder_ancestors(store: &BucketStore, id: u32, grant: Result<Context, (u16, String)>) -> (r: Result<
    Vec<FolderName>,
    String,
>)
    requires
        store.wf(),
    ensures
        ({
            let a = if store@.folders.contains_key(id) {
                ancestry(store@.folders, store@.folders[id].parent)
            } else {
                Seq::empty()
            };
            if a.len() == 0 {
                r matches Ok(v) && v@.len() == 0
            } else {
                match grant {
                    Err((_, m)) => r matches Err(e) && e@ == m@,
                    Ok(ctx) => if grants(ctx.access(), store@.folders, OperationModel::Read, ResourceModel::Folder, id) {
                        r matches Ok(v) && v@.len() == a.len() && forall|i: int|
                            0 <= i < v@.len() ==> (#[trigger] v@[i]).id == a[i] && v@[i].name@
                                == store@.folders[a[i]].name
                    } else {
                        r matches Err(e) && e@ == denied()
                    },
                }
            }
        }),
{
    proof {
        reveal_strlit("permission denied");
    }
    let ancestors = store.get_folder_ancestors(id);
    if ancestors.len() > 0 {
        let ctx = match grant {
            Err((_, e)) => {
                return Err(e);
            },
            Ok(c) => c,
        };
        if !check_folder_read(&ctx, store, id) {
            return Err(owned("permission denied"));
        }
    }
    Ok(ancestors)
}

/// The sub folders of `parent` below `prev`, largest id first: refused when
/// the grant is refused or does not cover listing the folder's sub folders.
pub fn list_folders(
    store: &BucketStore,
    parent: u32,
    prev: Option<u32>,
    take: Option<u32>,
    grant: Result<Context, (u16, String)>,
) -> (r: Result<Vec<FolderInfo>, String>)
    requires
        store.wf(),
    ensures
        match grant {
            Err((_, m)) => r matches Err(e) && e@ == m@,
            Ok(ctx) => if !grants(ctx.access(), store@.folders, OperationModel::List, ResourceModel::Folder, parent) {
                r matches Err(e) && e@ == denied()
            } else if listing_hidden(store@.folders, parent, ctx.caller_role()) {
                r matches Ok(v) && v@.len() == 0
            } else {
                r matches Ok(v) && folder_listing(
                    store@.folders,
                    desc_below(ordered(store@.folders[parent].folders), listing_start(prev)),
                    listing_take(take),
                    v@,
                )
            },
        },
{
    proof {
        reveal_strlit("permission denied");
    }
    let prev = start_of(prev);
    let take = take_of(take);
    let ctx = match grant {
        Err((_, e)) => {
            return Err(e);
        },
        Ok(c) => c,
    };
    if !check_folder_list(&ctx, store, parent) {
        return Err(owned("permission denied"));
    }
    Ok(store.list_folders_for(ctx.role(), parent, prev, take))
}

// ---------------------------------------------------------------- updates

/// How an update fails: refused, with the message as its answer; or trapped,
/// with the message of the trap, upon which the runtime discards every change
/// the call made.
#[derive(Debug)]
pub enum Failure {
    Refused(String),
    Trapped(String),
}

/// Whether access `a` may change file `id` of folder `parent`: by the file's
/// own id, or as a writer of files there.
pub open spec fn file_update_admitted(a: AccessModel, m: FolderMap, id: u32, parent: u32) -> bool {
    access_admits(a, pm(ResourceModel::File, OperationModel::Write, None), decimal(id as nat)) || grants(
        a,
        m,
        OperationModel::Write,
        ResourceModel::File,
        parent,
    )
}

/// Whether access `a` may change folder `id` of folder `parent`: by the
/// folder's own id, or as a writer of folders there.
pub open spec fn folder_update_admitted(a: AccessModel, m: FolderMap, id: u32, parent: u32) -> bool {
    access_admits(a, pm(ResourceModel::Folder, OperationModel::Write, None), decimal(id as nat)) || grants(
        a,
        m,
        OperationModel::Write,
        ResourceModel::Folder,
        parent,
    )
}

/// Moves file `input.id` from folder `input.from` to folder `input.to` at
/// `now_ms`: the grant must cover deleting files in the one and writing files
/// in the other.
pub fn move_file(store: &mut BucketStore, input: MoveInput, grant: Result<Context, (u16, String)>, now_ms: u64) -> (r:
    Result<UpdateFileOutput, String>)
    requires
        old(store).wf(),
    ensures
        final(store).wf(),
        match grant {
            Err((_, m)) => r matches Err(e) && e@ == m@ && final(store)@ == old(store)@,
            Ok(ctx) => if !grants(ctx.access(), old(store)@.folders, OperationModel::Delete, ResourceModel::File, input.from)
                || !grants(ctx.access(), old(store)@.folders, OperationModel::Write, ResourceModel::File, input.to) {
                r matches Err(e) && e@ == denied() && final(store)@ == old(store)@
            } else {
                match move_file_error(old(store)@, input.id, input.from, input.to) {
                    Some(m) => r matches Err(e) && e@ == m && final(store)@ == old(store)@,
                    None => r matches Ok(o) && o.updated_at == now_ms && final(store)@ == (StoreModel {
                        folders: moved_file(old(store)@.folders, input.id, input.from, input.to, now_ms),
                        files: old(store)@.files.insert(
                            input.id,
                            FileModel { parent: input.to, updated_at: now_ms, ..old(store)@.files[input.id] },
                        ),
                        ..old(store)@
                    }),
                }
            },
        },
{
    proof {
        reveal_strlit("permission denied");
    }
    let ctx = match grant {
        Err((_, e)) => {
            return Err(e);
        },
        Ok(c) => c,
    };
    if !check_file_delete(&ctx, store, input.from) {
        return Err(owned("permission denied"));
    }
    if !check_file_create(&ctx, store, input.to) {
        return Err(owned("permission denied"));
    }
    store.move_file(input.id, input.from, input.to, now_ms)?;
    Ok(UpdateFileOutput { updated_at: now_ms })
}

/// Deletes the files `ids` of folder `parent` at `now_ms`, each id once and in
/// increasing order, skipping those that are missing, elsewhere or read-only,
/// and returns the deleted ones:
/// the grant must cover deleting files there.
pub fn batch_delete_subfiles(
    store: &mut BucketStore,
    parent: u32,
    ids: Vec<u32>,
    grant: Result<Context, (u16, String)>,
    now_ms: u64,
) -> (r: Result<Vec<u32>, String>)
    requires
        old(store).wf(),
    ensures
        final(store).wf(),
        match grant {
            Err((_, m)) => r matches Err(e) && e@ == m@ && final(store)@ == old(store)@,
            Ok(ctx) => if !grants(ctx.access(), old(store)@.folders, OperationModel::Delete, ResourceModel::File, parent) {
                r matches Err(e) && e@ == denied() && final(store)@ == old(store)@
            } else {
                match parent_to_update_error(old(store)@.folders, parent) {
                    Some(m) => r matches Err(e) && e@ == m && final(store)@ == old(store)@,
                    None => r matches Ok(v) && {
                        let (m1, removed) = purge(old(store)@, parent, ordered(ids@.to_set()));
                        &&& v@ == removed
                        &&& final(store)@ == if removed.len() > 0 {
                            StoreModel { folders: touched(m1.folders, parent, now_ms), ..m1 }
                        } else {
                            m1
                        }
                    },
                }
            },
        },
{
    proof {
        reveal_strlit("permission denied");
    }
    let ctx = match grant {
        Err((_, e)) => {
            return Err(e);
        },
        Ok(c) => c,
    };
    if !check_file_delete(&ctx, store, parent) {
        return Err(owned("permission denied"));
    }
    store.batch_delete_subfiles(parent, ids, now_ms)
}

/// Creates folder `input.name` under `input.parent` at `now_ms`, under the
/// next folder id: the name must be valid and the grant must cover writing
/// folders there.
pub fn create_folder(
    store: &mut BucketStore,
    input: CreateFolderInput,
    grant: Result<Context, (u16, String)>,
    now_ms: u64,
) -> (r: Result<CreateFolderOutput, String>)
    requires
        old(store).wf(),
    ensures
        final(store).wf(),
        !is_file_name(input.name@) ==> (r matches Err(e) && e@ == "invalid folder name"@ && final(store)@ == old(store)@),
        is_file_name(input.name@) ==> match grant {
            Err((_, m)) => r matches Err(e) && e@ == m@ && final(store)@ == old(store)@,
            Ok(ctx) => {
                let m = old(store)@;
                let id = m.bucket.folder_id;
                if !grants(ctx.access(), m.folders, OperationModel::Write, ResourceModel::Folder, input.parent) {
                    r matches Err(e) && e@ == denied() && final(store)@ == m
                } else if id == u32::MAX {
                    r matches Err(e) && e@ == "folder id overflow"@ && final(store)@ == m
                } else {
                    match add_folder_error(
                        m.folders,
                        input.parent,
                        id,
                        m.bucket.max_folder_depth as nat,
                        m.bucket.max_children as nat,
                    ) {
                        Some(x) => r matches Err(e) && e@ == x && final(store)@ == m,
                        None => r matches Ok(o) && o.id == id && o.created_at == now_ms && final(store)@ == (StoreModel {
                            bucket: crate::bucket::Bucket { folder_id: (id + 1) as u32, ..m.bucket },
                            folders: added_folder(
                                m.folders,
                                id,
                                FolderModel {
                                    parent: input.parent,
                                    name: input.name@,
                                    files: Set::empty(),
                                    folders: Set::empty(),
                                    created_at: now_ms,
                                    updated_at: now_ms,
                                    status: 0,
                                },
                            ),
                            ..m
                        }),
                    }
                }
            },
        },
{
    proof {
        reveal_strlit("permission denied");
    }
    input.validate()?;
    let ctx = match grant {
        Err((_, e)) => {
            return Err(e);
        },
        Ok(c) => c,
    };
    if !check_folder_create(&ctx, store, input.parent) {
        return Err(owned("permission denied"));
    }
    let id = store.add_folder(FolderMetadata::new(input.parent, input.name, now_ms, 0))?;
    Ok(CreateFolderOutput { id, created_at: now_ms })
}

/// Moves folder `input.id` from folder `input.from` to folder `input.to` at
/// `now_ms`: the grant must cover deleting folders in the one and writing
/// folders in the other.
pub fn move_folder(store: &mut BucketStore, input: MoveInput, grant: Result<Context, (u16, String)>, now_ms: u64) -> (r:
    Result<UpdateFolderOutput, String>)
    requires
        old(store).wf(),
    ensures
        final(store).wf(),
        match grant {
            Err((_, m)) => r matches Err(e) && e@ == m@ && final(store)@ == old(store)@,
            Ok(ctx) => if !grants(ctx.access(), old(store)@.folders, OperationModel::Delete, ResourceModel::Folder, input.from)
                || !grants(ctx.access(), old(store)@.folders, OperationModel::Write, ResourceModel::Folder, input.to) {
                r matches Err(e) && e@ == denied() && final(store)@ == old(store)@
            } else {
                match moving_folder_error(
                    old(store)@.folders,
                    input.id,
                    input.from,
                    input.to,
                    old(store)@.bucket.max_folder_depth as nat,
                    old(store)@.bucket.max_children as nat,
                ) {
                    Some(m) => r matches Err(e) && e@ == m && final(store)@ == old(store)@,
                    None => r matches Ok(o) && o.updated_at == now_ms && final(store)@ == (StoreModel {
                        folders: moved_folder(old(store)@.folders, input.id, input.from, input.to, now_ms),
                        ..old(store)@
                    }),
                }
            },
        },
{
    proof {
        reveal_strlit("permission denied");
    }
    let ctx = match grant {
        Err((_, e)) => {
            return Err(e);
        },
        Ok(c) => c,
    };
    if !check_folder_delete(&ctx, store, input.from) {
        return Err(owned("permission denied"));
    }
    if !check_folder_create(&ctx, store, input.to) {
        return Err(owned("permission denied"));
    }
    store.move_folder(input.id, input.from, input.to, now_ms)?;
    Ok(UpdateFolderOutput { updated_at: now_ms })
}

/// The grant's verdict as a checker of a file: the verdict is computed before
/// the store is changed, as the checker cannot read the store.
fn file_checker(allowed: bool) -> (f: impl FnOnce(&FileMetadata) -> Result<(), String>)
    ensures
        forall|x: &FileMetadata| #[trigger] f.requires((x,)),
        forall|x: &FileMetadata, r: Result<(), String>| #[trigger] f.ensures((x,), r) ==> (if allowed {
            r is Ok
        } else {
            r matches Err(e) && e@ == denied()
        }),
{
    move |_x: &FileMetadata| -> (r: Result<(), String>)
        ensures
            if allowed {
                r is Ok
            } else {
                r matches Err(e) && e@ == denied()
            },
        {
            if allowed {
                Ok(())
            } else {
                Err(owned("permission denied"))
            }
        }
}

/// The grant's verdict as a checker of a folder.
fn folder_checker(allowed: bool) -> (f: impl FnOnce(&FolderMetadata) -> Result<(), String>)
    ensures
        forall|x: &FolderMetadata| #[trigger] f.requires((x,)),
        forall|x: &FolderMetadata, r: Result<(), String>| #[trigger] f.ensures((x,), r) ==> (if allowed {
            r is Ok
        } else {
            r matches Err(e) && e@ == denied()
        }),
{
    move |_x: &FolderMetadata| -> (r: Result<(), String>)
        ensures
            if allowed {
                r is Ok
            } else {
                r matches Err(e) && e@ == denied()
            },
        {
            if allowed {
                Ok(())
            } else {
                Err(owned("permission denied"))
            }
        }
}

/// Deletes file `id` at `now_ms`: nothing to do when it is missing; refused
/// when it is read-only or the grant does not cover deleting files of its
/// folder.
pub fn delete_file(store: &mut BucketStore, id: u32, grant: Result<Context, (u16, String)>, now_ms: u64) -> (r: Result<
    bool,
    String,
>)
    requires
        old(store).wf(),
    ensures
        final(store).wf(),
        match grant {
            Err((_, m)) => r matches Err(e) && e@ == m@ && final(store)@ == old(store)@,
            Ok(ctx) => {
                let m = old(store)@;
                if !m.files.contains_key(id) {
                    r == Ok::<bool, String>(false) && final(store)@ == m
                } else {
                    let f = m.files[id];
                    if f.status > 0 {
                        r matches Err(e) && e@ == "file is readonly"@ && final(store)@ == m
                    } else if !grants(ctx.access(), m.folders, OperationModel::Delete, ResourceModel::File, f.parent) {
                        r matches Err(e) && e@ == denied() && final(store)@ == m
                    } else {
                        match parent_to_update_error(m.folders, f.parent) {
                            Some(x) => r matches Err(e) && e@ == x && final(store)@ == m,
                            None => r == Ok::<bool, String>(true) && final(store)@ == (StoreModel {
                                folders: touched(without_file(m, f.parent, id).folders, f.parent, now_ms),
                                ..without_file(m, f.parent, id)
                            }),
                        }
                    }
                }
            },
        },
{
    let ctx = match grant {
        Err((_, e)) => {
            return Err(e);
        },
        Ok(c) => c,
    };
    let allowed = match store.get_file(id) {
        Some(f) => check_file_delete(&ctx, store, f.parent),
        None => true,
    };
    store.delete_file(id, now_ms, file_checker(allowed))
}

/// Renames folder `input.id` and/or sets its status at `now_ms`: the input
/// must be valid, and the grant must cover changing the folder.
pub fn update_folder_info(
    store: &mut BucketStore,
    input: UpdateFolderInput,
    grant: Result<Context, (u16, String)>,
    now_ms: u64,
) -> (r: Result<UpdateFolderOutput, String>)
    requires
        old(store).wf(),
    ensures
        final(store).wf(),
        update_folder_error(crate::file::opt_text(input.name), input.status) matches Some(x) ==> (r matches Err(e) && e@
            == x && final(store)@ == old(store)@),
        update_folder_error(crate::file::opt_text(input.name), input.status) is None ==> match grant {
            Err((_, m)) => r matches Err(e) && e@ == m@ && final(store)@ == old(store)@,
            Ok(ctx) => {
                let m = old(store)@;
                if input.id == 0 {
                    r matches Err(e) && e@ == "root folder cannot be updated"@ && final(store)@ == m
                } else if !m.folders.contains_key(input.id) {
                    r matches Err(e) && e@ == "folder not found: "@ + decimal(input.id as nat) && final(store)@ == m
                } else {
                    let f = m.folders[input.id];
                    let status = match input.status {
                        Some(x) => x,
                        None => f.status,
                    };
                    if !folder_update_admitted(ctx.access(), m.folders, input.id, f.parent) {
                        r matches Err(e) && e@ == denied() && final(store)@ == m
                    } else if f.status > 0 && status > 0 {
                        r matches Err(e) && e@ == "folder is readonly"@ && final(store)@ == m
                    } else {
                        r matches Ok(o) && o.updated_at == now_ms && final(store)@ == (StoreModel {
                            folders: m.folders.insert(
                                input.id,
                                FolderModel {
                                    name: match input.name {
                                        Some(n) => n@,
                                        None => f.name,
                                    },
                                    status,
                                    updated_at: now_ms,
                                    ..f
                                },
                            ),
                            ..m
                        })
                    }
                }
            },
        },
{
    input.validate()?;
    let ctx = match grant {
        Err((_, e)) => {
            return Err(e);
        },
        Ok(c) => c,
    };
    let allowed = match store.get_folder(input.id) {
        Some(f) => check_folder_update(&ctx, store, input.id, f.parent),
        None => true,
    };
    match store.update_folder(input, now_ms, folder_checker(allowed)) {
        Err(e) => Err(e),
        Ok(()) => Ok(UpdateFolderOutput { updated_at: now_ms }),
    }
}

/// Deletes folder `id` at `now_ms`: its files that are not read-only go
/// first, then the folder if it is empty; refused for the root, and when the
/// grant does not cover deleting folders of its parent.
pub fn delete_folder(store: &mut BucketStore, id: u32, grant: Result<Context, (u16, String)>, now_ms: u64) -> (r: Result<
    bool,
    String,
>)
    requires
        old(store).wf(),
    ensures
        final(store).wf(),
        match grant {
            Err((_, m)) => r matches Err(e) && e@ == m@ && final(store)@ == old(store)@,
            Ok(ctx) => {
                let m = old(store)@;
                if id == 0 {
                    r matches Err(e) && e@ == "root folder cannot be deleted"@ && final(store)@ == m
                } else if parent_to_update_error(m.folders, id) is Some {
                    r matches Err(e) && Some(e@) == parent_to_update_error(m.folders, id) && final(store)@ == m
                } else {
                    let f = m.folders[id];
                    let m1 = purge(m, id, ordered(f.files)).0;
                    if !grants(ctx.access(), m.folders, OperationModel::Delete, ResourceModel::Folder, f.parent) {
                        r matches Err(e) && e@ == denied() && final(store)@ == m
                    } else {
                        match delete_folder_error(m1.folders, id) {
                            Some(x) => r matches Err(e) && e@ == x && final(store)@ == m1,
                            None => r == Ok::<bool, String>(true) && final(store)@ == (StoreModel {
                                folders: deleted_folder(m1.folders, id, now_ms),
                                ..m1
                            }),
                        }
                    }
                }
            },
        },
{
    let ctx = match grant {
        Err((_, e)) => {
            return Err(e);
        },
        Ok(c) => c,
    };
    let allowed = match store.get_folder(id) {
        Some(f) => check_folder_delete(&ctx, store, f.parent),
        None => true,
    };
    store.delete_folder(id, now_ms, folder_checker(allowed))
}

/// The message of a trapped update: what failed, then why.
fn trapped(what: &str, why: String) -> (r: Failure)
    ensures
        r matches Failure::Trapped(m) && m@ == what@ + why@,
{
    let mut m = owned(what);
    push_str(&mut m, why.as_str());
    Failure::Trapped(m)
}

/// Changes the metadata of file `input.id` at `now_ms`; `custom_size` is the
/// measured size of the custom data the call carries, if any. The input, the
/// limits and the grant refuse the call; a failure of the change itself traps.
pub fn update_file_info(
    store: &mut BucketStore,
    input: UpdateFileInput,
    custom_size: Option<Result<u64, String>>,
    grant: Result<Context, (u16, String)>,
    now_ms: u64,
) -> (r: Result<UpdateFileOutput, Failure>)
    requires
        old(store).wf(),
    ensures
        final(store).wf(),
        ({
            let m = old(store)@;
            let size: u64 = match input.size {
                Some(x) => x,
                None => 0,
            };
            let prefix = "update file info failed: "@;
            if let Some(x) = update_file_error(
                crate::file::opt_text(input.name),
                crate::file::opt_text(input.content_type),
                input.status,
            ) {
                r matches Err(Failure::Refused(e)) && e@ == x && final(store)@ == m
            } else if let Some(x) = file_limits_error(m.bucket, size, custom_size) {
                r matches Err(Failure::Refused(e)) && e@ == x && final(store)@ == m
            } else {
                match grant {
                    Err((_, x)) => r matches Err(Failure::Refused(e)) && e@ == x@ && final(store)@ == m,
                    Ok(ctx) => if !m.files.contains_key(input.id) {
                        r matches Err(Failure::Trapped(e)) && e@ == prefix + "file not found: "@ + decimal(
                            input.id as nat,
                        ) && final(store)@ == m
                    } else if !file_update_admitted(ctx.access(), m.folders, input.id, m.files[input.id].parent) {
                        r matches Err(Failure::Trapped(e)) && e@ == prefix + denied() && final(store)@ == m
                    } else {
                        match update_file_failure(m, input) {
                            Some(x) => r matches Err(Failure::Trapped(e)) && e@ == prefix + x && final(store)@ == m,
                            None => r matches Ok(o) && o.updated_at == now_ms && final(store)@ == store_after_update(
                                m,
                                input,
                                now_ms,
                            ),
                        }
                    },
                }
            }
        }),
{
    match input.validate() {
        Err(e) => {
            return Err(Failure::Refused(e));
        },
        Ok(()) => {},
    }
    let size = match input.size {
        Some(x) => x,
        None => 0,
    };
    match validate_file_limits(store.bucket(), size, custom_size) {
        Err(e) => {
            return Err(Failure::Refused(e));
        },
        Ok(()) => {},
    }
    let ctx = match grant {
        Err((_, e)) => {
            return Err(Failure::Refused(e));
        },
        Ok(c) => c,
    };
    let id = input.id;
    let allowed = match store.get_file(id) {
        Some(f) => check_file_update(&ctx, store, id, f.parent),
        None => true,
    };
    match store.update_file(input, now_ms, file_checker(allowed)) {
        Err(e) => Err(trapped("update file info failed: ", e)),
        Ok(()) => Ok(UpdateFileOutput { updated_at: now_ms }),
    }
}

/// Writes chunk `input.chunk_index` of file `input.id` at `now_ms`. A
/// refused grant refuses the call; a failure of the write itself traps.
pub fn update_file_chunk(
    store: &mut BucketStore,
    input: UpdateFileChunkInput,
    grant: Result<Context, (u16, String)>,
    now_ms: u64,
) -> (r: Result<UpdateFileChunkOutput, Failure>)
    requires
        old(store).wf(),
        input.chunk_index < u32::MAX,
    ensures
        final(store).wf(),
        ({
            let m = old(store)@;
            let prefix = "update file chunk failed: "@;
            let (id, idx, c) = (input.id, input.chunk_index, input.content@);
            match grant {
                Err((_, x)) => r matches Err(Failure::Refused(e)) && e@ == x@ && final(store)@ == m,
                Ok(ctx) => if let Some(x) = chunk_precheck_error(m, id, c.len()) {
                    r matches Err(Failure::Trapped(e)) && e@ == prefix + x && final(store)@ == m
                } else if !file_update_admitted(ctx.access(), m.folders, id, m.files[id].parent) {
                    r matches Err(Failure::Trapped(e)) && e@ == prefix + denied() && final(store)@ == m
                } else {
                    match chunk_failure(m, id, idx, c.len()) {
                        Some(x) => r matches Err(Failure::Trapped(e)) && e@ == prefix + x && final(store)@ == (
                        if m.files[id].filled + c.len() > m.bucket.max_file_size {
                            m
                        } else {
                            chunk_stored(m, id, idx, c)
                        }),
                        None => r matches Ok(o) && o.filled == filled_after(m, id, idx, c.len()) && o.updated_at
                            == now_ms && final(store)@ == store_after_chunk(m, id, idx, c, now_ms),
                    }
                },
            }
        }),
{
    let ctx = match grant {
        Err((_, e)) => {
            return Err(Failure::Refused(e));
        },
        Ok(c) => c,
    };
    let id = input.id;
    let allowed = match store.get_file(id) {
        Some(f) => check_file_update(&ctx, store, id, f.parent),
        None => true,
    };
    match store.update_chunk(id, input.chunk_index, now_ms, input.content, file_checker(allowed)) {
        Err(e) => Err(trapped("update file chunk failed: ", e)),
        Ok(filled) => Ok(UpdateFileChunkOutput { filled, updated_at: now_ms }),
    }
}

} // verus!
