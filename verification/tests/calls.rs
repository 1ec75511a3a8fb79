use ic_oss::access::{authorize_read, authorize_write, Context, Token};
use ic_oss::bucket::FileMetadata;
use ic_oss::calls::{
    batch_delete_subfiles, create_folder, delete_file, delete_folder, get_file_ancestors, get_file_chunks,
    get_file_info, get_file_info_by_hash, get_folder_ancestors, get_folder_info, list_files, list_folders,
    move_file, move_folder, update_file_chunk, update_file_info, update_folder_info, Failure,
};
use ic_oss::file::{MoveInput, UpdateFileChunkInput, UpdateFileInput};
use ic_oss::folder::{CreateFolderInput, UpdateFolderInput};
use ic_oss::fs::BucketStore;

const CANISTER: [u8; 2] = [1, 2];
const MANAGER: u8 = 7;

fn store() -> BucketStore {
    let mut store = BucketStore::new();
    let mut b = store.bucket().clone();
    b.managers.push(vec![MANAGER]);
    b.enable_hash_index = true;
    store.set_bucket(b);
    store
}

fn token(policies: &str) -> Option<Result<Token, String>> {
    Some(Ok(Token { subject: vec![5u8], audience: CANISTER.to_vec(), policies: policies.to_string() }))
}

fn manager_write(store: &BucketStore) -> Result<Context, (u16, String)> {
    authorize_write(store.bucket(), &[MANAGER], &CANISTER, "bkt".to_string(), None)
}

fn user_write(store: &BucketStore, policies: &str) -> Result<Context, (u16, String)> {
    authorize_write(store.bucket(), &[5u8], &CANISTER, "bkt".to_string(), token(policies))
}

fn user_read(store: &BucketStore, policies: Option<&str>) -> Result<Context, (u16, String)> {
    authorize_read(store.bucket(), &[5u8], &CANISTER, "bkt".to_string(), policies.and_then(token))
}

fn add_file(store: &mut BucketStore, parent: u32, name: &str, hash: u8, data: &[u8]) -> u32 {
    let id = store
        .add_file(FileMetadata {
            parent,
            name: name.to_string(),
            size: data.len() as u64,
            hash: Some([hash; 32]),
            ..Default::default()
        })
        .unwrap();
    if !data.is_empty() {
        store.update_chunk(id, 0, 1, data.to_vec(), |_| Ok(())).unwrap();
    }
    id
}

#[test]
fn folders_are_created_renamed_moved_and_deleted_by_grant() {
    let mut store = store();
    let g = manager_write(&store);
    let out = create_folder(&mut store, CreateFolderInput { parent: 0, name: "docs".to_string() }, g, 10).unwrap();
    assert_eq!((out.id, out.created_at), (1, 10));
    let g = manager_write(&store);
    let out = create_folder(&mut store, CreateFolderInput { parent: 0, name: "pics".to_string() }, g, 11).unwrap();
    assert_eq!(out.id, 2);

    let g = manager_write(&store);
    assert_eq!(
        create_folder(&mut store, CreateFolderInput { parent: 0, name: "a/b".to_string() }, g, 12).unwrap_err(),
        "invalid folder name"
    );
    let g = user_write(&store, "File.Read");
    assert_eq!(
        create_folder(&mut store, CreateFolderInput { parent: 0, name: "x".to_string() }, g, 12).unwrap_err(),
        "permission denied"
    );
    let g = authorize_write(store.bucket(), &[5u8], &CANISTER, "bkt".to_string(), None);
    assert_eq!(
        create_folder(&mut store, CreateFolderInput { parent: 0, name: "x".to_string() }, g, 12).unwrap_err(),
        "Unauthorized"
    );

    let g = manager_write(&store);
    let out = update_folder_info(
        &mut store,
        UpdateFolderInput { id: 1, name: Some("papers".to_string()), status: None },
        g,
        20,
    )
    .unwrap();
    assert_eq!(out.updated_at, 20);
    assert_eq!(store.get_folder(1).unwrap().name, "papers");
    let g = user_write(&store, "Folder.Write:2");
    assert_eq!(
        update_folder_info(&mut store, UpdateFolderInput { id: 1, name: None, status: Some(1) }, g, 21)
            .unwrap_err(),
        "permission denied"
    );
    let g = user_write(&store, "Folder.Write:1");
    assert!(update_folder_info(&mut store, UpdateFolderInput { id: 1, name: None, status: Some(0) }, g, 21).is_ok());
    let g = manager_write(&store);
    assert_eq!(
        update_folder_info(&mut store, UpdateFolderInput { id: 0, name: None, status: None }, g, 21).unwrap_err(),
        "root folder cannot be updated"
    );

    let g = manager_write(&store);
    move_folder(&mut store, MoveInput { id: 2, from: 0, to: 1 }, g, 30).unwrap();
    assert_eq!(store.get_folder(2).unwrap().parent, 1);
    let g = user_write(&store, "Folder.Write");
    assert_eq!(
        move_folder(&mut store, MoveInput { id: 2, from: 1, to: 0 }, g, 31).unwrap_err(),
        "permission denied"
    );

    let g = manager_write(&store);
    assert_eq!(delete_folder(&mut store, 0, g, 40).unwrap_err(), "root folder cannot be deleted");
    let g = user_write(&store, "File.*");
    assert_eq!(delete_folder(&mut store, 2, g, 40).unwrap_err(), "permission denied");
    let g = manager_write(&store);
    assert_eq!(delete_folder(&mut store, 2, g, 40), Ok(true));
    assert!(store.get_folder(2).is_none());
}

#[test]
fn files_are_moved_changed_and_deleted_by_grant() {
    let mut store = store();
    let g = manager_write(&store);
    create_folder(&mut store, CreateFolderInput { parent: 0, name: "docs".to_string() }, g, 1).unwrap();
    let a = add_file(&mut store, 0, "a.txt", 1, b"hello");
    let b = add_file(&mut store, 0, "b.txt", 2, b"world");

    let g = user_write(&store, "File.Write");
    assert_eq!(
        move_file(&mut store, MoveInput { id: a, from: 0, to: 1 }, g, 5).unwrap_err(),
        "permission denied"
    );
    let g = user_write(&store, "Bucket.Write.File Bucket.Delete.File");
    let out = move_file(&mut store, MoveInput { id: a, from: 0, to: 1 }, g, 5).unwrap();
    assert_eq!(out.updated_at, 5);
    assert_eq!(store.get_file(a).unwrap().parent, 1);
    let g = manager_write(&store);
    assert_eq!(
        move_file(&mut store, MoveInput { id: b, from: 1, to: 0 }, g, 6).unwrap_err(),
        format!("file {} is not in folder 1", b)
    );

    let g = manager_write(&store);
    let out = update_file_info(
        &mut store,
        UpdateFileInput { id: b, name: Some("c.txt".to_string()), ..Default::default() },
        None,
        g,
        7,
    )
    .unwrap();
    assert_eq!(out.updated_at, 7);
    assert_eq!(store.get_file(b).unwrap().name, "c.txt");
    let g = manager_write(&store);
    match update_file_info(
        &mut store,
        UpdateFileInput { id: b, content_type: Some(String::new()), ..Default::default() },
        None,
        g,
        8,
    ) {
        Err(Failure::Refused(e)) => assert_eq!(e, "content_type cannot be empty"),
        other => panic!("{:?}", other.map(|o| o.updated_at)),
    }
    let g = manager_write(&store);
    match update_file_info(&mut store, UpdateFileInput { id: b, ..Default::default() }, Some(Ok(5000)), g, 8) {
        Err(Failure::Refused(e)) => assert_eq!(e, "custom data size exceeds the limit 4096"),
        other => panic!("{:?}", other.map(|o| o.updated_at)),
    }
    let g = manager_write(&store);
    match update_file_info(&mut store, UpdateFileInput { id: 99, ..Default::default() }, None, g, 8) {
        Err(Failure::Trapped(e)) => assert_eq!(e, "update file info failed: file not found: 99"),
        other => panic!("{:?}", other.map(|o| o.updated_at)),
    }
    let g = user_write(&store, "File.Read");
    match update_file_info(&mut store, UpdateFileInput { id: b, ..Default::default() }, None, g, 8) {
        Err(Failure::Trapped(e)) => assert_eq!(e, "update file info failed: permission denied"),
        other => panic!("{:?}", other.map(|o| o.updated_at)),
    }

    let g = user_write(&store, "File.Read");
    assert_eq!(delete_file(&mut store, b, g, 9).unwrap_err(), "permission denied");
    let g = manager_write(&store);
    assert_eq!(delete_file(&mut store, 99, g, 9), Ok(false));
    let g = manager_write(&store);
    assert_eq!(delete_file(&mut store, b, g, 9), Ok(true));
    assert!(store.get_file(b).is_none());

    let c = add_file(&mut store, 1, "c.txt", 3, b"c");
    let d = add_file(&mut store, 1, "d.txt", 4, b"d");
    let g = user_write(&store, "File.Write");
    assert_eq!(batch_delete_subfiles(&mut store, 1, vec![c, d], g, 10).unwrap_err(), "permission denied");
    let g = manager_write(&store);
    let mut gone = batch_delete_subfiles(&mut store, 1, vec![c, d, 77], g, 10).unwrap();
    gone.sort();
    assert_eq!(gone, vec![c, d]);
}

#[test]
fn chunks_are_written_by_grant_and_failures_trap() {
    let mut store = store();
    let id = store
        .add_file(FileMetadata { name: "f".to_string(), size: 6, hash: Some([9u8; 32]), ..Default::default() })
        .unwrap();
    let g = user_write(&store, &format!("File.Write:{}", id));
    let out = update_file_chunk(&mut store, UpdateFileChunkInput { id, chunk_index: 0, content: b"abc".to_vec() }, g, 3)
        .unwrap();
    assert_eq!((out.filled, out.updated_at), (3, 3));
    let g = user_write(&store, "File.Write:99");
    match update_file_chunk(&mut store, UpdateFileChunkInput { id, chunk_index: 1, content: b"def".to_vec() }, g, 4) {
        Err(Failure::Trapped(e)) => assert_eq!(e, "update file chunk failed: permission denied"),
        _ => panic!("expected a trap"),
    }
    let g = manager_write(&store);
    match update_file_chunk(&mut store, UpdateFileChunkInput { id, chunk_index: 1, content: b"defgh".to_vec() }, g, 4) {
        Err(Failure::Trapped(e)) => assert_eq!(e, "update file chunk failed: file size mismatch, expected 6, got 8"),
        _ => panic!("expected a trap"),
    }
    let g = authorize_write(store.bucket(), &[5u8], &CANISTER, "bkt".to_string(), Some(Err("expired".to_string())));
    match update_file_chunk(&mut store, UpdateFileChunkInput { id, chunk_index: 1, content: b"d".to_vec() }, g, 4) {
        Err(Failure::Refused(e)) => assert_eq!(e, "expired"),
        _ => panic!("expected a refusal"),
    }
}

#[test]
fn queries_answer_by_grant() {
    let mut store = store();
    let g = manager_write(&store);
    create_folder(&mut store, CreateFolderInput { parent: 0, name: "docs".to_string() }, g, 1).unwrap();
    let g = manager_write(&store);
    create_folder(&mut store, CreateFolderInput { parent: 1, name: "deep".to_string() }, g, 1).unwrap();
    let a = add_file(&mut store, 2, "a.txt", 1, b"hello");
    let b = add_file(&mut store, 0, "b.txt", 2, b"world");

    assert_eq!(get_file_info(&store, a, &None, user_read(&store, None)).unwrap_err(), "Unauthorized");
    assert_eq!(get_file_info(&store, 42, &None, user_read(&store, None)).unwrap_err(), "file not found");
    assert_eq!(get_file_info(&store, a, &None, user_read(&store, Some("File.Read:99"))).unwrap_err(), "permission denied");
    let info = get_file_info(&store, a, &None, user_read(&store, Some("Folder.Read.File:1"))).unwrap();
    assert_eq!((info.id, info.name.as_str(), info.parent), (a, "a.txt", 2));
    let info = get_file_info_by_hash(&store, [2u8; 32], &None, user_read(&store, Some("File.Read"))).unwrap();
    assert_eq!(info.id, b);
    assert_eq!(
        get_file_info_by_hash(&store, [8u8; 32], &None, user_read(&store, Some("File.Read"))).unwrap_err(),
        "file not found"
    );

    let names: Vec<u32> = get_file_ancestors(&store, a, user_read(&store, Some("File.Read"))).unwrap()
        .iter()
        .map(|f| f.id)
        .collect();
    assert_eq!(names, vec![2, 1]);
    assert!(get_file_ancestors(&store, b, user_read(&store, None)).unwrap().is_empty());
    assert_eq!(
        get_file_ancestors(&store, a, user_read(&store, Some("Folder.List"))).unwrap_err(),
        "permission denied"
    );

    let chunks = get_file_chunks(&store, a, 0, None, &None, user_read(&store, Some("File.Read"))).unwrap();
    assert_eq!(chunks.len(), 1);
    assert_eq!(chunks[0].1, b"hello".to_vec());

    let files = list_files(&store, 0, None, None, user_read(&store, Some("Bucket.List.File"))).unwrap();
    assert_eq!(files.iter().map(|f| f.id).collect::<Vec<_>>(), vec![b]);
    assert_eq!(list_files(&store, 0, None, None, user_read(&store, Some("File.Read"))).unwrap_err(), "permission denied");

    let info = get_folder_info(&store, 2, user_read(&store, Some("Folder.Read.Folder:1"))).unwrap();
    assert_eq!((info.id, info.name.as_str()), (2, "deep"));
    assert_eq!(get_folder_info(&store, 9, user_read(&store, None)).unwrap_err(), "folder not found");
    let up: Vec<u32> = get_folder_ancestors(&store, 2, user_read(&store, Some("Bucket.Read.Folder")))
        .unwrap()
        .iter()
        .map(|f| f.id)
        .collect();
    assert_eq!(up, vec![1]);
    let folders = list_folders(&store, 0, None, Some(1), user_read(&store, Some("Bucket.List.Folder"))).unwrap();
    assert_eq!(folders.iter().map(|f| f.id).collect::<Vec<_>>(), vec![1]);
}

#[test]
fn files_marked_by_hash_are_read_with_their_hash() {
    let mut store = store();
    let id = store
        .add_file(FileMetadata { name: "h".to_string(), size: 2, hash: Some([6u8; 32]), by_hash: true, ..Default::default() })
        .unwrap();
    store.update_chunk(id, 0, 1, b"hi".to_vec(), |_| Ok(())).unwrap();
    let token = Some(vec![6u8; 32]);
    let info = get_file_info(&store, id, &token, user_read(&store, None)).unwrap();
    assert_eq!(info.id, id);
    let chunks = get_file_chunks(&store, id, 0, None, &token, user_read(&store, None)).unwrap();
    assert_eq!(chunks[0].1, b"hi".to_vec());
    assert_eq!(get_file_info(&store, id, &Some(vec![7u8; 32]), user_read(&store, None)).unwrap_err(), "Unauthorized");

    let g = manager_write(&store);
    update_file_info(&mut store, UpdateFileInput { id, by_hash: Some(false), ..Default::default() }, None, g, 2).unwrap();
    assert_eq!(get_file_info(&store, id, &token, user_read(&store, None)).unwrap_err(), "Unauthorized");
}

#[test]
fn shrinking_a_file_deletes_its_content() {
    let mut store = store();
    let id = add_file(&mut store, 0, "s.txt", 5, b"hello");
    let g = manager_write(&store);
    update_file_info(&mut store, UpdateFileInput { id, size: Some(3), ..Default::default() }, None, g, 2).unwrap();
    let f = store.get_file(id).unwrap();
    assert_eq!((f.size, f.filled, f.chunks), (3, 0, 0));
    assert!(store.get_chunk(id, 0).is_none());
}
