use ic_oss::bucket::{Context, FileMetadata, Role};
use ic_oss::file::UpdateFileInput;
use ic_oss::fs::BucketStore;
use ic_oss::permission::Policies;
use ic_oss::tree::FolderMetadata;

fn manager() -> Context {
    Context {
        caller: vec![4u8],
        ps: Policies::default(),
        role: Role::Manager,
    }
}

fn file_ids(store: &BucketStore, parent: u32) -> Vec<u32> {
    store
        .list_files(&manager(), parent, 999, 999)
        .into_iter()
        .map(|v| v.id)
        .collect()
}

fn folder_ids(store: &BucketStore, parent: u32) -> Vec<u32> {
    store
        .list_folders(&manager(), parent, 999, 999)
        .into_iter()
        .map(|v| v.id)
        .collect()
}

fn names(v: &[ic_oss::folder::FolderName]) -> Vec<(u32, String)> {
    v.iter().map(|f| (f.id, f.name.clone())).collect()
}

fn resize(store: &mut BucketStore, id: u32, size: u64) {
    store
        .update_file(
            UpdateFileInput {
                id,
                size: Some(size),
                ..Default::default()
            },
            1000,
            |_| Ok(()),
        )
        .unwrap();
}

#[test]
fn test_fs() {
    let mut store = BucketStore::new();
    let mut b = store.bucket().clone();
    b.enable_hash_index = true;
    store.set_bucket(b);

    assert!(store.get_file(0).is_none());
    assert!(store.get_full_chunks(0).is_err());
    assert!(store.get_full_chunks(1).is_err());

    let f1 = store
        .add_file(FileMetadata {
            name: "f1.bin".to_string(),
            hash: Some([1u8; 32]),
            size: 0,
            ..Default::default()
        })
        .unwrap();
    assert_eq!(f1, 0);

    let f1_data = store.get_full_chunks(f1).unwrap();
    assert!(f1_data.is_empty());

    let f1_meta = store.get_file(f1).unwrap();
    assert_eq!(f1_meta.name, "f1.bin");

    let _ = store.update_chunk(f1, 0, 999, [0u8; 32].to_vec(), |_| Ok(())).unwrap();
    let _ = store.update_chunk(f1, 1, 1000, [0u8; 32].to_vec(), |_| Ok(())).unwrap();
    let res = store.get_full_chunks(f1);
    assert!(res.is_err());
    resize(&mut store, f1, 64);
    let f1_data = store.get_full_chunks(f1).unwrap();
    assert_eq!(f1_data, [0u8; 64]);

    let f1_meta = store.get_file(f1).unwrap();
    assert_eq!(f1_meta.name, "f1.bin");
    assert_eq!(f1_meta.size, 64);
    assert_eq!(f1_meta.filled, 64);
    assert_eq!(f1_meta.chunks, 2);

    assert!(store
        .add_file(FileMetadata {
            name: "f2.bin".to_string(),
            hash: Some([1u8; 32]),
            ..Default::default()
        })
        .is_err());

    let f2 = store
        .add_file(FileMetadata {
            name: "f2.bin".to_string(),
            hash: Some([2u8; 32]),
            size: 48,
            ..Default::default()
        })
        .unwrap();
    assert_eq!(f2, 1);
    store.update_chunk(f2, 0, 999, [0u8; 16].to_vec(), |_| Ok(())).unwrap();
    store.update_chunk(f2, 1, 1000, [1u8; 16].to_vec(), |_| Ok(())).unwrap();

    resize(&mut store, f1, 96);
    store.update_chunk(f1, 3, 1000, [1u8; 16].to_vec(), |_| Ok(())).unwrap();
    store.update_chunk(f2, 2, 1000, [2u8; 16].to_vec(), |_| Ok(())).unwrap();
    store.update_chunk(f1, 2, 1000, [2u8; 16].to_vec(), |_| Ok(())).unwrap();

    let f1_data = store.get_full_chunks(f1).unwrap();
    assert_eq!(&f1_data[0..64], &[0u8; 64]);
    assert_eq!(&f1_data[64..80], &[2u8; 16]);
    assert_eq!(&f1_data[80..96], &[1u8; 16]);

    let f1_meta = store.get_file(f1).unwrap();
    assert_eq!(f1_meta.size, 96);
    assert_eq!(f1_meta.filled, 96);
    assert_eq!(f1_meta.chunks, 4);

    let f2_data = store.get_full_chunks(f2).unwrap();
    assert_eq!(&f2_data[0..16], &[0u8; 16]);
    assert_eq!(&f2_data[16..32], &[1u8; 16]);
    assert_eq!(&f2_data[32..48], &[2u8; 16]);

    let f2_meta = store.get_file(f2).unwrap();
    assert_eq!(f2_meta.size, 48);
    assert_eq!(f2_meta.filled, 48);
    assert_eq!(f2_meta.chunks, 3);

    // folders
    assert_eq!(folder_ids(&store, 0), Vec::<u32>::new());
    assert_eq!(file_ids(&store, 0), vec![f2, f1]);

    assert_eq!(
        store
            .add_folder(FolderMetadata::new(0, "fd1".to_string(), 0, 0))
            .unwrap(),
        1
    );
    assert_eq!(
        store
            .add_folder(FolderMetadata::new(0, "fd2".to_string(), 0, 0))
            .unwrap(),
        2
    );
    assert_eq!(folder_ids(&store, 0), vec![2, 1]);

    store.move_file(f1, 0, 1, 1000).unwrap();
    assert_eq!(names(&store.get_file_ancestors(f1)), vec![(1, "fd1".to_string())]);
    assert_eq!(file_ids(&store, 0), vec![f2]);
    assert_eq!(file_ids(&store, 1), vec![f1]);

    store.move_file(f2, 0, 2, 1000).unwrap();
    assert_eq!(names(&store.get_file_ancestors(f2)), vec![(2, "fd2".to_string())]);
    assert_eq!(file_ids(&store, 0), Vec::<u32>::new());
    assert_eq!(file_ids(&store, 2), vec![f2]);

    store.move_folder(2, 0, 1, 1000).unwrap();
    assert_eq!(names(&store.get_folder_ancestors(2)), vec![(1, "fd1".to_string())]);
    assert_eq!(
        names(&store.get_file_ancestors(f2)),
        vec![(2, "fd2".to_string()), (1, "fd1".to_string())]
    );

    assert_eq!(
        store.batch_delete_subfiles(0, vec![f1, f2], 999).unwrap(),
        Vec::<u32>::new()
    );

    store.move_file(f1, 1, 0, 1000).unwrap();
    store.move_file(f2, 2, 0, 1000).unwrap();
    assert_eq!(
        store.batch_delete_subfiles(0, vec![f1, f2], 999).unwrap(),
        vec![f1, f2]
    );
    assert!(store.delete_folder(1, 999, |_| Ok(())).is_err());
    assert!(store.delete_folder(2, 999, |_| Ok(())).unwrap());
    assert!(store.delete_folder(1, 999, |_| Ok(())).unwrap());
    assert!(store.delete_folder(0, 999, |_| Ok(())).is_err());

    assert_eq!(store.total_folders(), 1);
    assert_eq!(store.get_file_id(&[1u8; 32]), None);
    assert_eq!(store.get_file_id(&[2u8; 32]), None);
    assert_eq!(store.total_files(), 0);
    assert_eq!(store.total_chunks(), 0);
}

#[test]
fn chunks_past_the_declared_size_are_refused() {
    let mut store = BucketStore::new();
    let f = store
        .add_file(FileMetadata {
            name: "a.bin".to_string(),
            size: 10,
            ..Default::default()
        })
        .unwrap();
    let err = store.update_chunk(f, 0, 1, vec![7u8; 11], |_| Ok(())).unwrap_err();
    assert_eq!(err, "file size mismatch, expected 10, got 11");
    assert_eq!(store.update_chunk(f, 0, 1, vec![7u8; 10], |_| Ok(())).unwrap(), 10);
    assert_eq!(store.get_full_chunks(f).unwrap(), vec![7u8; 10]);
}

#[test]
fn a_refusing_checker_leaves_the_file_untouched() {
    let mut store = BucketStore::new();
    let f = store
        .add_file(FileMetadata {
            name: "a.bin".to_string(),
            ..Default::default()
        })
        .unwrap();
    let err = store
        .update_chunk(f, 0, 1, vec![1u8; 4], |_| Err("denied".to_string()))
        .unwrap_err();
    assert_eq!(err, "denied");
    assert_eq!(store.get_file(f).unwrap().filled, 0);
    assert_eq!(store.total_chunks(), 0);
}

#[test]
fn batch_delete_takes_each_id_once_in_order() {
    let mut store = BucketStore::new();
    let a = store
        .add_file(FileMetadata { name: "a.bin".to_string(), ..Default::default() })
        .unwrap();
    let b = store
        .add_file(FileMetadata { name: "b.bin".to_string(), ..Default::default() })
        .unwrap();
    let c = store
        .add_file(FileMetadata { name: "c.bin".to_string(), ..Default::default() })
        .unwrap();
    let removed = store.batch_delete_subfiles(0, vec![c, a, c, 42, a], 7).unwrap();
    assert_eq!(removed, vec![a, c]);
    assert_eq!(file_ids(&store, 0), vec![b]);
}
