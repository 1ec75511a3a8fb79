use ic_oss::can::{FileMetadata, Files};
use ic_oss::file::UpdateFileInput;

fn file(name: &str, size: u64) -> FileMetadata {
    FileMetadata { name: name.to_string(), content_type: "text/plain".to_string(), size, ..Default::default() }
}

#[test]
fn canister_files_start_at_one_and_list_from_the_newest() {
    let mut fs = Files::new();
    assert!(fs.get_file(0).is_none());
    assert_eq!(fs.add_file(file("a", 0)), Ok(1));
    assert_eq!(fs.add_file(file("b", 0)), Ok(2));
    assert_eq!(fs.add_file(file("c", 0)), Ok(3));
    let ids: Vec<u32> = fs.list_files(u32::MAX, 10).iter().map(|f| f.id).collect();
    assert_eq!(ids, vec![3, 2, 1]);
    let ids: Vec<u32> = fs.list_files(3, 1).iter().map(|f| f.id).collect();
    assert_eq!(ids, vec![2]);
    let ids: Vec<u32> = fs.list_files(3, 0).iter().map(|f| f.id).collect();
    assert_eq!(ids, vec![2]);
    assert!(fs.list_files(1, 10).is_empty());

    fs.set_max_file_size(10);
    assert_eq!(fs.add_file(file("big", 11)).unwrap_err(), "file size exceeds limit: 10");
    fs.set_managers(vec![vec![7u8]]);
    assert!(fs.is_manager(&[7u8]));
    assert!(!fs.is_manager(&[8u8]));
}

#[test]
fn canister_chunks_fill_update_and_delete_files() {
    let mut fs = Files::new();
    let id = fs.add_file(file("a", 5)).unwrap();
    assert_eq!(fs.update_chunk(0, 0, 1, b"x".to_vec()).unwrap_err(), "invalid file id");
    assert_eq!(fs.update_chunk(id, 0, 1, Vec::new()).unwrap_err(), "empty chunk");
    assert_eq!(fs.update_chunk(9, 0, 1, b"x".to_vec()).unwrap_err(), "file not found: 9");
    assert_eq!(
        fs.update_file(UpdateFileInput { id, name: Some("b".to_string()), ..Default::default() }, 2).unwrap_err(),
        "file not fully uploaded"
    );
    assert_eq!(fs.update_chunk(id, 0, 3, b"hel".to_vec()), Ok(3));
    assert_eq!(fs.update_chunk(id, 1, 4, b"lo".to_vec()), Ok(5));
    assert_eq!(fs.update_chunk(id, 1, 4, b"lo!".to_vec()), Ok(6));
    let f = fs.get_file(id).unwrap();
    assert_eq!((f.size, f.filled, f.chunks, f.updated_at), (6, 6, 2, 4));
    assert_eq!(fs.get_full_chunks(id).unwrap(), b"hello!".to_vec());
    assert_eq!(fs.get_chunk(id, 1).unwrap().1, b"lo!".to_vec());
    assert_eq!(fs.total_chunks(), 2);

    fs.update_file(UpdateFileInput { id, name: Some("b".to_string()), ..Default::default() }, 5).unwrap();
    assert_eq!(fs.get_file(id).unwrap().name, "b");

    fs.set_max_file_size(7);
    assert_eq!(fs.update_chunk(id, 2, 6, b"ab".to_vec()).unwrap_err(), "file size exceeds limit: 7");
    let f = fs.get_file(id).unwrap();
    assert_eq!((f.size, f.filled, f.chunks, f.updated_at), (6, 6, 2, 5));
    assert_eq!(fs.update_chunk(id, u32::MAX, 6, b"a".to_vec()).unwrap_err(), "invalid chunk index");

    assert_eq!(fs.delete_file(id), Ok(true));
    assert!(fs.get_chunk(id, 0).is_none());
    assert_eq!(fs.delete_file(id), Ok(false));
    assert_eq!(fs.delete_file(0).unwrap_err(), "invalid file id");
    assert_eq!(fs.total_chunks(), 0);
}

#[test]
fn test_ic_oss_fs() {
    let mut fs = Files::new();
    let files = fs.list_files(u32::MAX, 2);
    assert!(files.is_empty());

    fs.add_file(FileMetadata { name: "f1".to_string(), size: 100, ..Default::default() }).unwrap();

    assert!(fs.get_file(0).is_none());
    assert_eq!(fs.get_file(1).unwrap().name, "f1");

    fs.add_file(FileMetadata { name: "f2".to_string(), size: 100, ..Default::default() }).unwrap();
    fs.add_file(FileMetadata { name: "f3".to_string(), size: 100, ..Default::default() }).unwrap();
    fs.add_file(FileMetadata { name: "f4".to_string(), size: 100, ..Default::default() }).unwrap();

    let files = fs.list_files(u32::MAX, 2);
    assert_eq!(files.iter().map(|f| f.name.clone()).collect::<Vec<_>>(), vec!["f4", "f3"]);

    let files = fs.list_files(files.last().unwrap().id, 10);
    assert_eq!(files.iter().map(|f| f.name.clone()).collect::<Vec<_>>(), vec!["f2", "f1"]);
}

#[test]
fn test_list_files_prev_zero() {
    let mut fs = Files::new();
    fs.add_file(FileMetadata { name: "f1".to_string(), size: 100, ..Default::default() }).unwrap();

    assert!(fs.list_files(0, 10).is_empty());
    assert!(fs.list_files(1, 10).is_empty());
    assert_eq!(fs.list_files(2, 10).len(), 1);
}

#[test]
fn test_update_chunk_limits() {
    let mut fs = Files::new();
    fs.set_max_file_size(1024);
    let id = fs.add_file(FileMetadata { name: "f1".to_string(), ..Default::default() }).unwrap();

    assert_eq!(fs.update_chunk(id, 0, 1, vec![0u8; 512]).unwrap(), 512);
    assert_eq!(fs.update_chunk(id, 1, 1, vec![0u8; 512]).unwrap(), 1024);

    assert_eq!(fs.update_chunk(id, 1, 1, vec![1u8; 512]).unwrap(), 1024);
    assert_eq!(fs.get_file(id).unwrap().chunks, 2);

    assert!(fs.update_chunk(id, 2, 1, vec![0u8; 512]).is_err());
    let file = fs.get_file(id).unwrap();
    assert_eq!(file.filled, 1024);
    assert_eq!(file.size, 1024);
    assert_eq!(file.chunks, 2);
    assert_eq!(fs.get_full_chunks(id).unwrap().len(), 1024);
}

#[test]
fn test_chunk_index_bound_and_delete() {
    let mut fs = Files::new();
    let id = fs.add_file(FileMetadata::default()).unwrap();
    assert!(fs.update_chunk(id, u32::MAX, 1, vec![1]).is_err());
    fs.update_chunk(id, u32::MAX - 1, 1, vec![1]).unwrap();
    assert_eq!(fs.get_file(id).unwrap().chunks, u32::MAX);
    assert!(fs.delete_file(id).unwrap());
    assert_eq!(fs.total_chunks(), 0);
}

#[test]
fn canister_rewrite_with_a_shorter_chunk_lowers_the_fill() {
    let mut fs = Files::new();
    let id = fs.add_file(FileMetadata::default()).unwrap();
    assert_eq!(fs.update_chunk(id, 0, 1, vec![7u8; 10]), Ok(10));
    assert_eq!(fs.update_chunk(id, 0, 2, vec![7u8; 4]), Ok(4));
    let f = fs.get_file(id).unwrap();
    assert_eq!((f.size, f.filled, f.chunks), (10, 4, 1));
}
