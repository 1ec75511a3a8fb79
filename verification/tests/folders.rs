use ic_oss::bucket::{Context, Role};
use ic_oss::permission::Policies;
use ic_oss::tree::{FolderMetadata, FoldersTree};

fn folder(parent: u32, name: &str, status: i8) -> FolderMetadata {
    FolderMetadata::new(parent, name.to_string(), 0, status)
}

fn set_status(tree: &mut FoldersTree, id: u32, status: i8) {
    let at = tree.get(id).unwrap().updated_at;
    tree.set_name_status(id, None, status, at);
}

fn names(v: &[ic_oss::folder::FolderName]) -> Vec<(u32, String)> {
    v.iter().map(|f| (f.id, f.name.clone())).collect()
}

fn manager() -> Context {
    Context {
        caller: vec![4u8],
        ps: Policies::default(),
        role: Role::Manager,
    }
}

#[test]
fn test_folders_tree_depth() {
    let mut tree = FoldersTree::new();
    tree.add_folder(folder(0, "fd1", 0), 1, 10, 1000).unwrap();
    tree.add_folder(folder(1, "fd2", 0), 2, 10, 1000).unwrap();
    tree.add_folder(folder(2, "fd3", 0), 3, 10, 1000).unwrap();
    assert_eq!(tree.depth(0), 0);
    assert_eq!(tree.depth(1), 1);
    assert_eq!(tree.depth(3), 3);
    assert_eq!(tree.depth(99), 0);

    assert_eq!(tree.depth_or_is_ancestor(2, 0), (2, true));
    assert_eq!(tree.depth_or_is_ancestor(2, 1), (1, true));
    assert_eq!(tree.depth_or_is_ancestor(2, 2), (0, true));
    assert_eq!(tree.depth_or_is_ancestor(2, 3), (2, false));
    assert_eq!(tree.depth_or_is_ancestor(99, 0), (0, true));
    assert_eq!(tree.depth_or_is_ancestor(99, 1), (0, false));

    assert!(tree.ancestors(0).is_empty());
    assert_eq!(names(&tree.ancestors(1)), vec![(1, "fd1".to_string())]);
    assert_eq!(
        names(&tree.ancestors(2)),
        vec![(2, "fd2".to_string()), (1, "fd1".to_string())]
    );
    assert!(tree.ancestors(99).is_empty());
}

#[test]
fn test_folders_tree_list_folders() {
    let mut tree = FoldersTree::new();
    tree.add_folder(folder(0, "fd1", 0), 1, 10, 1000).unwrap();
    tree.add_folder(folder(1, "fd2", 0), 2, 10, 1000).unwrap();
    tree.add_folder(folder(1, "fd3", 0), 3, 10, 1000).unwrap();

    let ctx = manager();
    let ids = |parent: u32| -> Vec<u32> {
        tree.list_folders(&ctx, parent, 999, 999)
            .into_iter()
            .map(|v| v.id)
            .collect()
    };
    assert_eq!(ids(0), vec![1]);
    assert_eq!(ids(1), vec![3, 2]);
    assert_eq!(ids(99), Vec::<u32>::new());
}

#[test]
fn test_folders_tree_add_folder() {
    let mut tree = FoldersTree::new();
    assert!(tree
        .add_folder(folder(1, "fd1", 0), 1, 10, 1000)
        .err()
        .unwrap()
        .contains("parent folder not found"));
    assert!(tree.add_folder(folder(0, "fd1", 0), 1, 1, 1).is_ok());
    assert!(tree
        .add_folder(folder(0, "fd2", 0), 1, 1, 1)
        .err()
        .unwrap()
        .contains("folder id already exists"));
    assert!(tree
        .add_folder(folder(1, "fd2", 0), 2, 1, 1)
        .err()
        .unwrap()
        .contains("folder depth exceeds limit"));
    assert!(tree.add_folder(folder(0, "fd2", 0), 2, 1, 1).is_ok());
    assert!(tree.add_folder(folder(1, "fd2", 0), 3, 2, 1).is_ok());
    assert!(tree
        .add_folder(folder(1, "fd2", 0), 4, 2, 1)
        .err()
        .unwrap()
        .contains("children exceeds limit"));
    set_status(&mut tree, 0, 1);
    assert!(tree
        .add_folder(folder(0, "fd2", 0), 4, 1, 2)
        .err()
        .unwrap()
        .contains("parent folder is not writable"));
    set_status(&mut tree, 0, 0);
    assert!(tree.add_folder(folder(0, "fd2", 0), 4, 1, 2).is_ok());
}

#[test]
fn test_folders_tree_parent_to_add_file() {
    let mut tree = FoldersTree::new();
    assert!(tree
        .parent_to_add_file(1, 2)
        .err()
        .unwrap()
        .contains("parent folder not found"));
    set_status(&mut tree, 0, 1);
    assert!(tree
        .parent_to_add_file(0, 2)
        .err()
        .unwrap()
        .contains("parent folder is not writable"));
    set_status(&mut tree, 0, 0);
    assert!(tree.parent_to_add_file(0, 2).is_ok());
}

#[test]
fn test_folders_tree_move_folder() {
    let mut tree = FoldersTree::new();
    assert!(tree
        .check_moving_folder(0, 1, 2, 10, 100)
        .err()
        .unwrap()
        .contains("root folder cannot be moved"));
    assert!(tree
        .check_moving_folder(1, 2, 2, 10, 100)
        .err()
        .unwrap()
        .contains("target parent folder should not be 2"));
    assert!(tree
        .check_moving_folder(1, 0, 2, 10, 100)
        .err()
        .unwrap()
        .contains("folder not found"));
    tree.add_folder(folder(0, "fd1", 0), 1, 10, 100).unwrap();
    assert!(tree
        .check_moving_folder(1, 2, 0, 10, 100)
        .err()
        .unwrap()
        .contains("is not in folder"));
    set_status(&mut tree, 1, 1);
    assert!(tree
        .check_moving_folder(1, 0, 2, 10, 100)
        .err()
        .unwrap()
        .contains("is not writable"));

    set_status(&mut tree, 1, 0);
    set_status(&mut tree, 0, 1);
    assert!(tree
        .check_moving_folder(1, 0, 2, 10, 100)
        .err()
        .unwrap()
        .contains("is not writable"));
    set_status(&mut tree, 0, 0);
    assert!(tree
        .check_moving_folder(1, 0, 2, 10, 100)
        .err()
        .unwrap()
        .contains("folder not found"));

    tree.add_folder(folder(0, "fd2", 1), 2, 10, 100).unwrap();
    assert!(tree
        .check_moving_folder(1, 0, 2, 10, 100)
        .err()
        .unwrap()
        .contains("is not writable"));
    set_status(&mut tree, 2, 0);
    assert!(tree
        .check_moving_folder(1, 0, 2, 10, 0)
        .err()
        .unwrap()
        .contains("children exceeds limit"));
    assert!(tree
        .check_moving_folder(1, 0, 2, 0, 100)
        .err()
        .unwrap()
        .contains("folder depth exceeds limit"));
    assert!(tree.check_moving_folder(1, 0, 2, 10, 100).is_ok());
    assert_eq!(tree.get(0).unwrap().folders.to_vec(), vec![1, 2]);
    assert_eq!(tree.get(2).unwrap().folders.to_vec(), Vec::<u32>::new());
    tree.move_folder(1, 0, 2, 999);
    assert_eq!(tree.get(0).unwrap().folders.to_vec(), vec![2]);
    assert_eq!(tree.get(2).unwrap().folders.to_vec(), vec![1]);
    assert!(tree
        .check_moving_folder(2, 0, 1, 10, 100)
        .err()
        .unwrap()
        .contains("folder cannot be moved to its sub folder"));
}

#[test]
fn test_folders_tree_move_file() {
    let mut tree = FoldersTree::new();
    assert!(tree
        .check_moving_file(1, 1, 100)
        .err()
        .unwrap()
        .contains("target parent should not be"));
    assert!(tree
        .check_moving_file(1, 0, 100)
        .err()
        .unwrap()
        .contains("folder not found"));
    set_status(&mut tree, 0, 1);
    assert!(tree
        .check_moving_file(0, 1, 100)
        .err()
        .unwrap()
        .contains("is not writable"));
    set_status(&mut tree, 0, 0);
    assert!(tree
        .check_moving_file(0, 1, 100)
        .err()
        .unwrap()
        .contains("folder not found"));
    tree.add_folder(folder(0, "fd1", 1), 1, 10, 100).unwrap();
    assert!(tree
        .check_moving_file(0, 1, 100)
        .err()
        .unwrap()
        .contains("is not writable"));
    set_status(&mut tree, 1, 0);
    assert!(tree
        .check_moving_file(0, 1, 0)
        .err()
        .unwrap()
        .contains("children exceeds limit"));
    assert!(tree.check_moving_file(0, 1, 10).is_ok());
    tree.move_file(1, 0, 1, 999);
    assert_eq!(tree.get(1).unwrap().files.to_vec(), vec![1]);
    tree.move_file(1, 1, 0, 999);
    assert_eq!(tree.get(0).unwrap().files.to_vec(), vec![1]);
    assert_eq!(tree.get(1).unwrap().files.to_vec(), Vec::<u32>::new());
}

#[test]
fn test_folders_delete_folder() {
    let mut tree = FoldersTree::new();
    assert!(tree
        .delete_folder(0, 99)
        .err()
        .unwrap()
        .contains("root folder cannot be deleted"));
    assert!(!tree.delete_folder(1, 99).unwrap());
    let mut fd1 = folder(0, "fd1", 1);
    fd1.files.insert(1);
    tree.add_folder(fd1, 1, 10, 100).unwrap();
    assert!(tree
        .delete_folder(1, 99)
        .err()
        .unwrap()
        .contains("folder is readonly"));
    set_status(&mut tree, 1, 0);
    assert!(tree
        .delete_folder(1, 99)
        .err()
        .unwrap()
        .contains("folder is not empty"));
    tree.set_file(1, 1, false);
    set_status(&mut tree, 0, 1);
    assert!(tree
        .delete_folder(1, 99)
        .err()
        .unwrap()
        .contains("parent folder is not writable"));
    set_status(&mut tree, 0, 0);
    assert!(tree.delete_folder(1, 99).unwrap());
    assert_eq!(tree.len(), 1);
    assert_eq!(tree.get(0).unwrap().folders.to_vec(), Vec::<u32>::new());
    assert_eq!(tree.get(0).unwrap().updated_at, 99);
}

#[test]
fn moved_folders_keep_their_ancestry() {
    let mut tree = FoldersTree::new();
    tree.add_folder(folder(0, "a", 0), 1, 10, 100).unwrap();
    tree.add_folder(folder(0, "b", 0), 2, 10, 100).unwrap();
    tree.add_folder(folder(1, "c", 0), 3, 10, 100).unwrap();
    assert!(tree.check_moving_folder(1, 0, 2, 10, 100).is_ok());
    tree.move_folder(1, 0, 2, 7);
    assert_eq!(
        names(&tree.ancestors(3)),
        vec![(3, "c".to_string()), (1, "a".to_string()), (2, "b".to_string())]
    );
    assert_eq!(tree.depth(3), 3);
    assert_eq!(tree.get(2).unwrap().updated_at, 7);
    assert_eq!(tree.get(0).unwrap().updated_at, 7);
    assert_eq!(tree.get(1).unwrap().parent, 2);
}
