use ic_oss::cluster::{Deployments, PoliciesTable};
use ic_oss::permission::Policies;

#[test]
fn test_policies_table_attach_detach() {
    let audience = vec![4u8];
    let mut pt = PoliciesTable::default();

    pt.attach(audience.clone(), Policies::try_from("Folder.Read.Folder:1").unwrap());
    pt.attach(audience.clone(), Policies::try_from("Folder.List.Folder:1").unwrap());
    let stored = pt.get(&audience).unwrap();
    assert!(stored.contains("Folder.Read.Folder:1"), "{}", stored);
    assert!(stored.contains("Folder.List.Folder:1"), "{}", stored);

    pt.detach(audience.clone(), Policies::try_from("Folder.List.Folder:1").unwrap());
    assert_eq!(pt.get(&audience).as_deref(), Some("Folder.Read.Folder:1"));

    pt.detach(audience.clone(), Policies::try_from("Folder.Read.Folder:1").unwrap());
    assert!(pt.get(&audience).is_none());
}

#[test]
fn audiences_are_kept_apart() {
    let mut pt = PoliciesTable::new();
    pt.attach(vec![1], Policies::try_from("File.Read:1").unwrap());
    pt.attach(vec![2], Policies::try_from("File.Write:2").unwrap());
    pt.detach(vec![3], Policies::try_from("File.Write:2").unwrap());
    assert_eq!(pt.get(&[1]).as_deref(), Some("File.Read:1"));
    assert_eq!(pt.get(&[2]).as_deref(), Some("File.Write:2"));
    pt.detach(vec![2], Policies::try_from("File.Write:2").unwrap());
    assert!(pt.get(&[2]).is_none());
    assert_eq!(pt.get(&[1]).as_deref(), Some("File.Read:1"));
}

#[test]
fn test_legacy_indexes_migrate_to_stable_maps() {
    let canister = vec![42u8, 1];
    let prev_hash = [1u8; 32];
    let next_hash = [2u8; 32];

    let mut d = Deployments::new();
    d.migrate_legacy_collections(vec![(prev_hash, next_hash)], vec![(canister.clone(), (7, prev_hash))]);

    assert!(d.contains(&canister));
    assert_eq!(d.next_upgrade(None), Some((canister.clone(), prev_hash, next_hash)));

    d.record(canister.clone(), 8, next_hash);
    assert_eq!(d.next_upgrade(None), None);
}

#[test]
fn deployments_keep_principals_in_order() {
    let mut d = Deployments::new();
    d.record(vec![9u8], 1, [0u8; 32]);
    d.record(vec![3u8, 1], 2, [0u8; 32]);
    d.record(vec![3u8], 3, [0u8; 32]);
    d.record(vec![9u8], 4, [1u8; 32]);
    assert_eq!(d.ids(), vec![vec![3u8], vec![3u8, 1], vec![9u8]]);
    assert!(d.contains(&[3u8, 1]));
    assert!(!d.contains(&[3u8, 2]));
}

#[test]
fn next_upgrade_moves_past_the_cursor_and_wraps_around() {
    let old = [1u8; 32];
    let new = [2u8; 32];
    let newer = [3u8; 32];
    let mut d = Deployments::new();
    d.add_path(old, new);
    d.add_path(new, newer);
    d.record(vec![1u8], 1, old);
    d.record(vec![2u8], 2, [9u8; 32]);
    d.record(vec![3u8], 3, new);

    assert_eq!(d.next_version(&old), Some(new));
    assert_eq!(d.next_version(&newer), None);
    assert_eq!(d.next_upgrade(None), Some((vec![1u8], old, new)));
    assert_eq!(d.next_upgrade(Some(vec![1u8])), Some((vec![3u8], new, newer)));
    assert_eq!(d.next_upgrade(Some(vec![2u8])), Some((vec![3u8], new, newer)));
    assert_eq!(d.next_upgrade(Some(vec![3u8])), Some((vec![1u8], old, new)));

    d.add_path(old, newer);
    assert_eq!(d.next_version(&old), Some(newer));
}
