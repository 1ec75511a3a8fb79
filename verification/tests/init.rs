use ic_oss::bucket::Bucket;
use ic_oss::init::{init_bucket, upgrade_bucket, CanisterArgs, InitArgs, UpdateBucketInput, UpgradeArgs};

#[test]
fn zero_init_values_keep_the_defaults() {
    let mut b = Bucket::default();
    init_bucket(
        &mut b,
        Some(CanisterArgs::Init(InitArgs {
            file_id: 5,
            visibility: 9,
            enable_hash_index: true,
            ..Default::default()
        })),
    )
    .unwrap();
    assert_eq!(b.name, "default");
    assert_eq!(b.file_id, 5);
    assert_eq!(b.max_file_size, 412316860416);
    assert_eq!(b.max_folder_depth, 10);
    assert_eq!(b.max_children, 1000);
    assert_eq!(b.visibility, 1);
    assert_eq!(b.max_custom_data_size, 4096);
    assert!(b.enable_hash_index);
}

#[test]
fn init_refuses_other_arguments() {
    let mut b = Bucket::default();
    assert_eq!(init_bucket(&mut b, None).unwrap_err(), "Init args is missing");
    assert!(init_bucket(&mut b, Some(CanisterArgs::Upgrade(UpgradeArgs::default()))).is_err());
    assert!(upgrade_bucket(&mut b, Some(CanisterArgs::Init(InitArgs::default()))).is_err());
    assert!(upgrade_bucket(&mut b, None).is_ok());
}

#[test]
fn upgrades_change_only_what_they_name() {
    let mut b = Bucket::default();
    upgrade_bucket(
        &mut b,
        Some(CanisterArgs::Upgrade(UpgradeArgs {
            max_children: Some(7),
            name: Some("b".to_string()),
            ..Default::default()
        })),
    )
    .unwrap();
    assert_eq!(b.max_children, 7);
    assert_eq!(b.name, "b");
    assert_eq!(b.max_folder_depth, 10);

    let err = upgrade_bucket(
        &mut b,
        Some(CanisterArgs::Upgrade(UpgradeArgs {
            max_file_size: Some(1),
            ..Default::default()
        })),
    )
    .unwrap_err();
    assert_eq!(err, "max_file_size should be greater than or equal to 412316860416");
    assert_eq!(
        UpgradeArgs { visibility: Some(2), ..Default::default() }.validate().unwrap_err(),
        "visibility should be 0 or 1"
    );
    assert_eq!(
        UpgradeArgs { name: Some(String::new()), ..Default::default() }.validate().unwrap_err(),
        "name cannot be empty"
    );
}

#[test]
fn bucket_updates_are_checked() {
    assert!(UpdateBucketInput::default().validate().is_ok());
    assert_eq!(
        UpdateBucketInput { name: Some("  ".to_string()), ..Default::default() }
            .validate()
            .unwrap_err(),
        "invalid bucket name"
    );
    assert_eq!(
        UpdateBucketInput { status: Some(2), ..Default::default() }.validate().unwrap_err(),
        "status should be -1, 0 or 1"
    );
    assert_eq!(
        UpdateBucketInput { max_children: Some(0), ..Default::default() }
            .validate()
            .unwrap_err(),
        "max_children should be greater than 0"
    );
}
