use ic_oss::access::{
    authorize_read, authorize_write,
    check_bucket_read, check_file_create, check_file_read, check_file_update, check_folder_create,
    check_folder_delete, check_folder_list, token_policies, Context, Token,
};
use ic_oss::bucket::{Bucket, Role};
use ic_oss::fs::BucketStore;
use ic_oss::permission::Policies;
use ic_oss::tree::FolderMetadata;

#[test]
fn built_in_access_modes_keep_read_and_write_semantics() {
    let store = BucketStore::new();
    let read_only = Context::read_only(Role::User);
    assert!(check_bucket_read(&read_only));
    assert!(check_file_read(&read_only, &store, 1, 0));
    assert!(check_folder_list(&read_only, &store, 0));
    assert!(!check_file_create(&read_only, &store, 0));
    assert!(!check_folder_delete(&read_only, &store, 0));

    let full = Context::full(Role::Manager);
    assert!(check_file_create(&full, &store, 0));
    assert!(check_file_update(&full, &store, 1, 0));
    assert!(check_folder_delete(&full, &store, 0));
}

#[test]
fn scoped_access_checks_bucket_ids_and_unrestricted_resources() {
    let store = BucketStore::new();
    let bucket = "aaaaa-aa".to_string();
    let policies =
        Policies::try_from(format!("Bucket.Read.File:{} File.Write:7", bucket).as_str()).unwrap();
    let scoped = Context::scoped(Role::User, policies, bucket.clone());

    assert!(check_file_read(&scoped, &store, 99, 0));
    assert!(check_file_update(&scoped, &store, 7, 0));
    assert!(!check_file_update(&scoped, &store, 8, 0));
    assert!(!check_folder_create(&scoped, &store, 0));

    let unrestricted = Context::scoped(
        Role::User,
        Policies::try_from("Folder.Write.File").unwrap(),
        bucket,
    );
    assert!(check_file_create(&unrestricted, &store, 0));
}

#[test]
fn folder_grants_reach_the_sub_folders() {
    let mut store = BucketStore::new();
    let fd1 = store
        .add_folder(FolderMetadata::new(0, "fd1".to_string(), 0, 0))
        .unwrap();
    let fd2 = store
        .add_folder(FolderMetadata::new(fd1, "fd2".to_string(), 0, 0))
        .unwrap();
    let scoped = Context::scoped(
        Role::User,
        Policies::try_from(format!("Folder.Write.File:{}", fd1).as_str()).unwrap(),
        "aaaaa-aa".to_string(),
    );
    assert!(check_file_create(&scoped, &store, fd2));
    assert!(check_file_create(&scoped, &store, fd1));
    assert!(!check_file_create(&scoped, &store, 0));
}

fn token(audience: &[u8], policies: &str) -> Option<Result<Token, String>> {
    Some(Ok(Token {
        subject: vec![9u8],
        audience: audience.to_vec(),
        policies: policies.to_string(),
    }))
}

#[test]
fn tokens_grant_only_on_their_canister() {
    let canister = [1u8, 2];
    let (subject, ps) = token_policies(token(&canister, "File.Read:1"), &canister).unwrap();
    assert_eq!(subject, vec![9u8]);
    assert_eq!(ps.to_string(), "File.Read:1");
    assert_eq!(
        token_policies(token(&[3u8], "File.Read:1"), &canister).unwrap_err(),
        (401, "Unauthorized".to_string())
    );
    assert_eq!(
        token_policies(None, &canister).unwrap_err(),
        (401, "Unauthorized".to_string())
    );
    assert_eq!(
        token_policies(Some(Err("expired".to_string())), &canister).unwrap_err(),
        (401, "expired".to_string())
    );
    assert_eq!(token_policies(token(&canister, "File.?"), &canister).unwrap_err().0, 403);
}

#[test]
fn reads_and_writes_follow_the_bucket_settings() {
    let canister = [1u8, 2];
    let mut bucket = Bucket::default();
    bucket.managers.push(vec![7u8]);
    bucket.auditors.push(vec![8u8]);

    let ctx = bucket.read_permission(vec![8u8], &canister, None).unwrap();
    assert_eq!(ctx.role, Role::Auditor);
    assert_eq!(ctx.ps.to_string(), Policies::read().to_string());

    assert_eq!(
        bucket.read_permission(vec![5u8], &canister, None).unwrap_err(),
        (401, "Unauthorized".to_string())
    );
    let ctx = bucket
        .read_permission(vec![5u8], &canister, token(&canister, "File.Read"))
        .unwrap();
    assert_eq!(ctx.caller, vec![9u8]);
    assert_eq!(ctx.role, Role::User);

    let ctx = bucket.write_permission(vec![7u8], &canister, None).unwrap();
    assert_eq!(ctx.role, Role::Manager);
    assert_eq!(ctx.ps.to_string(), "*");
    assert_eq!(
        bucket.write_permission(vec![8u8], &canister, None).unwrap_err(),
        (401, "Unauthorized".to_string())
    );

    bucket.visibility = 1;
    assert!(bucket.read_permission(vec![5u8], &canister, None).is_ok());

    bucket.status = -1;
    assert_eq!(
        bucket.read_permission(vec![5u8], &canister, None).unwrap_err(),
        (403, "bucket is archived".to_string())
    );
    assert!(bucket.read_permission(vec![8u8], &canister, None).is_ok());
    assert_eq!(
        bucket.write_permission(vec![7u8], &canister, None).unwrap_err(),
        (403, "bucket is not writable".to_string())
    );
}

#[test]
fn authorized_reads_and_writes_follow_the_bucket_settings() {
    let canister = [1u8, 2];
    let path = "bkt".to_string();
    let store = BucketStore::new();
    let mut bucket = Bucket::default();
    bucket.managers.push(vec![7u8]);
    bucket.auditors.push(vec![8u8]);

    let ctx = authorize_read(&bucket, &[8u8], &canister, path.clone(), None).unwrap();
    assert_eq!(ctx.role(), Role::Auditor);
    assert!(check_file_read(&ctx, &store, 3, 0));
    assert!(!check_file_create(&ctx, &store, 0));
    assert_eq!(
        authorize_read(&bucket, &[5u8], &canister, path.clone(), None).unwrap_err(),
        (401, "Unauthorized".to_string())
    );
    let ctx = authorize_read(&bucket, &[5u8], &canister, path.clone(), token(&canister, "File.Read:3")).unwrap();
    assert_eq!(ctx.role(), Role::User);
    assert!(check_file_read(&ctx, &store, 3, 0));
    assert!(!check_file_read(&ctx, &store, 4, 0));
    assert_eq!(
        authorize_read(&bucket, &[5u8], &canister, path.clone(), token(&canister, "File.?")).unwrap_err().0,
        403
    );

    let ctx = authorize_write(&bucket, &[7u8], &canister, path.clone(), None).unwrap();
    assert_eq!(ctx.role(), Role::Manager);
    assert!(check_file_create(&ctx, &store, 0));
    assert_eq!(
        authorize_write(&bucket, &[8u8], &canister, path.clone(), None).unwrap_err(),
        (401, "Unauthorized".to_string())
    );
    let ctx = authorize_write(&bucket, &[8u8], &canister, path.clone(), token(&canister, "Bucket.Write.File")).unwrap();
    assert_eq!(ctx.role(), Role::Auditor);

    bucket.visibility = 1;
    assert!(authorize_read(&bucket, &[5u8], &canister, path.clone(), None).is_ok());
    bucket.status = -1;
    assert_eq!(
        authorize_read(&bucket, &[5u8], &canister, path.clone(), None).unwrap_err(),
        (403, "bucket is archived".to_string())
    );
    assert!(authorize_read(&bucket, &[8u8], &canister, path.clone(), None).is_ok());
    assert_eq!(
        authorize_write(&bucket, &[7u8], &canister, path, None).unwrap_err(),
        (403, "bucket is not writable".to_string())
    );
}
