use ic_oss::permission::{
    validate_name, Operation, Permission, PermissionChecker, PermissionCheckerAny, Policies,
    Policy, Resource, Resources,
};

#[test]
fn test_validate_name() {
    assert!(validate_name("").is_err());
    assert!(validate_name("*").is_err());
    assert!(validate_name(" ").is_err());
    assert!(validate_name(".").is_err());
    assert!(validate_name(",").is_err());
    assert!(validate_name(".Info").is_err());
    assert!(validate_name("Info").is_ok());
    assert!(validate_name("123").is_ok());
    assert!(validate_name("Level_1").is_ok());
    assert!(validate_name("mmrxu-fqaaa-aaaap-ahhna-cai").is_ok());
}

#[test]
fn validate_name_reports_the_first_bad_character() {
    assert_eq!(validate_name("").unwrap_err(), "empty string");
    assert_eq!(validate_name("ab.c*").unwrap_err(), "invalid character: .");
    assert_eq!(
        Resource::try_from("a b").unwrap_err(),
        "invalid resource: a b, invalid character:  "
    );
    assert_eq!(
        Operation::try_from("").unwrap_err(),
        "invalid operation: , empty string"
    );
    assert_eq!(
        Permission::try_from("File.Read.x!").unwrap_err(),
        "invalid constraint: invalid resource: x!, invalid character: !"
    );
    assert_eq!(
        Permission::try_from("File").unwrap_err(),
        "invalid permission format File"
    );
}

#[test]
fn test_permission() {
    for (s, p) in [
        (
            "Bucket.Read.Info",
            Permission {
                resource: Resource::Bucket,
                operation: Operation::Read,
                constraint: Some(Resource::Other("Info".to_string())),
            },
        ),
        (
            "Bucket.Read.File",
            Permission {
                resource: Resource::Bucket,
                operation: Operation::Read,
                constraint: Some(Resource::File),
            },
        ),
        (
            "SomeResource.some_operation",
            Permission {
                resource: Resource::Other("SomeResource".to_string()),
                operation: Operation::Other("some_operation".to_string()),
                constraint: None,
            },
        ),
        (
            "File.Read",
            Permission {
                resource: Resource::File,
                operation: Operation::Read,
                constraint: None,
            },
        ),
        (
            "File.*",
            Permission {
                resource: Resource::File,
                operation: Operation::All,
                constraint: None,
            },
        ),
        (
            "*.Read",
            Permission {
                resource: Resource::All,
                operation: Operation::Read,
                constraint: None,
            },
        ),
        (
            "*",
            Permission {
                resource: Resource::All,
                operation: Operation::All,
                constraint: None,
            },
        ),
    ] {
        assert_eq!(p.to_string(), s, "Permission({})", s);
        assert_eq!(Permission::try_from(s).unwrap(), p);
    }

    assert!(Permission::try_from(".File").is_err());
    assert!(Permission::try_from("File").is_err());
    assert!(Permission::try_from("File.").is_err());
    assert!(Permission::try_from("File.Read.Info.Info").is_err());

    assert!(Permission::default().check(&Permission::default()));
    assert!(Permission::default().check(&Permission {
        resource: Resource::File,
        operation: Operation::Read,
        constraint: None,
    }));
    assert!(Permission::default().check(&Permission {
        resource: Resource::Bucket,
        operation: Operation::Read,
        constraint: Some(Resource::File),
    }));
    assert!(Permission {
        resource: Resource::Bucket,
        operation: Operation::Read,
        constraint: None,
    }
    .check(&Permission {
        resource: Resource::Bucket,
        operation: Operation::Read,
        constraint: Some(Resource::Other("Info".to_string())),
    }));

    assert!(!Permission {
        resource: Resource::Bucket,
        operation: Operation::Read,
        constraint: Some(Resource::Other("Info".to_string())),
    }
    .check(&Permission {
        resource: Resource::Bucket,
        operation: Operation::Read,
        constraint: Some(Resource::File),
    }));
    assert!(!Permission {
        resource: Resource::Bucket,
        operation: Operation::Write,
        constraint: None,
    }
    .check(&Permission {
        resource: Resource::Bucket,
        operation: Operation::Read,
        constraint: None,
    }));
    assert!(!Permission {
        resource: Resource::Folder,
        operation: Operation::Write,
        constraint: None,
    }
    .check(&Permission {
        resource: Resource::File,
        operation: Operation::Write,
        constraint: None,
    }));
}

#[test]
fn test_resources() {
    let rs = Resources::default();
    assert_eq!(rs.to_string(), "");
    assert_eq!(Resources::try_from("").unwrap(), rs);
    assert!(rs.check(""));
    assert!(rs.check("123"));
    assert!(rs.check("abc"));

    let rs = Resources::try_from("*").unwrap();
    assert!(rs.check(""));
    assert!(rs.check("123"));
    assert!(rs.check("abc"));
    assert_eq!(rs.to_string(), "");

    let rs = Resources::from(["1".to_string()]);
    assert_eq!(rs.to_string(), "1");
    assert_eq!(Resources::try_from("1").unwrap(), rs);
    assert!(rs.check("1"));
    assert!(!rs.check("2"));
    assert!(!rs.check(""));
    assert!(!rs.check("12"));
    assert!(!rs.check("a"));

    let rs = Resources::from(["1".to_string(), "2".to_string(), "3".to_string()]);
    assert_eq!(rs.to_string(), "1,2,3");
    assert_eq!(Resources::try_from("1,2,3").unwrap(), rs);
    assert!(rs.check("1"));
    assert!(rs.check("2"));
    assert!(!rs.check(""));
    assert!(!rs.check("12"));
    assert!(!rs.check("a"));

    assert!(Resources::try_from("1, 2").is_err());
    assert!(Resources::try_from("1,2 ").is_err());
    assert!(Resources::try_from("1,2.3").is_err());
}

#[test]
fn resources_are_kept_sorted_and_distinct() {
    let rs = Resources::try_from("b,a,b,c").unwrap();
    assert_eq!(rs.to_string(), "a,b,c");
    assert_eq!(rs.len(), 3);
    // the smallest invalid piece is reported
    assert_eq!(
        Resources::try_from("z!,a.").unwrap_err(),
        "invalid character: ."
    );
}

#[test]
fn test_policy() {
    let po = Policy::default();
    assert_eq!(po.to_string(), "*");
    assert_eq!(Policy::try_from("*").unwrap(), po);
    assert_eq!(Policy::try_from("*:*").unwrap(), po);
    assert_eq!(Policy::try_from("*.*:*").unwrap(), po);
    assert!(po.has_permission(
        &Permission {
            resource: Resource::File,
            operation: Operation::Read,
            constraint: None,
        },
        ""
    ));
    assert!(po.has_permission(
        &Permission {
            resource: Resource::Folder,
            operation: Operation::Write,
            constraint: None,
        },
        "1"
    ));

    let po = Policy {
        permission: Permission {
            resource: Resource::File,
            operation: Operation::All,
            constraint: None,
        },
        resources: Resources::from(["123".to_string()]),
    };
    assert_eq!(po.to_string(), "File.*:123");
    assert_eq!(Policy::try_from("File.*:123").unwrap(), po);
    assert!(po.has_permission(
        &Permission {
            resource: Resource::File,
            operation: Operation::Read,
            constraint: None,
        },
        "123"
    ));
    assert!(po.has_permission(
        &Permission {
            resource: Resource::File,
            operation: Operation::Write,
            constraint: None,
        },
        "123"
    ));
    assert!(!po.has_permission(
        &Permission {
            resource: Resource::File,
            operation: Operation::Read,
            constraint: None,
        },
        "1"
    ));
    assert!(!po.has_permission(
        &Permission {
            resource: Resource::File,
            operation: Operation::Write,
            constraint: None,
        },
        "1"
    ));
    assert!(!po.has_permission(
        &Permission {
            resource: Resource::Folder,
            operation: Operation::Write,
            constraint: None,
        },
        "123"
    ));
    assert!(!po.has_permission(
        &Permission {
            resource: Resource::File,
            operation: Operation::Write,
            constraint: None,
        },
        ""
    ));
}

#[test]
fn test_policies() {
    let ps = Policies::default();
    assert_eq!(ps.to_string(), "");
    assert!(!ps.has_permission(
        &Permission {
            resource: Resource::File,
            operation: Operation::Read,
            constraint: None,
        },
        ""
    ));

    let ps = Policies::all();

    assert_eq!(Policies::try_from("*").unwrap(), ps);
    assert_eq!(Policies::try_from("*:*").unwrap(), ps);
    assert_eq!(Policies::try_from("*.*:*").unwrap(), ps);
    assert!(ps.has_permission(
        &Permission {
            resource: Resource::File,
            operation: Operation::Read,
            constraint: None,
        },
        ""
    ));
    assert!(ps.has_permission(
        &Permission {
            resource: Resource::File,
            operation: Operation::Read,
            constraint: None,
        },
        "123"
    ));
    assert!(ps.has_permission(
        &Permission {
            resource: Resource::Bucket,
            operation: Operation::Write,
            constraint: Some(Resource::Folder),
        },
        "bucket1"
    ));

    let ps = Policies::from([
        Policy {
            permission: Permission {
                resource: Resource::Bucket,
                operation: Operation::Read,
                constraint: Some(Resource::All),
            },
            resources: Resources::from([]),
        },
        Policy {
            permission: Permission {
                resource: Resource::Folder,
                operation: Operation::Read,
                constraint: None,
            },
            resources: Resources::default(),
        },
        Policy {
            permission: Permission {
                resource: Resource::Folder,
                operation: Operation::All,
                constraint: None,
            },
            resources: Resources::from(["2".to_string(), "3".to_string(), "5".to_string()]),
        },
        Policy {
            permission: Permission {
                resource: Resource::File,
                operation: Operation::All,
                constraint: None,
            },
            resources: Resources::from(["1".to_string()]),
        },
    ]);

    println!("{}", ps.to_string());
    let scope = "File.*:1 Folder.*:2,3,5 Folder.Read Bucket.Read";
    assert_eq!(ps.to_string(), scope);
    assert_eq!(Policies::try_from(scope).unwrap().to_string(), scope);

    // File.*:1
    assert!(ps.has_permission(
        &Permission {
            resource: Resource::File,
            operation: Operation::Delete,
            constraint: None,
        },
        "1"
    ));

    // File.*:1
    assert!(ps.has_permission(
        &Permission {
            resource: Resource::File,
            operation: Operation::Read,
            constraint: Some(Resource::Other("Info".to_string())),
        },
        "1"
    ));

    // File.*:1
    assert!(!ps.has_permission(
        &Permission {
            resource: Resource::File,
            operation: Operation::Read,
            constraint: Some(Resource::Other("Info".to_string())),
        },
        "2"
    ));

    // File.*:1
    assert!(ps.has_permission(
        &Permission {
            resource: Resource::File,
            operation: Operation::All,
            constraint: None,
        },
        "1"
    ));

    // Folder.*:2,3,5
    assert!(ps.has_permission(
        &Permission {
            resource: Resource::Folder,
            operation: Operation::Delete,
            constraint: Some(Resource::File),
        },
        "2"
    ));

    // Folder.*:2,3,5
    assert!(!ps.has_permission(
        &Permission {
            resource: Resource::Folder,
            operation: Operation::Delete,
            constraint: Some(Resource::File),
        },
        "4"
    ));

    // Folder.*:2,3,5
    assert!(ps.has_permission_any(
        &Permission {
            resource: Resource::Folder,
            operation: Operation::Delete,
            constraint: Some(Resource::File),
        },
        &["4", "5"]
    ));
    assert!(ps.has_permission_any(
        &Permission {
            resource: Resource::Folder,
            operation: Operation::Delete,
            constraint: Some(Resource::File),
        },
        &[4.to_string(), 5.to_string()]
    ));

    // Folder.Read
    assert!(ps.has_permission(
        &Permission {
            resource: Resource::Folder,
            operation: Operation::Read,
            constraint: Some(Resource::Other("Info".to_string())),
        },
        "1"
    ));

    // Folder.Read
    assert!(ps.has_permission(
        &Permission {
            resource: Resource::Folder,
            operation: Operation::Read,
            constraint: Some(Resource::File),
        },
        "6"
    ));

    // Bucket.Read
    assert!(ps.has_permission(
        &Permission {
            resource: Resource::Bucket,
            operation: Operation::Read,
            constraint: Some(Resource::Folder),
        },
        "1"
    ));

    // Bucket.Read
    assert!(!ps.has_permission(
        &Permission {
            resource: Resource::Bucket,
            operation: Operation::Write,
            constraint: Some(Resource::Folder),
        },
        "1"
    ));
}

#[test]
fn policies_append_and_remove_act_as_set_union_and_difference() {
    let mut a = Policies::try_from("File.Read:1 Folder.List").unwrap();
    let mut b = Policies::try_from("Folder.List File.Write:2").unwrap();
    a.append(&mut b);
    assert!(b.is_empty());
    assert_eq!(a.to_string(), "File.Read:1 File.Write:2 Folder.List");
    let c = Policies::try_from("File.Read:1 Bucket.Read").unwrap();
    a.remove(&c);
    assert_eq!(a.to_string(), "File.Write:2 Folder.List");
    // read policies admit reading and listing only
    let r = Policies::read();
    assert_eq!(r.len(), 2);
    let read = Permission {
        resource: Resource::File,
        operation: Operation::Read,
        constraint: None,
    };
    let write = Permission {
        resource: Resource::File,
        operation: Operation::Write,
        constraint: None,
    };
    assert!(r.has_permission(&read, "9"));
    assert!(!r.has_permission(&write, "9"));
    assert_eq!(
        Policies::try_from("File.Read Bad.x!").unwrap_err(),
        "invalid operation: x!, invalid character: !"
    );
}

#[test]
fn appends_ignore_order_and_removes_undo_them() {
    let p = || Policies::try_from("File.Read:1 Folder.List").unwrap();
    let q = || Policies::try_from("Bucket.Write.File").unwrap();
    let mut a = p();
    a.append(&mut q());
    let mut b = q();
    b.append(&mut p());
    assert_eq!(a.to_string(), b.to_string());
    a.remove(&q());
    assert_eq!(a.to_string(), p().to_string());
    a.remove(&q());
    assert_eq!(a.to_string(), p().to_string());
}
