//! The settings a bucket is installed with, and those an upgrade changes.
use vstd::prelude::*;
use crate::bucket::Bucket;
use crate::file::MAX_FILE_SIZE;
use crate::text::{chars_of, decimal, owned, push_decimal, trim, trim_spec};

verus! {

/// The arguments of an installation or of an upgrade.
#[derive(Clone, Debug)]
pub enum CanisterArgs {
    Init(InitArgs),
    Upgrade(UpgradeArgs),
}

/// The settings of a new bucket; zero values and an empty name keep the defaults.
#[derive(Clone, Debug, Default)]
pub struct InitArgs {
    pub name: String,
    pub file_id: u32,
    pub max_file_size: u64,
    pub max_folder_depth: u8,
    pub max_children: u16,
    /// 0: private; 1: public.
    pub visibility: u8,
    pub max_custom_data_size: u16,
    pub enable_hash_index: bool,
}

/// The settings an upgrade changes; `None` keeps the current one.
#[derive(Clone, Debug, Default)]
pub struct UpgradeArgs {
    pub name: Option<String>,
    pub max_file_size: Option<u64>,
    pub max_folder_depth: Option<u8>,
    pub max_children: Option<u16>,
    /// 0: private; 1: public.
    pub visibility: Option<u8>,
    pub max_custom_data_size: Option<u16>,
    pub enable_hash_index: Option<bool>,
}

/// Why the upgrade settings are refused, if they are.
pub open spec fn upgrade_error(a: UpgradeArgs) -> Option<Seq<char>> {
    if a.name matches Some(n) && n@.len() == 0 {
        Some("name cannot be empty"@)
    } else if a.max_file_size == Some(0u64) {
        Some("max_file_size should be greater than 0"@)
    } else if a.max_file_size matches Some(m) && m < MAX_FILE_SIZE {
        Some("max_file_size should be greater than or equal to "@ + decimal(MAX_FILE_SIZE as nat))
    } else if a.max_folder_depth == Some(0u8) {
        Some("max_folder_depth should be greater than 0"@)
    } else if a.max_children == Some(0u16) {
        Some("max_children should be greater than 0"@)
    } else if a.visibility matches Some(v) && v != 0 && v != 1 {
        Some("visibility should be 0 or 1"@)
    } else if a.max_custom_data_size == Some(0u16) {
        Some("max_custom_data_size should be greater than 0"@)
    } else {
        None
    }
}

impl UpgradeArgs {
    /// Checks the settings: a non-empty name, limits above zero, a file size
    /// limit of at least the default, and a visibility of 0 or 1.
    pub fn validate(&self) -> (r: Result<(), String>)
        ensures
            match upgrade_error(*self) {
                Some(e) => r matches Err(x) && x@ == e,
                None => r is Ok,
            },
    {
        if let Some(name) = &self.name {
            if chars_of(name.as_str()).len() == 0 {
                return Err(owned("name cannot be empty"));
            }
        }
        if let Some(max_file_size) = self.max_file_size {
            if max_file_size == 0 {
                return Err(owned("max_file_size should be greater than 0"));
            }
            if max_file_size < MAX_FILE_SIZE {
                let mut e = owned("max_file_size should be greater than or equal to ");
                push_decimal(&mut e, MAX_FILE_SIZE);
                return Err(e);
            }
        }
        if let Some(max_folder_depth) = self.max_folder_depth {
            if max_folder_depth == 0 {
                return Err(owned("max_folder_depth should be greater than 0"));
            }
        }
        if let Some(max_children) = self.max_children {
            if max_children == 0 {
                return Err(owned("max_children should be greater than 0"));
            }
        }
        if let Some(visibility) = self.visibility {
            if visibility != 0 && visibility != 1 {
                return Err(owned("visibility should be 0 or 1"));
            }
        }
        if let Some(max_custom_data_size) = self.max_custom_data_size {
            if max_custom_data_size == 0 {
                return Err(owned("max_custom_data_size should be greater than 0"));
            }
        }
        Ok(())
    }

    /// Writes the settings that are given into the bucket.
    pub fn apply(self, bucket: &mut Bucket)
        ensures
            final(bucket).name@ == (match self.name {
                Some(n) => n@,
                None => old(bucket).name@,
            }),
            final(bucket).max_file_size == (match self.max_file_size {
                Some(x) => x,
                None => old(bucket).max_file_size,
            }),
            final(bucket).max_folder_depth == (match self.max_folder_depth {
                Some(x) => x,
                None => old(bucket).max_folder_depth,
            }),
            final(bucket).max_children == (match self.max_children {
                Some(x) => x,
                None => old(bucket).max_children,
            }),
            final(bucket).visibility == (match self.visibility {
                Some(x) => x,
                None => old(bucket).visibility,
            }),
            final(bucket).max_custom_data_size == (match self.max_custom_data_size {
                Some(x) => x,
                None => old(bucket).max_custom_data_size,
            }),
            final(bucket).enable_hash_index == (match self.enable_hash_index {
                Some(x) => x,
                None => old(bucket).enable_hash_index,
            }),
            final(bucket).file_id == old(bucket).file_id,
            final(bucket).folder_id == old(bucket).folder_id,
            final(bucket).status == old(bucket).status,
            final(bucket).managers == old(bucket).managers,
            final(bucket).auditors == old(bucket).auditors,
    {
        if let Some(name) = self.name {
            bucket.name = name;
        }
        if let Some(max_file_size) = self.max_file_size {
            bucket.max_file_size = max_file_size;
        }
        if let Some(max_folder_depth) = self.max_folder_depth {
            bucket.max_folder_depth = max_folder_depth;
        }
        if let Some(max_children) = self.max_children {
            bucket.max_children = max_children;
        }
        if let Some(visibility) = self.visibility {
            bucket.visibility = visibility;
        }
        if let Some(max_custom_data_size) = self.max_custom_data_size {
            bucket.max_custom_data_size = max_custom_data_size;
        }
        if let Some(enable_hash_index) = self.enable_hash_index {
            bucket.enable_hash_index = enable_hash_index;
        }
    }
}

impl InitArgs {
    /// Writes the settings into the bucket, a default for each zero value and
    /// for an empty name, and any visibility above 0 as public.
    pub fn apply(self, bucket: &mut Bucket)
        ensures
            final(bucket).name@ == (if self.name@.len() == 0 { "default"@ } else { self.name@ }),
            final(bucket).file_id == self.file_id,
            final(bucket).max_file_size == (if self.max_file_size == 0 { MAX_FILE_SIZE } else { self.max_file_size }),
            final(bucket).max_folder_depth == (if self.max_folder_depth == 0 { 10 } else { self.max_folder_depth }),
            final(bucket).max_children == (if self.max_children == 0 { 1000 } else { self.max_children }),
            final(bucket).visibility == (if self.visibility == 0 { 0u8 } else { 1u8 }),
            final(bucket).max_custom_data_size == (if self.max_custom_data_size == 0 {
                4096
            } else {
                self.max_custom_data_size
            }),
            final(bucket).enable_hash_index == self.enable_hash_index,
            final(bucket).folder_id == old(bucket).folder_id,
            final(bucket).status == old(bucket).status,
            final(bucket).managers == old(bucket).managers,
            final(bucket).auditors == old(bucket).auditors,
    {
        bucket.name = if chars_of(self.name.as_str()).len() == 0 {
            owned("default")
        } else {
            self.name
        };
        bucket.file_id = self.file_id;
        bucket.max_file_size = if self.max_file_size == 0 {
            MAX_FILE_SIZE
        } else {
            self.max_file_size
        };
        bucket.max_folder_depth = if self.max_folder_depth == 0 {
            10
        } else {
            self.max_folder_depth
        };
        bucket.max_children = if self.max_children == 0 {
            1000
        } else {
            self.max_children
        };
        bucket.visibility = if self.visibility == 0 {
            0
        } else {
            1
        };
        bucket.max_custom_data_size = if self.max_custom_data_size == 0 {
            4096
        } else {
            self.max_custom_data_size
        };
        bucket.enable_hash_index = self.enable_hash_index;
    }
}

/// The settings of a bucket being installed: only installation arguments
/// are accepted.
pub fn init_bucket(bucket: &mut Bucket, args: Option<CanisterArgs>) -> (r: Result<(), String>)
    ensures
        args is None ==> (r matches Err(e) && e@ == "Init args is missing"@ && *final(bucket) == *old(bucket)),
        args matches Some(CanisterArgs::Upgrade(_)) ==> (r matches Err(e) && e@
            == "Cannot initialize the canister with an Upgrade args. Please provide an Init args."@
            && *final(bucket) == *old(bucket)),
        args matches Some(CanisterArgs::Init(a)) ==> (r is Ok && final(bucket).file_id == a.file_id
            && final(bucket).enable_hash_index == a.enable_hash_index),
{
    match args {
        None => Err(owned("Init args is missing")),
        Some(CanisterArgs::Init(a)) => {
            a.apply(bucket);
            Ok(())
        },
        Some(CanisterArgs::Upgrade(_)) => Err(
            owned("Cannot initialize the canister with an Upgrade args. Please provide an Init args."),
        ),
    }
}

/// The settings of a bucket being upgraded: no arguments keep them, upgrade
/// arguments change them once they are valid, installation arguments are refused.
pub fn upgrade_bucket(bucket: &mut Bucket, args: Option<CanisterArgs>) -> (r: Result<(), String>)
    ensures
        args is None ==> (r is Ok && *final(bucket) == *old(bucket)),
        args matches Some(CanisterArgs::Init(_)) ==> (r matches Err(e) && e@
            == "Cannot upgrade the canister with an Init args. Please provide an Upgrade args."@
            && *final(bucket) == *old(bucket)),
        args matches Some(CanisterArgs::Upgrade(a)) ==> match upgrade_error(a) {
            Some(e) => r matches Err(x) && x@ == e && *final(bucket) == *old(bucket),
            None => r is Ok && final(bucket).max_file_size == (match a.max_file_size {
                Some(x) => x,
                None => old(bucket).max_file_size,
            }),
        },
{
    match args {
        None => Ok(()),
        Some(CanisterArgs::Upgrade(a)) => {
            a.validate()?;
            a.apply(bucket);
            Ok(())
        },
        Some(CanisterArgs::Init(_)) => Err(
            owned("Cannot upgrade the canister with an Init args. Please provide an Upgrade args."),
        ),
    }
}

/// A change to a bucket's settings; `None` keeps the current one.
#[derive(Clone, Debug, Default)]
pub struct UpdateBucketInput {
    pub name: Option<String>,
    pub max_file_size: Option<u64>,
    pub max_folder_depth: Option<u8>,
    pub max_children: Option<u16>,
    pub max_custom_data_size: Option<u16>,
    pub enable_hash_index: Option<bool>,
    /// -1: archived; 0: readable and writable; 1: read-only.
    pub status: Option<i8>,
    /// 0: private; 1: public.
    pub visibility: Option<u8>,
    pub trusted_ecdsa_pub_keys: Option<Vec<Vec<u8>>>,
    pub trusted_eddsa_pub_keys: Option<Vec<[u8; 32]>>,
}

/// Why a change to a bucket's settings is refused, if it is.
pub open spec fn update_error(a: UpdateBucketInput) -> Option<Seq<char>> {
    if a.name matches Some(n) && trim_spec(n@).len() == 0 {
        Some("invalid bucket name"@)
    } else if a.max_file_size == Some(0u64) {
        Some("max_file_size should be greater than 0"@)
    } else if a.max_file_size matches Some(m) && m < MAX_FILE_SIZE {
        Some("max_file_size should be greater than or equal to "@ + decimal(MAX_FILE_SIZE as nat))
    } else if a.max_folder_depth == Some(0u8) {
        Some("max_folder_depth should be greater than 0"@)
    } else if a.max_children == Some(0u16) {
        Some("max_children should be greater than 0"@)
    } else if a.max_custom_data_size == Some(0u16) {
        Some("max_custom_data_size should be greater than 0"@)
    } else if a.status matches Some(s) && !(-1 <= s <= 1) {
        Some("status should be -1, 0 or 1"@)
    } else if a.visibility matches Some(v) && v != 0 && v != 1 {
        Some("visibility should be 0 or 1"@)
    } else {
        None
    }
}

impl UpdateBucketInput {
    /// Checks the change: a name that is not blank, limits above zero, a file
    /// size limit of at least the default, a status of -1, 0 or 1 and a
    /// visibility of 0 or 1.
    pub fn validate(&self) -> (r: Result<(), String>)
        ensures
            match update_error(*self) {
                Some(e) => r matches Err(x) && x@ == e,
                None => r is Ok,
            },
    {
        if let Some(name) = &self.name {
            if chars_of(trim(name.as_str()).as_str()).len() == 0 {
                return Err(owned("invalid bucket name"));
            }
        }
        if let Some(max_file_size) = self.max_file_size {
            if max_file_size == 0 {
                return Err(owned("max_file_size should be greater than 0"));
            }
            if max_file_size < MAX_FILE_SIZE {
                let mut e = owned("max_file_size should be greater than or equal to ");
                push_decimal(&mut e, MAX_FILE_SIZE);
                return Err(e);
            }
        }
        if let Some(max_folder_depth) = self.max_folder_depth {
            if max_folder_depth == 0 {
                return Err(owned("max_folder_depth should be greater than 0"));
            }
        }
        if let Some(max_children) = self.max_children {
            if max_children == 0 {
                return Err(owned("max_children should be greater than 0"));
            }
        }
        if let Some(max_custom_data_size) = self.max_custom_data_size {
            if max_custom_data_size == 0 {
                return Err(owned("max_custom_data_size should be greater than 0"));
            }
        }
        if let Some(status) = self.status {
            if status < -1 || status > 1 {
                return Err(owned("status should be -1, 0 or 1"));
            }
        }
        if let Some(visibility) = self.visibility {
            if visibility != 0 && visibility != 1 {
                return Err(owned("visibility should be 0 or 1"));
            }
        }
        Ok(())
    }
}

} // verus!
