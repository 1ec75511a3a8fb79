//! Folder descriptions and the inputs that create and update folders.
use vstd::prelude::*;
use crate::file::{is_file_name, opt_text, valid_file_name};
use crate::text::owned;

verus! {

/// What a folder looks like from outside.
#[derive(Clone, Debug, Default)]
pub struct FolderInfo {
    pub id: u32,
    pub parent: u32,
    pub name: String,
    pub created_at: u64,
    pub updated_at: u64,
    pub status: i8,
    /// The ids of the files in the folder, in increasing order.
    pub files: Vec<u32>,
    /// The ids of the sub folders, in increasing order.
    pub folders: Vec<u32>,
}

/// A folder's id and name, as listed among the ancestors of a file or folder.
#[derive(Clone, Debug, Default)]
pub struct FolderName {
    pub id: u32,
    pub name: String,
}

/// The input to create a folder.
#[derive(Clone, Debug, Default)]
pub struct CreateFolderInput {
    pub parent: u32,
    pub name: String,
}

impl CreateFolderInput {
    /// Checks that the name is a valid file name.
    pub fn validate(&self) -> (r: Result<(), String>)
        ensures
            r is Ok <==> is_file_name(self.name@),
            r matches Err(e) ==> e@ == "invalid folder name"@,
    {
        if !valid_file_name(self.name.as_str()) {
            return Err(owned("invalid folder name"));
        }
        Ok(())
    }
}

/// The outcome of creating a folder.
#[derive(Clone, Debug, Default)]
pub struct CreateFolderOutput {
    pub id: u32,
    pub created_at: u64,
}

/// The input to update a folder: a new name and/or a new status.
#[derive(Clone, Debug, Default)]
pub struct UpdateFolderInput {
    pub id: u32,
    pub name: Option<String>,
    pub status: Option<i8>,
}

/// Why a folder update input is rejected, if it is.
pub open spec fn update_folder_error(name: Option<Seq<char>>, status: Option<i8>) -> Option<Seq<char>> {
    if name is Some && !is_file_name(name->0) {
        Some("invalid folder name"@)
    } else if status is Some && !(-1 <= status->0 <= 1) {
        Some("status should be -1, 0 or 1"@)
    } else {
        None
    }
}

impl UpdateFolderInput {
    /// Checks the new name and status, where given.
    pub fn validate(&self) -> (r: Result<(), String>)
        ensures
            match update_folder_error(opt_text(self.name), self.status) {
                Some(m) => r matches Err(e) && e@ == m,
                None => r is Ok,
            },
    {
        if let Some(name) = &self.name {
            if !valid_file_name(name.as_str()) {
                return Err(owned("invalid folder name"));
            }
        }
        if let Some(status) = self.status {
            if !(-1 <= status && status <= 1) {
                return Err(owned("status should be -1, 0 or 1"));
            }
        }
        Ok(())
    }
}

/// The outcome of updating a folder.
#[derive(Clone, Debug, Default)]
pub struct UpdateFolderOutput {
    pub updated_at: u64,
}

} // verus!
