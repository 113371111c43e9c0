//! Wire model: the request and response record shapes that the catalog is
//! driven with.
//!
//! Each record exists in a borrowed form (zero-copy over a request buffer)
//! and an owned form; `IntoOwned` lifts the borrowed form so a record can
//! outlive the bytes it was parsed from.

use vstd::prelude::*;

verus! {

/// Lift of a borrowed record into one that owns its text.
pub trait IntoOwned {
    type Owned;

    fn into_owned(self) -> Self::Owned;
}

/// Credentials presented at sign-up and login.
#[derive(Clone, Debug, PartialEq, Eq)]
pub struct UserDetails {
    pub email: String,
    pub password: String,
}

/// Borrowed form of `UserDetails`.
#[derive(Clone, Copy, Debug)]
pub struct UserDetailsRef<'a, 'b> {
    pub email: &'a str,
    pub password: &'b str,
}

impl<'a, 'b> IntoOwned for UserDetailsRef<'a, 'b> {
    type Owned = UserDetails;

    fn into_owned(self) -> (r: Self::Owned)
        ensures
            r.email@ == self.email@,
            r.password@ == self.password@,
    {
        UserDetails { email: self.email.to_owned(), password: self.password.to_owned() }
    }
}

/// Password rotation request.
#[derive(Clone, Debug, PartialEq, Eq)]
pub struct ChangePassword {
    pub old_password: String,
    pub new_password: String,
}

/// A session key, or the email naming a share target.
#[derive(Clone, Debug, PartialEq, Eq)]
pub struct Key {
    pub key: String,
}

/// Borrowed form of `Key`.
#[derive(Clone, Copy, Debug)]
pub struct KeyRef<'a> {
    pub key: &'a str,
}

impl<'a> IntoOwned for KeyRef<'a> {
    type Owned = Key;

    fn into_owned(self) -> (r: Self::Owned)
        ensures
            r.key@ == self.key@,
    {
        Key { key: self.key.to_owned() }
    }
}

/// The open sessions of a user, by key prefix.
#[derive(Clone, Debug, PartialEq, Eq)]
pub struct SessionList {
    pub key_prefixes: Vec<String>,
}

/// Client-supplied description of an upload.
#[derive(Clone, Debug, PartialEq, Eq)]
pub struct FileMetadata {
    pub last_modified: i64,
    pub name: String,
    pub mime: String,
}

/// Paging request for the file listing.
#[derive(Clone, Debug, PartialEq, Eq)]
pub struct ListRequest {
    pub prefix: Option<String>,
    pub skip: Option<usize>,
    pub length: Option<usize>,
}

/// File listing response: `(name, file_id)` pairs.
#[derive(Clone, Debug, PartialEq, Eq)]
pub struct FileList {
    pub files: Vec<(String, String)>,
}

/// User-editable album settings; the time zone is an IANA zone name.
#[derive(Clone, Debug, PartialEq, Eq)]
pub struct AlbumSettings {
    pub name: String,
    pub time_zone: String,
}

/// Response carrying the id of a newly created resource.
#[derive(Clone, Debug, PartialEq, Eq)]
pub struct NewResource {
    pub id: String,
}

/// A batch of file ids to add to or remove from an album.
#[derive(Clone, Debug, PartialEq, Eq)]
pub struct IdList {
    pub ids: Vec<String>,
}

/// Access level of one user on one album.
#[derive(Clone, Copy, Debug, PartialEq, Eq, Structural)]
pub enum Role {
    Owner,
    Editor,
    Reader,
}

impl Role {
    /// Owners and editors may mutate an album; readers may not.
    pub fn can_write(&self) -> (r: bool)
        ensures
            r == (*self == Role::Owner || *self == Role::Editor),
    {
        match self {
            Role::Owner => true,
            Role::Editor => true,
            Role::Reader => false,
        }
    }

    pub fn is_owner(&self) -> (r: bool)
        ensures
            r == (*self == Role::Owner),
    {
        match self {
            Role::Owner => true,
            _ => false,
        }
    }
}

/// One entry of the share listing of an album.
#[derive(Clone, Debug, PartialEq, Eq)]
pub struct PermissionPair {
    pub email: String,
    pub user_id: Option<String>,
    pub role: Role,
}

} // verus!
