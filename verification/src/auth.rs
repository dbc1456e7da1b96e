//! Account records: profiles, their metadata, permission groups, and the
//! request bodies the account service accepts. Persistence and transport
//! are the embedding program's concern.

use vstd::prelude::*;

verus! {

/// Basic user record.
pub struct Profile {
    pub id: String,
    pub username: String,
    pub metadata: ProfileMetadata,
    pub group: i32,
    pub joined: u128,
}

impl Default for Profile {
    /// An anonymous profile in the default group, joined now.
    fn default() -> (r: Self)
        ensures
            r.id@.len() == 0,
            r.username@.len() == 0,
            r.group == 0,
    {
        Profile {
            id: String::new(),
            username: String::new(),
            metadata: ProfileMetadata::default(),
            group: 0,
            joined: crate::util::unix_epoch_timestamp(),
        }
    }
}

/// Extra profile information.
pub struct ProfileMetadata {
    /// A brief description provided by the user.
    pub about: String,
    /// A secondary token that can authenticate as the account.
    pub secondary_token: String,
}

impl Default for ProfileMetadata {
    fn default() -> (r: Self)
        ensures
            r.about@.len() == 0,
            r.secondary_token@.len() == 0,
    {
        ProfileMetadata { about: String::new(), secondary_token: String::new() }
    }
}

/// A system permission.
#[derive(Clone, Copy, Debug, PartialEq, Eq, Structural)]
pub enum Permission {
    /// Manage the server.
    Admin,
    /// Manage other users.
    Manager,
}

/// A permission group.
pub struct Group {
    pub name: String,
    pub id: i32,
    pub permissions: Vec<Permission>,
}

impl Default for Group {
    /// The default group: no permissions.
    fn default() -> (r: Self)
        ensures
            r.name@ == "default"@,
            r.id == 0,
            r.permissions@.len() == 0,
    {
        Group { name: String::from_str("default"), id: 0, permissions: Vec::new() }
    }
}

/// Request body for creating a profile.
pub struct ProfileCreate {
    pub username: String,
}

/// Request body for logging in.
pub struct ProfileLogin {
    pub id: String,
}

/// Request body for replacing a profile's metadata.
pub struct SetProfileMetadata {
    pub metadata: ProfileMetadata,
}

/// Request body for moving a profile to a group.
pub struct SetProfileGroup {
    pub group: i32,
}

/// General account errors.
#[derive(Clone, Copy, Debug, PartialEq, Eq, Structural)]
pub enum AuthError {
    MustBeUnique,
    NotAllowed,
    ValueError,
    NotFound,
    Other,
}

impl AuthError {
    /// A human-readable description of the error.
    pub fn to_string(&self) -> (r: String)
        ensures
            *self == AuthError::MustBeUnique ==> r@ == "One of the given values must be unique."@,
            *self == AuthError::NotAllowed ==> r@
                == "You are not allowed to access this resource."@,
            *self == AuthError::ValueError ==> r@ == "One of the field values given is invalid."@,
            *self == AuthError::NotFound ==> r@ == "No asset with this ID could be found."@,
            *self == AuthError::Other ==> r@ == "An unspecified error has occured"@,
    {
        match self {
            AuthError::MustBeUnique => String::from_str("One of the given values must be unique."),
            AuthError::NotAllowed => String::from_str(
                "You are not allowed to access this resource.",
            ),
            AuthError::ValueError => String::from_str("One of the field values given is invalid."),
            AuthError::NotFound => String::from_str("No asset with this ID could be found."),
            AuthError::Other => String::from_str("An unspecified error has occured"),
        }
    }
}

/// Options for the account server; all switches are on.
#[derive(Clone, Copy, Debug, PartialEq, Eq, Structural)]
pub struct ServerOptions {}

impl ServerOptions {
    /// Enable all options.
    pub fn truthy() -> (r: Self)
        ensures
            r == (ServerOptions {  }),
    {
        ServerOptions {  }
    }
}

impl Default for ServerOptions {
    fn default() -> (r: Self)
        ensures
            r == (ServerOptions {  }),
    {
        ServerOptions {  }
    }
}

} // verus!
