//! Repository records: published repositories, their metadata and the
//! request bodies the repository service accepts.

use vstd::prelude::*;

verus! {

/// A published repository.
pub struct Repository {
    /// The name of the repository.
    pub name: String,
    /// The username of the repository owner.
    pub owner: String,
    /// The date the repository was published.
    pub date_published: u128,
    /// Extra repository options.
    pub metadata: RepositoryMetadata,
}

/// Extra repository options; none are defined yet.
#[derive(Clone, Copy, Debug, PartialEq, Eq, Structural)]
pub struct RepositoryMetadata {}

impl Default for RepositoryMetadata {
    fn default() -> (r: Self)
        ensures
            r == (RepositoryMetadata {  }),
    {
        RepositoryMetadata {  }
    }
}

/// Request body for creating a repository.
pub struct RepositoryCreate {
    pub name: String,
}

/// Request body for editing a repository's metadata.
pub struct RepositoryEditMetadata {
    pub metadata: RepositoryMetadata,
}

} // verus!
