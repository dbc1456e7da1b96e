//! The engine's own configuration: the identity used as commit author.
//! Reading and writing the configuration file is the embedding program's
//! concern.

use vstd::prelude::*;

verus! {

/// The configuration file's content.
#[derive(Clone, Debug)]
pub struct Config {
    /// The identity recorded as the author of new commits.
    pub user_id: String,
}

impl Default for Config {
    /// No identity configured.
    fn default() -> (r: Self)
        ensures
            r.user_id@.len() == 0,
    {
        Config { user_id: String::new() }
    }
}

} // verus!
