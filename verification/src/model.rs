//! The engine's error kinds: a flat, closed set, never strings.

use vstd::prelude::*;

verus! {

/// General API errors.
#[derive(Clone, Copy, Debug, PartialEq, Eq, Structural)]
pub enum LilyError {
    /// A value that must not collide with an existing one did.
    MustBeUnique,
    /// The operation is not permitted.
    NotAllowed,
    /// Stored or supplied content is malformed.
    ValueError,
    /// No record with the given key exists.
    NotFound,
    /// Any other storage failure.
    Other,
}

impl LilyError {
    /// A human-readable description of the error.
    pub fn to_string(&self) -> (r: String)
        ensures
            *self == LilyError::MustBeUnique ==> r@ == "One of the given values must be unique."@,
            *self == LilyError::NotAllowed ==> r@
                == "You are not allowed to access this resource."@,
            *self == LilyError::ValueError ==> r@ == "One of the field values given is invalid."@,
            *self == LilyError::NotFound ==> r@ == "No asset with this ID could be found."@,
            *self == LilyError::Other ==> r@ == "An unspecified error has occured"@,
    {
        match self {
            LilyError::MustBeUnique => String::from_str("One of the given values must be unique."),
            LilyError::NotAllowed => String::from_str(
                "You are not allowed to access this resource.",
            ),
            LilyError::ValueError => String::from_str("One of the field values given is invalid."),
            LilyError::NotFound => String::from_str("No asset with this ID could be found."),
            LilyError::Other => String::from_str("An unspecified error has occured"),
        }
    }
}

} // verus!
