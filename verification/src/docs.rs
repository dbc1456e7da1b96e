//! Document records: shared markdown documents, their metadata and the
//! request bodies the document service accepts.

use vstd::prelude::*;

verus! {

/// A shared document.
pub struct Document {
    /// The path to the document under the owner.
    pub path: String,
    /// The username of the document's owner.
    pub owner: String,
    /// The markdown content of the document.
    pub content: String,
    /// The date the document was published.
    pub date_published: u128,
    /// The date the document was edited.
    pub date_edited: u128,
    /// Extra document options.
    pub metadata: DocumentMetadata,
}

/// Document visibility.
#[derive(Clone, Copy, Debug, PartialEq, Eq, Structural)]
pub enum DocumentVisibility {
    /// Visible to anybody.
    Public,
}

impl Default for DocumentVisibility {
    fn default() -> (r: Self)
        ensures
            r == DocumentVisibility::Public,
    {
        DocumentVisibility::Public
    }
}

/// Extra document options.
#[derive(Clone, Copy, Debug, PartialEq, Eq, Structural)]
pub struct DocumentMetadata {
    /// The visibility of the document.
    pub visibility: DocumentVisibility,
}

impl Default for DocumentMetadata {
    fn default() -> (r: Self)
        ensures
            r.visibility == DocumentVisibility::Public,
    {
        DocumentMetadata { visibility: DocumentVisibility::Public }
    }
}

/// A document as shown to the public.
pub struct PublicDocument {
    pub path: String,
    pub owner: String,
    pub content: String,
    pub date_published: u128,
    pub date_edited: u128,
    pub metadata: DocumentMetadata,
}

impl PublicDocument {
    /// The public face of a document: the same fields, nothing hidden.
    pub fn of_document(value: Document) -> (r: Self)
        ensures
            r.path@ == value.path@,
            r.owner@ == value.owner@,
            r.content@ == value.content@,
            r.date_published == value.date_published,
            r.date_edited == value.date_edited,
            r.metadata == value.metadata,
    {
        PublicDocument {
            path: value.path,
            owner: value.owner,
            content: value.content,
            date_published: value.date_published,
            date_edited: value.date_edited,
            metadata: value.metadata,
        }
    }
}

/// Request body for creating a document.
pub struct DocumentCreate {
    pub path: String,
    pub content: String,
}

/// Request body for editing a document.
pub struct DocumentEdit {
    pub new_content: String,
    pub new_path: String,
}

/// Request body for editing a document's metadata.
pub struct DocumentEditMetadata {
    pub password: String,
    pub metadata: DocumentMetadata,
}

/// General document-store errors.
#[derive(Clone, Copy, Debug, PartialEq, Eq, Structural)]
pub enum DatabaseError {
    AlreadyExists,
    NotAllowed,
    ValueError,
    NotFound,
    Other,
}

impl DatabaseError {
    /// A human-readable description of the error.
    pub fn to_string(&self) -> (r: String)
        ensures
            *self == DatabaseError::AlreadyExists ==> r@
                == "A document with this path already exists."@,
            *self == DatabaseError::NotAllowed ==> r@ == "You are not allowed to do this."@,
            *self == DatabaseError::ValueError ==> r@
                == "One of the field values given is invalid."@,
            *self == DatabaseError::NotFound ==> r@
                == "No document with this path has been found."@,
            *self == DatabaseError::Other ==> r@ == "An unspecified error has occured"@,
    {
        match self {
            DatabaseError::AlreadyExists => String::from_str(
                "A document with this path already exists.",
            ),
            DatabaseError::NotAllowed => String::from_str("You are not allowed to do this."),
            DatabaseError::ValueError => String::from_str(
                "One of the field values given is invalid.",
            ),
            DatabaseError::NotFound => String::from_str(
                "No document with this path has been found.",
            ),
            DatabaseError::Other => String::from_str("An unspecified error has occured"),
        }
    }
}

} // verus!
