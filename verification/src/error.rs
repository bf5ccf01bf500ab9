//! The ways in which a catalog operation can fail.

use vstd::prelude::*;
use vstd::string::StringExecFns;

verus! {

/// Why an operation was refused.
#[derive(Clone, Copy, Debug, PartialEq, Eq, Structural)]
pub enum CatalogError {
    /// The tag, file or alias that was referred to is not in the catalog.
    NotFound,
    /// The alias is already taken by another bookmark.
    DuplicateAlias,
    /// The alias is empty or contains a path separator.
    InvalidAlias,
    /// The folder is missing, is not a directory, or has no UTF-8 name.
    InvalidPath,
    /// The stored catalog could not be read back.
    DecodeError,
    /// The catalog could not be written out.
    EncodeError,
}

impl CatalogError {
    /// The text that tells the user of the error; `subject` is the alias or
    /// path that the operation was about.
    pub open spec fn spec_message(self, subject: Seq<char>) -> Seq<char> {
        match self {
            CatalogError::NotFound => "Alias '"@ + subject + "' not found"@,
            CatalogError::DuplicateAlias => "Alias '"@ + subject + "' already exists"@,
            CatalogError::InvalidAlias => "Alias '"@ + subject + "' is not valid"@,
            CatalogError::InvalidPath => "Path '"@ + subject + "' is not a usable directory"@,
            CatalogError::DecodeError => "Catalog '"@ + subject + "' cannot be read"@,
            CatalogError::EncodeError => "Catalog '"@ + subject + "' cannot be written"@,
        }
    }

    /// The text that tells the user of the error; `subject` is the alias or
    /// path that the operation was about.
    pub fn message(&self, subject: &str) -> (text: String)
        ensures
            text@ == self.spec_message(subject@),
    {
        let (head, tail) = match self {
            CatalogError::NotFound => ("Alias '", "' not found"),
            CatalogError::DuplicateAlias => ("Alias '", "' already exists"),
            CatalogError::InvalidAlias => ("Alias '", "' is not valid"),
            CatalogError::InvalidPath => ("Path '", "' is not a usable directory"),
            CatalogError::DecodeError => ("Catalog '", "' cannot be read"),
            CatalogError::EncodeError => ("Catalog '", "' cannot be written"),
        };
        let mut text = head.to_owned();
        text.append(subject);
        text.append(tail);
        text
    }
}

} // verus!
