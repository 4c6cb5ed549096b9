//! Why a request fails.

use vstd::prelude::*;

verus! {

/// Why a request fails.
#[derive(Debug, Clone, Copy, PartialEq, Eq, Structural)]
pub enum Error {
    /// A path that names nothing.
    PathNotFound,
    /// A URL that is not that of a file.
    NotAFileUrl,
    /// A document that is not open.
    DocumentNotFound,
    /// A line beyond the end of a document.
    LineOutOfBounds,
    /// A configuration whose signature is not the one that it should have.
    NotSigned,
    /// A symbol that is not known.
    SymbolNotFound,
    /// A symbol without a definition, or without the extension of the file that shows it.
    NoDefinition,
    /// The row at this index has no text as its identifier.
    IdentifierMissing(usize),
    /// The identifier of the row at this index could not be read; the database tells why.
    IdentifierUnreadable(usize),
}

/// What is told where a definition or the extension of its file is missing.
pub const NO_DEFINITION: &'static str =
    "Condition failed: `symbol_info.definition_file_ext.is_some() & symbol_info.definition.is_some()`";

/// What is told of an error.
pub open spec fn error_text(e: Error) -> Seq<char> {
    match e {
        Error::PathNotFound => "not found"@,
        Error::NotAFileUrl => "url to file path fail"@,
        Error::DocumentNotFound => "text document not found"@,
        Error::LineOutOfBounds => "line_idx is out of bounds"@,
        Error::NotSigned => "you should sign config"@,
        Error::SymbolNotFound => "Expect symbol resolve"@,
        Error::NoDefinition => NO_DEFINITION@,
        Error::IdentifierMissing(_) => "'Identifier' column must be string"@,
        Error::IdentifierUnreadable(_) => "'Identifier' column can not be read"@,
    }
}

impl Error {
    /// What is told of the error.
    pub fn message(&self) -> (r: &'static str)
        ensures
            r@ == error_text(*self),
            *self is IdentifierMissing ==> r@ == "'Identifier' column must be string"@,
            *self is IdentifierUnreadable ==> r@ == "'Identifier' column can not be read"@,
            *self is NotSigned ==> r@ == "you should sign config"@,
    {
        match self {
            Error::PathNotFound => "not found",
            Error::NotAFileUrl => "url to file path fail",
            Error::DocumentNotFound => "text document not found",
            Error::LineOutOfBounds => "line_idx is out of bounds",
            Error::NotSigned => "you should sign config",
            Error::SymbolNotFound => "Expect symbol resolve",
            Error::NoDefinition => NO_DEFINITION,
            Error::IdentifierMissing(_) => "'Identifier' column must be string",
            Error::IdentifierUnreadable(_) => "'Identifier' column can not be read",
        }
    }
}

} // verus!
