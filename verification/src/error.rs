//! Reasons for which a booklet cannot be made.
use vstd::prelude::*;

verus! {

/// Why the booklet could not be produced.
#[derive(Debug, Clone, Copy, PartialEq, Eq, Structural)]
pub enum BookletError {
    /// The document has no pages.
    NoPages,
    /// The booklet size cannot be rounded up to a multiple of four.
    InvalidPagesPerBooklet,
    /// The trailer has no `Root` entry.
    NoRootInTrailer,
    /// The trailer's `Root` entry is not a reference.
    RootNotReference,
    /// The object that `Root` names is not a dictionary.
    CatalogNotDictionary,
    /// Every object number has been handed out.
    ObjectNumbersExhausted,
    /// A page's `Rotate` value is too large to be turned by half a turn.
    RotationOutOfRange,
    /// Writing the document out reported an error.
    SaveFailed,
}

/// The text that reports an error.
pub open spec fn message_text(error: BookletError) -> Seq<char> {
    match error {
        BookletError::NoPages => "PDF has no pages"@,
        BookletError::InvalidPagesPerBooklet => "Invalid pages per booklet"@,
        BookletError::NoRootInTrailer => "No Root in trailer"@,
        BookletError::RootNotReference => "Root is not a reference"@,
        BookletError::CatalogNotDictionary => "Catalog is not a dictionary"@,
        BookletError::ObjectNumbersExhausted => "No object number left"@,
        BookletError::RotationOutOfRange => "Page rotation out of range"@,
        BookletError::SaveFailed => "Save failed"@,
    }
}

impl BookletError {
    /// The text that reports this error.
    pub fn message(&self) -> (text: String)
        ensures
            text@ == message_text(*self),
    {
        match self {
            BookletError::NoPages => String::from_str("PDF has no pages"),
            BookletError::InvalidPagesPerBooklet => String::from_str("Invalid pages per booklet"),
            BookletError::NoRootInTrailer => String::from_str("No Root in trailer"),
            BookletError::RootNotReference => String::from_str("Root is not a reference"),
            BookletError::CatalogNotDictionary => String::from_str("Catalog is not a dictionary"),
            BookletError::ObjectNumbersExhausted => String::from_str("No object number left"),
            BookletError::RotationOutOfRange => String::from_str("Page rotation out of range"),
            BookletError::SaveFailed => String::from_str("Save failed"),
        }
    }
}

} // verus!
