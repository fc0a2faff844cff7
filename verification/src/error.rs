//! What can go wrong while listing chapters and planning downloads.

use vstd::prelude::*;

verus! {

/// The reason a listing, a series or a download plan could not be built.
#[derive(Debug, Clone, Copy, PartialEq, Eq, Structural)]
pub enum Error {
    /// A chapter record carries no chapter number, so it has no ordinal.
    MissingChapterNumber,
    /// A chapter record announces more pages than a chapter can hold.
    TooManyPages,
    /// The server's total is smaller than the offset the listing started at.
    TotalBelowOffset,
    /// The page size reported by the server does not fit an offset.
    LimitTooLarge,
    /// Advancing by the reported page size would leave the range of offsets.
    OffsetOverflow,
    /// The series has a title neither in the requested nor in the fallback language.
    MissingTitle,
    /// A page address could not be built from the delivery base and the file name.
    InvalidUrl,
}

/// The family an error belongs to.
#[derive(Debug, Clone, Copy, PartialEq, Eq, Structural)]
pub enum ErrorKind {
    /// A request could not be built or carried out.
    Transport,
    /// The remote data lacks a field or holds a value out of range.
    DataShape,
}

impl Error {
    /// The family of this error: only a page address that cannot be built is a
    /// transport failure, everything else is malformed remote data.
    pub open spec fn spec_kind(self) -> ErrorKind {
        match self {
            Error::InvalidUrl => ErrorKind::Transport,
            _ => ErrorKind::DataShape,
        }
    }

    /// What a user is told about this error.
    pub open spec fn spec_message(self) -> Seq<char> {
        match self {
            Error::MissingChapterNumber => "missing chapter number"@,
            Error::TooManyPages => "too many pages"@,
            Error::TotalBelowOffset => "total below starting offset"@,
            Error::LimitTooLarge => "limit too large"@,
            Error::OffsetOverflow => "offset too large"@,
            Error::MissingTitle => "missing manga title"@,
            Error::InvalidUrl => "invalid page URL"@,
        }
    }

    #[verifier::when_used_as_spec(spec_kind)]
    pub fn kind(self) -> (kind: ErrorKind)
        ensures
            kind == self.spec_kind(),
    {
        match self {
            Error::InvalidUrl => ErrorKind::Transport,
            _ => ErrorKind::DataShape,
        }
    }

    pub fn message(self) -> (text: String)
        ensures
            text@ == self.spec_message(),
    {
        match self {
            Error::MissingChapterNumber => String::from_str("missing chapter number"),
            Error::TooManyPages => String::from_str("too many pages"),
            Error::TotalBelowOffset => String::from_str("total below starting offset"),
            Error::LimitTooLarge => String::from_str("limit too large"),
            Error::OffsetOverflow => String::from_str("offset too large"),
            Error::MissingTitle => String::from_str("missing manga title"),
            Error::InvalidUrl => String::from_str("invalid page URL"),
        }
    }
}

} // verus!
