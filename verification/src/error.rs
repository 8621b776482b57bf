//! What can go wrong while a template is compiled, parsed or rendered.

use vstd::prelude::*;
use vstd::string::*;

verus! {

/// Why a template could not be turned into output.
#[derive(Debug, PartialEq, Eq)]
pub enum Error {
    /// A tag is not closed, or a delimiter change is not of the form
    /// `=open close=`.
    MalformedTag,
    /// A closing tag, named here, stands where no section is open.
    UnmatchedSectionClose(String),
    /// The innermost open section has the first name, the closing tag the
    /// second.
    SectionNameMismatch(String, String),
    /// The template ends while the named section is still open.
    UnclosedSection(String),
    /// The data at the root is not a `Data::Hash`.
    InvalidRootContext,
}

/// An `Error` with its names as sequences of characters.
pub enum ErrorView {
    MalformedTag,
    UnmatchedSectionClose(Seq<char>),
    SectionNameMismatch(Seq<char>, Seq<char>),
    UnclosedSection(Seq<char>),
    InvalidRootContext,
}

impl View for Error {
    type V = ErrorView;

    open spec fn view(&self) -> ErrorView {
        match self {
            Error::MalformedTag => ErrorView::MalformedTag,
            Error::UnmatchedSectionClose(name) => ErrorView::UnmatchedSectionClose(name@),
            Error::SectionNameMismatch(expected, found) => ErrorView::SectionNameMismatch(
                expected@,
                found@,
            ),
            Error::UnclosedSection(name) => ErrorView::UnclosedSection(name@),
            Error::InvalidRootContext => ErrorView::InvalidRootContext,
        }
    }
}

/// What an error says to a reader.
pub open spec fn message(e: ErrorView) -> Seq<char> {
    match e {
        ErrorView::MalformedTag => "malformed tag"@,
        ErrorView::UnmatchedSectionClose(name) => "closing tag without an open section: "@ + name,
        ErrorView::SectionNameMismatch(expected, found) => "section "@ + expected + " closed by "@
            + found,
        ErrorView::UnclosedSection(name) => "section not closed: "@ + name,
        ErrorView::InvalidRootContext => "the data at the root is not a hash"@,
    }
}

impl Error {
    /// What the error says to a reader, with the names it is about.
    pub fn to_text(&self) -> (out: String)
        ensures
            out@ == message(self@),
    {
        match self {
            Error::MalformedTag => String::from_str("malformed tag"),
            Error::UnmatchedSectionClose(name) => {
                let mut out = String::from_str("closing tag without an open section: ");
                out.append(name.as_str());
                out
            },
            Error::SectionNameMismatch(expected, found) => {
                let mut out = String::from_str("section ");
                out.append(expected.as_str());
                out.append(" closed by ");
                out.append(found.as_str());
                out
            },
            Error::UnclosedSection(name) => {
                let mut out = String::from_str("section not closed: ");
                out.append(name.as_str());
                out
            },
            Error::InvalidRootContext => String::from_str("the data at the root is not a hash"),
        }
    }
}

} // verus!
