//! The ways in which generating a site can fail.

use vstd::prelude::*;
use vstd::string::*;

verus! {

/// Why a step of the generation failed.
#[derive(Debug, PartialEq, Eq)]
pub enum SiteError {
    /// The file system refused an operation; holds its description.
    Io(String),
    /// The template engine could not find, read or render a template; holds
    /// its description.
    Minijinja(String),
    /// A path was expected under the source directory and is not.
    StripPrefix,
    /// Something that should not occur did; holds what was found.
    Unexpected(String),
}

/// What an error is in contracts.
pub enum SiteErrorView {
    Io(Seq<char>),
    Minijinja(Seq<char>),
    StripPrefix,
    Unexpected(Seq<char>),
}

impl View for SiteError {
    type V = SiteErrorView;

    open spec fn view(&self) -> SiteErrorView {
        match self {
            SiteError::Io(text) => SiteErrorView::Io(text@),
            SiteError::Minijinja(text) => SiteErrorView::Minijinja(text@),
            SiteError::StripPrefix => SiteErrorView::StripPrefix,
            SiteError::Unexpected(text) => SiteErrorView::Unexpected(text@),
        }
    }
}

/// The line that reports an error to the user.
pub open spec fn message_of(error: SiteErrorView) -> Seq<char> {
    match error {
        SiteErrorView::Io(text) => "IO error: "@ + text,
        SiteErrorView::Minijinja(text) => "Minijinja error: "@ + text,
        SiteErrorView::StripPrefix => "StripPrefixError: prefix not found"@,
        SiteErrorView::Unexpected(text) => "Unexpected error: "@ + text,
    }
}

impl SiteError {
    /// The line that reports this error to the user.
    pub fn message(&self) -> (line: String)
        ensures
            line@ == message_of(self@),
    {
        match self {
            SiteError::Io(text) => "IO error: ".to_owned().concat(text.as_str()),
            SiteError::Minijinja(text) => "Minijinja error: ".to_owned().concat(text.as_str()),
            SiteError::StripPrefix => "StripPrefixError: prefix not found".to_owned(),
            SiteError::Unexpected(text) => "Unexpected error: ".to_owned().concat(text.as_str()),
        }
    }
}

} // verus!
