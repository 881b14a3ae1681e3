//! The library's error type.
use vstd::prelude::*;

verus! {

/// Why an operation failed.
#[derive(Debug)]
pub enum Error {
    /// The configuration is invalid; the text says why.
    InvalidConfig(String),
    /// An operation could not be carried out; the text says why.
    Operation(String),
    /// A name could not be resolved; the text says why.
    DNSError(String),
}

impl Error {
    /// The text that says why.
    pub open spec fn text(&self) -> Seq<char> {
        match self {
            Error::InvalidConfig(text) => text@,
            Error::Operation(text) => text@,
            Error::DNSError(text) => text@,
        }
    }

    /// The text that says why.
    pub fn message(&self) -> (res: String)
        ensures
            res@ == self.text(),
    {
        match self {
            Error::InvalidConfig(text) => text.clone(),
            Error::Operation(text) => text.clone(),
            Error::DNSError(text) => text.clone(),
        }
    }
}

/// How `{:?}` writes a list of strings.
pub uninterp spec fn debug_strings(items: Seq<Seq<char>>) -> Seq<char>;

/// [`format!`] with `{:?}` on a vector of strings. What it writes is a function of the strings
/// alone and is called `debug_strings`; how characters are escaped is left to the formatter.
#[verifier::external_body]
pub(crate) fn debug_list(items: &Vec<String>) -> (res: String)
    ensures
        res@ == debug_strings(crate::text::string_views(items@)),
{
    format!("{items:?}")
}

/// How `{:?}` writes a string.
pub uninterp spec fn debug_string(s: Seq<char>) -> Seq<char>;

/// [`format!`] with `{:?}` on a string. What it writes is a function of the string alone and is
/// called `debug_string`; how characters are escaped is left to the formatter.
#[verifier::external_body]
pub(crate) fn debug_str(s: &str) -> (res: String)
    ensures
        res@ == debug_string(s@),
{
    format!("{s:?}")
}

} // verus!
