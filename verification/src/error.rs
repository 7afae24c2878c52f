//! The error that every fallible operation of the library reports.

use vstd::prelude::*;

verus! {

/// A failure, described by a message for the user.
#[derive(Debug, Clone, PartialEq, Eq)]
pub struct Error(String);

impl View for Error {
    type V = Seq<char>;

    closed spec fn view(&self) -> Seq<char> {
        self.0@
    }
}

impl Error {
    /// An error with the given message.
    pub(crate) fn new(message: String) -> (error: Error)
        ensures
            error@ == message@,
    {
        Error(message)
    }

    /// The message.
    pub fn message(&self) -> (message: &str)
        ensures
            message@ == self@,
    {
        self.0.as_str()
    }
}

} // verus!
