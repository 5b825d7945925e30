//! The error that ends a comparison.

use vstd::prelude::*;

verus! {

/// `std::io::Error`, which Verus carries through without looking inside.
#[verifier::external_type_specification]
#[verifier::external_body]
pub struct ExIoError(std::io::Error);

/// An error produced when comparing directories.
///
/// It carries one human-readable message.
#[derive(Debug, PartialEq, Eq)]
pub struct ConfirmerError(pub String);

impl View for ConfirmerError {
    type V = Seq<char>;

    /// The text of the message.
    open spec fn view(&self) -> Seq<char> {
        self.0@
    }
}

/// What the error says when a hashing task ended abnormally.
pub open spec fn worker_fault_message() -> Seq<char> {
    "A panic occured while calculating hashes."@
}

impl ConfirmerError {
    /// The message, as a string of its own.
    pub fn message(&self) -> (text: String)
        ensures
            text@ == self@,
    {
        self.0.clone()
    }

    /// A second error with the same message.
    pub fn duplicate(&self) -> (copy: ConfirmerError)
        ensures
            copy@ == self@,
    {
        ConfirmerError(self.0.clone())
    }

    /// The error for a hashing task that ended abnormally. The pool does not say
    /// which task it was, nor why.
    pub fn worker_fault() -> (error: ConfirmerError)
        ensures
            error@ == worker_fault_message(),
    {
        ConfirmerError("A panic occured while calculating hashes.".to_owned())
    }
}

impl From<std::io::Error> for ConfirmerError {
    /// The error for a read or a directory walk that failed: it carries the text
    /// that the I/O error displays. The text comes from the operating system or
    /// from whoever built the error, so nothing is stated of it.
    fn from(error: std::io::Error) -> (result: ConfirmerError) {
        ConfirmerError(error.to_string())
    }
}

impl vstd::std_specs::convert::FromSpecImpl<std::io::Error> for ConfirmerError {
    /// The message depends on the operating system, so no spec function gives it.
    open spec fn obeys_from_spec() -> bool {
        false
    }

    open spec fn from_spec(error: std::io::Error) -> ConfirmerError {
        arbitrary()
    }
}

} // verus!
