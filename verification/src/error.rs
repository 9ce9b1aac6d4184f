//! The failures that the bridge reports.

use vstd::prelude::*;
use vstd::string::StringExecFns;

verus! {

/// The kinds of failure.
#[derive(Debug, Clone, Copy, PartialEq, Eq, Hash, Structural)]
pub enum ErrorKind {
    /// A language tag that no server is known for.
    Configuration,
    /// A program, or the terminal for it, could not be started.
    Spawn,
    /// A pipe or a socket failed.
    Io,
    /// A frame that could not be read.
    Protocol,
    /// An id under which no session stands.
    Lookup,
}

/// A failure: its kind, and the text that the caller is shown.
#[derive(Debug)]
pub struct BridgeError {
    pub kind: ErrorKind,
    pub message: String,
}

impl View for BridgeError {
    type V = (ErrorKind, Seq<char>);

    open spec fn view(&self) -> (ErrorKind, Seq<char>) {
        (self.kind, self.message@)
    }
}

impl BridgeError {
    /// A failure whose text is `prefix`, then `detail`.
    pub fn new(kind: ErrorKind, prefix: &str, detail: &str) -> (error: BridgeError)
        ensures
            error@ == (kind, prefix@ + detail@),
    {
        BridgeError { kind, message: prefix.to_owned().concat(detail) }
    }

    /// The text of the failure.
    pub fn to_string(&self) -> (text: String)
        ensures
            text@ == self.message@,
    {
        self.message.clone()
    }
}

} // verus!
