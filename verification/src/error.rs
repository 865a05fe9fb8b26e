//! Failures of compilation.
use vstd::prelude::*;

verus! {

/// The two ways in which source text can fail to be a program.
#[derive(PartialEq, Eq, Debug, Clone, Copy, Structural)]
pub enum ErrorKind {
    /// A `]` stands where no loop is open.
    UnbalancedClose,
    /// The text ends while a loop is still open.
    UnclosedLoop,
}

/// A failed compilation.
#[derive(PartialEq, Eq, Debug, Clone, Copy, Structural)]
pub struct Error {
    pub kind: ErrorKind,
}

impl Error {
    /// A short description of the failure, for display.
    pub fn message(&self) -> (text: &'static str)
        ensures
            self.kind == ErrorKind::UnbalancedClose ==> text@ == "Extra loop closing"@,
            self.kind == ErrorKind::UnclosedLoop ==> text@ == "Unclosed loop"@,
    {
        match self.kind {
            ErrorKind::UnbalancedClose => "Extra loop closing",
            ErrorKind::UnclosedLoop => "Unclosed loop",
        }
    }
}

} // verus!
