//! Minimal diagnostic signal shared with outside collaborators of the
//! front end. The core reports structural problems through its own result
//! types; this carries only the lexer-level "ran out of input" signal.

use vstd::prelude::*;

verus! {

#[derive(Debug, Clone)]
pub enum ShispErrorType {
    EOF,
}

#[derive(Debug, Clone)]
pub struct ShispError {
    error_type: ShispErrorType,
}

impl ShispError {
    /// The kind of failure this error reports.
    pub closed spec fn error_kind(&self) -> ShispErrorType {
        self.error_type
    }

    pub fn new(error_type: ShispErrorType) -> (e: ShispError)
        ensures
            e.error_kind() == error_type,
    {
        ShispError { error_type }
    }
}

} // verus!
