//! The engine's error taxonomy. Malformed caller input fails fast instead of
//! being silently clamped; an empty document is not an error.

use vstd::prelude::*;

verus! {

/// Why the engine rejected a request.
#[derive(Clone, Copy, Debug, PartialEq, Eq, Structural)]
pub enum EngineError {
    /// A negative start, an end before its start, or an end past the end of
    /// the document.
    InvalidOffset,
    /// An edit window whose end lies before its start.
    InvalidEditWindow,
}

impl EngineError {
    /// A short description of the error, for the caller's diagnostics.
    pub fn describe(&self) -> (msg: &'static str)
        ensures
            match *self {
                EngineError::InvalidOffset => msg@ == "invalid offset"@,
                EngineError::InvalidEditWindow => msg@ == "invalid edit window"@,
            },
    {
        match self {
            EngineError::InvalidOffset => "invalid offset",
            EngineError::InvalidEditWindow => "invalid edit window",
        }
    }
}

} // verus!
