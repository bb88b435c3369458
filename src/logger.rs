use vstd::prelude::*;

verus! {

/// Why the logger could not be set up.
#[derive(Clone, Copy, Debug, PartialEq, Eq, Structural)]
#[non_exhaustive]
pub enum LoggerError {
    /// An output file could not be opened.
    File,
    /// The logger could not be installed.
    Apply,
}

} // verus!
