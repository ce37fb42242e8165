use vstd::prelude::*;

verus! {

/// What can go wrong.
#[derive(Clone, Copy, Debug, PartialEq, Eq, Structural)]
pub enum KissdbError {
    /// A file operation could not be carried out (absent file, write to a read-only file).
    Io,
    /// The file does not hold a valid database.
    CorruptDbFile,
    /// Sizes or lengths that the database cannot take.
    InvalidParameters,
}

} // verus!
