use vstd::prelude::*;

verus! {

/// An error that the command line surface can report to the user.
pub trait CliError {
    /// Returns the error as a one-line diagnostic string.
    fn string(&self) -> String;
}

} // verus!
