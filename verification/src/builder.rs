use vstd::prelude::*;
use crate::cli_error::CliError;
use vstd::string::StringExecFns;

verus! {

/// A failure of the site-wide build command.
#[derive(Debug)]
pub enum CompilerError {
    SpellsError { message: String },
}

impl CliError for CompilerError {
    /// Renders the error as a one-line diagnostic string.
    fn string(&self) -> (r: String)
        ensures
            r@ == match self {
                CompilerError::SpellsError { message } => "SpellsError: "@ + message@,
            },
    {
        match self {
            CompilerError::SpellsError { message } => String::from_str("SpellsError: ").concat(
                message.as_str(),
            ),
        }
    }
}

/// Builds the whole site. Collecting the source files is the caller's
/// concern; nothing is built here yet.
pub fn build() -> (r: Result<(), CompilerError>)
    ensures
        r is Ok,
{
    Ok(())
}

} // verus!
