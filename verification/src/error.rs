use vstd::prelude::*;
use crate::cli_error::CliError;
use vstd::string::StringExecFns;

verus! {

/// A failure of one compile run. An indentation violation and a general
/// parse failure are the only two kinds; both are terminal for the run.
#[derive(Debug)]
pub enum CompilerError {
    IndentationError(String),
    ParseError(String),
}

impl CliError for CompilerError {
    /// Renders the error as a one-line diagnostic string.
    fn string(&self) -> (r: String)
        ensures
            r@ == match self {
                CompilerError::IndentationError(m) => "IndentationError: "@ + m@,
                CompilerError::ParseError(m) => "ParseError: "@ + m@,
            },
    {
        match self {
            CompilerError::IndentationError(m) => String::from_str("IndentationError: ").concat(
                m.as_str(),
            ),
            CompilerError::ParseError(m) => String::from_str("ParseError: ").concat(m.as_str()),
        }
    }
}

} // verus!
