//! The two failure kinds the loader can report: an unreadable file and an
//! invalid line.

use vstd::prelude::*;
use vstd::string::StringExecFns;

verus! {

/// Failure raised while loading a `.env` file.
#[derive(Debug)]
pub enum EnvroError {
    /// The file could not be read; carries the attempted path and a
    /// description of the underlying failure.
    File { file: String, cause: String },
    /// A line of the file is not a valid declaration; carries that exact
    /// line, trimmed of surrounding whitespace.
    Parse { line: String },
}

impl EnvroError {
    /// Renders the error as one line of text naming the offending file or
    /// line.
    pub fn message(&self) -> (r: String)
        ensures
            match self {
                EnvroError::File { file, cause } => r@ == "FILE_ERROR unable to read env file \""@
                    + file@ + "\": "@ + cause@,
                EnvroError::Parse { line } => r@ == "PARSE_ERROR line \""@ + line@
                    + "\" is not valid"@,
            },
    {
        match self {
            EnvroError::File { file, cause } => {
                let mut s = "FILE_ERROR unable to read env file \"".to_owned();
                s.append(file.as_str());
                s.append("\": ");
                s.append(cause.as_str());
                s
            },
            EnvroError::Parse { line } => {
                let mut s = "PARSE_ERROR line \"".to_owned();
                s.append(line.as_str());
                s.append("\" is not valid");
                s
            },
        }
    }
}

} // verus!
