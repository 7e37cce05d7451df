//! How a run ends: what is said of a failure, and the exit code.

use vstd::prelude::*;
use vstd::string::*;
use crate::scan::ScanError;

verus! {

/// The exit code of a failure that has no code of its own.
pub const GENERAL_FAILURE: i32 = 1;

/// Why a run did not complete its scan.
#[derive(Debug, PartialEq, Eq)]
pub enum RunError {
    /// The pattern is the empty string.
    EmptyPattern,
    /// The input at `path` could not be opened.
    NoInput { path: String },
    /// A line of the input could not be read.
    ReadFailure,
    /// A line could not be written to the output.
    WriteFailure,
}

/// `exitcode::OK`, the code of a successful exit: 0.
#[verifier::external_body]
fn code_ok() -> (code: i32)
    ensures
        code == 0,
{
    exitcode::OK
}

/// `exitcode::DATAERR`, the code for input data that is wrong in some way:
/// 65.
#[verifier::external_body]
fn code_data_error() -> (code: i32)
    ensures
        code == 65,
{
    exitcode::DATAERR
}

/// `exitcode::NOINPUT`, the code for an input file that does not exist or
/// cannot be read: 66.
#[verifier::external_body]
fn code_no_input() -> (code: i32)
    ensures
        code == 66,
{
    exitcode::NOINPUT
}

impl RunError {
    /// The text that tells a user of this failure.
    pub open spec fn diagnostic(self) -> Seq<char> {
        match self {
            RunError::EmptyPattern => "The pattern provided is an empty string."@,
            RunError::NoInput { path } => "Could not open the file `"@ + path@ + "`"@,
            RunError::ReadFailure => "Could not read line of file."@,
            RunError::WriteFailure => "Unable to write line to writer."@,
        }
    }

    /// The exit code that stands for this failure: 65 for an empty
    /// pattern, 66 for an input that cannot be opened, 1 for anything that
    /// stops a scan.
    pub open spec fn status(self) -> int {
        match self {
            RunError::EmptyPattern => 65,
            RunError::NoInput { .. } => 66,
            RunError::ReadFailure => GENERAL_FAILURE as int,
            RunError::WriteFailure => GENERAL_FAILURE as int,
        }
    }

    /// The failure that stands for what stopped a scan.
    pub fn from_scan<R, W>(error: &ScanError<R, W>) -> (failure: RunError)
        ensures
            failure == match *error {
                ScanError::ReadFailure(_) => RunError::ReadFailure,
                ScanError::WriteFailure(_) => RunError::WriteFailure,
            },
    {
        match error {
            ScanError::ReadFailure(_) => RunError::ReadFailure,
            ScanError::WriteFailure(_) => RunError::WriteFailure,
        }
    }

    /// The text that tells a user of this failure.
    pub fn message(&self) -> (text: String)
        ensures
            text@ == self.diagnostic(),
    {
        match self {
            RunError::EmptyPattern => "The pattern provided is an empty string.".to_owned(),
            RunError::NoInput { path } => {
                let mut text = "Could not open the file `".to_owned();
                text.append(path.as_str());
                text.append("`");
                text
            },
            RunError::ReadFailure => "Could not read line of file.".to_owned(),
            RunError::WriteFailure => "Unable to write line to writer.".to_owned(),
        }
    }

    /// The exit code that stands for this failure.
    pub fn exit_code(&self) -> (code: i32)
        ensures
            code == self.status(),
    {
        match self {
            RunError::EmptyPattern => code_data_error(),
            RunError::NoInput { .. } => code_no_input(),
            RunError::ReadFailure => GENERAL_FAILURE,
            RunError::WriteFailure => GENERAL_FAILURE,
        }
    }
}

/// Makes sure that `pattern` is not empty: an empty pattern stands in every
/// line, so it is turned down before any input is touched.
pub fn check_pattern(pattern: &String) -> (checked: Result<(), RunError>)
    ensures
        checked == if pattern@.len() == 0 {
            Err::<(), RunError>(RunError::EmptyPattern)
        } else {
            Ok::<(), RunError>(())
        },
{
    if pattern.as_str().is_empty() {
        return Err(RunError::EmptyPattern);
    }
    Ok(())
}

/// The exit code of a run: 0 for one that completed its scan, whether or
/// not a line matched, and the code of the failure for any other.
pub fn exit_code(outcome: &Result<(), RunError>) -> (code: i32)
    ensures
        code == match *outcome {
            Ok(()) => 0,
            Err(failure) => failure.status(),
        },
{
    match outcome {
        Ok(()) => code_ok(),
        Err(failure) => failure.exit_code(),
    }
}

} // verus!
