//! The failures a generation run can end with.
use vstd::prelude::*;
use crate::text::{chars_vec, dec_str, push_all, string_of, usize_dec};

verus! {

/// A fatal failure of the generation run.
#[derive(Debug)]
pub enum Error {
    /// No document carried both an `openapi` and an `info` key.
    NoRootFound,
    /// More than one document carried both an `openapi` and an `info` key.
    MultipleRootsFound,
    /// No input files existed at all.
    NoFilesFound,
    /// A snippet failed to parse as a tree value; carries the source
    /// file, the 1-based line the snippet starts on, and a short
    /// excerpt of the offending text.
    SourceMapped { file: String, line: usize, context: String },
}

/// The diagnostic text of an error.
pub open spec fn describe_spec(e: &Error) -> Seq<char> {
    match e {
        Error::NoRootFound => {
            "Validation failed: No Root OpenAPI definition found. One definition must contain 'openapi' and 'info' fields."@
        },
        Error::MultipleRootsFound => {
            "Validation failed: Multiple Root OpenAPI definitions found. Only one definition can be the Root."@
        },
        Error::NoFilesFound => "Empty input: No files found in the specified directories."@,
        Error::SourceMapped { file, line, context } => {
            "YAML error in "@ + file@ + ":"@ + dec_str(*line as int) + "\nContext:\n"@ + context@
        },
    }
}

impl Error {
    /// Renders the error as one diagnostic line (plus context where the
    /// error is source-mapped).
    pub fn describe(&self) -> (r: String)
        ensures
            r@ == describe_spec(self),
    {
        match self {
            Error::NoRootFound => {
                let v = chars_vec(
                    "Validation failed: No Root OpenAPI definition found. One definition must contain 'openapi' and 'info' fields.",
                );
                string_of(&v)
            },
            Error::MultipleRootsFound => {
                let v = chars_vec(
                    "Validation failed: Multiple Root OpenAPI definitions found. Only one definition can be the Root.",
                );
                string_of(&v)
            },
            Error::NoFilesFound => {
                let v = chars_vec("Empty input: No files found in the specified directories.");
                string_of(&v)
            },
            Error::SourceMapped { file, line, context } => {
                let mut v = chars_vec("YAML error in ");
                let fv = chars_vec(file.as_str());
                push_all(&mut v, &fv);
                let colon = chars_vec(":");
                push_all(&mut v, &colon);
                let num = usize_dec(*line);
                push_all(&mut v, &num);
                let mid = chars_vec("\nContext:\n");
                push_all(&mut v, &mid);
                let cv = chars_vec(context.as_str());
                push_all(&mut v, &cv);
                proof {
                    assert(v@ =~= describe_spec(self));
                }
                string_of(&v)
            },
        }
    }
}

} // verus!
