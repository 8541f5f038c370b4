//! The errors that the migrator reports, and their messages.
use vstd::prelude::*;

use crate::text::{decimal, decimal_text};

verus! {

/// A reason why migrating an input fails.
#[derive(Debug, Clone, Copy, PartialEq, Eq, Structural)]
pub enum MigrateError {
    /// The input file does not have a `.js`, `.jsx`, `.mjs` or `.cjs` extension.
    UnsupportedExtension,
    /// The input path has no file name to derive an output name from.
    InvalidFileName,
    /// The input is neither a file nor a directory.
    NotFileOrDirectory,
    /// Some files of a directory run failed; the field is how many.
    FilesFailed(usize),
    /// The source text is not a JavaScript module that the parser accepts.
    ParseFailed,
    /// An upload names no file.
    MissingFileName,
    /// An upload carries no file data.
    MissingFileData,
    /// Uploaded file data is not UTF-8.
    InvalidUtf8,
    /// No input path was given.
    MissingInput,
    /// No output directory was given.
    MissingOutput,
}

/// The message of an error, as it is shown to the user.
pub open spec fn error_message(e: MigrateError) -> Seq<char> {
    match e {
        MigrateError::UnsupportedExtension => "input file must have .js, .jsx, .mjs, or .cjs extension"@,
        MigrateError::InvalidFileName => "invalid file name"@,
        MigrateError::NotFileOrDirectory => "input must be a file or directory"@,
        MigrateError::FilesFailed(n) => decimal(n as nat) + " file(s) failed to process"@,
        MigrateError::ParseFailed => "failed to parse JavaScript source"@,
        MigrateError::MissingFileName => "missing file name"@,
        MigrateError::MissingFileData => "missing file data"@,
        MigrateError::InvalidUtf8 => "file must be valid UTF-8"@,
        MigrateError::MissingInput => "an input file or directory is required (--input)"@,
        MigrateError::MissingOutput => "an output directory is required (--output)"@,
    }
}

impl MigrateError {
    /// The message of this error.
    pub fn message(&self) -> (r: String)
        ensures
            r@ == error_message(*self),
    {
        match self {
            MigrateError::UnsupportedExtension => "input file must have .js, .jsx, .mjs, or .cjs extension".to_owned(),
            MigrateError::InvalidFileName => "invalid file name".to_owned(),
            MigrateError::NotFileOrDirectory => "input must be a file or directory".to_owned(),
            MigrateError::FilesFailed(n) => {
                let mut r = decimal_text(*n);
                r.append(" file(s) failed to process");
                r
            },
            MigrateError::ParseFailed => "failed to parse JavaScript source".to_owned(),
            MigrateError::MissingFileName => "missing file name".to_owned(),
            MigrateError::MissingFileData => "missing file data".to_owned(),
            MigrateError::InvalidUtf8 => "file must be valid UTF-8".to_owned(),
            MigrateError::MissingInput => "an input file or directory is required (--input)".to_owned(),
            MigrateError::MissingOutput => "an output directory is required (--output)".to_owned(),
        }
    }
}

} // verus!
