//! What can go wrong while importing.

use vstd::prelude::*;

verus! {

/// Why a parsed record is not accepted.
#[derive(Clone, Copy, Debug, PartialEq, Eq, Structural)]
pub enum Rejection {
    /// The identifier is not an unsigned 64-bit decimal.
    Identifier,
    /// The name is empty.
    EmptyName,
    /// A timestamp falls on no date of the calendar.
    Timestamp,
}

/// Failure of an import. Every failure ends the import that met it.
#[derive(Debug)]
pub enum Error {
    /// Reading or decompressing the input failed.
    Io(std::io::Error),
    /// A line of a structured batch is not a record; the decoder's complaint
    /// is carried as text.
    Json(String),
    /// A line is malformed; the line is carried as it was read.
    InvalidImportLine(String),
}

impl Error {
    /// Whether this is the complaint about the malformed line `line`.
    pub open spec fn rejects_line(&self, line: Seq<char>) -> bool {
        self matches Error::InvalidImportLine(text) && text@ == line
    }

    /// A short description of the kind of failure.
    pub fn message(&self) -> (text: String)
        ensures
            self is Io ==> text@ == "I/O error"@,
            self is Json ==> text@ == "JSON error"@,
            self is InvalidImportLine ==> text@ == "Invalid import line"@,
    {
        match self {
            Error::Io(_) => "I/O error".to_owned(),
            Error::Json(_) => "JSON error".to_owned(),
            Error::InvalidImportLine(_) => "Invalid import line".to_owned(),
        }
    }
}

} // verus!
