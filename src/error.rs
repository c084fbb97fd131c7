use vstd::prelude::*;
use vstd::string::StringExecFns;

verus! {

/// The failures that the store's operations report.
#[derive(Debug, Clone)]
pub enum BranchDBError {
    StorageError(String),
    InvalidInput(String),
    NotFound(String),
    OrphanCommit,
    TypeMismatch(String),
    SerializationError(String),
    CsvError(String),
    HexError(String),
    IoError(String),
    JsonError(String),
    CorruptData(String),
}

/// Payload-free classification of a `BranchDBError`, used in contracts.
#[derive(Debug, Clone, Copy, PartialEq, Eq, Structural)]
pub enum ErrorKind {
    Storage,
    Input,
    Missing,
    Orphan,
    Mismatch,
    Serialization,
    Csv,
    Hex,
    Io,
    Json,
    Corrupt,
}

impl BranchDBError {
    pub open spec fn kind(&self) -> ErrorKind {
        match self {
            BranchDBError::StorageError(_) => ErrorKind::Storage,
            BranchDBError::InvalidInput(_) => ErrorKind::Input,
            BranchDBError::NotFound(_) => ErrorKind::Missing,
            BranchDBError::OrphanCommit => ErrorKind::Orphan,
            BranchDBError::TypeMismatch(_) => ErrorKind::Mismatch,
            BranchDBError::SerializationError(_) => ErrorKind::Serialization,
            BranchDBError::CsvError(_) => ErrorKind::Csv,
            BranchDBError::HexError(_) => ErrorKind::Hex,
            BranchDBError::IoError(_) => ErrorKind::Io,
            BranchDBError::JsonError(_) => ErrorKind::Json,
            BranchDBError::CorruptData(_) => ErrorKind::Corrupt,
        }
    }

    /// The kind of this error.
    pub fn error_kind(&self) -> (r: ErrorKind)
        ensures
            r == self.kind(),
    {
        match self {
            BranchDBError::StorageError(_) => ErrorKind::Storage,
            BranchDBError::InvalidInput(_) => ErrorKind::Input,
            BranchDBError::NotFound(_) => ErrorKind::Missing,
            BranchDBError::OrphanCommit => ErrorKind::Orphan,
            BranchDBError::TypeMismatch(_) => ErrorKind::Mismatch,
            BranchDBError::SerializationError(_) => ErrorKind::Serialization,
            BranchDBError::CsvError(_) => ErrorKind::Csv,
            BranchDBError::HexError(_) => ErrorKind::Hex,
            BranchDBError::IoError(_) => ErrorKind::Io,
            BranchDBError::JsonError(_) => ErrorKind::Json,
            BranchDBError::CorruptData(_) => ErrorKind::Corrupt,
        }
    }

    /// A human-readable description of the error.
    pub fn to_string(&self) -> String {
        let (head, body): (&str, &String) = match self {
            BranchDBError::StorageError(s) => ("Storage error: ", s),
            BranchDBError::InvalidInput(s) => ("Invalid input: ", s),
            BranchDBError::NotFound(s) => ("Not found: ", s),
            BranchDBError::OrphanCommit => {
                return "Commit has no parent".to_owned();
            },
            BranchDBError::TypeMismatch(s) => ("Type mismatch: ", s),
            BranchDBError::SerializationError(s) => ("Serialization error: ", s),
            BranchDBError::CsvError(s) => ("CSV error: ", s),
            BranchDBError::HexError(s) => ("Hex conversion error: ", s),
            BranchDBError::IoError(s) => ("IO error: ", s),
            BranchDBError::JsonError(s) => ("JSON error: ", s),
            BranchDBError::CorruptData(s) => ("Data corruption detected: ", s),
        };
        let mut out = head.to_owned();
        out.append(body.as_str());
        out
    }
}

} // verus!
