use vstd::prelude::*;

verus! {

/// Every failure the engine reports to its callers.
///
/// `get` on an absent key is not an error: it returns `Ok(None)`. `remove`
/// on an absent key is reported as `RemoveError`, and a log line that does
/// not parse as a record is reported as `InvalidLogCommand`.
#[derive(Debug, Clone, Copy, PartialEq, Eq, Structural)]
pub enum KvError {
    /// Appending a record to the log failed; the store is unchanged.
    WriteError,
    /// The log file could not be opened or created.
    OpenError,
    /// No directory for the log file was provided.
    NoLogPathError,
    /// `remove` was called for a key that holds no live value.
    RemoveError,
    /// Reading bytes back out of the log failed.
    ReadLogError,
    /// A log line does not decode to a well-formed record.
    InvalidLogCommand,
}

impl KvError {
    /// A short description of the failure, for front ends to print.
    pub fn message(&self) -> &'static str {
        match self {
            KvError::WriteError => "Error writing to log file",
            KvError::OpenError => "Error opening log file",
            KvError::NoLogPathError => "Error: Log path not provided",
            KvError::RemoveError => "Error: Cannot remove key that does not exist",
            KvError::ReadLogError => "Error reading the log file",
            KvError::InvalidLogCommand => "Error command in the log file",
        }
    }
}

} // verus!
