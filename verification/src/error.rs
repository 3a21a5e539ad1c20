use vstd::prelude::*;
use crate::ids::{uuid_hyphenated, uuid_text};
use crate::models::EntryId;
use crate::text::{decimal, u64_to_decimal};

verus! {

/// What can go wrong in the library and around it. The variants that report a
/// failure of the operating system or of a codec carry its message.
#[derive(Debug, Clone)]
pub enum Error {
    Io(String),
    Json(String),
    NotFound(EntryId),
    PortInUse(u16),
    InvalidState { id: EntryId, status: String },
    Validation(String),
    LogRotation(String),
    BindError { addr: String, source: String },
    ConfigDirNotFound,
}

/// The human-readable text of an error.
pub open spec fn error_message(e: Error) -> Seq<char> {
    match e {
        Error::Io(m) => "I/O error: "@ + m@,
        Error::Json(m) => "JSON error: "@ + m@,
        Error::NotFound(id) => "Entry not found: "@ + uuid_hyphenated(id),
        Error::PortInUse(p) => "Port "@ + decimal(p as nat) + " already in use"@,
        Error::InvalidState { id, status } => "Entry is already "@ + status@ + " (id: "@
            + uuid_hyphenated(id) + ")"@,
        Error::Validation(m) => "Validation error: "@ + m@,
        Error::LogRotation(m) => "Log rotation error: "@ + m@,
        Error::BindError { addr, source } => "Failed to bind address "@ + addr@ + ": "@ + source@,
        Error::ConfigDirNotFound => "Config directory not found"@,
    }
}

/// The HTTP status that reports an error of a start or stop request.
pub open spec fn error_status_code(e: Error) -> u16 {
    match e {
        Error::NotFound(_) => 404,
        Error::InvalidState { .. } => 409,
        Error::PortInUse(_) => 409,
        _ => 500,
    }
}

impl Error {
    /// The human-readable text of the error.
    pub fn message(&self) -> (s: String)
        ensures
            s@ == error_message(*self),
    {
        match self {
            Error::Io(m) => {
                let mut s = String::from_str("I/O error: ");
                s.append(m.as_str());
                s
            },
            Error::Json(m) => {
                let mut s = String::from_str("JSON error: ");
                s.append(m.as_str());
                s
            },
            Error::NotFound(id) => {
                let mut s = String::from_str("Entry not found: ");
                let t = uuid_text(*id);
                s.append(t.as_str());
                s
            },
            Error::PortInUse(p) => {
                let mut s = String::from_str("Port ");
                let t = u64_to_decimal(*p as u64);
                s.append(t.as_str());
                s.append(" already in use");
                s
            },
            Error::InvalidState { id, status } => {
                let mut s = String::from_str("Entry is already ");
                s.append(status.as_str());
                s.append(" (id: ");
                let t = uuid_text(*id);
                s.append(t.as_str());
                s.append(")");
                s
            },
            Error::Validation(m) => {
                let mut s = String::from_str("Validation error: ");
                s.append(m.as_str());
                s
            },
            Error::LogRotation(m) => {
                let mut s = String::from_str("Log rotation error: ");
                s.append(m.as_str());
                s
            },
            Error::BindError { addr, source } => {
                let mut s = String::from_str("Failed to bind address ");
                s.append(addr.as_str());
                s.append(": ");
                s.append(source.as_str());
                s
            },
            Error::ConfigDirNotFound => String::from_str("Config directory not found"),
        }
    }
}

} // verus!
