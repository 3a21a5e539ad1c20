use vstd::prelude::*;

verus! {

/// The identifier of a forwarding entry: the 128 bits of its UUID.
pub type EntryId = u128;

/// A point in time: whole seconds since 1970-01-01 UTC and the nanoseconds past
/// that second (up to two seconds' worth during a leap second).
#[derive(Debug, Clone, Copy, PartialEq, Eq, Structural)]
pub struct Timestamp {
    pub secs: i64,
    pub nanos: u32,
}

/// Runtime state of one forwarding entry.
#[derive(Debug, Clone, PartialEq, Eq)]
pub enum EntryStatus {
    Running,
    Stopped,
    Error { message: String },
}

/// A persisted port forwarding entry.
#[derive(Debug, Clone)]
pub struct ForwardingEntry {
    pub id: EntryId,
    pub name: String,
    /// Address to listen on, such as `0.0.0.0`.
    pub source_address: String,
    /// Port to listen on.
    pub source_port: u16,
    /// Address connections are forwarded to.
    pub target_address: String,
    /// Port connections are forwarded to.
    pub target_port: u16,
    /// Directory that holds this entry's log files.
    pub log_directory: String,
    /// Whether the entry is started automatically.
    pub enabled: bool,
    pub created_at: Timestamp,
    pub updated_at: Timestamp,
}

impl ForwardingEntry {
    /// A field-by-field copy of the entry.
    pub fn duplicate(&self) -> (r: ForwardingEntry)
        ensures
            r == *self,
    {
        ForwardingEntry {
            id: self.id,
            name: self.name.clone(),
            source_address: self.source_address.clone(),
            source_port: self.source_port,
            target_address: self.target_address.clone(),
            target_port: self.target_port,
            log_directory: self.log_directory.clone(),
            enabled: self.enabled,
            created_at: self.created_at,
            updated_at: self.updated_at,
        }
    }
}

/// The body of a request that creates or updates an entry.
#[derive(Debug, Clone)]
pub struct EntryRequest {
    pub name: String,
    pub source_address: String,
    pub source_port: u16,
    pub target_address: String,
    pub target_port: u16,
    /// The log directory; `None` keeps the current one, or derives one for a new entry.
    pub log_directory: Option<String>,
    pub enabled: bool,
}

/// The source address used when a request gives none.
pub fn default_source_address() -> (s: String)
    ensures
        s@ == "0.0.0.0"@,
{
    String::from_str("0.0.0.0")
}

/// Whether an entry is enabled when a request does not say.
pub fn default_enabled() -> (b: bool)
    ensures
        b,
{
    true
}

/// One parsed line of an entry's log.
#[derive(Debug, Clone)]
pub struct LogLine {
    pub timestamp: Timestamp,
    pub level: String,
    pub message: String,
}

impl LogLine {
    /// A field-by-field copy of the line.
    pub fn duplicate(&self) -> (r: LogLine)
        ensures
            r == *self,
    {
        LogLine { timestamp: self.timestamp, level: self.level.clone(), message: self.message.clone() }
    }
}

/// A page of an entry's log.
#[derive(Debug, Clone)]
pub struct LogResponse {
    pub entry_id: EntryId,
    pub lines: Vec<LogLine>,
    /// Size in bytes of all the entry's log files together.
    pub total_bytes: u64,
    /// The most bytes the entry's log files may hold together.
    pub max_bytes: u64,
}

/// Severity of one log line.
#[derive(Debug, Clone, Copy, PartialEq, Eq, Structural)]
pub enum LogLevel {
    Info,
    Error,
}

/// The word that names a level in a log line.
pub open spec fn level_text(level: LogLevel) -> Seq<char> {
    match level {
        LogLevel::Info => "info"@,
        LogLevel::Error => "error"@,
    }
}

impl LogLevel {
    /// The text used for this level in log files: `info` or `error`.
    pub fn as_str(&self) -> (s: &'static str)
        ensures
            s@ == level_text(*self),
    {
        match self {
            LogLevel::Info => "info",
            LogLevel::Error => "error",
        }
    }
}

/// Something that happened to a forwarder or one of its connections.
#[derive(Debug, Clone)]
pub enum LogEvent {
    /// A client connected; `source` is its address as text.
    ConnectionAccepted { source: String },
    ConnectionClosed { bytes_in: u64, bytes_out: u64, duration_ms: u64 },
    ConnectionError { error: String },
    ForwarderStarted,
    ForwarderStopped,
}

/// A log event on its way to an entry's logger.
#[derive(Debug, Clone)]
pub struct LogMessage {
    pub timestamp: Timestamp,
    pub level: LogLevel,
    /// The connection the event belongs to; zero for events of the forwarder itself.
    pub connection_id: EntryId,
    pub event: LogEvent,
}

/// The content of the configuration file.
#[derive(Debug, Clone)]
pub struct ConfigFile {
    pub entries: Vec<ForwardingEntry>,
}

} // verus!
