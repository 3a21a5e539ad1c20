use vstd::prelude::*;
use crate::clock::now;
use crate::models::{EntryId, LogEvent, LogLevel, LogMessage};

verus! {

/// A log message for `connection_id` (zero for the forwarder itself), stamped with
/// the current time.
pub fn send_log(connection_id: EntryId, level: LogLevel, event: LogEvent) -> (m: LogMessage)
    ensures
        m.connection_id == connection_id,
        m.level == level,
        m.event == event,
{
    LogMessage { timestamp: now(), level, connection_id, event }
}

/// The event logged when accepting a connection fails with the given error text.
pub fn accept_failure_event(error: &str) -> (e: LogEvent)
    ensures
        e matches LogEvent::ConnectionError { error: t } && t@ == "accept failed: "@ + error@,
{
    let mut t = String::from_str("accept failed: ");
    t.append(error);
    LogEvent::ConnectionError { error: t }
}

/// The level and event logged when a forwarded connection ends: its byte counts and
/// duration at `info` when copying succeeded, the error at `error` otherwise.
pub fn connection_result_event(result: Result<(u64, u64), String>, duration_ms: u64) -> (r: (LogLevel, LogEvent))
    ensures
        match result {
            Ok((bytes_in, bytes_out)) => r.0 == LogLevel::Info
                && r.1 == (LogEvent::ConnectionClosed { bytes_in, bytes_out, duration_ms }),
            Err(error) => r.0 == LogLevel::Error && r.1 == (LogEvent::ConnectionError { error }),
        },
{
    match result {
        Ok((bytes_in, bytes_out)) => (LogLevel::Info, LogEvent::ConnectionClosed { bytes_in, bytes_out, duration_ms }),
        Err(error) => (LogLevel::Error, LogEvent::ConnectionError { error }),
    }
}

} // verus!
