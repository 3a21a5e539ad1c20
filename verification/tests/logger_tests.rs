use std::path::PathBuf;

use porthannis::logger::{
    compose_log_line, format_event, parse_log_line, rotation_plan, segment_file_name, segment_order,
    sort_by_segment_order, split_log_line, EntryLogger, LogWrite, RotationStep, SegmentRead, MAX_SEGMENTS,
    MAX_SEGMENT_BYTES, MAX_TOTAL_BYTES,
};
use porthannis::models::{LogEvent, LogLevel, LogMessage, Timestamp};

/// Log files kept in memory: index 0 is the current file, 1 to 5 the rotated segments.
struct Files {
    segments: Vec<Option<Vec<String>>>,
}

impl Files {
    fn new() -> Files {
        Files { segments: vec![None; MAX_SEGMENTS + 2] }
    }

    /// Carries out a write as the caller of the logger does, and reports it back.
    fn apply(&mut self, logger: &mut EntryLogger, w: &LogWrite) {
        if w.rotate {
            for step in rotation_plan() {
                match step {
                    RotationStep::RemoveSegment(n) => self.segments[n] = None,
                    RotationStep::ShiftSegment(n) => {
                        if let Some(lines) = self.segments[n].take() {
                            self.segments[n + 1] = Some(lines);
                        }
                    }
                }
            }
            logger.record_rotation();
        }
        let current = self.segments[0].get_or_insert_with(Vec::new);
        current.push(w.line.trim_end_matches('\n').to_string());
        logger.record_written(w.bytes);
    }

    fn read(&self, logger: &EntryLogger, offset: usize, limit: usize) -> porthannis::models::LogResponse {
        let mut names = vec![segment_file_name(0)];
        for n in 1..=MAX_SEGMENTS {
            if self.segments[n].is_some() {
                names.push(segment_file_name(n));
            }
        }
        let sorted = sort_by_segment_order(&names);
        let files: Vec<SegmentRead> = sorted
            .iter()
            .map(|name| {
                let n = if name == "current.log" { 0 } else { name["current.log.".len()..].parse().unwrap() };
                match &self.segments[n] {
                    Some(lines) => SegmentRead {
                        size: Some(lines.iter().map(|l| l.len() as u64 + 1).sum()),
                        lines: lines.clone(),
                    },
                    None => SegmentRead { size: None, lines: Vec::new() },
                }
            })
            .collect();
        logger.read_logs(&files, offset, limit)
    }
}

#[test]
fn test_log_write_and_read() {
    let mut files = Files::new();
    let mut logger = EntryLogger::new("test".to_string(), 42, 0);

    let w = logger.write_info("line 1");
    files.apply(&mut logger, &w);
    let w = logger.write_error("line 2");
    files.apply(&mut logger, &w);
    let w = logger.write_info("line 3");
    files.apply(&mut logger, &w);

    let resp = files.read(&logger, 0, 100);
    assert_eq!(resp.lines.len(), 3);
    assert_eq!(resp.lines[0].level, "info");
    assert!(resp.lines[0].message.contains("line 1"));
    assert_eq!(resp.lines[1].level, "error");
    assert_eq!(resp.lines[2].level, "info");
    assert_eq!(resp.entry_id, 42);
    assert_eq!(resp.max_bytes, MAX_TOTAL_BYTES);
}

#[test]
fn test_log_rotation_deletes_oldest() {
    let mut files = Files::new();
    let mut logger = EntryLogger::new("test_rotate".to_string(), 1, 0);

    let big_msg = "A".repeat(500_000);
    let w = logger.write_info(&big_msg);
    assert!(!w.rotate);
    files.apply(&mut logger, &w);
    let w = logger.write_info(&big_msg);
    files.apply(&mut logger, &w);
    let w = logger.write_info(&big_msg);
    assert!(w.rotate);
    files.apply(&mut logger, &w);

    assert!(files.segments[0].is_some());
    assert!(files.segments[1].is_some());

    let resp = files.read(&logger, 0, 100);
    assert_eq!(resp.lines.len(), 3);
}

#[test]
fn test_log_offset_limit() {
    let mut files = Files::new();
    let mut logger = EntryLogger::new("test_offset".to_string(), 1, 0);

    for i in 0..10 {
        let w = logger.write_info(&format!("msg {}", i));
        files.apply(&mut logger, &w);
    }

    let resp = files.read(&logger, 3, 2);
    assert_eq!(resp.lines.len(), 2);
    assert!(resp.lines[0].message.contains("msg 3"));
    assert!(resp.lines[1].message.contains("msg 4"));
}

#[test]
fn test_segment_order() {
    let newest = PathBuf::from("current.log");
    let older1 = PathBuf::from("current.log.1");
    let older2 = PathBuf::from("current.log.2");

    let mut paths = [newest, older1.clone(), older2.clone()];
    paths.sort_by_key(|a| segment_order(a.file_name().unwrap().to_str().unwrap()));

    assert_eq!(paths[0].file_name().unwrap(), "current.log.2");
    assert_eq!(paths[1].file_name().unwrap(), "current.log.1");
    assert_eq!(paths[2].file_name().unwrap(), "current.log");
}

#[test]
fn segment_ranks() {
    assert_eq!(segment_order("current.log"), 6);
    assert_eq!(segment_order("current.log.5"), 0);
    assert_eq!(segment_order("current.log.0"), 5);
    assert_eq!(segment_order("current.log.+3"), 2);
    assert_eq!(segment_order("other.txt"), 7);
    assert_eq!(segment_file_name(0), "current.log");
    assert_eq!(segment_file_name(3), "current.log.3");
}

#[test]
fn sorting_puts_oldest_segment_first_and_keeps_ties_in_order() {
    let names = vec![
        "current.log".to_string(),
        "x".to_string(),
        "current.log.1".to_string(),
        "current.log.5".to_string(),
        "y".to_string(),
        "current.log.3".to_string(),
    ];
    let sorted = sort_by_segment_order(&names);
    assert_eq!(sorted, vec!["current.log.5", "current.log.3", "current.log.1", "current.log", "x", "y"]);
}

#[test]
fn rotation_plan_steps() {
    assert_eq!(
        rotation_plan(),
        vec![
            RotationStep::RemoveSegment(5),
            RotationStep::ShiftSegment(4),
            RotationStep::ShiftSegment(3),
            RotationStep::ShiftSegment(2),
            RotationStep::ShiftSegment(1),
            RotationStep::ShiftSegment(0),
        ]
    );
}

#[test]
fn oldest_segment_is_dropped_after_five_rotations() {
    let mut files = Files::new();
    let mut logger = EntryLogger::new("d".to_string(), 1, 0);
    let big = "B".repeat(600_000);
    for i in 0..8 {
        let w = logger.write_info(&format!("{} {}", i, big));
        assert_eq!(w.rotate, i > 0);
        files.apply(&mut logger, &w);
    }
    let resp = files.read(&logger, 0, 100);
    // the current file and five segments: the six newest lines
    assert_eq!(resp.lines.len(), 6);
    assert!(resp.lines[0].message.starts_with("2 "));
    assert!(resp.lines[5].message.starts_with("7 "));
}

#[test]
fn rotation_needs_a_non_empty_current_file() {
    let mut files = Files::new();
    let mut logger = EntryLogger::new("d".to_string(), 1, 0);
    let huge = "C".repeat(2_000_000);
    let w = logger.write_info(&huge);
    assert!(!w.rotate);
    assert_eq!(w.bytes, w.line.len() as u64);
    // nothing is counted until the write is reported back
    assert_eq!(logger.current_size(), 0);
    files.apply(&mut logger, &w);
    assert_eq!(logger.current_size(), w.line.len() as u64);
    let w = logger.write_info("small");
    assert!(w.rotate);
    files.apply(&mut logger, &w);
    assert_eq!(logger.current_size(), w.line.len() as u64);
    let mut logger = EntryLogger::new("d".to_string(), 1, MAX_SEGMENT_BYTES - 10);
    let w = logger.write_info("x");
    assert!(w.rotate);
}

#[test]
fn composed_lines_split_back() {
    let line = compose_log_line("2024-01-01T00:00:00.000Z", "info", "hello [x] world");
    assert_eq!(line, "2024-01-01T00:00:00.000Z [info] hello [x] world\n");
    let (ts, level, msg) = split_log_line(line.trim_end()).unwrap();
    assert_eq!(ts, "2024-01-01T00:00:00.000Z");
    assert_eq!(level, "info");
    assert_eq!(msg, "hello [x] world");
    // a trailing bracket of the message is dropped when reading
    let (_, _, msg) = split_log_line("t [info] tail]").unwrap();
    assert_eq!(msg, "tail");
    assert!(split_log_line("no brackets here").is_none());
}

#[test]
fn parse_log_line_reads_the_instant() {
    let l = parse_log_line("2024-01-01T00:00:01.500Z [error] boom").unwrap();
    assert_eq!(l.timestamp, Timestamp { secs: 1704067201, nanos: 500_000_000 });
    assert_eq!(l.level, "error");
    assert_eq!(l.message, "boom");
    assert!(parse_log_line("yesterday [info] x").is_none());
}

#[test]
fn events_are_formatted() {
    assert_eq!(
        format_event(&LogEvent::ConnectionClosed { bytes_in: 10, bytes_out: 0, duration_ms: 1234 }),
        "connection closed | bytes_in=10 bytes_out=0 duration_ms=1234"
    );
    assert_eq!(
        format_event(&LogEvent::ConnectionAccepted { source: "1.2.3.4:5".to_string() }),
        "connection accepted from 1.2.3.4:5"
    );
    assert_eq!(format_event(&LogEvent::ConnectionError { error: "refused".to_string() }), "connection error: refused");
    assert_eq!(format_event(&LogEvent::ForwarderStarted), "forwarder started");
    assert_eq!(format_event(&LogEvent::ForwarderStopped), "forwarder stopped");
}

#[test]
fn write_message_uses_level_and_event() {
    let mut logger = EntryLogger::new("d".to_string(), 1, 0);
    let msg = LogMessage {
        timestamp: Timestamp { secs: 0, nanos: 0 },
        level: LogLevel::Error,
        connection_id: 0,
        event: LogEvent::ForwarderStopped,
    };
    let w = logger.write_message(&msg);
    assert!(w.line.ends_with(" [error] forwarder stopped\n"));
    // the stamped instant is written to the millisecond and read back as such
    let l = parse_log_line(w.line.trim_end_matches('\n')).unwrap();
    assert_eq!(l.timestamp.secs, w.instant.secs);
    assert_eq!(l.timestamp.nanos, w.instant.nanos / 1_000_000 * 1_000_000);
    assert_eq!(l.level, "error");
    assert_eq!(l.message, "forwarder stopped");
}

#[test]
fn written_lines_read_back_in_order() {
    let mut files = Files::new();
    let mut logger = EntryLogger::new("d".to_string(), 9, 0);
    let mut written = Vec::new();
    for i in 0..5 {
        let w = if i % 2 == 0 { logger.write_info(&format!("m{}", i)) } else { logger.write_error(&format!("m{}", i)) };
        written.push((w.instant, if i % 2 == 0 { "info" } else { "error" }, format!("m{}", i)));
        files.apply(&mut logger, &w);
    }
    let resp = files.read(&logger, 0, 100);
    assert_eq!(resp.lines.len(), 5);
    for (line, (t, level, msg)) in resp.lines.iter().zip(written.iter()) {
        assert_eq!(line.timestamp.secs, t.secs);
        assert_eq!(line.timestamp.nanos, t.nanos / 1_000_000 * 1_000_000);
        assert_eq!(line.level, *level);
        assert_eq!(line.message, *msg);
    }
    assert_eq!(resp.total_bytes, logger.current_size());
}

#[test]
fn total_size_adds_up() {
    let logger = EntryLogger::new("d".to_string(), 1, 0);
    assert_eq!(logger.total_size(&vec![1, 2, 3]), 6);
    let full = vec![MAX_SEGMENT_BYTES; MAX_SEGMENTS + 1];
    assert_eq!(logger.total_size(&full), MAX_TOTAL_BYTES);
    assert_eq!(MAX_TOTAL_BYTES, MAX_SEGMENT_BYTES * 6);
}
