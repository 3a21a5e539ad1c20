use porthannis::api::{default_limit, map_error_status, validate_entry_request};
use porthannis::config::ConfigStore;
use porthannis::error::Error;
use porthannis::forwarder::{accept_failure_event, connection_result_event, send_log};
use porthannis::ids::uuid_text;
use porthannis::manager::{address_with_port, check_addresses, ForwardingManager};
use porthannis::models::{
    default_enabled, default_source_address, ConfigFile, EntryRequest, EntryStatus, LogEvent,
    LogLevel,
};

fn request(name: &str, enabled: bool) -> EntryRequest {
    EntryRequest {
        name: name.to_string(),
        source_address: "127.0.0.1".to_string(),
        source_port: 9999,
        target_address: "10.0.0.1".to_string(),
        target_port: 80,
        log_directory: None,
        enabled,
    }
}

fn manager() -> ForwardingManager {
    ForwardingManager::new(ConfigStore::from_parts("config.json".to_string(), ConfigFile { entries: Vec::new() }))
}

#[test]
fn start_then_stop_changes_status() {
    let mut m = manager();
    let e = m.create_entry(request("web", true));
    assert_eq!(m.get_status(e.id).unwrap(), EntryStatus::Stopped);

    let plan = m.start_forwarding(e.id, Ok(()), Ok(())).unwrap();
    assert_eq!(plan.source, "127.0.0.1:9999");
    assert_eq!(plan.target, "10.0.0.1:80");
    assert_eq!(m.confirm_started(e.id), EntryStatus::Running);
    assert_eq!(m.get_status(e.id).unwrap(), EntryStatus::Running);

    match m.start_forwarding(e.id, Ok(()), Ok(())) {
        Err(Error::InvalidState { id, status }) => {
            assert_eq!(id, e.id);
            assert_eq!(status, "running");
        }
        _ => panic!("starting twice must be refused"),
    }

    assert_eq!(m.stop_forwarding(e.id).unwrap(), EntryStatus::Stopped);
    assert_eq!(m.get_status(e.id).unwrap(), EntryStatus::Stopped);
    match m.stop_forwarding(e.id) {
        Err(Error::InvalidState { status, .. }) => assert_eq!(status, "stopped"),
        _ => panic!("stopping a stopped entry must be refused"),
    }
}

#[test]
fn unknown_ids_are_not_found() {
    let mut m = manager();
    assert!(matches!(m.get_status(5), Err(Error::NotFound(5))));
    assert!(matches!(m.start_forwarding(5, Ok(()), Ok(())), Err(Error::NotFound(5))));
    assert!(matches!(m.get_entry(5), Err(Error::NotFound(5))));
    assert!(matches!(m.log_directory_of(5), Err(Error::NotFound(5))));
    assert!(matches!(m.update_entry(5, request("x", true)), Err(Error::NotFound(5))));
    assert!(matches!(m.delete_entry(5, true), Err(Error::NotFound(5))));
}

#[test]
fn update_stops_and_asks_for_restart_when_enabled() {
    let mut m = manager();
    let e = m.create_entry(request("web", true));
    m.start_forwarding(e.id, Ok(()), Ok(())).unwrap();
    m.confirm_started(e.id);
    let o = m.update_entry(e.id, request("web2", true)).unwrap();
    assert!(o.was_running);
    assert!(o.restart);
    assert_eq!(o.entry.name, "web2");
    assert_eq!(m.get_status(e.id).unwrap(), EntryStatus::Stopped);
    let o = m.update_entry(e.id, request("web3", false)).unwrap();
    assert!(!o.was_running);
    assert!(!o.restart);
}

#[test]
fn delete_stops_and_names_the_log_directory() {
    let mut m = manager();
    let e = m.create_entry(request("web", true));
    m.start_forwarding(e.id, Ok(()), Ok(())).unwrap();
    m.confirm_started(e.id);
    let o = m.delete_entry(e.id, true).unwrap();
    assert!(o.was_running);
    assert_eq!(o.remove_log_dir, Some(e.log_directory.clone()));
    assert!(m.get_entry(e.id).is_err());
    assert!(m.list_entries().is_empty());

    let e = m.create_entry(request("db", false));
    let o = m.delete_entry(e.id, false).unwrap();
    assert!(!o.was_running);
    assert_eq!(o.remove_log_dir, None);
}

#[test]
fn all_status_and_shutdown() {
    let mut m = manager();
    let a = m.create_entry(request("a", true));
    let b = m.create_entry(request("b", false));
    let c = m.create_entry(request("c", true));
    let starts: Vec<u128> = m.auto_start_candidates().iter().map(|e| e.id).collect();
    assert_eq!(starts, vec![a.id, c.id]);
    m.start_forwarding(c.id, Ok(()), Ok(())).unwrap();
    m.confirm_started(c.id);
    let all = m.get_all_status();
    assert_eq!(all, vec![(a.id, EntryStatus::Stopped), (b.id, EntryStatus::Stopped), (c.id, EntryStatus::Running)]);
    assert_eq!(m.shutdown_all(), vec![c.id]);
    assert_eq!(m.get_status(c.id).unwrap(), EntryStatus::Stopped);
    assert!(m.shutdown_all().is_empty());
}

#[test]
fn validation_messages() {
    let mut r = request("web", true);
    assert!(validate_entry_request(&r).is_ok());
    r.name = "  \t".to_string();
    assert_eq!(validate_entry_request(&r).unwrap_err(), "名称不能为空");
    r.name = "web".to_string();
    r.source_port = 0;
    assert_eq!(validate_entry_request(&r).unwrap_err(), "源端口必须在 1-65535 之间");
    r.source_port = 1;
    r.target_port = 0;
    assert_eq!(validate_entry_request(&r).unwrap_err(), "目标端口必须在 1-65535 之间");
    r.target_port = 1;
    r.target_address = "\u{3000}".to_string();
    assert_eq!(validate_entry_request(&r).unwrap_err(), "目标地址不能为空");
}

#[test]
fn error_texts_and_status_codes() {
    let id: u128 = 0x0123_4567_89ab_4cde_8f01_2345_6789_abcd;
    assert_eq!(uuid_text(id), "01234567-89ab-4cde-8f01-23456789abcd");
    assert_eq!(Error::NotFound(id).message(), "Entry not found: 01234567-89ab-4cde-8f01-23456789abcd");
    assert_eq!(Error::PortInUse(8080).message(), "Port 8080 already in use");
    assert_eq!(
        Error::InvalidState { id, status: "running".to_string() }.message(),
        "Entry is already running (id: 01234567-89ab-4cde-8f01-23456789abcd)"
    );
    assert_eq!(Error::ConfigDirNotFound.message(), "Config directory not found");
    assert_eq!(map_error_status(&Error::NotFound(id)), 404);
    assert_eq!(map_error_status(&Error::InvalidState { id, status: String::new() }), 409);
    assert_eq!(map_error_status(&Error::PortInUse(1)), 409);
    assert_eq!(map_error_status(&Error::Validation("x".to_string())), 500);
}

#[test]
fn defaults() {
    assert_eq!(default_source_address(), "0.0.0.0");
    assert!(default_enabled());
    assert_eq!(default_limit(), 500);
    assert_eq!(LogLevel::Info.as_str(), "info");
    assert_eq!(LogLevel::Error.as_str(), "error");
    assert_eq!(address_with_port("::1", 65535), "::1:65535");
}

#[test]
fn forwarder_events() {
    match accept_failure_event("too many files") {
        LogEvent::ConnectionError { error } => assert_eq!(error, "accept failed: too many files"),
        _ => panic!(),
    }
    let (level, event) = connection_result_event(Ok((3, 4)), 5);
    assert_eq!(level, LogLevel::Info);
    assert!(matches!(event, LogEvent::ConnectionClosed { bytes_in: 3, bytes_out: 4, duration_ms: 5 }));
    let (level, _) = connection_result_event(Err("reset".to_string()), 5);
    assert_eq!(level, LogLevel::Error);
    let m = send_log(9, LogLevel::Info, LogEvent::ForwarderStarted);
    assert_eq!(m.connection_id, 9);
}

#[test]
fn start_with_an_unreadable_address_is_refused() {
    let mut m = manager();
    let e = m.create_entry(request("web", true));
    match m.start_forwarding(e.id, Err("invalid socket address syntax".to_string()), Ok(())) {
        Err(Error::Validation(msg)) => assert_eq!(msg, "无效的源地址: invalid socket address syntax"),
        _ => panic!("a listen address that is not a socket address must be refused"),
    }
    match m.start_forwarding(e.id, Ok(()), Err("invalid socket address syntax".to_string())) {
        Err(Error::Validation(msg)) => assert_eq!(msg, "无效的目标地址: invalid socket address syntax"),
        _ => panic!("a target address that is not a socket address must be refused"),
    }
    assert_eq!(m.get_status(e.id).unwrap(), EntryStatus::Stopped);
    // The listen address is checked first, and an unknown id before either.
    match m.start_forwarding(e.id, Err("a".to_string()), Err("b".to_string())) {
        Err(Error::Validation(msg)) => assert_eq!(msg, "无效的源地址: a"),
        _ => panic!("expected a validation error"),
    }
    assert!(matches!(m.start_forwarding(7, Err("a".to_string()), Ok(())), Err(Error::NotFound(7))));
    assert!(check_addresses(Ok(()), Ok(())).is_ok());
}

#[test]
fn starting_every_candidate_runs_exactly_the_enabled_entries() {
    let mut m = manager();
    let a = m.create_entry(request("a", true));
    let b = m.create_entry(request("b", false));
    let c = m.create_entry(request("c", true));
    for e in m.auto_start_candidates() {
        m.start_forwarding(e.id, Ok(()), Ok(())).unwrap();
        assert_eq!(m.confirm_started(e.id), EntryStatus::Running);
    }
    assert_eq!(m.get_status(a.id).unwrap(), EntryStatus::Running);
    assert_eq!(m.get_status(b.id).unwrap(), EntryStatus::Stopped);
    assert_eq!(m.get_status(c.id).unwrap(), EntryStatus::Running);
    assert_eq!(m.list_entries().len(), 3);
}
