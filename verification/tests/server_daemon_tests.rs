use porthannis::daemon::{
    apply_reload, control_action, control_address, generate_token, handle_control_command, reload_reply, rule_report,
    rule_status_text, rules_to_start, status_answer, stop_reply, unknown_command_reply, Config, ControlAction,
    DaemonState, DaemonStep, Rule, RuleStatus,
};
use porthannis::models::{Timestamp, LogEvent};
use porthannis::server::{
    default_config_path, format_log_line, parse_log_line, validate_entry_request, ConfigFile, ConfigStore, CoreError,
    EntryLogger, EntryRequest, EntryStatus, LogLevel, LogMessage, ProxyManager, StartDecision, check_start_addresses,
};
use porthannis::text::sanitize_dir_name;

fn request(name: &str) -> EntryRequest {
    EntryRequest {
        name: name.to_string(),
        source_address: "0.0.0.0".to_string(),
        source_port: 7000,
        target_address: "192.168.1.2".to_string(),
        target_port: 22,
        enabled: true,
    }
}

fn proxy_manager() -> ProxyManager {
    ProxyManager::new(ConfigStore::from_parts(default_config_path(), ConfigFile { entries: Vec::new() }))
}

#[test]
fn server_store_validates_and_uses_text_ids() {
    let mut m = proxy_manager();
    let e = m.create_entry(request("my box")).unwrap();
    assert_eq!(e.id.len(), 36);
    assert_eq!(e.log_directory, "logs/my_box");
    assert!(matches!(m.create_entry(request(" ")), Err(CoreError::Validation(_))));
    let mut bad = request("x");
    bad.target_port = 0;
    match m.update_entry(&e.id, bad) {
        Err(CoreError::Validation(msg)) => assert_eq!(msg, "端口必须在 1-65535 之间"),
        _ => panic!(),
    }
    assert!(matches!(m.update_entry("nope", request("y")), Err(CoreError::NotFound(_))));
    assert_eq!(m.get_entry(&e.id).unwrap().name, "my box");
    assert!(m.get_entry("nope").is_none());
}

#[test]
fn server_start_and_stop_are_idempotent() {
    let mut m = proxy_manager();
    let e = m.create_entry(request("a")).unwrap();
    match m.start_entry(&e.id, true, true).unwrap() {
        StartDecision::Start(plan) => assert_eq!(plan.target, "192.168.1.2:22"),
        StartDecision::AlreadyRunning => panic!(),
    }
    assert!(matches!(m.start_entry(&e.id, true, true), Ok(StartDecision::AlreadyRunning)));
    assert_eq!(m.get_status(&e.id).unwrap(), EntryStatus::Running);
    assert_eq!(m.stop_entry(&e.id), (EntryStatus::Stopped, true));
    assert_eq!(m.stop_entry(&e.id), (EntryStatus::Stopped, false));
    // deleting does not stop forwarding
    assert!(matches!(m.start_entry(&e.id, true, true), Ok(StartDecision::Start(_))));
    m.delete_entry(&e.id).unwrap();
    assert!(m.is_running(&e.id));
    assert!(matches!(m.get_status(&e.id), Err(CoreError::NotFound(_))));
    assert_eq!(m.shutdown_all(), vec![e.id.clone()]);
}

#[test]
fn server_errors_answer() {
    assert_eq!(CoreError::NotFound("x".into()).response(), (404, "条目未找到: x".to_string()));
    assert_eq!(CoreError::Validation("v".into()).response(), (400, "验证错误: v".to_string()));
    assert_eq!(CoreError::Io("disk".into()).response(), (500, "服务器错误".to_string()));
    assert_eq!(
        CoreError::InvalidState { id: "i".into(), status: "s".into() }.message(),
        "无效状态: s (id: i)"
    );
    assert!(validate_entry_request(&request("ok")).is_ok());
}

#[test]
fn server_log_lines() {
    let msg = LogMessage {
        timestamp: Timestamp { secs: 1704067200, nanos: 5_000_000 },
        level: LogLevel::Info,
        connection_id: "c".to_string(),
        event: LogEvent::ForwarderStarted,
    };
    let line = format_log_line(&msg, "\"forwarder_started\"");
    assert_eq!(line, "2024-01-01T00:00:00.005Z [info] forwarder_started");
    let l = parse_log_line(&line);
    assert_eq!(l.timestamp, "2024-01-01T00:00:00.005Z");
    assert_eq!(l.level, "info");
    assert_eq!(l.message, "forwarder_started");
    let l = parse_log_line("just words");
    assert_eq!((l.timestamp.as_str(), l.level.as_str(), l.message.as_str()), ("", "info", "just words"));

    let mut logger = EntryLogger::new("logs/a".to_string(), "a".to_string(), 0);
    let w = logger.write(&msg, "\"x\"");
    assert!(!w.rotate);
    assert!(w.line.ends_with("[info] x\n"));
    assert_eq!(w.bytes, w.line.len() as u64);
    logger.record_written(w.bytes);
    assert_eq!(logger.current_size(), w.bytes);
    let big = "y".repeat(1_000_000);
    let w2 = logger.plan_line(big);
    assert!(w2.rotate);
    assert_eq!(w2.bytes, 1_000_001);
    logger.record_rotation();
    logger.record_written(w2.bytes);
    assert_eq!(logger.current_size(), 1_000_001);
}

#[test]
fn server_read_logs_newest_first_and_clamped() {
    let logger = EntryLogger::new("d".to_string(), "a".to_string(), 0);
    let files = vec![
        vec!["t1 [info] one".to_string(), "t2 [info] two".to_string()],
        vec!["t0 [error] zero".to_string()],
    ];
    let r = logger.read_logs(&files, 0, 500);
    assert_eq!(r.total, 3);
    let msgs: Vec<&str> = r.lines.iter().map(|l| l.message.as_str()).collect();
    assert_eq!(msgs, vec!["zero", "two", "one"]);
    let r = logger.read_logs(&files, 10, 5);
    assert_eq!((r.offset, r.limit, r.lines.len()), (3, 0, 0));
    let r = logger.read_logs(&files, 1, 5);
    assert_eq!((r.offset, r.limit), (1, 2));
}

#[test]
fn daemon_decisions() {
    assert_eq!(control_action("status"), ControlAction::Status);
    assert_eq!(control_action("stop"), ControlAction::Stop);
    assert_eq!(control_action("reload"), ControlAction::Reload);
    assert_eq!(control_action("restart"), ControlAction::Unknown);
    let t = generate_token();
    assert_eq!(t.len(), 32);
    assert!(t.chars().all(|c| c.is_ascii_alphanumeric()));
    assert_eq!(control_address(4242), "127.0.0.1:4242");
    let cfg = Config {
        rules: vec![
            Rule { name: "a".into(), source: "0.0.0.0:1".into(), target: "h:2".into(), enabled: true },
            Rule { name: "b".into(), source: "0.0.0.0:3".into(), target: "h:4".into(), enabled: false },
        ],
    };
    let started: Vec<String> = rules_to_start(&cfg).into_iter().map(|r| r.name).collect();
    assert_eq!(started, vec!["a".to_string()]);
    assert_eq!(rule_status_text(&RuleStatus::Failed("bind".into())), ("failed".to_string(), Some("bind".to_string())));
    let rep = rule_report(&cfg.rules[0], &RuleStatus::Running);
    assert_eq!(rep.status, "running");
    assert!(rep.error.is_none());
    assert_eq!(stop_reply().message.unwrap(), "daemon stopping");
    assert_eq!(reload_reply(Err("bad toml".into())).error.unwrap(), "failed to reload config: bad toml");
    assert_eq!(unknown_command_reply("x").error.unwrap(), "unknown command: x");
}

#[test]
fn sanitized_names() {
    assert_eq!(sanitize_dir_name("a/b c.d-e_f"), "a_b_c.d-e_f");
    assert_eq!(sanitize_dir_name("规则"), "规则");
    assert_eq!(sanitize_dir_name(&sanitize_dir_name("x/y")), sanitize_dir_name("x/y"));
}

#[test]
fn server_start_with_an_unreadable_address_is_refused() {
    let mut m = proxy_manager();
    let mut r = request("bad");
    r.source_address = "not-an-ip".to_string();
    let e = m.create_entry(r).unwrap();
    match m.start_entry(&e.id, false, true) {
        Err(CoreError::Validation(msg)) => assert_eq!(msg, "无效的源地址"),
        _ => panic!("a listen address that is not a socket address must be refused"),
    }
    match m.start_entry(&e.id, true, false) {
        Err(CoreError::Validation(msg)) => assert_eq!(msg, "无效的目标地址"),
        _ => panic!("a target address that is not a socket address must be refused"),
    }
    assert_eq!(m.get_status(&e.id).unwrap(), EntryStatus::Stopped);
    assert!(!m.is_running(&e.id));
    assert!(matches!(m.start_entry("nope", false, false), Err(CoreError::NotFound(_))));
    assert!(check_start_addresses(true, true).is_ok());
}

#[test]
fn daemon_command_steps() {
    let cfg = Config {
        rules: vec![Rule { name: "a".into(), source: "0.0.0.0:1".into(), target: "h:2".into(), enabled: true }],
    };
    let mut state = DaemonState { config: cfg, stopping: false };
    assert!(matches!(handle_control_command(&mut state, "status"), DaemonStep::ReportStatus));
    assert!(matches!(handle_control_command(&mut state, "reload"), DaemonStep::LoadConfig));
    match handle_control_command(&mut state, "dance") {
        DaemonStep::Reply(r) => {
            assert!(!r.ok);
            assert_eq!(r.error.unwrap(), "unknown command: dance");
        }
        _ => panic!("an unknown command is answered with an error"),
    }
    assert!(!state.stopping);

    let out = apply_reload(&mut state, Err("missing file".into()));
    assert!(!out.stop_all);
    assert!(out.start.is_empty());
    assert_eq!(out.reply.error.unwrap(), "failed to reload config: missing file");
    assert_eq!(state.config.rules.len(), 1);

    let new_cfg = Config {
        rules: vec![
            Rule { name: "b".into(), source: "0.0.0.0:3".into(), target: "h:4".into(), enabled: false },
            Rule { name: "c".into(), source: "0.0.0.0:5".into(), target: "h:6".into(), enabled: true },
        ],
    };
    let out = apply_reload(&mut state, Ok(new_cfg));
    assert!(out.stop_all);
    let names: Vec<String> = out.start.into_iter().map(|r| r.name).collect();
    assert_eq!(names, vec!["c".to_string()]);
    assert_eq!(out.reply.message.unwrap(), "config reloaded");
    assert_eq!(state.config.rules.len(), 2);

    match handle_control_command(&mut state, "stop") {
        DaemonStep::Stop(r) => {
            assert!(r.ok);
            assert_eq!(r.message.unwrap(), "daemon stopping");
        }
        _ => panic!("stop is answered, then the daemon stops"),
    }
    assert!(state.stopping);

    let answer = status_answer(42, 7000, &vec![
        (state.config.rules[1].clone(), RuleStatus::Failed("bind".into())),
    ]);
    assert!(answer.ok);
    assert_eq!(answer.pid, 42);
    assert_eq!(answer.control, "127.0.0.1:7000");
    assert_eq!(answer.rules.len(), 1);
    assert_eq!(answer.rules[0].name, "c");
    assert_eq!(answer.rules[0].status, "failed");
    assert_eq!(answer.rules[0].error.as_deref(), Some("bind"));
}
