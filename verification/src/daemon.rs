//! The rule daemon's decisions: its control token, what a control command calls
//! for, which rules run after a reload, and how a rule's state is reported.

use vstd::prelude::*;
use crate::manager::{address_text, address_with_port};
use crate::text::{ascii_alphanumeric, push_char, str_equal};

verus! {

/// One ASCII letter or digit drawn by `rand`'s `Alphanumeric` distribution from the
/// thread's generator. The draw is random; the contract states only that the
/// character is an ASCII letter or digit, which is the distribution's character set.
#[verifier::external_body]
fn sample_alphanumeric() -> (c: char)
    ensures
        ascii_alphanumeric(c),
{
    char::from(rand::Rng::sample(&mut rand::thread_rng(), rand::distributions::Alphanumeric))
}

/// A control token: 32 random ASCII letters and digits.
pub fn generate_token() -> (token: String)
    ensures
        token@.len() == 32,
        forall|i: int| 0 <= i < 32 ==> ascii_alphanumeric(#[trigger] token@[i]),
{
    let mut token = String::new();
    let mut i: usize = 0;
    while i < 32
        invariant
            i <= 32,
            token@.len() == i,
            forall|k: int| 0 <= k < i ==> ascii_alphanumeric(#[trigger] token@[k]),
        decreases 32 - i,
    {
        let c = sample_alphanumeric();
        push_char(&mut token, c);
        i = i + 1;
    }
    token
}

/// A forwarding rule of the daemon's configuration.
#[derive(Debug, Clone)]
pub struct Rule {
    pub name: String,
    /// The listen address, `host:port`.
    pub source: String,
    /// The forward address, `host:port`.
    pub target: String,
    pub enabled: bool,
}

impl Rule {
    /// A field-by-field copy of the rule.
    pub fn duplicate(&self) -> (r: Rule)
        ensures
            r == *self,
    {
        Rule { name: self.name.clone(), source: self.source.clone(), target: self.target.clone(), enabled: self.enabled }
    }
}

/// The daemon's configuration: its rules, in order.
#[derive(Debug, Clone)]
pub struct Config {
    pub rules: Vec<Rule>,
}

/// The enabled rules, in order.
pub open spec fn enabled_rules(s: Seq<Rule>) -> Seq<Rule>
    decreases s.len(),
{
    if s.len() == 0 {
        Seq::empty()
    } else if s.last().enabled {
        enabled_rules(s.drop_last()).push(s.last())
    } else {
        enabled_rules(s.drop_last())
    }
}

/// The rules started for a configuration are exactly its enabled rules, in their
/// order: the rules that `enabled` keeps; every started rule is enabled and one of
/// the configuration's, and every enabled rule is started.
pub proof fn law_enabled_rules_are_the_enabled_ones(s: Seq<Rule>)
    ensures
        enabled_rules(s) == s.filter(|x: Rule| x.enabled),
        forall|k: int| 0 <= k < enabled_rules(s).len() ==> (#[trigger] enabled_rules(s)[k]).enabled && s.contains(enabled_rules(s)[k]),
        forall|i: int| 0 <= i < s.len() && (#[trigger] s[i]).enabled ==> enabled_rules(s).contains(s[i]),
    decreases s.len(),
{
    reveal(Seq::filter);
    if s.len() > 0 {
        let d = s.drop_last();
        law_enabled_rules_are_the_enabled_ones(d);
        let r = enabled_rules(s);
        let rd = enabled_rules(d);
        assert forall|k: int| 0 <= k < r.len() implies (#[trigger] r[k]).enabled && s.contains(r[k]) by {
            if k < rd.len() {
                assert(r[k] == rd[k]);
                let j = choose|j: int| 0 <= j < d.len() && d[j] == rd[k];
                assert(s[j] == d[j]);
            } else {
                assert(r[k] == s[s.len() - 1]);
            }
        }
        assert forall|i: int| 0 <= i < s.len() && (#[trigger] s[i]).enabled implies r.contains(s[i]) by {
            if i < s.len() - 1 {
                assert(d[i] == s[i]);
                assert(rd.contains(d[i]));
                let k = choose|k: int| 0 <= k < rd.len() && rd[k] == d[i];
                if s.last().enabled {
                    assert(r[k] == rd[k]);
                }
            } else {
                assert(r[rd.len() as int] == s[i]);
            }
        }
    } else {
        assert(s.filter(|x: Rule| x.enabled) =~= Seq::<Rule>::empty());
    }
}

/// The rules the daemon runs for a configuration, at start-up and after a reload:
/// the enabled ones, in order.
pub fn rules_to_start(config: &Config) -> (r: Vec<Rule>)
    ensures
        r@ == enabled_rules(config.rules@),
{
    let mut r: Vec<Rule> = Vec::new();
    let mut i: usize = 0;
    while i < config.rules.len()
        invariant
            i <= config.rules.len(),
            r@ == enabled_rules(config.rules@.take(i as int)),
        decreases config.rules.len() - i,
    {
        assert(config.rules@.take(i + 1).drop_last() =~= config.rules@.take(i as int));
        if config.rules[i].enabled {
            r.push(config.rules[i].duplicate());
        }
        i = i + 1;
    }
    assert(config.rules@.take(i as int) =~= config.rules@);
    r
}

/// The state of a rule's forwarding task.
#[derive(Debug, Clone)]
pub enum RuleStatus {
    Starting,
    Running,
    Stopped,
    Failed(String),
}

/// How a rule's state is reported: its word, and the error of a failed rule.
pub open spec fn status_report(s: RuleStatus) -> (Seq<char>, Option<Seq<char>>) {
    match s {
        RuleStatus::Starting => ("starting"@, None),
        RuleStatus::Running => ("running"@, None),
        RuleStatus::Stopped => ("stopped"@, None),
        RuleStatus::Failed(e) => ("failed"@, Some(e@)),
    }
}

/// The word reported for a rule names its state: `starting`, `running`, `stopped`
/// and `failed` each belong to exactly one state, so two states of different kinds
/// are never reported alike; only a failed rule reports an error, and that error is
/// the one it failed with.
pub proof fn law_status_word_names_the_state(s: RuleStatus, t: RuleStatus)
    ensures
        status_report(s).0 == "starting"@ <==> s is Starting,
        status_report(s).0 == "running"@ <==> s is Running,
        status_report(s).0 == "stopped"@ <==> s is Stopped,
        status_report(s).0 == "failed"@ <==> s is Failed,
        status_report(s).0 == status_report(t).0 <==> (
            (s is Starting && t is Starting) || (s is Running && t is Running)
            || (s is Stopped && t is Stopped) || (s is Failed && t is Failed)
        ),
        status_report(s).1 is Some <==> s is Failed,
        s matches RuleStatus::Failed(e) ==> status_report(s).1 == Some(e@),
{
    reveal_strlit("starting");
    reveal_strlit("running");
    reveal_strlit("stopped");
    reveal_strlit("failed");
    assert("starting"@ != "running"@) by { assert("starting"@[0] != "running"@[0]); }
    assert("starting"@ != "stopped"@) by { assert("starting"@[2] != "stopped"@[2]); }
    assert("starting"@ != "failed"@) by { assert("starting"@.len() != "failed"@.len()); }
    assert("running"@ != "stopped"@) by { assert("running"@[0] != "stopped"@[0]); }
    assert("running"@ != "failed"@) by { assert("running"@.len() != "failed"@.len()); }
    assert("stopped"@ != "failed"@) by { assert("stopped"@.len() != "failed"@.len()); }
}

/// How a rule's state is reported: its word, and the error of a failed rule.
pub fn rule_status_text(status: &RuleStatus) -> (r: (String, Option<String>))
    ensures
        r.0@ == status_report(*status).0,
        match status_report(*status).1 {
            Some(e) => r.1 matches Some(x) && x@ == e,
            None => r.1 is None,
        },
{
    match status {
        RuleStatus::Starting => (String::from_str("starting"), None),
        RuleStatus::Running => (String::from_str("running"), None),
        RuleStatus::Stopped => (String::from_str("stopped"), None),
        RuleStatus::Failed(e) => (String::from_str("failed"), Some(e.clone())),
    }
}

/// One rule's line in the status answer.
#[derive(Debug, Clone)]
pub struct RuleReport {
    pub name: String,
    pub source: String,
    pub target: String,
    pub enabled: bool,
    pub status: String,
    pub error: Option<String>,
}

/// The status answer's line for a rule in the given state.
pub fn rule_report(rule: &Rule, status: &RuleStatus) -> (r: RuleReport)
    ensures
        r.name == rule.name,
        r.source == rule.source,
        r.target == rule.target,
        r.enabled == rule.enabled,
        r.status@ == status_report(*status).0,
        match status_report(*status).1 {
            Some(e) => r.error matches Some(x) && x@ == e,
            None => r.error is None,
        },
{
    let (status_text, error) = rule_status_text(status);
    RuleReport {
        name: rule.name.clone(),
        source: rule.source.clone(),
        target: rule.target.clone(),
        enabled: rule.enabled,
        status: status_text,
        error,
    }
}

/// The control address shown in the status answer: `127.0.0.1:<port>`.
pub fn control_address(port: u16) -> (s: String)
    ensures
        s@ == address_text("127.0.0.1"@, port),
{
    address_with_port("127.0.0.1", port)
}

/// What a control command asks the daemon to do.
#[derive(Debug, Clone, Copy, PartialEq, Eq, Structural)]
pub enum ControlAction {
    Status,
    Stop,
    Reload,
    Unknown,
}

/// The action a control command names: `status`, `stop` and `reload`; anything else
/// is unknown.
pub open spec fn action_of(command: Seq<char>) -> ControlAction {
    if command == "status"@ {
        ControlAction::Status
    } else if command == "stop"@ {
        ControlAction::Stop
    } else if command == "reload"@ {
        ControlAction::Reload
    } else {
        ControlAction::Unknown
    }
}

/// Each command word names one action, `status`, `stop` and `reload`; every other
/// text is an unknown command.
pub proof fn law_command_words(command: Seq<char>)
    ensures
        action_of(command) == ControlAction::Status <==> command == "status"@,
        action_of(command) == ControlAction::Stop <==> command == "stop"@,
        action_of(command) == ControlAction::Reload <==> command == "reload"@,
        action_of(command) == ControlAction::Unknown <==> (command != "status"@ && command != "stop"@
            && command != "reload"@),
{
    reveal_strlit("status");
    reveal_strlit("stop");
    reveal_strlit("reload");
    assert("status"@ != "stop"@) by { assert("status"@.len() != "stop"@.len()); }
    assert("status"@ != "reload"@) by { assert("status"@[0] != "reload"@[0]); }
    assert("stop"@ != "reload"@) by { assert("stop"@.len() != "reload"@.len()); }
}

/// The action a control command names.
pub fn control_action(command: &str) -> (a: ControlAction)
    ensures
        a == action_of(command@),
{
    if str_equal(command, "status") {
        ControlAction::Status
    } else if str_equal(command, "stop") {
        ControlAction::Stop
    } else if str_equal(command, "reload") {
        ControlAction::Reload
    } else {
        ControlAction::Unknown
    }
}

/// A control answer other than the status answer: success with a message, or
/// failure with an error.
#[derive(Debug, Clone)]
pub struct ControlReply {
    pub ok: bool,
    pub message: Option<String>,
    pub error: Option<String>,
}

/// The answer to `stop`: success, "daemon stopping".
pub fn stop_reply() -> (r: ControlReply)
    ensures
        r.ok,
        r.message matches Some(m) && m@ == "daemon stopping"@,
        r.error is None,
{
    ControlReply { ok: true, message: Some(String::from_str("daemon stopping")), error: None }
}

/// The answer to `reload`: success, "config reloaded", or the failure to read the
/// configuration.
pub fn reload_reply(result: Result<(), String>) -> (r: ControlReply)
    ensures
        match result {
            Ok(()) => r.ok && (r.message matches Some(m) && m@ == "config reloaded"@) && r.error is None,
            Err(e) => !r.ok && r.message is None && (r.error matches Some(x) && x@ == "failed to reload config: "@ + e@),
        },
{
    match result {
        Ok(()) => ControlReply { ok: true, message: Some(String::from_str("config reloaded")), error: None },
        Err(e) => {
            let mut s = String::from_str("failed to reload config: ");
            s.append(e.as_str());
            ControlReply { ok: false, message: None, error: Some(s) }
        },
    }
}

/// The answer to an unknown command.
pub fn unknown_command_reply(command: &str) -> (r: ControlReply)
    ensures
        !r.ok,
        r.message is None,
        r.error matches Some(x) && x@ == "unknown command: "@ + command@,
{
    let mut s = String::from_str("unknown command: ");
    s.append(command);
    ControlReply { ok: false, message: None, error: Some(s) }
}

/// What the daemon's command loop keeps between commands: the configuration in
/// force and whether a stop was asked for.
pub struct DaemonState {
    pub config: Config,
    pub stopping: bool,
}

/// What a control command calls for from the loop that runs the daemon.
#[derive(Debug, Clone)]
pub enum DaemonStep {
    /// Answer with the status of the running rules (see `status_answer`).
    ReportStatus,
    /// Send the answer, then stop the daemon.
    Stop(ControlReply),
    /// Read the configuration again and hand the outcome to `apply_reload`.
    LoadConfig,
    /// Send the answer; nothing else changes.
    Reply(ControlReply),
}

/// Decides what a control command calls for. A `stop` marks the daemon as stopping;
/// no other command changes the state here.
pub fn handle_control_command(state: &mut DaemonState, command: &str) -> (step: DaemonStep)
    ensures
        final(state).config == old(state).config,
        final(state).stopping == (old(state).stopping || action_of(command@) == ControlAction::Stop),
        match action_of(command@) {
            ControlAction::Status => step is ReportStatus,
            ControlAction::Stop => step matches DaemonStep::Stop(r) && r.ok
                && (r.message matches Some(m) && m@ == "daemon stopping"@) && r.error is None,
            ControlAction::Reload => step is LoadConfig,
            ControlAction::Unknown => step matches DaemonStep::Reply(r) && !r.ok && r.message is None
                && (r.error matches Some(x) && x@ == "unknown command: "@ + command@),
        },
{
    match control_action(command) {
        ControlAction::Status => DaemonStep::ReportStatus,
        ControlAction::Stop => {
            state.stopping = true;
            DaemonStep::Stop(stop_reply())
        },
        ControlAction::Reload => DaemonStep::LoadConfig,
        ControlAction::Unknown => DaemonStep::Reply(unknown_command_reply(command)),
    }
}

/// What a reload calls for: whether every running rule is stopped, which rules are
/// started afterwards, in order, and the answer.
pub struct ReloadOutcome {
    pub stop_all: bool,
    pub start: Vec<Rule>,
    pub reply: ControlReply,
}

/// Applies the outcome of reading the configuration again. A configuration that
/// was read replaces the one in force: every running rule is stopped and the enabled
/// rules of the new configuration are started. A failure to read it changes nothing
/// and is reported.
pub fn apply_reload(state: &mut DaemonState, loaded: Result<Config, String>) -> (out: ReloadOutcome)
    ensures
        final(state).stopping == old(state).stopping,
        match loaded {
            Ok(cfg) => {
                &&& final(state).config == cfg
                &&& out.stop_all
                &&& out.start@ == enabled_rules(cfg.rules@)
                &&& out.reply.ok && (out.reply.message matches Some(m) && m@ == "config reloaded"@)
                &&& out.reply.error is None
            },
            Err(e) => {
                &&& final(state).config == old(state).config
                &&& !out.stop_all
                &&& out.start@.len() == 0
                &&& !out.reply.ok && out.reply.message is None
                &&& (out.reply.error matches Some(x) && x@ == "failed to reload config: "@ + e@)
            },
        },
{
    match loaded {
        Ok(cfg) => {
            let start = rules_to_start(&cfg);
            state.config = cfg;
            ReloadOutcome { stop_all: true, start, reply: reload_reply(Ok(())) }
        },
        Err(e) => ReloadOutcome { stop_all: false, start: Vec::new(), reply: reload_reply(Err(e)) },
    }
}

/// The answer to `status`: success, the daemon's process id, its control address,
/// and one line for each running rule.
pub struct StatusAnswer {
    pub ok: bool,
    pub pid: u32,
    pub control: String,
    pub rules: Vec<RuleReport>,
}

/// The answer to `status` for the rules in the given states, in the order given.
pub fn status_answer(pid: u32, control_port: u16, rules: &Vec<(Rule, RuleStatus)>) -> (a: StatusAnswer)
    ensures
        a.ok,
        a.pid == pid,
        a.control@ == address_text("127.0.0.1"@, control_port),
        a.rules.len() == rules.len(),
        forall|i: int| 0 <= i < rules.len() ==> {
            let r = #[trigger] a.rules@[i];
            let (rule, status) = rules@[i];
            &&& r.name == rule.name
            &&& r.source == rule.source
            &&& r.target == rule.target
            &&& r.enabled == rule.enabled
            &&& r.status@ == status_report(status).0
            &&& match status_report(status).1 {
                Some(e) => r.error matches Some(x) && x@ == e,
                None => r.error is None,
            }
        },
{
    let mut reports: Vec<RuleReport> = Vec::new();
    let mut i: usize = 0;
    while i < rules.len()
        invariant
            i <= rules.len(),
            reports.len() == i,
            forall|k: int| 0 <= k < i ==> {
                let r = #[trigger] reports@[k];
                let (rule, status) = rules@[k];
                &&& r.name == rule.name
                &&& r.source == rule.source
                &&& r.target == rule.target
                &&& r.enabled == rule.enabled
                &&& r.status@ == status_report(status).0
                &&& match status_report(status).1 {
                    Some(e) => r.error matches Some(x) && x@ == e,
                    None => r.error is None,
                }
            },
        decreases rules.len() - i,
    {
        let (rule, status) = &rules[i];
        reports.push(rule_report(rule, status));
        i = i + 1;
    }
    StatusAnswer { ok: true, pid, control: control_address(control_port), rules: reports }
}

} // verus!
