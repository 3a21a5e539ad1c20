//! The stand-alone web server's core: entries keyed by text ids, its own error
//! type, its logger and its proxy registry.

use vstd::prelude::*;
use crate::clock::{format_millis, millis_text, now};
use crate::ids::{new_entry_id, uuid_hyphenated, uuid_text};
pub use crate::models::{EntryStatus, LogEvent, LogLevel, Timestamp};
use crate::logger::{utf8_len, MAX_SEGMENT_BYTES};
use vstd::utf8::encode_utf8;
use crate::manager::{address_text, address_with_port};
use crate::models::level_text;
use crate::text::{
    blank, chars_of, decimal, find_first, first_occurrence, is_blank, sanitize_dir_name, sanitized,
    str_equal, string_from_chars, strip_leading, strip_trailing, trim_chars, u64_to_decimal, views,
};

verus! {

/// A persisted port forwarding entry; its id is the hyphenated text of a UUID.
#[derive(Debug, Clone)]
pub struct ForwardingEntry {
    pub id: String,
    pub name: String,
    pub source_address: String,
    pub source_port: u16,
    pub target_address: String,
    pub target_port: u16,
    pub enabled: bool,
    pub log_directory: String,
    pub created_at: Timestamp,
    pub updated_at: Timestamp,
}

impl ForwardingEntry {
    /// A field-by-field copy of the entry.
    pub fn duplicate(&self) -> (r: ForwardingEntry)
        ensures
            r == *self,
    {
        ForwardingEntry {
            id: self.id.clone(),
            name: self.name.clone(),
            source_address: self.source_address.clone(),
            source_port: self.source_port,
            target_address: self.target_address.clone(),
            target_port: self.target_port,
            enabled: self.enabled,
            log_directory: self.log_directory.clone(),
            created_at: self.created_at,
            updated_at: self.updated_at,
        }
    }
}

/// The body of a request that creates or updates an entry.
#[derive(Debug, Clone)]
pub struct EntryRequest {
    pub name: String,
    pub source_address: String,
    pub source_port: u16,
    pub target_address: String,
    pub target_port: u16,
    pub enabled: bool,
}

/// The source address used when a request gives none.
pub fn default_source_address() -> (s: String)
    ensures
        s@ == "0.0.0.0"@,
{
    String::from_str("0.0.0.0")
}

/// Whether an entry is enabled when a request does not say.
pub fn default_enabled() -> (b: bool)
    ensures
        b,
{
    true
}

/// A log event on its way to an entry's logger.
#[derive(Debug, Clone)]
pub struct LogMessage {
    pub timestamp: Timestamp,
    pub level: LogLevel,
    pub connection_id: String,
    pub event: LogEvent,
}

/// One line of an entry's log, its parts as text.
#[derive(Debug, Clone)]
pub struct LogLine {
    pub timestamp: String,
    pub level: String,
    pub message: String,
}

/// A page of an entry's log, newest lines first.
#[derive(Debug, Clone)]
pub struct LogResponse {
    pub lines: Vec<LogLine>,
    /// How many lines the log holds.
    pub total: usize,
    /// How many lines were skipped, at most `total`.
    pub offset: usize,
    /// How many lines were returned.
    pub limit: usize,
}

/// The content of the configuration file.
#[derive(Debug, Clone)]
pub struct ConfigFile {
    pub entries: Vec<ForwardingEntry>,
}

/// What can go wrong in the server's core.
#[derive(Debug, Clone)]
pub enum CoreError {
    Io(String),
    Json(String),
    NotFound(String),
    PortInUse(u16),
    InvalidState { id: String, status: String },
    Validation(String),
    LogRotation(String),
}

/// The human-readable text of an error.
pub open spec fn core_error_message(e: CoreError) -> Seq<char> {
    match e {
        CoreError::Io(m) => "I/O 错误: "@ + m@,
        CoreError::Json(m) => "JSON 错误: "@ + m@,
        CoreError::NotFound(id) => "条目未找到: "@ + id@,
        CoreError::PortInUse(p) => "端口已被占用: "@ + decimal(p as nat),
        CoreError::InvalidState { id, status } => "无效状态: "@ + status@ + " (id: "@ + id@ + ")"@,
        CoreError::Validation(m) => "验证错误: "@ + m@,
        CoreError::LogRotation(m) => "日志轮转错误: "@ + m@,
    }
}

/// The HTTP status and the message with which an error is answered; failures of I/O
/// and of the codec are not described to the client.
pub open spec fn core_error_response(e: CoreError) -> (u16, Seq<char>) {
    match e {
        CoreError::NotFound(_) => (404, core_error_message(e)),
        CoreError::InvalidState { .. } => (409, core_error_message(e)),
        CoreError::PortInUse(_) => (409, core_error_message(e)),
        CoreError::Validation(_) => (400, core_error_message(e)),
        _ => (500, "服务器错误"@),
    }
}

impl CoreError {
    /// The human-readable text of the error.
    pub fn message(&self) -> (s: String)
        ensures
            s@ == core_error_message(*self),
    {
        let (head, tail) = match self {
            CoreError::Io(m) => ("I/O 错误: ", m.clone()),
            CoreError::Json(m) => ("JSON 错误: ", m.clone()),
            CoreError::NotFound(id) => ("条目未找到: ", id.clone()),
            CoreError::PortInUse(p) => ("端口已被占用: ", u64_to_decimal(*p as u64)),
            CoreError::InvalidState { id, status } => {
                let mut s = String::from_str("无效状态: ");
                s.append(status.as_str());
                s.append(" (id: ");
                s.append(id.as_str());
                s.append(")");
                return s;
            },
            CoreError::Validation(m) => ("验证错误: ", m.clone()),
            CoreError::LogRotation(m) => ("日志轮转错误: ", m.clone()),
        };
        let mut s = String::from_str(head);
        s.append(tail.as_str());
        s
    }

    /// The HTTP status and the message with which the error is answered.
    pub fn response(&self) -> (r: (u16, String))
        ensures
            r.0 == core_error_response(*self).0,
            r.1@ == core_error_response(*self).1,
    {
        match self {
            CoreError::NotFound(_) => (404, self.message()),
            CoreError::InvalidState { .. } => (409, self.message()),
            CoreError::PortInUse(_) => (409, self.message()),
            CoreError::Validation(_) => (400, self.message()),
            _ => (500, String::from_str("服务器错误")),
        }
    }
}

/// What a create or update request is refused for, if anything: a blank name, a
/// zero port or a blank target address, checked in that order.
pub open spec fn request_problem(req: EntryRequest) -> Option<Seq<char>> {
    if blank(req.name@) {
        Some("名称不能为空"@)
    } else if req.source_port == 0 || req.target_port == 0 {
        Some("端口必须在 1-65535 之间"@)
    } else if blank(req.target_address@) {
        Some("目标地址不能为空"@)
    } else {
        None
    }
}

/// A request is accepted exactly when its name and target address hold more than
/// white space and both ports are nonzero; a blank name is reported first, then a
/// zero port.
pub proof fn law_server_request_accepted(req: EntryRequest)
    ensures
        request_problem(req) is None <==> (!blank(req.name@) && req.source_port != 0 && req.target_port != 0
            && !blank(req.target_address@)),
        blank(req.name@) ==> request_problem(req) == Some("名称不能为空"@),
        !blank(req.name@) && (req.source_port == 0 || req.target_port == 0)
            ==> request_problem(req) == Some("端口必须在 1-65535 之间"@),
{
}

/// A start is refused exactly when an address was not read, the listen address
/// first.
pub proof fn law_start_refused_for_unread_addresses(source_ok: bool, target_ok: bool)
    ensures
        start_address_check(source_ok, target_ok) is None <==> (source_ok && target_ok),
        !source_ok ==> start_address_check(source_ok, target_ok) == Some("无效的源地址"@),
        source_ok && !target_ok ==> start_address_check(source_ok, target_ok) == Some("无效的目标地址"@),
{
}

/// Checks a create or update request; refusals are validation errors.
pub fn validate_entry_request(req: &EntryRequest) -> (r: Result<(), CoreError>)
    ensures
        match request_problem(*req) {
            Some(m) => r matches Err(CoreError::Validation(msg)) && msg@ == m,
            None => r is Ok,
        },
{
    if is_blank(req.name.as_str()) {
        return Err(CoreError::Validation(String::from_str("名称不能为空")));
    }
    if req.source_port == 0 || req.target_port == 0 {
        return Err(CoreError::Validation(String::from_str("端口必须在 1-65535 之间")));
    }
    if is_blank(req.target_address.as_str()) {
        return Err(CoreError::Validation(String::from_str("目标地址不能为空")));
    }
    Ok(())
}

/// The position of the first entry with the given id.
pub open spec fn position_of(s: Seq<ForwardingEntry>, id: Seq<char>) -> Option<int> {
    if exists|i: int| 0 <= i < s.len() && s[i].id@ == id {
        Some(
            choose|i: int|
                0 <= i < s.len() && s[i].id@ == id && forall|j: int| 0 <= j < i ==> s[j].id@ != id,
        )
    } else {
        None
    }
}

/// `i` is the first position holding `id`, so `position_of` is `i`.
pub proof fn lemma_position_is(s: Seq<ForwardingEntry>, id: Seq<char>, i: int)
    requires
        0 <= i < s.len(),
        s[i].id@ == id,
        forall|j: int| 0 <= j < i ==> s[j].id@ != id,
    ensures
        position_of(s, id) == Some(i),
{
    let w = choose|k: int|
        0 <= k < s.len() && s[k].id@ == id && forall|j: int| 0 <= j < k ==> s[j].id@ != id;
    assert(0 <= w < s.len() && s[w].id@ == id && forall|j: int| 0 <= j < w ==> s[j].id@ != id);
    if w < i {
    } else if w > i {
        assert(s[i].id@ != id);
    }
}

/// The log directory of a new entry: `logs/<sanitized name>`.
pub open spec fn server_log_dir(name: Seq<char>) -> Seq<char> {
    "logs/"@ + sanitized(name)
}

/// `e` is the entry that a create request makes.
pub open spec fn created_from(e: ForwardingEntry, req: EntryRequest) -> bool {
    &&& e.name == req.name
    &&& e.source_address == req.source_address
    &&& e.source_port == req.source_port
    &&& e.target_address == req.target_address
    &&& e.target_port == req.target_port
    &&& e.enabled == req.enabled
    &&& e.log_directory@ == server_log_dir(req.name@)
    &&& e.created_at == e.updated_at
}

/// `e` is entry `old` after an update request: id, log directory and creation time
/// stay, the rest comes from the request.
pub open spec fn updated_from(e: ForwardingEntry, old: ForwardingEntry, req: EntryRequest) -> bool {
    &&& e.id == old.id
    &&& e.name == req.name
    &&& e.source_address == req.source_address
    &&& e.source_port == req.source_port
    &&& e.target_address == req.target_address
    &&& e.target_port == req.target_port
    &&& e.enabled == req.enabled
    &&& e.log_directory == old.log_directory
    &&& e.created_at == old.created_at
}

/// A created entry holds what the request gives: name, both addresses and ports and
/// whether it is enabled; its log directory is `logs/` and its sanitized name.
pub proof fn law_server_create_takes_request(e: ForwardingEntry, req: EntryRequest)
    requires
        created_from(e, req),
    ensures
        e.name == req.name,
        e.source_address == req.source_address,
        e.source_port == req.source_port,
        e.target_address == req.target_address,
        e.target_port == req.target_port,
        e.enabled == req.enabled,
        e.log_directory@ == "logs/"@ + sanitized(req.name@),
        e.created_at == e.updated_at,
{
}

/// An update sets every field the request gives and keeps the id, the log
/// directory and the creation time.
pub proof fn law_server_update_takes_request(e: ForwardingEntry, old: ForwardingEntry, req: EntryRequest)
    requires
        updated_from(e, old, req),
    ensures
        e.id == old.id,
        e.name == req.name,
        e.source_address == req.source_address,
        e.source_port == req.source_port,
        e.target_address == req.target_address,
        e.target_port == req.target_port,
        e.enabled == req.enabled,
        e.log_directory == old.log_directory,
        e.created_at == old.created_at,
{
}

/// The fields a command-line modification sets; `None` keeps the entry's value.
#[derive(Debug, Clone)]
pub struct PartialUpdate {
    pub name: Option<String>,
    pub source_port: Option<u16>,
    pub target_address: Option<String>,
    pub target_port: Option<u16>,
    pub enabled: Option<bool>,
}

/// The update request that a partial update makes of an entry.
pub open spec fn merged_request(e: ForwardingEntry, u: PartialUpdate) -> EntryRequest {
    EntryRequest {
        name: match u.name {
            Some(n) => n,
            None => e.name,
        },
        source_address: e.source_address,
        source_port: match u.source_port {
            Some(p) => p,
            None => e.source_port,
        },
        target_address: match u.target_address {
            Some(a) => a,
            None => e.target_address,
        },
        target_port: match u.target_port {
            Some(p) => p,
            None => e.target_port,
        },
        enabled: match u.enabled {
            Some(b) => b,
            None => e.enabled,
        },
    }
}

/// The path of the server's configuration file: `port.json` in the working directory.
pub fn default_config_path() -> (p: String)
    ensures
        p@ == "port.json"@,
{
    String::from_str("port.json")
}

/// The server's forwarding entries, in the order they were added. Reading and
/// writing the file is left to the caller.
pub struct ConfigStore {
    path: String,
    data: ConfigFile,
}

impl View for ConfigStore {
    type V = Seq<ForwardingEntry>;

    closed spec fn view(&self) -> Seq<ForwardingEntry> {
        self.data.entries@
    }
}

impl ConfigStore {
    /// The path of the configuration file, as text.
    pub closed spec fn path_view(&self) -> Seq<char> {
        self.path@
    }

    /// A store for the file at `path` that holds the entries of `data`.
    pub fn from_parts(path: String, data: ConfigFile) -> (s: Self)
        ensures
            s@ == data.entries@,
            s.path_view() == path@,
    {
        ConfigStore { path, data }
    }

    /// The path of the configuration file.
    pub fn path(&self) -> (p: &str)
        ensures
            p@ == self.path_view(),
    {
        self.path.as_str()
    }

    /// The file content of the store.
    pub fn data(&self) -> (d: &ConfigFile)
        ensures
            d.entries@ == self@,
    {
        &self.data
    }

    /// All entries.
    pub fn entries(&self) -> (r: &[ForwardingEntry])
        ensures
            r@ == self@,
    {
        self.data.entries.as_slice()
    }

    fn position(&self, id: &str) -> (r: Option<usize>)
        ensures
            match r {
                Some(i) => position_of(self@, id@) == Some(i as int),
                None => position_of(self@, id@) is None,
            },
            r matches Some(i) ==> i < self.data.entries.len(),
    {
        let mut i: usize = 0;
        while i < self.data.entries.len()
            invariant
                i <= self.data.entries.len(),
                forall|j: int| 0 <= j < i ==> self.data.entries@[j].id@ != id@,
            decreases self.data.entries.len() - i,
        {
            if str_equal(self.data.entries[i].id.as_str(), id) {
                proof {
                    lemma_position_is(self@, id@, i as int);
                }
                return Some(i);
            }
            i = i + 1;
        }
        None
    }

    /// The first entry with the given id, if any.
    pub fn find_entry(&self, id: &str) -> (r: Option<&ForwardingEntry>)
        ensures
            match position_of(self@, id@) {
                Some(i) => r matches Some(e) && *e == self@[i],
                None => r is None,
            },
    {
        match self.position(id) {
            Some(i) => Some(&self.data.entries[i]),
            None => None,
        }
    }

    /// Adds an entry made from a valid request, with a fresh random id and the current
    /// time; the entry goes last. A refused request changes nothing.
    pub fn add_entry(&mut self, req: EntryRequest) -> (r: Result<ForwardingEntry, CoreError>)
        ensures
            final(self).path_view() == old(self).path_view(),
            match request_problem(req) {
                Some(m) => r matches Err(CoreError::Validation(msg)) && msg@ == m && final(self)@ == old(self)@,
                None => r matches Ok(e) && final(self)@ == old(self)@.push(e) && created_from(e, req)
                    && exists|u: u128| e.id@ == #[trigger] uuid_hyphenated(u),
            },
    {
        match validate_entry_request(&req) {
            Err(e) => return Err(e),
            Ok(()) => {},
        }
        let id = uuid_text(new_entry_id());
        let stamp = now();
        let safe = sanitize_dir_name(req.name.as_str());
        let mut log_directory = String::from_str("logs/");
        log_directory.append(safe.as_str());
        let entry = ForwardingEntry {
            id,
            name: req.name,
            source_address: req.source_address,
            source_port: req.source_port,
            target_address: req.target_address,
            target_port: req.target_port,
            enabled: req.enabled,
            log_directory,
            created_at: stamp,
            updated_at: stamp,
        };
        let e = entry.duplicate();
        self.data.entries.push(entry);
        Ok(e)
    }

    /// Updates the first entry with the given id from a valid request, stamping the
    /// current time. A refused request is refused before the id is looked up.
    pub fn update_entry(&mut self, id: &str, req: EntryRequest) -> (r: Result<ForwardingEntry, CoreError>)
        ensures
            final(self).path_view() == old(self).path_view(),
            match request_problem(req) {
                Some(m) => r matches Err(CoreError::Validation(msg)) && msg@ == m && final(self)@ == old(self)@,
                None => match position_of(old(self)@, id@) {
                    Some(i) => r matches Ok(e) && final(self)@ == old(self)@.update(i, e)
                        && updated_from(e, old(self)@[i], req)
                        && e.name == req.name
                        && e.source_address == req.source_address && e.source_port == req.source_port
                        && e.target_address == req.target_address && e.target_port == req.target_port
                        && e.enabled == req.enabled,
                    None => r matches Err(CoreError::NotFound(x)) && x@ == id@ && final(self)@ == old(self)@,
                },
            },
    {
        match validate_entry_request(&req) {
            Err(e) => return Err(e),
            Ok(()) => {},
        }
        match self.position(id) {
            None => Err(CoreError::NotFound(String::from_str(id))),
            Some(i) => {
                let old_entry = self.data.entries[i].duplicate();
                let entry = ForwardingEntry {
                    id: old_entry.id,
                    name: req.name,
                    source_address: req.source_address,
                    source_port: req.source_port,
                    target_address: req.target_address,
                    target_port: req.target_port,
                    enabled: req.enabled,
                    log_directory: old_entry.log_directory,
                    created_at: old_entry.created_at,
                    updated_at: now(),
                };
                let e = entry.duplicate();
                self.data.entries.set(i, entry);
                Ok(e)
            },
        }
    }

    /// Updates the fields of an entry that `updates` names and keeps the others, with
    /// the checks and effects of `update_entry`; `NotFound` when there is no such entry.
    pub fn update_entry_partial(&mut self, id: &str, updates: PartialUpdate) -> (r: Result<ForwardingEntry, CoreError>)
        ensures
            final(self).path_view() == old(self).path_view(),
            match position_of(old(self)@, id@) {
                None => r matches Err(CoreError::NotFound(x)) && x@ == id@ && final(self)@ == old(self)@,
                Some(i) => {
                    let req = merged_request(old(self)@[i], updates);
                    match request_problem(req) {
                        Some(m) => r matches Err(CoreError::Validation(msg)) && msg@ == m && final(self)@ == old(self)@,
                        None => r matches Ok(e) && final(self)@ == old(self)@.update(i, e)
                            && updated_from(e, old(self)@[i], req)
                            && e.name == (match updates.name { Some(n) => n, None => old(self)@[i].name })
                            && e.source_address == old(self)@[i].source_address
                            && e.source_port == (match updates.source_port { Some(p) => p, None => old(self)@[i].source_port })
                            && e.target_address == (match updates.target_address { Some(a) => a, None => old(self)@[i].target_address })
                            && e.target_port == (match updates.target_port { Some(p) => p, None => old(self)@[i].target_port })
                            && e.enabled == (match updates.enabled { Some(b) => b, None => old(self)@[i].enabled }),
                    }
                },
            },
    {
        let current = match self.find_entry(id) {
            None => return Err(CoreError::NotFound(String::from_str(id))),
            Some(e) => e.duplicate(),
        };
        let req = EntryRequest {
            name: match updates.name {
                Some(n) => n,
                None => current.name,
            },
            source_address: current.source_address,
            source_port: match updates.source_port {
                Some(p) => p,
                None => current.source_port,
            },
            target_address: match updates.target_address {
                Some(a) => a,
                None => current.target_address,
            },
            target_port: match updates.target_port {
                Some(p) => p,
                None => current.target_port,
            },
            enabled: match updates.enabled {
                Some(b) => b,
                None => current.enabled,
            },
        };
        self.update_entry(id, req)
    }

    /// Removes the first entry with the given id and returns it.
    pub fn remove_entry(&mut self, id: &str) -> (r: Result<ForwardingEntry, CoreError>)
        ensures
            final(self).path_view() == old(self).path_view(),
            match position_of(old(self)@, id@) {
                Some(i) => r matches Ok(e) && e == old(self)@[i] && final(self)@ == old(self)@.remove(i),
                None => r matches Err(CoreError::NotFound(x)) && x@ == id@ && final(self)@ == old(self)@,
            },
    {
        match self.position(id) {
            None => Err(CoreError::NotFound(String::from_str(id))),
            Some(i) => Ok(self.data.entries.remove(i)),
        }
    }
}


/// The text of a log line without its line break: the message's time, its level,
/// and the encoded event with its surrounding quotes removed.
pub open spec fn server_line_text(ts: Timestamp, level: LogLevel, event_json: Seq<char>) -> Seq<char> {
    millis_text(ts) + " ["@ + level_text(level) + "] "@ + strip_trailing(strip_leading(event_json, '"'), '"')
}

/// The text of a log line without its line break. `event_json` is the event as
/// JSON; the quotes around it (all of them, when there are several) are dropped.
pub fn format_log_line(msg: &LogMessage, event_json: &str) -> (line: String)
    ensures
        line@ == server_line_text(msg.timestamp, msg.level, event_json@),
{
    let mut line = format_millis(msg.timestamp);
    line.append(" [");
    line.append(msg.level.as_str());
    line.append("] ");
    let event = trim_chars(event_json, '"', '"');
    line.append(event.as_str());
    line
}

/// A line of `n` bytes written to a current file of `size` bytes starts a new file
/// first when it would pass the segment size, even when the current file is empty.
pub open spec fn server_should_rotate(size: int, n: int) -> bool {
    size + n > MAX_SEGMENT_BYTES
}

/// The server starts a new file exactly when the line would take the current file
/// past the segment size.
pub proof fn law_server_rotates_when_full(size: int, n: int)
    ensures
        size + n <= MAX_SEGMENT_BYTES ==> !server_should_rotate(size, n),
        size + n > MAX_SEGMENT_BYTES ==> server_should_rotate(size, n),
{
}

/// The size of the current file after a line of `n` bytes and its line break are
/// written: the line and its break, after whatever the file held unless it rotated.
pub open spec fn server_size_after(size: int, n: int) -> int {
    (if server_should_rotate(size, n) { 0 } else { size }) + n + 1
}

/// What writing one line asks of the files: start a new current file first when
/// `rotate` holds, then append `line`, which ends with a line break and is `bytes`
/// bytes long.
pub struct LogWrite {
    pub rotate: bool,
    pub line: String,
    pub bytes: u64,
}

/// The server's logger of one entry: keeps the size of the current log file and
/// decides when the files rotate. The caller writes the files and reports back each
/// rotation and each line written.
pub struct EntryLogger {
    entry_id: String,
    dir: String,
    current_size: u64,
}

impl EntryLogger {
    /// The size of the current log file in bytes.
    pub closed spec fn size_view(&self) -> nat {
        self.current_size as nat
    }

    /// The directory of the log files.
    pub closed spec fn dir_view(&self) -> Seq<char> {
        self.dir@
    }

    /// The entry whose logs these are.
    pub closed spec fn entry_view(&self) -> Seq<char> {
        self.entry_id@
    }

    /// A logger for the files in `dir`, whose current file holds `current_size` bytes.
    pub fn new(dir: String, entry_id: String, current_size: u64) -> (l: Self)
        ensures
            l.dir_view() == dir@,
            l.entry_view() == entry_id@,
            l.size_view() == current_size,
    {
        EntryLogger { entry_id, dir, current_size }
    }

    /// The directory of the log files.
    pub fn dir(&self) -> (d: &str)
        ensures
            d@ == self.dir_view(),
    {
        self.dir.as_str()
    }

    /// The size of the current log file in bytes.
    pub fn current_size(&self) -> (n: u64)
        ensures
            n == self.size_view(),
    {
        self.current_size
    }

    /// What writing one line (without its line break) asks of the files: whether
    /// they rotate first, judged by the size of the current file and the line's
    /// length, and the line with its break.
    pub fn plan_line(&self, line: String) -> (w: LogWrite)
        ensures
            w.line@ == line@ + "\n"@,
            w.bytes == utf8_len(w.line@),
            w.rotate == server_should_rotate(self.size_view() as int, utf8_len(line@) as int),
    {
        let n: u64 = line.as_str().len() as u64;
        let rotate = n > MAX_SEGMENT_BYTES || self.current_size > MAX_SEGMENT_BYTES - n;
        let mut full = line;
        full.append("\n");
        let bytes: u64 = full.as_str().len() as u64;
        LogWrite { rotate, line: full, bytes }
    }

    /// Records that the files were rotated: the new current file is empty.
    pub fn record_rotation(&mut self)
        ensures
            final(self).size_view() == 0,
            final(self).dir_view() == old(self).dir_view(),
            final(self).entry_view() == old(self).entry_view(),
    {
        self.current_size = 0;
    }

    /// Records that a line of `bytes` bytes, its break included, was written.
    pub fn record_written(&mut self, bytes: u64)
        requires
            old(self).size_view() + bytes <= u64::MAX,
        ensures
            final(self).size_view() == old(self).size_view() + bytes,
            final(self).dir_view() == old(self).dir_view(),
            final(self).entry_view() == old(self).entry_view(),
    {
        self.current_size = self.current_size + bytes;
    }

    /// The write of the line for a log message; `event_json` is its event as JSON.
    /// See `record_rotation` and `record_written`.
    pub fn write(&self, msg: &LogMessage, event_json: &str) -> (w: LogWrite)
        ensures
            w.line@ == server_line_text(msg.timestamp, msg.level, event_json@) + "\n"@,
            w.bytes == utf8_len(w.line@),
            w.rotate == server_should_rotate(self.size_view() as int, utf8_len(server_line_text(msg.timestamp, msg.level, event_json@)) as int),
    {
        let line = format_log_line(msg, event_json);
        self.plan_line(line)
    }
}

proof fn lemma_encode_utf8_concat(a: Seq<char>, b: Seq<char>)
    ensures
        encode_utf8(a + b) == encode_utf8(a) + encode_utf8(b),
    decreases a.len(),
{
    if a.len() == 0 {
        assert(a + b =~= b);
        assert(encode_utf8(a) =~= Seq::<u8>::empty());
        assert(encode_utf8(a) + encode_utf8(b) =~= encode_utf8(b));
    } else {
        lemma_encode_utf8_concat(a.drop_first(), b);
        assert((a + b).drop_first() =~= a.drop_first() + b);
        assert((a + b)[0] == a[0]);
    }
}

/// The size of the current file after a write, counted as the caller reports it:
/// zero after a rotation, then the line and its break added.
pub proof fn law_server_recorded_size(size: int, line: Seq<char>)
    requires
        encode_utf8(line + "\n"@).len() <= usize::MAX,
    ensures
        (if server_should_rotate(size, utf8_len(line) as int) { 0 } else { size }) + utf8_len(line + "\n"@)
            == server_size_after(size, utf8_len(line) as int),
{
    reveal_strlit("\n");
    lemma_encode_utf8_concat(line, "\n"@);
    assert(encode_utf8("\n"@).len() == 1) by {
        let nl = "\n"@;
        assert(nl.len() == 1 && nl[0] == '\n');
        assert(nl.drop_first() =~= Seq::<char>::empty());
        assert(encode_utf8(nl.drop_first()) =~= Seq::<u8>::empty());
        assert(('\n' as u32) == 10);
        assert(vstd::utf8::encode_scalar(10).len() == 1);
    }
}

/// The first three space-separated parts of a line, the third holding the rest, as
/// `splitn(3, ' ')` gives them when there are three.
pub open spec fn split3(l: Seq<char>) -> Option<(Seq<char>, Seq<char>, Seq<char>)> {
    match first_occurrence(l, " "@) {
        None => None,
        Some(i) => {
            let r = l.skip(i + 1);
            match first_occurrence(r, " "@) {
                None => None,
                Some(j) => Some((l.take(i), r.take(j), r.skip(j + 1))),
            }
        },
    }
}

/// The parts of a line as the server reads it: timestamp, level without its
/// brackets, and message; a line with fewer than three parts is an `info` message
/// without timestamp.
pub open spec fn server_parsed(l: Seq<char>) -> (Seq<char>, Seq<char>, Seq<char>) {
    match split3(l) {
        Some(p) => (p.0, strip_trailing(strip_leading(p.1, '['), ']'), p.2),
        None => (Seq::empty(), "info"@, l),
    }
}

/// The parts of a log line as a triple.
pub open spec fn server_line_view(l: LogLine) -> (Seq<char>, Seq<char>, Seq<char>) {
    (l.timestamp@, l.level@, l.message@)
}

/// Reads a log line of the form `<timestamp> [<level>] <message>`.
pub fn parse_log_line(line: &str) -> (r: LogLine)
    ensures
        server_line_view(r) == server_parsed(line@),
{
    proof {
        reveal_strlit(" ");
    }
    let v = chars_of(line);
    let space = chars_of(" ");
    match find_first(&v, &space) {
        Some(i) => {
            proof {
                crate::text::lemma_first_occurrence_in_bounds(v@, space@);
                assert(space@.len() == 1);
                assert(crate::text::occurs_at(v@, space@, i as int));
                assert(i + 1 <= v.len());
            }
            let r = string_from_chars(&v, i + 1, v.len());
            let rv = chars_of(r.as_str());
            match find_first(&rv, &space) {
                Some(j) => {
                    proof {
                        crate::text::lemma_first_occurrence_in_bounds(rv@, space@);
                    }
                    let timestamp = string_from_chars(&v, 0, i);
                    let raw_level = string_from_chars(&rv, 0, j);
                    let level = trim_chars(raw_level.as_str(), '[', ']');
                    let message = string_from_chars(&rv, j + 1, rv.len());
                    assert(timestamp@ =~= line@.take(i as int));
                    assert(raw_level@ =~= rv@.take(j as int));
                    assert(message@ =~= rv@.skip(j + 1));
                    return LogLine { timestamp, level, message };
                },
                None => {},
            }
        },
        None => {},
    }
    LogLine { timestamp: String::new(), level: String::from_str("info"), message: String::from_str(line) }
}

/// The lines of the files, file after file, each read as the server reads it.
pub open spec fn server_parsed_files(files: Seq<Seq<String>>) -> Seq<(Seq<char>, Seq<char>, Seq<char>)>
    decreases files.len(),
{
    if files.len() == 0 {
        Seq::empty()
    } else {
        server_parsed_files(files.drop_last()) + views(files.last()).map_values(|l: Seq<char>| server_parsed(l))
    }
}

/// A partial update sets each field it names and keeps every other field of the
/// entry; the listen address is never changed by it.
pub proof fn law_partial_update_sets_named_fields(e: ForwardingEntry, u: PartialUpdate)
    ensures
        u.name matches Some(n) ==> merged_request(e, u).name == n,
        u.name is None ==> merged_request(e, u).name == e.name,
        merged_request(e, u).source_address == e.source_address,
        u.source_port matches Some(p) ==> merged_request(e, u).source_port == p,
        u.source_port is None ==> merged_request(e, u).source_port == e.source_port,
        u.target_address matches Some(a) ==> merged_request(e, u).target_address == a,
        u.target_address is None ==> merged_request(e, u).target_address == e.target_address,
        u.target_port matches Some(p) ==> merged_request(e, u).target_port == p,
        u.target_port is None ==> merged_request(e, u).target_port == e.target_port,
        u.enabled matches Some(b) ==> merged_request(e, u).enabled == b,
        u.enabled is None ==> merged_request(e, u).enabled == e.enabled,
{
}

/// The page that the server answers: the lines newest first, `offset` clamped to the
/// number of lines and at most `limit` lines.
pub open spec fn server_page(all: Seq<(Seq<char>, Seq<char>, Seq<char>)>, offset: int, limit: int) -> (Seq<(Seq<char>, Seq<char>, Seq<char>)>, int, int) {
    let lines = all.reverse();
    let off = if offset < lines.len() { offset } else { lines.len() as int };
    let lim = if limit < lines.len() - off { limit } else { lines.len() - off };
    (lines.subrange(off, off + lim), off, lim)
}

/// The server's page lists the lines newest first: it skips `offset` of them
/// (clamped to their number) and takes at most `limit`, and its line `k` is line
/// `len - 1 - (offset + k)` of the lines in file order.
pub proof fn law_server_page_newest_first(all: Seq<(Seq<char>, Seq<char>, Seq<char>)>, offset: int, limit: int)
    requires
        0 <= offset,
        0 <= limit,
    ensures
        server_page(all, offset, limit).1 == if offset < all.len() { offset } else { all.len() as int },
        server_page(all, offset, limit).0.len() == server_page(all, offset, limit).2,
        server_page(all, offset, limit).2 == if offset >= all.len() {
            0
        } else if limit <= all.len() - offset {
            limit
        } else {
            all.len() - offset
        },
        forall|k: int| 0 <= k < server_page(all, offset, limit).0.len()
            ==> #[trigger] server_page(all, offset, limit).0[k] == all[all.len() - 1 - (offset + k)],
{
}

impl EntryLogger {
    /// A page of the log. `files` holds the lines of the existing files in the order
    /// the server reads them: the current file, then segments 1 to 5. All lines are
    /// reversed, then `offset` (clamped to the number of lines) are skipped and at most
    /// `limit` taken.
    pub fn read_logs(&self, files: &Vec<Vec<String>>, offset: usize, limit: usize) -> (r: LogResponse)
        ensures
            r.total == server_parsed_files(files@.map_values(|f: Vec<String>| f@)).len(),
            r.lines@.map_values(|l: LogLine| server_line_view(l)) == server_page(
                server_parsed_files(files@.map_values(|f: Vec<String>| f@)),
                offset as int,
                limit as int,
            ).0,
            r.offset == server_page(server_parsed_files(files@.map_values(|f: Vec<String>| f@)), offset as int, limit as int).1,
            r.limit == server_page(server_parsed_files(files@.map_values(|f: Vec<String>| f@)), offset as int, limit as int).2,
    {
        let ghost fs = files@.map_values(|f: Vec<String>| f@);
        let mut all: Vec<LogLine> = Vec::new();
        let mut f: usize = 0;
        while f < files.len()
            invariant
                f <= files.len(),
                fs == files@.map_values(|f: Vec<String>| f@),
                all@.map_values(|l: LogLine| server_line_view(l)) == server_parsed_files(fs.take(f as int)),
            decreases files.len() - f,
        {
            let file = &files[f];
            assert(fs.take(f + 1).drop_last() =~= fs.take(f as int));
            assert(fs.take(f + 1).last() == file@);
            let ghost start = all@.map_values(|l: LogLine| server_line_view(l));
            let mut i: usize = 0;
            while i < file.len()
                invariant
                    i <= file.len(),
                    all@.map_values(|l: LogLine| server_line_view(l)) == start + views(file@.take(i as int)).map_values(
                        |l: Seq<char>| server_parsed(l),
                    ),
                decreases file.len() - i,
            {
                let ghost before = all@;
                let l = parse_log_line(file[i].as_str());
                all.push(l);
                assert(views(file@.take(i + 1)).map_values(|l: Seq<char>| server_parsed(l)) =~= views(file@.take(i as int)).map_values(
                    |l: Seq<char>| server_parsed(l),
                ).push(server_parsed(file@[i as int]@)));
                assert(all@.map_values(|l: LogLine| server_line_view(l)) =~= before.map_values(|l: LogLine| server_line_view(l)).push(
                    server_line_view(all@.last()),
                ));
                i = i + 1;
            }
            assert(file@.take(file.len() as int) =~= file@);
            f = f + 1;
        }
        assert(fs.take(files.len() as int) =~= fs);
        let ghost all_views = all@.map_values(|l: LogLine| server_line_view(l));
        let total = all.len();
        let off: usize = if offset < total { offset } else { total };
        let lim: usize = if limit < total - off { limit } else { total - off };
        let mut lines: Vec<LogLine> = Vec::new();
        let mut k: usize = 0;
        while k < lim
            invariant
                k <= lim,
                off + lim <= total == all.len(),
                all_views == all@.map_values(|l: LogLine| server_line_view(l)),
                lines@.map_values(|l: LogLine| server_line_view(l)) == all_views.reverse().subrange(off as int, off + k),
            decreases lim - k,
        {
            let ghost before = lines@;
            let idx = total - 1 - (off + k);
            lines.push(LogLine {
                timestamp: all[idx].timestamp.clone(),
                level: all[idx].level.clone(),
                message: all[idx].message.clone(),
            });
            assert(lines@.map_values(|l: LogLine| server_line_view(l)) =~= before.map_values(|l: LogLine| server_line_view(l)).push(
                all_views[idx as int],
            ));
            assert(all_views.reverse().subrange(off as int, off + k + 1) =~= all_views.reverse().subrange(off as int, off + k).push(
                all_views[idx as int],
            ));
            k = k + 1;
        }
        LogResponse { lines, total, offset: off, limit: lim }
    }
}


/// A written line is read back as written: the server reads the timestamp, the level
/// and the message out of `<ts> [<level>] <msg>` unchanged, when the timestamp and
/// the level hold no space and the level neither starts with `[` nor ends with `]`.
pub proof fn law_server_read_back(ts: Seq<char>, level: Seq<char>, msg: Seq<char>)
    requires
        !ts.contains(' '),
        !level.contains(' '),
        !(level.len() > 0 && level[0] == '['),
        !(level.len() > 0 && level.last() == ']'),
    ensures
        server_parsed(ts + " ["@ + level + "] "@ + msg) == (ts, level, msg),
{
    reveal_strlit(" [");
    reveal_strlit("] ");
    reveal_strlit(" ");
    let l = ts + " ["@ + level + "] "@ + msg;
    let n = ts.len() as int;
    let lb = seq!['['] + level + seq![']'];
    assert(l =~= ts + (seq![' '] + (lb + (seq![' '] + msg))));
    assert(crate::text::occurs_at(l, " "@, n)) by {
        assert(l.subrange(n, n + 1) =~= " "@);
    }
    assert forall|k: int| 0 <= k < n implies !crate::text::occurs_at(l, " "@, k) by {
        if crate::text::occurs_at(l, " "@, k) {
            assert(l.subrange(k, k + 1)[0] == ' ');
            assert(l[k] == ts[k]);
            assert(ts.contains(' '));
        }
    }
    crate::text::lemma_first_occurrence_is(l, " "@, n);
    let r = l.skip(n + 1);
    assert(r =~= lb + (seq![' '] + msg));
    let m = lb.len() as int;
    assert(crate::text::occurs_at(r, " "@, m)) by {
        assert(r.subrange(m, m + 1) =~= " "@);
    }
    assert forall|k: int| 0 <= k < m implies !crate::text::occurs_at(r, " "@, k) by {
        if crate::text::occurs_at(r, " "@, k) {
            assert(r.subrange(k, k + 1)[0] == ' ');
            assert(r[k] == lb[k]);
            if 0 < k && k < m - 1 {
                assert(lb[k] == level[k - 1]);
                assert(level.contains(' '));
            }
        }
    }
    crate::text::lemma_first_occurrence_is(r, " "@, m);
    assert(l.take(n) =~= ts);
    assert(r.take(m) =~= lb);
    assert(r.skip(m + 1) =~= msg);
    assert(lb.drop_first() =~= level + seq![']']);
    assert(strip_leading(level + seq![']'], '[') == level + seq![']']);
    assert((level + seq![']']).drop_last() =~= level);
    assert(strip_trailing(level, ']') == level);
}

/// Starting is idempotent: once an entry is confirmed started it is being forwarded,
/// so starting it again calls for nothing; once stopped it is not, so stopping it
/// again finds nothing to stop.
pub proof fn law_start_stop_idempotent(running: Seq<Seq<char>>, id: Seq<char>)
    ensures
        running.push(id).contains(id),
{
    assert(running.push(id)[running.len() as int] == id);
}

/// The message of the validation error that refuses a start, given whether the
/// listen and the target address were read, the listen address first.
pub open spec fn start_address_check(source_ok: bool, target_ok: bool) -> Option<Seq<char>> {
    if !source_ok {
        Some("无效的源地址"@)
    } else if !target_ok {
        Some("无效的目标地址"@)
    } else {
        None
    }
}

/// The validation error that refuses a start, given whether the listen and the
/// target address were read; `Ok` when both were.
pub fn check_start_addresses(source_ok: bool, target_ok: bool) -> (r: Result<(), CoreError>)
    ensures
        match start_address_check(source_ok, target_ok) {
            None => r is Ok,
            Some(m) => r matches Err(CoreError::Validation(x)) && x@ == m,
        },
{
    if !source_ok {
        Err(CoreError::Validation(String::from_str("无效的源地址")))
    } else if !target_ok {
        Err(CoreError::Validation(String::from_str("无效的目标地址")))
    } else {
        Ok(())
    }
}

/// What is needed to forward an entry: the entry and its `host:port` texts.
pub struct StartPlan {
    pub entry: ForwardingEntry,
    pub source: String,
    pub target: String,
}

/// What starting an entry calls for: nothing when it is already forwarded, else
/// starting it with the plan.
pub enum StartDecision {
    AlreadyRunning,
    Start(StartPlan),
}

/// The enabled entries, in order.
pub open spec fn enabled_only(s: Seq<ForwardingEntry>) -> Seq<ForwardingEntry>
    decreases s.len(),
{
    if s.len() == 0 {
        Seq::empty()
    } else if s.last().enabled {
        enabled_only(s.drop_last()).push(s.last())
    } else {
        enabled_only(s.drop_last())
    }
}

/// The entries started when the server comes up are exactly the enabled entries, in
/// their order: every candidate is enabled and one of the entries, and every enabled
/// entry is a candidate.
pub proof fn law_server_candidates_are_the_enabled_entries(s: Seq<ForwardingEntry>)
    ensures
        enabled_only(s) == s.filter(|x: ForwardingEntry| x.enabled),
        forall|k: int| 0 <= k < enabled_only(s).len() ==> (#[trigger] enabled_only(s)[k]).enabled && s.contains(enabled_only(s)[k]),
        forall|i: int| 0 <= i < s.len() && (#[trigger] s[i]).enabled ==> enabled_only(s).contains(s[i]),
    decreases s.len(),
{
    reveal(Seq::filter);
    if s.len() > 0 {
        let d = s.drop_last();
        law_server_candidates_are_the_enabled_entries(d);
        let r = enabled_only(s);
        let rd = enabled_only(d);
        assert forall|k: int| 0 <= k < r.len() implies (#[trigger] r[k]).enabled && s.contains(r[k]) by {
            if k < rd.len() {
                assert(r[k] == rd[k]);
                let j = choose|j: int| 0 <= j < d.len() && d[j] == rd[k];
                assert(s[j] == d[j]);
            } else {
                assert(r[k] == s[s.len() - 1]);
            }
        }
        assert forall|i: int| 0 <= i < s.len() && (#[trigger] s[i]).enabled implies r.contains(s[i]) by {
            if i < s.len() - 1 {
                assert(d[i] == s[i]);
                assert(rd.contains(d[i]));
                let k = choose|k: int| 0 <= k < rd.len() && rd[k] == d[i];
                if s.last().enabled {
                    assert(r[k] == rd[k]);
                }
            } else {
                assert(r[rd.len() as int] == s[i]);
            }
        }
    } else {
        assert(s.filter(|x: ForwardingEntry| x.enabled) =~= Seq::<ForwardingEntry>::empty());
    }
}


/// The server's entries and which of them are being forwarded. Deleting an entry
/// does not stop its forwarding.
pub struct ProxyManager {
    config: ConfigStore,
    running: Vec<String>,
}

impl ProxyManager {
    /// The entries, in order.
    pub closed spec fn entries_view(&self) -> Seq<ForwardingEntry> {
        self.config@
    }

    /// The ids being forwarded, in the order they were started.
    pub closed spec fn running_view(&self) -> Seq<Seq<char>> {
        views(self.running@)
    }

    /// No id is forwarded twice.
    pub open spec fn wf(&self) -> bool {
        self.running_view().no_duplicates()
    }

    /// A manager of the entries of `config`, none of them forwarded yet.
    pub fn new(config: ConfigStore) -> (m: Self)
        ensures
            m.entries_view() == config@,
            m.running_view() == Seq::<Seq<char>>::empty(),
            m.wf(),
    {
        let m = ProxyManager { config, running: Vec::new() };
        assert(m.running_view() =~= Seq::<Seq<char>>::empty());
        m
    }

    /// The store of the entries, for saving.
    pub fn config_store(&self) -> (c: &ConfigStore)
        ensures
            c@ == self.entries_view(),
    {
        &self.config
    }

    /// Whether the entry with this id is being forwarded.
    pub fn is_running(&self, id: &str) -> (r: bool)
        ensures
            r == self.running_view().contains(id@),
    {
        let mut i: usize = 0;
        while i < self.running.len()
            invariant
                i <= self.running.len(),
                forall|j: int| 0 <= j < i ==> self.running@[j]@ != id@,
            decreases self.running.len() - i,
        {
            if str_equal(self.running[i].as_str(), id) {
                assert(self.running_view()[i as int] == id@);
                return true;
            }
            i = i + 1;
        }
        assert forall|j: int| 0 <= j < self.running_view().len() implies self.running_view()[j] != id@ by {
            assert(self.running_view()[j] == self.running@[j]@);
        }
        false
    }

    /// All entries.
    pub fn list_entries(&self) -> (r: Vec<ForwardingEntry>)
        ensures
            r@ == self.entries_view(),
    {
        let entries = self.config.entries();
        let mut r: Vec<ForwardingEntry> = Vec::new();
        let mut i: usize = 0;
        while i < entries.len()
            invariant
                entries@ == self.entries_view(),
                i <= entries.len(),
                r@ == entries@.take(i as int),
            decreases entries.len() - i,
        {
            r.push(entries[i].duplicate());
            assert(entries@.take(i + 1) =~= entries@.take(i as int).push(entries@[i as int]));
            i = i + 1;
        }
        assert(entries@.take(i as int) =~= entries@);
        r
    }

    /// Every entry with whether it is being forwarded, in order.
    pub fn entries_with_running(&self) -> (r: Vec<(ForwardingEntry, bool)>)
        ensures
            r.len() == self.entries_view().len(),
            forall|k: int| 0 <= k < r.len() ==> (#[trigger] r@[k]).0 == self.entries_view()[k]
                && r@[k].1 == self.running_view().contains(self.entries_view()[k].id@),
    {
        let entries = self.config.entries();
        let mut r: Vec<(ForwardingEntry, bool)> = Vec::new();
        let mut i: usize = 0;
        while i < entries.len()
            invariant
                entries@ == self.entries_view(),
                i <= entries.len(),
                r.len() == i,
                forall|k: int| 0 <= k < i ==> (#[trigger] r@[k]).0 == entries@[k]
                    && r@[k].1 == self.running_view().contains(entries@[k].id@),
            decreases entries.len() - i,
        {
            let running = self.is_running(entries[i].id.as_str());
            r.push((entries[i].duplicate(), running));
            i = i + 1;
        }
        r
    }

    /// The first entry with the given id, if any.
    pub fn get_entry(&self, id: &str) -> (r: Option<ForwardingEntry>)
        ensures
            match position_of(self.entries_view(), id@) {
                Some(i) => r == Some(self.entries_view()[i]),
                None => r is None,
            },
    {
        match self.config.find_entry(id) {
            Some(e) => Some(e.duplicate()),
            None => None,
        }
    }

    /// Adds an entry made from a valid request.
    pub fn create_entry(&mut self, req: EntryRequest) -> (r: Result<ForwardingEntry, CoreError>)
        requires
            old(self).wf(),
        ensures
            final(self).wf(),
            final(self).running_view() == old(self).running_view(),
            match request_problem(req) {
                Some(m) => r matches Err(CoreError::Validation(msg)) && msg@ == m
                    && final(self).entries_view() == old(self).entries_view(),
                None => r matches Ok(e) && final(self).entries_view() == old(self).entries_view().push(e)
                    && created_from(e, req),
            },
    {
        self.config.add_entry(req)
    }

    /// Updates an entry from a valid request; forwarding is left as it is.
    pub fn update_entry(&mut self, id: &str, req: EntryRequest) -> (r: Result<ForwardingEntry, CoreError>)
        requires
            old(self).wf(),
        ensures
            final(self).wf(),
            final(self).running_view() == old(self).running_view(),
            match request_problem(req) {
                Some(m) => r matches Err(CoreError::Validation(msg)) && msg@ == m
                    && final(self).entries_view() == old(self).entries_view(),
                None => match position_of(old(self).entries_view(), id@) {
                    Some(i) => r matches Ok(e) && final(self).entries_view() == old(self).entries_view().update(i, e)
                        && updated_from(e, old(self).entries_view()[i], req)
                        && e.name == req.name
                        && e.source_address == req.source_address && e.source_port == req.source_port
                        && e.target_address == req.target_address && e.target_port == req.target_port
                        && e.enabled == req.enabled,
                    None => r matches Err(CoreError::NotFound(x)) && x@ == id@
                        && final(self).entries_view() == old(self).entries_view(),
                },
            },
    {
        self.config.update_entry(id, req)
    }

    /// Removes an entry; forwarding of it, if any, goes on.
    pub fn delete_entry(&mut self, id: &str) -> (r: Result<ForwardingEntry, CoreError>)
        requires
            old(self).wf(),
        ensures
            final(self).wf(),
            final(self).running_view() == old(self).running_view(),
            match position_of(old(self).entries_view(), id@) {
                Some(i) => r matches Ok(e) && e == old(self).entries_view()[i]
                    && final(self).entries_view() == old(self).entries_view().remove(i),
                None => r matches Err(CoreError::NotFound(x)) && x@ == id@
                    && final(self).entries_view() == old(self).entries_view(),
            },
    {
        self.config.remove_entry(id)
    }

    /// Starts an entry: nothing to do when it is already forwarded, `NotFound` when
    /// there is no such entry, `Validation` when its listen or target `host:port`
    /// text is not a socket address (`source_ok` and `target_ok` say whether the
    /// texts that `address_with_port` makes of the entry were read as one), otherwise
    /// the entry is recorded as forwarded and returned with those texts, for the
    /// caller to start its listener and logger. Only that last case changes anything.
    pub fn start_entry(&mut self, id: &str, source_ok: bool, target_ok: bool) -> (r: Result<StartDecision, CoreError>)
        requires
            old(self).wf(),
        ensures
            final(self).wf(),
            final(self).entries_view() == old(self).entries_view(),
            old(self).running_view().contains(id@) ==> r matches Ok(StartDecision::AlreadyRunning),
            !old(self).running_view().contains(id@) ==> match position_of(old(self).entries_view(), id@) {
                None => r matches Err(CoreError::NotFound(x)) && x@ == id@,
                Some(i) => match start_address_check(source_ok, target_ok) {
                    Some(m) => r matches Err(CoreError::Validation(x)) && x@ == m,
                    None => r matches Ok(StartDecision::Start(plan)) && plan.entry == old(self).entries_view()[i]
                        && plan.source@ == address_text(plan.entry.source_address@, plan.entry.source_port)
                        && plan.target@ == address_text(plan.entry.target_address@, plan.entry.target_port),
                },
            },
            r matches Ok(StartDecision::Start(_)) ==> final(self).running_view() == old(self).running_view().push(id@),
            !(r matches Ok(StartDecision::Start(_))) ==> final(self).running_view() == old(self).running_view(),
    {
        if self.is_running(id) {
            return Ok(StartDecision::AlreadyRunning);
        }
        let entry = match self.config.find_entry(id) {
            None => {
                return Err(CoreError::NotFound(String::from_str(id)));
            },
            Some(e) => e.duplicate(),
        };
        if let Err(e) = check_start_addresses(source_ok, target_ok) {
            return Err(e);
        }
        let source = address_with_port(entry.source_address.as_str(), entry.source_port);
        let target = address_with_port(entry.target_address.as_str(), entry.target_port);
        let ghost before = self.running_view();
        self.running.push(String::from_str(id));
        proof {
            let r = self.running_view();
            assert(r =~= before.push(id@));
            assert forall|a: int, b: int| 0 <= a < b < r.len() implies r[a] != r[b] by {
                if b == r.len() - 1 {
                    assert(before.contains(r[a]) || a == b);
                } else {
                    assert(r[a] == before[a] && r[b] == before[b]);
                }
            }
        }
        Ok(StartDecision::Start(StartPlan { entry, source, target }))
    }

    /// Stops forwarding an entry; the status is stopped either way, and whether it
    /// was being forwarded is returned beside it.
    pub fn stop_entry(&mut self, id: &str) -> (r: (EntryStatus, bool))
        requires
            old(self).wf(),
        ensures
            final(self).wf(),
            r.0 == EntryStatus::Stopped,
            r.1 == old(self).running_view().contains(id@),
            !final(self).running_view().contains(id@),
            forall|x: Seq<char>| #[trigger] final(self).running_view().contains(x) <==> (old(self).running_view().contains(x) && x != id@),
            final(self).entries_view() == old(self).entries_view(),
    {
        let mut i: usize = 0;
        while i < self.running.len()
            invariant
                i <= self.running.len(),
                self.running@ == old(self).running@,
                self.config == old(self).config,
                old(self).wf(),
                forall|j: int| 0 <= j < i ==> self.running@[j]@ != id@,
            decreases self.running.len() - i,
        {
            if str_equal(self.running[i].as_str(), id) {
                let ghost before = self.running_view();
                self.running.remove(i);
                proof {
                    let after = self.running_view();
                    assert(before[i as int] == id@);
                    assert(before == old(self).running_view());
                    assert(old(self).running_view().contains(id@));
                    assert(after =~= before.remove(i as int));
                    assert forall|x: Seq<char>| #[trigger] after.contains(x) <==> (before.contains(x) && x != id@) by {
                        if after.contains(x) {
                            let k = choose|k: int| 0 <= k < after.len() && after[k] == x;
                            if k < i {
                                assert(before[k] == x);
                            } else {
                                assert(before[k + 1] == x);
                            }
                            assert(before[i as int] == id@);
                        }
                        if before.contains(x) && x != id@ {
                            let k = choose|k: int| 0 <= k < before.len() && before[k] == x;
                            if k < i {
                                assert(after[k] == x);
                            } else {
                                assert(k != i);
                                assert(after[k - 1] == x);
                            }
                        }
                    }
                    assert forall|a: int, b: int| 0 <= a < b < after.len() implies after[a] != after[b] by {
                        let a2 = if a < i { a } else { a + 1 };
                        let b2 = if b < i { b } else { b + 1 };
                        assert(after[a] == before[a2] && after[b] == before[b2]);
                    }
                }
                return (EntryStatus::Stopped, true);
            }
            i = i + 1;
        }
        proof {
            let rv = self.running_view();
            assert forall|j: int| 0 <= j < rv.len() implies rv[j] != id@ by {
                assert(rv[j] == self.running@[j]@);
            }
        }
        (EntryStatus::Stopped, false)
    }

    /// The status of an entry: `NotFound` for an unknown id, else running or stopped.
    pub fn get_status(&self, id: &str) -> (r: Result<EntryStatus, CoreError>)
        ensures
            match position_of(self.entries_view(), id@) {
                None => r matches Err(CoreError::NotFound(x)) && x@ == id@,
                Some(_) => r == Ok::<EntryStatus, CoreError>(
                    if self.running_view().contains(id@) { EntryStatus::Running } else { EntryStatus::Stopped },
                ),
            },
    {
        match self.config.find_entry(id) {
            None => Err(CoreError::NotFound(String::from_str(id))),
            Some(_) => {
                if self.is_running(id) {
                    Ok(EntryStatus::Running)
                } else {
                    Ok(EntryStatus::Stopped)
                }
            },
        }
    }

    /// The log directory of an entry, where its logs are read.
    pub fn log_directory_of(&self, id: &str) -> (r: Result<String, CoreError>)
        ensures
            match position_of(self.entries_view(), id@) {
                Some(i) => r matches Ok(d) && d == self.entries_view()[i].log_directory,
                None => r matches Err(CoreError::NotFound(x)) && x@ == id@,
            },
    {
        match self.config.find_entry(id) {
            Some(e) => Ok(e.log_directory.clone()),
            None => Err(CoreError::NotFound(String::from_str(id))),
        }
    }

    /// Stops forwarding every entry; the ids that were forwarded, in order.
    pub fn shutdown_all(&mut self) -> (ids: Vec<String>)
        requires
            old(self).wf(),
        ensures
            final(self).wf(),
            views(ids@) == old(self).running_view(),
            final(self).running_view() == Seq::<Seq<char>>::empty(),
            final(self).entries_view() == old(self).entries_view(),
    {
        let ids = self.running.clone();
        self.running = Vec::new();
        assert(self.running_view() =~= Seq::<Seq<char>>::empty());
        assert(views(ids@) =~= views(old(self).running@));
        ids
    }

    /// The enabled entries, in order: those started when the server comes up.
    pub fn auto_start_candidates(&self) -> (r: Vec<ForwardingEntry>)
        ensures
            r@ == enabled_only(self.entries_view()),
    {
        let entries = self.config.entries();
        let mut r: Vec<ForwardingEntry> = Vec::new();
        let mut i: usize = 0;
        while i < entries.len()
            invariant
                entries@ == self.entries_view(),
                i <= entries.len(),
                r@ == enabled_only(entries@.take(i as int)),
            decreases entries.len() - i,
        {
            assert(entries@.take(i + 1).drop_last() =~= entries@.take(i as int));
            if entries[i].enabled {
                r.push(entries[i].duplicate());
            }
            i = i + 1;
        }
        assert(entries@.take(i as int) =~= entries@);
        r
    }
}

} // verus!
