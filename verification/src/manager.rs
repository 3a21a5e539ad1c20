use vstd::prelude::*;
use crate::config::{
    created_from, has_id, ids_unique, lemma_position_props, position_of, updated_from, ConfigStore,
};
use crate::error::Error;
use crate::models::{EntryId, EntryRequest, EntryStatus, ForwardingEntry};
use crate::text::{decimal, u64_to_decimal};

verus! {

/// The `host:port` text of an address and a port.
pub open spec fn address_text(host: Seq<char>, port: u16) -> Seq<char> {
    host + ":"@ + decimal(port as nat)
}

/// The `host:port` text of an address and a port.
pub fn address_with_port(host: &str, port: u16) -> (s: String)
    ensures
        s@ == address_text(host@, port),
{
    let mut s = String::from_str(host);
    s.append(":");
    let p = u64_to_decimal(port as u64);
    s.append(p.as_str());
    s
}

/// The status of an entry given the entries and the ids being forwarded:
/// `NotFound` for an unknown id, else running or stopped.
pub open spec fn status_in(entries: Seq<ForwardingEntry>, running: Seq<EntryId>, id: EntryId) -> Result<EntryStatus, Error> {
    if position_of(entries, id) is None {
        Err(Error::NotFound(id))
    } else if running.contains(id) {
        Ok(EntryStatus::Running)
    } else {
        Ok(EntryStatus::Stopped)
    }
}

/// `s` without the occurrence of `id`, where `id` occurs at most once.
pub open spec fn without_id(s: Seq<EntryId>, id: EntryId) -> Seq<EntryId> {
    if s.contains(id) {
        s.remove(choose|k: int| 0 <= k < s.len() && s[k] == id)
    } else {
        s
    }
}

/// The enabled entries, in order.
pub open spec fn enabled_only(s: Seq<ForwardingEntry>) -> Seq<ForwardingEntry>
    decreases s.len(),
{
    if s.len() == 0 {
        Seq::empty()
    } else if s.last().enabled {
        enabled_only(s.drop_last()).push(s.last())
    } else {
        enabled_only(s.drop_last())
    }
}

/// The entries started automatically are exactly the enabled entries, in their
/// order: every candidate is enabled and one of the entries, and every enabled entry
/// is a candidate.
pub proof fn law_candidates_are_the_enabled_entries(s: Seq<ForwardingEntry>)
    ensures
        enabled_only(s) == s.filter(|x: ForwardingEntry| x.enabled),
        forall|k: int| 0 <= k < enabled_only(s).len() ==> (#[trigger] enabled_only(s)[k]).enabled && s.contains(enabled_only(s)[k]),
        forall|i: int| 0 <= i < s.len() && (#[trigger] s[i]).enabled ==> enabled_only(s).contains(s[i]),
    decreases s.len(),
{
    reveal(Seq::filter);
    if s.len() > 0 {
        let d = s.drop_last();
        law_candidates_are_the_enabled_entries(d);
        let r = enabled_only(s);
        let rd = enabled_only(d);
        assert forall|k: int| 0 <= k < r.len() implies (#[trigger] r[k]).enabled && s.contains(r[k]) by {
            if k < rd.len() {
                assert(r[k] == rd[k]);
                let j = choose|j: int| 0 <= j < d.len() && d[j] == rd[k];
                assert(s[j] == d[j]);
            } else {
                assert(r[k] == s[s.len() - 1]);
            }
        }
        assert forall|i: int| 0 <= i < s.len() && (#[trigger] s[i]).enabled implies r.contains(s[i]) by {
            if i < s.len() - 1 {
                assert(d[i] == s[i]);
                assert(rd.contains(d[i]));
                let k = choose|k: int| 0 <= k < rd.len() && rd[k] == d[i];
                if s.last().enabled {
                    assert(r[k] == rd[k]);
                }
            } else {
                assert(r[rd.len() as int] == s[i]);
            }
        }
    } else {
        assert(s.filter(|x: ForwardingEntry| x.enabled) =~= Seq::<ForwardingEntry>::empty());
    }
}

/// The status an entry shows on the dashboard: running or stopped.
pub open spec fn dashboard_status(running: Seq<EntryId>, id: EntryId) -> EntryStatus {
    if running.contains(id) {
        EntryStatus::Running
    } else {
        EntryStatus::Stopped
    }
}

/// Replacing an entry by one with the same id keeps every id present.
proof fn lemma_update_keeps_ids(s: Seq<ForwardingEntry>, i: int, e: ForwardingEntry, x: EntryId)
    requires
        0 <= i < s.len(),
        e.id == s[i].id,
        has_id(s, x),
    ensures
        has_id(s.update(i, e), x),
{
    let j = choose|j: int| 0 <= j < s.len() && s[j].id == x;
    assert(s.update(i, e)[j].id == x);
}

/// Removing the entry at `i` keeps every other id present.
proof fn lemma_remove_keeps_ids(s: Seq<ForwardingEntry>, i: int, x: EntryId)
    requires
        0 <= i < s.len(),
        s[i].id != x,
        has_id(s, x),
    ensures
        has_id(s.remove(i), x),
{
    let j = choose|j: int| 0 <= j < s.len() && s[j].id == x;
    if j < i {
        assert(s.remove(i)[j].id == x);
    } else {
        assert(j > i);
        assert(s.remove(i)[j - 1].id == x);
    }
}

/// Once forwarding of an existing entry is confirmed, its status is running, and its
/// status goes back to stopped once forwarding is stopped.
pub proof fn law_status_follows_start_and_stop(
    entries: Seq<ForwardingEntry>,
    running: Seq<EntryId>,
    id: EntryId,
)
    requires
        has_id(entries, id),
        running.no_duplicates(),
        !running.contains(id),
    ensures
        status_in(entries, running.push(id), id) == Ok::<EntryStatus, Error>(EntryStatus::Running),
        status_in(entries, without_id(running.push(id), id), id) == Ok::<EntryStatus, Error>(EntryStatus::Stopped),
        without_id(running.push(id), id) == running,
{
    lemma_position_props(entries, id);
    let r = running.push(id);
    assert(r[running.len() as int] == id);
    assert(r.contains(id));
    let w = choose|k: int| 0 <= k < r.len() && r[k] == id;
    assert(w == running.len()) by {
        if w < running.len() {
            assert(running[w] == id);
        }
    }
    assert(r.remove(w) =~= running);
}

/// Stopping everything leaves no entry running: every entry reports stopped and an
/// unknown id reports `NotFound`.
pub proof fn law_nothing_runs_after_shutdown(entries: Seq<ForwardingEntry>, id: EntryId)
    ensures
        status_in(entries, Seq::empty(), id) != Ok::<EntryStatus, Error>(EntryStatus::Running),
        has_id(entries, id) ==> status_in(entries, Seq::empty(), id) == Ok::<EntryStatus, Error>(EntryStatus::Stopped),
{
    lemma_position_props(entries, id);
}

/// The ids of entries, in order.
pub open spec fn ids_of(s: Seq<ForwardingEntry>) -> Seq<EntryId> {
    s.map_values(|e: ForwardingEntry| e.id)
}

proof fn lemma_enabled_ids(s: Seq<ForwardingEntry>, x: EntryId)
    ensures
        ids_of(enabled_only(s)).contains(x) <==> exists|i: int| 0 <= i < s.len() && #[trigger] s[i].id == x && s[i].enabled,
    decreases s.len(),
{
    if s.len() > 0 {
        let d = s.drop_last();
        lemma_enabled_ids(d, x);
        let e = enabled_only(d);
        if s.last().enabled {
            assert(ids_of(enabled_only(s)) =~= ids_of(e).push(s.last().id));
        }
        if exists|i: int| 0 <= i < s.len() && #[trigger] s[i].id == x && s[i].enabled {
            let i = choose|i: int| 0 <= i < s.len() && #[trigger] s[i].id == x && s[i].enabled;
            if i < s.len() - 1 {
                assert(d[i].id == x && d[i].enabled);
                let k = choose|k: int| 0 <= k < ids_of(e).len() && ids_of(e)[k] == x;
                if s.last().enabled {
                    assert(ids_of(enabled_only(s))[k] == x);
                }
            } else {
                assert(ids_of(enabled_only(s))[ids_of(e).len() as int] == x);
            }
        }
        if ids_of(enabled_only(s)).contains(x) {
            let k = choose|k: int| 0 <= k < ids_of(enabled_only(s)).len() && ids_of(enabled_only(s))[k] == x;
            if s.last().enabled && k == ids_of(e).len() {
                assert(s[s.len() - 1].id == x);
            } else {
                assert(ids_of(e)[k] == x);
                let i = choose|i: int| 0 <= i < d.len() && #[trigger] d[i].id == x && d[i].enabled;
                assert(s[i].id == x);
            }
        }
    }
}

proof fn lemma_enabled_ids_distinct(s: Seq<ForwardingEntry>)
    requires
        ids_unique(s),
    ensures
        ids_of(enabled_only(s)).no_duplicates(),
    decreases s.len(),
{
    if s.len() > 0 {
        let d = s.drop_last();
        assert(ids_unique(d));
        lemma_enabled_ids_distinct(d);
        if s.last().enabled {
            let e = ids_of(enabled_only(d));
            let r = ids_of(enabled_only(s));
            assert(r =~= e.push(s.last().id));
            lemma_enabled_ids(d, s.last().id);
            assert(!e.contains(s.last().id)) by {
                if e.contains(s.last().id) {
                    let i = choose|i: int| 0 <= i < d.len() && #[trigger] d[i].id == s.last().id && d[i].enabled;
                    assert(s[i].id == s[s.len() - 1].id);
                }
            }
            assert forall|a: int, b: int| 0 <= a < b < r.len() implies r[a] != r[b] by {
                if b == r.len() - 1 {
                    assert(e[a] == r[a]);
                } else {
                    assert(e[a] == r[a] && e[b] == r[b]);
                }
            }
        }
    }
}

/// Starting every auto-start candidate once, each start succeeding, leaves the
/// enabled entries running and the others stopped: the candidates' ids are distinct
/// entries' ids, so each start is allowed, and every entry then reports running
/// exactly when it is enabled. This holds where no two entries share an id.
pub proof fn law_auto_start_runs_enabled(entries: Seq<ForwardingEntry>, id: EntryId)
    requires
        ids_unique(entries),
    ensures
        ids_of(enabled_only(entries)).no_duplicates(),
        forall|k: int| 0 <= k < ids_of(enabled_only(entries)).len()
            ==> has_id(entries, #[trigger] ids_of(enabled_only(entries))[k]),
        status_in(entries, ids_of(enabled_only(entries)), id) == match position_of(entries, id) {
            None => Err::<EntryStatus, Error>(Error::NotFound(id)),
            Some(i) => Ok::<EntryStatus, Error>(if entries[i].enabled { EntryStatus::Running } else { EntryStatus::Stopped }),
        },
{
    lemma_enabled_ids_distinct(entries);
    let r = ids_of(enabled_only(entries));
    assert forall|k: int| 0 <= k < r.len() implies has_id(entries, #[trigger] r[k]) by {
        lemma_enabled_ids(entries, r[k]);
        assert(r.contains(r[k]));
    }
    lemma_position_props(entries, id);
    lemma_enabled_ids(entries, id);
    if position_of(entries, id) is Some {
        let i = position_of(entries, id).unwrap();
        if r.contains(id) {
            let j = choose|j: int| 0 <= j < entries.len() && #[trigger] entries[j].id == id && entries[j].enabled;
            assert(j == i);
        }
    }
}

/// `e` reports that entry `id` is already in the state named `word`.
pub open spec fn invalid_state(e: Error, id: EntryId, word: Seq<char>) -> bool {
    e matches Error::InvalidState { id: i, status } && i == id && status@ == word
}

/// The message of the validation error for the outcomes of reading the listen and
/// the target address, the listen address first; `Ok` when both were read.
pub open spec fn address_check(source: Result<(), String>, target: Result<(), String>) -> Result<(), Seq<char>> {
    match source {
        Err(m) => Err("无效的源地址: "@ + m@),
        Ok(_) => match target {
            Err(m) => Err("无效的目标地址: "@ + m@),
            Ok(_) => Ok(()),
        },
    }
}

/// A start is refused exactly when an address was not read, the listen address
/// first, with the reader's message after the address's name.
pub proof fn law_start_refused_for_unread_addresses(source: Result<(), String>, target: Result<(), String>)
    ensures
        address_check(source, target) is Ok <==> (source is Ok && target is Ok),
        source matches Err(m) ==> address_check(source, target) == Err::<(), Seq<char>>("无效的源地址: "@ + m@),
        source is Ok ==> (target matches Err(m)
            ==> address_check(source, target) == Err::<(), Seq<char>>("无效的目标地址: "@ + m@)),
{
}

/// Turns the outcomes of reading the listen and target addresses into the
/// validation error that refuses a start, or `Ok` when both were read.
pub fn check_addresses(source: Result<(), String>, target: Result<(), String>) -> (r: Result<(), Error>)
    ensures
        match address_check(source, target) {
            Ok(_) => r is Ok,
            Err(m) => r matches Err(Error::Validation(x)) && x@ == m,
        },
{
    match source {
        Err(m) => {
            let mut s = String::from_str("无效的源地址: ");
            s.append(m.as_str());
            Err(Error::Validation(s))
        },
        Ok(_) => match target {
            Err(m) => {
                let mut s = String::from_str("无效的目标地址: ");
                s.append(m.as_str());
                Err(Error::Validation(s))
            },
            Ok(_) => Ok(()),
        },
    }
}

/// What is needed to forward an entry: the entry and its listen and target addresses
/// as `host:port` text.
pub struct StartPlan {
    pub entry: ForwardingEntry,
    pub source: String,
    pub target: String,
}

/// What an update did besides changing the entry.
pub struct UpdateOutcome {
    /// The updated entry.
    pub entry: ForwardingEntry,
    /// Whether forwarding was stopped for the update.
    pub was_running: bool,
    /// Whether forwarding is to be started again, because the entry is enabled.
    pub restart: bool,
}

/// What a deletion did besides removing the entry.
pub struct DeleteOutcome {
    /// The removed entry.
    pub entry: ForwardingEntry,
    /// Whether forwarding was stopped for the deletion.
    pub was_running: bool,
    /// The log directory to remove, when the caller asked for it.
    pub remove_log_dir: Option<String>,
}

/// The entries and which of them are being forwarded. The caller holds the
/// listeners and loggers, keyed by the same ids, and does the I/O that the plans
/// and outcomes of these operations call for.
pub struct ForwardingManager {
    config_store: ConfigStore,
    running: Vec<EntryId>,
}

impl ForwardingManager {
    /// The entries, in order.
    pub closed spec fn entries_view(&self) -> Seq<ForwardingEntry> {
        self.config_store@
    }

    /// The ids being forwarded, in the order they were started.
    pub closed spec fn running_view(&self) -> Seq<EntryId> {
        self.running@
    }

    /// The path of the configuration file behind the entries.
    pub closed spec fn path_view(&self) -> Seq<char> {
        self.config_store.path_view()
    }

    /// Every id being forwarded is forwarded once and belongs to an entry.
    pub open spec fn wf(&self) -> bool {
        &&& self.running_view().no_duplicates()
        &&& forall|k: int| 0 <= k < self.running_view().len() ==> has_id(self.entries_view(), #[trigger] self.running_view()[k])
    }

    /// The status of an entry.
    pub open spec fn status_spec(&self, id: EntryId) -> Result<EntryStatus, Error> {
        status_in(self.entries_view(), self.running_view(), id)
    }

    /// A manager of the entries of `config_store`, none of them forwarded yet.
    pub fn new(config_store: ConfigStore) -> (m: Self)
        ensures
            m.entries_view() == config_store@,
            m.path_view() == config_store.path_view(),
            m.running_view() == Seq::<EntryId>::empty(),
            m.wf(),
    {
        ForwardingManager { config_store, running: Vec::new() }
    }

    /// The store of the entries, for saving.
    pub fn config_store(&self) -> (s: &ConfigStore)
        ensures
            s@ == self.entries_view(),
            s.path_view() == self.path_view(),
    {
        &self.config_store
    }

    /// Whether the entry with this id is being forwarded.
    pub fn is_running(&self, id: EntryId) -> (r: bool)
        ensures
            r == self.running_view().contains(id),
    {
        let mut i: usize = 0;
        while i < self.running.len()
            invariant
                i <= self.running.len(),
                forall|j: int| 0 <= j < i ==> self.running@[j] != id,
            decreases self.running.len() - i,
        {
            if self.running[i] == id {
                assert(self.running@[i as int] == id);
                return true;
            }
            i = i + 1;
        }
        false
    }

    /// Removes `id` from the ids being forwarded; whether it was there.
    fn forget_running(&mut self, id: EntryId) -> (was: bool)
        requires
            old(self).running_view().no_duplicates(),
        ensures
            was == old(self).running_view().contains(id),
            final(self).running_view() == without_id(old(self).running_view(), id),
            !final(self).running_view().contains(id),
            final(self).running_view().no_duplicates(),
            forall|x: EntryId| #[trigger] final(self).running_view().contains(x) <==> (old(self).running_view().contains(x) && x != id),
            final(self).config_store == old(self).config_store,
    {
        let mut i: usize = 0;
        while i < self.running.len()
            invariant
                i <= self.running.len(),
                self.running@ == old(self).running@,
                self.config_store == old(self).config_store,
                old(self).running@.no_duplicates(),
                forall|j: int| 0 <= j < i ==> self.running@[j] != id,
            decreases self.running.len() - i,
        {
            if self.running[i] == id {
                let ghost before = self.running@;
                self.running.remove(i);
                proof {
                    assert(before[i as int] == id);
                    let w = choose|k: int| 0 <= k < before.len() && before[k] == id;
                    assert(w == i);
                    assert(without_id(before, id) == before.remove(i as int));
                    assert forall|x: EntryId| #[trigger] self.running@.contains(x) <==> (before.contains(x) && x != id) by {
                        if self.running@.contains(x) {
                            let k = choose|k: int| 0 <= k < self.running@.len() && self.running@[k] == x;
                            if k < i {
                                assert(before[k] == x);
                            } else {
                                assert(before[k + 1] == x);
                            }
                        }
                        if before.contains(x) && x != id {
                            let k = choose|k: int| 0 <= k < before.len() && before[k] == x;
                            if k < i {
                                assert(self.running@[k] == x);
                            } else {
                                assert(self.running@[k - 1] == x);
                            }
                        }
                    }
                    assert(self.running@.no_duplicates()) by {
                        assert forall|a: int, b: int| 0 <= a < b < self.running@.len() implies self.running@[a] != self.running@[b] by {
                            let a2 = if a < i { a } else { a + 1 };
                            let b2 = if b < i { b } else { b + 1 };
                            assert(self.running@[a] == before[a2] && self.running@[b] == before[b2]);
                        }
                    }
                }
                return true;
            }
            i = i + 1;
        }
        assert(!self.running@.contains(id));
        false
    }

    /// All entries.
    pub fn list_entries(&self) -> (r: Vec<ForwardingEntry>)
        ensures
            r@ == self.entries_view(),
    {
        self.config_store.entries_cloned()
    }

    /// The first entry with the given id; `NotFound` when there is none.
    pub fn get_entry(&self, id: EntryId) -> (r: Result<ForwardingEntry, Error>)
        ensures
            match position_of(self.entries_view(), id) {
                Some(i) => r == Ok::<ForwardingEntry, Error>(self.entries_view()[i]),
                None => r == Err::<ForwardingEntry, Error>(Error::NotFound(id)),
            },
    {
        match self.config_store.find_entry(id) {
            Ok(e) => Ok(e.duplicate()),
            Err(e) => Err(e),
        }
    }

    /// Adds an entry made from `req`; it is not forwarded until started.
    pub fn create_entry(&mut self, req: EntryRequest) -> (e: ForwardingEntry)
        requires
            old(self).wf(),
        ensures
            final(self).wf(),
            final(self).entries_view() == old(self).entries_view().push(e),
            final(self).running_view() == old(self).running_view(),
            final(self).path_view() == old(self).path_view(),
            created_from(e, req, old(self).path_view()),
            (e.id >> 76u128) & 0xfu128 == 4,
            (e.id >> 62u128) & 0x3u128 == 2,
    {
        let ghost before = self.config_store@;
        let e = self.config_store.add_entry(req);
        proof {
            assert forall|k: int| 0 <= k < self.running@.len() implies has_id(self.config_store@, #[trigger] self.running@[k]) by {
                let x = self.running@[k];
                let j = choose|j: int| 0 <= j < before.len() && before[j].id == x;
                assert(self.config_store@[j] == before[j]);
            }
        }
        e
    }

    /// Decides whether an entry may be started: `InvalidState` ("running") when it is
    /// already forwarded, `NotFound` when there is no such entry, `Validation` when
    /// its listen or target `host:port` text is not a socket address, otherwise the
    /// entry with those texts. `source_parse` and `target_parse` are the outcomes of
    /// reading the entry's two texts (`address_with_port`) as socket addresses, with
    /// the reader's message on failure. Nothing changes; see `confirm_started`.
    pub fn start_forwarding(
        &self,
        id: EntryId,
        source_parse: Result<(), String>,
        target_parse: Result<(), String>,
    ) -> (r: Result<StartPlan, Error>)
        ensures
            self.running_view().contains(id) ==> (r matches Err(e) && invalid_state(e, id, "running"@)),
            !self.running_view().contains(id) ==> match position_of(self.entries_view(), id) {
                None => r matches Err(e) && e == Error::NotFound(id),
                Some(i) => match address_check(source_parse, target_parse) {
                    Err(m) => r matches Err(Error::Validation(x)) && x@ == m,
                    Ok(_) => r matches Ok(plan) && plan.entry == self.entries_view()[i]
                        && plan.source@ == address_text(plan.entry.source_address@, plan.entry.source_port)
                        && plan.target@ == address_text(plan.entry.target_address@, plan.entry.target_port),
                },
            },
    {
        if self.is_running(id) {
            return Err(Error::InvalidState { id, status: String::from_str("running") });
        }
        match self.config_store.find_entry(id) {
            Err(e) => Err(e),
            Ok(e) => {
                let entry = e.duplicate();
                if let Err(e) = check_addresses(source_parse, target_parse) {
                    return Err(e);
                }
                let source = address_with_port(entry.source_address.as_str(), entry.source_port);
                let target = address_with_port(entry.target_address.as_str(), entry.target_port);
                Ok(StartPlan { entry, source, target })
            },
        }
    }

    /// Records that forwarding of an entry has started.
    pub fn confirm_started(&mut self, id: EntryId) -> (status: EntryStatus)
        requires
            old(self).wf(),
            !old(self).running_view().contains(id),
            has_id(old(self).entries_view(), id),
        ensures
            final(self).wf(),
            final(self).running_view() == old(self).running_view().push(id),
            final(self).entries_view() == old(self).entries_view(),
            final(self).path_view() == old(self).path_view(),
            status == EntryStatus::Running,
    {
        self.running.push(id);
        proof {
            let r = self.running@;
            assert forall|a: int, b: int| 0 <= a < b < r.len() implies r[a] != r[b] by {
                if b == r.len() - 1 {
                    assert(old(self).running@.contains(r[a]) || a == b);
                }
            }
            assert forall|k: int| 0 <= k < r.len() implies has_id(self.config_store@, #[trigger] r[k]) by {
                if k < r.len() - 1 {
                    assert(r[k] == old(self).running@[k]);
                }
            }
        }
        EntryStatus::Running
    }

    /// Stops forwarding an entry: `Stopped`, or `InvalidState` ("stopped") when it was
    /// not being forwarded.
    pub fn stop_forwarding(&mut self, id: EntryId) -> (r: Result<EntryStatus, Error>)
        requires
            old(self).wf(),
        ensures
            final(self).wf(),
            final(self).entries_view() == old(self).entries_view(),
            final(self).path_view() == old(self).path_view(),
            final(self).running_view() == without_id(old(self).running_view(), id),
            old(self).running_view().contains(id) ==> r == Ok::<EntryStatus, Error>(EntryStatus::Stopped),
            !old(self).running_view().contains(id) ==> (r matches Err(e) && invalid_state(e, id, "stopped"@)),
    {
        let was = self.forget_running(id);
        proof {
            assert forall|k: int| 0 <= k < self.running@.len() implies has_id(self.config_store@, #[trigger] self.running@[k]) by {
                let x = self.running@[k];
                assert(self.running@.contains(x));
                let j = choose|j: int| 0 <= j < old(self).running@.len() && old(self).running@[j] == x;
            }
        }
        if was {
            Ok(EntryStatus::Stopped)
        } else {
            Err(Error::InvalidState { id, status: String::from_str("stopped") })
        }
    }

    /// The status of an entry: `NotFound` for an unknown id, else running or stopped.
    pub fn get_status(&self, id: EntryId) -> (r: Result<EntryStatus, Error>)
        ensures
            r == self.status_spec(id),
    {
        match self.config_store.find_entry(id) {
            Err(e) => Err(e),
            Ok(_) => {
                if self.is_running(id) {
                    Ok(EntryStatus::Running)
                } else {
                    Ok(EntryStatus::Stopped)
                }
            },
        }
    }

    /// The status of every entry, in order: running or stopped.
    pub fn get_all_status(&self) -> (r: Vec<(EntryId, EntryStatus)>)
        ensures
            r.len() == self.entries_view().len(),
            forall|k: int| 0 <= k < r.len() ==> (#[trigger] r@[k]).0 == self.entries_view()[k].id
                && r@[k].1 == dashboard_status(self.running_view(), self.entries_view()[k].id),
    {
        let entries = self.config_store.entries();
        let mut r: Vec<(EntryId, EntryStatus)> = Vec::new();
        let mut i: usize = 0;
        while i < entries.len()
            invariant
                entries@ == self.entries_view(),
                i <= entries.len(),
                r.len() == i,
                forall|k: int| 0 <= k < i ==> (#[trigger] r@[k]).0 == entries@[k].id
                    && r@[k].1 == dashboard_status(self.running_view(), entries@[k].id),
            decreases entries.len() - i,
        {
            let id = entries[i].id;
            let status = if self.is_running(id) {
                EntryStatus::Running
            } else {
                EntryStatus::Stopped
            };
            r.push((id, status));
            i = i + 1;
        }
        r
    }

    /// Updates an entry. Forwarding of it is stopped first; it is to be started again
    /// when the updated entry is enabled. `NotFound` when there is no such entry.
    pub fn update_entry(&mut self, id: EntryId, req: EntryRequest) -> (r: Result<UpdateOutcome, Error>)
        requires
            old(self).wf(),
        ensures
            final(self).wf(),
            final(self).path_view() == old(self).path_view(),
            final(self).running_view() == without_id(old(self).running_view(), id),
            match position_of(old(self).entries_view(), id) {
                Some(i) => r matches Ok(o) && final(self).entries_view() == old(self).entries_view().update(i, o.entry)
                    && updated_from(o.entry, old(self).entries_view()[i], req)
                    && o.entry.id == id && o.entry.name == req.name
                    && o.entry.source_address == req.source_address && o.entry.source_port == req.source_port
                    && o.entry.target_address == req.target_address && o.entry.target_port == req.target_port
                    && o.entry.enabled == req.enabled
                    && o.was_running == old(self).running_view().contains(id)
                    && o.restart == o.entry.enabled,
                None => r matches Err(e) && e == Error::NotFound(id)
                    && final(self).entries_view() == old(self).entries_view(),
            },
    {
        let was_running = self.forget_running(id);
        let ghost before = self.config_store@;
        proof {
            lemma_position_props(before, id);
        }
        match self.config_store.update_entry(id, req) {
            Err(e) => {
                proof {
                    assert forall|k: int| 0 <= k < self.running@.len() implies has_id(self.config_store@, #[trigger] self.running@[k]) by {
                        assert(old(self).running@.contains(self.running@[k]));
                    }
                }
                Err(e)
            },
            Ok(entry) => {
                proof {
                    let i = position_of(before, id)->0;
                    assert forall|k: int| 0 <= k < self.running@.len() implies has_id(self.config_store@, #[trigger] self.running@[k]) by {
                        let x = self.running@[k];
                        assert(old(self).running@.contains(x));
                        let j = choose|j: int| 0 <= j < old(self).running@.len() && old(self).running@[j] == x;
                        assert(has_id(before, old(self).running@[j]));
                        lemma_update_keeps_ids(before, i, entry, x);
                    }
                }
                let restart = entry.enabled;
                Ok(UpdateOutcome { entry, was_running, restart })
            },
        }
    }

    /// Deletes an entry. Forwarding of it is stopped first; its log directory is to be
    /// removed when `cleanup_logs` asks for it. `NotFound` when there is no such entry.
    pub fn delete_entry(&mut self, id: EntryId, cleanup_logs: bool) -> (r: Result<DeleteOutcome, Error>)
        requires
            old(self).wf(),
        ensures
            final(self).wf(),
            final(self).path_view() == old(self).path_view(),
            final(self).running_view() == without_id(old(self).running_view(), id),
            match position_of(old(self).entries_view(), id) {
                Some(i) => r matches Ok(o) && final(self).entries_view() == old(self).entries_view().remove(i)
                    && o.entry == old(self).entries_view()[i]
                    && o.was_running == old(self).running_view().contains(id)
                    && (cleanup_logs ==> o.remove_log_dir == Some(o.entry.log_directory))
                    && (!cleanup_logs ==> o.remove_log_dir is None),
                None => r matches Err(e) && e == Error::NotFound(id)
                    && final(self).entries_view() == old(self).entries_view(),
            },
    {
        let was_running = self.forget_running(id);
        let ghost before = self.config_store@;
        proof {
            lemma_position_props(before, id);
        }
        match self.config_store.remove_entry(id) {
            Err(e) => {
                proof {
                    assert forall|k: int| 0 <= k < self.running@.len() implies has_id(self.config_store@, #[trigger] self.running@[k]) by {
                        assert(old(self).running@.contains(self.running@[k]));
                    }
                }
                Err(e)
            },
            Ok(entry) => {
                proof {
                    let i = position_of(before, id)->0;
                    assert forall|k: int| 0 <= k < self.running@.len() implies has_id(self.config_store@, #[trigger] self.running@[k]) by {
                        let x = self.running@[k];
                        assert(self.running@.contains(x));
                        assert(old(self).running@.contains(x));
                        let j = choose|j: int| 0 <= j < old(self).running@.len() && old(self).running@[j] == x;
                        assert(has_id(before, old(self).running@[j]));
                        lemma_remove_keeps_ids(before, i, x);
                    }
                }
                let remove_log_dir = if cleanup_logs {
                    Some(entry.log_directory.clone())
                } else {
                    None
                };
                Ok(DeleteOutcome { entry, was_running, remove_log_dir })
            },
        }
    }

    /// The log directory of an entry, where its logs are read; `NotFound` when there
    /// is no such entry.
    pub fn log_directory_of(&self, id: EntryId) -> (r: Result<String, Error>)
        ensures
            match position_of(self.entries_view(), id) {
                Some(i) => r matches Ok(d) && d == self.entries_view()[i].log_directory,
                None => r matches Err(e) && e == Error::NotFound(id),
            },
    {
        match self.config_store.find_entry(id) {
            Ok(e) => Ok(e.log_directory.clone()),
            Err(e) => Err(e),
        }
    }

    /// Stops forwarding every entry; the ids that were forwarded, in the order they
    /// were started.
    pub fn shutdown_all(&mut self) -> (ids: Vec<EntryId>)
        requires
            old(self).wf(),
        ensures
            final(self).wf(),
            ids@ == old(self).running_view(),
            final(self).running_view() == Seq::<EntryId>::empty(),
            final(self).entries_view() == old(self).entries_view(),
            final(self).path_view() == old(self).path_view(),
    {
        let ids = self.running.clone();
        self.running = Vec::new();
        ids
    }

    /// The enabled entries, in order: those started when the service comes up.
    pub fn auto_start_candidates(&self) -> (r: Vec<ForwardingEntry>)
        ensures
            r@ == enabled_only(self.entries_view()),
    {
        let entries = self.config_store.entries();
        let mut r: Vec<ForwardingEntry> = Vec::new();
        let mut i: usize = 0;
        while i < entries.len()
            invariant
                entries@ == self.entries_view(),
                i <= entries.len(),
                r@ == enabled_only(entries@.take(i as int)),
            decreases entries.len() - i,
        {
            assert(entries@.take(i + 1).drop_last() =~= entries@.take(i as int));
            if entries[i].enabled {
                r.push(entries[i].duplicate());
            }
            i = i + 1;
        }
        assert(entries@.take(i as int) =~= entries@);
        r
    }
}

} // verus!
