use vstd::prelude::*;
use crate::clock::now;
use crate::error::Error;
use crate::ids::new_entry_id;
use crate::models::{ConfigFile, EntryId, EntryRequest, ForwardingEntry};
use crate::paths::{join_path, parent_of, path_join, path_parent};
use crate::text::{sanitize_dir_name, sanitized};

verus! {

/// The position of the first entry with the given id.
pub open spec fn position_of(s: Seq<ForwardingEntry>, id: EntryId) -> Option<int> {
    if exists|i: int| 0 <= i < s.len() && s[i].id == id {
        Some(
            choose|i: int|
                0 <= i < s.len() && s[i].id == id && forall|j: int| 0 <= j < i ==> s[j].id != id,
        )
    } else {
        None
    }
}

/// No two entries share an id.
pub open spec fn ids_unique(s: Seq<ForwardingEntry>) -> bool {
    forall|i: int, j: int| 0 <= i < s.len() && 0 <= j < s.len() && i != j ==> s[i].id != s[j].id
}

/// Whether some entry has the given id.
pub open spec fn has_id(s: Seq<ForwardingEntry>, id: EntryId) -> bool {
    exists|i: int| 0 <= i < s.len() && s[i].id == id
}

/// `i` is the first position holding `id`, so `position_of` is `i`.
pub proof fn lemma_position_is(s: Seq<ForwardingEntry>, id: EntryId, i: int)
    requires
        0 <= i < s.len(),
        s[i].id == id,
        forall|j: int| 0 <= j < i ==> s[j].id != id,
    ensures
        position_of(s, id) == Some(i),
{
    let w = choose|k: int|
        0 <= k < s.len() && s[k].id == id && forall|j: int| 0 <= j < k ==> s[j].id != id;
    assert(0 <= w < s.len() && s[w].id == id && forall|j: int| 0 <= j < w ==> s[j].id != id);
    if w < i {
    } else if w > i {
        assert(s[i].id != id);
    }
}

/// Where some entry holds `id`, a first such entry exists.
proof fn lemma_first_exists(s: Seq<ForwardingEntry>, id: EntryId, k: int)
    requires
        0 <= k < s.len(),
        s[k].id == id,
    ensures
        exists|i: int| 0 <= i < s.len() && s[i].id == id && forall|j: int| 0 <= j < i ==> s[j].id != id,
    decreases k,
{
    if exists|j: int| 0 <= j < k && s[j].id == id {
        let j = choose|j: int| 0 <= j < k && s[j].id == id;
        lemma_first_exists(s, id, j);
    } else {
        assert(0 <= k < s.len() && s[k].id == id && forall|j: int| 0 <= j < k ==> s[j].id != id);
    }
}

/// What `position_of` gives: the first position that holds the id, or `None` when
/// no entry holds it.
pub proof fn lemma_position_props(s: Seq<ForwardingEntry>, id: EntryId)
    ensures
        match position_of(s, id) {
            Some(i) => 0 <= i < s.len() && s[i].id == id && forall|j: int| 0 <= j < i ==> s[j].id != id,
            None => forall|j: int| 0 <= j < s.len() ==> s[j].id != id,
        },
{
    if exists|i: int| 0 <= i < s.len() && s[i].id == id {
        let k = choose|i: int| 0 <= i < s.len() && s[i].id == id;
        lemma_first_exists(s, id, k);
    }
}

/// A read after a write: once an entry with an id that no entry had is added,
/// looking that id up finds the new entry, at the end.
pub proof fn law_find_after_add(s: Seq<ForwardingEntry>, e: ForwardingEntry)
    requires
        !has_id(s, e.id),
    ensures
        position_of(s.push(e), e.id) == Some(s.len() as int),
        ids_unique(s) ==> ids_unique(s.push(e)),
{
    let t = s.push(e);
    assert forall|j: int| 0 <= j < s.len() implies t[j].id != e.id by {
        assert(t[j] == s[j]);
    }
    lemma_position_is(t, e.id, s.len() as int);
    if ids_unique(s) {
        assert forall|i: int, j: int| 0 <= i < t.len() && 0 <= j < t.len() && i != j implies t[i].id
            != t[j].id by {
            if i < s.len() && j < s.len() {
                assert(t[i] == s[i] && t[j] == s[j]);
            }
        }
    }
}

/// Once the entry with an id is removed from a store whose ids are unique, looking
/// the id up finds nothing, and the ids stay unique.
pub proof fn law_find_after_remove(s: Seq<ForwardingEntry>, id: EntryId)
    requires
        ids_unique(s),
        position_of(s, id) is Some,
    ensures
        position_of(s.remove(position_of(s, id)->0), id) is None,
        ids_unique(s.remove(position_of(s, id)->0)),
{
    lemma_position_props(s, id);
    let i = position_of(s, id)->0;
    let t = s.remove(i);
    assert forall|k: int| 0 <= k < t.len() implies t[k].id != id by {
        if k < i {
            assert(t[k] == s[k]);
        } else {
            assert(t[k] == s[k + 1]);
        }
    }
    assert forall|a: int, b: int| 0 <= a < t.len() && 0 <= b < t.len() && a != b implies t[a].id
        != t[b].id by {
        let a2 = if a < i { a } else { a + 1 };
        let b2 = if b < i { b } else { b + 1 };
        assert(t[a] == s[a2] && t[b] == s[b2]);
    }
}

/// After the first entry with an id is replaced by an entry with the same id,
/// looking the id up finds the replacement at the same place, every entry keeps its
/// place and id, and unique ids stay unique.
pub proof fn law_find_after_update(s: Seq<ForwardingEntry>, id: EntryId, e: ForwardingEntry)
    requires
        position_of(s, id) is Some,
        e.id == id,
    ensures
        position_of(s.update(position_of(s, id)->0, e), id) == position_of(s, id),
        s.update(position_of(s, id)->0, e).len() == s.len(),
        forall|k: int| 0 <= k < s.len() ==> #[trigger] s.update(position_of(s, id)->0, e)[k].id == s[k].id,
        ids_unique(s) ==> ids_unique(s.update(position_of(s, id)->0, e)),
{
    lemma_position_props(s, id);
    let i = position_of(s, id)->0;
    let t = s.update(i, e);
    assert forall|k: int| 0 <= k < s.len() implies #[trigger] t[k].id == s[k].id by {}
    lemma_position_is(t, id, i);
}

/// The directory that holds a configuration file: its parent, or `.` when it has none.
pub open spec fn config_dir(config_path: Seq<char>) -> Seq<char> {
    match path_parent(config_path) {
        Some(p) => p,
        None => "."@,
    }
}

/// The default log directory of an entry: `logs/<sanitized name>` beside the
/// configuration file.
pub open spec fn log_dir_for(config_path: Seq<char>, name: Seq<char>) -> Seq<char> {
    path_join(path_join(config_dir(config_path), "logs"@), sanitized(name))
}

/// The default log directory of an entry, derived from the configuration path
/// and the entry's name.
pub fn default_log_dir(config_path: &str, name: &str) -> (dir: String)
    ensures
        dir@ == log_dir_for(config_path@, name@),
{
    let parent = match parent_of(config_path) {
        Some(p) => p,
        None => String::from_str("."),
    };
    let logs = join_path(parent.as_str(), "logs");
    let safe_name = sanitize_dir_name(name);
    join_path(logs.as_str(), safe_name.as_str())
}

/// `e` is the entry that a create request makes for a store at `config_path`.
pub open spec fn created_from(e: ForwardingEntry, req: EntryRequest, config_path: Seq<char>) -> bool {
    &&& e.name == req.name
    &&& e.source_address == req.source_address
    &&& e.source_port == req.source_port
    &&& e.target_address == req.target_address
    &&& e.target_port == req.target_port
    &&& e.log_directory@ == match req.log_directory {
        Some(d) => d@,
        None => log_dir_for(config_path, req.name@),
    }
    &&& e.enabled == req.enabled
    &&& e.created_at == e.updated_at
}

/// `e` is entry `old` after an update request: the id and the creation time stay,
/// the log directory stays unless the request names one, the rest comes from the request.
pub open spec fn updated_from(e: ForwardingEntry, old: ForwardingEntry, req: EntryRequest) -> bool {
    &&& e.id == old.id
    &&& e.name == req.name
    &&& e.source_address == req.source_address
    &&& e.source_port == req.source_port
    &&& e.target_address == req.target_address
    &&& e.target_port == req.target_port
    &&& e.log_directory == match req.log_directory {
        Some(d) => d,
        None => old.log_directory,
    }
    &&& e.enabled == req.enabled
    &&& e.created_at == old.created_at
}

/// A created entry holds what the request gives: its name, both addresses and
/// ports and whether it is enabled; its log directory is the requested one, else
/// the default one for its name; it was last updated when it was created.
pub proof fn law_create_takes_request(e: ForwardingEntry, req: EntryRequest, config_path: Seq<char>)
    requires
        created_from(e, req, config_path),
    ensures
        e.name == req.name,
        e.source_address == req.source_address,
        e.source_port == req.source_port,
        e.target_address == req.target_address,
        e.target_port == req.target_port,
        e.enabled == req.enabled,
        req.log_directory matches Some(d) ==> e.log_directory@ == d@,
        req.log_directory is None ==> e.log_directory@ == log_dir_for(config_path, req.name@),
        e.created_at == e.updated_at,
{
}

/// An update sets every field that the request gives: name, both addresses and
/// ports, and whether the entry is enabled; it keeps the id and the creation time,
/// and the log directory unless the request names one.
pub proof fn law_update_takes_request(e: ForwardingEntry, old: ForwardingEntry, req: EntryRequest)
    requires
        updated_from(e, old, req),
    ensures
        e.id == old.id,
        e.name == req.name,
        e.source_address == req.source_address,
        e.source_port == req.source_port,
        e.target_address == req.target_address,
        e.target_port == req.target_port,
        e.enabled == req.enabled,
        e.created_at == old.created_at,
        req.log_directory matches Some(d) ==> e.log_directory == d,
        req.log_directory is None ==> e.log_directory == old.log_directory,
{
}

/// The forwarding entries of one configuration file, kept in the order they were added.
/// Reading and writing the file is left to the caller.
pub struct ConfigStore {
    path: String,
    data: ConfigFile,
}

impl View for ConfigStore {
    type V = Seq<ForwardingEntry>;

    closed spec fn view(&self) -> Seq<ForwardingEntry> {
        self.data.entries@
    }
}

impl ConfigStore {
    /// The path of the configuration file, as text.
    pub closed spec fn path_view(&self) -> Seq<char> {
        self.path@
    }

    /// A store for the file at `path` that holds the entries of `data`.
    pub fn from_parts(path: String, data: ConfigFile) -> (s: Self)
        ensures
            s@ == data.entries@,
            s.path_view() == path@,
    {
        ConfigStore { path, data }
    }

    /// The file content of the store.
    pub fn data(&self) -> (d: &ConfigFile)
        ensures
            d.entries@ == self@,
    {
        &self.data
    }

    /// All entries.
    pub fn entries(&self) -> (r: &[ForwardingEntry])
        ensures
            r@ == self@,
    {
        self.data.entries.as_slice()
    }

    /// A copy of all entries.
    pub fn entries_cloned(&self) -> (r: Vec<ForwardingEntry>)
        ensures
            r@ == self@,
    {
        let mut r: Vec<ForwardingEntry> = Vec::new();
        let mut i: usize = 0;
        while i < self.data.entries.len()
            invariant
                i <= self.data.entries.len(),
                r@ == self.data.entries@.take(i as int),
            decreases self.data.entries.len() - i,
        {
            r.push(self.data.entries[i].duplicate());
            assert(self.data.entries@.take(i + 1) =~= self.data.entries@.take(i as int).push(
                self.data.entries@[i as int],
            ));
            i = i + 1;
        }
        assert(self.data.entries@.take(i as int) =~= self.data.entries@);
        r
    }

    /// The position of the first entry with the given id.
    fn position(&self, id: EntryId) -> (r: Option<usize>)
        ensures
            match r {
                Some(i) => position_of(self@, id) == Some(i as int),
                None => position_of(self@, id) is None,
            },
            r matches Some(i) ==> i < self.data.entries.len(),
    {
        let mut i: usize = 0;
        while i < self.data.entries.len()
            invariant
                i <= self.data.entries.len(),
                forall|j: int| 0 <= j < i ==> self.data.entries@[j].id != id,
            decreases self.data.entries.len() - i,
        {
            if self.data.entries[i].id == id {
                proof {
                    lemma_position_is(self@, id, i as int);
                }
                return Some(i);
            }
            i = i + 1;
        }
        None
    }

    /// The first entry with the given id; `NotFound` when there is none.
    pub fn find_entry(&self, id: EntryId) -> (r: Result<&ForwardingEntry, Error>)
        ensures
            match position_of(self@, id) {
                Some(i) => r matches Ok(e) && *e == self@[i],
                None => r matches Err(err) && err == Error::NotFound(id),
            },
    {
        match self.position(id) {
            Some(i) => Ok(&self.data.entries[i]),
            None => Err(Error::NotFound(id)),
        }
    }

    /// The first entry with the given id, to be changed in place; `NotFound` when
    /// there is none.
    pub fn find_entry_mut(&mut self, id: EntryId) -> (r: Result<&mut ForwardingEntry, Error>)
        ensures
            match position_of(old(self)@, id) {
                Some(i) => r matches Ok(e) && *e == old(self)@[i] && final(self)@ == old(self)@.update(i, *final(e))
                    && final(self).path_view() == old(self).path_view(),
                None => r matches Err(err) && err == Error::NotFound(id) && *final(self) == *old(self),
            },
    {
        match self.position(id) {
            Some(i) => Ok(&mut self.data.entries[i]),
            None => Err(Error::NotFound(id)),
        }
    }

    /// Adds an entry made from `req` with a fresh random id, the current time as its
    /// creation and update time, and the default log directory when the request names
    /// none. The new entry goes last and is returned.
    pub fn add_entry(&mut self, req: EntryRequest) -> (e: ForwardingEntry)
        ensures
            final(self)@ == old(self)@.push(e),
            final(self).path_view() == old(self).path_view(),
            created_from(e, req, old(self).path_view()),
            (e.id >> 76u128) & 0xfu128 == 4,
            (e.id >> 62u128) & 0x3u128 == 2,
    {
        let stamp = now();
        let log_directory = match req.log_directory {
            Some(d) => d,
            None => default_log_dir(self.path.as_str(), req.name.as_str()),
        };
        let entry = ForwardingEntry {
            id: new_entry_id(),
            name: req.name,
            source_address: req.source_address,
            source_port: req.source_port,
            target_address: req.target_address,
            target_port: req.target_port,
            log_directory,
            enabled: req.enabled,
            created_at: stamp,
            updated_at: stamp,
        };
        let e = entry.duplicate();
        self.data.entries.push(entry);
        e
    }

    /// Updates the first entry with the given id from `req`, stamping the current time
    /// as its update time; `NotFound` when there is none.
    pub fn update_entry(&mut self, id: EntryId, req: EntryRequest) -> (r: Result<ForwardingEntry, Error>)
        ensures
            final(self).path_view() == old(self).path_view(),
            match position_of(old(self)@, id) {
                Some(i) => r matches Ok(e) && final(self)@ == old(self)@.update(i, e)
                    && updated_from(e, old(self)@[i], req)
                    && e.id == id && e.name == req.name
                    && e.source_address == req.source_address && e.source_port == req.source_port
                    && e.target_address == req.target_address && e.target_port == req.target_port
                    && e.enabled == req.enabled,
                None => r matches Err(err) && err == Error::NotFound(id) && final(self)@ == old(self)@,
            },
    {
        match self.position(id) {
            None => Err(Error::NotFound(id)),
            Some(i) => {
                proof {
                    lemma_position_props(old(self)@, id);
                }
                let old_entry = self.data.entries[i].duplicate();
                let log_directory = match req.log_directory {
                    Some(d) => d,
                    None => old_entry.log_directory,
                };
                let entry = ForwardingEntry {
                    id: old_entry.id,
                    name: req.name,
                    source_address: req.source_address,
                    source_port: req.source_port,
                    target_address: req.target_address,
                    target_port: req.target_port,
                    log_directory,
                    enabled: req.enabled,
                    created_at: old_entry.created_at,
                    updated_at: now(),
                };
                let e = entry.duplicate();
                self.data.entries.set(i, entry);
                Ok(e)
            },
        }
    }

    /// Removes the first entry with the given id and returns it; `NotFound` when there
    /// is none.
    pub fn remove_entry(&mut self, id: EntryId) -> (r: Result<ForwardingEntry, Error>)
        ensures
            final(self).path_view() == old(self).path_view(),
            match position_of(old(self)@, id) {
                Some(i) => r matches Ok(e) && e == old(self)@[i] && final(self)@ == old(self)@.remove(i),
                None => r matches Err(err) && err == Error::NotFound(id) && final(self)@ == old(self)@,
            },
    {
        match self.position(id) {
            None => Err(Error::NotFound(id)),
            Some(i) => Ok(self.data.entries.remove(i)),
        }
    }

    /// The path of the configuration file.
    pub fn config_path(&self) -> (p: &str)
        ensures
            p@ == self.path_view(),
    {
        self.path.as_str()
    }
}

} // verus!
