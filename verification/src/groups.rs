//! Named logs, each with a cache of its entries.

use crate::idindex::{are_ids_between, lemma_ids_between};
use crate::lru::{build_key, cache_key, key_type_ok, LruView, LRU};
use crate::proto::stamped_view;
use crate::seg_log::{refusal, LogEntry, LogError, LogMark, LogView, SegLog};
use crate::snapshot::{loaded, loads, snapshot_decoding, snapshot_encoding, SnapshotError};
use crate::strmap::StrMap;
use crate::views::{copy_bytes, copy_str, strings_view, triples_view};
use vstd::prelude::*;

verus! {

/// Why a request on a group is refused.
#[derive(Debug)]
pub enum GroupError {
    GroupNotFound(String),
    GroupAlreadyExists(String),
    LogError(LogError),
}

impl GroupError {
    /// What the error says of itself.
    pub open spec fn text(self) -> Seq<char> {
        match self {
            GroupError::GroupNotFound(name) => "group '"@ + name@ + "' not found"@,
            GroupError::GroupAlreadyExists(name) => "group '"@ + name@ + "' already exists"@,
            GroupError::LogError(e) => "log error: "@ + e.text(),
        }
    }

    pub fn message(&self) -> (r: String)
        ensures
            r@ == self.text(),
    {
        match self {
            GroupError::GroupNotFound(name) => {
                let mut r = copy_str("group '");
                r.append(name.as_str());
                r.append("' not found");
                r
            },
            GroupError::GroupAlreadyExists(name) => {
                let mut r = copy_str("group '");
                r.append(name.as_str());
                r.append("' already exists");
                r
            },
            GroupError::LogError(e) => {
                let mut r = copy_str("log error: ");
                let m = e.message();
                r.append(m.as_str());
                r
            },
        }
    }
}

impl vstd::std_specs::convert::FromSpecImpl<LogError> for GroupError {
    open spec fn obeys_from_spec() -> bool {
        true
    }

    open spec fn from_spec(e: LogError) -> GroupError {
        GroupError::LogError(e)
    }
}

impl From<LogError> for GroupError {
    fn from(e: LogError) -> (r: Self) {
        GroupError::LogError(e)
    }
}

/// The size of a group's log, and the id that comes next.
pub struct GroupStats {
    pub total_entries: u64,
    pub total_segments: usize,
    pub next_id: u64,
}

/// How many entries a group keeps in its cache, and for how many nanoseconds.
const CACHE_SIZE: usize = 100_000;

const CACHE_TTL: u64 = 30_000_000_000;

/// The logs by the name of their group.
pub type Logs = Map<Seq<char>, LogView>;

/// Every entry in the cache is an entry of the log, under its own cache key.
pub open spec fn coherent(name: Seq<char>, log: LogView, cache: LruView<u64, LogEntry>) -> bool {
    forall|k: u64| #[trigger]
        cache.data.contains_key(k) ==> {
            let e = cache.data[k].0;
            &&& k == cache_key(name, e.id)
            &&& log.entries.contains_key(e.id)
            &&& e.triple() == log.entries[e.id].triple()
        }
}

/// `t` is the entry of the log with this id.
pub open spec fn reads(log: LogView, id: u64, t: (u64, u64, Seq<u8>)) -> bool {
    log.entries.contains_key(id) && t == log.entries[id].triple()
}

/// Where there is an entry for each id of a range, those are the entries in that range.
proof fn lemma_range_read(log: LogView, start: u64, end: u64, r: Seq<(u64, u64, Seq<u8>)>)
    requires
        start <= end,
        r.len() == end - start + 1,
        forall|i: int| 0 <= i < r.len() ==> reads(log, (start + i) as u64, #[trigger] r[i]),
    ensures
        r == log.range(start, end),
{
    let ids = Seq::new((end - start + 1) as nat, |i: int| (start + i) as u64);
    assert(are_ids_between(log.entries, start as int, end as int, ids)) by {
        assert forall|id: u64| #[trigger] ids.contains(id) <==> log.entries.contains_key(id)
            && start <= id && id <= end by {
            if ids.contains(id) {
                let i = ids.index_of(id);
                assert(ids[i] == id);
                assert(reads(log, (start + i) as u64, r[i]));
            }
            if start <= id && id <= end {
                assert(ids[id - start] == id);
            }
        }
    }
    lemma_ids_between(log.entries, start as int, end as int, ids);
    assert(r =~= log.range(start, end));
}

/// A log with its name and its cache.
struct Group {
    name: String,
    log: SegLog,
    lru_cache: LRU<u64, LogEntry>,
}

proof fn lemma_u64_keys()
    ensures
        key_type_ok::<u64>(),
{
    broadcast use vstd::std_specs::hash::group_hash_axioms;

}

impl Group {
    spec fn wf(&self) -> bool {
        &&& self.log.wf()
        &&& self.lru_cache.wf()
        &&& coherent(self.name@, self.log@, self.lru_cache@)
    }

    fn new(name: String) -> (r: Self)
        ensures
            r.wf(),
            r.name@ == name@,
            r.log@ == LogView::empty(),
            r.lru_cache@.data == Map::<u64, (LogEntry, u64)>::empty(),
    {
        proof {
            lemma_u64_keys();
        }
        let log = SegLog::new(copy_str(name.as_str()));
        Group { name, log, lru_cache: LRU::new(CACHE_SIZE, CACHE_TTL) }
    }

    /// Puts an entry of the log into the cache.
    fn cache_put(&mut self, id: u64, timestamp: u64, payload: &[u8])
        requires
            old(self).log.wf(),
            old(self).lru_cache.wf(),
            old(self).log@.entries.contains_key(id),
            old(self).log@.entries[id].triple() == (id, timestamp, payload@),
            forall|k: u64| #[trigger]
                old(self).lru_cache@.data.contains_key(k) && k != cache_key(old(self).name@, id)
                    ==> {
                    let e = old(self).lru_cache@.data[k].0;
                    let log = old(self).log@;
                    &&& k == cache_key(old(self).name@, e.id)
                    &&& log.entries.contains_key(e.id)
                    &&& e.triple() == log.entries[e.id].triple()
                },
        ensures
            final(self).wf(),
            final(self).name == old(self).name,
            final(self).log == old(self).log,
    {
        let entry = LogEntry { id, timestamp, len: payload.len(), payload: copy_bytes(payload) };
        let key: u64 = build_key(self.name.as_str(), id);
        let ghost was = self.lru_cache@;
        proof {
            self.lru_cache.lemma_view_wf();
        }
        self.lru_cache.insert(key, entry);
        proof {
            let now = choose|now: u64| self.lru_cache@ == #[trigger] was.inserted(key, entry, now);
            assert forall|k: u64| #[trigger] self.lru_cache@.data.contains_key(k) && k
                != key implies was.data.contains_key(k) && self.lru_cache@.data[k]
                == was.data[k] by {
                crate::lru::law_lru_evicts_least_recent(was, key, entry, now, k);
            }
            crate::lru::law_lru_write_then_read(was, key, entry, now, now);
        }
    }

    /// Drops an entry from the cache.
    fn cache_invalidate(&mut self, id: u64)
        requires
            old(self).lru_cache.wf(),
        ensures
            final(self).lru_cache.wf(),
            final(self).lru_cache@ == old(self).lru_cache@.removed(
                cache_key(old(self).name@, id),
            ),
            final(self).name == old(self).name,
            final(self).log == old(self).log,
    {
        let key: u64 = build_key(self.name.as_str(), id);
        self.lru_cache.remove(&key);
    }

    /// Appends an entry and caches it.
    fn add(&mut self, timestamp: u64, payload: &[u8]) -> (r: Result<u64, LogError>)
        requires
            old(self).wf(),
        ensures
            final(self).wf(),
            final(self).name == old(self).name,
            match r {
                Ok(id) => {
                    &&& old(self).log@.takes(payload@)
                    &&& id == old(self).log@.next_id
                    &&& final(self).log@ == old(self).log@.pushed(timestamp, payload@)
                },
                Err(e) => {
                    &&& e == refusal(payload@)
                    &&& !old(self).log@.takes(payload@)
                    &&& final(self).log@ == old(self).log@.refused(payload@)
                },
            },
    {
        let id: u64 = self.log.append(timestamp, payload)?;
        self.cache_put(id, timestamp, payload);
        Ok(id)
    }

    /// Appends entries in order, up to the first that the log refuses.
    fn add_range(&mut self, entries: &[(u64, &[u8])]) -> (r: Result<(u64, u64), LogError>)
        requires
            old(self).wf(),
            entries@.len() > 0,
        ensures
            final(self).wf(),
            final(self).name == old(self).name,
            ({
                let all = stamped_view(entries@);
                let log = old(self).log@;
                let n = taken(log, all);
                match r {
                    Ok((first, last)) => {
                        &&& n == all.len()
                        &&& first == log.next_id
                        &&& last == pushed_all(log, all.drop_last()).next_id
                        &&& final(self).log@ == pushed_all(log, all)
                    },
                    Err(e) => {
                        &&& n < all.len()
                        &&& e == refusal(all[n as int].1)
                        &&& final(self).log@ == ranged(log, all)
                    },
                }
            }),
    {
        let ghost all = stamped_view(entries@);
        let ghost log = self.log@;
        let mut first: u64 = 0;
        let mut last: u64 = 0;
        let mut i: usize = 0;
        assert(all.take(0) =~= Seq::empty());
        while i < entries.len()
            invariant
                i <= entries@.len(),
                i <= taken(log, all),
                all == stamped_view(entries@),
                log == old(self).log@,
                self.wf(),
                self.name == old(self).name,
                self.log@ == pushed_all(log, all.take(i as int)),
                i > 0 ==> first == log.next_id,
                i > 0 ==> last == pushed_all(log, all.take(i - 1)).next_id,
            decreases entries@.len() - i,
        {
            proof {
                lemma_taken(log, all, i as int);
            }
            let e = entries[i];
            let id: u64 = self.add(e.0, e.1)?;
            if i == 0 {
                first = id;
            }
            last = id;
            proof {
                assert(all.take(i + 1).drop_last() =~= all.take(i as int));
                assert(all.take(i + 1).last() == all[i as int]);
            }
            i = i + 1;
        }
        proof {
            assert(all.take(i as int) =~= all);
            assert(all.take(i - 1) =~= all.drop_last());
            lemma_taken(log, all, i as int);
        }
        Ok((first, last))
    }

    /// Takes back what was appended since the log was `was`, in the log and in the cache.
    fn rewind(&mut self, mark: LogMark, Ghost(was): Ghost<LogView>)
        requires
            old(self).wf(),
            was.wf(),
            mark.marks(was),
            was.segs <= old(self).log@.segs,
            old(self).log@.entries.remove(was.next_id) == was.entries.remove(was.next_id),
        ensures
            final(self).wf(),
            final(self).name == old(self).name,
            final(self).log@ == was,
    {
        let ghost now = *self;
        self.log.rewind(mark, Ghost(was));
        let id: u64 = self.log.next_id();
        self.cache_invalidate(id);
        proof {
            now.lru_cache.lemma_view_wf();
            assert forall|k: u64| #[trigger] self.lru_cache@.data.contains_key(k) implies {
                let e = self.lru_cache@.data[k].0;
                &&& k == cache_key(self.name@, e.id)
                &&& self.log@.entries.contains_key(e.id)
                &&& e.triple() == self.log@.entries[e.id].triple()
            } by {
                let e = now.lru_cache@.data[k].0;
                assert(now.lru_cache@.data.contains_key(k));
                assert(e.id != id);
                assert(now.log@.entries.remove(id).contains_key(e.id));
                assert(now.log@.entries.remove(id)[e.id] == was.entries.remove(id)[e.id]);
            }
        }
    }

    /// Reads an entry, from the cache where it is there.
    fn read(&mut self, id: u64) -> (r: Result<(u64, u64, Vec<u8>), LogError>)
        requires
            old(self).wf(),
        ensures
            final(self).wf(),
            final(self).name == old(self).name,
            final(self).log@ == old(self).log@,
            match r {
                Ok(t) => {
                    &&& old(self).log@.entries.contains_key(id)
                    &&& (t.0, t.1, t.2@) == old(self).log@.entries[id].triple()
                },
                Err(e) => {
                    &&& e == LogError::EntryNotFound
                    &&& !old(self).log@.entries.contains_key(id)
                },
            },
    {
        match self.read_cached(id) {
            Some(t) => Ok(t),
            None => self.log.read(id),
        }
    }

    /// Reads an entry from the cache: it gives what is cached under the key of the id, if that has
    /// not expired by now and is not another entry with the same key.
    fn read_cached(&mut self, id: u64) -> (r: Option<(u64, u64, Vec<u8>)>)
        requires
            old(self).wf(),
        ensures
            final(self).wf(),
            final(self).name == old(self).name,
            final(self).log == old(self).log,
            exists|now: u64|
                {
                    &&& final(self).lru_cache@ == #[trigger] old(self).lru_cache@.read(
                        cache_key(old(self).name@, id),
                        now,
                    )
                    &&& r is Some <==> old(self).lru_cache@.hit(
                        cache_key(old(self).name@, id),
                        now,
                    ) && old(self).lru_cache@.data[cache_key(old(self).name@, id)].0.id == id
                },
            r matches Some(t) ==> {
                &&& old(self).log@.entries.contains_key(id)
                &&& (t.0, t.1, t.2@) == old(self).log@.entries[id].triple()
            },
    {
        let key: u64 = build_key(self.name.as_str(), id);
        let ghost was = self.lru_cache@;
        proof {
            self.lru_cache.lemma_view_wf();
        }
        match self.lru_cache.get(&key) {
            Some(e) => {
                assert(was.data.contains_key(key));
                if e.id == id {
                    Some((e.id, e.timestamp, copy_bytes(e.payload.as_slice())))
                } else {
                    None
                }
            },
            None => None,
        }
    }

    /// Reads the entries in a range of ids, from the cache where all of them are there.
    fn read_range(&mut self, start: u64, end: u64) -> (r: Vec<(u64, u64, Vec<u8>)>)
        requires
            old(self).wf(),
            start <= end,
        ensures
            final(self).wf(),
            final(self).name == old(self).name,
            final(self).log@ == old(self).log@,
            triples_view(r@) == old(self).log@.range(start, end),
    {
        let mut cached: Vec<(u64, u64, Vec<u8>)> = Vec::new();
        let mut all_cached: bool = true;
        let mut done: bool = false;
        let mut id: u64 = start;
        while !done
            invariant
                self.wf(),
                self.name == old(self).name,
                self.log@ == old(self).log@,
                start <= id <= end,
                cached@.len() == id - start + (if done && all_cached { 1int } else { 0int }),
                !done ==> all_cached,
                done && all_cached ==> id == end,
                forall|i: int|
                    0 <= i < cached@.len() ==> reads(
                        old(self).log@,
                        (start + i) as u64,
                        #[trigger] triples_view(cached@)[i],
                    ),
            decreases end - id + (if done { 0int } else { 1int }),
        {
            let ghost before = cached@;
            match self.read_cached(id) {
                Some(t) => {
                    cached.push(t);
                    proof {
                        assert forall|i: int| 0 <= i < cached@.len() implies reads(
                            old(self).log@,
                            (start + i) as u64,
                            #[trigger] triples_view(cached@)[i],
                        ) by {
                            if i < before.len() {
                                assert(triples_view(cached@)[i] == triples_view(before)[i]);
                            }
                        }
                    }
                    if id == end {
                        done = true;
                    } else {
                        id = id + 1;
                    }
                },
                None => {
                    all_cached = false;
                    done = true;
                },
            }
        }
        if all_cached {
            proof {
                lemma_range_read(old(self).log@, start, end, triples_view(cached@));
            }
            return cached;
        }
        self.log.read_range(start, end)
    }

    /// Drops the entries below an id, from the log and from the cache. Where the log has zeroed
    /// more than those, nothing stays in the cache.
    fn remove(&mut self, up_to_id: u64)
        requires
            old(self).wf(),
        ensures
            final(self).wf(),
            final(self).name == old(self).name,
            final(self).log@ == old(self).log@.trimmed(up_to_id),
    {
        let ghost was = *self;
        proof {
            self.log.lemma_view_wf();
            crate::idindex::lemma_ids_between_exist(self.log@.entries, 0, up_to_id - 1);
        }
        let removed = self.log.trim(up_to_id);
        if self.log.has_wiped() {
            proof {
                lemma_u64_keys();
            }
            self.lru_cache = LRU::new(CACHE_SIZE, CACHE_TTL);
            return;
        }
        let mut i: usize = 0;
        while i < removed.len()
            invariant
                i <= removed@.len(),
                self.name == was.name,
                self.log.wf(),
                self.log@ == was.log@.trimmed(up_to_id),
                self.lru_cache.wf(),
                forall|k: u64| #[trigger]
                    self.lru_cache@.data.contains_key(k) ==> {
                        &&& was.lru_cache@.data.contains_key(k)
                        &&& self.lru_cache@.data[k] == was.lru_cache@.data[k]
                    },
                forall|j: int|
                    0 <= j < i ==> !self.lru_cache@.data.contains_key(
                        cache_key(self.name@, #[trigger] removed@[j]),
                    ),
            decreases removed@.len() - i,
        {
            self.cache_invalidate(removed[i]);
            i = i + 1;
        }
        proof {
            let log = was.log@;
            assert forall|k: u64| #[trigger] self.lru_cache@.data.contains_key(k) implies {
                let e = self.lru_cache@.data[k].0;
                &&& k == cache_key(self.name@, e.id)
                &&& self.log@.entries.contains_key(e.id)
                &&& e.triple() == self.log@.entries[e.id].triple()
            } by {
                let e = was.lru_cache@.data[k].0;
                assert(log.entries.contains_key(e.id));
                if e.id < up_to_id {
                    assert(removed@.contains(e.id));
                    let j = removed@.index_of(e.id);
                    assert(removed@[j] == e.id);
                }
                assert(log.kept(up_to_id).contains_key(e.id));
                assert(self.log@.entries.contains_key(e.id));
                assert(!self.log@.entries[e.id].wiped());
            }
        }
    }
}

/// How many of the first entries a log takes.
pub open spec fn taken(log: LogView, entries: Seq<(u64, Seq<u8>)>) -> nat
    decreases entries.len(),
{
    if entries.len() == 0 || !log.takes(entries[0].1) {
        0
    } else {
        1 + taken(log.pushed(entries[0].0, entries[0].1), entries.drop_first())
    }
}

/// A log after appending entries in order.
pub open spec fn pushed_all(log: LogView, entries: Seq<(u64, Seq<u8>)>) -> LogView
    decreases entries.len(),
{
    if entries.len() == 0 {
        log
    } else {
        pushed_all(log, entries.drop_last()).pushed(entries.last().0, entries.last().1)
    }
}

/// A log after appending entries in order, up to the first that it refuses.
pub open spec fn ranged(log: LogView, entries: Seq<(u64, Seq<u8>)>) -> LogView {
    let n = taken(log, entries);
    let new = pushed_all(log, entries.take(n as int));
    if n < entries.len() {
        new.refused(entries[n as int].1)
    } else {
        new
    }
}

/// The logs after one of them has refused an entry.
pub open spec fn refused_by(logs: Logs, group: Seq<char>, payload: Seq<u8>) -> Logs {
    logs.insert(group, logs[group].refused(payload))
}

/// A refusal that leaves the log as it is leaves the logs as they are.
pub proof fn lemma_refused_by(logs: Logs, group: Seq<char>, payload: Seq<u8>)
    requires
        logs.contains_key(group),
        !logs[group].shuts(payload),
    ensures
        refused_by(logs, group, payload) == logs,
{
    assert(refused_by(logs, group, payload) =~= logs);
}

/// Appending some entries and then others is appending all of them.
pub proof fn lemma_pushed_all_front(log: LogView, entries: Seq<(u64, Seq<u8>)>)
    requires
        entries.len() > 0,
    ensures
        pushed_all(log, entries) == pushed_all(
            log.pushed(entries[0].0, entries[0].1),
            entries.drop_first(),
        ),
    decreases entries.len(),
{
    let rest = entries.drop_first();
    if entries.len() == 1 {
        assert(entries.drop_last() =~= Seq::empty());
        assert(rest =~= Seq::empty());
        reveal_with_fuel(pushed_all, 2);
    } else {
        lemma_pushed_all_front(log, entries.drop_last());
        assert(entries.drop_last().drop_first() =~= rest.drop_last());
        assert(rest.last() == entries.last());
    }
}

/// What is taken are some of the entries, and the one that follows is refused where they are not
/// all.
pub proof fn lemma_taken(log: LogView, entries: Seq<(u64, Seq<u8>)>, i: int)
    requires
        0 <= i <= entries.len(),
    ensures
        taken(log, entries) <= entries.len(),
        i < taken(log, entries) ==> pushed_all(log, entries.take(i)).takes(entries[i].1),
        i == taken(log, entries) && i < entries.len() ==> !pushed_all(
            log,
            entries.take(i),
        ).takes(entries[i].1),
    decreases entries.len(),
{
    if entries.len() > 0 && log.takes(entries[0].1) {
        let rest = entries.drop_first();
        let next = log.pushed(entries[0].0, entries[0].1);
        if i > 0 {
            lemma_taken(next, rest, i - 1);
            lemma_pushed_all_front(log, entries.take(i));
            assert(entries.take(i).drop_first() =~= rest.take(i - 1));
            assert(entries.take(i)[0] == entries[0]);
        } else {
            lemma_taken(next, rest, 0);
            assert(entries.take(0) =~= Seq::empty());
        }
    } else if entries.len() > 0 {
        if i == 0 {
            assert(entries.take(0) =~= Seq::empty());
        }
    }
}

/// The entries that are taken of a range are all taken by themselves.
pub proof fn lemma_taken_part(log: LogView, entries: Seq<(u64, Seq<u8>)>)
    ensures
        taken(log, entries) <= entries.len(),
        taken(log, entries.take(taken(log, entries) as int)) == taken(log, entries),
    decreases entries.len(),
{
    if entries.len() > 0 && log.takes(entries[0].1) {
        let next = log.pushed(entries[0].0, entries[0].1);
        let n = taken(log, entries) as int;
        lemma_taken_part(next, entries.drop_first());
        assert(entries.take(n).drop_first() =~= entries.drop_first().take(n - 1));
        assert(entries.take(n)[0] == entries[0]);
    }
}

/// Every entry that is appended counts once.
pub proof fn lemma_pushed_all_count(log: LogView, entries: Seq<(u64, Seq<u8>)>)
    ensures
        pushed_all(log, entries).count == log.count + entries.len(),
    decreases entries.len(),
{
    if entries.len() > 0 {
        lemma_pushed_all_count(log, entries.drop_last());
    }
}

/// The groups.
pub struct GroupManager {
    groups: StrMap<Group>,
}

impl View for GroupManager {
    type V = Logs;

    closed spec fn view(&self) -> Logs {
        self.groups@.map_values(|g: Group| g.log@)
    }
}

impl GroupManager {
    pub closed spec fn wf(&self) -> bool {
        &&& self.groups.wf()
        &&& forall|k: Seq<char>| #[trigger]
            self.groups@.contains_key(k) ==> self.groups@[k].wf() && self.groups@[k].name@ == k
    }

    /// The log of each group is well-formed.
    pub proof fn lemma_logs_wf(&self, group: Seq<char>)
        requires
            self.wf(),
            self@.contains_key(group),
        ensures
            self@[group].wf(),
    {
        self.groups@[group].log.lemma_view_wf();
    }

    pub fn new() -> (r: Self)
        ensures
            r.wf(),
            r@ == Map::<Seq<char>, LogView>::empty(),
    {
        let r = GroupManager { groups: StrMap::new() };
        assert(r@ =~= Map::<Seq<char>, LogView>::empty());
        r
    }

    /// Borrows a group for change.
    fn group_mut(&mut self, group: &str) -> (r: Result<&mut Group, GroupError>)
        requires
            old(self).wf(),
        ensures
            match r {
                Ok(g) => {
                    &&& old(self)@.contains_key(group@)
                    &&& g.wf()
                    &&& g.name@ == group@
                    &&& g.log@ == old(self)@[group@]
                    &&& final(g).wf() && final(g).name@ == group@ ==> final(self).wf()
                    &&& final(self)@ == old(self)@.insert(group@, final(g).log@)
                },
                Err(e) => {
                    &&& e matches GroupError::GroupNotFound(name) && name@ == group@
                    &&& !old(self)@.contains_key(group@)
                    &&& final(self).wf()
                    &&& final(self)@ == old(self)@
                },
            },
    {
        let ghost was = *self;
        proof {
            if was.groups@.contains_key(group@) {
                assert(was@[group@] == was.groups@[group@].log@);
            }
        }
        match self.groups.get_mut(group) {
            Some(g) => {
                proof {
                    let f = *final(g);
                    assert(was.groups@.insert(group@, f).map_values(|g: Group| g.log@)
                        =~= was@.insert(group@, f.log@));
                }
                Ok(g)
            },
            None => Err(GroupError::GroupNotFound(copy_str(group))),
        }
    }

    /// Makes an empty group.
    pub fn create_group(&mut self, name: &str) -> (r: Result<(), GroupError>)
        requires
            old(self).wf(),
        ensures
            final(self).wf(),
            match r {
                Ok(()) => {
                    &&& !old(self)@.contains_key(name@)
                    &&& final(self)@ == old(self)@.insert(name@, LogView::empty())
                },
                Err(e) => {
                    &&& e matches GroupError::GroupAlreadyExists(n) && n@ == name@
                    &&& old(self)@.contains_key(name@)
                    &&& final(self)@ == old(self)@
                },
            },
    {
        if self.groups.contains_key(name) {
            return Err(GroupError::GroupAlreadyExists(copy_str(name)));
        }
        self.groups.insert(copy_str(name), Group::new(copy_str(name)));
        assert(self@ =~= old(self)@.insert(name@, LogView::empty()));
        Ok(())
    }

    /// Makes a group anew from the bytes of a snapshot, or an empty one where there are none.
    pub fn load_group(&mut self, name: &str, data: Option<Vec<u8>>) -> (r: Result<
        (),
        SnapshotError,
    >)
        requires
            old(self).wf(),
        ensures
            final(self).wf(),
            match data {
                None => {
                    &&& r is Ok
                    &&& final(self)@ == old(self)@.insert(name@, LogView::empty())
                },
                Some(bytes) => match snapshot_decoding(bytes@) {
                    None => {
                        &&& r matches Err(SnapshotError::Corrupt)
                        &&& final(self)@ == old(self)@
                    },
                    Some(all) => {
                        let n = loads(LogView::empty(), all);
                        match r {
                            Ok(()) => {
                                &&& n == all.len()
                                &&& final(self)@ == old(self)@.insert(
                                    name@,
                                    loaded(LogView::empty(), all),
                                )
                            },
                            Err(SnapshotError::Entry { id, error }) => {
                                &&& n < all.len()
                                &&& id == all[n as int].0
                                &&& error == refusal(all[n as int].3)
                                &&& final(self)@ == old(self)@
                            },
                            Err(SnapshotError::Corrupt) => false,
                        }
                    },
                },
            },
    {
        let mut group = Group::new(copy_str(name));
        if let Some(bytes) = data {
            group.log.load_snapshot(bytes.as_slice())?;
            proof {
                let all = snapshot_decoding(bytes@)->0;
                assert(all.take(all.len() as int) =~= all);
            }
        }
        self.groups.insert(copy_str(name), group);
        assert(self@ =~= old(self)@.insert(name@, group.log@));
        Ok(())
    }

    /// The bytes of a snapshot of a group, and how many segments its log has.
    pub fn group_snapshot(&self, group: &str) -> (r: Option<(Vec<u8>, usize)>)
        requires
            self.wf(),
        ensures
            match r {
                Some((bytes, segments)) => {
                    &&& self@.contains_key(group@)
                    &&& bytes@ == snapshot_encoding(self@[group@].listed())
                    &&& snapshot_decoding(bytes@) == Some(self@[group@].listed())
                    &&& segments == self@[group@].segs
                },
                None => !self@.contains_key(group@),
            },
    {
        match self.groups.get(group) {
            Some(g) => {
                assert(self@[group@] == g.log@);
                Some((g.log.snapshot(), g.log.total_segments()))
            },
            None => None,
        }
    }

    /// Drops a group with all its entries.
    pub fn drop_group(&mut self, name: &str) -> (r: Result<(), GroupError>)
        requires
            old(self).wf(),
        ensures
            final(self).wf(),
            final(self)@ == old(self)@.remove(name@),
            match r {
                Ok(()) => old(self)@.contains_key(name@),
                Err(e) => {
                    &&& e matches GroupError::GroupNotFound(n) && n@ == name@
                    &&& !old(self)@.contains_key(name@)
                },
            },
    {
        let gone = self.groups.remove(name);
        assert(self@ =~= old(self)@.remove(name@));
        match gone {
            Some(_) => Ok(()),
            None => Err(GroupError::GroupNotFound(copy_str(name))),
        }
    }

    /// Appends an entry to a group.
    pub fn add(&mut self, group: &str, timestamp: u64, payload: &[u8]) -> (r: Result<
        u64,
        GroupError,
    >)
        requires
            old(self).wf(),
        ensures
            final(self).wf(),
            match r {
                Ok(id) => {
                    &&& old(self)@.contains_key(group@)
                    &&& old(self)@[group@].takes(payload@)
                    &&& id == old(self)@[group@].next_id
                    &&& final(self)@ == old(self)@.insert(
                        group@,
                        old(self)@[group@].pushed(timestamp, payload@),
                    )
                },
                Err(GroupError::GroupNotFound(n)) => {
                    &&& n@ == group@
                    &&& !old(self)@.contains_key(group@)
                    &&& final(self)@ == old(self)@
                },
                Err(e) => {
                    &&& e == GroupError::LogError(refusal(payload@))
                    &&& old(self)@.contains_key(group@)
                    &&& !old(self)@[group@].takes(payload@)
                    &&& final(self)@ == refused_by(old(self)@, group@, payload@)
                },
            },
    {
        let grp = self.group_mut(group)?;
        match grp.add(timestamp, payload) {
            Ok(id) => Ok(id),
            Err(e) => Err(GroupError::from(e)),
        }
    }

    /// Appends entries to a group in order, up to the first that the log refuses, and gives the
    /// ids of the first and the last.
    pub fn add_range(&mut self, group: &str, entries: &[(u64, &[u8])]) -> (r: Result<
        (u64, u64),
        GroupError,
    >)
        requires
            old(self).wf(),
        ensures
            final(self).wf(),
            ({
                let all = stamped_view(entries@);
                let log = old(self)@[group@];
                match r {
                    Ok((first, last)) => {
                        &&& old(self)@.contains_key(group@)
                        &&& all.len() > 0
                        &&& taken(log, all) == all.len()
                        &&& first == log.next_id
                        &&& last == pushed_all(log, all.drop_last()).next_id
                        &&& final(self)@ == old(self)@.insert(group@, pushed_all(log, all))
                    },
                    Err(GroupError::GroupNotFound(n)) => {
                        &&& n@ == group@
                        &&& all.len() > 0
                        &&& !old(self)@.contains_key(group@)
                        &&& final(self)@ == old(self)@
                    },
                    Err(e) => if all.len() == 0 {
                        &&& e == GroupError::LogError(LogError::EntryNotFound)
                        &&& final(self)@ == old(self)@
                    } else {
                        let n = taken(log, all);
                        &&& old(self)@.contains_key(group@)
                        &&& n < all.len()
                        &&& e == GroupError::LogError(refusal(all[n as int].1))
                        &&& final(self)@ == old(self)@.insert(group@, ranged(log, all))
                    },
                }
            }),
    {
        if entries.is_empty() {
            return Err(GroupError::LogError(LogError::EntryNotFound));
        }
        let grp = self.group_mut(group)?;
        match grp.add_range(entries) {
            Ok(ids) => Ok(ids),
            Err(e) => Err(GroupError::from(e)),
        }
    }

    /// Takes note of the log of a group as it is, so that an append can be taken back.
    pub fn mark(&self, group: &str) -> (r: Option<LogMark>)
        requires
            self.wf(),
        ensures
            match r {
                Some(m) => self@.contains_key(group@) && m.marks(self@[group@]),
                None => !self@.contains_key(group@),
            },
    {
        match self.groups.get(group) {
            Some(g) => {
                assert(self@[group@] == g.log@);
                Some(g.log.mark())
            },
            None => None,
        }
    }

    /// Takes back what was appended to a group since its log was `was`: an entry under the id that
    /// came next, or nothing.
    pub fn rewind(&mut self, group: &str, mark: LogMark, Ghost(was): Ghost<LogView>)
        requires
            old(self).wf(),
            old(self)@.contains_key(group@),
            was.wf(),
            mark.marks(was),
            was.segs <= old(self)@[group@].segs,
            old(self)@[group@].entries.remove(was.next_id) == was.entries.remove(was.next_id),
        ensures
            final(self).wf(),
            final(self)@ == old(self)@.insert(group@, was),
    {
        if let Ok(grp) = self.group_mut(group) {
            grp.rewind(mark, Ghost(was));
        }
    }

    /// Reads an entry of a group.
    pub fn read(&mut self, group: &str, id: u64) -> (r: Result<(u64, u64, Vec<u8>), GroupError>)
        requires
            old(self).wf(),
        ensures
            final(self).wf(),
            final(self)@ == old(self)@,
            match r {
                Ok(t) => {
                    &&& old(self)@.contains_key(group@)
                    &&& old(self)@[group@].entries.contains_key(id)
                    &&& (t.0, t.1, t.2@) == old(self)@[group@].entries[id].triple()
                },
                Err(GroupError::GroupNotFound(n)) => n@ == group@ && !old(self)@.contains_key(
                    group@,
                ),
                Err(e) => {
                    &&& e == GroupError::LogError(LogError::EntryNotFound)
                    &&& old(self)@.contains_key(group@)
                    &&& !old(self)@[group@].entries.contains_key(id)
                },
            },
    {
        let ghost was = self@;
        let grp = self.group_mut(group)?;
        assert(was.insert(group@, was[group@]) =~= was);
        match grp.read(id) {
            Ok(t) => Ok(t),
            Err(e) => Err(GroupError::from(e)),
        }
    }

    /// Reads the entries of a group with ids from `start` up to and with `end`.
    pub fn read_range(&mut self, group: &str, start: u64, end: u64) -> (r: Result<
        Vec<(u64, u64, Vec<u8>)>,
        GroupError,
    >)
        requires
            old(self).wf(),
            old(self)@.contains_key(group@) ==> start <= end,
        ensures
            final(self).wf(),
            final(self)@ == old(self)@,
            match r {
                Ok(entries) => {
                    &&& old(self)@.contains_key(group@)
                    &&& triples_view(entries@) == old(self)@[group@].range(start, end)
                },
                Err(e) => {
                    &&& e matches GroupError::GroupNotFound(n) && n@ == group@
                    &&& !old(self)@.contains_key(group@)
                },
            },
    {
        let ghost was = self@;
        let grp = self.group_mut(group)?;
        assert(was.insert(group@, was[group@]) =~= was);
        Ok(grp.read_range(start, end))
    }

    /// Drops the entries of a group below an id.
    pub fn remove(&mut self, group: &str, up_to_id: u64) -> (r: Result<(), GroupError>)
        requires
            old(self).wf(),
        ensures
            final(self).wf(),
            match r {
                Ok(()) => {
                    &&& old(self)@.contains_key(group@)
                    &&& final(self)@ == old(self)@.insert(
                        group@,
                        old(self)@[group@].trimmed(up_to_id),
                    )
                },
                Err(e) => {
                    &&& e matches GroupError::GroupNotFound(n) && n@ == group@
                    &&& !old(self)@.contains_key(group@)
                    &&& final(self)@ == old(self)@
                },
            },
    {
        let grp = self.group_mut(group)?;
        grp.remove(up_to_id);
        Ok(())
    }

    /// Whether there is a group of this name.
    pub fn contains(&self, group: &str) -> (r: bool)
        requires
            self.wf(),
        ensures
            r == self@.contains_key(group@),
    {
        self.groups.contains_key(group)
    }

    /// The names of the groups, in no order that is promised.
    pub fn list_groups(&self) -> (r: Vec<String>)
        requires
            self.wf(),
        ensures
            strings_view(r@).no_duplicates(),
            strings_view(r@).to_set() == self@.dom(),
    {
        proof {
            self.groups.lemma_order();
            assert(self@.dom() =~= self.groups@.dom());
        }
        self.groups.keys()
    }

    pub fn group_stats(&self, group: &str) -> (r: Result<GroupStats, GroupError>)
        requires
            self.wf(),
        ensures
            match r {
                Ok(s) => {
                    &&& self@.contains_key(group@)
                    &&& s.total_entries == self@[group@].count
                    &&& s.total_segments == self@[group@].segs
                    &&& s.next_id == self@[group@].next_id
                },
                Err(e) => {
                    &&& e matches GroupError::GroupNotFound(n) && n@ == group@
                    &&& !self@.contains_key(group@)
                },
            },
    {
        match self.groups.get(group) {
            Some(g) => {
                assert(self@[group@] == g.log@);
                Ok(
                    GroupStats {
                        total_entries: g.log.total_entries(),
                        total_segments: g.log.total_segments(),
                        next_id: g.log.next_id(),
                    },
                )
            },
            None => Err(GroupError::GroupNotFound(copy_str(group))),
        }
    }
}

/// What was appended to a group is what a read of the id that the append gave finds, and a range
/// that holds only that id.
pub proof fn law_group_append_then_read(log: LogView, timestamp: u64, payload: Seq<u8>)
    requires
        log.wf(),
        log.takes(payload),
    ensures
        reads(log.pushed(timestamp, payload), log.next_id, (log.next_id, timestamp, payload)),
        log.pushed(timestamp, payload).range(log.next_id, log.next_id) == seq![
            (log.next_id, timestamp, payload),
        ],
{
    let new = log.pushed(timestamp, payload);
    let id = log.next_id;
    assert(reads(new, id, seq![(id, timestamp, payload)][0]));
    lemma_range_read(new, id, id, seq![(id, timestamp, payload)]);
}

/// What is done to one group leaves every other group as it is.
pub proof fn law_groups_are_independent(
    logs: Logs,
    group: Seq<char>,
    other: Seq<char>,
    timestamp: u64,
    payload: Seq<u8>,
    up_to_id: u64,
)
    requires
        group != other,
    ensures
        logs.insert(group, logs[group].pushed(timestamp, payload)).contains_key(other)
            == logs.contains_key(other),
        logs.insert(group, logs[group].pushed(timestamp, payload))[other] == logs[other],
        logs.insert(group, logs[group].trimmed(up_to_id))[other] == logs[other],
        logs.insert(group, LogView::empty())[other] == logs[other],
        logs.remove(group).contains_key(other) == logs.contains_key(other),
        logs.remove(group)[other] == logs[other],
{
}

/// Appending entries at once is appending them one after the other: a part, and then the rest.
pub proof fn law_group_append_range(
    log: LogView,
    a: Seq<(u64, Seq<u8>)>,
    b: Seq<(u64, Seq<u8>)>,
    timestamp: u64,
    payload: Seq<u8>,
)
    ensures
        pushed_all(log, a + b) == pushed_all(pushed_all(log, a), b),
        pushed_all(log, seq![(timestamp, payload)]) == log.pushed(timestamp, payload),
        pushed_all(log, Seq::empty()) == log,
    decreases b.len(),
{
    let one = seq![(timestamp, payload)];
    assert(one.drop_last() =~= Seq::empty());
    assert(pushed_all(log, one.drop_last()) == log);
    if b.len() == 0 {
        assert(a + b =~= a);
    } else {
        law_group_append_range(log, a, b.drop_last(), timestamp, payload);
        assert((a + b).drop_last() =~= a + b.drop_last());
        assert((a + b).last() == b.last());
    }
}

/// Entries that are appended at once stand in the log under ids that follow one on the other, in their
/// order, each with its own timestamp and payload. Every entry with another id is as before.
pub proof fn law_group_range_ids(
    log: LogView,
    entries: Seq<(u64, Seq<u8>)>,
    i: int,
    other: u64,
)
    requires
        log.next_id + entries.len() <= u64::MAX,
        0 <= i < entries.len(),
        other < log.next_id || other >= log.next_id + entries.len(),
    ensures
        ({
            let new = pushed_all(log, entries);
            let id = (log.next_id + i) as u64;
            &&& new.next_id == log.next_id + entries.len()
            &&& reads(new, id, (id, entries[i].0, entries[i].1))
            &&& new.entries.contains_key(other) == log.entries.contains_key(other)
            &&& new.entries[other] == log.entries[other]
            &&& new.count == log.count + entries.len()
        }),
    decreases entries.len(),
{
    lemma_pushed_all_count(log, entries);
    let rest = entries.drop_last();
    if rest.len() == 0 {
        assert(pushed_all(log, rest) == log);
    } else {
        let j = if i < rest.len() {
            i
        } else {
            0
        };
        law_group_range_ids(log, rest, j, other);
        if i < rest.len() {
            assert(rest[i] == entries[i]);
        }
    }
}

/// A range is appended up to the first entry that the log refuses once those before it are there.
pub proof fn law_group_range_stops_at_refusal(log: LogView, entries: Seq<(u64, Seq<u8>)>, i: int)
    requires
        0 <= i < entries.len(),
    ensures
        taken(log, entries) <= entries.len(),
        i < taken(log, entries) ==> pushed_all(log, entries.take(i)).takes(entries[i].1),
        i == taken(log, entries) ==> !pushed_all(log, entries.take(i)).takes(entries[i].1),
        ({
            let n = taken(log, entries) as int;
            let all = pushed_all(log, entries.take(n));
            let new = ranged(log, entries);
            &&& new.entries == all.entries && new.next_id == all.next_id && new.count == all.count
            &&& n == entries.len() ==> new == pushed_all(log, entries)
        }),
{
    lemma_taken(log, entries, i);
    assert(entries.take(entries.len() as int) =~= entries);
}

/// A request that a group refuses drops no entry of it.
pub proof fn law_refusal_keeps_entries(logs: Logs, group: Seq<char>, payload: Seq<u8>, other: Seq<char>)
    requires
        logs.contains_key(group),
        other != group,
    ensures
        refused_by(logs, group, payload).contains_key(group),
        refused_by(logs, group, payload)[group].entries == logs[group].entries,
        refused_by(logs, group, payload)[group].next_id == logs[group].next_id,
        refused_by(logs, group, payload)[group].count == logs[group].count,
        refused_by(logs, group, payload)[group].segs == logs[group].segs,
        refused_by(logs, group, payload).contains_key(other) == logs.contains_key(other),
        refused_by(logs, group, payload)[other] == logs[other],
{
}

/// What was appended at once is what the range of the ids that it was given holds, in order.
pub proof fn law_group_range_then_read(log: LogView, entries: Seq<(u64, Seq<u8>)>)
    requires
        entries.len() > 0,
        log.next_id + entries.len() <= u64::MAX,
    ensures
        pushed_all(log, entries).range(
            log.next_id,
            (log.next_id + entries.len() - 1) as u64,
        ) == Seq::new(
            entries.len(),
            |i: int| ((log.next_id + i) as u64, entries[i].0, entries[i].1),
        ),
{
    let new = pushed_all(log, entries);
    let first = log.next_id;
    let last = (log.next_id + entries.len() - 1) as u64;
    let r = Seq::new(
        entries.len(),
        |i: int| ((log.next_id + i) as u64, entries[i].0, entries[i].1),
    );
    assert forall|i: int| 0 <= i < r.len() implies reads(new, (first + i) as u64, #[trigger] r[i]) by {
        law_group_range_ids(log, entries, i, (log.next_id + entries.len()) as u64);
    }
    lemma_range_read(new, first, last, r);
}

/// A range holds the entries whose ids are in it, and no others, in the order of their ids.
pub proof fn law_group_range(log: LogView, start: u64, end: u64, id: u64, i: int, j: int)
    requires
        log.keeps_ids(),
        log.wf(),
    ensures
        log.entries.contains_key(id) && start <= id <= end ==> log.range(start, end).contains(
            log.entries[id].triple(),
        ),
        0 <= i < log.range(start, end).len() ==> {
            let e = log.range(start, end)[i];
            &&& start <= e.0 <= end
            &&& reads(log, e.0, e)
        },
        0 <= i < j < log.range(start, end).len() ==> log.range(start, end)[i].0 < log.range(
            start,
            end,
        )[j].0,
{
    let ids = crate::idindex::ids_between(log.entries, start as int, end as int);
    crate::idindex::lemma_ids_between_exist(log.entries, start as int, end as int);
    let r = log.range(start, end);
    if 0 <= i < r.len() {
        assert(ids.contains(ids[i]));
        assert(log.entries.contains_key(ids[i]));
    }
    if 0 <= j < r.len() {
        assert(ids.contains(ids[j]));
        assert(log.entries.contains_key(ids[j]));
    }
    if log.entries.contains_key(id) && start <= id <= end {
        assert(ids.contains(id));
        let k = ids.index_of(id);
        assert(r[k] == log.entries[id].triple());
    }
}

/// An entry that is appended to a group is read back under the id that the append gave, with its
/// timestamp and its payload, and by the range that holds only that id. The statistics count it, and
/// give the id behind it as the next.
pub proof fn law_add_then_read(
    before: &GroupManager,
    first: &mut GroupManager,
    second: &mut GroupManager,
    third: &mut GroupManager,
    fourth: &GroupManager,
    group: &str,
    timestamp: u64,
    payload: &[u8],
    had: Result<GroupStats, GroupError>,
    adding: Result<u64, GroupError>,
    reading: Result<(u64, u64, Vec<u8>), GroupError>,
    range: Result<Vec<(u64, u64, Vec<u8>)>, GroupError>,
    stats: Result<GroupStats, GroupError>,
)
    requires
        call_ensures(GroupManager::group_stats, (before, group), had),
        call_ensures(GroupManager::add, (first, group, timestamp, payload), adding),
        adding is Ok,
        call_ensures(GroupManager::read, (second, group, adding->Ok_0), reading),
        call_ensures(
            GroupManager::read_range,
            (third, group, adding->Ok_0, adding->Ok_0),
            range,
        ),
        call_ensures(GroupManager::group_stats, (fourth, group), stats),
        before@ == old(first)@,
        final(first)@ == old(second)@,
        final(second)@ == old(third)@,
        final(third)@ == fourth@,
        before@[group@].wf(),
    ensures
        reading matches Ok(e) && e.0 == adding->Ok_0 && e.1 == timestamp && e.2@ == payload@,
        range matches Ok(v) && v@.len() == 1 && v@[0].0 == adding->Ok_0 && v@[0].1 == timestamp
            && v@[0].2@ == payload@,
        had is Ok && stats is Ok,
        (had->Ok_0).next_id == adding->Ok_0,
        (stats->Ok_0).total_entries == (had->Ok_0).total_entries + 1,
        adding->Ok_0 < u64::MAX ==> (stats->Ok_0).next_id == adding->Ok_0 + 1,
{
    law_group_append_then_read(before@[group@], timestamp, payload@);
    let v = (range->Ok_0)@;
    let told = triples_view(v);
    assert(told.len() == 1);
    assert(told[0] == (v[0].0, v[0].1, v[0].2@));
}

/// A group that is made is there, with no entries, and the first id that it gives is 1. One that is
/// dropped is not there. No other group is touched.
pub proof fn law_group_is_made_and_dropped(
    first: &mut GroupManager,
    second: &GroupManager,
    third: &mut GroupManager,
    fourth: &GroupManager,
    name: &str,
    making: Result<(), GroupError>,
    stats: Result<GroupStats, GroupError>,
    dropping: Result<(), GroupError>,
    there: bool,
    names: Vec<String>,
    other: Seq<char>,
)
    requires
        call_ensures(GroupManager::create_group, (first, name), making),
        call_ensures(GroupManager::group_stats, (second, name), stats),
        call_ensures(GroupManager::drop_group, (third, name), dropping),
        call_ensures(GroupManager::contains, (fourth, name), there),
        call_ensures(GroupManager::list_groups, (second,), names),
        final(first)@ == second@,
        second@ == old(third)@,
        final(third)@ == fourth@,
        other != name@,
    ensures
        making is Ok <==> !old(first)@.contains_key(name@),
        stats is Ok,
        making is Ok ==> (stats->Ok_0).total_entries == 0 && (stats->Ok_0).next_id == 1,
        strings_view(names@).no_duplicates(),
        strings_view(names@).contains(name@),
        strings_view(names@).contains(other) <==> old(first)@.contains_key(other),
        dropping is Ok,
        !there,
        fourth@.contains_key(other) == old(first)@.contains_key(other),
        fourth@[other] == old(first)@[other],
{
    let all = strings_view(names@);
    assert(all.to_set().contains(other) == all.contains(other));
    assert(all.to_set().contains(name@) == all.contains(name@));
}

/// A group that is loaded from the snapshot of a group has the same entries, and as many, where the
/// entries of the group stand under their own ids and each counts once.
pub proof fn law_snapshot_then_load(
    first: &GroupManager,
    second: &mut GroupManager,
    group: &str,
    name: &str,
    snapshot: Option<(Vec<u8>, usize)>,
    data: Option<Vec<u8>>,
    loading: Result<(), SnapshotError>,
    id: u64,
)
    requires
        call_ensures(GroupManager::group_snapshot, (first, group), snapshot),
        call_ensures(GroupManager::load_group, (second, name, data), loading),
        first@.contains_key(group@),
        data matches Some(d) && (snapshot matches Some(s) ==> d@ == s.0@),
        first@[group@].wf(),
        first@[group@].keeps_ids(),
        first@[group@].count == first@[group@].entries.len(),
        first@[group@].orderly() || first@[group@].count < 1024 * 1024 * 1024,
    ensures
        snapshot is Some,
        loading is Ok,
        final(second)@.contains_key(name@),
        ({
            let was = first@[group@];
            let new = final(second)@[name@];
            &&& new.entries.contains_key(id) == was.entries.contains_key(id)
            &&& was.entries.contains_key(id) ==> new.entries[id].triple() == was.entries[id].triple()
            &&& new.count == was.count
        }),
{
    crate::snapshot::law_snapshot_round_trip(first@[group@], id);
}

/// What is said of a request that a group refuses.
pub proof fn law_group_errors_say(e: &GroupError, m: String, inner: String)
    requires
        call_ensures(GroupError::message, (e,), m),
        *e matches GroupError::LogError(why) ==> call_ensures(LogError::message, (&why,), inner),
    ensures
        *e matches GroupError::GroupNotFound(name) ==> m@ == "group '"@ + name@ + "' not found"@,
        *e matches GroupError::GroupAlreadyExists(name) ==> m@ == "group '"@ + name@
            + "' already exists"@,
        *e matches GroupError::LogError(_) ==> m@ == "log error: "@ + inner@,
{
}

/// Entries that are appended to a group at once are read back in order, each under its own id, by the
/// range of the ids that the append gave.
pub proof fn law_add_range_then_read_range(
    first: &mut GroupManager,
    second: &mut GroupManager,
    group: &str,
    entries: &[(u64, &[u8])],
    adding: Result<(u64, u64), GroupError>,
    reading: Result<Vec<(u64, u64, Vec<u8>)>, GroupError>,
    i: int,
)
    requires
        call_ensures(GroupManager::add_range, (first, group, entries), adding),
        adding is Ok,
        call_ensures(
            GroupManager::read_range,
            (second, group, (adding->Ok_0).0, (adding->Ok_0).1),
            reading,
        ),
        final(first)@ == old(second)@,
        old(first)@[group@].next_id + entries@.len() <= u64::MAX,
        0 <= i < entries@.len(),
    ensures
        (adding->Ok_0).1 - (adding->Ok_0).0 == entries@.len() - 1,
        reading matches Ok(read) && {
            &&& read@.len() == entries@.len()
            &&& read@[i].0 == (adding->Ok_0).0 + i
            &&& read@[i].1 == entries@[i].0
            &&& read@[i].2@ == entries@[i].1@
        },
{
    let all = stamped_view(entries@);
    let log = old(first)@[group@];
    law_group_range_then_read(log, all);
    let some = all.drop_last();
    if some.len() > 0 {
        law_group_range_ids(log, some, 0, (log.next_id + some.len()) as u64);
    } else {
        assert(pushed_all(log, some) == log);
    }
    let read = triples_view((reading->Ok_0)@);
    assert(read.len() == all.len());
    assert(read[i] == ((log.next_id + i) as u64, all[i].0, all[i].1));
    assert(read[i].2 == (reading->Ok_0)@[i].2@);
}

/// Once the entries of an orderly group are removed up to an id, those below it are not read back, and the
/// others are, as before.
pub proof fn law_remove_then_read(
    first: &mut GroupManager,
    second: &mut GroupManager,
    third: &mut GroupManager,
    group: &str,
    up_to_id: u64,
    id: u64,
    before: Result<(u64, u64, Vec<u8>), GroupError>,
    removing: Result<(), GroupError>,
    after: Result<(u64, u64, Vec<u8>), GroupError>,
)
    requires
        call_ensures(GroupManager::read, (first, group, id), before),
        call_ensures(GroupManager::remove, (second, group, up_to_id), removing),
        call_ensures(GroupManager::read, (third, group, id), after),
        final(first)@ == old(second)@,
        final(second)@ == old(third)@,
        old(first)@[group@].wf(),
        old(first)@[group@].orderly(),
    ensures
        removing is Ok <==> old(first)@.contains_key(group@),
        id < up_to_id ==> after is Err,
        id >= up_to_id ==> (before is Ok <==> after is Ok),
        id >= up_to_id && before is Ok ==> (after->Ok_0).0 == (before->Ok_0).0 && (after->Ok_0).1
            == (before->Ok_0).1 && (after->Ok_0).2@ == (before->Ok_0).2@,
{
    crate::seg_log::law_log_trim_keeps(old(first)@[group@], up_to_id, id);
}

} // verus!
