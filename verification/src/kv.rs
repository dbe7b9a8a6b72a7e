//! Named databases of keys with values, times to live, and eviction of keys that are used least.

use crate::clock::{is_reading, now_millis, Clock};
use crate::strmap::StrMap;
use crate::views::{copy_bytes, copy_str, strings_view};
use vstd::prelude::*;

verus! {

/// A value with the time at which it expires (0: never), how often it was read, and when it was
/// used last. Times are in milliseconds.
#[derive(Debug, Clone)]
pub struct DBEntry {
    pub val: Vec<u8>,
    pub ttl: i64,
    pub used_count: u64,
    pub last_used: i64,
}

/// What a [`DBEntry`] holds.
pub ghost struct KvItem {
    pub val: Seq<u8>,
    pub ttl: i64,
    pub used_count: u64,
    pub last_used: i64,
}

impl View for DBEntry {
    type V = KvItem;

    open spec fn view(&self) -> KvItem {
        KvItem {
            val: self.val@,
            ttl: self.ttl,
            used_count: self.used_count,
            last_used: self.last_used,
        }
    }
}

impl DBEntry {
    /// A copy of the entry.
    pub fn copy(&self) -> (r: DBEntry)
        ensures
            r@ == self@,
    {
        DBEntry {
            val: copy_bytes(self.val.as_slice()),
            ttl: self.ttl,
            used_count: self.used_count,
            last_used: self.last_used,
        }
    }
}

/// Why the store refuses a request.
#[derive(Debug)]
pub enum KvError {
    KeyNotFound(String),
    DatabaseExists(String),
}

impl KvError {
    /// What the error says of itself.
    pub open spec fn text(self) -> Seq<char> {
        match self {
            KvError::KeyNotFound(key) => key@ + " not found"@,
            KvError::DatabaseExists(id) => "database "@ + id@ + " already exists"@,
        }
    }

    pub fn message(&self) -> (r: String)
        ensures
            r@ == self.text(),
    {
        match self {
            KvError::KeyNotFound(key) => {
                let mut r = copy_str(key.as_str());
                r.append(" not found");
                r
            },
            KvError::DatabaseExists(id) => {
                let mut r = copy_str("database ");
                r.append(id.as_str());
                r.append(" already exists");
                r
            },
        }
    }
}

/// What a database holds.
pub type DbItems = Map<Seq<char>, KvItem>;

/// The databases by name.
pub type Databases = Map<Seq<char>, DbItems>;

/// A database, empty where there is none of this name.
pub open spec fn db_of(dbs: Databases, db: Seq<char>) -> DbItems {
    if dbs.contains_key(db) {
        dbs[db]
    } else {
        Map::empty()
    }
}

/// How many keys make a database full enough to evict before a write.
pub const EVICTION_THRESHOLD: usize = 1024;

/// How many of `n` keys are looked at for eviction.
pub open spec fn sample_size(n: nat) -> nat {
    let wanted = if n / 5 > 16 {
        n / 5
    } else {
        16
    };
    if wanted < n {
        wanted
    } else {
        n
    }
}

/// How many of the keys that are looked at are evicted.
pub open spec fn eviction_size(sample: nat) -> nat {
    if sample / 4 > 1 {
        sample / 4
    } else {
        1
    }
}

/// Whether `a` was used no more than `b`: less often, or as often and no later.
pub open spec fn used_no_more(a: KvItem, b: KvItem) -> bool {
    a.used_count < b.used_count || (a.used_count == b.used_count && a.last_used <= b.last_used)
}

/// `sample` are keys of `items`, as many as are looked at for eviction, from the one used least
/// to the one used most.
pub open spec fn is_ranked_sample(items: DbItems, sample: Seq<Seq<char>>) -> bool {
    &&& sample.no_duplicates()
    &&& sample.len() == sample_size(items.len())
    &&& forall|i: int| 0 <= i < sample.len() ==> items.contains_key(#[trigger] sample[i])
    &&& forall|i: int, j: int|
        0 <= i < j < sample.len() ==> used_no_more(
            items[#[trigger] sample[i]],
            items[#[trigger] sample[j]],
        )
}

/// `after` is `before` without the keys used least among some sample of its keys. Which keys
/// make up the sample is left open.
pub open spec fn evicted(before: DbItems, after: DbItems) -> bool {
    if before.len() == 0 {
        after == before
    } else {
        exists|sample: Seq<Seq<char>>| #[trigger]
            is_ranked_sample(before, sample) && after == before.remove_keys(
                sample.take(eviction_size(sample.len()) as int).to_set(),
            )
    }
}

/// `base` is what a write to `items` finds: `items` itself, or what an eviction leaves of it.
pub open spec fn made_room(items: DbItems, base: DbItems) -> bool {
    if items.len() >= EVICTION_THRESHOLD {
        evicted(items, base)
    } else {
        base == items
    }
}

/// The entry that a write stores: it expires `ttl` after `now`, or never where `ttl` is 0.
pub open spec fn written(val: Seq<u8>, ttl: i64, now: i64, used: i64) -> KvItem {
    KvItem {
        val,
        ttl: if ttl == 0 {
            0
        } else {
            now.wrapping_add(ttl)
        },
        used_count: 0,
        last_used: used,
    }
}

/// `after` is `before` after a write of `key` in `db` that read the clock as `now` and `used`.
pub open spec fn kv_written(
    before: Databases,
    after: Databases,
    db: Seq<char>,
    key: Seq<char>,
    val: Seq<u8>,
    ttl: i64,
    now: i64,
    used: i64,
) -> bool {
    exists|base: DbItems| #[trigger]
        made_room(db_of(before, db), base) && after == before.insert(
            db,
            base.insert(key, written(val, ttl, now, used)),
        )
}

/// Whether an entry has expired at `now`.
pub open spec fn expired(item: KvItem, now: i64) -> bool {
    item.ttl != 0 && item.ttl < now
}

/// An entry once it has been read at `used`.
pub open spec fn read_once(item: KvItem, used: i64) -> KvItem {
    KvItem { used_count: item.used_count.wrapping_add(1), last_used: used, ..item }
}

/// What a read of `key` in `db` gives where the clock reads `now` and then `used`.
pub open spec fn kv_found(dbs: Databases, db: Seq<char>, key: Seq<char>, now: i64, used: i64) -> Option<KvItem> {
    let items = db_of(dbs, db);
    if items.contains_key(key) && !expired(items[key], now) {
        Some(read_once(items[key], used))
    } else {
        None
    }
}

/// The databases after such a read: an entry that was found is marked as used, one that has
/// expired is dropped, and the database exists from then on.
pub open spec fn kv_after_read(dbs: Databases, db: Seq<char>, key: Seq<char>, now: i64, used: i64) -> Databases {
    let items = db_of(dbs, db);
    dbs.insert(
        db,
        match kv_found(dbs, db, key, now, used) {
            Some(item) => items.insert(key, item),
            None => items.remove(key),
        },
    )
}

/// One database.
struct DB {
    id: String,
    entries: StrMap<DBEntry>,
}

spec fn items_in(entries: Map<Seq<char>, DBEntry>) -> DbItems {
    entries.map_values(|e: DBEntry| e@)
}

/// A key that may be evicted: its slot, and how it was used.
#[derive(Clone, Copy)]
struct Candidate {
    slot: usize,
    used_count: u64,
    last_used: i64,
}

spec fn ranks_before(a: Candidate, b: Candidate) -> bool {
    a.used_count < b.used_count || (a.used_count == b.used_count && a.last_used <= b.last_used)
}

spec fn ranked(c: Seq<Candidate>) -> bool {
    forall|i: int, j: int| 0 <= i < j < c.len() ==> ranks_before(#[trigger] c[i], #[trigger] c[j])
}

spec fn slots_of(c: Seq<Candidate>) -> Seq<usize> {
    Seq::new(c.len(), |i: int| c[i].slot)
}

/// Puts a candidate at its place among ranked ones.
fn insert_ranked(c: &mut Vec<Candidate>, new: Candidate)
    requires
        ranked(old(c)@),
    ensures
        ranked(final(c)@),
        exists|p: int| 0 <= p <= old(c)@.len() && final(c)@ == #[trigger] old(c)@.insert(p, new),
{
    let mut p: usize = c.len();
    while p > 0 && (new.used_count < c[p - 1].used_count || (new.used_count == c[p - 1].used_count
        && new.last_used < c[p - 1].last_used))
        invariant
            p <= c@.len(),
            c@ == old(c)@,
            ranked(c@),
            forall|j: int| p <= j < c@.len() ==> ranks_before(new, #[trigger] c@[j]),
        decreases p,
    {
        p = p - 1;
    }
    assert(p > 0 ==> ranks_before(c@[p - 1], new));
    c.insert(p, new);
    proof {
        let o = old(c)@;
        assert(c@ == o.insert(p as int, new));
        assert forall|i: int, j: int| 0 <= i < j < c@.len() implies ranks_before(
            #[trigger] c@[i],
            #[trigger] c@[j],
        ) by {
            let a = if i < p { i } else { i - 1 };
            let b = if j < p { j } else { j - 1 };
            if i != p && j != p {
                assert(ranks_before(o[a], o[b]));
            } else if j == p {
                if a != p - 1 {
                    assert(ranks_before(o[a], o[p - 1]));
                }
            }
        }
    }
}

impl DB {
    spec fn wf(&self) -> bool {
        self.entries.wf()
    }

    spec fn items(&self) -> DbItems {
        items_in(self.entries@)
    }

    fn new(id: &str) -> (r: Self)
        ensures
            r.wf(),
            r.items() == Map::<Seq<char>, KvItem>::empty(),
    {
        let r = DB { id: copy_str(id), entries: StrMap::new() };
        assert(r.items() =~= Map::<Seq<char>, KvItem>::empty());
        r
    }

    /// A copy of the database.
    fn copy(&self) -> (r: Self)
        requires
            self.wf(),
        ensures
            r.wf(),
            r.items() == self.items(),
    {
        let mut r = DB::new(self.id.as_str());
        let n: usize = self.entries.len();
        let mut i: usize = 0;
        proof {
            self.entries.lemma_order();
            assert forall|k: Seq<char>| !(#[trigger] r.entries@.contains_key(k)) by {
                assert(!r.items().contains_key(k));
            }
        }
        while i < n
            invariant
                self.wf(),
                r.wf(),
                i <= n,
                n == self.entries.order().len(),
                self.entries.order().no_duplicates(),
                forall|k: Seq<char>| #[trigger]
                    r.entries@.contains_key(k) ==> self.entries@.contains_key(k)
                        && r.entries@[k]@ == self.entries@[k]@,
                forall|j: int|
                    0 <= j < i ==> r.entries@.contains_key(#[trigger] self.entries.order()[j]),
            decreases n - i,
        {
            let (key, entry) = self.entries.at(i);
            r.entries.insert(copy_str(key.as_str()), entry.copy());
            i = i + 1;
        }
        proof {
            assert forall|k: Seq<char>| #[trigger] self.entries@.contains_key(k) implies
                r.entries@.contains_key(k) by {
                let j = self.entries.order().index_of(k);
                assert(self.entries.order()[j] == k);
            }
            assert(r.items() =~= self.items());
        }
        r
    }

    fn set(&mut self, key: String, entry: DBEntry)
        requires
            old(self).wf(),
        ensures
            final(self).wf(),
            final(self).items() == old(self).items().insert(key@, entry@),
    {
        self.entries.insert(key, entry);
        assert(self.items() =~= old(self).items().insert(key@, entry@));
    }

    /// Reads a key where the clock reads `now` and then `used`.
    fn get(&mut self, key: &str, now: i64, used: i64) -> (r: Option<DBEntry>)
        requires
            old(self).wf(),
        ensures
            final(self).wf(),
            ({
                let items = old(self).items();
                if items.contains_key(key@) && !expired(items[key@], now) {
                    &&& r matches Some(e) && e@ == read_once(items[key@], used)
                    &&& final(self).items() == items.insert(key@, read_once(items[key@], used))
                } else {
                    &&& r is None
                    &&& final(self).items() == items.remove(key@)
                }
            }),
    {
        let past: bool = match self.entries.get(key) {
            None => {
                assert(self.items() =~= old(self).items().remove(key@));
                return None;
            },
            Some(e) => e.ttl != 0 && e.ttl < now,
        };
        if past {
            self.entries.remove(key);
            assert(self.items() =~= old(self).items().remove(key@));
            return None;
        }
        let mut r: Option<DBEntry> = None;
        if let Some(e) = self.entries.get_mut(key) {
            e.used_count = e.used_count.wrapping_add(1);
            e.last_used = used;
            r = Some(e.copy());
        }
        assert(self.items() =~= old(self).items().insert(
            key@,
            read_once(old(self).items()[key@], used),
        ));
        r
    }

    fn del(&mut self, key: &str) -> (r: Result<(), KvError>)
        requires
            old(self).wf(),
        ensures
            final(self).wf(),
            final(self).items() == old(self).items().remove(key@),
            match r {
                Ok(()) => old(self).items().contains_key(key@),
                Err(e) => {
                    &&& e matches KvError::KeyNotFound(k) && k@ == key@
                    &&& !old(self).items().contains_key(key@)
                },
            },
    {
        let found = self.entries.remove(key);
        assert(self.items() =~= old(self).items().remove(key@));
        match found {
            Some(_) => Ok(()),
            None => Err(KvError::KeyNotFound(copy_str(key))),
        }
    }

    fn flush(&mut self)
        ensures
            final(self).wf(),
            final(self).items() == Map::<Seq<char>, KvItem>::empty(),
    {
        self.entries.clear();
        assert(self.items() =~= Map::<Seq<char>, KvItem>::empty());
    }

    /// Drops the keys used least among those that are looked at.
    fn expire_least_used(&mut self)
        requires
            old(self).wf(),
        ensures
            final(self).wf(),
            evicted(old(self).items(), final(self).items()),
    {
        let n: usize = self.entries.len();
        proof {
            self.entries.lemma_order();
            assert(self.items().dom() =~= self.entries@.dom());
        }
        if n == 0 {
            return ;
        }
        let fifth: usize = n / 5;
        let wanted: usize = if fifth > 16 {
            fifth
        } else {
            16
        };
        let size: usize = if wanted < n {
            wanted
        } else {
            n
        };
        let mut candidates: Vec<Candidate> = Vec::new();
        let mut i: usize = 0;
        while i < size
            invariant
                i <= size <= self.entries.order().len(),
                *self == *old(self),
                self.wf(),
                ranked(candidates@),
                candidates@.len() == i,
                slots_of(candidates@).no_duplicates(),
                forall|j: int|
                    0 <= j < i ==> {
                        let c = #[trigger] candidates@[j];
                        let key = self.entries.order()[c.slot as int];
                        &&& c.slot < i
                        &&& self.entries@.contains_key(key)
                        &&& c.used_count == self.entries@[key].used_count
                        &&& c.last_used == self.entries@[key].last_used
                    },
            decreases size - i,
        {
            let e = self.entries.at(i);
            let new = Candidate { slot: i, used_count: e.1.used_count, last_used: e.1.last_used };
            let ghost before = candidates@;
            insert_ranked(&mut candidates, new);
            proof {
                let p = choose|p: int|
                    0 <= p <= before.len() && candidates@ == #[trigger] before.insert(p, new);
                assert forall|a: int, b: int|
                    0 <= a < candidates@.len() && 0 <= b < candidates@.len() && a != b implies
                    slots_of(candidates@)[a] != slots_of(candidates@)[b] by {
                    let x = if a < p { a } else { a - 1 };
                    let y = if b < p { b } else { b - 1 };
                    if a != p && b != p {
                        assert(slots_of(before)[x] != slots_of(before)[y]);
                    } else if a == p {
                        assert(before[y].slot < i);
                    } else {
                        assert(before[x].slot < i);
                    }
                }
                assert forall|j: int| 0 <= j < candidates@.len() implies {
                    let c = #[trigger] candidates@[j];
                    let key = self.entries.order()[c.slot as int];
                    &&& c.slot < i + 1
                    &&& self.entries@.contains_key(key)
                    &&& c.used_count == self.entries@[key].used_count
                    &&& c.last_used == self.entries@[key].last_used
                } by {
                    if j < p {
                        assert(candidates@[j] == before[j]);
                    } else if j > p {
                        assert(candidates@[j] == before[j - 1]);
                    }
                }
            }
            i = i + 1;
        }
        let quarter: usize = size / 4;
        let remove: usize = if quarter > 1 {
            quarter
        } else {
            1
        };
        let ghost sample = Seq::new(
            candidates@.len(),
            |j: int| self.entries.order()[candidates@[j].slot as int],
        );
        let mut doomed: Vec<String> = Vec::new();
        let mut j: usize = 0;
        while j < remove
            invariant
                j <= remove <= size,
                size == candidates@.len(),
                size <= self.entries.order().len(),
                *self == *old(self),
                self.wf(),
                sample == Seq::new(
                    candidates@.len(),
                    |j: int| self.entries.order()[candidates@[j].slot as int],
                ),
                forall|j: int| 0 <= j < size ==> (#[trigger] candidates@[j]).slot < size,
                strings_view(doomed@) =~= sample.take(j as int),
            decreases remove - j,
        {
            let e = self.entries.at(candidates[j].slot);
            let ghost d = doomed@;
            let name = copy_str(e.0.as_str());
            doomed.push(name);
            proof {
                assert(name@ == sample[j as int]);
                assert(strings_view(doomed@) =~= strings_view(d).push(name@));
                assert(sample.take(j + 1) =~= sample.take(j as int).push(sample[j as int]));
            }
            j = j + 1;
        }
        let ghost before = self.items();
        let mut k: usize = 0;
        while k < doomed.len()
            invariant
                k <= doomed@.len(),
                self.wf(),
                self.items() =~= before.remove_keys(strings_view(doomed@).take(k as int).to_set()),
            decreases doomed@.len() - k,
        {
            let ghost now = self.items();
            let gone = self.entries.remove(doomed[k].as_str());
            proof {
                let names = strings_view(doomed@);
                assert(self.items() =~= now.remove(names[k as int]));
                assert(names.take(k + 1) =~= names.take(k as int).push(names[k as int]));
                names.take(k as int).lemma_push_to_set_commute(names[k as int]);
            }
            k = k + 1;
        }
        proof {
            assert(strings_view(doomed@).take(k as int) =~= sample.take(remove as int));
            assert(is_ranked_sample(before, sample)) by {
                assert forall|a: int, b: int|
                    0 <= a < sample.len() && 0 <= b < sample.len() && a != b implies sample[a]
                    != sample[b] by {
                    assert(slots_of(candidates@)[a] != slots_of(candidates@)[b]);
                }
                assert forall|a: int| 0 <= a < sample.len() implies before.contains_key(
                    #[trigger] sample[a],
                ) by {
                    assert(candidates@[a].slot < size);
                }
                assert forall|a: int, b: int| 0 <= a < b < sample.len() implies used_no_more(
                    before[#[trigger] sample[a]],
                    before[#[trigger] sample[b]],
                ) by {
                    assert(ranks_before(candidates@[a], candidates@[b]));
                }
            }
        }
    }
}

/// A database as it was, or that there was none.
pub struct SavedDb {
    db: Option<DB>,
}

impl SavedDb {
    pub closed spec fn wf(&self) -> bool {
        self.db matches Some(d) ==> d.wf()
    }

    /// What the database held, if there was one.
    pub closed spec fn items(&self) -> Option<DbItems> {
        match self.db {
            Some(d) => Some(d.items()),
            None => None,
        }
    }
}

/// A map with the value of a key set, or, where there is none, without the key.
pub open spec fn with_value<V>(m: Map<Seq<char>, V>, key: Seq<char>, value: Option<V>) -> Map<
    Seq<char>,
    V,
> {
    match value {
        Some(v) => m.insert(key, v),
        None => m.remove(key),
    }
}

/// The databases, and the clock by which they expire.
pub struct KvStore {
    dbs: StrMap<DB>,
    clock: Clock,
}

impl View for KvStore {
    type V = Databases;

    closed spec fn view(&self) -> Databases {
        self.dbs@.map_values(|db: DB| db.items())
    }
}

impl KvStore {
    pub closed spec fn wf(&self) -> bool {
        &&& self.dbs.wf()
        &&& forall|k: Seq<char>| #[trigger] self.dbs@.contains_key(k) ==> self.dbs@[k].wf()
    }

    pub fn new() -> (r: Self)
        ensures
            r.wf(),
            r@ == Map::<Seq<char>, DbItems>::empty(),
            r.readings() == Seq::<i64>::empty(),
    {
        let r = KvStore { dbs: StrMap::new(), clock: Clock::new() };
        assert(r@ =~= Map::<Seq<char>, DbItems>::empty());
        r
    }

    /// What the clock has been read as for this store, in order.
    pub closed spec fn readings(&self) -> Seq<i64> {
        self.clock.readings()
    }

    /// Makes sure that there is a database of this name.
    fn ensure_db(&mut self, db: &str)
        requires
            old(self).wf(),
        ensures
            final(self).wf(),
            final(self)@.contains_key(db@),
            final(self)@ == old(self)@.insert(db@, db_of(old(self)@, db@)),
            final(self).readings() == old(self).readings(),
    {
        if !self.dbs.contains_key(db) {
            self.dbs.insert(copy_str(db), DB::new(db));
        }
        assert(self@ =~= old(self)@.insert(db@, db_of(old(self)@, db@)));
    }

    /// Borrows a database for change, making it where there is none.
    fn get_db_mut(&mut self, db: &str) -> (r: Option<&mut DB>)
        requires
            old(self).wf(),
        ensures
            match r {
                Some(d) => {
                    &&& d.wf()
                    &&& d.items() == db_of(old(self)@, db@)
                    &&& final(d).wf() ==> final(self).wf()
                    &&& final(self)@ == old(self)@.insert(db@, final(d).items())
                    &&& final(self).readings() == old(self).readings()
                },
                None => false,
            },
    {
        self.ensure_db(db);
        let ghost mid = *self;
        assert(mid@[db@] == mid.dbs@[db@].items());
        let r = self.dbs.get_mut(db);
        proof {
            if let Some(d) = &r {
                let f = *final(*d);
                let now = mid.dbs@.insert(db@, f);
                assert(now.map_values(|db: DB| db.items()) =~= mid@.insert(db@, f.items()));
                assert(mid@.insert(db@, f.items()) =~= old(self)@.insert(db@, f.items()));
            }
        }
        r
    }

    /// Writes a key where the clock reads `now` and then `used`.
    pub fn set_at(&mut self, db: &str, key: String, val: Vec<u8>, ttl: i64, now: i64, used: i64)
        requires
            old(self).wf(),
        ensures
            final(self).wf(),
            final(self).readings() == old(self).readings(),
            kv_written(old(self)@, final(self)@, db@, key@, val@, ttl, now, used),
    {
        let ttl_ts: i64 = if ttl == 0 {
            0
        } else {
            now.wrapping_add(ttl)
        };
        if let Some(d) = self.get_db_mut(db) {
            let ghost items = d.items();
            let n: usize = d.entries.len();
            assert(d.items().dom() =~= d.entries@.dom());
            if n >= EVICTION_THRESHOLD {
                d.expire_least_used();
            }
            assert(made_room(items, d.items()));
            d.set(key, DBEntry { val, ttl: ttl_ts, used_count: 0, last_used: used });
        }
    }

    /// Writes a key, which expires `ttl` milliseconds from now, or never where `ttl` is 0.
    pub fn set(&mut self, db: &str, key: String, val: Vec<u8>, ttl: i64) -> (r: Result<(), KvError>)
        requires
            old(self).wf(),
        ensures
            final(self).wf(),
            r is Ok,
            exists|now: i64, used: i64|
                {
                    &&& #[trigger] kv_written(
                        old(self)@,
                        final(self)@,
                        db@,
                        key@,
                        val@,
                        ttl,
                        now,
                        used,
                    )
                    &&& is_reading(now) && is_reading(used)
                    &&& final(self).readings() == old(self).readings().push(now).push(used)
                },
    {
        let now: i64 = now_millis(&mut self.clock);
        let used: i64 = now_millis(&mut self.clock);
        assert(self@ =~= old(self)@);
        self.set_at(db, key, val, ttl, now, used);
        Ok(())
    }

    /// Reads a key where the clock reads `now` and then `used`.
    pub fn get_at(&mut self, db: &str, key: &str, now: i64, used: i64) -> (r: Option<DBEntry>)
        requires
            old(self).wf(),
        ensures
            final(self).wf(),
            final(self).readings() == old(self).readings(),
            final(self)@ == kv_after_read(old(self)@, db@, key@, now, used),
            match r {
                Some(e) => kv_found(old(self)@, db@, key@, now, used) == Some(e@),
                None => kv_found(old(self)@, db@, key@, now, used) is None,
            },
    {
        match self.get_db_mut(db) {
            Some(d) => d.get(key, now, used),
            None => None,
        }
    }

    /// Reads a key, if it has not expired by now.
    pub fn get(&mut self, db: &str, key: String) -> (r: Result<Option<DBEntry>, KvError>)
        requires
            old(self).wf(),
        ensures
            final(self).wf(),
            exists|now: i64, used: i64|
                {
                    &&& final(self)@ == #[trigger] kv_after_read(old(self)@, db@, key@, now, used)
                    &&& is_reading(now) && is_reading(used)
                    &&& final(self).readings() == old(self).readings().push(now).push(used)
                    &&& match r {
                        Ok(Some(e)) => kv_found(old(self)@, db@, key@, now, used) == Some(e@),
                        Ok(None) => kv_found(old(self)@, db@, key@, now, used) is None,
                        Err(_) => false,
                    }
                },
    {
        let now: i64 = now_millis(&mut self.clock);
        let used: i64 = now_millis(&mut self.clock);
        assert(self@ =~= old(self)@);
        Ok(self.get_at(db, key.as_str(), now, used))
    }

    /// Drops a key.
    pub fn del(&mut self, db: &str, key: &str) -> (r: Result<(), KvError>)
        requires
            old(self).wf(),
        ensures
            final(self).wf(),
            final(self).readings() == old(self).readings(),
            final(self)@ == old(self)@.insert(db@, db_of(old(self)@, db@).remove(key@)),
            match r {
                Ok(()) => db_of(old(self)@, db@).contains_key(key@),
                Err(e) => {
                    &&& e matches KvError::KeyNotFound(k) && k@ == key@
                    &&& !db_of(old(self)@, db@).contains_key(key@)
                },
            },
    {
        match self.get_db_mut(db) {
            Some(d) => d.del(key),
            None => Err(KvError::KeyNotFound(copy_str(key))),
        }
    }

    /// The keys of a database, in no order that is promised. Entries that have expired and were
    /// not read since are among them.
    pub fn keys(&self, db: &str) -> (r: Result<Vec<String>, KvError>)
        requires
            self.wf(),
        ensures
            match r {
                Ok(keys) => {
                    &&& strings_view(keys@).no_duplicates()
                    &&& strings_view(keys@).to_set() == db_of(self@, db@).dom()
                },
                Err(_) => false,
            },
    {
        match self.dbs.get(db) {
            None => {
                let keys: Vec<String> = Vec::new();
                assert(strings_view(keys@).to_set() =~= db_of(self@, db@).dom());
                Ok(keys)
            },
            Some(d) => {
                proof {
                    d.entries.lemma_order();
                    assert(d.items().dom() =~= d.entries@.dom());
                }
                Ok(d.entries.keys())
            },
        }
    }

    /// Drops all keys of a database.
    pub fn flush(&mut self, db: &str) -> (r: Result<(), KvError>)
        requires
            old(self).wf(),
        ensures
            final(self).wf(),
            final(self).readings() == old(self).readings(),
            final(self)@ == old(self)@.insert(db@, Map::empty()),
            r is Ok,
    {
        if let Some(d) = self.get_db_mut(db) {
            d.flush();
        }
        Ok(())
    }

    /// Takes a copy of a database as it is, so that it can be put back.
    pub fn saved(&self, db: &str) -> (r: SavedDb)
        requires
            self.wf(),
        ensures
            r.wf(),
            r.items() == (if self@.contains_key(db@) {
                Some(self@[db@])
            } else {
                None
            }),
    {
        match self.dbs.get(db) {
            Some(d) => {
                assert(self@[db@] == d.items());
                SavedDb { db: Some(d.copy()) }
            },
            None => SavedDb { db: None },
        }
    }

    /// Puts a database back as it was, or drops it where there was none.
    pub fn put_back(&mut self, db: &str, saved: SavedDb)
        requires
            old(self).wf(),
            saved.wf(),
        ensures
            final(self).wf(),
            final(self).readings() == old(self).readings(),
            final(self)@ == with_value(old(self)@, db@, saved.items()),
    {
        match saved.db {
            Some(d) => {
                self.dbs.insert(copy_str(db), d);
            },
            None => {
                let _ = self.dbs.remove(db);
            },
        }
        assert(self@ =~= with_value(old(self)@, db@, saved.items()));
    }

    /// Makes an empty database.
    pub fn create_db(&mut self, id: &str) -> (r: Result<(), KvError>)
        requires
            old(self).wf(),
        ensures
            final(self).wf(),
            final(self).readings() == old(self).readings(),
            match r {
                Ok(()) => {
                    &&& !old(self)@.contains_key(id@)
                    &&& final(self)@ == old(self)@.insert(id@, Map::empty())
                },
                Err(e) => {
                    &&& e matches KvError::DatabaseExists(name) && name@ == id@
                    &&& old(self)@.contains_key(id@)
                    &&& final(self)@ == old(self)@
                },
            },
    {
        if self.dbs.contains_key(id) {
            return Err(KvError::DatabaseExists(copy_str(id)));
        }
        self.dbs.insert(copy_str(id), DB::new(id));
        assert(self@ =~= old(self)@.insert(id@, Map::empty()));
        Ok(())
    }
}

/// A key that was written is found with its value until it expires, and not afterwards.
pub proof fn law_kv_write_then_read(
    before: Databases,
    after: Databases,
    db: Seq<char>,
    key: Seq<char>,
    val: Seq<u8>,
    ttl: i64,
    now: i64,
    used: i64,
    later: i64,
    read: i64,
)
    requires
        kv_written(before, after, db, key, val, ttl, now, used),
    ensures
        match kv_found(after, db, key, later, read) {
            Some(item) => !expired(written(val, ttl, now, used), later) && item.val == val,
            None => expired(written(val, ttl, now, used), later),
        },
        ttl == 0 ==> kv_found(after, db, key, later, read) is Some,
        ttl > 0 && 0 < now && now + ttl <= i64::MAX ==> (kv_found(after, db, key, later, read)
            is Some <==> later <= now + ttl),
{
}

/// A key that was dropped is not found, nor is any key of a database that was flushed.
pub proof fn law_kv_drop_then_read(dbs: Databases, db: Seq<char>, key: Seq<char>, now: i64, used: i64)
    ensures
        kv_found(dbs.insert(db, db_of(dbs, db).remove(key)), db, key, now, used) is None,
        kv_found(dbs.insert(db, Map::empty()), db, key, now, used) is None,
{
}

/// Reading a key does not change what is read of it next, until it expires.
pub proof fn law_kv_read_twice(dbs: Databases, db: Seq<char>, key: Seq<char>, now: i64, used: i64, later: i64)
    requires
        kv_found(dbs, db, key, now, used) is Some,
        !expired(db_of(dbs, db)[key], later),
    ensures
        kv_found(kv_after_read(dbs, db, key, now, used), db, key, later, used) matches Some(again)
            && again.val == kv_found(dbs, db, key, now, used)->0.val,
{
}

/// What is done in one database leaves every other database as it is.
pub proof fn law_databases_are_isolated(
    before: Databases,
    after: Databases,
    db: Seq<char>,
    other: Seq<char>,
    key: Seq<char>,
    val: Seq<u8>,
    ttl: i64,
    now: i64,
    used: i64,
)
    requires
        db != other,
        kv_written(before, after, db, key, val, ttl, now, used),
    ensures
        db_of(after, other) == db_of(before, other),
        db_of(kv_after_read(before, db, key, now, used), other) == db_of(before, other),
        db_of(before.insert(db, db_of(before, db).remove(key)), other) == db_of(before, other),
        db_of(before.insert(db, Map::empty()), other) == db_of(before, other),
{
}

/// An eviction drops as many keys as it should and keeps the others as they are.
pub proof fn law_kv_eviction(before: DbItems, after: DbItems)
    requires
        before.dom().finite(),
        before.len() > 0,
        evicted(before, after),
    ensures
        after.submap_of(before),
        after.dom().finite(),
        after.len() == before.len() - eviction_size(sample_size(before.len())),
{
    let sample = choose|sample: Seq<Seq<char>>| #[trigger]
        is_ranked_sample(before, sample) && after == before.remove_keys(
            sample.take(eviction_size(sample.len()) as int).to_set(),
        );
    let n = eviction_size(sample.len());
    let gone = sample.take(n as int);
    assert(gone.no_duplicates());
    gone.unique_seq_to_set();
    assert(gone.to_set().subset_of(before.dom())) by {
        assert forall|k: Seq<char>| gone.to_set().contains(k) implies before.dom().contains(k) by {
            let i = gone.index_of(k);
            assert(gone[i] == k);
            assert(sample[i] == k);
            assert(before.contains_key(sample[i]));
        }
    }
    assert(after.dom() =~= before.dom().difference(gone.to_set()));
    lemma_difference_len(before.dom(), gone.to_set());
}

/// Taking a part away from a finite set leaves the rest.
proof fn lemma_difference_len(a: Set<Seq<char>>, b: Set<Seq<char>>)
    requires
        a.finite(),
        b.subset_of(a),
    ensures
        a.difference(b).finite(),
        a.difference(b).len() == a.len() - b.len(),
{
    vstd::set_lib::lemma_len_subset(b, a);
    assert(a =~= b.union(a.difference(b)));
    vstd::set_lib::lemma_set_disjoint_lens(b, a.difference(b));
}

/// A database of at most 1024 keys has at most 1024 keys after a write.
pub proof fn law_kv_write_is_bounded(
    before: Databases,
    after: Databases,
    db: Seq<char>,
    key: Seq<char>,
    val: Seq<u8>,
    ttl: i64,
    now: i64,
    used: i64,
)
    requires
        kv_written(before, after, db, key, val, ttl, now, used),
        db_of(before, db).dom().finite(),
        db_of(before, db).len() <= EVICTION_THRESHOLD,
    ensures
        db_of(after, db).len() <= EVICTION_THRESHOLD,
{
    let items = db_of(before, db);
    let base = choose|base: DbItems| #[trigger]
        made_room(items, base) && after == before.insert(
            db,
            base.insert(key, written(val, ttl, now, used)),
        );
    if items.len() >= EVICTION_THRESHOLD {
        law_kv_eviction(items, base);
    }
    assert(base.insert(key, written(val, ttl, now, used)).dom() =~= base.dom().insert(key));
}

/// A write stores the value under its key, not yet used since it was written, with the time at which
/// it expires, and leaves every other key of the database as it is, as long as there are fewer keys
/// than make the database full.
pub proof fn law_kv_write_touches_one_key(
    before: Databases,
    after: Databases,
    db: Seq<char>,
    key: Seq<char>,
    val: Seq<u8>,
    ttl: i64,
    now: i64,
    used: i64,
    other: Seq<char>,
)
    requires
        kv_written(before, after, db, key, val, ttl, now, used),
        other != key,
    ensures
        db_of(after, db).contains_key(key),
        db_of(after, db)[key].val == val,
        db_of(after, db)[key].used_count == 0,
        db_of(after, db)[key].last_used == used,
        ttl == 0 ==> db_of(after, db)[key].ttl == 0,
        ttl != 0 && i64::MIN <= now + ttl <= i64::MAX ==> db_of(after, db)[key].ttl == now + ttl,
        db_of(after, db).contains_key(other) && db_of(before, db).dom().finite() ==> db_of(
            before,
            db,
        ).contains_key(other) && db_of(after, db)[other] == db_of(before, db)[other],
        db_of(before, db).len() < 1024 ==> (db_of(after, db).contains_key(other) <==> db_of(
            before,
            db,
        ).contains_key(other)),
{
    let items = db_of(before, db);
    let base = choose|base: DbItems| #[trigger]
        made_room(items, base) && after == before.insert(
            db,
            base.insert(key, written(val, ttl, now, used)),
        );
    if items.len() >= EVICTION_THRESHOLD && items.dom().finite() {
        law_kv_eviction(items, base);
    }
}

/// A write to a full database drops a quarter of a fifth of its keys first. They are the least used
/// of some fifth of the keys: none of them was used more often than one of that fifth that stays, nor
/// as often and later.
pub proof fn law_kv_eviction_takes_the_least_used(before: DbItems, after: DbItems)
    requires
        before.dom().finite(),
        before.len() >= 1024,
        evicted(before, after),
    ensures
        before.len() - after.len() == before.len() / 5 / 4,
        after.submap_of(before),
        exists|fifth: Set<Seq<char>>|
            {
                &&& #[trigger] fifth.subset_of(before.dom())
                &&& fifth.finite() && fifth.len() == before.len() / 5
                &&& forall|gone: Seq<char>| #[trigger]
                    before.contains_key(gone) && !after.contains_key(gone) ==> fifth.contains(gone)
                &&& forall|gone: Seq<char>, stays: Seq<char>|
                    #![trigger before[gone], before[stays]]
                    before.contains_key(gone) && !after.contains_key(gone) && fifth.contains(stays)
                        && after.contains_key(stays) ==> {
                        ||| before[gone].used_count < before[stays].used_count
                        ||| before[gone].used_count == before[stays].used_count
                            && before[gone].last_used <= before[stays].last_used
                    }
            },
{
    law_kv_eviction(before, after);
    let sample = choose|sample: Seq<Seq<char>>| #[trigger]
        is_ranked_sample(before, sample) && after == before.remove_keys(
            sample.take(eviction_size(sample.len()) as int).to_set(),
        );
    let n = eviction_size(sample.len()) as int;
    let fifth = sample.to_set();
    sample.unique_seq_to_set();
    assert(fifth.subset_of(before.dom())) by {
        assert forall|k: Seq<char>| fifth.contains(k) implies before.dom().contains(k) by {
            let i = sample.index_of(k);
            assert(sample[i] == k);
            assert(before.contains_key(sample[i]));
        }
    }
    assert forall|gone: Seq<char>| #[trigger]
        before.contains_key(gone) && !after.contains_key(gone) implies fifth.contains(gone) by {
        assert(sample.take(n).to_set().contains(gone));
        let i = sample.take(n).index_of(gone);
        assert(sample[i] == gone);
    }
    assert forall|gone: Seq<char>, stays: Seq<char>|
        #![trigger before[gone], before[stays]]
        before.contains_key(gone) && !after.contains_key(gone) && fifth.contains(stays)
            && after.contains_key(stays) implies {
        ||| before[gone].used_count < before[stays].used_count
        ||| before[gone].used_count == before[stays].used_count && before[gone].last_used
            <= before[stays].last_used
    } by {
        assert(sample.take(n).to_set().contains(gone));
        let i = sample.take(n).index_of(gone);
        assert(sample[i] == gone);
        let j = sample.index_of(stays);
        assert(sample[j] == stays);
        if j < n {
            assert(sample.take(n)[j] == stays);
            assert(sample.take(n).to_set().contains(stays));
        }
        assert(used_no_more(before[sample[i]], before[sample[j]]));
    }
}

/// A read of a key leaves every other key as it is. A key that is found keeps its value and the time
/// at which it expires, and counts one more use, as the last. A key that is not found is not there
/// afterwards.
pub proof fn law_kv_read_touches_one_key(
    dbs: Databases,
    db: Seq<char>,
    key: Seq<char>,
    now: i64,
    used: i64,
    other: Seq<char>,
)
    requires
        other != key,
    ensures
        ({
            let before = db_of(dbs, db);
            let after = db_of(kv_after_read(dbs, db, key, now, used), db);
            &&& after.contains_key(other) == before.contains_key(other)
            &&& before.contains_key(other) ==> after[other] == before[other]
            &&& match kv_found(dbs, db, key, now, used) {
                Some(item) => {
                    &&& before.contains_key(key) && after.contains_key(key)
                    &&& item == after[key]
                    &&& item.val == before[key].val && item.ttl == before[key].ttl
                    &&& item.last_used == used
                    &&& before[key].used_count < u64::MAX ==> item.used_count
                        == before[key].used_count + 1
                },
                None => !after.contains_key(key),
            }
        }),
{
}

/// The readings of the clock that one more operation on a store has taken.
spec fn read_at(before: Seq<i64>, after: Seq<i64>, t: i64, u: i64) -> bool {
    after == before.push(t).push(u) && is_reading(t) && is_reading(u)
}

/// What a read of a store finds goes by the first of the two readings of the clock that it takes, and
/// the second is the last use.
proof fn lemma_get_by_the_clock(
    store: &mut KvStore,
    db: &str,
    key: String,
    r: Result<Option<DBEntry>, KvError>,
)
    requires
        call_ensures(KvStore::get, (store, db, key), r),
    ensures
        ({
            let n = old(store).readings().len() as int;
            let t = final(store).readings()[n];
            let u = final(store).readings()[n + 1];
            &&& read_at(old(store).readings(), final(store).readings(), t, u)
            &&& final(store)@ == kv_after_read(old(store)@, db@, key@, t, u)
            &&& match r {
                Ok(Some(e)) => kv_found(old(store)@, db@, key@, t, u) == Some(e@),
                Ok(None) => kv_found(old(store)@, db@, key@, t, u) is None,
                Err(_) => false,
            }
        }),
{
    let (now, used) = choose|now: i64, used: i64|
        {
            &&& final(store)@ == #[trigger] kv_after_read(old(store)@, db@, key@, now, used)
            &&& is_reading(now) && is_reading(used)
            &&& final(store).readings() == old(store).readings().push(now).push(used)
            &&& match r {
                Ok(Some(e)) => kv_found(old(store)@, db@, key@, now, used) == Some(e@),
                Ok(None) => kv_found(old(store)@, db@, key@, now, used) is None,
                Err(_) => false,
            }
        };
    let n = old(store).readings().len() as int;
    assert(final(store).readings()[n] == now && final(store).readings()[n + 1] == used);
}

/// A key that is set is read back with its value until the wall clock, as it is read first for the
/// read, is past the time to live from where it stood, as it was read first for the write. From then
/// on there is no such key. Without a time to live it is read back whatever the clock reads.
pub proof fn law_set_then_get(
    first: &mut KvStore,
    second: &mut KvStore,
    db: &str,
    key: String,
    val: Vec<u8>,
    ttl: i64,
    same_key: String,
    setting: Result<(), KvError>,
    getting: Result<Option<DBEntry>, KvError>,
)
    requires
        call_ensures(KvStore::set, (first, db, key, val, ttl), setting),
        call_ensures(KvStore::get, (second, db, same_key), getting),
        final(first)@ == old(second)@,
        same_key@ == key@,
    ensures
        setting is Ok,
        final(first).readings().len() == old(first).readings().len() + 2,
        final(second).readings().len() == old(second).readings().len() + 2,
        ({
            let set_at = final(first).readings()[old(first).readings().len() as int];
            let got_at = final(second).readings()[old(second).readings().len() as int];
            let got_by = final(second).readings().last();
            &&& is_reading(set_at) && is_reading(got_at) && is_reading(got_by)
            &&& ttl == 0 || ttl > 0 && set_at + ttl <= i64::MAX && got_at <= set_at + ttl ==> {
                &&& getting matches Ok(Some(e))
                &&& e.val@ == val@
                &&& e.used_count == 1
                &&& e.last_used == got_by
            }
            &&& ttl > 0 && set_at + ttl <= i64::MAX && got_at > set_at + ttl ==> getting matches Ok(
                None,
            )
        }),
{
    let (now, used) = choose|now: i64, used: i64|
        {
            &&& #[trigger] kv_written(
                old(first)@,
                final(first)@,
                db@,
                key@,
                val@,
                ttl,
                now,
                used,
            )
            &&& is_reading(now) && is_reading(used)
            &&& final(first).readings() == old(first).readings().push(now).push(used)
        };
    lemma_get_by_the_clock(second, db, same_key, getting);
    let t = final(second).readings()[old(second).readings().len() as int];
    let u = final(second).readings()[old(second).readings().len() as int + 1];
    crate::clock::law_readings_start_at_the_epoch(now);
    law_kv_write_then_read(old(first)@, final(first)@, db@, key@, val@, ttl, now, used, t, u);
    assert(final(first).readings()[old(first).readings().len() as int] == now);
    assert(final(second).readings()[old(second).readings().len() as int] == t);
}

/// A key that is read twice is found the second time with the same value, and with one more use, unless
/// it has expired in between.
pub proof fn law_get_then_get(
    first: &mut KvStore,
    second: &mut KvStore,
    db: &str,
    key: String,
    same_key: String,
    once: Result<Option<DBEntry>, KvError>,
    twice: Result<Option<DBEntry>, KvError>,
)
    requires
        call_ensures(KvStore::get, (first, db, key), once),
        call_ensures(KvStore::get, (second, db, same_key), twice),
        final(first)@ == old(second)@,
        same_key@ == key@,
    ensures
        once matches Ok(None) ==> twice matches Ok(None),
        once matches Ok(Some(a)) ==> {
            let got_at = final(second).readings()[old(second).readings().len() as int];
            if a.ttl == 0 || got_at <= a.ttl {
                &&& twice matches Ok(Some(b))
                &&& b.val@ == a.val@ && b.ttl == a.ttl
                &&& a.used_count < u64::MAX ==> b.used_count == a.used_count + 1
                &&& b.last_used == final(second).readings().last()
            } else {
                twice matches Ok(None)
            }
        },
{
    lemma_get_by_the_clock(first, db, key, once);
    let now = final(first).readings()[old(first).readings().len() as int];
    let used = final(first).readings()[old(first).readings().len() as int + 1];
    lemma_get_by_the_clock(second, db, same_key, twice);
    let t = final(second).readings()[old(second).readings().len() as int];
    let u = final(second).readings()[old(second).readings().len() as int + 1];
    assert(final(second).readings()[old(second).readings().len() as int] == t);
}

/// A key that was there is dropped, and one that was not is missed. Either way the next read finds
/// none, and every other key stays.
pub proof fn law_del_then_get(
    first: &mut KvStore,
    second: &mut KvStore,
    db: &str,
    key: &str,
    same_key: String,
    deleting: Result<(), KvError>,
    getting: Result<Option<DBEntry>, KvError>,
    other: Seq<char>,
)
    requires
        call_ensures(KvStore::del, (first, db, key), deleting),
        call_ensures(KvStore::get, (second, db, same_key), getting),
        final(first)@ == old(second)@,
        same_key@ == key@,
        other != key@,
    ensures
        getting matches Ok(None),
        deleting is Ok <==> db_of(old(first)@, db@).contains_key(key@),
        db_of(final(first)@, db@).contains_key(other) == db_of(old(first)@, db@).contains_key(other),
        db_of(old(first)@, db@).contains_key(other) ==> db_of(final(first)@, db@)[other] == db_of(
            old(first)@,
            db@,
        )[other],
{
    lemma_get_by_the_clock(second, db, same_key, getting);
}

/// A database that is flushed has no keys, and the other databases stay as they are.
pub proof fn law_flush_leaves_nothing(
    first: &mut KvStore,
    second: &KvStore,
    db: &str,
    flushing: Result<(), KvError>,
    listing: Result<Vec<String>, KvError>,
    other: Seq<char>,
)
    requires
        call_ensures(KvStore::flush, (first, db), flushing),
        call_ensures(KvStore::keys, (second, db), listing),
        final(first)@ == second@,
        other != db@,
    ensures
        flushing is Ok,
        listing matches Ok(keys) && keys@.len() == 0,
        db_of(final(first)@, other) == db_of(old(first)@, other),
{
    let keys = strings_view((listing->Ok_0)@);
    if keys.len() > 0 {
        assert(keys.to_set().contains(keys[0]));
    }
}

/// The keys of a database are those that are in it, each once.
pub proof fn law_keys_are_listed(store: &KvStore, db: &str, r: Result<Vec<String>, KvError>, key: Seq<char>)
    requires
        call_ensures(KvStore::keys, (store, db), r),
    ensures
        r is Ok,
        strings_view((r->Ok_0)@).no_duplicates(),
        strings_view((r->Ok_0)@).contains(key) <==> db_of(store@, db@).contains_key(key),
{
    let keys = strings_view((r->Ok_0)@);
    assert(keys.to_set().contains(key) == keys.contains(key));
}

/// A database that was saved is put back as it was, whatever was done to it since. The others stay as
/// they are.
pub proof fn law_saved_database_is_put_back(
    first: &KvStore,
    second: &mut KvStore,
    db: &str,
    saved: SavedDb,
    other: Seq<char>,
)
    requires
        call_ensures(KvStore::saved, (first, db), saved),
        call_ensures(KvStore::put_back, (second, db, saved), ()),
        other != db@,
    ensures
        final(second)@.contains_key(db@) == first@.contains_key(db@),
        db_of(final(second)@, db@) == db_of(first@, db@),
        final(second)@.contains_key(other) == old(second)@.contains_key(other),
        db_of(final(second)@, other) == db_of(old(second)@, other),
        (forall|name: Seq<char>|
            name != db@ ==> #[trigger] old(second)@.contains_key(name) == first@.contains_key(name)
                && old(second)@[name] == first@[name]) ==> final(second)@ == first@,
{
    if forall|name: Seq<char>|
        name != db@ ==> #[trigger] old(second)@.contains_key(name) == first@.contains_key(name)
            && old(second)@[name] == first@[name] {
        assert(final(second)@ =~= first@);
    }
}

/// What is said of a request that the store refuses.
pub proof fn law_kv_errors_say(e: &KvError, m: String)
    requires
        call_ensures(KvError::message, (e,), m),
    ensures
        *e matches KvError::KeyNotFound(key) ==> m@ == key@ + " not found"@,
        *e matches KvError::DatabaseExists(id) ==> m@ == "database "@ + id@ + " already exists"@,
{
}

/// A database that is made is empty, and is not made twice.
pub proof fn law_database_is_made(
    store: &mut KvStore,
    id: &str,
    r: Result<(), KvError>,
    other: Seq<char>,
)
    requires
        call_ensures(KvStore::create_db, (store, id), r),
        other != id@,
    ensures
        r is Ok <==> !old(store)@.contains_key(id@),
        final(store)@.contains_key(id@),
        r is Ok ==> final(store)@[id@].dom() == Set::<Seq<char>>::empty(),
        r is Err ==> final(store)@ == old(store)@,
        final(store)@.contains_key(other) == old(store)@.contains_key(other),
        final(store)@[other] == old(store)@[other],
        r matches Err(KvError::DatabaseExists(name)) ==> name@ == id@,
{
}

/// A key that is set while the clock reads `now` is found at `later` with its value exactly while `later`
/// is not past the time to live from `now`, or where there is no time to live.
pub proof fn law_set_at_then_get_at(
    first: &mut KvStore,
    second: &mut KvStore,
    db: &str,
    key: String,
    name: &str,
    val: Vec<u8>,
    ttl: i64,
    now: i64,
    used: i64,
    later: i64,
    last_used: i64,
    getting: Option<DBEntry>,
)
    requires
        call_ensures(KvStore::set_at, (first, db, key, val, ttl, now, used), ()),
        call_ensures(KvStore::get_at, (second, db, name, later, last_used), getting),
        final(first)@ == old(second)@,
        name@ == key@,
        ttl == 0 || ttl > 0 && 0 <= now && now + ttl <= i64::MAX,
    ensures
        getting is Some <==> ttl == 0 || later <= now + ttl,
        getting matches Some(e) ==> e.val@ == val@ && e.used_count == 1 && e.last_used == last_used
            && e.ttl == (if ttl == 0 {
            0
        } else {
            now + ttl
        }),
        final(first).readings() == old(first).readings(),
        final(second).readings() == old(second).readings(),
{
    law_kv_write_then_read(
        old(first)@,
        final(first)@,
        db@,
        key@,
        val@,
        ttl,
        now,
        used,
        later,
        last_used,
    );
}

} // verus!
