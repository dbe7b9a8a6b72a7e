//! The database: the three stores, and the log of the writes to them.

use crate::aof::{entries_view, of_category, AofEntries, AofEntry, AofView, EntryCategory};
use crate::clock::is_reading;
use crate::groups::{
    lemma_pushed_all_count, lemma_taken_part, pushed_all as log_pushed_all, ranged, refused_by,
    taken, GroupError, GroupManager, GroupStats, Logs,
};
use crate::kv::{
    db_of, kv_after_read, kv_found, kv_written, with_value, DBEntry, Databases, KvError, KvStore,
    SavedDb,
};
use crate::proto::stamped_view;
use crate::seg_list::{
    fitting, item_fits, items_of, lemma_fitting, lemma_fitting_part, popped, pushed, pushed_all,
    ListError, Lists, SegList,
};
use crate::seg_log::{refusal, LogError, LogMark, LogView};
use crate::views::{
    copy_bytes, copy_str, copy_vecs, pairs_view, strings_view, triples_view, vecs_view,
};
use vstd::prelude::*;

verus! {

/// Why a log is not applied to its end: the entry at this place asks a list for more than it has.
#[derive(Debug, Clone, Copy, PartialEq, Eq, Structural)]
pub struct ReplayError {
    pub at: usize,
}

/// Why the database refuses a request.
#[derive(Debug)]
pub enum DBError {
    LogCreateGroupError(GroupError),
    LogDropGroupError(GroupError),
    LogAppendError(GroupError),
    LogAppendRangeError(GroupError),
    LogReadError(GroupError),
    LogReadRangeError(GroupError),
    LogRemoveError(GroupError),
    LogGroupStatsError(GroupError),
    KVSetError(KvError),
    KVGetError(KvError),
    KVDelError(KvError),
    KVKeysError(KvError),
    KVFlushError(KvError),
    ListPushError(ListError),
    ListPushRangeError(ListError),
    ListPopError(ListError),
    ListPopRangeError(ListError),
    ListPopCountError(ListError),
    ListLenError(ListError),
    ListFlushError(ListError),
}

/// A message with what it is about in front.
fn prefixed(prefix: &str, m: String) -> (r: String)
    ensures
        r@ == prefix@ + m@,
{
    let mut r = copy_str(prefix);
    r.append(m.as_str());
    r
}

impl DBError {
    /// What the error says of itself.
    pub open spec fn text(self) -> Seq<char> {
        match self {
            DBError::LogCreateGroupError(e) => "failed to create group: "@ + e.text(),
            DBError::LogDropGroupError(e) => "failed to drop group: "@ + e.text(),
            DBError::LogAppendError(e) => "failed to append to log: "@ + e.text(),
            DBError::LogAppendRangeError(e) => "failed to append range to log: "@ + e.text(),
            DBError::LogReadError(e) => "failed to read from log: "@ + e.text(),
            DBError::LogReadRangeError(e) => "failed to read range from log: "@ + e.text(),
            DBError::LogRemoveError(e) => "failed to remove from log: "@ + e.text(),
            DBError::LogGroupStatsError(e) => "failed to read group stats: "@ + e.text(),
            DBError::KVSetError(e) => "failed to set key: "@ + e.text(),
            DBError::KVGetError(e) => "failed to get key: "@ + e.text(),
            DBError::KVDelError(e) => "failed to del key: "@ + e.text(),
            DBError::KVKeysError(e) => "failed to return keys: "@ + e.text(),
            DBError::KVFlushError(e) => "failed to flush: "@ + e.text(),
            DBError::ListPushError(e) => "failed to push: "@ + e.text(),
            DBError::ListPushRangeError(e) => "failed to push range: "@ + e.text(),
            DBError::ListPopError(e) => "failed to pop: "@ + e.text(),
            DBError::ListPopRangeError(e) => "failed to pop range: "@ + e.text(),
            DBError::ListPopCountError(e) => "failed to pop count: "@ + e.text(),
            DBError::ListLenError(e) => "failed to get len: "@ + e.text(),
            DBError::ListFlushError(e) => "failed to flush list: "@ + e.text(),
        }
    }

    pub fn message(&self) -> (r: String)
        ensures
            r@ == self.text(),
    {
        match self {
            DBError::LogCreateGroupError(e) => prefixed("failed to create group: ", e.message()),
            DBError::LogDropGroupError(e) => prefixed("failed to drop group: ", e.message()),
            DBError::LogAppendError(e) => prefixed("failed to append to log: ", e.message()),
            DBError::LogAppendRangeError(e) => prefixed("failed to append range to log: ", e.message()),
            DBError::LogReadError(e) => prefixed("failed to read from log: ", e.message()),
            DBError::LogReadRangeError(e) => prefixed("failed to read range from log: ", e.message()),
            DBError::LogRemoveError(e) => prefixed("failed to remove from log: ", e.message()),
            DBError::LogGroupStatsError(e) => prefixed("failed to read group stats: ", e.message()),
            DBError::KVSetError(e) => prefixed("failed to set key: ", e.message()),
            DBError::KVGetError(e) => prefixed("failed to get key: ", e.message()),
            DBError::KVDelError(e) => prefixed("failed to del key: ", e.message()),
            DBError::KVKeysError(e) => prefixed("failed to return keys: ", e.message()),
            DBError::KVFlushError(e) => prefixed("failed to flush: ", e.message()),
            DBError::ListPushError(e) => prefixed("failed to push: ", e.message()),
            DBError::ListPushRangeError(e) => prefixed("failed to push range: ", e.message()),
            DBError::ListPopError(e) => prefixed("failed to pop: ", e.message()),
            DBError::ListPopRangeError(e) => prefixed("failed to pop range: ", e.message()),
            DBError::ListPopCountError(e) => prefixed("failed to pop count: ", e.message()),
            DBError::ListLenError(e) => prefixed("failed to get len: ", e.message()),
            DBError::ListFlushError(e) => prefixed("failed to flush list: ", e.message()),
        }
    }
}

/// The lists after an entry of the log is applied.
pub open spec fn list_step(lists: Lists, e: AofView) -> Lists {
    match e {
        AofView::ListPush { key, payload } => if item_fits(payload) {
            pushed(lists, key, payload)
        } else {
            lists
        },
        AofView::ListPushRange { key, items } => pushed_all(
            lists,
            key,
            items.take(fitting(items) as int),
        ),
        AofView::ListPop { key } => if lists.contains_key(key) {
            popped(lists, key, 0, 1)
        } else {
            lists
        },
        AofView::ListPopRange { key, start, end } => if lists.contains_key(key) && end
            <= lists[key].len() {
            popped(lists, key, start as int, end as int)
        } else {
            lists
        },
        AofView::ListPopCount { key, count } => if lists.contains_key(key) {
            popped(lists, key, 0, count as int)
        } else {
            lists
        },
        AofView::ListFlush { key } => if lists.contains_key(key) {
            lists.insert(key, Seq::empty())
        } else {
            lists
        },
        _ => lists,
    }
}

/// Whether an entry of the log asks a list for no more than it has.
pub open spec fn list_step_ok(lists: Lists, e: AofView) -> bool {
    match e {
        AofView::ListPop { key } => lists.contains_key(key) ==> lists[key].len() > 0,
        AofView::ListPopRange { key, start, end } => lists.contains_key(key) && end
            <= lists[key].len() ==> start <= end,
        AofView::ListPopCount { key, count } => lists.contains_key(key) ==> count
            <= lists[key].len(),
        _ => true,
    }
}

/// The groups after an entry of the log is applied.
pub open spec fn log_step(logs: Logs, e: AofView) -> Logs {
    match e {
        AofView::LogCreateGroup { name } => if logs.contains_key(name) {
            logs
        } else {
            logs.insert(name, LogView::empty())
        },
        AofView::LogDropGroup { name } => logs.remove(name),
        AofView::LogAdd { group, timestamp, payload } => if !logs.contains_key(group) {
            logs
        } else if logs[group].takes(payload) {
            logs.insert(group, logs[group].pushed(timestamp, payload))
        } else {
            refused_by(logs, group, payload)
        },
        AofView::LogAddRange { group, entries } => if logs.contains_key(group) {
            logs.insert(group, ranged(logs[group], entries))
        } else {
            logs
        },
        AofView::LogRemove { group, up_to_id } => if logs.contains_key(group) {
            logs.insert(group, logs[group].trimmed(up_to_id))
        } else {
            logs
        },
        _ => logs,
    }
}

/// `after` are the databases after an entry of the log is applied while the clock reads `now` and
/// then `used`.
pub open spec fn kv_step(
    before: Databases,
    after: Databases,
    e: AofView,
    now: i64,
    used: i64,
) -> bool {
    match e {
        AofView::KvSet { db, key, val, ttl } => {
            &&& kv_written(before, after, db, key, val, ttl, now, used)
            &&& is_reading(now) && is_reading(used)
        },
        AofView::KvDel { db, key } => after == before.insert(db, db_of(before, db).remove(key)),
        AofView::KvFlush { db } => after == before.insert(db, Map::empty()),
        _ => after == before,
    }
}

/// The lists after entries of the log are applied in order.
pub open spec fn list_steps(lists: Lists, entries: Seq<AofView>) -> Lists
    decreases entries.len(),
{
    if entries.len() == 0 {
        lists
    } else {
        list_step(list_steps(lists, entries.drop_last()), entries.last())
    }
}

/// Whether no entry asks a list for more than it has at that point.
pub open spec fn list_steps_ok(lists: Lists, entries: Seq<AofView>) -> bool
    decreases entries.len(),
{
    entries.len() > 0 ==> {
        &&& list_steps_ok(lists, entries.drop_last())
        &&& list_step_ok(list_steps(lists, entries.drop_last()), entries.last())
    }
}

/// The groups after entries of the log are applied in order.
pub open spec fn log_steps(logs: Logs, entries: Seq<AofView>) -> Logs
    decreases entries.len(),
{
    if entries.len() == 0 {
        logs
    } else {
        log_step(log_steps(logs, entries.drop_last()), entries.last())
    }
}

/// `states` are the databases before, between and after entries of the log that are applied in
/// order, while the clock reads `times`, a pair for each entry.
pub open spec fn kv_trace(
    states: Seq<Databases>,
    entries: Seq<AofView>,
    times: Seq<(i64, i64)>,
) -> bool {
    &&& states.len() == entries.len() + 1
    &&& times.len() == entries.len()
    &&& forall|i: int|
        0 <= i < entries.len() ==> kv_step(
            states[i],
            states[i + 1],
            #[trigger] entries[i],
            times[i].0,
            times[i].1,
        )
}

/// Some readings of the clock take the databases from `before` to `after` through the entries.
pub open spec fn kv_replayed(before: Databases, after: Databases, entries: Seq<AofView>) -> bool {
    exists|states: Seq<Databases>, times: Seq<(i64, i64)>| #[trigger]
        kv_trace(states, entries, times) && states.first() == before && states.last() == after
}

/// `after` is what applying a log, in the order in which it was written, makes of `before`. Nothing
/// is logged by that.
pub open spec fn replayed(before: DbView, after: DbView, log: Seq<AofView>) -> bool {
    &&& list_steps_ok(before.lists, log)
    &&& kv_replayed(before.kv, after.kv, log)
    &&& after == (DbView {
        kv: after.kv,
        logs: log_steps(before.logs, log),
        lists: list_steps(before.lists, log),
        ..before
    })
}

/// One more entry is one more step.
pub proof fn lemma_kv_replayed_push(
    before: Databases,
    mid: Databases,
    after: Databases,
    entries: Seq<AofView>,
    e: AofView,
    now: i64,
    used: i64,
)
    requires
        kv_replayed(before, mid, entries),
        kv_step(mid, after, e, now, used),
    ensures
        kv_replayed(before, after, entries.push(e)),
{
    let (states, times) = choose|states: Seq<Databases>, times: Seq<(i64, i64)>| #[trigger]
        kv_trace(states, entries, times) && states.first() == before && states.last() == mid;
    let all = entries.push(e);
    let states1 = states.push(after);
    let times1 = times.push((now, used));
    assert forall|i: int| 0 <= i < all.len() implies kv_step(
        states1[i],
        states1[i + 1],
        #[trigger] all[i],
        times1[i].0,
        times1[i].1,
    ) by {
        if i < entries.len() {
            assert(all[i] == entries[i]);
        }
    }
    assert(kv_trace(states1, all, times1));
}

/// No entries leave the databases as they are.
pub proof fn lemma_kv_replayed_none(dbs: Databases)
    ensures
        kv_replayed(dbs, dbs, Seq::empty()),
{
    let states = seq![dbs];
    assert(kv_trace(states, Seq::empty(), Seq::empty()));
}

/// What the database holds.
pub ghost struct DbView {
    pub kv: Databases,
    pub logs: Logs,
    pub lists: Lists,
    /// The writes that are to be put in the log.
    pub aof: Seq<AofView>,
    /// The writes that are to be sent to followers.
    pub events: Seq<AofView>,
    /// Whether writes are sent to followers.
    pub listening: bool,
}

impl DbView {
    /// With one more write in the log and, where someone listens, among the events.
    pub open spec fn logged(self, e: AofView) -> DbView {
        DbView {
            aof: self.aof.push(e),
            events: if self.listening {
                self.events.push(e)
            } else {
                self.events
            },
            ..self
        }
    }

    /// With other databases.
    pub open spec fn with_kv(self, kv: Databases) -> DbView {
        DbView { kv, ..self }
    }

    /// After a write to a list that succeeded.
    pub open spec fn list_wrote(self, e: AofView) -> DbView {
        (DbView { lists: list_step(self.lists, e), ..self }).logged(e)
    }

    /// After a write to a group that succeeded.
    pub open spec fn log_wrote(self, e: AofView) -> DbView {
        (DbView { logs: log_step(self.logs, e), ..self }).logged(e)
    }

    /// After a range of which a group took the first `n` entries: those are logged.
    pub open spec fn log_wrote_part(
        self,
        group: Seq<char>,
        entries: Seq<(u64, Seq<u8>)>,
        n: nat,
    ) -> DbView {
        if n == 0 {
            self
        } else {
            self.log_wrote(AofView::LogAddRange { group, entries: entries.take(n as int) })
        }
    }

    /// After a group has refused an entry.
    pub open spec fn log_refused(self, group: Seq<char>, payload: Seq<u8>) -> DbView {
        DbView { logs: refused_by(self.logs, group, payload), ..self }
    }

    /// After a range of which a list took the first `n` items: those are logged.
    pub open spec fn list_wrote_part(self, key: Seq<char>, items: Seq<Seq<u8>>, n: nat) -> DbView {
        if n == 0 {
            self
        } else {
            self.list_wrote(AofView::ListPushRange { key, items: items.take(n as int) })
        }
    }

    /// `after` is the database after a write to the key-value store that succeeded.
    pub open spec fn kv_wrote(self, after: DbView, e: AofView, now: i64, used: i64) -> bool {
        &&& kv_step(self.kv, after.kv, e, now, used)
        &&& after == self.with_kv(after.kv).logged(e)
    }
}

/// How a write is taken back: what it is about to change, as it was before.
pub enum Undo {
    /// A write to a database.
    Kv { db: String, saved: SavedDb },
    /// A push to a list, which had so many items.
    Push { key: String, len: Option<usize> },
    /// A pop of a list, with the item that it takes.
    Pop { key: String, item: Option<Vec<u8>> },
    /// A flush of a list, with the items that it drops.
    Flush { key: String, items: Option<Vec<Vec<u8>>> },
    /// An append to a group.
    Add { group: String, mark: Option<LogMark> },
}

impl Undo {
    /// Whether this takes back any write to a database.
    pub open spec fn undoes_kv(&self, was: DbView, db: Seq<char>) -> bool {
        forall|now: DbView|
            now.lists == was.lists && now.logs == was.logs && now.kv.remove(db) == was.kv.remove(db)
                ==> #[trigger] self.restores(was, now)
    }

    /// Whether this takes back the push of any item to a list.
    pub open spec fn undoes_push(&self, was: DbView, key: Seq<char>) -> bool {
        forall|now: DbView, item: Seq<u8>|
            now.kv == was.kv && now.logs == was.logs && now.lists == #[trigger] pushed(
                was.lists,
                key,
                item,
            ) ==> #[trigger] self.restores(was, now)
    }

    /// Whether this takes back a pop from a list.
    pub open spec fn undoes_pop(&self, was: DbView, key: Seq<char>) -> bool {
        forall|now: DbView|
            now.kv == was.kv && now.logs == was.logs && was.lists.contains_key(key) && now.lists
                == popped(was.lists, key, 0, 1) ==> #[trigger] self.restores(was, now)
    }

    /// Whether this takes back a flush of a list.
    pub open spec fn undoes_flush(&self, was: DbView, key: Seq<char>) -> bool {
        forall|now: DbView|
            now.kv == was.kv && now.logs == was.logs && was.lists.contains_key(key) && now.lists
                == was.lists.insert(key, Seq::empty()) ==> #[trigger] self.restores(was, now)
    }

    /// Whether this takes back the append of any entry to a group, and its refusal.
    pub open spec fn undoes_add(&self, was: DbView, group: Seq<char>) -> bool {
        &&& forall|now: DbView, timestamp: u64, payload: Seq<u8>|
            now.kv == was.kv && now.lists == was.lists && was.logs.contains_key(group) && now.logs
                == was.logs.insert(
                group,
                #[trigger] was.logs[group].pushed(timestamp, payload),
            ) ==> #[trigger] self.restores(was, now)
        &&& forall|payload: Seq<u8>|
            was.logs.contains_key(group) ==> self.restores(
                was,
                #[trigger] was.log_refused(group, payload),
            )
    }

    /// Whether this takes the stores back from `now` to `was`.
    pub open spec fn restores(&self, was: DbView, now: DbView) -> bool {
        match self {
            Undo::Kv { db, saved } => {
                &&& now.lists == was.lists && now.logs == was.logs
                &&& saved.wf()
                &&& was.kv == with_value(now.kv, db@, saved.items())
            },
            Undo::Push { key, len } => {
                &&& now.kv == was.kv && now.logs == was.logs
                &&& match len {
                    Some(n) => {
                        &&& now.lists.contains_key(key@)
                        &&& *n <= now.lists[key@].len()
                        &&& was.lists == now.lists.insert(key@, now.lists[key@].take(*n as int))
                    },
                    None => was.lists == now.lists.remove(key@),
                }
            },
            Undo::Pop { key, item } => {
                &&& now.kv == was.kv && now.logs == was.logs
                &&& match item {
                    Some(item) => {
                        &&& now.lists.contains_key(key@)
                        &&& item_fits(item@)
                        &&& was.lists == now.lists.insert(key@, seq![item@] + now.lists[key@])
                    },
                    None => was.lists == now.lists,
                }
            },
            Undo::Flush { key, items } => {
                &&& now.kv == was.kv && now.logs == was.logs
                &&& match items {
                    Some(items) => {
                        &&& now.lists.contains_key(key@)
                        &&& forall|i: int|
                            0 <= i < items@.len() ==> item_fits((#[trigger] items@[i])@)
                        &&& was.lists == now.lists.insert(
                            key@,
                            now.lists[key@] + vecs_view(items@),
                        )
                    },
                    None => was.lists == now.lists,
                }
            },
            Undo::Add { group, mark } => {
                &&& now.kv == was.kv && now.lists == was.lists
                &&& match mark {
                    Some(m) => {
                        let old_log = was.logs[group@];
                        let new_log = now.logs[group@];
                        &&& now.logs.contains_key(group@)
                        &&& was.logs == now.logs.insert(group@, old_log)
                        &&& old_log.wf()
                        &&& m.marks(old_log)
                        &&& old_log.segs <= new_log.segs
                        &&& new_log.entries.remove(old_log.next_id) == old_log.entries.remove(
                            old_log.next_id,
                        )
                    },
                    None => was.logs == now.logs,
                }
            },
        }
    }
}

/// The stores, with the writes that have not been taken out yet.
pub struct DB {
    group_manager: GroupManager,
    kv_store: KvStore,
    list: SegList,
    aof: Vec<AofEntry>,
    events: Vec<AofEntry>,
    listening: bool,
}

impl View for DB {
    type V = DbView;

    closed spec fn view(&self) -> DbView {
        DbView {
            kv: self.kv_store@,
            logs: self.group_manager@,
            lists: self.list@,
            aof: entries_view(self.aof@),
            events: entries_view(self.events@),
            listening: self.listening,
        }
    }
}

/// Borrows timestamped byte strings.
fn borrow_pairs(s: &Vec<(u64, Vec<u8>)>) -> (r: Vec<(u64, &[u8])>)
    ensures
        stamped_view(r@) == pairs_view(s@),
{
    let mut r: Vec<(u64, &[u8])> = Vec::new();
    let mut i: usize = 0;
    while i < s.len()
        invariant
            i <= s@.len(),
            r@.len() == i,
            forall|j: int| 0 <= j < i ==> (#[trigger] r@[j]).0 == s@[j].0 && r@[j].1@ == s@[j].1@,
        decreases s@.len() - i,
    {
        r.push((s[i].0, s[i].1.as_slice()));
        i = i + 1;
    }
    assert(stamped_view(r@) =~= pairs_view(s@));
    r
}

/// Copies timestamped byte strings.
fn own_pairs(s: &[(u64, &[u8])]) -> (r: Vec<(u64, Vec<u8>)>)
    ensures
        pairs_view(r@) == stamped_view(s@),
{
    let mut r: Vec<(u64, Vec<u8>)> = Vec::new();
    let mut i: usize = 0;
    while i < s.len()
        invariant
            i <= s@.len(),
            r@.len() == i,
            forall|j: int| 0 <= j < i ==> (#[trigger] r@[j]).0 == s@[j].0 && r@[j].1@ == s@[j].1@,
        decreases s@.len() - i,
    {
        r.push((s[i].0, copy_bytes(s[i].1)));
        i = i + 1;
    }
    assert(pairs_view(r@) =~= stamped_view(s@));
    r
}

impl DB {
    pub closed spec fn wf(&self) -> bool {
        &&& self.group_manager.wf()
        &&& self.kv_store.wf()
        &&& self.list.wf()
    }

    /// The log of each group is well-formed.
    pub proof fn lemma_logs_wf(&self, group: Seq<char>)
        requires
            self.wf(),
            self@.logs.contains_key(group),
        ensures
            self@.logs[group].wf(),
    {
        self.group_manager.lemma_logs_wf(group);
    }

    /// What the wall clock has been read as for this database, in order.
    pub closed spec fn clock(&self) -> Seq<i64> {
        self.kv_store.readings()
    }

    /// A database with the given groups and nothing else. Where `listening` holds, writes are
    /// kept for followers too.
    pub fn new(group_manager: GroupManager, listening: bool) -> (r: Self)
        requires
            group_manager.wf(),
        ensures
            r.wf(),
            r@ == (DbView {
                kv: Map::empty(),
                logs: group_manager@,
                lists: Map::empty(),
                aof: Seq::empty(),
                events: Seq::empty(),
                listening,
            }),
    {
        let r = DB {
            group_manager,
            kv_store: KvStore::new(),
            list: SegList::new(),
            aof: Vec::new(),
            events: Vec::new(),
            listening,
        };
        assert(r@.aof =~= Seq::empty());
        assert(r@.events =~= Seq::empty());
        r
    }

    /// Takes out the writes that are to be put in the log.
    pub fn take_aof(&mut self) -> (r: Vec<AofEntry>)
        requires
            old(self).wf(),
        ensures
            final(self).wf(),
            final(self).clock() == old(self).clock(),
            entries_view(r@) == old(self)@.aof,
            final(self)@ == (DbView { aof: Seq::empty(), ..old(self)@ }),
    {
        let mut r: Vec<AofEntry> = Vec::new();
        r.append(&mut self.aof);
        assert(self@.aof =~= Seq::empty());
        assert(entries_view(r@) =~= old(self)@.aof);
        r
    }

    /// Takes out the writes that are to be sent to followers.
    pub fn take_events(&mut self) -> (r: Vec<AofEntry>)
        requires
            old(self).wf(),
        ensures
            final(self).wf(),
            final(self).clock() == old(self).clock(),
            entries_view(r@) == old(self)@.events,
            final(self)@ == (DbView { events: Seq::empty(), ..old(self)@ }),
    {
        let mut r: Vec<AofEntry> = Vec::new();
        r.append(&mut self.events);
        assert(self@.events =~= Seq::empty());
        assert(entries_view(r@) =~= old(self)@.events);
        r
    }

    /// The groups.
    pub fn groups(&self) -> (r: &GroupManager)
        requires
            self.wf(),
        ensures
            r.wf(),
            r@ == self@.logs,
    {
        &self.group_manager
    }

    /// Keeps a write for the log and, where someone listens, for followers.
    fn record(&mut self, entry: AofEntry)
        requires
            old(self).wf(),
        ensures
            final(self).wf(),
            final(self).clock() == old(self).clock(),
            final(self)@ == old(self)@.logged(entry@),
    {
        if self.listening {
            let copy = entry.copy();
            let ghost before = self.events@;
            self.events.push(copy);
            assert(entries_view(self.events@) =~= entries_view(before).push(entry@));
        }
        let ghost before = self.aof@;
        self.aof.push(entry);
        assert(entries_view(self.aof@) =~= entries_view(before).push(entry@));
    }

    /// Applies an entry of the log to the store that it is a write to.
    fn apply_entry(&mut self, entry: AofEntry)
        requires
            old(self).wf(),
            list_step_ok(old(self)@.lists, entry@),
        ensures
            final(self).wf(),
            exists|now: i64, used: i64| #[trigger]
                kv_step(old(self)@.kv, final(self)@.kv, entry@, now, used),
            final(self)@ == (DbView {
                kv: final(self)@.kv,
                logs: log_step(old(self)@.logs, entry@),
                lists: list_step(old(self)@.lists, entry@),
                ..old(self)@
            }),
    {
        let ghost e = entry@;
        let ghost was = self@;
        match entry {
            AofEntry::KvSet { db, key, val, ttl } => {
                let ghost before = self.kv_store@;
                let _ = self.kv_store.set(db.as_str(), key, val, ttl);
                proof {
                    let (now, used) = choose|now: i64, used: i64|
                        {
                            &&& #[trigger] kv_written(
                                before,
                                self.kv_store@,
                                db@,
                                key@,
                                val@,
                                ttl,
                                now,
                                used,
                            )
                            &&& is_reading(now) && is_reading(used)
                        };
                    assert(kv_step(was.kv, self@.kv, e, now, used));
                }
            },
            AofEntry::KvDel { db, key } => {
                let _ = self.kv_store.del(db.as_str(), key.as_str());
                assert(kv_step(was.kv, self@.kv, e, 0, 0));
            },
            AofEntry::KvFlush { db } => {
                let _ = self.kv_store.flush(db.as_str());
                assert(kv_step(was.kv, self@.kv, e, 0, 0));
            },
            AofEntry::LogCreateGroup { name } => {
                let _ = self.group_manager.create_group(name.as_str());
            },
            AofEntry::LogDropGroup { name } => {
                let _ = self.group_manager.drop_group(name.as_str());
            },
            AofEntry::LogAdd { group, timestamp, payload } => {
                let _ = self.group_manager.add(group.as_str(), timestamp, payload.as_slice());
            },
            AofEntry::LogAddRange { group, entries } => {
                let refs = borrow_pairs(&entries);
                let ghost all = pairs_view(entries@);
                proof {
                    if was.logs.contains_key(group@) {
                        crate::groups::lemma_taken(was.logs[group@], all, 0);
                        if all.len() == 0 {
                            assert(all.take(0) =~= Seq::empty());
                            assert(was.logs.insert(group@, was.logs[group@]) =~= was.logs);
                        }
                        if taken(was.logs[group@], all) == all.len() {
                            assert(all.take(all.len() as int) =~= all);
                        }
                    }
                }
                let _ = self.group_manager.add_range(group.as_str(), refs.as_slice());
            },
            AofEntry::LogRemove { group, up_to_id } => {
                let _ = self.group_manager.remove(group.as_str(), up_to_id);
            },
            AofEntry::ListPush { key, payload } => {
                let _ = self.list.push(key, payload);
            },
            AofEntry::ListPushRange { key, items } => {
                let _ = self.list.push_range(key, items);
            },
            AofEntry::ListPop { key } => {
                let _ = self.list.pop(key);
            },
            AofEntry::ListPopRange { key, start, end } => {
                let _ = self.list.pop_range(key, start, end);
            },
            AofEntry::ListPopCount { key, count } => {
                let _ = self.list.pop_count(key, count);
            },
            AofEntry::ListFlush { key } => {
                let _ = self.list.flush(key);
            },
        }
        proof {
            if e.category() != EntryCategory::Kv {
                assert(kv_step(was.kv, self@.kv, e, 0, 0));
            }
        }
    }

    /// Applies entries of the log in order, up to the first that asks a list for more than it has.
    /// The writes are not logged again.
    pub fn try_apply_aof(&mut self, entries: Vec<AofEntry>) -> (r: Result<(), ReplayError>)
        requires
            old(self).wf(),
        ensures
            final(self).wf(),
            ({
                let all = entries_view(entries@);
                let n = match r {
                    Ok(()) => all.len(),
                    Err(e) => e.at as nat,
                };
                &&& r matches Err(e) ==> {
                    &&& n < all.len()
                    &&& !list_step_ok(
                        list_steps(old(self)@.lists, all.take(n as int)),
                        all[n as int],
                    )
                }
                &&& list_steps_ok(old(self)@.lists, all.take(n as int))
                &&& kv_replayed(old(self)@.kv, final(self)@.kv, all.take(n as int))
                &&& final(self)@ == (DbView {
                    kv: final(self)@.kv,
                    logs: log_steps(old(self)@.logs, all.take(n as int)),
                    lists: list_steps(old(self)@.lists, all.take(n as int)),
                    ..old(self)@
                })
            }),
    {
        let ghost all = entries_view(entries@);
        let ghost was = self@;
        let mut i: usize = 0;
        assert(all.take(0) =~= Seq::empty());
        proof {
            lemma_kv_replayed_none(was.kv);
        }
        while i < entries.len()
            invariant
                i <= entries@.len(),
                all == entries_view(entries@),
                was == old(self)@,
                self.wf(),
                list_steps_ok(was.lists, all.take(i as int)),
                kv_replayed(was.kv, self@.kv, all.take(i as int)),
                self@ == (DbView {
                    kv: self@.kv,
                    logs: log_steps(was.logs, all.take(i as int)),
                    lists: list_steps(was.lists, all.take(i as int)),
                    ..was
                }),
            decreases entries@.len() - i,
        {
            let ghost mid = self@;
            proof {
                assert(all.take(i + 1).drop_last() =~= all.take(i as int));
                assert(all.take(i + 1).last() == all[i as int]);
            }
            if !self.admits_entry(&entries[i]) {
                assert(all[i as int] == entries@[i as int]@);
                return Err(ReplayError { at: i });
            }
            self.apply_entry(entries[i].copy());
            proof {
                let (now, used) = choose|now: i64, used: i64| #[trigger]
                    kv_step(mid.kv, self@.kv, all[i as int], now, used);
                lemma_kv_replayed_push(
                    was.kv,
                    mid.kv,
                    self@.kv,
                    all.take(i as int),
                    all[i as int],
                    now,
                    used,
                );
                assert(all.take(i + 1) =~= all.take(i as int).push(all[i as int]));
            }
            i = i + 1;
        }
        Ok(())
    }

    /// Applies entries of the log in order. The writes are not logged again.
    pub fn apply_aof(&mut self, entries: Vec<AofEntry>) -> (r: Result<(), DBError>)
        requires
            old(self).wf(),
            list_steps_ok(old(self)@.lists, entries_view(entries@)),
        ensures
            r is Ok,
            final(self).wf(),
            kv_replayed(old(self)@.kv, final(self)@.kv, entries_view(entries@)),
            final(self)@ == (DbView {
                kv: final(self)@.kv,
                logs: log_steps(old(self)@.logs, entries_view(entries@)),
                lists: list_steps(old(self)@.lists, entries_view(entries@)),
                ..old(self)@
            }),
    {
        let ghost all = entries_view(entries@);
        let ghost lists = self@.lists;
        let done = self.try_apply_aof(entries);
        proof {
            if let Err(e) = done {
                let n = e.at as int;
                lemma_list_steps_ok_prefix(lists, all, n + 1);
                assert(all.take(n + 1).drop_last() =~= all.take(n));
                assert(all.take(n + 1).last() == all[n]);
            }
            assert(all.take(all.len() as int) =~= all);
        }
        Ok(())
    }

    /// Rebuilds the stores from the log, store by store. Where the log asks a list for more than it
    /// has, the lists stay as they are before that entry. The writes are not logged again.
    pub fn load_and_apply(&mut self, entries: AofEntries) -> (r: Result<(), ReplayError>)
        requires
            old(self).wf(),
            entries.sorted(),
        ensures
            final(self).wf(),
            ({
                let list = entries_view(entries.list_entries@);
                let n = match r {
                    Ok(()) => list.len(),
                    Err(e) => e.at as nat,
                };
                &&& r matches Err(e) ==> {
                    &&& n < list.len()
                    &&& !list_step_ok(
                        list_steps(old(self)@.lists, list.take(n as int)),
                        list[n as int],
                    )
                }
                &&& list_steps_ok(old(self)@.lists, list.take(n as int))
                &&& kv_replayed(
                    old(self)@.kv,
                    final(self)@.kv,
                    entries_view(entries.kv_entries@),
                )
                &&& final(self)@ == (DbView {
                    kv: final(self)@.kv,
                    logs: log_steps(old(self)@.logs, entries_view(entries.log_entries@)),
                    lists: list_steps(old(self)@.lists, list.take(n as int)),
                    ..old(self)@
                })
            }),
            r is Ok ==> forall|all: Seq<AofView>| #[trigger]
                entries.separates(all) ==> replayed(old(self)@, final(self)@, all),
    {
        let ghost was = self@;
        let ghost kv = entries_view(entries.kv_entries@);
        let ghost list = entries_view(entries.list_entries@);
        let ghost log = entries_view(entries.log_entries@);
        let ghost sorted = entries;
        proof {
            lemma_other_lists(was.lists, kv);
            lemma_other_logs(was.logs, kv);
        }
        let _ = self.apply_aof(entries.kv_entries);
        let ghost kv1 = self@.kv;
        let r = self.try_apply_aof(entries.list_entries);
        proof {
            let n = match r {
                Ok(()) => list.len(),
                Err(e) => e.at as nat,
            };
            let done = list.take(n as int);
            assert forall|i: int| 0 <= i < done.len() implies (#[trigger] done[i]).category()
                == EntryCategory::List by {
                assert(done[i] == list[i]);
            }
            lemma_other_kv(kv1, self@.kv, done);
            lemma_other_logs(was.logs, done);
            lemma_other_lists(self@.lists, log);
        }
        let _ = self.apply_aof(entries.log_entries);
        proof {
            lemma_other_kv(kv1, self@.kv, log);
            if r is Ok {
                assert(list.take(list.len() as int) =~= list);
                assert forall|all: Seq<AofView>| #[trigger] sorted.separates(all) implies replayed(
                    was,
                    self@,
                    all,
                ) by {
                    law_replay_by_store(was.lists, was.logs, was.kv, self@.kv, all);
                }
            }
        }
        r
    }

    /// How a write to a database is taken back.
    pub fn undo_kv(&self, db: &str) -> (r: Undo)
        requires
            self.wf(),
        ensures
            r.undoes_kv(self@, db@),
    {
        let r = Undo::Kv { db: copy_str(db), saved: self.kv_store.saved(db) };
        proof {
            assert forall|now: DbView|
                now.lists == self@.lists && now.logs == self@.logs && now.kv.remove(db@)
                    == self@.kv.remove(db@) implies #[trigger] r.restores(self@, now) by {
                if self@.kv.contains_key(db@) {
                    let items = self@.kv[db@];
                    assert(self@.kv =~= self@.kv.remove(db@).insert(db@, items));
                    assert(now.kv.insert(db@, items) =~= now.kv.remove(db@).insert(db@, items));
                } else {
                    assert(self@.kv =~= self@.kv.remove(db@));
                }
            }
        }
        r
    }

    /// How a push to a list is taken back.
    pub fn undo_push(&self, key: &str) -> (r: Undo)
        requires
            self.wf(),
        ensures
            r.restores(self@, self@),
            r.undoes_push(self@, key@),
    {
        let r = Undo::Push { key: copy_str(key), len: self.list.length(key) };
        proof {
            let lists = self@.lists;
            if lists.contains_key(key@) {
                assert(lists[key@].take(lists[key@].len() as int) =~= lists[key@]);
                assert(lists =~= lists.insert(key@, lists[key@]));
            } else {
                assert(lists =~= lists.remove(key@));
            }
            assert forall|now: DbView, item: Seq<u8>|
                now.kv == self@.kv && now.logs == self@.logs && now.lists == #[trigger] pushed(
                    lists,
                    key@,
                    item,
                ) implies #[trigger] r.restores(self@, now) by {
                if lists.contains_key(key@) {
                    assert(now.lists[key@].take(lists[key@].len() as int) =~= lists[key@]);
                    assert(lists =~= now.lists.insert(key@, lists[key@]));
                } else {
                    assert(lists =~= now.lists.remove(key@));
                }
            }
        }
        r
    }

    /// How a pop of a list is taken back.
    pub fn undo_pop(&self, key: &str) -> (r: Undo)
        requires
            self.wf(),
            list_step_ok(self@.lists, AofView::ListPop { key: key@ }),
        ensures
            !self@.lists.contains_key(key@) ==> r.restores(self@, self@),
            r.undoes_pop(self@, key@),
    {
        let r = Undo::Pop { key: copy_str(key), item: self.list.first(key) };
        proof {
            let lists = self@.lists;
            if lists.contains_key(key@) {
                self.list.lemma_items_fit(key@, 0);
            }
            assert forall|now: DbView|
                now.kv == self@.kv && now.logs == self@.logs && lists.contains_key(key@)
                    && now.lists == popped(lists, key@, 0, 1) implies #[trigger] r.restores(
                self@,
                now,
            ) by {
                assert(seq![lists[key@][0]] + now.lists[key@] =~= lists[key@]);
                assert(lists =~= now.lists.insert(key@, lists[key@]));
            }
        }
        r
    }

    /// How a flush of a list is taken back.
    pub fn undo_flush(&self, key: &str) -> (r: Undo)
        requires
            self.wf(),
        ensures
            !self@.lists.contains_key(key@) ==> r.restores(self@, self@),
            r.undoes_flush(self@, key@),
    {
        let kept = self.list.items(key);
        proof {
            if kept is Some {
                let lists = self@.lists;
                let items = kept->0;
                assert forall|i: int| 0 <= i < items@.len() implies item_fits(
                    (#[trigger] items@[i])@,
                ) by {
                    self.list.lemma_items_fit(key@, i);
                    assert(vecs_view(items@)[i] == lists[key@][i]);
                }
            }
        }
        let r = Undo::Flush { key: copy_str(key), items: kept };
        proof {
            let lists = self@.lists;
            assert forall|now: DbView|
                now.kv == self@.kv && now.logs == self@.logs && lists.contains_key(key@)
                    && now.lists == lists.insert(key@, Seq::empty()) implies #[trigger] r.restores(
                self@,
                now,
            ) by {
                assert(now.lists[key@] + lists[key@] =~= lists[key@]);
                assert(lists =~= now.lists.insert(key@, lists[key@]));
            }
        }
        r
    }

    /// How an append to a group is taken back.
    pub fn undo_add(&self, group: &str) -> (r: Undo)
        requires
            self.wf(),
        ensures
            r.restores(self@, self@),
            r.undoes_add(self@, group@),
    {
        let r = Undo::Add { group: copy_str(group), mark: self.group_manager.mark(group) };
        proof {
            let logs = self@.logs;
            if logs.contains_key(group@) {
                self.group_manager.lemma_logs_wf(group@);
                assert(logs =~= logs.insert(group@, logs[group@]));
            }
            assert forall|now: DbView, timestamp: u64, payload: Seq<u8>|
                now.kv == self@.kv && now.lists == self@.lists && logs.contains_key(group@)
                    && now.logs == logs.insert(
                    group@,
                    #[trigger] logs[group@].pushed(timestamp, payload),
                ) implies #[trigger] r.restores(self@, now) by {
                let log = logs[group@];
                assert(logs =~= now.logs.insert(group@, log));
                assert(log.pushed(timestamp, payload).entries.remove(log.next_id)
                    =~= log.entries.remove(log.next_id));
            }
            assert forall|payload: Seq<u8>| logs.contains_key(group@) implies r.restores(
                self@,
                #[trigger] self@.log_refused(group@, payload),
            ) by {
                let now = self@.log_refused(group@, payload);
                assert(logs =~= now.logs.insert(group@, logs[group@]));
            }
        }
        r
    }

    /// Takes a write back, so that the stores are those of `was` again.
    pub fn undo(&mut self, undo: Undo, Ghost(was): Ghost<DbView>)
        requires
            old(self).wf(),
            undo.restores(was, old(self)@),
        ensures
            final(self).wf(),
            final(self).clock() == old(self).clock(),
            final(self)@ == (DbView { kv: was.kv, logs: was.logs, lists: was.lists, ..old(self)@ }),
    {
        match undo {
            Undo::Kv { db, saved } => {
                self.kv_store.put_back(db.as_str(), saved);
            },
            Undo::Push { key, len } => {
                self.list.cut(key.as_str(), len);
            },
            Undo::Pop { key, item } => {
                if let Some(item) = item {
                    self.list.unpop(key.as_str(), item);
                }
            },
            Undo::Flush { key, items } => {
                if let Some(items) = items {
                    let ghost all = vecs_view(items@);
                    proof {
                        lemma_fitting(all);
                        if fitting(all) < all.len() {
                            assert(item_fits(items@[fitting(all) as int]@));
                        }
                        assert(all.take(all.len() as int) =~= all);
                        if all.len() == 0 {
                            let lists = self@.lists;
                            assert(lists[key@] + all =~= lists[key@]);
                            assert(lists.insert(key@, lists[key@]) =~= lists);
                        }
                    }
                    let _ = self.list.push_range(key, items);
                }
            },
            Undo::Add { group, mark } => {
                if let Some(mark) = mark {
                    self.group_manager.rewind(group.as_str(), mark, Ghost(was.logs[group@]));
                }
            },
        }
    }

    /// How many writes are to be put in the log, and how many are kept for followers.
    pub fn kept_writes(&self) -> (r: (usize, usize))
        ensures
            r.0 == self@.aof.len(),
            r.1 == self@.events.len(),
    {
        (self.aof.len(), self.events.len())
    }

    /// Forgets the writes behind the first of those that are to be put in the log and of those that
    /// are kept for followers.
    pub fn forget_writes(&mut self, kept: (usize, usize))
        requires
            old(self).wf(),
            kept.0 <= old(self)@.aof.len(),
            kept.1 <= old(self)@.events.len(),
        ensures
            final(self).wf(),
            final(self).clock() == old(self).clock(),
            final(self)@ == (DbView {
                aof: old(self)@.aof.take(kept.0 as int),
                events: old(self)@.events.take(kept.1 as int),
                ..old(self)@
            }),
    {
        let ghost was = *self;
        self.aof.truncate(kept.0);
        self.events.truncate(kept.1);
        assert(entries_view(self.aof@) =~= entries_view(was.aof@).take(kept.0 as int));
        assert(entries_view(self.events@) =~= entries_view(was.events@).take(kept.1 as int));
    }

    /// Writes a key, which expires `ttl` milliseconds from now, or never where `ttl` is 0.
    pub fn kv_set(&mut self, db: String, key: String, val: Vec<u8>, ttl: i64) -> (r: Result<(), DBError>)
        requires
            old(self).wf(),
        ensures
            final(self).wf(),
            r is Ok,
            exists|now: i64, used: i64|
                {
                    &&& #[trigger] old(self)@.kv_wrote(
                        final(self)@,
                        AofView::KvSet { db: db@, key: key@, val: val@, ttl },
                        now,
                        used,
                    )
                    &&& final(self).clock() == old(self).clock().push(now).push(used)
                },
    {
        let copy = copy_bytes(val.as_slice());
        let ghost was = self@;
        match self.kv_store.set(db.as_str(), copy_str(key.as_str()), copy, ttl) {
            Ok(()) => {},
            Err(e) => {
                return Err(DBError::KVSetError(e));
            },
        }
        let ghost mid = self@;
        let entry = AofEntry::KvSet { db, key, val, ttl };
        let ghost e = entry@;
        self.record(entry);
        proof {
            let (now, used) = choose|now: i64, used: i64|
                {
                    &&& #[trigger] kv_written(was.kv, mid.kv, db@, key@, val@, ttl, now, used)
                    &&& is_reading(now) && is_reading(used)
                    &&& self.clock() == old(self).clock().push(now).push(used)
                };
            assert(was.kv_wrote(self@, e, now, used));
        }
        Ok(())
    }

    /// Reads a key, if it has not expired by now.
    pub fn kv_get(&mut self, db: String, key: String) -> (r: Result<Option<DBEntry>, DBError>)
        requires
            old(self).wf(),
        ensures
            final(self).wf(),
            exists|now: i64, used: i64|
                {
                    &&& final(self)@ == old(self)@.with_kv(
                        #[trigger] kv_after_read(old(self)@.kv, db@, key@, now, used),
                    )
                    &&& is_reading(now) && is_reading(used)
                    &&& final(self).clock() == old(self).clock().push(now).push(used)
                    &&& match r {
                        Ok(Some(e)) => kv_found(old(self)@.kv, db@, key@, now, used) == Some(e@),
                        Ok(None) => kv_found(old(self)@.kv, db@, key@, now, used) is None,
                        Err(_) => false,
                    }
                },
    {
        let ghost was = self@;
        let r = self.kv_store.get(db.as_str(), key);
        proof {
            let (now, used) = choose|now: i64, used: i64|
                {
                    &&& self@.kv == #[trigger] kv_after_read(was.kv, db@, key@, now, used)
                    &&& is_reading(now) && is_reading(used)
                    &&& self.clock() == old(self).clock().push(now).push(used)
                    &&& match r {
                        Ok(Some(e)) => kv_found(was.kv, db@, key@, now, used) == Some(e@),
                        Ok(None) => kv_found(was.kv, db@, key@, now, used) is None,
                        Err(_) => false,
                    }
                };
            assert(self@ == was.with_kv(kv_after_read(was.kv, db@, key@, now, used)));
        }
        match r {
            Ok(found) => Ok(found),
            Err(e) => Err(DBError::KVGetError(e)),
        }
    }

    /// Drops a key.
    pub fn kv_del(&mut self, db: String, key: String) -> (r: Result<(), DBError>)
        requires
            old(self).wf(),
        ensures
            final(self).wf(),
            final(self).clock() == old(self).clock(),
            match r {
                Ok(()) => {
                    &&& db_of(old(self)@.kv, db@).contains_key(key@)
                    &&& old(self)@.kv_wrote(
                        final(self)@,
                        AofView::KvDel { db: db@, key: key@ },
                        0,
                        0,
                    )
                },
                Err(e) => {
                    &&& e matches DBError::KVDelError(KvError::KeyNotFound(k)) && k@ == key@
                    &&& !db_of(old(self)@.kv, db@).contains_key(key@)
                    &&& final(self)@ == old(self)@.with_kv(
                        old(self)@.kv.insert(db@, db_of(old(self)@.kv, db@).remove(key@)),
                    )
                },
            },
    {
        let ghost was = self@;
        match self.kv_store.del(db.as_str(), key.as_str()) {
            Ok(()) => {},
            Err(e) => {
                return Err(DBError::KVDelError(e));
            },
        }
        let entry = AofEntry::KvDel { db, key };
        let ghost e = entry@;
        self.record(entry);
        assert(was.kv_wrote(self@, e, 0, 0));
        Ok(())
    }

    /// The keys of a database, in no order that is promised.
    pub fn kv_keys(&mut self, db: String) -> (r: Result<Vec<String>, DBError>)
        requires
            old(self).wf(),
        ensures
            final(self).wf(),
            final(self).clock() == old(self).clock(),
            final(self)@ == old(self)@,
            match r {
                Ok(keys) => {
                    &&& strings_view(keys@).no_duplicates()
                    &&& strings_view(keys@).to_set() == db_of(old(self)@.kv, db@).dom()
                },
                Err(_) => false,
            },
    {
        match self.kv_store.keys(db.as_str()) {
            Ok(keys) => Ok(keys),
            Err(e) => Err(DBError::KVKeysError(e)),
        }
    }

    /// Drops all keys of a database.
    pub fn kv_flush(&mut self, db: String) -> (r: Result<(), DBError>)
        requires
            old(self).wf(),
        ensures
            final(self).wf(),
            final(self).clock() == old(self).clock(),
            r is Ok,
            old(self)@.kv_wrote(final(self)@, AofView::KvFlush { db: db@ }, 0, 0),
    {
        let ghost was = self@;
        match self.kv_store.flush(db.as_str()) {
            Ok(()) => {},
            Err(e) => {
                return Err(DBError::KVFlushError(e));
            },
        }
        let entry = AofEntry::KvFlush { db };
        let ghost e = entry@;
        self.record(entry);
        assert(was.kv_wrote(self@, e, 0, 0));
        Ok(())
    }

    /// Makes an empty group.
    pub fn log_create_group(&mut self, name: &str) -> (r: Result<(), DBError>)
        requires
            old(self).wf(),
        ensures
            final(self).wf(),
            final(self).clock() == old(self).clock(),
            match r {
                Ok(()) => {
                    &&& !old(self)@.logs.contains_key(name@)
                    &&& final(self)@ == old(self)@.log_wrote(
                        AofView::LogCreateGroup { name: name@ },
                    )
                },
                Err(e) => {
                    &&& e matches DBError::LogCreateGroupError(GroupError::GroupAlreadyExists(n))
                        && n@ == name@
                    &&& old(self)@.logs.contains_key(name@)
                    &&& final(self)@ == old(self)@
                },
            },
    {
        match self.group_manager.create_group(name) {
            Ok(()) => {},
            Err(e) => {
                return Err(DBError::LogCreateGroupError(e));
            },
        }
        self.record(AofEntry::LogCreateGroup { name: copy_str(name) });
        Ok(())
    }

    /// Drops a group with all its entries.
    pub fn log_drop_group(&mut self, name: &str) -> (r: Result<(), DBError>)
        requires
            old(self).wf(),
        ensures
            final(self).wf(),
            final(self).clock() == old(self).clock(),
            match r {
                Ok(()) => {
                    &&& old(self)@.logs.contains_key(name@)
                    &&& final(self)@ == old(self)@.log_wrote(AofView::LogDropGroup { name: name@ })
                },
                Err(e) => {
                    &&& e matches DBError::LogDropGroupError(GroupError::GroupNotFound(n)) && n@
                        == name@
                    &&& !old(self)@.logs.contains_key(name@)
                    &&& final(self)@ == old(self)@
                },
            },
    {
        match self.group_manager.drop_group(name) {
            Ok(()) => {},
            Err(e) => {
                assert(old(self)@.logs.remove(name@) =~= old(self)@.logs);
                return Err(DBError::LogDropGroupError(e));
            },
        }
        self.record(AofEntry::LogDropGroup { name: copy_str(name) });
        Ok(())
    }

    /// Appends an entry to a group and gives its id.
    pub fn log_add(&mut self, group: &str, timestamp: u64, payload: &[u8]) -> (r: Result<u64, DBError>)
        requires
            old(self).wf(),
        ensures
            final(self).wf(),
            final(self).clock() == old(self).clock(),
            match r {
                Ok(id) => {
                    &&& old(self)@.logs.contains_key(group@)
                    &&& old(self)@.logs[group@].takes(payload@)
                    &&& id == old(self)@.logs[group@].next_id
                    &&& final(self)@ == old(self)@.log_wrote(
                        AofView::LogAdd { group: group@, timestamp, payload: payload@ },
                    )
                },
                Err(DBError::LogAppendError(GroupError::GroupNotFound(n))) => {
                    &&& n@ == group@
                    &&& !old(self)@.logs.contains_key(group@)
                    &&& final(self)@ == old(self)@
                },
                Err(e) => {
                    &&& e == DBError::LogAppendError(GroupError::LogError(refusal(payload@)))
                    &&& old(self)@.logs.contains_key(group@)
                    &&& !old(self)@.logs[group@].takes(payload@)
                    &&& final(self)@ == old(self)@.log_refused(group@, payload@)
                },
            },
    {
        let id: u64 = match self.group_manager.add(group, timestamp, payload) {
            Ok(id) => id,
            Err(e) => {
                return Err(DBError::LogAppendError(e));
            },
        };
        self.record(
            AofEntry::LogAdd { group: copy_str(group), timestamp, payload: copy_bytes(payload) },
        );
        Ok(id)
    }

    /// How many entries a group counts, or 0 where there is no such group.
    fn log_count(&self, group: &str) -> (n: u64)
        requires
            self.wf(),
        ensures
            n == (if self@.logs.contains_key(group@) {
                self@.logs[group@].count
            } else {
                0
            }),
    {
        match self.group_manager.group_stats(group) {
            Ok(stats) => stats.total_entries,
            Err(_) => 0,
        }
    }

    /// Appends entries to a group in order, and gives the ids of the first and the last. Where the log
    /// refuses an entry, those before it stay, and they are what is logged.
    pub fn log_add_range(&mut self, group: &str, entries: &[(u64, &[u8])]) -> (r: Result<
        (u64, u64),
        DBError,
    >)
        requires
            old(self).wf(),
        ensures
            final(self).wf(),
            final(self).clock() == old(self).clock(),
            ({
                let all = stamped_view(entries@);
                let log = old(self)@.logs[group@];
                match r {
                    Ok((first, last)) => {
                        &&& old(self)@.logs.contains_key(group@)
                        &&& all.len() > 0
                        &&& taken(log, all) == all.len()
                        &&& first == log.next_id
                        &&& last == log_pushed_all(log, all.drop_last()).next_id
                        &&& final(self)@ == old(self)@.log_wrote(
                            AofView::LogAddRange { group: group@, entries: all },
                        )
                    },
                    Err(DBError::LogAppendRangeError(GroupError::GroupNotFound(n))) => {
                        &&& n@ == group@
                        &&& all.len() > 0
                        &&& !old(self)@.logs.contains_key(group@)
                        &&& final(self)@ == old(self)@
                    },
                    Err(e) => if all.len() == 0 {
                        &&& e == DBError::LogAppendRangeError(
                            GroupError::LogError(LogError::EntryNotFound),
                        )
                        &&& final(self)@ == old(self)@
                    } else {
                        let n = taken(log, all);
                        &&& old(self)@.logs.contains_key(group@)
                        &&& n < all.len()
                        &&& e == DBError::LogAppendRangeError(
                            GroupError::LogError(refusal(all[n as int].1)),
                        )
                        &&& final(self)@ == old(self)@.log_wrote_part(group@, all, n).log_refused(
                            group@,
                            all[n as int].1,
                        )
                    },
                }
            }),
    {
        let ghost all = stamped_view(entries@);
        let ghost was = self@;
        let ghost log = was.logs[group@];
        proof {
            lemma_taken_part(log, all);
            lemma_pushed_all_count(log, all.take(taken(log, all) as int));
        }
        let had: u64 = self.log_count(group);
        let ids = match self.group_manager.add_range(group, entries) {
            Ok(ids) => ids,
            Err(e) => {
                let has: u64 = self.log_count(group);
                let ghost k = taken(log, all);
                assert(all.take(k as int).len() == k);
                assert(has > had ==> was.logs.contains_key(group@) && has - had == k);
                if has > had {
                    assert(k <= entries.len());
                    let n: usize = (has - had) as usize;
                    assert(n == k);
                    let part = vstd::slice::slice_subrange(entries, 0, n);
                    let entry = AofEntry::LogAddRange {
                        group: copy_str(group),
                        entries: own_pairs(part),
                    };
                    assert(stamped_view(part@) =~= all.take(n as int));
                    assert(all.take(n as int).take(n as int) =~= all.take(n as int));
                    self.record(entry);
                }
                proof {
                    if was.logs.contains_key(group@) && all.len() > 0 {
                        assert(all.take(0) =~= Seq::empty());
                        assert(self@.logs =~= was.log_wrote_part(group@, all, k).log_refused(
                            group@,
                            all[k as int].1,
                        ).logs);
                    }
                }
                return Err(DBError::LogAppendRangeError(e));
            },
        };
        assert(all.take(all.len() as int) =~= all);
        self.record(
            AofEntry::LogAddRange { group: copy_str(group), entries: own_pairs(entries) },
        );
        Ok(ids)
    }

    /// Reads an entry of a group.
    pub fn log_read(&mut self, group: &str, id: u64) -> (r: Result<(u64, u64, Vec<u8>), DBError>)
        requires
            old(self).wf(),
        ensures
            final(self).wf(),
            final(self).clock() == old(self).clock(),
            final(self)@ == old(self)@,
            match r {
                Ok(t) => {
                    &&& old(self)@.logs.contains_key(group@)
                    &&& old(self)@.logs[group@].entries.contains_key(id)
                    &&& (t.0, t.1, t.2@) == old(self)@.logs[group@].entries[id].triple()
                },
                Err(DBError::LogReadError(GroupError::GroupNotFound(n))) => {
                    &&& n@ == group@
                    &&& !old(self)@.logs.contains_key(group@)
                },
                Err(e) => {
                    &&& e == DBError::LogReadError(GroupError::LogError(LogError::EntryNotFound))
                    &&& old(self)@.logs.contains_key(group@)
                    &&& !old(self)@.logs[group@].entries.contains_key(id)
                },
            },
    {
        match self.group_manager.read(group, id) {
            Ok(t) => Ok(t),
            Err(e) => Err(DBError::LogReadError(e)),
        }
    }

    /// Reads the entries of a group with ids from `start` up to and with `end`.
    pub fn log_read_range(&mut self, group: &str, start: u64, end: u64) -> (r: Result<
        Vec<(u64, u64, Vec<u8>)>,
        DBError,
    >)
        requires
            old(self).wf(),
            old(self)@.logs.contains_key(group@) ==> start <= end,
        ensures
            final(self).wf(),
            final(self).clock() == old(self).clock(),
            final(self)@ == old(self)@,
            match r {
                Ok(entries) => {
                    &&& old(self)@.logs.contains_key(group@)
                    &&& triples_view(entries@) == old(self)@.logs[group@].range(start, end)
                },
                Err(e) => {
                    &&& e matches DBError::LogReadRangeError(GroupError::GroupNotFound(n)) && n@
                        == group@
                    &&& !old(self)@.logs.contains_key(group@)
                },
            },
    {
        match self.group_manager.read_range(group, start, end) {
            Ok(entries) => Ok(entries),
            Err(e) => Err(DBError::LogReadRangeError(e)),
        }
    }

    /// Drops the entries of a group below an id.
    pub fn log_remove(&mut self, group: &str, up_to_id: u64) -> (r: Result<(), DBError>)
        requires
            old(self).wf(),
        ensures
            final(self).wf(),
            final(self).clock() == old(self).clock(),
            match r {
                Ok(()) => {
                    &&& old(self)@.logs.contains_key(group@)
                    &&& final(self)@ == old(self)@.log_wrote(
                        AofView::LogRemove { group: group@, up_to_id },
                    )
                },
                Err(e) => {
                    &&& e matches DBError::LogRemoveError(GroupError::GroupNotFound(n)) && n@
                        == group@
                    &&& !old(self)@.logs.contains_key(group@)
                    &&& final(self)@ == old(self)@
                },
            },
    {
        match self.group_manager.remove(group, up_to_id) {
            Ok(()) => {},
            Err(e) => {
                return Err(DBError::LogRemoveError(e));
            },
        }
        self.record(AofEntry::LogRemove { group: copy_str(group), up_to_id });
        Ok(())
    }

    /// The names of the groups, in no order that is promised.
    pub fn log_list_groups(&mut self) -> (r: Result<Vec<String>, DBError>)
        requires
            old(self).wf(),
        ensures
            final(self).wf(),
            final(self).clock() == old(self).clock(),
            final(self)@ == old(self)@,
            match r {
                Ok(names) => {
                    &&& strings_view(names@).no_duplicates()
                    &&& strings_view(names@).to_set() == old(self)@.logs.dom()
                },
                Err(_) => false,
            },
    {
        Ok(self.group_manager.list_groups())
    }

    /// The size of a group's log, and the id that comes next.
    pub fn log_group_stats(&mut self, group: &str) -> (r: Result<GroupStats, DBError>)
        requires
            old(self).wf(),
        ensures
            final(self).wf(),
            final(self).clock() == old(self).clock(),
            final(self)@ == old(self)@,
            match r {
                Ok(s) => {
                    &&& old(self)@.logs.contains_key(group@)
                    &&& s.total_entries == old(self)@.logs[group@].count
                    &&& s.total_segments == old(self)@.logs[group@].segs
                    &&& s.next_id == old(self)@.logs[group@].next_id
                },
                Err(e) => {
                    &&& e matches DBError::LogGroupStatsError(GroupError::GroupNotFound(n)) && n@
                        == group@
                    &&& !old(self)@.logs.contains_key(group@)
                },
            },
    {
        match self.group_manager.group_stats(group) {
            Ok(stats) => Ok(stats),
            Err(e) => Err(DBError::LogGroupStatsError(e)),
        }
    }

    /// Pushes an item at the end of a list.
    pub fn list_push(&mut self, key: String, payload: Vec<u8>) -> (r: Result<(), DBError>)
        requires
            old(self).wf(),
        ensures
            final(self).wf(),
            final(self).clock() == old(self).clock(),
            match r {
                Ok(()) => {
                    &&& item_fits(payload@)
                    &&& final(self)@ == old(self)@.list_wrote(
                        AofView::ListPush { key: key@, payload: payload@ },
                    )
                },
                Err(e) => {
                    &&& e == DBError::ListPushError(ListError::EntryTooLarge)
                    &&& !item_fits(payload@)
                    &&& final(self)@ == old(self)@
                },
            },
    {
        let copy = copy_bytes(payload.as_slice());
        match self.list.push(copy_str(key.as_str()), copy) {
            Ok(()) => {},
            Err(e) => {
                return Err(DBError::ListPushError(e));
            },
        }
        self.record(AofEntry::ListPush { key, payload });
        Ok(())
    }

    /// Pushes items at the end of a list. Where one does not fit, those before it stay, and they are
    /// what is logged.
    pub fn list_push_range(&mut self, key: String, items: Vec<Vec<u8>>) -> (r: Result<(), DBError>)
        requires
            old(self).wf(),
        ensures
            final(self).wf(),
            final(self).clock() == old(self).clock(),
            ({
                let all = vecs_view(items@);
                let e = AofView::ListPushRange { key: key@, items: all };
                match r {
                    Ok(()) => {
                        &&& fitting(all) == all.len()
                        &&& final(self)@ == old(self)@.list_wrote(e)
                    },
                    Err(err) => {
                        &&& err == DBError::ListPushRangeError(ListError::EntryTooLarge)
                        &&& fitting(all) < all.len()
                        &&& final(self)@ == old(self)@.list_wrote_part(key@, all, fitting(all))
                    },
                }
            }),
    {
        let ghost was = self@;
        let ghost all = vecs_view(items@);
        proof {
            lemma_fitting_part(all);
        }
        let had: usize = match self.list.length(key.as_str()) {
            Some(n) => n,
            None => 0,
        };
        match self.list.push_range(copy_str(key.as_str()), copy_vecs(&items)) {
            Ok(()) => {},
            Err(e) => {
                let has: usize = match self.list.length(key.as_str()) {
                    Some(n) => n,
                    None => 0,
                };
                if has > had {
                    let n: usize = has - had;
                    let mut part = items;
                    part.truncate(n);
                    assert(vecs_view(part@) =~= all.take(n as int));
                    assert(all.take(n as int).take(n as int) =~= all.take(n as int));
                    self.record(AofEntry::ListPushRange { key, items: part });
                }
                return Err(DBError::ListPushRangeError(e));
            },
        }
        self.record(AofEntry::ListPushRange { key, items });
        Ok(())
    }

    /// Takes the first item of a list.
    pub fn list_pop(&mut self, key: String) -> (r: Result<Vec<u8>, DBError>)
        requires
            old(self).wf(),
            list_step_ok(old(self)@.lists, AofView::ListPop { key: key@ }),
        ensures
            final(self).wf(),
            final(self).clock() == old(self).clock(),
            match r {
                Ok(item) => {
                    &&& old(self)@.lists.contains_key(key@)
                    &&& item@ == old(self)@.lists[key@][0]
                    &&& final(self)@ == old(self)@.list_wrote(AofView::ListPop { key: key@ })
                },
                Err(e) => {
                    &&& e == DBError::ListPopError(ListError::KeyNotFound)
                    &&& !old(self)@.lists.contains_key(key@)
                    &&& final(self)@ == old(self)@
                },
            },
    {
        let data = match self.list.pop(copy_str(key.as_str())) {
            Ok(data) => data,
            Err(e) => {
                return Err(DBError::ListPopError(e));
            },
        };
        self.record(AofEntry::ListPop { key });
        Ok(data)
    }

    /// Takes the items of a list from `start` up to `end`.
    pub fn list_pop_range(&mut self, key: String, start: usize, end: usize) -> (r: Result<
        Vec<Vec<u8>>,
        DBError,
    >)
        requires
            old(self).wf(),
            list_step_ok(old(self)@.lists, AofView::ListPopRange { key: key@, start, end }),
        ensures
            final(self).wf(),
            final(self).clock() == old(self).clock(),
            match r {
                Ok(items) => {
                    &&& old(self)@.lists.contains_key(key@)
                    &&& end <= old(self)@.lists[key@].len()
                    &&& vecs_view(items@) == old(self)@.lists[key@].subrange(
                        start as int,
                        end as int,
                    )
                    &&& final(self)@ == old(self)@.list_wrote(
                        AofView::ListPopRange { key: key@, start, end },
                    )
                },
                Err(DBError::ListPopRangeError(ListError::KeyNotFound)) => {
                    &&& !old(self)@.lists.contains_key(key@)
                    &&& final(self)@ == old(self)@
                },
                Err(e) => {
                    &&& e == DBError::ListPopRangeError(ListError::OutOfRange)
                    &&& old(self)@.lists.contains_key(key@)
                    &&& end > old(self)@.lists[key@].len()
                    &&& final(self)@ == old(self)@
                },
            },
    {
        let data = match self.list.pop_range(copy_str(key.as_str()), start, end) {
            Ok(data) => data,
            Err(e) => {
                return Err(DBError::ListPopRangeError(e));
            },
        };
        self.record(AofEntry::ListPopRange { key, start, end });
        Ok(data)
    }

    /// Takes the first `count` items of a list.
    pub fn list_pop_count(&mut self, key: String, count: usize) -> (r: Result<Vec<Vec<u8>>, DBError>)
        requires
            old(self).wf(),
            list_step_ok(old(self)@.lists, AofView::ListPopCount { key: key@, count }),
        ensures
            final(self).wf(),
            final(self).clock() == old(self).clock(),
            match r {
                Ok(items) => {
                    &&& old(self)@.lists.contains_key(key@)
                    &&& vecs_view(items@) == old(self)@.lists[key@].take(count as int)
                    &&& final(self)@ == old(self)@.list_wrote(
                        AofView::ListPopCount { key: key@, count },
                    )
                },
                Err(e) => {
                    &&& e == DBError::ListPopCountError(ListError::KeyNotFound)
                    &&& !old(self)@.lists.contains_key(key@)
                    &&& final(self)@ == old(self)@
                },
            },
    {
        let data = match self.list.pop_count(copy_str(key.as_str()), count) {
            Ok(data) => data,
            Err(e) => {
                return Err(DBError::ListPopCountError(e));
            },
        };
        self.record(AofEntry::ListPopCount { key, count });
        Ok(data)
    }

    /// How many items a list has. A list that is asked for exists from then on.
    pub fn list_len(&mut self, key: String) -> (r: Result<usize, DBError>)
        requires
            old(self).wf(),
        ensures
            final(self).wf(),
            final(self).clock() == old(self).clock(),
            r matches Ok(n) && n == items_of(old(self)@.lists, key@).len(),
            final(self)@ == (DbView {
                lists: old(self)@.lists.insert(key@, items_of(old(self)@.lists, key@)),
                ..old(self)@
            }),
    {
        match self.list.len(key) {
            Ok(n) => Ok(n),
            Err(e) => Err(DBError::ListLenError(e)),
        }
    }

    /// How many items a list has, if it exists.
    pub fn list_length(&self, key: &str) -> (r: Option<usize>)
        requires
            self.wf(),
        ensures
            match r {
                Some(n) => self@.lists.contains_key(key@) && n == self@.lists[key@].len(),
                None => !self@.lists.contains_key(key@),
            },
    {
        self.list.length(key)
    }

    /// Whether an entry of the log asks a list for no more than it has.
    pub fn admits_entry(&self, entry: &AofEntry) -> (r: bool)
        requires
            self.wf(),
        ensures
            r == list_step_ok(self@.lists, entry@),
    {
        match entry {
            AofEntry::ListPop { key } => match self.list_length(key.as_str()) {
                Some(n) => n > 0,
                None => true,
            },
            AofEntry::ListPopRange { key, start, end } => match self.list_length(key.as_str()) {
                Some(n) => *end > n || *start <= *end,
                None => true,
            },
            AofEntry::ListPopCount { key, count } => match self.list_length(key.as_str()) {
                Some(n) => *count <= n,
                None => true,
            },
            _ => true,
        }
    }

    /// Whether there is a group of this name.
    pub fn has_group(&self, name: &str) -> (r: bool)
        requires
            self.wf(),
        ensures
            r == self@.logs.contains_key(name@),
    {
        self.group_manager.contains(name)
    }

    /// Drops all items of a list.
    pub fn list_flush(&mut self, key: String) -> (r: Result<(), DBError>)
        requires
            old(self).wf(),
        ensures
            final(self).wf(),
            final(self).clock() == old(self).clock(),
            match r {
                Ok(()) => {
                    &&& old(self)@.lists.contains_key(key@)
                    &&& final(self)@ == old(self)@.list_wrote(AofView::ListFlush { key: key@ })
                },
                Err(e) => {
                    &&& e == DBError::ListFlushError(ListError::KeyNotFound)
                    &&& !old(self)@.lists.contains_key(key@)
                    &&& final(self)@ == old(self)@
                },
            },
    {
        match self.list.flush(copy_str(key.as_str())) {
            Ok(()) => {},
            Err(e) => {
                return Err(DBError::ListFlushError(e));
            },
        }
        self.record(AofEntry::ListFlush { key });
        Ok(())
    }
}

/// Entries that can be applied can be applied in part.
proof fn lemma_list_steps_ok_prefix(lists: Lists, entries: Seq<AofView>, n: int)
    requires
        0 <= n <= entries.len(),
        list_steps_ok(lists, entries),
    ensures
        list_steps_ok(lists, entries.take(n)),
    decreases entries.len(),
{
    if n == entries.len() {
        assert(entries.take(n) =~= entries);
    } else {
        lemma_list_steps_ok_prefix(lists, entries.drop_last(), n);
        assert(entries.drop_last().take(n) =~= entries.take(n));
    }
}

/// Entries that are writes to other stores leave the lists as they are.
proof fn lemma_other_lists(lists: Lists, entries: Seq<AofView>)
    requires
        forall|i: int|
            0 <= i < entries.len() ==> (#[trigger] entries[i]).category() != EntryCategory::List,
    ensures
        list_steps(lists, entries) == lists,
        list_steps_ok(lists, entries),
    decreases entries.len(),
{
    if entries.len() > 0 {
        let t = entries.drop_last();
        assert forall|i: int| 0 <= i < t.len() implies (#[trigger] t[i]).category()
            != EntryCategory::List by {
            assert(t[i] == entries[i]);
        }
        lemma_other_lists(lists, t);
        assert(entries[entries.len() - 1].category() != EntryCategory::List);
    }
}

/// Entries that are writes to other stores leave the groups as they are.
proof fn lemma_other_logs(logs: Logs, entries: Seq<AofView>)
    requires
        forall|i: int|
            0 <= i < entries.len() ==> (#[trigger] entries[i]).category() != EntryCategory::Log,
    ensures
        log_steps(logs, entries) == logs,
    decreases entries.len(),
{
    if entries.len() > 0 {
        let t = entries.drop_last();
        assert forall|i: int| 0 <= i < t.len() implies (#[trigger] t[i]).category()
            != EntryCategory::Log by {
            assert(t[i] == entries[i]);
        }
        lemma_other_logs(logs, t);
        assert(entries[entries.len() - 1].category() != EntryCategory::Log);
    }
}

/// Entries that are writes to other stores leave the databases as they are.
proof fn lemma_other_kv(before: Databases, after: Databases, entries: Seq<AofView>)
    requires
        forall|i: int|
            0 <= i < entries.len() ==> (#[trigger] entries[i]).category() != EntryCategory::Kv,
        kv_replayed(before, after, entries),
    ensures
        after == before,
{
    let (states, times) = choose|states: Seq<Databases>, times: Seq<(i64, i64)>| #[trigger]
        kv_trace(states, entries, times) && states.first() == before && states.last() == after;
    lemma_states_stay(states, entries, times, entries.len() as int);
}

proof fn lemma_states_stay(
    states: Seq<Databases>,
    entries: Seq<AofView>,
    times: Seq<(i64, i64)>,
    n: int,
)
    requires
        forall|i: int|
            0 <= i < entries.len() ==> (#[trigger] entries[i]).category() != EntryCategory::Kv,
        kv_trace(states, entries, times),
        0 <= n <= entries.len(),
    ensures
        states[n] == states[0],
    decreases n,
{
    if n > 0 {
        lemma_states_stay(states, entries, times, n - 1);
        assert(entries[n - 1].category() != EntryCategory::Kv);
    }
}

/// The last entry is the last step.
proof fn lemma_kv_replayed_pop(before: Databases, after: Databases, entries: Seq<AofView>) -> (r: (
    Databases,
    i64,
    i64,
))
    requires
        entries.len() > 0,
        kv_replayed(before, after, entries),
    ensures
        kv_replayed(before, r.0, entries.drop_last()),
        kv_step(r.0, after, entries.last(), r.1, r.2),
{
    let (states, times) = choose|states: Seq<Databases>, times: Seq<(i64, i64)>| #[trigger]
        kv_trace(states, entries, times) && states.first() == before && states.last() == after;
    let n = entries.len() - 1;
    let fewer = entries.drop_last();
    let states1 = states.drop_last();
    let times1 = times.drop_last();
    assert forall|i: int| 0 <= i < fewer.len() implies kv_step(
        states1[i],
        states1[i + 1],
        #[trigger] fewer[i],
        times1[i].0,
        times1[i].1,
    ) by {
        assert(fewer[i] == entries[i]);
    }
    assert(kv_trace(states1, fewer, times1));
    assert(entries[n] == entries.last());
    (states[n], times[n].0, times[n].1)
}

/// No entries are no step.
proof fn lemma_kv_replayed_empty(before: Databases, after: Databases, entries: Seq<AofView>)
    requires
        entries.len() == 0,
    ensures
        kv_replayed(before, after, entries) <==> after == before,
{
    assert(entries =~= Seq::empty());
    lemma_kv_replayed_none(before);
    if kv_replayed(before, after, entries) {
        lemma_other_kv(before, after, entries);
    }
}

/// Applying the log store by store gives the same stores as applying it in the order in which it
/// was written: each store depends only on the entries that are writes to it, in their order.
pub proof fn law_replay_by_store(
    lists: Lists,
    logs: Logs,
    before: Databases,
    after: Databases,
    all: Seq<AofView>,
)
    ensures
        list_steps(lists, all) == list_steps(lists, of_category(all, EntryCategory::List)),
        list_steps_ok(lists, all) == list_steps_ok(lists, of_category(all, EntryCategory::List)),
        log_steps(logs, all) == log_steps(logs, of_category(all, EntryCategory::Log)),
        kv_replayed(before, after, all) == kv_replayed(
            before,
            after,
            of_category(all, EntryCategory::Kv),
        ),
    decreases all.len(),
{
    let kv = of_category(all, EntryCategory::Kv);
    if all.len() == 0 {
        lemma_kv_replayed_empty(before, after, all);
        lemma_kv_replayed_empty(before, after, kv);
    } else {
        let t = all.drop_last();
        let e = all.last();
        let kv_t = of_category(t, EntryCategory::Kv);
        assert(t.push(e) =~= all);
        if e.category() == EntryCategory::List {
            let l = of_category(t, EntryCategory::List);
            assert(l.push(e).drop_last() =~= l);
        }
        if e.category() == EntryCategory::Log {
            let l = of_category(t, EntryCategory::Log);
            assert(l.push(e).drop_last() =~= l);
        }
        law_replay_by_store(lists, logs, before, after, t);
        if e.category() == EntryCategory::Kv {
            assert(kv_t.push(e).drop_last() =~= kv_t);
            if kv_replayed(before, after, all) {
                let (mid, now, used) = lemma_kv_replayed_pop(before, after, all);
                law_replay_by_store(lists, logs, before, mid, t);
                lemma_kv_replayed_push(before, mid, after, kv_t, e, now, used);
            }
            if kv_replayed(before, after, kv) {
                let (mid, now, used) = lemma_kv_replayed_pop(before, after, kv);
                law_replay_by_store(lists, logs, before, mid, t);
                lemma_kv_replayed_push(before, mid, after, t, e, now, used);
            }
        } else {
            if kv_replayed(before, after, all) {
                let (mid, now, used) = lemma_kv_replayed_pop(before, after, all);
                assert(mid == after);
            }
            if kv_replayed(before, after, kv) {
                lemma_kv_replayed_push(before, after, after, t, e, 0, 0);
            }
        }
    }
}

/// The stores of `db` are what applying `log` to empty stores gives.
pub open spec fn rebuilt(db: DbView, log: Seq<AofView>) -> bool {
    &&& list_steps_ok(Map::empty(), log)
    &&& db.lists == list_steps(Map::empty(), log)
    &&& db.logs == log_steps(Map::empty(), log)
    &&& kv_replayed(Map::empty(), db.kv, log)
}

/// Applying a log to a new database gives what the log rebuilds.
pub proof fn law_replaying_rebuilds(new: DbView, after: DbView, log: Seq<AofView>)
    requires
        new.kv == Map::<Seq<char>, crate::kv::DbItems>::empty(),
        new.logs == Map::<Seq<char>, LogView>::empty(),
        new.lists == Map::<Seq<char>, Seq<Seq<u8>>>::empty(),
        replayed(new, after, log),
    ensures
        rebuilt(after, log),
        after.aof == new.aof,
        after.events == new.events,
{
}

/// A new database is what applying an empty log gives.
pub proof fn law_new_database_is_rebuilt(db: DbView)
    requires
        db.kv == Map::<Seq<char>, crate::kv::DbItems>::empty(),
        db.logs == Map::<Seq<char>, LogView>::empty(),
        db.lists == Map::<Seq<char>, Seq<Seq<u8>>>::empty(),
    ensures
        rebuilt(db, Seq::empty()),
{
    lemma_kv_replayed_none(db.kv);
}

/// The log rebuilds the state: where applying the log gives the stores as they are, it does so
/// after every write that succeeds, with the entry that the write added to the log. Of the
/// databases this holds with the clock read as it was by the writes.
pub proof fn law_log_rebuilds_state(
    db: DbView,
    after: DbView,
    log: Seq<AofView>,
    e: AofView,
    now: i64,
    used: i64,
)
    requires
        rebuilt(db, log),
        e.category() == EntryCategory::List ==> list_step_ok(db.lists, e) && after
            == db.list_wrote(e),
        e.category() == EntryCategory::Log ==> after == db.log_wrote(e),
        e.category() == EntryCategory::Kv ==> db.kv_wrote(after, e, now, used),
    ensures
        rebuilt(after, log.push(e)),
        after.aof == db.aof.push(e),
{
    assert(log.push(e).drop_last() =~= log);
    lemma_kv_replayed_push(Map::empty(), db.kv, after.kv, log, e, now, used);
}

/// Applying one part of a log, and then the rest, is applying the log. A log with no entries changes
/// nothing.
pub proof fn law_replay_in_parts(
    lists: Lists,
    logs: Logs,
    first: Databases,
    second: Databases,
    third: Databases,
    a: Seq<AofView>,
    b: Seq<AofView>,
)
    ensures
        list_steps(lists, a + b) == list_steps(list_steps(lists, a), b),
        list_steps_ok(lists, a + b) == (list_steps_ok(lists, a) && list_steps_ok(
            list_steps(lists, a),
            b,
        )),
        log_steps(logs, a + b) == log_steps(log_steps(logs, a), b),
        kv_replayed(first, second, a) && kv_replayed(second, third, b) ==> kv_replayed(
            first,
            third,
            a + b,
        ),
        list_steps(lists, Seq::empty()) == lists,
        log_steps(logs, Seq::empty()) == logs,
        kv_replayed(first, second, Seq::empty()) ==> second == first,
    decreases b.len(),
{
    if b.len() == 0 {
        assert(a + b =~= a);
        if kv_replayed(second, third, b) {
            assert(second == third);
        }
    } else {
        let c = b.drop_last();
        assert((a + b).drop_last() =~= a + c);
        assert((a + b).last() == b.last());
        law_replay_in_parts(lists, logs, first, second, third, a, c);
        if kv_replayed(first, second, a) && kv_replayed(second, third, b) {
            let (states, times) = choose|states: Seq<Databases>, times: Seq<(i64, i64)>| #[trigger]
                kv_trace(states, b, times) && states.first() == second && states.last() == third;
            let n = b.len() as int;
            let mid = states[n - 1];
            assert(b[n - 1] == b.last());
            assert(kv_step(mid, third, b.last(), times[n - 1].0, times[n - 1].1));
            let fewer = states.take(n);
            let short = times.take(n - 1);
            assert forall|i: int| 0 <= i < c.len() implies kv_step(
                fewer[i],
                fewer[i + 1],
                #[trigger] c[i],
                short[i].0,
                short[i].1,
            ) by {
                assert(c[i] == b[i]);
            }
            assert(kv_trace(fewer, c, short));
            assert(kv_replayed(second, mid, c));
            law_replay_in_parts(lists, logs, first, second, mid, a, c);
            lemma_kv_replayed_push(
                first,
                mid,
                third,
                a + c,
                b.last(),
                times[n - 1].0,
                times[n - 1].1,
            );
            assert((a + c).push(b.last()) =~= a + b);
        }
    }
}

/// What applying one entry of the log does to a key-value store: a write stores its value, and the
/// time at which it expires, counted from a reading of the clock. A deletion takes the key out and
/// leaves the others. A flush leaves no key. No other entry changes a key, and none changes another
/// database.
#[verifier::rlimit(50)]
pub proof fn law_logged_key(
    before: Databases,
    after: Databases,
    e: AofView,
    now: i64,
    used: i64,
    other_db: Seq<char>,
    other: Seq<char>,
)
    requires
        kv_step(before, after, e, now, used),
    ensures
        match e {
            AofView::KvSet { db, key, val, ttl } => {
                &&& is_reading(now) && is_reading(used)
                &&& db_of(after, db).contains_key(key)
                &&& db_of(after, db)[key].val == val
                &&& db_of(after, db)[key].used_count == 0
                &&& db_of(after, db)[key].last_used == used
                &&& ttl == 0 ==> db_of(after, db)[key].ttl == 0
                &&& 0 < ttl && now + ttl <= i64::MAX ==> db_of(after, db)[key].ttl == now + ttl
                &&& other != key && db_of(before, db).len() < 1024 ==> {
                    &&& db_of(after, db).contains_key(other) == db_of(before, db).contains_key(
                        other,
                    )
                    &&& db_of(before, db).dom().finite() && db_of(before, db).contains_key(other)
                        ==> db_of(after, db)[other] == db_of(before, db)[other]
                }
                &&& other_db != db ==> db_of(after, other_db) == db_of(before, other_db)
            },
            AofView::KvDel { db, key } => {
                &&& !db_of(after, db).contains_key(key)
                &&& other != key ==> db_of(after, db).contains_key(other) == db_of(
                    before,
                    db,
                ).contains_key(other)
                &&& other != key && db_of(before, db).contains_key(other) ==> db_of(
                    after,
                    db,
                )[other] == db_of(before, db)[other]
                &&& other_db != db ==> db_of(after, other_db) == db_of(before, other_db)
            },
            AofView::KvFlush { db } => {
                &&& !db_of(after, db).contains_key(other)
                &&& other_db != db ==> db_of(after, other_db) == db_of(before, other_db)
            },
            _ => after == before,
        },
{
    match e {
        AofView::KvSet { db, key, val, ttl } => {
            crate::clock::law_readings_start_at_the_epoch(now);
            if other != key {
                crate::kv::law_kv_write_touches_one_key(
                    before,
                    after,
                    db,
                    key,
                    val,
                    ttl,
                    now,
                    used,
                    other,
                );
            } else {
                assert(key.push('a').len() == key.len() + 1);
                crate::kv::law_kv_write_touches_one_key(
                    before,
                    after,
                    db,
                    key,
                    val,
                    ttl,
                    now,
                    used,
                    key.push('a'),
                );
            }
        },
        _ => {},
    }
}

/// What applying one entry of the log does to a list: a push puts items behind the others, a pop takes
/// the first, a pop of a range takes that range, and a flush leaves none. No entry changes another
/// list, and none but these changes a list.
#[verifier::rlimit(50)]
pub proof fn law_logged_list(lists: Lists, e: AofView, other: Seq<char>)
    requires
        list_step_ok(lists, e),
    ensures
        ({
            let after = list_step(lists, e);
            match e {
                AofView::ListPush { key, payload } => {
                    &&& payload.len() + 20 <= 65536 ==> items_of(after, key) == items_of(
                        lists,
                        key,
                    ) + seq![payload]
                    &&& payload.len() + 20 > 65536 ==> after == lists
                    &&& other != key ==> items_of(after, other) == items_of(lists, other)
                },
                AofView::ListPushRange { key, items } => {
                    &&& (forall|i: int|
                        0 <= i < items.len() ==> (#[trigger] items[i]).len() + 20 <= 65536)
                        ==> items_of(after, key) == items_of(lists, key) + items
                    &&& items_of(after, key).take(items_of(lists, key).len() as int) == items_of(
                        lists,
                        key,
                    )
                    &&& other != key ==> items_of(after, other) == items_of(lists, other)
                },
                AofView::ListPop { key } => {
                    &&& lists.contains_key(key) ==> seq![lists[key][0]] + items_of(after, key)
                        == lists[key]
                    &&& !lists.contains_key(key) ==> after == lists
                    &&& other != key ==> items_of(after, other) == items_of(lists, other)
                },
                AofView::ListPopRange { key, start, end } => {
                    &&& lists.contains_key(key) && end <= lists[key].len() ==> items_of(after, key)
                        == lists[key].take(start as int) + lists[key].skip(end as int)
                    &&& !lists.contains_key(key) || end > lists[key].len() ==> after == lists
                    &&& other != key ==> items_of(after, other) == items_of(lists, other)
                },
                AofView::ListPopCount { key, count } => {
                    &&& lists.contains_key(key) ==> lists[key].take(count as int) + items_of(
                        after,
                        key,
                    ) == lists[key]
                    &&& !lists.contains_key(key) ==> after == lists
                    &&& other != key ==> items_of(after, other) == items_of(lists, other)
                },
                AofView::ListFlush { key } => {
                    &&& items_of(after, key).len() == 0
                    &&& after.contains_key(key) == lists.contains_key(key)
                    &&& other != key ==> items_of(after, other) == items_of(lists, other)
                },
                _ => after == lists,
            }
        }),
{
    let after = list_step(lists, e);
    match e {
        AofView::ListPush { key, payload } => {
            if item_fits(payload) {
                assert(items_of(after, key) =~= items_of(lists, key) + seq![payload]);
            }
        },
        AofView::ListPushRange { key, items } => {
            lemma_fitting(items);
            if forall|i: int| 0 <= i < items.len() ==> (#[trigger] items[i]).len() + 20 <= 65536 {
                if fitting(items) < items.len() {
                    assert(items[fitting(items) as int].len() + 20 <= 65536);
                }
                assert(items.take(items.len() as int) =~= items);
                assert(items_of(after, key) =~= items_of(lists, key) + items);
            }
            assert(items_of(after, key).take(items_of(lists, key).len() as int) =~= items_of(
                lists,
                key,
            ));
        },
        AofView::ListPop { key } => {
            if lists.contains_key(key) {
                assert(seq![lists[key][0]] + items_of(after, key) =~= lists[key]);
            }
        },
        AofView::ListPopRange { key, start, end } => {
            if lists.contains_key(key) && end <= lists[key].len() {
                assert(items_of(after, key) =~= lists[key].take(start as int) + lists[key].skip(
                    end as int,
                ));
            }
        },
        AofView::ListPopCount { key, count } => {
            if lists.contains_key(key) {
                assert(lists[key].take(count as int) + items_of(after, key) =~= lists[key]);
            }
        },
        _ => {},
    }
}

/// What applying one entry of the log does to a group: a group is made with no entries, and its ids
/// start at 1. One that is made again stays as it is, and one that is dropped is gone. What is added
/// stands under the id that came next. What is removed are the entries below an id. No entry changes
/// another group, and none but these changes a group.
#[verifier::rlimit(50)]
pub proof fn law_logged_group(logs: Logs, e: AofView, other: Seq<char>, id: u64)
    ensures
        ({
            let after = log_step(logs, e);
            match e {
                AofView::LogCreateGroup { name } => {
                    &&& after.contains_key(name)
                    &&& logs.contains_key(name) ==> after == logs
                    &&& !logs.contains_key(name) ==> {
                        &&& !after[name].entries.contains_key(id)
                        &&& after[name].next_id == 1 && after[name].count == 0
                    }
                    &&& other != name ==> after.contains_key(other) == logs.contains_key(other)
                        && after[other] == logs[other]
                },
                AofView::LogDropGroup { name } => {
                    &&& !after.contains_key(name)
                    &&& other != name ==> after.contains_key(other) == logs.contains_key(other)
                        && after[other] == logs[other]
                },
                AofView::LogAdd { group, timestamp, payload } => {
                    &&& after.contains_key(group) == logs.contains_key(group)
                    &&& logs.contains_key(group) && logs[group].takes(payload) ==> {
                        let next = logs[group].next_id;
                        &&& after[group].entries.contains_key(next)
                        &&& after[group].entries[next].triple() == (next, timestamp, payload)
                        &&& next < u64::MAX ==> after[group].next_id == next + 1
                        &&& id != next ==> after[group].entries.contains_key(id)
                            == logs[group].entries.contains_key(id)
                        &&& id != next ==> after[group].entries[id] == logs[group].entries[id]
                    }
                    &&& logs.contains_key(group) && !logs[group].takes(payload) ==> {
                        &&& after[group].entries == logs[group].entries
                        &&& after[group].next_id == logs[group].next_id
                    }
                    &&& other != group ==> after.contains_key(other) == logs.contains_key(other)
                        && after[other] == logs[other]
                },
                AofView::LogAddRange { group, entries } => {
                    &&& after.contains_key(group) == logs.contains_key(group)
                    &&& logs.contains_key(group) && taken(logs[group], entries) == entries.len()
                        ==> after[group] == log_pushed_all(logs[group], entries)
                    &&& other != group ==> after.contains_key(other) == logs.contains_key(other)
                        && after[other] == logs[other]
                },
                AofView::LogRemove { group, up_to_id } => {
                    &&& after.contains_key(group) == logs.contains_key(group)
                    &&& logs.contains_key(group) ==> {
                        &&& after[group].entries.contains_key(id) <==> logs[group].entries.contains_key(
                            id,
                        ) && id >= up_to_id
                        &&& after[group].next_id == logs[group].next_id
                    }
                    &&& other != group ==> after.contains_key(other) == logs.contains_key(other)
                        && after[other] == logs[other]
                },
                _ => after == logs,
            }
        }),
{
    match e {
        AofView::LogAddRange { group, entries } => {
            assert(entries.take(entries.len() as int) =~= entries);
        },
        _ => {},
    }
}

/// What a read of a key finds goes by the first of the two readings of the clock that it takes.
proof fn lemma_get_by_the_clock(
    db: &mut DB,
    name: String,
    key: String,
    r: Result<Option<DBEntry>, DBError>,
)
    requires
        call_ensures(DB::kv_get, (db, name, key), r),
    ensures
        ({
            let n = old(db).clock().len() as int;
            let t = final(db).clock()[n];
            let u = final(db).clock()[n + 1];
            &&& final(db).clock() == old(db).clock().push(t).push(u)
            &&& is_reading(t) && is_reading(u)
            &&& final(db)@ == old(db)@.with_kv(kv_after_read(old(db)@.kv, name@, key@, t, u))
            &&& match r {
                Ok(Some(e)) => kv_found(old(db)@.kv, name@, key@, t, u) == Some(e@),
                Ok(None) => kv_found(old(db)@.kv, name@, key@, t, u) is None,
                Err(_) => false,
            }
        }),
{
    let (now, used) = choose|now: i64, used: i64|
        {
            &&& final(db)@ == old(db)@.with_kv(
                #[trigger] kv_after_read(old(db)@.kv, name@, key@, now, used),
            )
            &&& is_reading(now) && is_reading(used)
            &&& final(db).clock() == old(db).clock().push(now).push(used)
            &&& match r {
                Ok(Some(e)) => kv_found(old(db)@.kv, name@, key@, now, used) == Some(e@),
                Ok(None) => kv_found(old(db)@.kv, name@, key@, now, used) is None,
                Err(_) => false,
            }
        };
    let n = old(db).clock().len() as int;
    assert(final(db).clock()[n] == now && final(db).clock()[n + 1] == used);
}

/// A key that is set is read back with its value until the wall clock, as it is read first for the
/// read, is past the time to live from where it stood, as it was read first for the write. From then
/// on there is no such key. Without a time to live it is read back whatever the clock reads.
pub proof fn law_kv_set_then_get(
    first: &mut DB,
    second: &mut DB,
    db: String,
    key: String,
    val: Vec<u8>,
    ttl: i64,
    same_db: String,
    same_key: String,
    setting: Result<(), DBError>,
    getting: Result<Option<DBEntry>, DBError>,
)
    requires
        call_ensures(DB::kv_set, (first, db, key, val, ttl), setting),
        call_ensures(DB::kv_get, (second, same_db, same_key), getting),
        final(first)@.kv == old(second)@.kv,
        same_db@ == db@,
        same_key@ == key@,
    ensures
        setting is Ok,
        final(first).clock().len() == old(first).clock().len() + 2,
        final(second).clock().len() == old(second).clock().len() + 2,
        ({
            let set_at = final(first).clock()[old(first).clock().len() as int];
            let got_at = final(second).clock()[old(second).clock().len() as int];
            &&& is_reading(set_at) && is_reading(got_at)
            &&& ttl == 0 || ttl > 0 && set_at + ttl <= i64::MAX && got_at <= set_at + ttl ==> {
                &&& getting matches Ok(Some(e))
                &&& e.val@ == val@
            }
            &&& ttl > 0 && set_at + ttl <= i64::MAX && got_at > set_at + ttl ==> getting matches Ok(
                None,
            )
        }),
{
    let e = AofView::KvSet { db: db@, key: key@, val: val@, ttl };
    let (now, used) = choose|now: i64, used: i64|
        {
            &&& #[trigger] old(first)@.kv_wrote(final(first)@, e, now, used)
            &&& final(first).clock() == old(first).clock().push(now).push(used)
        };
    lemma_get_by_the_clock(second, same_db, same_key, getting);
    let t = final(second).clock()[old(second).clock().len() as int];
    let u = final(second).clock()[old(second).clock().len() as int + 1];
    assert(old(first)@.kv_wrote(final(first)@, e, now, used));
    assert(kv_written(old(first)@.kv, final(first)@.kv, db@, key@, val@, ttl, now, used));
    crate::clock::law_readings_start_at_the_epoch(now);
    crate::kv::law_kv_write_then_read(
        old(first)@.kv,
        final(first)@.kv,
        db@,
        key@,
        val@,
        ttl,
        now,
        used,
        t,
        u,
    );
    assert(final(first).clock()[old(first).clock().len() as int] == now);
}

/// A key that is dropped, or whose database is flushed, is not read back.
pub proof fn law_kv_drop_then_get(
    first: &mut DB,
    second: &mut DB,
    third: &mut DB,
    db: String,
    key: String,
    same_db: String,
    same_key: String,
    dropping: Result<(), DBError>,
    flushing: Result<(), DBError>,
    getting: Result<Option<DBEntry>, DBError>,
)
    requires
        call_ensures(DB::kv_del, (first, db, key), dropping),
        call_ensures(DB::kv_flush, (third, db), flushing),
        call_ensures(DB::kv_get, (second, same_db, same_key), getting),
        final(first)@.kv == old(second)@.kv || final(third)@.kv == old(second)@.kv,
        same_db@ == db@,
        same_key@ == key@,
    ensures
        dropping is Ok <==> db_of(old(first)@.kv, db@).contains_key(key@),
        flushing is Ok,
        getting matches Ok(None),
{
    lemma_get_by_the_clock(second, same_db, same_key, getting);
}

/// The keys of a database are those that are in it, each once, and so are the groups.
pub proof fn law_names_are_listed(
    first: &mut DB,
    second: &mut DB,
    db: String,
    keys: Result<Vec<String>, DBError>,
    groups: Result<Vec<String>, DBError>,
    name: Seq<char>,
)
    requires
        call_ensures(DB::kv_keys, (first, db), keys),
        call_ensures(DB::log_list_groups, (second,), groups),
    ensures
        keys is Ok && groups is Ok,
        strings_view((keys->Ok_0)@).no_duplicates(),
        strings_view((keys->Ok_0)@).contains(name) <==> db_of(old(first)@.kv, db@).contains_key(
            name,
        ),
        strings_view((groups->Ok_0)@).no_duplicates(),
        strings_view((groups->Ok_0)@).contains(name) <==> old(second)@.logs.contains_key(name),
        final(first)@ == old(first)@ && final(second)@ == old(second)@,
{
    let a = strings_view((keys->Ok_0)@);
    let b = strings_view((groups->Ok_0)@);
    assert(a.to_set().contains(name) == a.contains(name));
    assert(b.to_set().contains(name) == b.contains(name));
}

/// An entry that is appended to a group is read back under the id that the append gave, with its
/// timestamp and its payload. The next append to the group gives the id behind it.
pub proof fn law_log_add_then_read(
    first: &mut DB,
    second: &mut DB,
    third: &mut DB,
    group: &str,
    timestamp: u64,
    payload: &[u8],
    adding: Result<u64, DBError>,
    reading: Result<(u64, u64, Vec<u8>), DBError>,
    adding_again: Result<u64, DBError>,
)
    requires
        call_ensures(DB::log_add, (first, group, timestamp, payload), adding),
        adding is Ok,
        call_ensures(DB::log_read, (second, group, adding->Ok_0), reading),
        call_ensures(DB::log_add, (third, group, timestamp, payload), adding_again),
        final(first)@.logs == old(second)@.logs,
        final(first)@.logs == old(third)@.logs,
    ensures
        reading matches Ok(e) && e.0 == adding->Ok_0 && e.1 == timestamp && e.2@ == payload@,
        adding_again matches Ok(next) ==> adding->Ok_0 < u64::MAX ==> next == adding->Ok_0 + 1,
        final(second)@ == old(second)@,
{
}

/// Entries that are appended to a group at once are read back in order, each under its own id, by the
/// range of the ids that the append gave.
#[verifier::rlimit(50)]
pub proof fn law_log_add_range_then_read(
    first: &mut DB,
    second: &mut DB,
    group: &str,
    entries: &[(u64, &[u8])],
    adding: Result<(u64, u64), DBError>,
    reading: Result<Vec<(u64, u64, Vec<u8>)>, DBError>,
    i: int,
)
    requires
        call_ensures(DB::log_add_range, (first, group, entries), adding),
        adding is Ok,
        call_ensures(
            DB::log_read_range,
            (second, group, (adding->Ok_0).0, (adding->Ok_0).1),
            reading,
        ),
        final(first)@.logs == old(second)@.logs,
        old(first)@.logs[group@].next_id + entries@.len() <= u64::MAX,
        0 <= i < entries@.len(),
    ensures
        (adding->Ok_0).1 - (adding->Ok_0).0 == entries@.len() - 1,
        reading matches Ok(read) && {
            &&& read@.len() == entries@.len()
            &&& read@[i].0 == (adding->Ok_0).0 + i
            &&& read@[i].1 == entries@[i].0
            &&& read@[i].2@ == entries@[i].1@
        },
{
    let all = stamped_view(entries@);
    let log = old(first)@.logs[group@];
    crate::groups::law_group_range_then_read(log, all);
    let some = all.drop_last();
    if some.len() > 0 {
        crate::groups::law_group_range_ids(log, some, 0, (log.next_id + some.len()) as u64);
    } else {
        assert(log_pushed_all(log, some) == log);
    }
    assert(all.take(all.len() as int) =~= all);
    let read = triples_view((reading->Ok_0)@);
    assert(read.len() == all.len());
    assert(read[i] == ((log.next_id + i) as u64, all[i].0, all[i].1));
    assert(read[i].2 == (reading->Ok_0)@[i].2@);
}

/// A group that is made is there, has no entries and gives the id 1 first. One that is dropped is not
/// there.
pub proof fn law_log_group_is_made_and_dropped(
    first: &mut DB,
    second: &mut DB,
    third: &mut DB,
    fourth: &DB,
    name: &str,
    making: Result<(), DBError>,
    stats: Result<GroupStats, DBError>,
    dropping: Result<(), DBError>,
    there: bool,
)
    requires
        call_ensures(DB::log_create_group, (first, name), making),
        call_ensures(DB::log_group_stats, (second, name), stats),
        call_ensures(DB::log_drop_group, (third, name), dropping),
        call_ensures(DB::has_group, (fourth, name), there),
        final(first)@.logs == old(second)@.logs,
        final(second)@.logs == old(third)@.logs,
        final(third)@.logs == fourth@.logs,
    ensures
        making is Ok <==> !old(first)@.logs.contains_key(name@),
        stats is Ok,
        making is Ok ==> (stats->Ok_0).total_entries == 0 && (stats->Ok_0).next_id == 1,
        dropping is Ok,
        !there,
{
}

/// Once the entries of an orderly group are removed up to an id, those below it are not read back, and
/// the others are, as before.
pub proof fn law_log_remove_then_read(
    first: &mut DB,
    second: &mut DB,
    third: &mut DB,
    group: &str,
    up_to_id: u64,
    id: u64,
    before: Result<(u64, u64, Vec<u8>), DBError>,
    removing: Result<(), DBError>,
    after: Result<(u64, u64, Vec<u8>), DBError>,
)
    requires
        call_ensures(DB::log_read, (first, group, id), before),
        call_ensures(DB::log_remove, (second, group, up_to_id), removing),
        call_ensures(DB::log_read, (third, group, id), after),
        final(first)@.logs == old(second)@.logs,
        final(second)@.logs == old(third)@.logs,
        old(first)@.logs[group@].wf(),
        old(first)@.logs[group@].orderly(),
    ensures
        removing is Ok <==> old(first)@.logs.contains_key(group@),
        id < up_to_id ==> after is Err,
        id >= up_to_id ==> (before is Ok <==> after is Ok),
        id >= up_to_id && before is Ok ==> (after->Ok_0).0 == (before->Ok_0).0 && (after->Ok_0).1
            == (before->Ok_0).1 && (after->Ok_0).2@ == (before->Ok_0).2@,
{
    crate::seg_log::law_log_trim_keeps(old(first)@.logs[group@], up_to_id, id);
}

/// Items come out of a list in the order in which they went in, whether they are pushed and popped one
/// by one or together, and the length of the list is how many are in it.
#[verifier::rlimit(30)]
pub proof fn law_list_push_then_pop(
    first: &mut DB,
    second: &mut DB,
    third: &mut DB,
    fourth: &mut DB,
    key: String,
    items: Vec<Vec<u8>>,
    last: Vec<u8>,
    count: usize,
    pushing: Result<(), DBError>,
    pushing_last: Result<(), DBError>,
    len: Result<usize, DBError>,
    popping: Result<Vec<Vec<u8>>, DBError>,
    i: int,
)
    requires
        call_ensures(DB::list_push_range, (first, key, items), pushing),
        call_ensures(DB::list_push, (second, key, last), pushing_last),
        call_ensures(DB::list_len, (third, key), len),
        call_ensures(DB::list_pop_count, (fourth, key, count), popping),
        final(first)@.lists == old(second)@.lists,
        final(second)@.lists == old(third)@.lists,
        final(third)@.lists == old(fourth)@.lists,
        pushing is Ok && pushing_last is Ok,
        items_of(old(first)@.lists, key@).len() == 0,
        count == items@.len() + 1,
        0 <= i < items@.len(),
    ensures
        len matches Ok(n) && n == count,
        popping matches Ok(popped) && {
            &&& popped@.len() == count
            &&& popped@[i]@ == items@[i]@
            &&& popped@.last()@ == last@
        },
        items_of(final(fourth)@.lists, key@).len() == 0,
{
    let all = vecs_view(items@);
    assert(all.take(all.len() as int) =~= all);
    assert(items_of(final(first)@.lists, key@) =~= all);
    assert(items_of(final(second)@.lists, key@) =~= all.push(last@));
    assert(items_of(final(third)@.lists, key@) == items_of(final(second)@.lists, key@));
    let had = items_of(old(fourth)@.lists, key@);
    assert(had.len() == count);
    assert(had.take(count as int) =~= had);
    let out = vecs_view((popping->Ok_0)@);
    assert(out == had);
    assert(out[i] == (popping->Ok_0)@[i]@);
    assert(out[items@.len() as int] == (popping->Ok_0)@[items@.len() as int]@);
    assert(all[i] == items@[i]@);
}

/// A pop takes the first item of a list, and a pop of a range takes the items of the range. What is
/// left stays in order.
#[verifier::rlimit(50)]
pub proof fn law_list_pops(
    first: &mut DB,
    second: &mut DB,
    third: &mut DB,
    key: String,
    start: usize,
    end: usize,
    one: Result<Vec<u8>, DBError>,
    some: Result<Vec<Vec<u8>>, DBError>,
    flushing: Result<(), DBError>,
    i: int,
)
    requires
        call_ensures(DB::list_pop, (first, key), one),
        call_ensures(DB::list_pop_range, (second, key, start, end), some),
        call_ensures(DB::list_flush, (third, key), flushing),
        old(first)@.lists.contains_key(key@),
        old(first)@.lists[key@].len() > 0,
        final(first)@.lists == old(second)@.lists,
        final(second)@.lists == old(third)@.lists,
        start <= end,
        end < old(first)@.lists[key@].len(),
        0 <= i < end - start,
    ensures
        ({
            let was = old(first)@.lists[key@];
            &&& one matches Ok(item)
            &&& item@ == was[0]
            &&& some matches Ok(items)
            &&& items@.len() == end - start
            &&& items@[i]@ == was[1 + start + i]
            &&& final(second)@.lists[key@] == was.subrange(1, 1 + start as int) + was.skip(
                1 + end as int,
            )
            &&& flushing is Ok
            &&& final(third)@.lists[key@].len() == 0
        }),
{
    let was = old(first)@.lists[key@];
    let rest = final(first)@.lists[key@];
    assert(rest =~= was.skip(1));
    let out = vecs_view((some->Ok_0)@);
    assert(out.len() == end - start);
    assert(out[i] == (some->Ok_0)@[i]@);
    assert(final(second)@.lists[key@] =~= was.subrange(1, 1 + start as int) + was.skip(
        1 + end as int,
    ));
}

/// A write that succeeds is put in the log once, behind those before it, as it was asked for. What is
/// taken out of the log is taken out once.
#[verifier::rlimit(50)]
pub proof fn law_writes_are_put_in_the_log(
    first: &mut DB,
    second: &mut DB,
    third: &mut DB,
    fourth: &mut DB,
    fifth: &mut DB,
    db: String,
    key: String,
    val: Vec<u8>,
    ttl: i64,
    group: &str,
    timestamp: u64,
    payload: &[u8],
    item: Vec<u8>,
    setting: Result<(), DBError>,
    adding: Result<u64, DBError>,
    pushing: Result<(), DBError>,
    writes: Vec<AofEntry>,
    rest: Vec<AofEntry>,
)
    requires
        old(first)@.aof.len() == 0,
        call_ensures(DB::kv_set, (first, db, key, val, ttl), setting),
        call_ensures(DB::log_add, (second, group, timestamp, payload), adding),
        call_ensures(DB::list_push, (third, key, item), pushing),
        call_ensures(DB::take_aof, (fourth,), writes),
        call_ensures(DB::take_aof, (fifth,), rest),
        final(first)@ == old(second)@,
        final(second)@ == old(third)@,
        final(third)@ == old(fourth)@,
        final(fourth)@ == old(fifth)@,
        adding is Ok && pushing is Ok,
    ensures
        writes@.len() == 3,
        writes@[0] matches AofEntry::KvSet { db: d, key: k, val: v, ttl: t } && d@ == db@ && k@ == key@
            && v@ == val@ && t == ttl,
        writes@[1] matches AofEntry::LogAdd { group: g, timestamp: t, payload: p } && g@ == group@ && t
            == timestamp && p@ == payload@,
        writes@[2] matches AofEntry::ListPush { key: k, payload: p } && k@ == key@ && p@ == item@,
        rest@.len() == 0,
        old(first)@.listening ==> final(third)@.events == old(first)@.events + entries_view(writes@),
        !old(first)@.listening ==> final(third)@.events == old(first)@.events,
{
    let e = AofView::KvSet { db: db@, key: key@, val: val@, ttl };
    let (now, used) = choose|now: i64, used: i64|
        {
            &&& #[trigger] old(first)@.kv_wrote(final(first)@, e, now, used)
            &&& final(first).clock() == old(first).clock().push(now).push(used)
        };
    assert(old(first)@.kv_wrote(final(first)@, e, now, used));
    let all = entries_view(writes@);
    assert(all == old(fourth)@.aof);
    assert(all.len() == 3);
    assert(all[0] == writes@[0]@);
    assert(all[1] == writes@[1]@);
    assert(all[2] == writes@[2]@);
    assert(entries_view(rest@).len() == 0);
    if old(first)@.listening {
        assert(final(third)@.events =~= old(first)@.events + all);
    }
}

/// Entries of the log that are applied are applied all, in order, and are not logged again. Where one
/// asks a list for more than it has, those before it are applied, and its place is told.
#[verifier::rlimit(50)]
pub proof fn law_log_is_applied(
    db: &mut DB,
    entries: Vec<AofEntry>,
    r: Result<(), ReplayError>,
    e: AofEntry,
    id: u64,
)
    requires
        call_ensures(DB::try_apply_aof, (db, entries), r),
        entries@.len() > 0,
        e == entries@.last(),
    ensures
        final(db)@.aof == old(db)@.aof && final(db)@.events == old(db)@.events,
        r is Ok ==> {
            let all = entries_view(entries@);
            let lists = list_steps(old(db)@.lists, all.drop_last());
            let logs = log_steps(old(db)@.logs, all.drop_last());
            &&& kv_replayed(old(db)@.kv, final(db)@.kv, all)
            &&& e matches AofEntry::KvSet { db: name, key, val, ttl } ==> {
                &&& db_of(final(db)@.kv, name@).contains_key(key@)
                &&& db_of(final(db)@.kv, name@)[key@].val == val@
                &&& ttl == 0 ==> db_of(final(db)@.kv, name@)[key@].ttl == 0
            }
            &&& e matches AofEntry::KvDel { db: name, key } ==> !db_of(
                final(db)@.kv,
                name@,
            ).contains_key(key@)
            &&& e matches AofEntry::ListPush { key, payload } ==> payload@.len() + 20 <= 65536
                ==> final(db)@.lists[key@] == items_of(lists, key@).push(payload@)
            &&& e matches AofEntry::LogAdd { group, timestamp, payload } ==> logs.contains_key(group@)
                && logs[group@].takes(payload@) ==> final(db)@.logs[group@].entries[logs[group@].next_id].triple()
                == (logs[group@].next_id, timestamp, payload@)
            &&& e matches AofEntry::LogCreateGroup { name } ==> final(db)@.logs.contains_key(name@)
            &&& e matches AofEntry::LogDropGroup { name } ==> !final(db)@.logs.contains_key(name@)
            &&& e matches AofEntry::LogRemove { group, up_to_id } ==> id < up_to_id
                && final(db)@.logs.contains_key(group@)
                ==> !final(db)@.logs[group@].entries.contains_key(id)
        },
{
    let all = entries_view(entries@);
    if r is Ok {
        assert(all.take(all.len() as int) =~= all);
        assert(all.last() == e@);
        let (states, times) = choose|states: Seq<Databases>, times: Seq<(i64, i64)>| #[trigger]
            kv_trace(states, all, times) && states.first() == old(db)@.kv && states.last()
                == final(db)@.kv;
        let n = all.len() as int;
        assert(all[n - 1] == e@);
        assert(kv_step(states[n - 1], states[n], e@, times[n - 1].0, times[n - 1].1));
        law_logged_key(
            states[n - 1],
            states[n],
            e@,
            times[n - 1].0,
            times[n - 1].1,
            Seq::empty(),
            Seq::empty(),
        );
        if let AofEntry::ListPush { key, payload } = e {
            if payload@.len() + 20 <= 65536 {
                let lists = list_steps(old(db)@.lists, all.drop_last());
                assert(final(db)@.lists[key@] =~= items_of(lists, key@).push(payload@));
            }
        }
    }
}

/// What is said of a request that the database refuses: what was asked for, and then what the store says.
#[verifier::rlimit(50)]
pub proof fn law_db_errors_say(
    e: &DBError,
    m: String,
    group: GroupError,
    of_group: String,
    key: KvError,
    of_key: String,
    list: ListError,
    of_list: String,
)
    requires
        call_ensures(DBError::message, (e,), m),
        call_ensures(GroupError::message, (&group,), of_group),
        call_ensures(KvError::message, (&key,), of_key),
        call_ensures(ListError::message, (&list,), of_list),
    ensures
        *e == DBError::LogCreateGroupError(group) ==> m@ == "failed to create group: "@ + of_group@,
        *e == DBError::LogDropGroupError(group) ==> m@ == "failed to drop group: "@ + of_group@,
        *e == DBError::LogAppendError(group) ==> m@ == "failed to append to log: "@ + of_group@,
        *e == DBError::LogAppendRangeError(group) ==> m@ == "failed to append range to log: "@ + of_group@,
        *e == DBError::LogReadError(group) ==> m@ == "failed to read from log: "@ + of_group@,
        *e == DBError::LogReadRangeError(group) ==> m@ == "failed to read range from log: "@ + of_group@,
        *e == DBError::LogRemoveError(group) ==> m@ == "failed to remove from log: "@ + of_group@,
        *e == DBError::LogGroupStatsError(group) ==> m@ == "failed to read group stats: "@ + of_group@,
        *e == DBError::KVSetError(key) ==> m@ == "failed to set key: "@ + of_key@,
        *e == DBError::KVGetError(key) ==> m@ == "failed to get key: "@ + of_key@,
        *e == DBError::KVDelError(key) ==> m@ == "failed to del key: "@ + of_key@,
        *e == DBError::KVKeysError(key) ==> m@ == "failed to return keys: "@ + of_key@,
        *e == DBError::KVFlushError(key) ==> m@ == "failed to flush: "@ + of_key@,
        *e == DBError::ListPushError(list) ==> m@ == "failed to push: "@ + of_list@,
        *e == DBError::ListPushRangeError(list) ==> m@ == "failed to push range: "@ + of_list@,
        *e == DBError::ListPopError(list) ==> m@ == "failed to pop: "@ + of_list@,
        *e == DBError::ListPopRangeError(list) ==> m@ == "failed to pop range: "@ + of_list@,
        *e == DBError::ListPopCountError(list) ==> m@ == "failed to pop count: "@ + of_list@,
        *e == DBError::ListLenError(list) ==> m@ == "failed to get len: "@ + of_list@,
        *e == DBError::ListFlushError(list) ==> m@ == "failed to flush list: "@ + of_list@,
{
}

/// What a write to a database has changed is taken back, so that the stores are as they were.
pub proof fn law_key_write_is_taken_back(
    before: &DB,
    after: &mut DB,
    db: &str,
    undo: Undo,
)
    requires
        call_ensures(DB::undo_kv, (before, db), undo),
        call_ensures(DB::undo, (after, undo, Ghost(before@)), ()),
        old(after)@.lists == before@.lists,
        old(after)@.logs == before@.logs,
        old(after)@.kv.remove(db@) == before@.kv.remove(db@),
    ensures
        undo.restores(before@, old(after)@),
        final(after)@.kv == before@.kv,
        final(after)@.lists == before@.lists,
        final(after)@.logs == before@.logs,
        final(after)@.aof == old(after)@.aof,
{
}

/// A new database has the groups that it is given and nothing else. Of the writes that it keeps, those
/// behind the first can be forgotten, and those for followers are handed out once.
pub proof fn law_kept_writes(
    groups: GroupManager,
    listening: bool,
    new: DB,
    first: &DB,
    second: &mut DB,
    third: &mut DB,
    fourth: &mut DB,
    kept: (usize, usize),
    counted: (usize, usize),
    out: Vec<AofEntry>,
    rest: Vec<AofEntry>,
    name: Seq<char>,
)
    requires
        call_ensures(DB::new, (groups, listening), new),
        call_ensures(DB::kept_writes, (first,), counted),
        call_ensures(DB::forget_writes, (second, kept), ()),
        call_ensures(DB::take_events, (third,), out),
        call_ensures(DB::take_events, (fourth,), rest),
        first@ == old(second)@,
        final(second)@ == old(third)@,
        final(third)@ == old(fourth)@,
        kept.0 <= counted.0 && kept.1 <= counted.1,
    ensures
        new@.logs == groups@ && new@.aof.len() == 0 && new@.events.len() == 0,
        !new@.kv.contains_key(name) && !new@.lists.contains_key(name),
        counted.0 == first@.aof.len() && counted.1 == first@.events.len(),
        final(second)@.aof == first@.aof.take(kept.0 as int),
        entries_view(out@) == first@.events.take(kept.1 as int),
        rest@.len() == 0,
        final(second)@.kv == first@.kv && final(second)@.logs == first@.logs && final(second)@.lists
            == first@.lists,
{
    assert(entries_view(rest@).len() == 0);
}

/// A log that is sorted by store and applied store by store is applied as a whole, in the order in which
/// it was written, where every list has what is asked of it. It is not logged again.
pub proof fn law_log_is_loaded(
    db: &mut DB,
    entries: Vec<AofEntry>,
    sorted: AofEntries,
    r: Result<(), ReplayError>,
)
    requires
        call_ensures(AofEntries::separate, (entries,), sorted),
        call_ensures(DB::load_and_apply, (db, sorted), r),
        r is Ok,
    ensures
        replayed(old(db)@, final(db)@, entries_view(entries@)),
        final(db)@.aof == old(db)@.aof,
        final(db)@.lists == list_steps(old(db)@.lists, entries_view(entries@)),
        final(db)@.logs == log_steps(old(db)@.logs, entries_view(entries@)),
{
    assert(sorted.separates(entries_view(entries@)));
}

/// A push to a list, a pop from it, a flush of it and an append to a group are each taken back, so that
/// the stores are as they were.
#[verifier::rlimit(50)]
pub proof fn law_list_and_group_writes_are_taken_back(
    before: &DB,
    first: &mut DB,
    second: &mut DB,
    key: &str,
    name: String,
    item: Vec<u8>,
    undo: Undo,
    pushing: Result<(), DBError>,
    popping: Result<Vec<u8>, DBError>,
    flushing: Result<(), DBError>,
    timestamp: u64,
    payload: &[u8],
    adding: Result<u64, DBError>,
)
    requires
        before@ == old(first)@,
        final(first)@ == old(second)@,
        name@ == key@,
        ({
            ||| call_ensures(DB::undo_push, (before, key), undo) && call_ensures(
                DB::list_push,
                (first, name, item),
                pushing,
            )
            ||| call_ensures(DB::undo_pop, (before, key), undo) && call_ensures(
                DB::list_pop,
                (first, name),
                popping,
            )
            ||| call_ensures(DB::undo_flush, (before, key), undo) && call_ensures(
                DB::list_flush,
                (first, name),
                flushing,
            )
            ||| call_ensures(DB::undo_add, (before, key), undo) && call_ensures(
                DB::log_add,
                (first, key, timestamp, payload),
                adding,
            )
        }),
        call_ensures(DB::undo, (second, undo, Ghost(before@)), ()),
    ensures
        undo.restores(before@, old(second)@),
        final(second)@.kv == before@.kv,
        final(second)@.lists == before@.lists,
        final(second)@.logs == before@.logs,
{
}

/// The length of a list is told where there is such a list, and an entry of the log is let through where
/// the list has what it asks for, or where there is no such list.
pub proof fn law_list_is_asked(
    db: &DB,
    key: &str,
    name: String,
    count: usize,
    len: Option<usize>,
    popping: bool,
    counting: bool,
)
    requires
        call_ensures(DB::list_length, (db, key), len),
        call_ensures(DB::admits_entry, (db, &AofEntry::ListPop { key: name }), popping),
        call_ensures(DB::admits_entry, (db, &AofEntry::ListPopCount { key: name, count }), counting),
        name@ == key@,
    ensures
        len is Some <==> db@.lists.contains_key(key@),
        len matches Some(n) ==> n == db@.lists[key@].len(),
        popping <==> (len matches Some(n) ==> n > 0),
        counting <==> (len matches Some(n) ==> count <= n),
{
}

} // verus!
