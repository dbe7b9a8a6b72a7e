//! A key-value store with a journal for each database, from which the database is rebuilt.

use crate::clock::{is_reading, law_readings_start_at_the_epoch, now_millis, Clock};
use crate::kv::KvError;
use crate::strmap::StrMap;
use crate::text::{chars_of, text_of};
use crate::views::{copy_bytes, copy_str, strings_view};
use vstd::prelude::*;

verus! {

/// A value with the time at which it expires, in milliseconds (0: never).
#[derive(Debug, Clone)]
pub struct DBEntry {
    pub val: Vec<u8>,
    pub ttl: i64,
}

/// What a [`DBEntry`] holds.
pub ghost struct Stored {
    pub val: Seq<u8>,
    pub ttl: i64,
}

impl View for DBEntry {
    type V = Stored;

    open spec fn view(&self) -> Stored {
        Stored { val: self.val@, ttl: self.ttl }
    }
}

impl DBEntry {
    /// A copy of the entry.
    pub fn copy(&self) -> (r: DBEntry)
        ensures
            r@ == self@,
    {
        DBEntry { val: copy_bytes(self.val.as_slice()), ttl: self.ttl }
    }
}

/// What an entry of a journal asks for.
#[derive(Debug, Clone, Copy, PartialEq, Eq, Structural)]
pub enum JournalCommand {
    SET,
    DEL,
}

/// An entry of a journal.
#[derive(Debug, Clone)]
pub struct JournalEntry {
    pub command: JournalCommand,
    pub key: String,
    pub entry: Option<DBEntry>,
}

/// What a [`JournalEntry`] says.
pub ghost struct JournalLine {
    pub command: JournalCommand,
    pub key: Seq<char>,
    pub entry: Option<Stored>,
}

impl View for JournalEntry {
    type V = JournalLine;

    open spec fn view(&self) -> JournalLine {
        JournalLine {
            command: self.command,
            key: self.key@,
            entry: match self.entry {
                Some(e) => Some(e@),
                None => None,
            },
        }
    }
}

/// What is to be done to a journal.
#[derive(Debug)]
pub enum JournalMsg {
    /// To put an entry behind the others.
    Append(JournalEntry),
    /// To make it empty.
    Flush,
    /// To write out what there is, and close it.
    Shutdown,
}

/// What a [`JournalMsg`] says.
pub ghost enum MsgView {
    Append(JournalLine),
    Flush,
    Shutdown,
}

impl View for JournalMsg {
    type V = MsgView;

    open spec fn view(&self) -> MsgView {
        match *self {
            JournalMsg::Append(e) => MsgView::Append(e@),
            JournalMsg::Flush => MsgView::Flush,
            JournalMsg::Shutdown => MsgView::Shutdown,
        }
    }
}

/// What a database holds.
pub type Items = Map<Seq<char>, Stored>;

/// A database after an entry of its journal is applied. An entry that sets a key to nothing is
/// passed over.
pub open spec fn line_step(items: Items, line: JournalLine) -> Items {
    match line.command {
        JournalCommand::SET => match line.entry {
            Some(e) => items.insert(line.key, e),
            None => items,
        },
        JournalCommand::DEL => items.remove(line.key),
    }
}

/// The database that a journal describes.
pub open spec fn replayed(lines: Seq<JournalLine>) -> Items
    decreases lines.len(),
{
    if lines.len() == 0 {
        Map::empty()
    } else {
        line_step(replayed(lines.drop_last()), lines.last())
    }
}

/// The lines of a journal after a message to it.
pub open spec fn lines_after(lines: Seq<JournalLine>, m: MsgView) -> Seq<JournalLine> {
    match m {
        MsgView::Append(line) => lines.push(line),
        MsgView::Flush => Seq::empty(),
        MsgView::Shutdown => lines,
    }
}

/// The lines of a journal after messages to it, in order.
pub open spec fn lines_after_all(lines: Seq<JournalLine>, msgs: Seq<MsgView>) -> Seq<JournalLine>
    decreases msgs.len(),
{
    if msgs.len() == 0 {
        lines
    } else {
        lines_after(lines_after_all(lines, msgs.drop_last()), msgs.last())
    }
}

/// A database with the messages to its journal that have not been taken out yet.
pub ghost struct DbState {
    pub items: Items,
    pub pending: Seq<MsgView>,
}

impl DbState {
    pub open spec fn empty() -> DbState {
        DbState { items: Map::empty(), pending: Seq::empty() }
    }

    /// After a write, which is journaled.
    pub open spec fn wrote(self, line: JournalLine) -> DbState {
        DbState {
            items: line_step(self.items, line),
            pending: self.pending.push(MsgView::Append(line)),
        }
    }
}

/// The databases by name.
pub type States = Map<Seq<char>, DbState>;

/// A database, empty where there is none of this name.
pub open spec fn state_of(dbs: States, db: Seq<char>) -> DbState {
    if dbs.contains_key(db) {
        dbs[db]
    } else {
        DbState::empty()
    }
}

/// The entry that a write stores: it expires `ttl` after `now`, or never where `ttl` is 0.
pub open spec fn stored(val: Seq<u8>, ttl: i64, now: i64) -> Stored {
    Stored {
        val,
        ttl: if ttl == 0 {
            0
        } else {
            now.wrapping_add(ttl)
        },
    }
}

/// The journal line of a write, and of a key that is dropped.
pub open spec fn set_line(key: Seq<char>, e: Stored) -> JournalLine {
    JournalLine { command: JournalCommand::SET, key, entry: Some(e) }
}

pub open spec fn del_line(key: Seq<char>) -> JournalLine {
    JournalLine { command: JournalCommand::DEL, key, entry: None }
}

/// Whether an entry has expired at `now`.
pub open spec fn expired(e: Stored, now: i64) -> bool {
    e.ttl != 0 && e.ttl < now
}

/// A database after a read of `key` at `now`: what has expired is dropped, which is journaled.
pub open spec fn after_read(s: DbState, key: Seq<char>, now: i64) -> DbState {
    if s.items.contains_key(key) && expired(s.items[key], now) {
        s.wrote(del_line(key))
    } else {
        s
    }
}

/// What a read of `key` at `now` finds.
pub open spec fn found(s: DbState, key: Seq<char>, now: i64) -> Option<Stored> {
    if s.items.contains_key(key) && !expired(s.items[key], now) {
        Some(s.items[key])
    } else {
        None
    }
}

/// What messages say.
pub open spec fn msgs_view(s: Seq<JournalMsg>) -> Seq<MsgView> {
    Seq::new(s.len(), |i: int| s[i]@)
}

/// What journal entries say.
pub open spec fn lines_view(s: Seq<JournalEntry>) -> Seq<JournalLine> {
    Seq::new(s.len(), |i: int| s[i]@)
}

spec fn items_in(entries: Map<Seq<char>, DBEntry>) -> Items {
    entries.map_values(|e: DBEntry| e@)
}

/// One database.
struct DB {
    id: String,
    entries: StrMap<DBEntry>,
    pending: Vec<JournalMsg>,
}

impl DB {
    spec fn wf(&self) -> bool {
        self.entries.wf()
    }

    spec fn state(&self) -> DbState {
        DbState { items: items_in(self.entries@), pending: msgs_view(self.pending@) }
    }

    fn new(id: String) -> (r: Self)
        ensures
            r.wf(),
            r.state() == DbState::empty(),
    {
        let r = DB { id, entries: StrMap::new(), pending: Vec::new() };
        assert(items_in(r.entries@) =~= Map::empty());
        assert(msgs_view(r.pending@) =~= Seq::empty());
        r
    }

    fn with_entries(id: String, entries: StrMap<DBEntry>) -> (r: Self)
        requires
            entries.wf(),
        ensures
            r.wf(),
            r.state() == (DbState { items: items_in(entries@), pending: Seq::empty() }),
    {
        let r = DB { id, entries, pending: Vec::new() };
        assert(msgs_view(r.pending@) =~= Seq::empty());
        r
    }

    fn send(&mut self, m: JournalMsg)
        ensures
            final(self).entries == old(self).entries,
            msgs_view(final(self).pending@) == msgs_view(old(self).pending@).push(m@),
    {
        self.pending.push(m);
        assert(msgs_view(self.pending@) =~= msgs_view(old(self).pending@).push(m@));
    }

    fn set(&mut self, key: String, entry: DBEntry)
        requires
            old(self).wf(),
        ensures
            final(self).wf(),
            final(self).state() == old(self).state().wrote(set_line(key@, entry@)),
    {
        let copy = entry.copy();
        self.entries.insert(copy_str(key.as_str()), copy);
        assert(items_in(self.entries@) =~= old(self).state().items.insert(key@, entry@));
        self.send(
            JournalMsg::Append(
                JournalEntry { command: JournalCommand::SET, key, entry: Some(entry) },
            ),
        );
    }

    fn get(&mut self, key: String, now: i64) -> (r: Option<DBEntry>)
        requires
            old(self).wf(),
        ensures
            final(self).wf(),
            final(self).state() == after_read(old(self).state(), key@, now),
            match r {
                Some(e) => found(old(self).state(), key@, now) == Some(e@),
                None => found(old(self).state(), key@, now) is None,
            },
    {
        match self.entries.get(key.as_str()) {
            None => {
                return None;
            },
            Some(e) => {
                if !(e.ttl != 0 && e.ttl < now) {
                    return Some(e.copy());
                }
            },
        }
        let _ = self.entries.remove(key.as_str());
        assert(items_in(self.entries@) =~= old(self).state().items.remove(key@));
        self.send(
            JournalMsg::Append(JournalEntry { command: JournalCommand::DEL, key, entry: None }),
        );
        None
    }

    fn del(&mut self, key: String) -> (r: Result<(), KvError>)
        requires
            old(self).wf(),
        ensures
            final(self).wf(),
            match r {
                Ok(()) => {
                    &&& old(self).state().items.contains_key(key@)
                    &&& final(self).state() == old(self).state().wrote(del_line(key@))
                },
                Err(e) => {
                    &&& e matches KvError::KeyNotFound(k) && k@ == key@
                    &&& !old(self).state().items.contains_key(key@)
                    &&& final(self).state() == old(self).state()
                },
            },
    {
        let gone = self.entries.remove(key.as_str());
        assert(items_in(self.entries@) =~= old(self).state().items.remove(key@));
        match gone {
            Some(_) => {
                self.send(
                    JournalMsg::Append(
                        JournalEntry { command: JournalCommand::DEL, key, entry: None },
                    ),
                );
                Ok(())
            },
            None => {
                assert(items_in(self.entries@) =~= old(self).state().items);
                Err(KvError::KeyNotFound(key))
            },
        }
    }

    fn flush(&mut self)
        requires
            old(self).wf(),
        ensures
            final(self).wf(),
            final(self).state() == (DbState {
                items: Map::empty(),
                pending: old(self).state().pending.push(MsgView::Flush),
            }),
    {
        self.entries.clear();
        assert(items_in(self.entries@) =~= Map::empty());
        self.send(JournalMsg::Flush);
    }
}

/// Rebuilds the entries of a database from its journal.
fn replay(lines: &Vec<JournalEntry>) -> (r: StrMap<DBEntry>)
    ensures
        r.wf(),
        items_in(r@) == replayed(lines_view(lines@)),
{
    let ghost all = lines_view(lines@);
    let mut r: StrMap<DBEntry> = StrMap::new();
    let mut i: usize = 0;
    assert(all.take(0) =~= Seq::empty());
    assert(items_in(r@) =~= Map::empty());
    while i < lines.len()
        invariant
            i <= lines@.len(),
            all == lines_view(lines@),
            r.wf(),
            items_in(r@) == replayed(all.take(i as int)),
        decreases lines@.len() - i,
    {
        let ghost before = items_in(r@);
        let line = &lines[i];
        match line.command {
            JournalCommand::SET => {
                if let Some(e) = &line.entry {
                    r.insert(copy_str(line.key.as_str()), e.copy());
                }
            },
            JournalCommand::DEL => {
                let _ = r.remove(line.key.as_str());
            },
        }
        proof {
            assert(all.take(i + 1).drop_last() =~= all.take(i as int));
            assert(all.take(i + 1).last() == line@);
            assert(items_in(r@) =~= line_step(before, line@));
        }
        i = i + 1;
    }
    assert(all.take(i as int) =~= all);
    r
}

/// The databases, and the clock by which they expire.
pub struct KvStore {
    dbs: StrMap<DB>,
    clock: Clock,
}

impl View for KvStore {
    type V = States;

    closed spec fn view(&self) -> States {
        self.dbs@.map_values(|db: DB| db.state())
    }
}

impl KvStore {
    pub closed spec fn wf(&self) -> bool {
        &&& self.dbs.wf()
        &&& forall|k: Seq<char>| #[trigger] self.dbs@.contains_key(k) ==> self.dbs@[k].wf()
    }

    pub fn new() -> (r: Self)
        ensures
            r.wf(),
            r@ == Map::<Seq<char>, DbState>::empty(),
            r.readings() == Seq::<i64>::empty(),
    {
        let r = KvStore { dbs: StrMap::new(), clock: Clock::new() };
        assert(r@ =~= Map::<Seq<char>, DbState>::empty());
        r
    }

    /// What the clock has been read as for this store, in order.
    pub closed spec fn readings(&self) -> Seq<i64> {
        self.clock.readings()
    }

    /// Rebuilds a database from its journal.
    pub fn load_db(&mut self, id: &str, lines: &Vec<JournalEntry>)
        requires
            old(self).wf(),
        ensures
            final(self).wf(),
            final(self).readings() == old(self).readings(),
            final(self)@ == old(self)@.insert(
                id@,
                DbState { items: replayed(lines_view(lines@)), pending: Seq::empty() },
            ),
    {
        let db = DB::with_entries(copy_str(id), replay(lines));
        self.dbs.insert(copy_str(id), db);
        assert(self@ =~= old(self)@.insert(
            id@,
            DbState { items: replayed(lines_view(lines@)), pending: Seq::empty() },
        ));
    }

    /// Borrows a database for change, making it where there is none.
    fn get_db_mut(&mut self, db: &str) -> (r: Option<&mut DB>)
        requires
            old(self).wf(),
        ensures
            match r {
                Some(d) => {
                    &&& d.wf()
                    &&& d.state() == state_of(old(self)@, db@)
                    &&& final(d).wf() ==> final(self).wf()
                    &&& final(self)@ == old(self)@.insert(db@, final(d).state())
                    &&& final(self).readings() == old(self).readings()
                },
                None => false,
            },
    {
        if !self.dbs.contains_key(db) {
            self.dbs.insert(copy_str(db), DB::new(copy_str(db)));
        }
        let ghost mid = *self;
        assert(mid@ =~= old(self)@.insert(db@, state_of(old(self)@, db@)));
        assert(mid@[db@] == mid.dbs@[db@].state());
        let r = self.dbs.get_mut(db);
        proof {
            if let Some(d) = &r {
                let f = *final(*d);
                let now = mid.dbs@.insert(db@, f);
                assert(now.map_values(|db: DB| db.state()) =~= mid@.insert(db@, f.state()));
                assert(mid@.insert(db@, f.state()) =~= old(self)@.insert(db@, f.state()));
            }
        }
        r
    }

    /// Writes a key at `now`.
    pub fn set_at(&mut self, db: &str, key: String, val: Vec<u8>, ttl: i64, now: i64)
        requires
            old(self).wf(),
        ensures
            final(self).wf(),
            final(self).readings() == old(self).readings(),
            final(self)@ == old(self)@.insert(
                db@,
                state_of(old(self)@, db@).wrote(set_line(key@, stored(val@, ttl, now))),
            ),
    {
        let ttl_ts: i64 = if ttl == 0 {
            0
        } else {
            now.wrapping_add(ttl)
        };
        if let Some(d) = self.get_db_mut(db) {
            d.set(key, DBEntry { val, ttl: ttl_ts });
        }
    }

    /// Writes a key, which expires `ttl` milliseconds from now, or never where `ttl` is 0.
    pub fn set(&mut self, db: &str, key: String, val: Vec<u8>, ttl: i64) -> (r: Result<(), KvError>)
        requires
            old(self).wf(),
        ensures
            final(self).wf(),
            r is Ok,
            exists|now: i64|
                {
                    &&& final(self)@ == old(self)@.insert(
                        db@,
                        state_of(old(self)@, db@).wrote(
                            set_line(key@, #[trigger] stored(val@, ttl, now)),
                        ),
                    )
                    &&& is_reading(now)
                    &&& final(self).readings() == old(self).readings().push(now)
                },
    {
        let now: i64 = now_millis(&mut self.clock);
        assert(self@ =~= old(self)@);
        self.set_at(db, key, val, ttl, now);
        Ok(())
    }

    /// Reads a key at `now`.
    pub fn get_at(&mut self, db: &str, key: String, now: i64) -> (r: Option<DBEntry>)
        requires
            old(self).wf(),
        ensures
            final(self).wf(),
            final(self).readings() == old(self).readings(),
            final(self)@ == old(self)@.insert(
                db@,
                after_read(state_of(old(self)@, db@), key@, now),
            ),
            match r {
                Some(e) => found(state_of(old(self)@, db@), key@, now) == Some(e@),
                None => found(state_of(old(self)@, db@), key@, now) is None,
            },
    {
        match self.get_db_mut(db) {
            Some(d) => d.get(key, now),
            None => None,
        }
    }

    /// Reads a key, if it has not expired by now.
    pub fn get(&mut self, db: &str, key: String) -> (r: Result<Option<DBEntry>, KvError>)
        requires
            old(self).wf(),
        ensures
            final(self).wf(),
            exists|now: i64|
                {
                    &&& final(self)@ == old(self)@.insert(
                        db@,
                        #[trigger] after_read(state_of(old(self)@, db@), key@, now),
                    )
                    &&& is_reading(now)
                    &&& final(self).readings() == old(self).readings().push(now)
                    &&& match r {
                        Ok(Some(e)) => found(state_of(old(self)@, db@), key@, now) == Some(e@),
                        Ok(None) => found(state_of(old(self)@, db@), key@, now) is None,
                        Err(_) => false,
                    }
                },
    {
        let now: i64 = now_millis(&mut self.clock);
        assert(self@ =~= old(self)@);
        Ok(self.get_at(db, key, now))
    }

    /// Drops a key.
    pub fn del(&mut self, db: &str, key: String) -> (r: Result<(), KvError>)
        requires
            old(self).wf(),
        ensures
            final(self).wf(),
            final(self).readings() == old(self).readings(),
            match r {
                Ok(()) => {
                    &&& state_of(old(self)@, db@).items.contains_key(key@)
                    &&& final(self)@ == old(self)@.insert(
                        db@,
                        state_of(old(self)@, db@).wrote(del_line(key@)),
                    )
                },
                Err(e) => {
                    &&& e matches KvError::KeyNotFound(k) && k@ == key@
                    &&& !state_of(old(self)@, db@).items.contains_key(key@)
                    &&& final(self)@ == old(self)@.insert(db@, state_of(old(self)@, db@))
                },
            },
    {
        match self.get_db_mut(db) {
            Some(d) => d.del(key),
            None => Err(KvError::KeyNotFound(key)),
        }
    }

    /// The keys of a database, in no order that is promised.
    pub fn keys(&mut self, db: &str) -> (r: Result<Vec<String>, KvError>)
        requires
            old(self).wf(),
        ensures
            final(self).wf(),
            final(self).readings() == old(self).readings(),
            final(self)@ == old(self)@.insert(db@, state_of(old(self)@, db@)),
            match r {
                Ok(keys) => {
                    &&& strings_view(keys@).no_duplicates()
                    &&& strings_view(keys@).to_set() == state_of(old(self)@, db@).items.dom()
                },
                Err(_) => false,
            },
    {
        match self.get_db_mut(db) {
            Some(d) => {
                proof {
                    d.entries.lemma_order();
                    assert(d.state().items.dom() =~= d.entries@.dom());
                }
                Ok(d.entries.keys())
            },
            None => Ok(Vec::new()),
        }
    }

    /// Drops all keys of a database, and empties its journal.
    pub fn flush(&mut self, db: &str) -> (r: Result<(), KvError>)
        requires
            old(self).wf(),
        ensures
            final(self).wf(),
            final(self).readings() == old(self).readings(),
            r is Ok,
            final(self)@ == old(self)@.insert(
                db@,
                DbState {
                    items: Map::empty(),
                    pending: state_of(old(self)@, db@).pending.push(MsgView::Flush),
                },
            ),
    {
        if let Some(d) = self.get_db_mut(db) {
            d.flush();
        }
        Ok(())
    }

    /// Makes an empty database.
    pub fn create_db(&mut self, id: &str) -> (r: Result<(), KvError>)
        requires
            old(self).wf(),
        ensures
            final(self).wf(),
            final(self).readings() == old(self).readings(),
            match r {
                Ok(()) => {
                    &&& !old(self)@.contains_key(id@)
                    &&& final(self)@ == old(self)@.insert(id@, DbState::empty())
                },
                Err(e) => {
                    &&& e matches KvError::DatabaseExists(name) && name@ == id@
                    &&& old(self)@.contains_key(id@)
                    &&& final(self)@ == old(self)@
                },
            },
    {
        if self.dbs.contains_key(id) {
            return Err(KvError::DatabaseExists(copy_str(id)));
        }
        self.dbs.insert(copy_str(id), DB::new(copy_str(id)));
        assert(self@ =~= old(self)@.insert(id@, DbState::empty()));
        Ok(())
    }

    /// Closes the journal of a database.
    pub fn shutdown(&mut self, db: &str)
        requires
            old(self).wf(),
        ensures
            final(self).wf(),
            final(self).readings() == old(self).readings(),
            final(self)@ == old(self)@.insert(
                db@,
                DbState {
                    pending: state_of(old(self)@, db@).pending.push(MsgView::Shutdown),
                    ..state_of(old(self)@, db@)
                },
            ),
    {
        if let Some(d) = self.get_db_mut(db) {
            d.send(JournalMsg::Shutdown);
        }
    }

    /// The names of the databases, in no order that is promised.
    pub fn databases(&self) -> (r: Vec<String>)
        requires
            self.wf(),
        ensures
            strings_view(r@).no_duplicates(),
            strings_view(r@).to_set() == self@.dom(),
    {
        proof {
            self.dbs.lemma_order();
            assert(self@.dom() =~= self.dbs@.dom());
        }
        self.dbs.keys()
    }

    /// Takes out the messages to the journal of a database.
    pub fn take_messages(&mut self, db: &str) -> (r: Vec<JournalMsg>)
        requires
            old(self).wf(),
        ensures
            final(self).wf(),
            final(self).readings() == old(self).readings(),
            msgs_view(r@) == state_of(old(self)@, db@).pending,
            final(self)@ == old(self)@.insert(
                db@,
                DbState { pending: Seq::empty(), ..state_of(old(self)@, db@) },
            ),
    {
        let mut r: Vec<JournalMsg> = Vec::new();
        if let Some(d) = self.get_db_mut(db) {
            let ghost before = d.state();
            r.append(&mut d.pending);
            assert(d.state().pending =~= Seq::empty());
            assert(msgs_view(r@) =~= before.pending);
        }
        r
    }
}

/// The database that a journal file with this name is of: the name without its endings.
pub open spec fn db_of_file(file: Seq<char>) -> Option<Seq<char>> {
    if ends_in_aof(file) {
        Some(without_endings(file))
    } else {
        None
    }
}

/// Whether a name ends as that of a journal file does.
pub open spec fn ends_in_aof(file: Seq<char>) -> bool {
    file.len() >= 4 && file.skip(file.len() - 4) == seq!['.', 'a', 'o', 'f']
}

/// A name without the endings of journal files, as many as it has.
pub open spec fn without_endings(file: Seq<char>) -> Seq<char>
    decreases file.len(),
{
    if ends_in_aof(file) {
        without_endings(file.take(file.len() - 4))
    } else {
        file
    }
}

/// The database that a journal file with this name is of.
pub fn journal_db(file: &str) -> (r: Option<String>)
    ensures
        match r {
            Some(id) => db_of_file(file@) == Some(id@),
            None => db_of_file(file@) is None,
        },
{
    let chars = chars_of(file);
    let mut n: usize = chars.len();
    assert(file@.take(n as int) =~= file@);
    while n >= 4 && chars[n - 4] == '.' && chars[n - 3] == 'a' && chars[n - 2] == 'o' && chars[n - 1]
        == 'f'
        invariant
            chars@ == file@,
            n <= chars@.len(),
            without_endings(file@.take(n as int)) == without_endings(file@),
            n < chars@.len() ==> ends_in_aof(file@),
        decreases n,
    {
        proof {
            let s = file@.take(n as int);
            assert(s.skip(s.len() - 4) =~= seq!['.', 'a', 'o', 'f']);
            assert(s.take(s.len() - 4) =~= file@.take(n - 4));
            if n == chars@.len() {
                assert(s =~= file@);
            }
        }
        n = n - 4;
    }
    proof {
        let s = file@.take(n as int);
        if ends_in_aof(s) {
            assert(s.skip(s.len() - 4)[0] == chars@[n - 4]);
            assert(s.skip(s.len() - 4)[1] == chars@[n - 3]);
            assert(s.skip(s.len() - 4)[2] == chars@[n - 2]);
            assert(s.skip(s.len() - 4)[3] == chars@[n - 1]);
        }
        if n == chars@.len() {
            assert(s =~= file@);
        }
        assert(file@.subrange(0, n as int) =~= s);
    }
    if n == chars.len() {
        return None;
    }
    Some(text_of(&chars, 0, n))
}

/// The journal rebuilds the database: where a journal describes a database, it does so after each
/// message that an operation on the database sends to it.
pub proof fn law_journal_rebuilds(
    before: DbState,
    lines: Seq<JournalLine>,
    line: JournalLine,
)
    requires
        before.items == replayed(lines),
    ensures
        before.wrote(line).items == replayed(lines_after(lines, MsgView::Append(line))),
        Map::<Seq<char>, Stored>::empty() == replayed(lines_after(lines, MsgView::Flush)),
        before.items == replayed(lines_after(lines, MsgView::Shutdown)),
{
    assert(lines.push(line).drop_last() =~= lines);
}

/// A key that was written is found until it expires, and a key that was dropped is not.
pub proof fn law_journaled_write_then_read(
    s: DbState,
    key: Seq<char>,
    val: Seq<u8>,
    ttl: i64,
    now: i64,
    later: i64,
)
    ensures
        found(s.wrote(set_line(key, stored(val, ttl, now))), key, later) == (if expired(
            stored(val, ttl, now),
            later,
        ) {
            None
        } else {
            Some(stored(val, ttl, now))
        }),
        found(s.wrote(del_line(key)), key, later) is None,
{
}

/// A key that was written with a time to live when the clock stood at `now` is found exactly while
/// the clock stands no later than the time to live from then, and with its value. A key that was
/// written without one is found whatever the clock reads.
pub proof fn law_journaled_key_expires(
    s: DbState,
    key: Seq<char>,
    val: Seq<u8>,
    ttl: i64,
    now: i64,
    later: i64,
)
    requires
        0 <= now,
        0 <= ttl,
        now + ttl <= i64::MAX,
    ensures
        ({
            let there = found(s.wrote(set_line(key, stored(val, ttl, now))), key, later);
            &&& there is Some <==> ttl == 0 || later <= now + ttl
            &&& there is Some ==> there->0.val == val
        }),
{
}

/// A read changes nothing where the key is found or is not there. Where the key has expired, it is
/// dropped, no other key is touched, and the journal gets one line more, by which it is dropped too.
pub proof fn law_journaled_read(s: DbState, key: Seq<char>, now: i64, other: Seq<char>)
    requires
        other != key,
    ensures
        ({
            let after = after_read(s, key, now);
            if s.items.contains_key(key) && found(s, key, now) is None {
                &&& !after.items.contains_key(key)
                &&& after.items.contains_key(other) == s.items.contains_key(other)
                &&& after.items[other] == s.items[other] || !s.items.contains_key(other)
                &&& after.pending.len() == s.pending.len() + 1
                &&& after.pending.drop_last() == s.pending
                &&& after.pending.last() matches MsgView::Append(line) && line.command
                    == JournalCommand::DEL && line.key == key
            } else {
                after == s && (found(s, key, now) is Some ==> found(s, key, now)->0 == s.items[key])
            }
        }),
{
    if s.items.contains_key(key) && found(s, key, now) is None {
        assert(after_read(s, key, now).pending.drop_last() =~= s.pending);
    }
}

/// A write sets the key to the value, a drop takes it away, and neither touches another key. Each
/// puts one line behind those of the journal, which names the key and, where it is a write, what was
/// stored.
pub proof fn law_journaled_write_touches_one_key(
    s: DbState,
    key: Seq<char>,
    e: Stored,
    other: Seq<char>,
)
    requires
        other != key,
    ensures
        s.wrote(set_line(key, e)).items.contains_key(key),
        s.wrote(set_line(key, e)).items[key] == e,
        !s.wrote(del_line(key)).items.contains_key(key),
        s.wrote(set_line(key, e)).items.contains_key(other) == s.items.contains_key(other),
        s.wrote(del_line(key)).items.contains_key(other) == s.items.contains_key(other),
        s.items.contains_key(other) ==> s.wrote(set_line(key, e)).items[other] == s.items[other]
            && s.wrote(del_line(key)).items[other] == s.items[other],
        s.wrote(set_line(key, e)).pending == s.pending.push(
            MsgView::Append(
                JournalLine { command: JournalCommand::SET, key, entry: Some(e) },
            ),
        ),
        s.wrote(del_line(key)).pending.len() == s.pending.len() + 1,
        s.wrote(del_line(key)).pending.drop_last() == s.pending,
        s.wrote(del_line(key)).pending.last() matches MsgView::Append(line) && line.command
            == JournalCommand::DEL && line.key == key,
{
    assert(s.wrote(del_line(key)).pending.drop_last() =~= s.pending);
}

/// The last line of a journal that speaks of a key decides of it: a line that sets it, to what it is
/// set, a line that drops it, that it is not there. Lines that speak of other keys decide nothing of
/// it.
pub proof fn law_last_line_decides(lines: Seq<JournalLine>, i: int, key: Seq<char>, e: Stored)
    requires
        0 <= i < lines.len(),
        lines[i].key == key,
        forall|j: int| i < j < lines.len() ==> (#[trigger] lines[j]).key != key,
    ensures
        lines[i].command == JournalCommand::DEL ==> !replayed(lines).contains_key(key),
        lines[i].command == JournalCommand::SET && lines[i].entry == Some(e) ==> replayed(
            lines,
        ).contains_key(key) && replayed(lines)[key] == e,
    decreases lines.len(),
{
    if i < lines.len() - 1 {
        let rest = lines.drop_last();
        assert forall|j: int| i < j < rest.len() implies (#[trigger] rest[j]).key != key by {
            assert(rest[j] == lines[j]);
        }
        law_last_line_decides(rest, i, key, e);
        assert(lines[lines.len() - 1].key != key);
    }
}

/// A key of which no line speaks is not there.
pub proof fn law_journal_makes_no_keys(lines: Seq<JournalLine>, key: Seq<char>)
    requires
        forall|j: int| 0 <= j < lines.len() ==> (#[trigger] lines[j]).key != key,
    ensures
        !replayed(lines).contains_key(key),
    decreases lines.len(),
{
    if lines.len() > 0 {
        let rest = lines.drop_last();
        assert forall|j: int| 0 <= j < rest.len() implies (#[trigger] rest[j]).key != key by {
            assert(rest[j] == lines[j]);
        }
        law_journal_makes_no_keys(rest, key);
        assert(lines[lines.len() - 1].key != key);
    }
}

/// A key that is set is read back with its value until the wall clock, as it is read for the read, is
/// past the time to live from where it stood, as it was read for the write. From then on there is no
/// such key. Without a time to live it is read back whatever the clock reads.
pub proof fn law_set_then_get(
    first: &mut KvStore,
    second: &mut KvStore,
    db: &str,
    key: String,
    val: Vec<u8>,
    ttl: i64,
    same_key: String,
    setting: Result<(), KvError>,
    getting: Result<Option<DBEntry>, KvError>,
)
    requires
        call_ensures(KvStore::set, (first, db, key, val, ttl), setting),
        call_ensures(KvStore::get, (second, db, same_key), getting),
        final(first)@ == old(second)@,
        same_key@ == key@,
    ensures
        setting is Ok,
        exists|set_at: i64, got_at: i64|
            {
                &&& #[trigger] is_reading(set_at)
                &&& #[trigger] is_reading(got_at)
                &&& final(first).readings() == old(first).readings().push(set_at)
                &&& final(second).readings() == old(second).readings().push(got_at)
                &&& ttl == 0 || ttl > 0 && set_at + ttl <= i64::MAX && got_at <= set_at + ttl ==> {
                    &&& getting matches Ok(Some(e))
                    &&& e.val@ == val@
                }
                &&& ttl > 0 && set_at + ttl <= i64::MAX && got_at > set_at + ttl ==> getting matches Ok(
                    None,
                )
            },
{
    let now = choose|now: i64|
        {
            &&& final(first)@ == old(first)@.insert(
                db@,
                state_of(old(first)@, db@).wrote(
                    set_line(key@, #[trigger] stored(val@, ttl, now)),
                ),
            )
            &&& is_reading(now)
            &&& final(first).readings() == old(first).readings().push(now)
        };
    let then = choose|now: i64|
        {
            &&& final(second)@ == old(second)@.insert(
                db@,
                #[trigger] after_read(state_of(old(second)@, db@), key@, now),
            )
            &&& is_reading(now)
            &&& final(second).readings() == old(second).readings().push(now)
            &&& match getting {
                Ok(Some(e)) => found(state_of(old(second)@, db@), key@, now) == Some(e@),
                Ok(None) => found(state_of(old(second)@, db@), key@, now) is None,
                Err(_) => false,
            }
        };
    law_readings_start_at_the_epoch(now);
    assert(is_reading(now) && is_reading(then));
}

/// A key that was there is dropped, and one that was not is missed. Either way the next read finds
/// none.
pub proof fn law_del_then_get(
    first: &mut KvStore,
    second: &mut KvStore,
    db: &str,
    key: String,
    same_key: String,
    deleting: Result<(), KvError>,
    getting: Result<Option<DBEntry>, KvError>,
    other: Seq<char>,
)
    requires
        call_ensures(KvStore::del, (first, db, key), deleting),
        call_ensures(KvStore::get, (second, db, same_key), getting),
        final(first)@ == old(second)@,
        same_key@ == key@,
        other != key@,
    ensures
        getting matches Ok(None),
        deleting is Ok <==> state_of(old(first)@, db@).items.contains_key(key@),
        state_of(final(first)@, db@).items.contains_key(other) == state_of(
            old(first)@,
            db@,
        ).items.contains_key(other),
        state_of(old(first)@, db@).items.contains_key(other) ==> state_of(
            final(first)@,
            db@,
        ).items[other] == state_of(old(first)@, db@).items[other],
{
}

/// A database that is flushed has no keys, and a read finds none. The other databases stay as they
/// are.
pub proof fn law_flush_leaves_nothing(
    first: &mut KvStore,
    second: &mut KvStore,
    third: &mut KvStore,
    db: &str,
    key: String,
    flushing: Result<(), KvError>,
    getting: Result<Option<DBEntry>, KvError>,
    listing: Result<Vec<String>, KvError>,
    other: Seq<char>,
)
    requires
        call_ensures(KvStore::flush, (first, db), flushing),
        call_ensures(KvStore::get, (second, db, key), getting),
        call_ensures(KvStore::keys, (third, db), listing),
        final(first)@ == old(second)@,
        final(first)@ == old(third)@,
        other != db@,
    ensures
        flushing is Ok,
        getting matches Ok(None),
        listing matches Ok(keys) && keys@.len() == 0,
        state_of(final(first)@, other) == state_of(old(first)@, other),
{
    let keys = strings_view((listing->Ok_0)@);
    if keys.len() > 0 {
        assert(keys.to_set().contains(keys[0]));
    }
}

/// The keys of a database are those that are in it, each once.
pub proof fn law_keys_are_listed(
    store: &mut KvStore,
    db: &str,
    r: Result<Vec<String>, KvError>,
    key: Seq<char>,
    i: int,
    j: int,
)
    requires
        call_ensures(KvStore::keys, (store, db), r),
        r is Ok,
        0 <= i < j < (r->Ok_0)@.len(),
    ensures
        (r->Ok_0)@[i]@ != (r->Ok_0)@[j]@,
        state_of(old(store)@, db@).items.contains_key((r->Ok_0)@[i]@),
        state_of(old(store)@, db@).items.contains_key(key) ==> exists|k: int|
            0 <= k < (r->Ok_0)@.len() && (#[trigger] (r->Ok_0)@[k])@ == key,
        state_of(final(store)@, db@) == state_of(old(store)@, db@),
{
    let keys = strings_view((r->Ok_0)@);
    assert(keys[i] != keys[j]);
    assert(keys.to_set().contains(keys[i]));
    if state_of(old(store)@, db@).items.contains_key(key) {
        assert(keys.to_set().contains(key));
        let k = keys.index_of(key);
        assert((r->Ok_0)@[k]@ == key);
    }
}

/// A write to a database is told to its journal, behind what was told before: a key that is set with
/// what is stored under it, and one that is dropped. What is taken out is taken out once.
#[verifier::rlimit(50)]
pub proof fn law_writes_are_journaled(
    first: &mut KvStore,
    second: &mut KvStore,
    third: &mut KvStore,
    fourth: &mut KvStore,
    db: &str,
    key: String,
    val: Vec<u8>,
    ttl: i64,
    dropped: String,
    setting: Result<(), KvError>,
    deleting: Result<(), KvError>,
    msgs: Vec<JournalMsg>,
    rest: Vec<JournalMsg>,
)
    requires
        state_of(old(first)@, db@).pending.len() == 0,
        call_ensures(KvStore::set, (first, db, key, val, ttl), setting),
        call_ensures(KvStore::del, (second, db, dropped), deleting),
        call_ensures(KvStore::take_messages, (third, db), msgs),
        call_ensures(KvStore::take_messages, (fourth, db), rest),
        final(first)@ == old(second)@,
        final(second)@ == old(third)@,
        final(third)@ == old(fourth)@,
        deleting is Ok,
    ensures
        msgs@.len() == 2,
        msgs@[0] matches JournalMsg::Append(line) && {
            &&& line.command == JournalCommand::SET
            &&& line.key@ == key@
            &&& line.entry matches Some(e)
            &&& e.val@ == val@
            &&& state_of(final(first)@, db@).items[key@].ttl == e.ttl
        },
        msgs@[1] matches JournalMsg::Append(line) && line.command == JournalCommand::DEL && line.key@
            == dropped@ && line.entry is None,
        rest@.len() == 0,
{
    let now = choose|now: i64|
        {
            &&& final(first)@ == old(first)@.insert(
                db@,
                state_of(old(first)@, db@).wrote(
                    set_line(key@, #[trigger] stored(val@, ttl, now)),
                ),
            )
            &&& is_reading(now)
            &&& final(first).readings() == old(first).readings().push(now)
        };
    let told = state_of(old(third)@, db@).pending;
    assert(told.len() == 2);
    assert(msgs_view(msgs@).len() == 2);
    assert(msgs_view(msgs@)[0] == told[0]);
    assert(msgs_view(msgs@)[1] == told[1]);
    assert(msgs_view(msgs@)[0] == msgs@[0]@);
    assert(msgs_view(msgs@)[1] == msgs@[1]@);
    assert(told[0] == MsgView::Append(set_line(key@, stored(val@, ttl, now))));
    assert(told[1] == MsgView::Append(del_line(dropped@)));
    assert(msgs_view(rest@).len() == 0);
}

/// A key that the last line of a journal sets is read back from the database that is rebuilt from the
/// journal, with what the line says, unless it has expired. One that the last line drops is not.
pub proof fn law_rebuilt_key_is_read(
    first: &mut KvStore,
    second: &mut KvStore,
    db: &str,
    lines: &Vec<JournalEntry>,
    key: String,
    getting: Result<Option<DBEntry>, KvError>,
)
    requires
        lines@.len() > 0,
        lines@.last().key@ == key@,
        call_ensures(KvStore::load_db, (first, db, lines), ()),
        call_ensures(KvStore::get, (second, db, key), getting),
        final(first)@ == old(second)@,
    ensures
        lines@.last().command == JournalCommand::DEL ==> getting matches Ok(None),
        lines@.last().command == JournalCommand::SET && (lines@.last().entry matches Some(e) && e.ttl
            == 0) ==> {
            &&& getting matches Ok(Some(g))
            &&& g.val@ == (lines@.last().entry->0).val@
            &&& g.ttl == 0
        },
        final(second).readings().len() == old(second).readings().len() + 1,
        lines@.last().command == JournalCommand::SET && (lines@.last().entry matches Some(e) && e.ttl
            != 0) ==> {
            let e = lines@.last().entry->0;
            if final(second).readings().last() <= e.ttl {
                getting matches Ok(Some(g)) && g.val@ == e.val@ && g.ttl == e.ttl
            } else {
                getting matches Ok(None)
            }
        },
{
    let then = choose|now: i64|
        {
            &&& final(second)@ == old(second)@.insert(
                db@,
                #[trigger] after_read(state_of(old(second)@, db@), key@, now),
            )
            &&& is_reading(now)
            &&& final(second).readings() == old(second).readings().push(now)
            &&& match getting {
                Ok(Some(e)) => found(state_of(old(second)@, db@), key@, now) == Some(e@),
                Ok(None) => found(state_of(old(second)@, db@), key@, now) is None,
                Err(_) => false,
            }
        };
    let all = lines_view(lines@);
    assert(all.last() == lines@.last()@);
    assert(final(second).readings().last() == then);
}

/// The journal file of a database is of that database, where the name of the database has no such
/// ending of its own. A file without the ending is of none.
pub proof fn law_journal_file(name: Seq<char>, file: &str, r: Option<String>)
    requires
        call_ensures(journal_db, (file,), r),
    ensures
        file@ == name + ".aof"@ && !ends_in_aof(name) ==> (r matches Some(db) && db@
            == name),
        r is Some <==> file@.len() >= 4 && file@.skip(file@.len() - 4) == ".aof"@,
        r matches Some(db) ==> exists|n: int|
            0 <= n < file@.len() && db@ == #[trigger] file@.take(n),
{
    reveal_strlit(".aof");
    assert(".aof"@ =~= seq!['.', 'a', 'o', 'f']);
    if file@ == name + ".aof"@ {
        assert(file@.skip(file@.len() - 4) =~= ".aof"@);
        assert(file@.take(file@.len() - 4) =~= name);
    }
    if r is Some {
        let n = file@.len() - 4;
        lemma_without_endings(file@.take(n));
        let m = choose|m: int|
            0 <= m <= file@.take(n).len() && without_endings(file@.take(n))
                == #[trigger] file@.take(n).take(m);
        assert(file@.take(n).take(m) =~= file@.take(m));
    }
}

proof fn lemma_without_endings(file: Seq<char>)
    ensures
        exists|m: int| 0 <= m <= file.len() && without_endings(file) == #[trigger] file.take(m),
    decreases file.len(),
{
    if ends_in_aof(file) {
        let n = file.len() - 4;
        lemma_without_endings(file.take(n));
        let m = choose|m: int|
            0 <= m <= file.take(n).len() && without_endings(file.take(n)) == #[trigger] file.take(
                n,
            ).take(m);
        assert(file.take(n).take(m) =~= file.take(m));
    } else {
        assert(file.take(file.len() as int) =~= file);
    }
}

/// A database that is made is empty and is not made twice. The databases that there are, are each
/// named once.
pub proof fn law_databases(
    first: &mut KvStore,
    second: &KvStore,
    db: &str,
    making: Result<(), KvError>,
    names: Vec<String>,
    name: Seq<char>,
)
    requires
        call_ensures(KvStore::create_db, (first, db), making),
        call_ensures(KvStore::databases, (second,), names),
        final(first)@ == second@,
    ensures
        making is Ok <==> !old(first)@.contains_key(db@),
        making is Ok ==> state_of(second@, db@).items == Map::<Seq<char>, Stored>::empty(),
        making is Err ==> final(first)@ == old(first)@,
        strings_view(names@).contains(db@),
        strings_view(names@).contains(name) <==> name == db@ || old(first)@.contains_key(name),
        strings_view(names@).no_duplicates(),
{
    let all = strings_view(names@);
    assert(all.to_set().contains(name) == all.contains(name));
    assert(all.to_set().contains(db@) == all.contains(db@));
}

} // verus!
