//! The entries of the append-only log: one for each write to the stores.

use crate::names::{law_lines_of_parts, law_one_line, lines, lines_of};
use crate::text::{law_trimmed, trim, trimmed, white_space};
use crate::views::{
    copy_bytes, copy_pairs, copy_str, copy_vecs, pairs_view, strings_view, vecs_view,
};
use vstd::prelude::*;

verus! {

/// A write to one of the stores.
#[derive(Debug, Clone)]
#[allow(inconsistent_fields)]
pub enum AofEntry {
    KvSet { db: String, key: String, val: Vec<u8>, ttl: i64 },
    KvDel { db: String, key: String },
    KvFlush { db: String },
    LogCreateGroup { name: String },
    LogDropGroup { name: String },
    LogAdd { group: String, timestamp: u64, payload: Vec<u8> },
    LogAddRange { group: String, entries: Vec<(u64, Vec<u8>)> },
    LogRemove { group: String, up_to_id: u64 },
    ListPush { key: String, payload: Vec<u8> },
    ListPushRange { key: String, items: Vec<Vec<u8>> },
    ListPop { key: String },
    ListPopRange { key: String, start: usize, end: usize },
    ListPopCount { key: String, count: usize },
    ListFlush { key: String },
}

/// What an [`AofEntry`] says.
#[allow(inconsistent_fields)]
pub ghost enum AofView {
    KvSet { db: Seq<char>, key: Seq<char>, val: Seq<u8>, ttl: i64 },
    KvDel { db: Seq<char>, key: Seq<char> },
    KvFlush { db: Seq<char> },
    LogCreateGroup { name: Seq<char> },
    LogDropGroup { name: Seq<char> },
    LogAdd { group: Seq<char>, timestamp: u64, payload: Seq<u8> },
    LogAddRange { group: Seq<char>, entries: Seq<(u64, Seq<u8>)> },
    LogRemove { group: Seq<char>, up_to_id: u64 },
    ListPush { key: Seq<char>, payload: Seq<u8> },
    ListPushRange { key: Seq<char>, items: Seq<Seq<u8>> },
    ListPop { key: Seq<char> },
    ListPopRange { key: Seq<char>, start: usize, end: usize },
    ListPopCount { key: Seq<char>, count: usize },
    ListFlush { key: Seq<char> },
}

impl View for AofEntry {
    type V = AofView;

    open spec fn view(&self) -> AofView {
        match *self {
            AofEntry::KvSet { db, key, val, ttl } => AofView::KvSet {
                db: db@,
                key: key@,
                val: val@,
                ttl,
            },
            AofEntry::KvDel { db, key } => AofView::KvDel { db: db@, key: key@ },
            AofEntry::KvFlush { db } => AofView::KvFlush { db: db@ },
            AofEntry::LogCreateGroup { name } => AofView::LogCreateGroup { name: name@ },
            AofEntry::LogDropGroup { name } => AofView::LogDropGroup { name: name@ },
            AofEntry::LogAdd { group, timestamp, payload } => AofView::LogAdd {
                group: group@,
                timestamp,
                payload: payload@,
            },
            AofEntry::LogAddRange { group, entries } => AofView::LogAddRange {
                group: group@,
                entries: pairs_view(entries@),
            },
            AofEntry::LogRemove { group, up_to_id } => AofView::LogRemove {
                group: group@,
                up_to_id,
            },
            AofEntry::ListPush { key, payload } => AofView::ListPush {
                key: key@,
                payload: payload@,
            },
            AofEntry::ListPushRange { key, items } => AofView::ListPushRange {
                key: key@,
                items: vecs_view(items@),
            },
            AofEntry::ListPop { key } => AofView::ListPop { key: key@ },
            AofEntry::ListPopRange { key, start, end } => AofView::ListPopRange {
                key: key@,
                start,
                end,
            },
            AofEntry::ListPopCount { key, count } => AofView::ListPopCount { key: key@, count },
            AofEntry::ListFlush { key } => AofView::ListFlush { key: key@ },
        }
    }
}

/// The store that an entry is a write to.
#[derive(Debug, Clone, Copy, PartialEq, Eq, Structural)]
pub enum EntryCategory {
    Kv,
    Log,
    List,
}

impl AofView {
    pub open spec fn category(self) -> EntryCategory {
        match self {
            AofView::KvSet { .. } | AofView::KvDel { .. } | AofView::KvFlush {
                ..
            } => EntryCategory::Kv,
            AofView::LogCreateGroup { .. }
            | AofView::LogDropGroup { .. }
            | AofView::LogAdd { .. }
            | AofView::LogAddRange { .. }
            | AofView::LogRemove { .. } => EntryCategory::Log,
            _ => EntryCategory::List,
        }
    }
}

impl AofEntry {
    /// The store that the entry is a write to.
    pub fn category(&self) -> (r: EntryCategory)
        ensures
            r == self@.category(),
    {
        match self {
            AofEntry::KvSet { .. } | AofEntry::KvDel { .. } | AofEntry::KvFlush {
                ..
            } => EntryCategory::Kv,
            AofEntry::LogCreateGroup { .. }
            | AofEntry::LogDropGroup { .. }
            | AofEntry::LogAdd { .. }
            | AofEntry::LogAddRange { .. }
            | AofEntry::LogRemove { .. } => EntryCategory::Log,
            _ => EntryCategory::List,
        }
    }

    /// A copy of the entry.
    pub fn copy(&self) -> (r: AofEntry)
        ensures
            r@ == self@,
    {
        match self {
            AofEntry::KvSet { db, key, val, ttl } => AofEntry::KvSet {
                db: copy_str(db.as_str()),
                key: copy_str(key.as_str()),
                val: copy_bytes(val.as_slice()),
                ttl: *ttl,
            },
            AofEntry::KvDel { db, key } => AofEntry::KvDel {
                db: copy_str(db.as_str()),
                key: copy_str(key.as_str()),
            },
            AofEntry::KvFlush { db } => AofEntry::KvFlush { db: copy_str(db.as_str()) },
            AofEntry::LogCreateGroup { name } => AofEntry::LogCreateGroup {
                name: copy_str(name.as_str()),
            },
            AofEntry::LogDropGroup { name } => AofEntry::LogDropGroup {
                name: copy_str(name.as_str()),
            },
            AofEntry::LogAdd { group, timestamp, payload } => AofEntry::LogAdd {
                group: copy_str(group.as_str()),
                timestamp: *timestamp,
                payload: copy_bytes(payload.as_slice()),
            },
            AofEntry::LogAddRange { group, entries } => AofEntry::LogAddRange {
                group: copy_str(group.as_str()),
                entries: copy_pairs(entries),
            },
            AofEntry::LogRemove { group, up_to_id } => AofEntry::LogRemove {
                group: copy_str(group.as_str()),
                up_to_id: *up_to_id,
            },
            AofEntry::ListPush { key, payload } => AofEntry::ListPush {
                key: copy_str(key.as_str()),
                payload: copy_bytes(payload.as_slice()),
            },
            AofEntry::ListPushRange { key, items } => AofEntry::ListPushRange {
                key: copy_str(key.as_str()),
                items: copy_vecs(items),
            },
            AofEntry::ListPop { key } => AofEntry::ListPop { key: copy_str(key.as_str()) },
            AofEntry::ListPopRange { key, start, end } => AofEntry::ListPopRange {
                key: copy_str(key.as_str()),
                start: *start,
                end: *end,
            },
            AofEntry::ListPopCount { key, count } => AofEntry::ListPopCount {
                key: copy_str(key.as_str()),
                count: *count,
            },
            AofEntry::ListFlush { key } => AofEntry::ListFlush { key: copy_str(key.as_str()) },
        }
    }
}

/// What entries say.
pub open spec fn entries_view(s: Seq<AofEntry>) -> Seq<AofView> {
    Seq::new(s.len(), |i: int| s[i]@)
}

/// The entries that are writes to one store, in order.
pub open spec fn of_category(s: Seq<AofView>, c: EntryCategory) -> Seq<AofView>
    decreases s.len(),
{
    if s.len() == 0 {
        Seq::empty()
    } else {
        let rest = of_category(s.drop_last(), c);
        if s.last().category() == c {
            rest.push(s.last())
        } else {
            rest
        }
    }
}

/// Entries by the store that they are writes to.
pub struct AofEntries {
    pub kv_entries: Vec<AofEntry>,
    pub list_entries: Vec<AofEntry>,
    pub log_entries: Vec<AofEntry>,
}

impl Default for AofEntries {
    fn default() -> (r: Self)
        ensures
            r.kv_entries@.len() == 0,
            r.list_entries@.len() == 0,
            r.log_entries@.len() == 0,
    {
        AofEntries { kv_entries: Vec::new(), list_entries: Vec::new(), log_entries: Vec::new() }
    }
}

/// Whether every entry is a write to the store.
pub open spec fn all_of(entries: Seq<AofView>, c: EntryCategory) -> bool {
    forall|i: int| 0 <= i < entries.len() ==> (#[trigger] entries[i]).category() == c
}

/// The writes to a store are writes to it.
pub proof fn lemma_of_category(entries: Seq<AofView>, c: EntryCategory)
    ensures
        all_of(of_category(entries, c), c),
    decreases entries.len(),
{
    if entries.len() > 0 {
        lemma_of_category(entries.drop_last(), c);
    }
}

/// The entries of one store, `entry` among them where it is a write to that store.
pub open spec fn joining(had: Seq<AofView>, entry: AofView, c: EntryCategory) -> Seq<AofView> {
    if entry.category() == c {
        had.push(entry)
    } else {
        had
    }
}

impl AofEntries {
    /// The entries here are `all`, each with its store.
    pub open spec fn separates(&self, all: Seq<AofView>) -> bool {
        &&& entries_view(self.kv_entries@) == of_category(all, EntryCategory::Kv)
        &&& entries_view(self.list_entries@) == of_category(all, EntryCategory::List)
        &&& entries_view(self.log_entries@) == of_category(all, EntryCategory::Log)
    }

    /// Each entry is with its store.
    pub open spec fn sorted(&self) -> bool {
        &&& all_of(entries_view(self.kv_entries@), EntryCategory::Kv)
        &&& all_of(entries_view(self.list_entries@), EntryCategory::List)
        &&& all_of(entries_view(self.log_entries@), EntryCategory::Log)
    }

    /// How many entries there are.
    pub fn len(&self) -> (n: usize)
        requires
            self.kv_entries@.len() + self.list_entries@.len() + self.log_entries@.len()
                <= usize::MAX,
        ensures
            n == self.kv_entries@.len() + self.list_entries@.len() + self.log_entries@.len(),
    {
        self.kv_entries.len() + self.list_entries.len() + self.log_entries.len()
    }

    pub fn is_empty(&self) -> (r: bool)
        ensures
            r == (self.kv_entries@.len() + self.list_entries@.len() + self.log_entries@.len() == 0),
    {
        self.kv_entries.len() == 0 && self.list_entries.len() == 0 && self.log_entries.len() == 0
    }

    /// Puts an entry behind those of its store.
    pub fn push(&mut self, entry: AofEntry)
        ensures
            entries_view(final(self).kv_entries@) == joining(
                entries_view(old(self).kv_entries@),
                entry@,
                EntryCategory::Kv,
            ),
            entries_view(final(self).list_entries@) == joining(
                entries_view(old(self).list_entries@),
                entry@,
                EntryCategory::List,
            ),
            entries_view(final(self).log_entries@) == joining(
                entries_view(old(self).log_entries@),
                entry@,
                EntryCategory::Log,
            ),
    {
        let ghost was = *self;
        match entry.category() {
            EntryCategory::Kv => {
                self.kv_entries.push(entry);
                assert(entries_view(self.kv_entries@) =~= entries_view(was.kv_entries@).push(
                    entry@,
                ));
            },
            EntryCategory::Log => {
                self.log_entries.push(entry);
                assert(entries_view(self.log_entries@) =~= entries_view(was.log_entries@).push(
                    entry@,
                ));
            },
            EntryCategory::List => {
                self.list_entries.push(entry);
                assert(entries_view(self.list_entries@) =~= entries_view(was.list_entries@).push(
                    entry@,
                ));
            },
        }
    }

    /// Sorts entries by the store that they are writes to.
    pub fn separate(entries: Vec<AofEntry>) -> (r: AofEntries)
        ensures
            r.separates(entries_view(entries@)),
            r.sorted(),
    {
        let mut r = AofEntries::default();
        let ghost all = entries_view(entries@);
        let mut i: usize = 0;
        assert(all.take(0) =~= Seq::empty());
        assert(entries_view(r.kv_entries@) =~= Seq::empty());
        assert(entries_view(r.list_entries@) =~= Seq::empty());
        assert(entries_view(r.log_entries@) =~= Seq::empty());
        while i < entries.len()
            invariant
                i <= entries@.len(),
                all == entries_view(entries@),
                r.separates(all.take(i as int)),
            decreases entries@.len() - i,
        {
            r.push(entries[i].copy());
            assert(all.take(i + 1).drop_last() =~= all.take(i as int));
            i = i + 1;
        }
        proof {
            assert(all.take(i as int) =~= all);
            lemma_of_category(all, EntryCategory::Kv);
            lemma_of_category(all, EntryCategory::List);
            lemma_of_category(all, EntryCategory::Log);
        }
        r
    }
}

/// The records of a log file: its lines, without the white space round them and without
/// those that hold nothing else.
pub open spec fn records_of(contents: Seq<char>) -> Seq<Seq<char>> {
    stripped(lines_of(contents))
}

/// Lines without the white space round them and without those that hold nothing else.
pub open spec fn stripped(lines: Seq<Seq<char>>) -> Seq<Seq<char>>
    decreases lines.len(),
{
    if lines.len() == 0 {
        Seq::empty()
    } else {
        let rest = stripped(lines.drop_last());
        let line = trimmed(lines.last());
        if line.len() == 0 {
            rest
        } else {
            rest.push(line)
        }
    }
}

/// The records of a log file, each of which should hold one entry.
pub fn records(contents: &str) -> (r: Vec<String>)
    ensures
        strings_view(r@) == records_of(contents@),
{
    let all = lines(contents);
    let ghost shown = strings_view(all@);
    let mut r: Vec<String> = Vec::new();
    let mut i: usize = 0;
    assert(strings_view(r@) =~= stripped(shown.take(0)));
    while i < all.len()
        invariant
            i <= all@.len(),
            shown == strings_view(all@),
            strings_view(r@) == stripped(shown.take(i as int)),
        decreases all@.len() - i,
    {
        let ghost before = r@;
        assert(shown.take(i + 1).drop_last() =~= shown.take(i as int));
        let line = trim(all[i].as_str());
        if !line.as_str().is_empty() {
            r.push(line);
            assert(strings_view(r@) =~= strings_view(before).push(line@));
        }
        i = i + 1;
    }
    assert(shown.take(i as int) =~= shown);
    r
}

/// The entries of the records that hold one.
pub open spec fn readable(parsed: Seq<Option<AofEntry>>) -> Seq<AofView>
    decreases parsed.len(),
{
    if parsed.len() == 0 {
        Seq::empty()
    } else {
        let rest = readable(parsed.drop_last());
        match parsed.last() {
            Some(entry) => rest.push(entry@),
            None => rest,
        }
    }
}

/// The entries of a log file, given what each record of it holds: a record that holds no
/// entry is skipped.
pub fn load_aof(parsed: Vec<Option<AofEntry>>) -> (r: Vec<AofEntry>)
    ensures
        entries_view(r@) == readable(parsed@),
{
    let mut r: Vec<AofEntry> = Vec::new();
    let mut i: usize = 0;
    assert(entries_view(r@) =~= readable(parsed@.take(0)));
    while i < parsed.len()
        invariant
            i <= parsed@.len(),
            entries_view(r@) == readable(parsed@.take(i as int)),
        decreases parsed@.len() - i,
    {
        let ghost before = r@;
        assert(parsed@.take(i + 1).drop_last() =~= parsed@.take(i as int));
        if let Some(entry) = &parsed[i] {
            r.push(entry.copy());
            assert(entries_view(r@) =~= entries_view(before).push(entry@));
        }
        i = i + 1;
    }
    assert(parsed@.take(i as int) =~= parsed@);
    r
}

/// The entries of a log file, each with its store.
pub fn load_aof_separated(parsed: Vec<Option<AofEntry>>) -> (r: AofEntries)
    ensures
        r.separates(readable(parsed@)),
        r.sorted(),
{
    AofEntries::separate(load_aof(parsed))
}

/// Sorting entries by store loses none and makes none: there are as many as before.
pub proof fn law_separation_keeps_count(all: Seq<AofView>)
    ensures
        of_category(all, EntryCategory::Kv).len() + of_category(all, EntryCategory::List).len()
            + of_category(all, EntryCategory::Log).len() == all.len(),
    decreases all.len(),
{
    if all.len() > 0 {
        law_separation_keeps_count(all.drop_last());
    }
}

/// A log file with records, each on a line of its own.
pub open spec fn written_out(texts: Seq<Seq<char>>) -> Seq<char>
    decreases texts.len(),
{
    if texts.len() == 0 {
        Seq::empty()
    } else {
        written_out(texts.drop_last()) + texts.last().push('\n')
    }
}

/// Whether a text can be a record: it holds something, has no white space round it, and stands on
/// one line.
pub open spec fn fits_record(text: Seq<char>) -> bool {
    &&& text.len() > 0
    &&& !white_space(text[0]) && !white_space(text.last())
    &&& forall|i: int| 0 <= i < text.len() ==> #[trigger] text[i] != '\n'
}

/// The records of a file that ends with a line feed, and then those of what is written behind it,
/// are the records of the whole: none is lost, and none is taken for another.
pub proof fn law_records_of_parts(a: Seq<char>, b: Seq<char>)
    requires
        a.len() > 0 ==> a.last() == '\n',
    ensures
        records_of(a + b) == records_of(a) + records_of(b),
{
    law_lines_of_parts(a, b);
    lemma_stripped_parts(lines_of(a), lines_of(b));
}

proof fn lemma_stripped_parts(a: Seq<Seq<char>>, b: Seq<Seq<char>>)
    ensures
        stripped(a + b) == stripped(a) + stripped(b),
    decreases b.len(),
{
    if b.len() == 0 {
        assert(a + b =~= a);
        assert(stripped(a) + stripped(b) =~= stripped(a));
    } else {
        lemma_stripped_parts(a, b.drop_last());
        assert((a + b).drop_last() =~= a + b.drop_last());
        assert((a + b).last() == b.last());
        assert(stripped(a) + stripped(b) =~= stripped(a + b));
    }
}

/// A line makes one record at most: what is on it without the white space round it, if that is
/// anything.
pub proof fn law_one_record(line: Seq<char>)
    requires
        forall|i: int| 0 <= i < line.len() ==> #[trigger] line[i] != '\n',
    ensures
        fits_record(line) ==> records_of(line.push('\n')) == seq![line] && records_of(line)
            == seq![line],
        (forall|i: int| 0 <= i < line.len() ==> white_space(#[trigger] line[i])) ==> records_of(
            line.push('\n'),
        ).len() == 0,
        records_of(line.push('\n')).len() <= 1,
{
    law_one_line(line);
    let shown = if line.len() > 0 && line.last() == '\r' {
        line.drop_last()
    } else {
        line
    };
    lemma_stripped_one(shown);
    let at = law_trimmed(shown);
    if trimmed(shown).len() > 0 {
        assert(trimmed(shown)[0] == shown[at]);
        assert(shown[at] == line[at]);
    }
    if fits_record(line) {
        assert(shown == line);
        assert(trimmed(line) == line);
    }
}

proof fn lemma_stripped_one(line: Seq<char>)
    ensures
        trimmed(line).len() > 0 ==> stripped(seq![line]) == seq![trimmed(line)],
        trimmed(line).len() == 0 ==> stripped(seq![line]) == Seq::<Seq<char>>::empty(),
{
    let none = Seq::<Seq<char>>::empty();
    assert(seq![line].drop_last() =~= none);
    assert(stripped(none) =~= none);
    assert(none.push(trimmed(line)) =~= seq![trimmed(line)]);
}

/// What is written to the log file is what is read from it: as many records, in order, each as it
/// was written.
pub proof fn law_records_round_trip(texts: Seq<Seq<char>>)
    requires
        forall|i: int| 0 <= i < texts.len() ==> fits_record(#[trigger] texts[i]),
    ensures
        records_of(written_out(texts)) == texts,
    decreases texts.len(),
{
    if texts.len() == 0 {
        assert(records_of(Seq::empty()) =~= texts);
    } else {
        let rest = texts.drop_last();
        let text = texts.last();
        assert forall|i: int| 0 <= i < rest.len() implies fits_record(#[trigger] rest[i]) by {
            assert(rest[i] == texts[i]);
        }
        assert(fits_record(texts[texts.len() - 1]));
        law_records_round_trip(rest);
        let a = written_out(rest);
        if rest.len() > 0 {
            assert(a.last() == '\n');
        }
        law_records_of_parts(a, text.push('\n'));
        law_one_record(text);
        assert(rest + seq![text] =~= texts);
    }
}

/// What is read of some records, and then of others, is what is read of all of them.
pub proof fn law_readable_parts(a: Seq<Option<AofEntry>>, b: Seq<Option<AofEntry>>)
    ensures
        readable(a + b) == readable(a) + readable(b),
    decreases b.len(),
{
    if b.len() == 0 {
        assert(a + b =~= a);
        assert(readable(a) + readable(b) =~= readable(a));
    } else {
        law_readable_parts(a, b.drop_last());
        assert((a + b).drop_last() =~= a + b.drop_last());
        assert((a + b).last() == b.last());
        assert(readable(a) + readable(b) =~= readable(a + b));
    }
}

/// Where every record holds an entry, what is read are those entries, and where none does, nothing
/// is.
pub proof fn law_every_entry_is_read(parsed: Seq<Option<AofEntry>>)
    ensures
        (forall|i: int| 0 <= i < parsed.len() ==> (#[trigger] parsed[i]) is Some) ==> readable(
            parsed,
        ).len() == parsed.len() && forall|i: int|
            0 <= i < parsed.len() ==> readable(parsed)[i] == (#[trigger] parsed[i])->0@,
        (forall|i: int| 0 <= i < parsed.len() ==> (#[trigger] parsed[i]) is None) ==> readable(
            parsed,
        ).len() == 0,
    decreases parsed.len(),
{
    if parsed.len() > 0 {
        let rest = parsed.drop_last();
        law_every_entry_is_read(rest);
        if forall|i: int| 0 <= i < parsed.len() ==> (#[trigger] parsed[i]) is Some {
            assert forall|i: int| 0 <= i < rest.len() implies (#[trigger] rest[i]) is Some by {
                assert(rest[i] == parsed[i]);
            }
            assert(parsed[parsed.len() - 1] is Some);
            assert forall|i: int| 0 <= i < parsed.len() implies readable(parsed)[i] == (
            #[trigger] parsed[i])->0@ by {
                if i < rest.len() {
                    assert(rest[i] == parsed[i]);
                }
            }
        }
        if forall|i: int| 0 <= i < parsed.len() ==> (#[trigger] parsed[i]) is None {
            assert forall|i: int| 0 <= i < rest.len() implies (#[trigger] rest[i]) is None by {
                assert(rest[i] == parsed[i]);
            }
            assert(parsed[parsed.len() - 1] is None);
        }
    }
}

/// The writes to a store among some entries, and then among others, are those among all of them. An
/// entry is among the writes to its own store, and to no other.
pub proof fn law_separation_keeps_order(a: Seq<AofView>, b: Seq<AofView>, e: AofView, c: EntryCategory)
    ensures
        of_category(a + b, c) == of_category(a, c) + of_category(b, c),
        e.category() == c ==> of_category(seq![e], c) == seq![e],
        e.category() != c ==> of_category(seq![e], c) == Seq::<AofView>::empty(),
    decreases b.len(),
{
    reveal_with_fuel(of_category, 2);
    assert(seq![e].drop_last() =~= Seq::empty());
    assert(Seq::empty().push(e) =~= seq![e]);
    if b.len() == 0 {
        assert(a + b =~= a);
        assert(of_category(a, c) + of_category(b, c) =~= of_category(a, c));
    } else {
        law_separation_keeps_order(a, b.drop_last(), e, c);
        assert((a + b).drop_last() =~= a + b.drop_last());
        assert((a + b).last() == b.last());
        assert(of_category(a, c) + of_category(b, c) =~= of_category(a + b, c));
    }
}

/// Which store an entry is a write to.
pub proof fn law_entries_have_their_store(e: AofView)
    ensures
        e.category() == EntryCategory::Kv <==> e is KvSet || e is KvDel || e is KvFlush,
        e.category() == EntryCategory::Log <==> e is LogCreateGroup || e is LogDropGroup || e is LogAdd
            || e is LogAddRange || e is LogRemove,
        e.category() == EntryCategory::List <==> e is ListPush || e is ListPushRange || e is ListPop
            || e is ListPopRange || e is ListPopCount || e is ListFlush,
{
}

/// A log file in which records were written, each on a line of its own, gives those records back, in
/// order.
pub proof fn law_written_records_are_read(texts: Seq<Seq<char>>, contents: &str, r: Vec<String>, i: int)
    requires
        call_ensures(records, (contents,), r),
        contents@ == written_out(texts),
        forall|j: int| 0 <= j < texts.len() ==> fits_record(#[trigger] texts[j]),
    ensures
        r@.len() == texts.len(),
        0 <= i < r@.len() ==> r@[i]@ == texts[i],
{
    law_records_round_trip(texts);
    let all = strings_view(r@);
    assert(all.len() == r@.len());
    if 0 <= i < r@.len() {
        assert(all[i] == r@[i]@);
    }
}

/// The records of a log file are those of its parts, where it is cut behind a line.
pub proof fn law_records_are_read_in_parts(
    a: &str,
    b: &str,
    all: &str,
    of_a: Vec<String>,
    of_b: Vec<String>,
    of_all: Vec<String>,
)
    requires
        call_ensures(records, (a,), of_a),
        call_ensures(records, (b,), of_b),
        call_ensures(records, (all,), of_all),
        all@ == a@ + b@,
        a@.len() > 0 ==> a@.last() == '\n',
    ensures
        strings_view(of_all@) == strings_view(of_a@) + strings_view(of_b@),
{
    law_records_of_parts(a@, b@);
}

/// Where every record holds an entry, the entries that are loaded are those, in order. A record that holds
/// none is skipped.
pub proof fn law_entries_are_loaded(
    parsed: Vec<Option<AofEntry>>,
    more: Vec<Option<AofEntry>>,
    r: Vec<AofEntry>,
    r_more: Vec<AofEntry>,
    i: int,
)
    requires
        call_ensures(load_aof, (parsed,), r),
        call_ensures(load_aof, (more,), r_more),
        more@ == parsed@.push(None),
        forall|j: int| 0 <= j < parsed@.len() ==> (#[trigger] parsed@[j]) is Some,
    ensures
        r@.len() == parsed@.len(),
        0 <= i < r@.len() ==> r@[i]@ == parsed@[i]->0@,
        entries_view(r_more@) == entries_view(r@),
{
    law_every_entry_is_read(parsed@);
    assert(more@.drop_last() =~= parsed@);
    assert(more@.last() is None);
    let all = entries_view(r@);
    assert(all.len() == r@.len());
    if 0 <= i < r@.len() {
        assert(all[i] == r@[i]@);
        assert(parsed@[i] is Some);
    }
}

/// Entries that are sorted by store are those that there were, each with its store: one more entry stands
/// behind the others of its store, and changes nothing of the other stores.
pub proof fn law_entry_joins_its_store(
    entries: Vec<AofEntry>,
    more: Vec<AofEntry>,
    e: AofEntry,
    r: AofEntries,
    r_more: AofEntries,
)
    requires
        call_ensures(AofEntries::separate, (entries,), r),
        call_ensures(AofEntries::separate, (more,), r_more),
        more@ == entries@.push(e),
    ensures
        ({
            let kv = e is KvSet || e is KvDel || e is KvFlush;
            let log = e is LogCreateGroup || e is LogDropGroup || e is LogAdd || e is LogAddRange
                || e is LogRemove;
            &&& entries_view(r_more.kv_entries@) == (if kv {
                entries_view(r.kv_entries@).push(e@)
            } else {
                entries_view(r.kv_entries@)
            })
            &&& entries_view(r_more.log_entries@) == (if log {
                entries_view(r.log_entries@).push(e@)
            } else {
                entries_view(r.log_entries@)
            })
            &&& entries_view(r_more.list_entries@) == (if kv || log {
                entries_view(r.list_entries@)
            } else {
                entries_view(r.list_entries@).push(e@)
            })
        }),
{
    let all = entries_view(more@);
    assert(all.drop_last() =~= entries_view(entries@));
    assert(all.last() == e@);
}

/// An entry that is put in is with its store, and there is one more.
pub proof fn law_pushed_entry_is_counted(
    before: &AofEntries,
    entries: &mut AofEntries,
    after: &AofEntries,
    e: AofEntry,
    was: usize,
    is: usize,
    none: bool,
    category: EntryCategory,
)
    requires
        call_ensures(AofEntries::push, (entries, e), ()),
        call_ensures(AofEntries::len, (before,), was),
        call_ensures(AofEntries::len, (after,), is),
        call_ensures(AofEntries::is_empty, (after,), none),
        call_ensures(AofEntry::category, (&e,), category),
        *before == *old(entries),
        *after == *final(entries),
    ensures
        is == was + 1,
        !none,
        category is Kv <==> e is KvSet || e is KvDel || e is KvFlush,
        category is Log <==> e is LogCreateGroup || e is LogDropGroup || e is LogAdd
            || e is LogAddRange || e is LogRemove,
        category is Kv ==> entries_view(after.kv_entries@) == entries_view(before.kv_entries@).push(
            e@,
        ),
        category is Log ==> entries_view(after.log_entries@) == entries_view(
            before.log_entries@,
        ).push(e@),
        category is List ==> entries_view(after.list_entries@) == entries_view(
            before.list_entries@,
        ).push(e@),
{
    assert(entries_view(after.kv_entries@).len() == after.kv_entries@.len());
    assert(entries_view(after.log_entries@).len() == after.log_entries@.len());
    assert(entries_view(after.list_entries@).len() == after.list_entries@.len());
    assert(entries_view(before.kv_entries@).len() == before.kv_entries@.len());
    assert(entries_view(before.log_entries@).len() == before.log_entries@.len());
    assert(entries_view(before.list_entries@).len() == before.list_entries@.len());
}

} // verus!
