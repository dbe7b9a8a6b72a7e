//! Snapshots of logs: their bytes, the names of their files, and which of them to load.

use crate::idindex::{all_ids, lemma_ids_exist};
use crate::seg_log::{
    after, quads_view, refusal, LogError, LogView, SegLog, INITIAL_SEGMENTS, MAX_SEGMENTS,
    SEGMENT_SIZE,
};
use crate::text::{
    chars_of, parse_i64, parsed_i64, push_decimal, push_signed_decimal, signed_decimal, decimal,
};
use crate::views::{copy_str, strings_view};
use vstd::prelude::*;

verus! {

/// `bitcode::Error`, why bytes hold no value. Nothing is known of its contents.
#[verifier::external_type_specification]
#[verifier::external_body]
pub struct ExBitcodeError(bitcode::Error);

/// The bytes that `bitcode::encode` gives for listed entries.
pub uninterp spec fn snapshot_encoding(entries: Seq<(u64, u64, u64, Seq<u8>)>) -> Seq<u8>;

/// The entries that `bitcode::decode` finds in bytes, if any.
pub uninterp spec fn snapshot_decoding(bytes: Seq<u8>) -> Option<Seq<(u64, u64, u64, Seq<u8>)>>;

/// `bitcode::encode` on listed entries. Its result is given a name, and decoding it gives the
/// entries back.
#[verifier::external_body]
fn encode_entries(entries: &Vec<(u64, u64, u64, Vec<u8>)>) -> (r: Vec<u8>)
    ensures
        r@ == snapshot_encoding(quads_view(entries@)),
        snapshot_decoding(r@) == Some(quads_view(entries@)),
{
    bitcode::encode(entries)
}

/// `bitcode::decode` to listed entries. Its result is given a name.
#[verifier::external_body]
fn decode_entries(data: &[u8]) -> (r: Result<Vec<(u64, u64, u64, Vec<u8>)>, bitcode::Error>)
    ensures
        match r {
            Ok(entries) => snapshot_decoding(data@) == Some(quads_view(entries@)),
            Err(_) => snapshot_decoding(data@) is None,
        },
{
    bitcode::decode(data)
}

/// Why a snapshot is not loaded.
#[derive(Debug)]
pub enum SnapshotError {
    /// The bytes hold no entries.
    Corrupt,
    /// The log refuses an entry.
    Entry { id: u64, error: LogError },
}

impl SnapshotError {
    /// What the error says of itself.
    pub open spec fn text(self) -> Seq<char> {
        match self {
            SnapshotError::Corrupt => "bitcode error"@,
            SnapshotError::Entry { id, error } => "failed to load entry id "@ + decimal(id as nat)
                + ": "@ + error.text(),
        }
    }

    pub fn message(&self) -> (r: String)
        ensures
            r@ == self.text(),
    {
        match self {
            SnapshotError::Corrupt => copy_str("bitcode error"),
            SnapshotError::Entry { id, error } => {
                let mut r = copy_str("failed to load entry id ");
                push_decimal(&mut r, *id);
                r.append(": ");
                let m = error.message();
                r.append(m.as_str());
                r
            },
        }
    }
}

/// A log after loading entries in order.
pub open spec fn loaded(log: LogView, entries: Seq<(u64, u64, u64, Seq<u8>)>) -> LogView
    decreases entries.len(),
{
    if entries.len() == 0 {
        log
    } else {
        let e = entries.last();
        loaded(log, entries.drop_last()).put(e.0, e.1, e.3)
    }
}

/// How many of the first entries a log takes.
pub open spec fn loads(log: LogView, entries: Seq<(u64, u64, u64, Seq<u8>)>) -> nat
    decreases entries.len(),
{
    if entries.len() == 0 || !log.takes(entries[0].3) {
        0
    } else {
        1 + loads(log.put(entries[0].0, entries[0].1, entries[0].3), entries.drop_first())
    }
}

proof fn lemma_loaded_front(log: LogView, entries: Seq<(u64, u64, u64, Seq<u8>)>)
    requires
        entries.len() > 0,
    ensures
        loaded(log, entries) == loaded(
            log.put(entries[0].0, entries[0].1, entries[0].3),
            entries.drop_first(),
        ),
    decreases entries.len(),
{
    let rest = entries.drop_first();
    if entries.len() == 1 {
        assert(entries.drop_last() =~= Seq::empty());
        assert(rest =~= Seq::empty());
        reveal_with_fuel(loaded, 2);
    } else {
        lemma_loaded_front(log, entries.drop_last());
        assert(entries.drop_last().drop_first() =~= rest.drop_last());
        assert(rest.last() == entries.last());
    }
}

proof fn lemma_loads(log: LogView, entries: Seq<(u64, u64, u64, Seq<u8>)>, i: int)
    requires
        0 <= i <= entries.len(),
    ensures
        loads(log, entries) <= entries.len(),
        i < loads(log, entries) ==> loaded(log, entries.take(i)).takes(entries[i].3),
        i == loads(log, entries) && i < entries.len() ==> !loaded(log, entries.take(i)).takes(
            entries[i].3,
        ),
    decreases entries.len(),
{
    if entries.len() > 0 && log.takes(entries[0].3) {
        let rest = entries.drop_first();
        let next = log.put(entries[0].0, entries[0].1, entries[0].3);
        if i > 0 {
            lemma_loads(next, rest, i - 1);
            lemma_loaded_front(log, entries.take(i));
            assert(entries.take(i).drop_first() =~= rest.take(i - 1));
            assert(entries.take(i)[0] == entries[0]);
        } else {
            lemma_loads(next, rest, 0);
            assert(entries.take(0) =~= Seq::empty());
        }
    } else if entries.len() > 0 && i == 0 {
        assert(entries.take(0) =~= Seq::empty());
    }
}

impl SegLog {
    /// The bytes of a snapshot of the log.
    pub fn snapshot(&self) -> (r: Vec<u8>)
        requires
            self.wf(),
        ensures
            r@ == snapshot_encoding(self@.listed()),
            snapshot_decoding(r@) == Some(self@.listed()),
    {
        encode_entries(&self.entries())
    }

    /// Appends listed entries under their ids, up to the first that the log refuses.
    pub fn load_entries(&mut self, entries: &Vec<(u64, u64, u64, Vec<u8>)>) -> (r: Result<
        (),
        SnapshotError,
    >)
        requires
            old(self).wf(),
        ensures
            final(self).wf(),
            final(self).name() == old(self).name(),
            ({
                let all = quads_view(entries@);
                let n = loads(old(self)@, all);
                let log = loaded(old(self)@, all.take(n as int));
                match r {
                    Ok(()) => n == all.len() && final(self)@ == log,
                    Err(SnapshotError::Entry { id, error }) => {
                        &&& n < all.len()
                        &&& id == all[n as int].0
                        &&& error == refusal(all[n as int].3)
                        &&& final(self)@ == log.refused(all[n as int].3)
                    },
                    Err(SnapshotError::Corrupt) => false,
                }
            }),
    {
        let ghost all = quads_view(entries@);
        let ghost log = self@;
        let mut i: usize = 0;
        assert(all.take(0) =~= Seq::empty());
        while i < entries.len()
            invariant
                i <= entries@.len(),
                i <= loads(log, all),
                all == quads_view(entries@),
                log == old(self)@,
                self.wf(),
                self.name() == old(self).name(),
                self@ == loaded(log, all.take(i as int)),
            decreases entries@.len() - i,
        {
            proof {
                lemma_loads(log, all, i as int);
            }
            let e = &entries[i];
            match self.append_with_id(e.0, e.1, e.3.as_slice()) {
                Ok(_) => {},
                Err(error) => {
                    return Err(SnapshotError::Entry { id: e.0, error });
                },
            }
            proof {
                assert(all.take(i + 1).drop_last() =~= all.take(i as int));
                assert(all.take(i + 1).last() == all[i as int]);
            }
            i = i + 1;
        }
        proof {
            lemma_loads(log, all, i as int);
            assert(all.take(i as int) =~= all);
        }
        Ok(())
    }

    /// Loads the bytes of a snapshot.
    pub fn load_snapshot(&mut self, data: &[u8]) -> (r: Result<(), SnapshotError>)
        requires
            old(self).wf(),
        ensures
            final(self).wf(),
            final(self).name() == old(self).name(),
            match snapshot_decoding(data@) {
                None => {
                    &&& r matches Err(SnapshotError::Corrupt)
                    &&& final(self)@ == old(self)@
                },
                Some(all) => {
                    let n = loads(old(self)@, all);
                    let log = loaded(old(self)@, all.take(n as int));
                    match r {
                        Ok(()) => n == all.len() && final(self)@ == log,
                        Err(SnapshotError::Entry { id, error }) => {
                            &&& n < all.len()
                            &&& id == all[n as int].0
                            &&& error == refusal(all[n as int].3)
                            &&& final(self)@ == log.refused(all[n as int].3)
                        },
                        Err(SnapshotError::Corrupt) => false,
                    }
                },
            },
    {
        match decode_entries(data) {
            Ok(entries) => self.load_entries(&entries),
            Err(_) => Err(SnapshotError::Corrupt),
        }
    }
}

/// After loading the first `i` listed entries of `log` into a new log: the entries are there, and
/// each has taken one more segment at most.
spec fn loaded_well(log: LogView, i: int) -> bool {
    let ids = all_ids(log.entries);
    let new = loaded(LogView::empty(), log.listed().take(i));
    &&& new.active < new.segs
    &&& new.active <= i
    &&& new.segs == (if new.active < INITIAL_SEGMENTS {
        INITIAL_SEGMENTS as nat
    } else {
        new.active + 1
    })
    &&& new.cursor <= SEGMENT_SIZE
    &&& i == 0 ==> new.active == 0 && new.cursor == 0
    &&& new.count == i
    &&& new.next_id == (if i == 0 {
        1
    } else {
        after(ids[i - 1])
    })
    &&& forall|id: u64| #[trigger]
        new.entries.contains_key(id) <==> ids.take(i).contains(id)
    &&& forall|id: u64| #[trigger]
        new.entries.contains_key(id) ==> new.entries[id].triple() == log.entries[id].triple()
}

/// The step of loading the `i`th listed entry.
proof fn lemma_loading_step(log: LogView, i: int)
    requires
        log.wf(),
        0 < i <= log.listed().len(),
    ensures
        ({
            let ids = all_ids(log.entries);
            let e = log.entries[ids[i - 1]];
            &&& log.entries.contains_key(ids[i - 1])
            &&& loaded(LogView::empty(), log.listed().take(i)) == loaded(
                LogView::empty(),
                log.listed().take(i - 1),
            ).put(ids[i - 1], e.timestamp, e.payload)
        }),
{
    let all = log.listed();
    let ids = all_ids(log.entries);
    lemma_ids_exist(log.entries);
    assert(ids.contains(ids[i - 1]));
    assert(all.take(i).drop_last() =~= all.take(i - 1));
    assert(all.take(i).last() == all[i - 1]);
}

proof fn lemma_loaded_well(log: LogView, i: int)
    requires
        log.wf(),
        log.keeps_ids(),
        0 <= i <= log.listed().len(),
    ensures
        loaded_well(log, i),
    decreases i,
{
    let all = log.listed();
    let ids = all_ids(log.entries);
    lemma_ids_exist(log.entries);
    let new = loaded(LogView::empty(), all.take(i));
    if i == 0 {
        assert(all.take(0) =~= Seq::empty());
        assert(ids.take(0) =~= Seq::empty());
    } else {
        lemma_loaded_well(log, i - 1);
        lemma_loading_step(log, i);
        let before = loaded(LogView::empty(), all.take(i - 1));
        let id = ids[i - 1];
        assert(ids.take(i) =~= ids.take(i - 1).push(id));
        if i > 1 {
            assert(ids[i - 2] < ids[i - 1]);
        }
        assert forall|k: u64| #[trigger] new.entries.contains_key(k) <==> ids.take(i).contains(
            k,
        ) by {
            if ids.take(i - 1).contains(k) {
                assert(ids.take(i)[ids.take(i - 1).index_of(k)] == k);
            }
            if k == id {
                assert(ids.take(i)[i - 1] == k);
            }
            if ids.take(i).contains(k) && k != id {
                assert(ids.take(i - 1)[ids.take(i).index_of(k)] == k);
            }
            assert(before.entries.contains_key(k) <==> ids.take(i - 1).contains(k));
        }
        assert forall|k: u64| #[trigger] new.entries.contains_key(k) implies new.entries[k].triple()
            == log.entries[k].triple() by {
            if k != id {
                assert(before.entries.contains_key(k));
            }
        }
    }
}

/// After loading the first `i` listed entries of an orderly log into a new log: they take up no more
/// room than in the old one.
proof fn lemma_loaded_tight(log: LogView, i: int)
    requires
        log.wf(),
        log.orderly(),
        0 < i <= log.listed().len(),
    ensures
        ({
            let last = log.entries[all_ids(log.entries)[i - 1]];
            let new = loaded(LogView::empty(), log.listed().take(i));
            new.active < last.seg || (new.active == last.seg && new.cursor <= last.offset
                + last.size)
        }),
    decreases i,
{
    let ids = all_ids(log.entries);
    lemma_ids_exist(log.entries);
    lemma_loaded_well(log, i - 1);
    lemma_loading_step(log, i);
    if i > 1 {
        lemma_loaded_tight(log, i - 1);
        lemma_loading_step(log, i - 1);
        assert(ids[i - 2] < ids[i - 1]);
        assert(log.entries[ids[i - 2]].ends_before(
            log.entries[ids[i - 1]].seg,
            log.entries[ids[i - 1]].offset,
        ));
    }
}

/// A new log takes the next listed entry of an orderly log, or of one with fewer entries than there
/// can be segments.
proof fn lemma_loads_next(log: LogView, i: int)
    requires
        log.wf(),
        log.keeps_ids(),
        log.orderly() || log.entries.len() < MAX_SEGMENTS,
        0 <= i < log.listed().len(),
    ensures
        loaded(LogView::empty(), log.listed().take(i)).takes(log.listed()[i].3),
{
    let ids = all_ids(log.entries);
    lemma_ids_exist(log.entries);
    lemma_loaded_well(log, i);
    lemma_loading_step(log, i + 1);
    assert(log.entries[ids[i]].wf());
    assert(ids.no_duplicates());
    ids.unique_seq_to_set();
    assert(ids.to_set() =~= log.entries.dom());
    if log.orderly() && i > 0 {
        lemma_loaded_tight(log, i);
        lemma_loading_step(log, i);
        assert(ids[i - 1] < ids[i]);
        assert(log.entries[ids[i - 1]].ends_before(
            log.entries[ids[i]].seg,
            log.entries[ids[i]].offset,
        ));
    }
}

/// Loading a snapshot of a log into a new log gives a log with the same entries, and as many, where
/// the entries stand under their own ids and each counts once. The id that comes next is behind the
/// last of them. Loading succeeds where the log was filled in the order of ids, or has fewer
/// entries than there can be segments: otherwise the entries, packed in the order of their ids, may
/// need more segments than there can be.
pub proof fn law_snapshot_round_trip(log: LogView, id: u64)
    requires
        log.wf(),
        log.keeps_ids(),
        log.count == log.entries.len(),
    ensures
        log.orderly() || log.count < MAX_SEGMENTS ==> loads(LogView::empty(), log.listed())
            == log.listed().len(),
        ({
            let new = loaded(LogView::empty(), log.listed());
            &&& new.entries.contains_key(id) == log.entries.contains_key(id)
            &&& log.entries.contains_key(id) ==> new.entries[id].triple()
                == log.entries[id].triple()
            &&& new.count == log.count
            &&& log.entries.contains_key(id) && !log.entries.contains_key(u64::MAX) ==> id
                < new.next_id
            &&& log.entries.contains_key(id) && log.orderly() ==> id < new.next_id <= log.next_id
        }),
{
    let all = log.listed();
    let ids = all_ids(log.entries);
    let n = all.len() as int;
    lemma_ids_exist(log.entries);
    lemma_loaded_well(log, n);
    assert(all.take(n) =~= all);
    assert(ids.take(n) =~= ids);
    assert(ids.no_duplicates());
    ids.unique_seq_to_set();
    assert(ids.to_set() =~= log.entries.dom());
    let new = loaded(LogView::empty(), all);
    assert(new.entries.contains_key(id) <==> ids.contains(id));
    if log.entries.contains_key(id) {
        let i = ids.index_of(id);
        assert(ids[i] == id);
        let last = ids[n - 1];
        assert(ids.contains(last));
        assert(log.entries.contains_key(last));
        if i < n - 1 {
            assert(ids[i] < ids[n - 1]);
        }
    }
    if log.orderly() || log.count < MAX_SEGMENTS {
        let k = loads(LogView::empty(), all) as int;
        lemma_loads(LogView::empty(), all, 0);
        lemma_loads(LogView::empty(), all, k);
        if k < n {
            lemma_loads_next(log, k);
        }
    }
}

/// How the file of a snapshot is named, up to its kind.
pub open spec fn snapshot_stem(group: Seq<char>, stamp: int) -> Seq<char> {
    group + "_snapshot_"@ + signed_decimal(stamp)
}

/// How the name of a snapshot's file ends, and that of the file which describes it.
pub open spec fn data_suffix() -> Seq<char> {
    ".bin"@
}

pub open spec fn meta_suffix() -> Seq<char> {
    ".meta.json"@
}

fn stem(group: &str, stamp: i64) -> (r: String)
    ensures
        r@ == snapshot_stem(group@, stamp as int),
{
    let mut r = copy_str(group);
    r.append("_snapshot_");
    push_signed_decimal(&mut r, stamp);
    r
}

/// The name of the file of a snapshot.
pub fn snapshot_file(group: &str, stamp: i64) -> (r: String)
    ensures
        r@ == snapshot_stem(group@, stamp as int) + data_suffix(),
{
    let mut r = stem(group, stamp);
    r.append(".bin");
    r
}

/// The name of the file that describes a snapshot.
pub fn meta_file(group: &str, stamp: i64) -> (r: String)
    ensures
        r@ == snapshot_stem(group@, stamp as int) + meta_suffix(),
{
    let mut r = stem(group, stamp);
    r.append(".meta.json");
    r
}

/// The text between a prefix and a suffix, if it has both.
pub open spec fn between(s: Seq<char>, prefix: Seq<char>, suffix: Seq<char>) -> Option<Seq<char>> {
    let n = prefix.len() as int;
    let m = s.len() - suffix.len();
    if n <= m && s.take(n) == prefix && s.skip(m) == suffix {
        Some(s.subrange(n, m))
    } else {
        None
    }
}

/// The time of the snapshot of a group that a file with this name describes, if it does.
pub open spec fn stamp_in(name: Seq<char>, group: Seq<char>) -> Option<int> {
    match between(name, group + "_snapshot_"@, meta_suffix()) {
        Some(s) => parsed_i64(s),
        None => None,
    }
}

/// The times of the snapshots of a group that files with these names describe.
pub open spec fn stamps_in(names: Seq<Seq<char>>, group: Seq<char>) -> Seq<i64>
    decreases names.len(),
{
    if names.len() == 0 {
        Seq::empty()
    } else {
        let rest = stamps_in(names.drop_last(), group);
        match stamp_in(names.last(), group) {
            Some(t) => rest.push(t as i64),
            None => rest,
        }
    }
}

/// Whether `part` stands in `chars` at `pos`.
fn stands_at(chars: &Vec<char>, pos: usize, part: &Vec<char>) -> (r: bool)
    requires
        pos + part@.len() <= chars@.len(),
    ensures
        r == (chars@.subrange(pos as int, pos + part@.len()) == part@),
{
    let mut i: usize = 0;
    assert(chars@.len() == chars.len());
    while i < part.len()
        invariant
            i <= part@.len(),
            pos + part@.len() <= chars@.len(),
            chars@.len() == chars.len(),
            forall|j: int| 0 <= j < i ==> chars@[pos + j] == part@[j],
        decreases part@.len() - i,
    {
        if chars[pos + i] != part[i] {
            assert(chars@.subrange(pos as int, pos + part@.len())[i as int] != part@[i as int]);
            return false;
        }
        i = i + 1;
    }
    assert(chars@.subrange(pos as int, pos + part@.len()) =~= part@);
    true
}

/// The time of the snapshot that a file with this name describes.
fn snapshot_stamp(name: &str, group: &str) -> (r: Option<i64>)
    ensures
        match r {
            Some(t) => stamp_in(name@, group@) == Some(t as int),
            None => stamp_in(name@, group@) is None,
        },
{
    let chars = chars_of(name);
    let mut head = copy_str(group);
    head.append("_snapshot_");
    let prefix = chars_of(head.as_str());
    let suffix = chars_of(".meta.json");
    if prefix.len() > chars.len() || suffix.len() > chars.len() - prefix.len() {
        return None;
    }
    let end: usize = chars.len() - suffix.len();
    let ghost s = name@;
    assert(s.take(prefix@.len() as int) =~= s.subrange(0, prefix@.len() as int));
    assert(s.skip(end as int) =~= s.subrange(end as int, end + suffix@.len()));
    if !stands_at(&chars, 0, &prefix) || !stands_at(&chars, end, &suffix) {
        return None;
    }
    parse_i64(&chars, prefix.len(), end)
}

/// The times stand in descending order.
pub open spec fn descending(s: Seq<i64>) -> bool {
    forall|i: int, j: int| 0 <= i < j < s.len() ==> #[trigger] s[i] >= #[trigger] s[j]
}

/// The times of the snapshots of a group that files with these names describe, the newest first.
pub fn snapshot_stamps(names: &Vec<String>, group: &str) -> (r: Vec<i64>)
    ensures
        descending(r@),
        r@.to_multiset() == stamps_in(strings_view(names@), group@).to_multiset(),
{
    broadcast use vstd::seq_lib::group_to_multiset_ensures;

    let ghost all = strings_view(names@);
    let mut r: Vec<i64> = Vec::new();
    let mut i: usize = 0;
    assert(all.take(0) =~= Seq::empty());
    while i < names.len()
        invariant
            i <= names@.len(),
            all == strings_view(names@),
            descending(r@),
            r@.to_multiset() == stamps_in(all.take(i as int), group@).to_multiset(),
        decreases names@.len() - i,
    {
        proof {
            broadcast use vstd::seq_lib::group_to_multiset_ensures;

            let had = stamps_in(all.take(i as int), group@);
            assert(all.take(i + 1).drop_last() =~= all.take(i as int));
            assert(all.take(i + 1).last() == names@[i as int]@);
            if let Some(t) = stamp_in(names@[i as int]@, group@) {
                assert(had.push(t as i64).to_multiset() == had.to_multiset().insert(t as i64));
            }
        }
        if let Some(t) = snapshot_stamp(names[i].as_str(), group) {
            insert_descending(&mut r, t);
        }
        i = i + 1;
    }
    assert(all.take(i as int) =~= all);
    r
}

/// Puts a time at its place.
fn insert_descending(v: &mut Vec<i64>, t: i64)
    requires
        descending(old(v)@),
    ensures
        descending(final(v)@),
        final(v)@.to_multiset() == old(v)@.to_multiset().insert(t),
{
    broadcast use vstd::seq_lib::group_to_multiset_ensures;

    let mut p: usize = v.len();
    while p > 0 && v[p - 1] < t
        invariant
            p <= v@.len(),
            v@ == old(v)@,
            descending(v@),
            forall|j: int| p <= j < v@.len() ==> t >= #[trigger] v@[j],
        decreases p,
    {
        p = p - 1;
    }
    v.insert(p, t);
    proof {
        let o = old(v)@;
        assert forall|i: int, j: int| 0 <= i < j < v@.len() implies #[trigger] v@[i]
            >= #[trigger] v@[j] by {
            let a = if i < p { i } else { i - 1 };
            let b = if j < p { j } else { j - 1 };
            if i != p && j != p {
                assert(o[a] >= o[b]);
            } else if j == p {
                if a != p - 1 {
                    assert(o[a] >= o[p - 1]);
                }
            }
        }
    }
}

/// What `serde_json` gives for a field of the JSON object in a text: its truth value, where the
/// text is a JSON object that has the field and the field is a truth value.
pub uninterp spec fn json_bool(text: Seq<char>, field: Seq<char>) -> Option<bool>;

/// Reads a truth value out of JSON through `serde_json::from_str` to a `serde_json::Value`,
/// `Value::get` and `Value::as_bool`. Its result is given a name.
#[verifier::external_body]
fn read_json_bool(text: &str, field: &str) -> (r: Option<bool>)
    ensures
        r == json_bool(text@, field@),
{
    serde_json::from_str::<serde_json::Value>(text).ok()?.get(field)?.as_bool()
}

/// The JSON object that `serde_json` writes for four fields: a truth value, a text, a signed number
/// and a number.
pub uninterp spec fn json_object(
    flag: (Seq<char>, bool),
    text: (Seq<char>, Seq<char>),
    signed: (Seq<char>, i64),
    number: (Seq<char>, usize),
) -> Seq<char>;

/// Writes a JSON object through `serde_json::Map::insert` and the `to_string` of
/// `serde_json::Value::Object`. Its result is given a name, and the truth value is read back from
/// it, unless another field has its name.
#[verifier::external_body]
fn write_json_object(
    flag: (&str, bool),
    text: (&str, &str),
    signed: (&str, i64),
    number: (&str, usize),
) -> (r: String)
    ensures
        r@ == json_object(
            (flag.0@, flag.1),
            (text.0@, text.1@),
            (signed.0@, signed.1),
            (number.0@, number.1),
        ),
        flag.0@ != text.0@ && flag.0@ != signed.0@ && flag.0@ != number.0@ ==> json_bool(
            r@,
            flag.0@,
        ) == Some(flag.1),
{
    let mut fields = serde_json::Map::new();
    fields.insert(flag.0.to_owned(), serde_json::Value::from(flag.1));
    fields.insert(text.0.to_owned(), serde_json::Value::from(text.1));
    fields.insert(signed.0.to_owned(), serde_json::Value::from(signed.1));
    fields.insert(number.0.to_owned(), serde_json::Value::from(number.1));
    serde_json::Value::Object(fields).to_string()
}

/// What describes a snapshot: a JSON object with the group, the time and the number of segments,
/// marked as completed.
pub open spec fn meta_text(group: Seq<char>, stamp: i64, segments: usize) -> Seq<char> {
    json_object(
        ("completed"@, true),
        ("group"@, group),
        ("timestamp"@, stamp),
        ("total_segments"@, segments),
    )
}

/// Describes a snapshot that is completed.
pub fn snapshot_meta(group: &str, stamp: i64, segments: usize) -> (r: String)
    ensures
        r@ == meta_text(group@, stamp, segments),
        is_completed(Some(r@)),
{
    proof {
        reveal_strlit("completed");
        reveal_strlit("group");
        reveal_strlit("timestamp");
        reveal_strlit("total_segments");
        assert("completed"@[0] != "group"@[0]);
        assert("completed"@[0] != "timestamp"@[0]);
        assert("completed"@[0] != "total_segments"@[0]);
    }
    write_json_object(
        ("completed", true),
        ("group", group),
        ("timestamp", stamp),
        ("total_segments", segments),
    )
}

/// Whether what describes a snapshot marks it as completed.
pub open spec fn is_completed(meta: Option<Seq<char>>) -> bool {
    meta matches Some(text) && json_bool(text, "completed"@) == Some(true)
}

/// The contents of what was read to describe snapshots.
pub open spec fn metas_view(s: Seq<Option<String>>) -> Seq<Option<Seq<char>>> {
    Seq::new(
        s.len(),
        |i: int|
            match s[i] {
                Some(text) => Some(text@),
                None => None,
            },
    )
}

/// Whether what was read to describe a snapshot marks it as completed.
pub open spec fn marks_completed(meta: Option<String>) -> bool {
    meta matches Some(text) && is_completed(Some(text@))
}

/// Where one of the snapshots is marked as completed, `r` is the time of it or of one before it.
pub open spec fn no_later(stamps: Seq<i64>, metas: Seq<Option<String>>, r: Option<i64>) -> bool {
    forall|j: int|
        0 <= j < stamps.len() && marks_completed(#[trigger] metas[j]) ==> exists|k: int|
            0 <= k <= j && r == Some(#[trigger] stamps[k])
}

/// The first of the given times whose snapshot is marked as completed.
pub fn first_completed(stamps: &Vec<i64>, metas: &Vec<Option<String>>) -> (r: Option<i64>)
    requires
        stamps@.len() == metas@.len(),
    ensures
        match r {
            Some(t) => exists|i: int|
                {
                    &&& 0 <= i < stamps@.len()
                    &&& t == #[trigger] stamps@[i]
                    &&& is_completed(metas_view(metas@)[i])
                    &&& forall|j: int| 0 <= j < i ==> !is_completed(#[trigger] metas_view(metas@)[j])
                },
            None => forall|j: int|
                0 <= j < stamps@.len() ==> !is_completed(#[trigger] metas_view(metas@)[j]),
        },
        no_later(stamps@, metas@, r),
{
    let mut i: usize = 0;
    while i < stamps.len()
        invariant
            i <= stamps@.len(),
            stamps@.len() == metas@.len(),
            forall|j: int| 0 <= j < i ==> !is_completed(#[trigger] metas_view(metas@)[j]),
        decreases stamps@.len() - i,
    {
        if let Some(text) = &metas[i] {
            if let Some(true) = read_json_bool(text.as_str(), "completed") {
                assert(is_completed(metas_view(metas@)[i as int]));
                assert(stamps@[i as int] == stamps@[i as int]);
                proof {
                    assert forall|j: int|
                        0 <= j < stamps@.len() && marks_completed(#[trigger] metas@[j]) implies i <= j by {
                        assert(is_completed(metas_view(metas@)[j]));
                    }
                }
                return Some(stamps[i]);
            }
        }
        i = i + 1;
    }
    proof {
        assert forall|j: int| 0 <= j < stamps@.len() implies !marks_completed(
            #[trigger] metas@[j],
        ) by {
            assert(!is_completed(metas_view(metas@)[j]));
        }
    }
    None
}

/// The name of the file that describes a snapshot gives back the time of the snapshot, to the
/// group that it is of.
pub proof fn law_stamp_round_trip(group: Seq<char>, stamp: i64)
    ensures
        stamp_in(snapshot_stem(group, stamp as int) + meta_suffix(), group) == Some(stamp as int),
{
    let prefix = group + "_snapshot_"@;
    let number = signed_decimal(stamp as int);
    let name = snapshot_stem(group, stamp as int) + meta_suffix();
    let n = prefix.len() as int;
    let m = n + number.len();
    assert(name.take(n) =~= prefix);
    assert(name.skip(m) =~= meta_suffix());
    assert(name.subrange(n, m) =~= number);
    crate::text::law_decimal_round_trip(stamp);
}

/// A snapshot of a log that is loaded into a new log gives each entry back under its id, where the
/// entries of the log stand under their own ids and each counts once.
pub proof fn law_snapshot_then_read(
    first: &SegLog,
    second: &mut SegLog,
    third: &SegLog,
    bytes: Vec<u8>,
    data: &[u8],
    loading: Result<(), SnapshotError>,
    id: u64,
    was: Result<(u64, u64, Vec<u8>), LogError>,
    is: Result<(u64, u64, Vec<u8>), LogError>,
)
    requires
        call_ensures(SegLog::snapshot, (first,), bytes),
        call_ensures(SegLog::load_snapshot, (second, data), loading),
        call_ensures(SegLog::read, (first, id), was),
        call_ensures(SegLog::read, (third, id), is),
        data@ == bytes@,
        old(second)@ == LogView::empty(),
        final(second)@ == third@,
        first@.wf(),
        first@.keeps_ids(),
        first@.count == first@.entries.len(),
        first@.orderly() || first@.count < 1024 * 1024 * 1024,
    ensures
        loading is Ok,
        was is Ok <==> is is Ok,
        was is Ok ==> (is->Ok_0).0 == (was->Ok_0).0 && (is->Ok_0).1 == (was->Ok_0).1 && (
        is->Ok_0).2@ == (was->Ok_0).2@,
{
    law_snapshot_round_trip(first@, id);
    let all = first@.listed();
    assert(all.take(all.len() as int) =~= all);
}

/// The times of the snapshots of a group are told the newest first, and are those of the files that
/// describe one: the name of such a file gives the time of its snapshot back.
pub proof fn law_snapshots_are_found(
    group: &str,
    stamp: i64,
    file: String,
    names: &Vec<String>,
    stamps: Vec<i64>,
    k: int,
    i: int,
    j: int,
)
    requires
        call_ensures(meta_file, (group, stamp), file),
        call_ensures(snapshot_stamps, (names, group), stamps),
        0 <= k < names@.len() ==> names@[k]@ == file@,
    ensures
        0 <= i < j < stamps@.len() ==> stamps@[i] >= stamps@[j],
        0 <= k < names@.len() ==> stamps@.contains(stamp),
        stamps@.len() <= names@.len(),
        stamps@.contains(stamp) ==> exists|n: int|
            0 <= n < names@.len() && stamp_in((#[trigger] names@[n])@, group@) == Some(stamp as int),
{
    broadcast use vstd::seq_lib::group_to_multiset_ensures;

    let all = strings_view(names@);
    let found = stamps_in(all, group@);
    lemma_stamps_in(all, group@, stamp, k);
    assert(stamps@.len() == found.len()) by {
        assert(stamps@.to_multiset().len() == found.to_multiset().len());
    }
    if 0 <= k < names@.len() {
        law_stamp_round_trip(group@, stamp);
        assert(all[k] == file@);
        assert(found.contains(stamp));
        assert(found.to_multiset().contains(stamp));
        assert(stamps@.to_multiset().contains(stamp));
    }
    if stamps@.contains(stamp) {
        assert(stamps@.to_multiset().contains(stamp));
        assert(found.to_multiset().contains(stamp));
        let n = choose|n: int|
            0 <= n < all.len() && stamp_in(#[trigger] all[n], group@) == Some(stamp as int);
        assert(all[n] == names@[n]@);
    }
}

/// Each name that tells a time tells it once.
proof fn lemma_stamps_in(names: Seq<Seq<char>>, group: Seq<char>, stamp: i64, k: int)
    ensures
        stamps_in(names, group).len() <= names.len(),
        0 <= k < names.len() && stamp_in(names[k], group) == Some(stamp as int) ==> stamps_in(
            names,
            group,
        ).contains(stamp),
        stamps_in(names, group).contains(stamp) ==> exists|n: int|
            0 <= n < names.len() && stamp_in(#[trigger] names[n], group) == Some(stamp as int),
    decreases names.len(),
{
    if names.len() > 0 {
        let rest = names.drop_last();
        let had = stamps_in(rest, group);
        let all = stamps_in(names, group);
        let last = names.len() - 1;
        lemma_stamps_in(rest, group, stamp, k);
        if 0 <= k < last && stamp_in(names[k], group) == Some(stamp as int) {
            assert(rest[k] == names[k]);
            let i = had.index_of(stamp);
            assert(all[i] == stamp);
        }
        if k == last && stamp_in(names[k], group) == Some(stamp as int) {
            assert(all.last() == stamp);
        }
        if all.contains(stamp) {
            let i = all.index_of(stamp);
            if i < had.len() {
                assert(had[i] == stamp);
                let n = choose|n: int|
                    0 <= n < rest.len() && stamp_in(#[trigger] rest[n], group) == Some(
                        stamp as int,
                    );
                assert(names[n] == rest[n]);
            } else {
                let t = stamp_in(names.last(), group)->0;
                assert(i64::MIN <= t <= i64::MAX);
                assert(names[last] == names.last());
            }
        }
    }
}

/// The first completed snapshot is the newest that is completed, where the times are told the newest
/// first.
pub proof fn law_first_completed(
    stamps: &Vec<i64>,
    metas: &Vec<Option<String>>,
    r: Option<i64>,
    i: int,
)
    requires
        call_ensures(first_completed, (stamps, metas), r),
        stamps@.len() == metas@.len(),
        descending(stamps@),
        0 <= i < stamps@.len(),
        metas@[i] matches Some(text) && json_bool(text@, "completed"@) == Some(true),
    ensures
        r matches Some(t) && t >= stamps@[i] && stamps@.contains(t),
{
    assert(marks_completed(metas@[i]));
    let k = choose|k: int| 0 <= k <= i && r == Some(#[trigger] stamps@[k]);
    if k < i {
        assert(stamps@[k] >= stamps@[i]);
    }
}

/// What describes a snapshot marks it as completed, so that it is found.
pub proof fn law_described_snapshot_is_found(
    group: &str,
    stamp: i64,
    segments: usize,
    meta: String,
    stamps: &Vec<i64>,
    metas: &Vec<Option<String>>,
    r: Option<i64>,
)
    requires
        call_ensures(snapshot_meta, (group, stamp, segments), meta),
        call_ensures(first_completed, (stamps, metas), r),
        stamps@ == seq![stamp],
        metas@.len() == 1,
        metas@[0] matches Some(text) && text@ == meta@,
    ensures
        r == Some(stamp),
        meta@ == json_object(
            ("completed"@, true),
            ("group"@, group@),
            ("timestamp"@, stamp),
            ("total_segments"@, segments),
        ),
{
    law_first_completed(stamps, metas, r, 0);
    let k = stamps@.index_of(r->0);
    assert(stamps@[k] == r->0);
}

/// What is said of a snapshot that is not loaded.
pub proof fn law_snapshot_errors_say(e: &SnapshotError, m: String, inner: String)
    requires
        call_ensures(SnapshotError::message, (e,), m),
        *e matches SnapshotError::Entry { id, error } ==> call_ensures(
            LogError::message,
            (&error,),
            inner,
        ),
    ensures
        e is Corrupt ==> m@ == "bitcode error"@,
        *e matches SnapshotError::Entry { id, error } ==> m@ == "failed to load entry id "@ + decimal(
            id as nat,
        ) + ": "@ + inner@,
{
}

/// The files of a snapshot are named after the group and the time.
pub proof fn law_snapshot_files(group: &str, stamp: i64, data: String, meta: String)
    requires
        call_ensures(snapshot_file, (group, stamp), data),
        call_ensures(meta_file, (group, stamp), meta),
    ensures
        data@ == group@ + "_snapshot_"@ + signed_decimal(stamp as int) + ".bin"@,
        meta@ == group@ + "_snapshot_"@ + signed_decimal(stamp as int) + ".meta.json"@,
{
}

} // verus!
