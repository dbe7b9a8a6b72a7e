//! A log in fixed-size segments of memory, with an index of its entries by id.

use crate::idindex::{all_ids, are_ids_between, ids_between, lemma_ids_exist, IdIndex};
use crate::le::{
    le_bytes, le_value, lemma_le_bytes_len, lemma_le_bytes_of_value, lemma_le_limits,
    lemma_le_round_trip, lemma_le_value_zero, push_le, read_le,
};
use crate::views::{
    copy_bytes, copy_str, copy_vecs, overwrite_bytes, push_bytes, triples_view, vecs_view,
    zeroed_bytes, zeros,
};
use vstd::prelude::*;

verus! {

pub const SEGMENT_SIZE: usize = 64 * 1024;

pub const INITIAL_SEGMENTS: usize = 8;

pub const MAX_SEGMENTS: usize = 1024 * 1024 * 1024;

/// An entry starts with its id, its timestamp and the length of its payload.
pub const HEADER_SIZE: usize = 8 + 8 + 4;

/// Why a log refuses a request.
#[derive(Debug)]
pub enum LogError {
    EntryTooLarge,
    SegmentLimitReached,
    EntryNotFound,
    AllocationFailed,
    MaxSegmentsReached,
    WriteLockUnavailable,
    SnapshotFailed(String),
}

impl LogError {
    /// What the error says of itself.
    pub open spec fn text(self) -> Seq<char> {
        match self {
            LogError::EntryTooLarge => "entry exceeds segment capacity"@,
            LogError::SegmentLimitReached => "max segment count reached"@,
            LogError::EntryNotFound => "entry not found"@,
            LogError::AllocationFailed => "failed to allocate memory for segment"@,
            LogError::MaxSegmentsReached => "maximum segments reached"@,
            LogError::WriteLockUnavailable => "write lock is currently held by another operation"@,
            LogError::SnapshotFailed(reason) => "snapshot failed: "@ + reason@,
        }
    }

    pub fn message(&self) -> (r: String)
        ensures
            r@ == self.text(),
    {
        match self {
            LogError::EntryTooLarge => copy_str("entry exceeds segment capacity"),
            LogError::SegmentLimitReached => copy_str("max segment count reached"),
            LogError::EntryNotFound => copy_str("entry not found"),
            LogError::AllocationFailed => copy_str("failed to allocate memory for segment"),
            LogError::MaxSegmentsReached => copy_str("maximum segments reached"),
            LogError::WriteLockUnavailable => copy_str(
                "write lock is currently held by another operation",
            ),
            LogError::SnapshotFailed(reason) => {
                let mut r = copy_str("snapshot failed: ");
                r.append(reason.as_str());
                r
            },
        }
    }
}

/// An entry of a log, by itself.
#[derive(Debug, Clone, PartialEq)]
pub struct LogEntry {
    pub id: u64,
    pub timestamp: u64,
    pub len: usize,
    pub payload: Vec<u8>,
}

impl LogEntry {
    /// The id, timestamp and payload of the entry.
    pub open spec fn triple(self) -> (u64, u64, Seq<u8>) {
        (self.id, self.timestamp, self.payload@)
    }
}

/// What a log holds under an id.
pub ghost struct LogItem {
    /// The segment in which the entry stands, and where in it.
    pub seg: nat,
    pub offset: nat,
    /// The id that the entry itself gives.
    pub id: u64,
    pub timestamp: u64,
    pub payload: Seq<u8>,
    /// How many bytes the entry takes up.
    pub size: nat,
}

impl LogItem {
    pub open spec fn wf(self) -> bool {
        HEADER_SIZE + self.payload.len() <= self.size && self.offset + self.size <= SEGMENT_SIZE
    }

    /// Whether the entry ends before the given place.
    pub open spec fn ends_before(self, seg: nat, offset: nat) -> bool {
        self.seg < seg || (self.seg == seg && self.offset + self.size <= offset)
    }

    /// What a read gives.
    pub open spec fn triple(self) -> (u64, u64, Seq<u8>) {
        (self.id, self.timestamp, self.payload)
    }

    /// The bytes of the entry.
    pub open spec fn raw(self) -> Seq<u8> {
        le_bytes(self.id as nat, 8) + le_bytes(self.timestamp as nat, 8) + le_bytes(
            self.payload.len(),
            4,
        ) + self.payload + zeros((self.size - HEADER_SIZE - self.payload.len()) as nat)
    }

    /// Whether nothing is left of the entry but zeros.
    pub open spec fn wiped(self) -> bool {
        self.id == 0 && self.timestamp == 0 && self.payload.len() == 0
    }

    /// The entry once its segment has been zeroed.
    pub open spec fn zeroed(self) -> LogItem {
        LogItem { id: 0, timestamp: 0, payload: Seq::empty(), ..self }
    }
}

/// What a log holds.
pub ghost struct LogView {
    pub entries: Map<u64, LogItem>,
    pub next_id: u64,
    /// How many entries were appended and not trimmed.
    pub count: nat,
    /// How many segments there are.
    pub segs: nat,
    /// The segment that is being filled, and how far it is.
    pub active: nat,
    pub cursor: nat,
}

impl LogView {
    pub open spec fn wf(self) -> bool {
        &&& self.active < self.segs || self.shut()
        &&& self.segs <= MAX_SEGMENTS
        &&& self.cursor <= SEGMENT_SIZE
        &&& 20 * self.count <= 65536 * self.active + self.cursor
        &&& self.entries.dom().finite()
        &&& self.entries.len() <= self.count
        &&& forall|id: u64| #[trigger]
            self.entries.contains_key(id) ==> self.entries[id].wf() && self.entries[id].ends_before(
                self.active,
                self.cursor,
            )
    }

    pub open spec fn empty() -> LogView {
        LogView {
            entries: Map::empty(),
            next_id: 1,
            count: 0,
            segs: INITIAL_SEGMENTS as nat,
            active: 0,
            cursor: 0,
        }
    }

    /// Whether the write position has moved behind the last segment that there can be. It does
    /// when an entry is refused for want of a segment, and nothing is appended from then on.
    pub open spec fn shut(self) -> bool {
        self.active == self.segs && self.segs == MAX_SEGMENTS && self.cursor == 0
    }

    /// Whether an entry of `size` bytes needs the next segment.
    pub open spec fn spills(self, size: nat) -> bool {
        self.cursor + size > SEGMENT_SIZE
    }

    /// Whether there is no segment for an entry of `size` bytes, nor room for one more.
    pub open spec fn full(self, size: nat) -> bool {
        self.spills(size) && self.active + 1 >= self.segs && self.segs >= MAX_SEGMENTS
    }

    /// Whether an entry with this payload can be appended.
    pub open spec fn takes(self, payload: Seq<u8>) -> bool {
        let size = HEADER_SIZE as nat + payload.len();
        size <= SEGMENT_SIZE && !self.full(size) && !self.shut()
    }

    /// Whether an entry with this payload would fit in a segment, and there is none left for it.
    pub open spec fn shuts(self, payload: Seq<u8>) -> bool {
        let size = HEADER_SIZE as nat + payload.len();
        size <= SEGMENT_SIZE && self.full(size) && !self.shut()
    }

    /// After refusing an entry. The write position has moved on where the entry would have needed
    /// one more segment.
    pub open spec fn refused(self, payload: Seq<u8>) -> LogView {
        if self.shuts(payload) {
            LogView { active: self.active + 1, cursor: 0, ..self }
        } else {
            self
        }
    }

    /// After appending an entry under `id`.
    pub open spec fn appended(self, id: u64, timestamp: u64, payload: Seq<u8>, next_id: u64) -> LogView {
        let size = HEADER_SIZE as nat + payload.len();
        let active = if self.spills(size) {
            self.active + 1
        } else {
            self.active
        };
        LogView {
            entries: self.entries.insert(
                id,
                LogItem {
                    seg: active,
                    offset: if self.spills(size) {
                        0
                    } else {
                        self.cursor
                    },
                    id,
                    timestamp,
                    payload,
                    size,
                },
            ),
            next_id,
            count: self.count + 1,
            segs: if active >= self.segs {
                self.segs + 1
            } else {
                self.segs
            },
            active,
            cursor: if self.spills(size) {
                size
            } else {
                self.cursor + size
            },
        }
    }

    /// After appending an entry under the next id.
    pub open spec fn pushed(self, timestamp: u64, payload: Seq<u8>) -> LogView {
        self.appended(self.next_id, timestamp, payload, after(self.next_id))
    }

    /// After appending an entry under an id that is given.
    pub open spec fn put(self, id: u64, timestamp: u64, payload: Seq<u8>) -> LogView {
        let next_id = if id >= self.next_id {
            after(id)
        } else {
            self.next_id
        };
        self.appended(id, timestamp, payload, next_id)
    }

    /// The entries from `cutoff` on.
    pub open spec fn kept(self, cutoff: u64) -> Map<u64, LogItem> {
        self.entries.restrict(Set::new(|id: u64| id >= cutoff))
    }

    /// The segment of the entry with the lowest id from `cutoff` on, or 0 where there is none.
    pub open spec fn first_live(self, cutoff: u64) -> nat {
        let ids = all_ids(self.kept(cutoff));
        if ids.len() == 0 {
            0
        } else {
            self.entries[ids[0]].seg
        }
    }

    /// After dropping the entries below `cutoff` and zeroing the segments before that of the
    /// first entry which is kept.
    pub open spec fn trimmed(self, cutoff: u64) -> LogView {
        let kept = self.kept(cutoff);
        let live = self.first_live(cutoff);
        LogView {
            entries: Map::new(
                |id: u64| kept.contains_key(id),
                |id: u64|
                    if kept[id].seg < live {
                        kept[id].zeroed()
                    } else {
                        kept[id]
                    },
            ),
            count: (self.count - (self.entries.len() - kept.len())) as nat,
            ..self
        }
    }

    /// The entries with ids from `start` up to and with `end`, in the order of their ids.
    pub open spec fn range(self, start: u64, end: u64) -> Seq<(u64, u64, Seq<u8>)> {
        let ids = ids_between(self.entries, start as int, end as int);
        Seq::new(ids.len(), |i: int| self.entries[ids[i]].triple())
    }

    /// All entries in the order of their ids: id, timestamp, length of the payload, payload.
    pub open spec fn listed(self) -> Seq<(u64, u64, u64, Seq<u8>)> {
        let ids = all_ids(self.entries);
        Seq::new(
            ids.len(),
            |i: int|
                {
                    let e = self.entries[ids[i]];
                    (ids[i], e.timestamp, e.payload.len() as u64, e.payload)
                },
        )
    }

    /// Every entry stands under its own id.
    pub open spec fn keeps_ids(self) -> bool {
        forall|id: u64| #[trigger] self.entries.contains_key(id) ==> self.entries[id].id == id
    }

    /// Every entry stands under its own id, between 0 and the next id, and behind those with lower
    /// ids, and each counts once. Logs that are filled in the order of ids are of this kind.
    pub open spec fn orderly(self) -> bool {
        &&& self.count == self.entries.len()
        &&& forall|id: u64| #[trigger]
            self.entries.contains_key(id) ==> self.entries[id].id == id && 0 < id
                < self.next_id
        &&& 0 < self.next_id
        &&& forall|a: u64, b: u64|
            #![trigger self.entries[a], self.entries[b]]
            self.entries.contains_key(a) && self.entries.contains_key(b) && a < b
                ==> self.entries[a].ends_before(self.entries[b].seg, self.entries[b].offset)
    }
}

/// The contents of listed entries.
pub open spec fn quads_view(s: Seq<(u64, u64, u64, Vec<u8>)>) -> Seq<(u64, u64, u64, Seq<u8>)> {
    Seq::new(s.len(), |i: int| (s[i].0, s[i].1, s[i].2, s[i].3@))
}

/// The id behind `id`. Behind the largest comes 0.
pub open spec fn after(id: u64) -> u64 {
    if id == u64::MAX {
        0
    } else {
        (id + 1) as u64
    }
}

/// Where an entry stands.
#[derive(Debug, Clone, Copy)]
pub struct EntryLoc {
    segment_idx: usize,
    offset: usize,
    len: usize,
}

/// The entry in the given bytes.
spec fn item_in(seg: nat, offset: nat, bytes: Seq<u8>) -> LogItem {
    let len = le_value(bytes.subrange(16, 20));
    LogItem {
        seg,
        offset,
        id: le_value(bytes.subrange(0, 8)) as u64,
        timestamp: le_value(bytes.subrange(8, 16)) as u64,
        payload: bytes.subrange(20, 20 + len as int),
        size: bytes.len(),
    }
}

/// The bytes of an entry hold it.
proof fn lemma_item_in(item: LogItem)
    requires
        item.wf(),
    ensures
        item.raw().len() == item.size,
        item_in(item.seg, item.offset, item.raw()) == item,
        le_value(item.raw().subrange(16, 20)) == item.payload.len(),
        item.raw().subrange(20, 20 + item.payload.len() as int) == item.payload,
{
    broadcast use lemma_le_bytes_len;

    let raw = item.raw();
    lemma_le_limits();
    lemma_le_round_trip(item.id as nat, 8);
    lemma_le_round_trip(item.timestamp as nat, 8);
    lemma_le_round_trip(item.payload.len(), 4);
    assert(raw.subrange(0, 8) =~= le_bytes(item.id as nat, 8));
    assert(raw.subrange(8, 16) =~= le_bytes(item.timestamp as nat, 8));
    assert(raw.subrange(16, 20) =~= le_bytes(item.payload.len(), 4));
    assert(raw.subrange(20, 20 + item.payload.len() as int) =~= item.payload);
}

/// Bytes of zero hold the zeroed entry.
proof fn lemma_zero_item(item: LogItem)
    requires
        item.wf(),
    ensures
        item.zeroed().raw() == zeros(item.size),
        item.zeroed().wf(),
{
    broadcast use lemma_le_bytes_len;

    let z = item.zeroed();
    lemma_le_limits();
    lemma_le_value_zero(zeros(8));
    lemma_le_bytes_of_value(zeros(8));
    lemma_le_value_zero(zeros(4));
    lemma_le_bytes_of_value(zeros(4));
    assert(z.raw() =~= zeros(item.size));
}

/// A segmented log.
pub struct SegLog {
    identifier: String,
    segs: Vec<Vec<u8>>,
    active_seg: usize,
    write_cursor: usize,
    idx: IdIndex<EntryLoc>,
    next_id: u64,
    entry_count: u64,
}

/// A note of a log as it was. Where the id that comes next is taken already, which it is only once
/// the ids have come round, all of the log is kept.
pub enum LogMark {
    Place { active: usize, cursor: usize, next_id: u64, count: u64, segs: usize },
    Whole(SegLog),
}

impl LogMark {
    /// Whether the note is of this log.
    pub closed spec fn marks(&self, log: LogView) -> bool {
        match self {
            LogMark::Place { active, cursor, next_id, count, segs } => {
                &&& active == log.active
                &&& cursor == log.cursor
                &&& next_id == log.next_id
                &&& count == log.count
                &&& segs == log.segs
                &&& !log.entries.contains_key(log.next_id)
            },
            LogMark::Whole(copy) => copy.wf() && copy@ == log,
        }
    }
}

/// The bytes at a place.
spec fn bytes_at(segs: Seq<Vec<u8>>, loc: EntryLoc) -> Seq<u8> {
    segs[loc.segment_idx as int]@.subrange(loc.offset as int, loc.offset + loc.len)
}

/// The entry at a place.
spec fn item_at(segs: Seq<Vec<u8>>, loc: EntryLoc) -> LogItem {
    item_in(loc.segment_idx as nat, loc.offset as nat, bytes_at(segs, loc))
}

/// A place lies inside a segment and before the write position, and its bytes are those of an
/// entry.
spec fn loc_ok(segs: Seq<Vec<u8>>, active: usize, cursor: usize, loc: EntryLoc) -> bool {
    &&& loc.segment_idx < segs.len()
    &&& loc.offset + loc.len <= SEGMENT_SIZE
    &&& HEADER_SIZE <= loc.len
    &&& loc.segment_idx < active || (loc.segment_idx == active && loc.offset + loc.len <= cursor)
    &&& item_at(segs, loc).wf()
    &&& item_at(segs, loc).raw() == bytes_at(segs, loc)
    &&& le_value(bytes_at(segs, loc).subrange(16, 20)) == item_at(segs, loc).payload.len()
}

impl View for SegLog {
    type V = LogView;

    closed spec fn view(&self) -> LogView {
        LogView {
            entries: Map::new(
                |id: u64| self.idx@.contains_key(id),
                |id: u64| item_at(self.segs@, self.idx@[id]),
            ),
            next_id: self.next_id,
            count: self.entry_count as nat,
            segs: self.segs@.len(),
            active: self.active_seg as nat,
            cursor: self.write_cursor as nat,
        }
    }
}

impl SegLog {
    pub closed spec fn wf(&self) -> bool {
        &&& self.idx.wf()
        &&& self.active_seg < self.segs@.len() || (self.active_seg == self.segs@.len()
            == MAX_SEGMENTS && self.write_cursor == 0)
        &&& self.segs@.len() <= MAX_SEGMENTS
        &&& self.write_cursor <= SEGMENT_SIZE
        &&& 20 * self.entry_count <= 65536 * self.active_seg + self.write_cursor
        &&& self.idx.ids().len() <= self.entry_count
        &&& forall|i: int|
            0 <= i < self.segs@.len() ==> (#[trigger] self.segs@[i])@.len() == SEGMENT_SIZE
        &&& forall|id: u64| #[trigger]
            self.idx@.contains_key(id) ==> loc_ok(
                self.segs@,
                self.active_seg,
                self.write_cursor,
                self.idx@[id],
            )
    }

    /// The name of the log.
    pub closed spec fn name(&self) -> Seq<char> {
        self.identifier@
    }

    /// The view of a well-formed log is well-formed.
    pub proof fn lemma_view_wf(&self)
        requires
            self.wf(),
        ensures
            self@.wf(),
            are_ids_between(
                self@.entries,
                0,
                u64::MAX as int,
                all_ids(self@.entries),
            ),
    {
        self.lemma_index();
    }

    /// The index holds the ids of the view.
    proof fn lemma_index(&self)
        requires
            self.wf(),
        ensures
            self@.wf(),
            self.idx.ids() == all_ids(self@.entries),
            are_ids_between(self@.entries, 0, u64::MAX as int, self.idx.ids()),
    {
        self.idx.lemma_ids();
        assert(self@.entries.dom() =~= self.idx@.dom());
        crate::idindex::lemma_ids_between(
            self@.entries,
            0,
            u64::MAX as int,
            self.idx.ids(),
        );
    }

    pub fn new(identifier: String) -> (r: Self)
        ensures
            r.wf(),
            r@ == LogView::empty(),
            r.name() == identifier@,
    {
        let mut segs: Vec<Vec<u8>> = Vec::new();
        let mut i: usize = 0;
        while i < INITIAL_SEGMENTS
            invariant
                i <= INITIAL_SEGMENTS,
                segs@.len() == i,
                forall|j: int| 0 <= j < segs@.len() ==> (#[trigger] segs@[j])@.len() == SEGMENT_SIZE,
            decreases INITIAL_SEGMENTS - i,
        {
            segs.push(zeroed_bytes(SEGMENT_SIZE));
            i = i + 1;
        }
        let r = SegLog {
            identifier,
            segs,
            active_seg: 0,
            write_cursor: 0,
            idx: IdIndex::new(),
            next_id: 1,
            entry_count: 0,
        };
        proof {
            r.idx.lemma_ids();
            assert(r@.entries =~= Map::empty());
        }
        r
    }

    /// Adds a zeroed segment.
    pub fn allocate_seg(&mut self) -> (r: Result<(), LogError>)
        requires
            old(self).wf(),
        ensures
            final(self).wf(),
            final(self).name() == old(self).name(),
            match r {
                Ok(()) => {
                    &&& old(self)@.segs < MAX_SEGMENTS
                    &&& final(self)@ == (LogView { segs: old(self)@.segs + 1, ..old(self)@ })
                },
                Err(e) => {
                    &&& e == LogError::MaxSegmentsReached
                    &&& old(self)@.segs >= MAX_SEGMENTS
                    &&& final(self)@ == old(self)@
                },
            },
    {
        if self.segs.len() >= MAX_SEGMENTS {
            return Err(LogError::MaxSegmentsReached);
        }
        let ghost was = *self;
        self.segs.push(zeroed_bytes(SEGMENT_SIZE));
        proof {
            assert forall|id: u64| #[trigger] self.idx@.contains_key(id) implies {
                &&& loc_ok(self.segs@, self.active_seg, self.write_cursor, self.idx@[id])
                &&& item_at(self.segs@, self.idx@[id]) == item_at(was.segs@, was.idx@[id])
            } by {
                let loc = was.idx@[id];
                assert(self.segs@[loc.segment_idx as int] == was.segs@[loc.segment_idx as int]);
            }
            assert(self@.entries =~= was@.entries);
        }
        Ok(())
    }

    /// Makes sure that an entry of `size` bytes fits behind the write position.
    fn make_room(&mut self, size: usize) -> (r: Result<(), LogError>)
        requires
            old(self).wf(),
            HEADER_SIZE <= size <= SEGMENT_SIZE,
            !old(self)@.shut(),
        ensures
            final(self).wf(),
            final(self).name() == old(self).name(),
            match r {
                Ok(()) => {
                    &&& !old(self)@.full(size as nat)
                    &&& final(self).write_cursor + size <= SEGMENT_SIZE
                    &&& final(self).active_seg < final(self).segs@.len()
                    &&& final(self)@ == (if old(self)@.spills(size as nat) {
                        LogView {
                            active: old(self)@.active + 1,
                            cursor: 0,
                            segs: if old(self)@.active + 1 >= old(self)@.segs {
                                old(self)@.segs + 1
                            } else {
                                old(self)@.segs
                            },
                            ..old(self)@
                        }
                    } else {
                        old(self)@
                    })
                },
                Err(e) => {
                    &&& e == LogError::MaxSegmentsReached
                    &&& old(self)@.full(size as nat)
                    &&& final(self)@ == (LogView {
                        active: old(self)@.active + 1,
                        cursor: 0,
                        ..old(self)@
                    })
                },
            },
    {
        if self.write_cursor + size > SEGMENT_SIZE {
            let mut left: Result<(), LogError> = Ok(());
            if self.active_seg + 1 >= self.segs.len() {
                left = self.allocate_seg();
            }
            let ghost was = *self;
            self.active_seg = self.active_seg + 1;
            self.write_cursor = 0;
            proof {
                assert forall|id: u64| #[trigger] self.idx@.contains_key(id) implies loc_ok(
                    self.segs@,
                    self.active_seg,
                    self.write_cursor,
                    self.idx@[id],
                ) by {
                    assert(was.idx@.contains_key(id));
                }
                assert(self@.entries =~= was@.entries);
            }
            return left;
        }
        Ok(())
    }

    /// Writes an entry behind the last one and indexes it.
    fn write_entry(&mut self, id: u64, timestamp: u64, payload: &[u8]) -> (r: Result<(), LogError>)
        requires
            old(self).wf(),
        ensures
            final(self).wf(),
            final(self).name() == old(self).name(),
            match r {
                Ok(()) => {
                    &&& old(self)@.takes(payload@)
                    &&& final(self)@ == old(self)@.appended(
                        id,
                        timestamp,
                        payload@,
                        old(self)@.next_id,
                    )
                },
                Err(e) => {
                    &&& e == refusal(payload@)
                    &&& !old(self)@.takes(payload@)
                    &&& final(self)@ == old(self)@.refused(payload@)
                },
            },
    {
        if payload.len() > SEGMENT_SIZE - HEADER_SIZE {
            return Err(LogError::EntryTooLarge);
        }
        if self.active_seg >= self.segs.len() {
            return Err(LogError::MaxSegmentsReached);
        }
        let size: usize = HEADER_SIZE + payload.len();
        self.make_room(size)?;
        let ghost was = *self;
        let ghost item = LogItem {
            seg: was.active_seg as nat,
            offset: was.write_cursor as nat,
            id,
            timestamp,
            payload: payload@,
            size: size as nat,
        };
        let mut bytes: Vec<u8> = Vec::with_capacity(size);
        push_le(&mut bytes, id, 8);
        push_le(&mut bytes, timestamp, 8);
        push_le(&mut bytes, payload.len() as u64, 4);
        push_bytes(&mut bytes, payload);
        proof {
            lemma_item_in(item);
            assert(bytes@ =~= item.raw());
        }
        let at: usize = self.write_cursor;
        overwrite_bytes(&mut self.segs[self.active_seg], at, bytes.as_slice());
        let loc = EntryLoc { segment_idx: self.active_seg, offset: at, len: size };
        self.idx.insert(id, loc);
        self.write_cursor = at + size;
        proof {
            was.lemma_index();
        }
        self.entry_count = self.entry_count + 1;
        proof {
            let seg = self.segs@[self.active_seg as int]@;
            assert(seg.subrange(at as int, at + size) =~= bytes@);
            assert(bytes_at(self.segs@, loc) == item.raw());
            assert(item_at(self.segs@, loc) == item);
            assert forall|k: u64| #[trigger] was.idx@.contains_key(k) implies {
                &&& loc_ok(self.segs@, self.active_seg, self.write_cursor, was.idx@[k])
                &&& item_at(self.segs@, was.idx@[k]) == item_at(was.segs@, was.idx@[k])
            } by {
                let l = was.idx@[k];
                assert(loc_ok(was.segs@, was.active_seg, was.write_cursor, l));
                if l.segment_idx == was.active_seg {
                    assert(self.segs@[l.segment_idx as int]@.subrange(
                        l.offset as int,
                        l.offset + l.len,
                    ) =~= was.segs@[l.segment_idx as int]@.subrange(
                        l.offset as int,
                        l.offset + l.len,
                    ));
                } else {
                    assert(self.segs@[l.segment_idx as int] == was.segs@[l.segment_idx as int]);
                }
                assert(bytes_at(self.segs@, l) == bytes_at(was.segs@, l));
            }
            assert forall|i: int| 0 <= i < self.segs@.len() implies (
            #[trigger] self.segs@[i])@.len() == SEGMENT_SIZE by {
                if i != was.active_seg {
                    assert(self.segs@[i] == was.segs@[i]);
                }
            }
            was.idx.lemma_ids();
            self.idx.lemma_ids();
            assert(self.idx@.dom() =~= was.idx@.dom().insert(id));
            assert(self@.entries =~= was@.entries.insert(id, item));
        }
        Ok(())
    }

    /// Appends an entry and gives it the next id. A log that has refused an entry for want of a
    /// segment refuses every entry.
    pub fn append(&mut self, timestamp: u64, payload: &[u8]) -> (r: Result<u64, LogError>)
        requires
            old(self).wf(),
        ensures
            final(self).wf(),
            final(self).name() == old(self).name(),
            match r {
                Ok(id) => {
                    &&& old(self)@.takes(payload@)
                    &&& id == old(self)@.next_id
                    &&& final(self)@ == old(self)@.pushed(timestamp, payload@)
                },
                Err(e) => {
                    &&& e == refusal(payload@)
                    &&& !old(self)@.takes(payload@)
                    &&& final(self)@ == old(self)@.refused(payload@)
                },
            },
    {
        let id: u64 = self.next_id;
        self.write_entry(id, timestamp, payload)?;
        let ghost was = *self;
        self.next_id = self.next_id.wrapping_add(1);
        assert(self@.entries =~= was@.entries);
        Ok(id)
    }

    /// Appends an entry under an id that is given. The id that comes next is above it. A log that
    /// has refused an entry for want of a segment refuses every entry.
    pub fn append_with_id(&mut self, id: u64, timestamp: u64, data: &[u8]) -> (r: Result<
        u64,
        LogError,
    >)
        requires
            old(self).wf(),
        ensures
            final(self).wf(),
            final(self).name() == old(self).name(),
            match r {
                Ok(got) => {
                    &&& old(self)@.takes(data@)
                    &&& got == id
                    &&& final(self)@ == old(self)@.put(id, timestamp, data@)
                },
                Err(e) => {
                    &&& e == refusal(data@)
                    &&& !old(self)@.takes(data@)
                    &&& final(self)@ == old(self)@.refused(data@)
                },
            },
    {
        self.write_entry(id, timestamp, data)?;
        let ghost was = *self;
        if id >= self.next_id {
            self.next_id = id.wrapping_add(1);
        }
        assert(self@.entries =~= was@.entries);
        Ok(id)
    }

    /// Reads the entry with the given id: its id, timestamp and payload.
    pub fn read(&self, entry_id: u64) -> (r: Result<(u64, u64, Vec<u8>), LogError>)
        requires
            self.wf(),
        ensures
            match r {
                Ok(e) => {
                    &&& self@.entries.contains_key(entry_id)
                    &&& (e.0, e.1, e.2@) == self@.entries[entry_id].triple()
                },
                Err(e) => e == LogError::EntryNotFound && !self@.entries.contains_key(entry_id),
            },
    {
        let loc: EntryLoc = match self.idx.get(entry_id) {
            Some(loc) => loc,
            None => {
                return Err(LogError::EntryNotFound);
            },
        };
        let seg = self.segs[loc.segment_idx].as_slice();
        let id: u64 = read_le(seg, loc.offset, 8);
        let ts: u64 = read_le(seg, loc.offset + 8, 8);
        let len: usize = read_le(seg, loc.offset + 16, 4) as usize;
        let start: usize = loc.offset + HEADER_SIZE;
        proof {
            let bytes = bytes_at(self.segs@, loc);
            assert(seg@.subrange(loc.offset as int, loc.offset + 8) =~= bytes.subrange(0, 8));
            assert(seg@.subrange(loc.offset + 8, loc.offset + 16) =~= bytes.subrange(8, 16));
            assert(seg@.subrange(loc.offset + 16, loc.offset + 20) =~= bytes.subrange(16, 20));
            assert(seg@.subrange(start as int, start + len) =~= bytes.subrange(20, 20 + len as int));
        }
        let payload = copy_bytes(vstd::slice::slice_subrange(seg, start, start + len));
        Ok((id, ts, payload))
    }

    /// Reads the entries with ids from `start` up to and with `end`.
    pub fn read_range(&self, start: u64, end: u64) -> (r: Vec<(u64, u64, Vec<u8>)>)
        requires
            self.wf(),
            start <= end,
        ensures
            triples_view(r@) == self@.range(start, end),
    {
        let mut r: Vec<(u64, u64, Vec<u8>)> = Vec::new();
        let from: usize = self.idx.lower_bound(start);
        let mut i: usize = from;
        proof {
            self.idx.lemma_ids();
        }
        while i < self.idx.len() && self.idx.at(i).0 <= end
            invariant
                self.wf(),
                crate::idindex::ascending(self.idx.ids()),
                from <= i <= self.idx.ids().len(),
                forall|j: int| 0 <= j < i ==> #[trigger] self.idx.ids()[j] <= end || j < from,
                r@.len() == i - from,
                forall|j: int|
                    0 <= j < r@.len() ==> (#[trigger] triples_view(r@)[j])
                        == self@.entries[self.idx.ids()[from + j]].triple(),
            decreases self.idx.ids().len() - i,
        {
            let id: u64 = self.idx.at(i).0;
            let ghost before = r@;
            if let Ok(entry) = self.read(id) {
                r.push(entry);
            }
            proof {
                assert forall|j: int| 0 <= j < r@.len() implies (#[trigger] triples_view(r@)[j])
                    == self@.entries[self.idx.ids()[from + j]].triple() by {
                    if j < before.len() {
                        assert(triples_view(r@)[j] == triples_view(before)[j]);
                    }
                }
            }
            i = i + 1;
        }
        proof {
            let ids = self.idx.ids();
            let got = ids.subrange(from as int, i as int);
            assert(are_ids_between(
                self@.entries,
                start as int,
                end as int,
                got,
            )) by {
                assert forall|id: u64| #[trigger] got.contains(id) <==> self@.entries.contains_key(
                    id,
                ) && start <= id && id <= end by {
                    if got.contains(id) {
                        let j = got.index_of(id);
                        assert(ids[from + j] == id);
                        assert(ids.contains(id));
                    }
                    if self@.entries.contains_key(id) && start <= id && id <= end {
                        assert(self.idx@.contains_key(id));
                        assert(ids.contains(id));
                        let j = ids.index_of(id);
                        assert(ids[j] == id);
                        if j >= i {
                            assert(ids[i as int] <= ids[j]);
                        }
                        assert(got[j - from] == id);
                    }
                }
            }
            crate::idindex::lemma_ids_between(self@.entries, start as int, end as int, got);
            assert(triples_view(r@) =~= self@.range(start, end));
        }
        r
    }

    /// Drops the entries below `cutoff_id`, zeroes the segments before that of the first entry
    /// which is kept, and gives the ids that were dropped.
    pub fn trim(&mut self, cutoff_id: u64) -> (r: Vec<u64>)
        requires
            old(self).wf(),
        ensures
            final(self).wf(),
            final(self).name() == old(self).name(),
            final(self)@ == old(self)@.trimmed(cutoff_id),
            r@ == ids_between(old(self)@.entries, 0, cutoff_id - 1),
    {
        let ghost was = *self;
        proof {
            was.lemma_index();
            was.idx.lemma_ids();
        }
        let removed = self.idx.remove_below(cutoff_id);
        proof {
            self.idx.lemma_ids();
            lemma_same_ids(was.idx@, was@.entries, 0, cutoff_id - 1, removed@);
            lemma_same_ids(
                self.idx@,
                was@.kept(cutoff_id),
                0,
                u64::MAX as int,
                self.idx.ids(),
            );
            assert(was@.entries.dom() =~= was.idx@.dom());
        }
        self.entry_count = self.entry_count - removed.len() as u64;
        let live: usize = if self.idx.len() > 0 {
            self.idx.at(0).1.segment_idx
        } else {
            0
        };
        let ghost kept = was@.kept(cutoff_id);
        proof {
            assert(live as nat == was@.first_live(cutoff_id));
            if self.idx.ids().len() > 0 {
                let id = self.idx.ids()[0];
                assert(self.idx.ids().contains(id));
                assert(was.idx@.contains_key(id));
            }
        }
        let ghost mid = *self;
        let mut s: usize = 0;
        while s < live
            invariant
                s <= live <= self.segs@.len(),
                live <= was.segs@.len(),
                self.segs@.len() == was.segs@.len(),
                *self == (SegLog { segs: self.segs, ..mid }),
                forall|i: int| 0 <= i < s ==> (#[trigger] self.segs@[i])@ == zeros(SEGMENT_SIZE as nat),
                forall|i: int| s <= i < self.segs@.len() ==> #[trigger] self.segs@[i] == was.segs@[i],
            decreases live - s,
        {
            self.segs[s] = zeroed_bytes(SEGMENT_SIZE);
            s = s + 1;
        }
        proof {
            assert forall|id: u64| #[trigger] self.idx@.contains_key(id) implies {
                &&& loc_ok(self.segs@, self.active_seg, self.write_cursor, self.idx@[id])
                &&& item_at(self.segs@, self.idx@[id]) == (if kept[id].seg < live {
                    kept[id].zeroed()
                } else {
                    kept[id]
                })
            } by {
                assert(was.idx@.contains_key(id));
                let loc = was.idx@[id];
                assert(loc_ok(was.segs@, was.active_seg, was.write_cursor, loc));
                assert(kept[id] == item_at(was.segs@, loc));
                if loc.segment_idx < live {
                    assert(self.segs@[loc.segment_idx as int]@ == zeros(SEGMENT_SIZE as nat));
                    assert(bytes_at(self.segs@, loc) =~= zeros(loc.len as nat));
                    lemma_zero_item(kept[id]);
                    lemma_item_in(kept[id].zeroed());
                } else {
                    assert(self.segs@[loc.segment_idx as int] == was.segs@[loc.segment_idx as int]);
                }
            }
            assert forall|i: int| 0 <= i < self.segs@.len() implies (
            #[trigger] self.segs@[i])@.len() == SEGMENT_SIZE by {
                if i >= s {
                    assert(self.segs@[i] == was.segs@[i]);
                }
            }
            assert(self@.entries =~= was@.trimmed(cutoff_id).entries);
            assert(kept.dom() =~= self.idx@.dom());
        }
        removed
    }

    /// Takes note of the log as it is, so that an append can be taken back.
    pub fn mark(&self) -> (r: LogMark)
        requires
            self.wf(),
        ensures
            r.marks(self@),
    {
        if self.idx.get(self.next_id).is_some() {
            return LogMark::Whole(self.copy());
        }
        LogMark::Place {
            active: self.active_seg,
            cursor: self.write_cursor,
            next_id: self.next_id,
            count: self.entry_count,
            segs: self.segs.len(),
        }
    }

    /// A copy of the log.
    pub fn copy(&self) -> (r: SegLog)
        requires
            self.wf(),
        ensures
            r.wf(),
            r@ == self@,
            r.name() == self.name(),
    {
        let segs = copy_vecs(&self.segs);
        let r = SegLog {
            identifier: copy_str(self.identifier.as_str()),
            segs,
            active_seg: self.active_seg,
            write_cursor: self.write_cursor,
            idx: self.idx.copy(),
            next_id: self.next_id,
            entry_count: self.entry_count,
        };
        proof {
            assert(vecs_view(segs@).len() == vecs_view(self.segs@).len());
            assert forall|i: int| 0 <= i < segs@.len() implies (#[trigger] segs@[i])@
                == self.segs@[i]@ by {
                assert(vecs_view(segs@)[i] == vecs_view(self.segs@)[i]);
            }
            assert forall|id: u64| #[trigger] self.idx@.contains_key(id) implies {
                &&& loc_ok(r.segs@, r.active_seg, r.write_cursor, r.idx@[id])
                &&& item_at(r.segs@, r.idx@[id]) == item_at(self.segs@, self.idx@[id])
            } by {
                let loc = self.idx@[id];
                assert(bytes_at(r.segs@, loc) == bytes_at(self.segs@, loc));
            }
            assert(r@.entries =~= self@.entries);
        }
        r
    }

    /// Takes back what was appended since the log was `was`: an entry under the id that came next,
    /// or nothing.
    pub fn rewind(&mut self, mark: LogMark, Ghost(was): Ghost<LogView>)
        requires
            old(self).wf(),
            was.wf(),
            mark.marks(was),
            was.segs <= old(self)@.segs,
            old(self)@.entries.remove(was.next_id) == was.entries.remove(was.next_id),
        ensures
            final(self).wf(),
            final(self).name() == old(self).name(),
            final(self)@ == was,
    {
        let ghost now = *self;
        match mark {
            LogMark::Whole(log) => {
                self.segs = log.segs;
                self.active_seg = log.active_seg;
                self.write_cursor = log.write_cursor;
                self.idx = log.idx;
                self.next_id = log.next_id;
                self.entry_count = log.entry_count;
                assert(self@.entries =~= log@.entries);
            },
            LogMark::Place { active, cursor, next_id, count, segs } => {
                self.idx.remove(next_id);
                self.segs.truncate(segs);
                self.active_seg = active;
                self.write_cursor = cursor;
                self.next_id = next_id;
                self.entry_count = count;
                proof {
                    assert(was.entries.remove(next_id) =~= was.entries);
                    assert(now@.entries.remove(next_id) == was.entries);
                    assert forall|id: u64| #[trigger] self.idx@.contains_key(id) implies {
                        &&& was.entries.contains_key(id)
                        &&& loc_ok(self.segs@, self.active_seg, self.write_cursor, self.idx@[id])
                        &&& item_at(self.segs@, self.idx@[id]) == was.entries[id]
                    } by {
                        assert(now.idx@.contains_key(id));
                        assert(now@.entries.remove(next_id).contains_key(id));
                        let loc = now.idx@[id];
                        assert(loc_ok(now.segs@, now.active_seg, now.write_cursor, loc));
                        assert(was.entries[id] == item_at(now.segs@, loc));
                        assert(was.entries[id].ends_before(was.active, was.cursor));
                        assert(bytes_at(now.segs@, loc).len() == loc.len);
                        assert(self.segs@[loc.segment_idx as int]
                            == now.segs@[loc.segment_idx as int]);
                        assert(bytes_at(self.segs@, loc) == bytes_at(now.segs@, loc));
                    }
                    assert forall|id: u64| #[trigger] was.entries.contains_key(id) implies
                        self.idx@.contains_key(id) by {
                        assert(now@.entries.remove(next_id).contains_key(id));
                    }
                    assert(self@.entries =~= was.entries);
                    assert(self.idx@.dom() =~= was.entries.dom());
                    self.idx.lemma_ids();
                }
            },
        }
    }

    /// Whether there is an entry of which nothing is left but zeros.
    pub fn has_wiped(&self) -> (r: bool)
        requires
            self.wf(),
        ensures
            r == exists|id: u64| #[trigger]
                self@.entries.contains_key(id) && self@.entries[id].wiped(),
    {
        let mut i: usize = 0;
        proof {
            self.idx.lemma_ids();
        }
        while i < self.idx.len()
            invariant
                self.wf(),
                i <= self.idx.ids().len(),
                forall|j: int|
                    0 <= j < i ==> !self@.entries[#[trigger] self.idx.ids()[j]].wiped(),
            decreases self.idx.ids().len() - i,
        {
            let (id, loc) = self.idx.at(i);
            assert(loc_ok(self.segs@, self.active_seg, self.write_cursor, loc));
            let seg = self.segs[loc.segment_idx].as_slice();
            proof {
                let bytes = bytes_at(self.segs@, loc);
                assert(seg@.subrange(loc.offset as int, loc.offset + 8) =~= bytes.subrange(0, 8));
                assert(seg@.subrange(loc.offset + 8, loc.offset + 16) =~= bytes.subrange(8, 16));
                assert(seg@.subrange(loc.offset + 16, loc.offset + 20) =~= bytes.subrange(16, 20));
            }
            if read_le(seg, loc.offset, 8) == 0 && read_le(seg, loc.offset + 8, 8) == 0 && read_le(
                seg,
                loc.offset + 16,
                4,
            ) == 0 {
                assert(self@.entries.contains_key(id));
                return true;
            }
            i = i + 1;
        }
        proof {
            assert forall|id: u64| #[trigger] self@.entries.contains_key(id) implies
                !self@.entries[id].wiped() by {
                assert(self.idx@.contains_key(id));
                let j = self.idx.ids().index_of(id);
                assert(self.idx.ids()[j] == id);
            }
        }
        false
    }

    /// The entries in the order of their ids: id, timestamp, length of the payload, payload.
    pub fn entries(&self) -> (r: Vec<(u64, u64, u64, Vec<u8>)>)
        requires
            self.wf(),
        ensures
            quads_view(r@) == self@.listed(),
    {
        let mut r: Vec<(u64, u64, u64, Vec<u8>)> = Vec::new();
        let mut i: usize = 0;
        proof {
            self.lemma_index();
        }
        while i < self.idx.len()
            invariant
                self.wf(),
                self.idx.ids() == all_ids(self@.entries),
                i <= self.idx.ids().len(),
                quads_view(r@) =~= self@.listed().take(i as int),
            decreases self.idx.ids().len() - i,
        {
            let id: u64 = self.idx.at(i).0;
            let ghost before = r@;
            match self.read(id) {
                Ok(e) => {
                    let len: u64 = e.2.len() as u64;
                    r.push((id, e.1, len, e.2));
                    proof {
                        assert(self.idx.ids().contains(id));
                        assert(quads_view(r@) =~= quads_view(before).push((id, e.1, len, e.2@)));
                        assert(self@.listed().take(i + 1) =~= self@.listed().take(i as int).push(
                            self@.listed()[i as int],
                        ));
                    }
                },
                Err(_) => {
                    assert(self@.entries.contains_key(id));
                },
            }
            i = i + 1;
        }
        assert(self@.listed().take(i as int) =~= self@.listed());
        r
    }

    /// The bytes of an entry.
    pub fn get_raw_entry_slice(&self, entry_id: u64) -> (r: Result<&[u8], &'static str>)
        requires
            self.wf(),
        ensures
            match r {
                Ok(b) => {
                    &&& self@.entries.contains_key(entry_id)
                    &&& b@ == self@.entries[entry_id].raw()
                },
                Err(e) => e@ == "entry not found"@ && !self@.entries.contains_key(entry_id),
            },
    {
        match self.idx.get(entry_id) {
            Some(loc) => Ok(
                vstd::slice::slice_subrange(
                    self.segs[loc.segment_idx].as_slice(),
                    loc.offset,
                    loc.offset + loc.len,
                ),
            ),
            None => Err("entry not found"),
        }
    }

    pub fn total_entries(&self) -> (n: u64)
        ensures
            n == self@.count,
    {
        self.entry_count
    }

    pub fn total_segments(&self) -> (n: usize)
        ensures
            n == self@.segs,
    {
        self.segs.len()
    }

    /// How many bytes of the segment that is being filled are taken.
    pub fn active_segment_bytes(&self) -> (n: usize)
        ensures
            n == self@.cursor,
    {
        self.write_cursor
    }

    pub fn next_id(&self) -> (id: u64)
        ensures
            id == self@.next_id,
    {
        self.next_id
    }

    pub fn identifier(&self) -> (r: &str)
        ensures
            r@ == self.name(),
    {
        self.identifier.as_str()
    }
}

/// Maps with the same keys have the same ids in a range.
proof fn lemma_same_ids<A, B>(a: Map<u64, A>, b: Map<u64, B>, lo: int, hi: int, ids: Seq<u64>)
    requires
        a.dom() =~= b.dom(),
        are_ids_between(a, lo, hi, ids),
    ensures
        are_ids_between(b, lo, hi, ids),
        ids_between(b, lo, hi) == ids,
{
    assert forall|id: u64| a.contains_key(id) == b.contains_key(id) by {
        assert(a.dom().contains(id) == b.dom().contains(id));
    }
    crate::idindex::lemma_ids_between(b, lo, hi, ids);
}

/// The error of an append that does not succeed.
pub open spec fn refusal(payload: Seq<u8>) -> LogError {
    if HEADER_SIZE + payload.len() > SEGMENT_SIZE {
        LogError::EntryTooLarge
    } else {
        LogError::MaxSegmentsReached
    }
}

/// The operations keep a view well-formed, an append that is refused keeps the entries, and an
/// append puts the entry under its own id and counts it once.
pub proof fn law_log_stays_wf(log: LogView, id: u64, timestamp: u64, payload: Seq<u8>, next_id: u64, cutoff: u64)
    requires
        log.wf(),
    ensures
        log.takes(payload) ==> log.appended(id, timestamp, payload, next_id).wf(),
        log.refused(payload).wf(),
        log.refused(payload).entries == log.entries,
        log.keeps_ids() ==> log.appended(id, timestamp, payload, next_id).keeps_ids(),
        log.count == log.entries.len() && !log.entries.contains_key(id) ==> log.appended(
            id,
            timestamp,
            payload,
            next_id,
        ).count == log.appended(id, timestamp, payload, next_id).entries.len(),
        log.trimmed(cutoff).wf(),
{
    let size = HEADER_SIZE as nat + payload.len();
    if log.takes(payload) {
        let new = log.appended(id, timestamp, payload, next_id);
        assert(new.entries.dom() =~= log.entries.dom().insert(id));
    }
    let kept = log.kept(cutoff);
    let new = log.trimmed(cutoff);
    assert(kept.dom() =~= log.entries.dom().intersect(Set::new(|k: u64| k >= cutoff)));
    vstd::set_lib::lemma_len_intersect(log.entries.dom(), Set::new(|k: u64| k >= cutoff));
    assert(new.entries.dom() =~= kept.dom());
    assert forall|k: u64| #[trigger] new.entries.contains_key(k) implies new.entries[k].wf()
        && new.entries[k].ends_before(new.active, new.cursor) by {
        assert(log.entries.contains_key(k));
    }
}

/// What was appended is read back under the id that the append gave, and every other entry is
/// read as before.
pub proof fn law_log_append_then_read(log: LogView, timestamp: u64, payload: Seq<u8>, other: u64)
    requires
        log.wf(),
        log.takes(payload),
        other != log.next_id,
    ensures
        log.pushed(timestamp, payload).entries.contains_key(log.next_id),
        log.pushed(timestamp, payload).entries[log.next_id].triple() == (
            log.next_id,
            timestamp,
            payload,
        ),
        log.pushed(timestamp, payload).entries.contains_key(other)
            == log.entries.contains_key(other),
        log.pushed(timestamp, payload).entries[other] == log.entries[other],
{
}

/// The bytes of an entry that was appended are its id, its timestamp, the length of its
/// payload and its payload.
pub proof fn law_log_wire_form(log: LogView, timestamp: u64, payload: Seq<u8>)
    requires
        log.takes(payload),
    ensures
        log.pushed(timestamp, payload).entries[log.next_id].raw() == le_bytes(
            log.next_id as nat,
            8,
        ) + le_bytes(timestamp as nat, 8) + le_bytes(payload.len(), 4) + payload,
{
    let item = log.pushed(timestamp, payload).entries[log.next_id];
    let head = le_bytes(log.next_id as nat, 8) + le_bytes(timestamp as nat, 8) + le_bytes(
        payload.len(),
        4,
    ) + payload;
    assert(zeros(0) =~= Seq::empty());
    assert(item.raw() =~= head);
}

/// A log that is filled in the order of ids stays orderly: a new log is, and so is one after an
/// append under the next id or a later one, after a refusal, and after a trim. The ids that are given grow: trimmed
/// ids do not come back. The count of an orderly log is the number of its entries.
pub proof fn law_log_orderly(log: LogView, id: u64, timestamp: u64, payload: Seq<u8>, cutoff: u64)
    requires
        log.wf(),
        log.orderly(),
        log.takes(payload),
        log.next_id <= id < u64::MAX,
    ensures
        LogView::empty().orderly(),
        log.put(id, timestamp, payload).orderly(),
        log.pushed(timestamp, payload).orderly(),
        log.pushed(timestamp, payload).next_id > log.next_id,
        log.pushed(timestamp, payload) == log.put(log.next_id, timestamp, payload),
        forall|other: Seq<u8>| #[trigger] log.refused(other).orderly(),
        log.trimmed(cutoff).orderly(),
        log.trimmed(cutoff).next_id == log.next_id,
        log.count == log.entries.len(),
        log.trimmed(cutoff).count == log.trimmed(cutoff).entries.len(),
{
    law_log_trim(log, cutoff, 0);
    let kept = log.kept(cutoff);
    assert(kept.dom().subset_of(log.entries.dom()));
    vstd::set_lib::lemma_len_subset(kept.dom(), log.entries.dom());
    assert forall|a: u64, b: u64|
        #![trigger kept[a], kept[b]]
        kept.contains_key(a) && kept.contains_key(b) && a < b implies kept[a].ends_before(
        kept[b].seg,
        kept[b].offset,
    ) by {
        assert(log.entries.contains_key(a) && log.entries.contains_key(b));
        assert(log.entries[a] == kept[a] && log.entries[b] == kept[b]);
    }
    assert forall|k: u64| #[trigger] log.trimmed(cutoff).entries.contains_key(k) implies log.trimmed(
        cutoff,
    ).entries[k].id == k && 0 < k < log.next_id by {
        assert(log.entries.contains_key(k));
    }
    lemma_put_orderly(log, id, timestamp, payload);
    lemma_put_orderly(log, log.next_id, timestamp, payload);
}

proof fn lemma_put_orderly(log: LogView, id: u64, timestamp: u64, payload: Seq<u8>)
    requires
        log.wf(),
        log.orderly(),
        log.takes(payload),
        log.next_id <= id < u64::MAX,
    ensures
        log.put(id, timestamp, payload).orderly(),
{
    let new = log.put(id, timestamp, payload);
    assert(!log.entries.contains_key(id));
    assert forall|k: u64| #[trigger] new.entries.contains_key(k) implies new.entries[k].id == k && 0 < k
        < new.next_id by {
        if k != id {
            assert(log.entries.contains_key(k));
        }
    }
    assert forall|a: u64, b: u64|
        #![trigger new.entries[a], new.entries[b]]
        new.entries.contains_key(a) && new.entries.contains_key(b) && a
            < b implies new.entries[a].ends_before(new.entries[b].seg, new.entries[b].offset) by {
        if a != id {
            assert(log.entries.contains_key(a));
        }
        if b != id {
            assert(log.entries.contains_key(b));
        }
        if a != id && b != id {
            assert(log.entries[a].ends_before(log.entries[b].seg, log.entries[b].offset));
        }
    }
}

/// Trimming an orderly log drops exactly the entries below the cutoff and leaves the others as
/// they are.
pub proof fn law_log_trim(log: LogView, cutoff: u64, id: u64)
    requires
        log.wf(),
        log.orderly(),
    ensures
        log.trimmed(cutoff).entries == log.kept(cutoff),
        log.trimmed(cutoff).entries.contains_key(id) <==> log.entries.contains_key(id) && id
            >= cutoff,
{
    let kept = log.kept(cutoff);
    let live = log.first_live(cutoff);
    assert(kept.dom() =~= log.entries.dom().intersect(Set::new(|k: u64| k >= cutoff)));
    lemma_ids_exist(kept);
    let ids = all_ids(kept);
    assert forall|k: u64| #[trigger] kept.contains_key(k) implies kept[k].seg >= live by {
        assert(ids.contains(k));
        let i = ids.index_of(k);
        assert(ids[i] == k);
        assert(ids.contains(ids[0]));
        assert(kept.contains_key(ids[0]));
        if i > 0 {
            assert(ids[0] < ids[i]);
            assert(log.entries[ids[0]].ends_before(log.entries[k].seg, log.entries[k].offset));
        }
    }
    assert(log.trimmed(cutoff).entries =~= kept);
}

/// A range of ids, cut in two, gives what its parts give, one behind the other. A range of one id
/// gives the entry with that id, if there is one. So a range gives the entries with its ids, each
/// once, in the order of the ids, and no others.
pub proof fn law_log_range(log: LogView, start: u64, middle: u64, end: u64)
    requires
        log.wf(),
        start <= middle < end,
    ensures
        log.range(start, end) == log.range(start, middle) + log.range((middle + 1) as u64, end),
        log.entries.contains_key(start) ==> log.range(start, start) == seq![
            log.entries[start].triple(),
        ],
        !log.entries.contains_key(start) ==> log.range(start, start) == Seq::<
            (u64, u64, Seq<u8>),
        >::empty(),
{
    let m = log.entries;
    let a = ids_between(m, start as int, middle as int);
    let b = ids_between(m, middle + 1, end as int);
    crate::idindex::lemma_ids_between_exist(m, start as int, middle as int);
    crate::idindex::lemma_ids_between_exist(m, middle + 1, end as int);
    let all = a + b;
    assert(are_ids_between(m, start as int, end as int, all)) by {
        assert forall|i: int, j: int| 0 <= i < j < all.len() implies #[trigger] all[i]
            < #[trigger] all[j] by {
            if i < a.len() && j >= a.len() {
                assert(a.contains(a[i]));
                assert(b.contains(b[j - a.len()]));
            }
        }
        assert forall|id: u64| #[trigger] all.contains(id) <==> m.contains_key(id) && start <= id
            && id <= end by {
            if all.contains(id) {
                let i = all.index_of(id);
                assert(all[i] == id);
                if i < a.len() {
                    assert(a[i] == id);
                    assert(a.contains(id));
                } else {
                    assert(b[i - a.len()] == id);
                    assert(b.contains(id));
                }
            }
            if m.contains_key(id) && start <= id && id <= end {
                if id <= middle {
                    assert(a.contains(id));
                    assert(all[a.index_of(id)] == id);
                } else {
                    assert(b.contains(id));
                    assert(all[a.len() + b.index_of(id)] == id);
                }
            }
        }
    }
    crate::idindex::lemma_ids_between(m, start as int, end as int, all);
    assert(log.range(start, end) =~= log.range(start, middle) + log.range(
        (middle + 1) as u64,
        end,
    ));
    let one = if m.contains_key(start) {
        seq![start]
    } else {
        Seq::<u64>::empty()
    };
    assert(are_ids_between(m, start as int, start as int, one)) by {
        if m.contains_key(start) {
            assert(one[0] == start);
        }
    }
    crate::idindex::lemma_ids_between(m, start as int, start as int, one);
    if m.contains_key(start) {
        assert(log.range(start, start) =~= seq![log.entries[start].triple()]);
    } else {
        assert(log.range(start, start) =~= Seq::<(u64, u64, Seq<u8>)>::empty());
    }
}

/// All entries of a log are listed, each once, in the order of their ids, with their own timestamp,
/// the length of their payload, and their payload.
pub proof fn law_log_listed(log: LogView, id: u64, i: int, j: int)
    requires
        log.wf(),
    ensures
        log.listed().len() == log.entries.len(),
        0 <= i < j < log.listed().len() ==> log.listed()[i].0 < log.listed()[j].0,
        0 <= i < log.listed().len() ==> {
            let e = log.listed()[i];
            &&& log.entries.contains_key(e.0)
            &&& e.1 == log.entries[e.0].timestamp
            &&& e.3 == log.entries[e.0].payload
            &&& e.2 == e.3.len()
        },
        log.entries.contains_key(id) ==> exists|k: int|
            0 <= k < log.listed().len() && (#[trigger] log.listed()[k]).0 == id,
{
    let ids = all_ids(log.entries);
    lemma_ids_exist(log.entries);
    assert(ids.no_duplicates());
    ids.unique_seq_to_set();
    assert(ids.to_set() =~= log.entries.dom());
    if 0 <= i < ids.len() {
        assert(ids.contains(ids[i]));
        assert(log.entries[ids[i]].wf());
    }
    if log.entries.contains_key(id) {
        assert(ids.contains(id));
        let k = ids.index_of(id);
        assert(log.listed()[k].0 == id);
    }
}

/// The ids that an append gives follow one on the other. An append under a given id puts the entry
/// under that id, leaves every other entry as it is, and moves the id that comes next behind it, but
/// never back.
pub proof fn law_log_ids(log: LogView, id: u64, timestamp: u64, payload: Seq<u8>, other: u64)
    requires
        other != id,
    ensures
        log.next_id < u64::MAX ==> log.pushed(timestamp, payload).next_id == log.next_id + 1,
        log.put(id, timestamp, payload).entries.contains_key(id),
        log.put(id, timestamp, payload).entries[id].triple() == (id, timestamp, payload),
        log.put(id, timestamp, payload).entries.contains_key(other) == log.entries.contains_key(
            other,
        ),
        log.put(id, timestamp, payload).entries[other] == log.entries[other],
        id < log.next_id ==> log.put(id, timestamp, payload).next_id == log.next_id,
        log.next_id <= id < u64::MAX ==> log.put(id, timestamp, payload).next_id == id + 1,
        log.pushed(timestamp, payload).count == log.count + 1,
        log.put(id, timestamp, payload).count == log.count + 1,
{
}

/// An entry is written behind the last one where the segment has room for it, and at the start of
/// the next segment where it has not. A segment is added only where there is no next one, and an
/// entry takes up its header and its payload.
pub proof fn law_log_space(log: LogView, timestamp: u64, payload: Seq<u8>)
    requires
        log.wf(),
        log.takes(payload),
    ensures
        ({
            let new = log.pushed(timestamp, payload);
            let e = new.entries[log.next_id];
            &&& e.size == 20 + payload.len()
            &&& new.active == e.seg && new.cursor == e.offset + e.size
            &&& e.seg < new.segs
            &&& if log.cursor + 20 + payload.len() <= 65536 {
                e.seg == log.active && e.offset == log.cursor && new.segs == log.segs
            } else {
                &&& e.seg == log.active + 1 && e.offset == 0
                &&& new.segs == (if log.active + 1 == log.segs {
                    log.segs + 1
                } else {
                    log.segs
                })
            }
        }),
{
}

/// A log takes an entry unless it is longer than a segment, or the log has all the segments that
/// there can be and no room in the last.
pub proof fn law_log_takes(log: LogView, payload: Seq<u8>)
    requires
        log.wf(),
    ensures
        20 + payload.len() > 65536 ==> !log.takes(payload),
        20 + payload.len() <= 65536 && log.segs < 1024 * 1024 * 1024 ==> log.takes(payload),
        20 + payload.len() <= 65536 && log.active + 1 < log.segs ==> log.takes(payload),
        20 + payload.len() <= 65536 && log.active < log.segs && log.cursor + 20 + payload.len()
            <= 65536 ==> log.takes(payload),
{
}

/// Trimming a log drops the entries with ids below the cutoff, and counts them off. An entry from the
/// cutoff on keeps its place, and one of an orderly log keeps what it says. The id that comes next,
/// and where it will stand, stay as they are.
pub proof fn law_log_trim_keeps(log: LogView, cutoff: u64, id: u64)
    requires
        log.wf(),
    ensures
        ({
            let new = log.trimmed(cutoff);
            &&& new.entries.contains_key(id) <==> log.entries.contains_key(id) && id >= cutoff
            &&& new.entries.contains_key(id) ==> {
                &&& new.entries[id].seg == log.entries[id].seg
                &&& new.entries[id].offset == log.entries[id].offset
                &&& new.entries[id].size == log.entries[id].size
            }
            &&& new.entries.contains_key(id) && log.orderly() ==> new.entries[id].triple()
                == log.entries[id].triple()
            &&& log.count - new.count == log.entries.len() - new.entries.len()
            &&& new.next_id == log.next_id && new.segs == log.segs && new.active == log.active
                && new.cursor == log.cursor
        }),
{
    let kept = log.kept(cutoff);
    assert(kept.dom() =~= log.entries.dom().intersect(Set::new(|k: u64| k >= cutoff)));
    assert(log.trimmed(cutoff).entries.dom() =~= kept.dom());
    vstd::set_lib::lemma_len_subset(kept.dom(), log.entries.dom());
    if log.orderly() {
        law_log_trim(log, cutoff, id);
    }
}

/// An entry that is appended is read back under the id that the append gave, with its timestamp and its
/// payload. The next append gives the id behind it, and counts one more.
pub proof fn law_append_then_read(
    first: &mut SegLog,
    second: &SegLog,
    timestamp: u64,
    payload: &[u8],
    appending: Result<u64, LogError>,
    reading: Result<(u64, u64, Vec<u8>), LogError>,
    next: u64,
    total: u64,
    total_before: u64,
    before: &SegLog,
)
    requires
        call_ensures(SegLog::append, (first, timestamp, payload), appending),
        appending is Ok,
        call_ensures(SegLog::read, (second, appending->Ok_0), reading),
        call_ensures(SegLog::next_id, (second,), next),
        call_ensures(SegLog::total_entries, (second,), total),
        call_ensures(SegLog::total_entries, (before,), total_before),
        before@ == old(first)@,
        final(first)@ == second@,
    ensures
        reading matches Ok(e) && e.0 == appending->Ok_0 && e.1 == timestamp && e.2@ == payload@,
        appending->Ok_0 < u64::MAX ==> next == appending->Ok_0 + 1,
        total == total_before + 1,
        final(first).name() == old(first).name(),
{
}

/// An entry that is appended under an id is read back under that id, with its timestamp and its payload,
/// and every other entry is read back as before.
pub proof fn law_append_with_id_then_read(
    before: &SegLog,
    first: &mut SegLog,
    second: &SegLog,
    id: u64,
    timestamp: u64,
    payload: &[u8],
    other: u64,
    appending: Result<u64, LogError>,
    reading: Result<(u64, u64, Vec<u8>), LogError>,
    other_before: Result<(u64, u64, Vec<u8>), LogError>,
    other_after: Result<(u64, u64, Vec<u8>), LogError>,
)
    requires
        call_ensures(SegLog::append_with_id, (first, id, timestamp, payload), appending),
        call_ensures(SegLog::read, (second, id), reading),
        call_ensures(SegLog::read, (before, other), other_before),
        call_ensures(SegLog::read, (second, other), other_after),
        before@ == old(first)@,
        final(first)@ == second@,
        appending is Ok,
        other != id,
    ensures
        appending->Ok_0 == id,
        reading matches Ok(e) && e.0 == id && e.1 == timestamp && e.2@ == payload@,
        other_before is Ok <==> other_after is Ok,
        other_before is Ok ==> (other_after->Ok_0).0 == (other_before->Ok_0).0 && (
        other_after->Ok_0).1 == (other_before->Ok_0).1 && (other_after->Ok_0).2@ == (
        other_before->Ok_0).2@,
{
}

/// An entry that is longer than a segment is refused, and so is one for which there is no segment left.
/// What is refused changes no entry.
pub proof fn law_append_is_refused(
    log: &mut SegLog,
    timestamp: u64,
    payload: &[u8],
    r: Result<u64, LogError>,
)
    requires
        call_ensures(SegLog::append, (log, timestamp, payload), r),
        old(log)@.wf(),
    ensures
        payload@.len() + 20 > 65536 ==> r is Err,
        payload@.len() + 20 <= 65536 && old(log)@.segs < 1024 * 1024 * 1024 ==> r is Ok,
        r is Err ==> final(log)@.entries == old(log)@.entries && final(log)@.next_id == old(
            log,
        )@.next_id,
{
    law_log_takes(old(log)@, payload@);
}

/// A range of a log tells the entries whose ids are in it, and no others, in the order of their ids, each
/// as a read of its id tells it.
pub proof fn law_read_range(
    log: &SegLog,
    start: u64,
    end: u64,
    id: u64,
    range: Vec<(u64, u64, Vec<u8>)>,
    one: Result<(u64, u64, Vec<u8>), LogError>,
    i: int,
    j: int,
)
    requires
        call_ensures(SegLog::read_range, (log, start, end), range),
        call_ensures(SegLog::read, (log, id), one),
        log@.keeps_ids(),
        log@.wf(),
        0 <= i < j < range@.len(),
    ensures
        range@[i].0 < range@[j].0,
        start <= range@[i].0 <= end,
        range@[i].0 == id ==> (one matches Ok(e) && e.1 == range@[i].1 && e.2@ == range@[i].2@),
        one is Ok && start <= id <= end ==> exists|k: int|
            0 <= k < range@.len() && (#[trigger] range@[k]).0 == id,
{
    let all = triples_view(range@);
    let m = log@.entries;
    let ids = crate::idindex::ids_between(m, start as int, end as int);
    crate::idindex::lemma_ids_between_exist(m, start as int, end as int);
    assert(all.len() == ids.len());
    assert(all[i] == m[ids[i]].triple());
    assert(all[j] == m[ids[j]].triple());
    assert(ids.contains(ids[i]) && ids.contains(ids[j]));
    assert(m.contains_key(ids[i]) && m.contains_key(ids[j]));
    assert(all[i].2 == range@[i].2@);
    if one is Ok && start <= id <= end {
        assert(ids.contains(id));
        let k = ids.index_of(id);
        assert(all[k] == m[id].triple());
        assert(range@[k].0 == id);
    }
}

/// Trimming an orderly log tells the ids of the entries below the cutoff, in order. Those are not read
/// back any more, and the others are, as before.
pub proof fn law_trim_then_read(
    before: &SegLog,
    first: &mut SegLog,
    second: &SegLog,
    cutoff: u64,
    id: u64,
    gone: Vec<u64>,
    was: Result<(u64, u64, Vec<u8>), LogError>,
    is: Result<(u64, u64, Vec<u8>), LogError>,
    i: int,
    j: int,
)
    requires
        call_ensures(SegLog::trim, (first, cutoff), gone),
        call_ensures(SegLog::read, (before, id), was),
        call_ensures(SegLog::read, (second, id), is),
        before@ == old(first)@,
        final(first)@ == second@,
        before@.wf(),
        before@.orderly(),
        0 <= i < j < gone@.len(),
    ensures
        gone@[i] < gone@[j],
        gone@.contains(id) <==> was is Ok && id < cutoff,
        id < cutoff ==> is is Err,
        id >= cutoff ==> (was is Ok <==> is is Ok),
        id >= cutoff && was is Ok ==> (is->Ok_0).0 == (was->Ok_0).0 && (is->Ok_0).1 == (
        was->Ok_0).1 && (is->Ok_0).2@ == (was->Ok_0).2@,
{
    law_log_trim_keeps(before@, cutoff, id);
    crate::idindex::lemma_ids_between_exist(before@.entries, 0, cutoff - 1);
}

/// The entries of a log are told in the order of their ids, each as a read of its id tells it, with the
/// length of its payload.
pub proof fn law_entries_are_told(
    log: &SegLog,
    all: Vec<(u64, u64, u64, Vec<u8>)>,
    id: u64,
    one: Result<(u64, u64, Vec<u8>), LogError>,
    i: int,
    j: int,
)
    requires
        call_ensures(SegLog::entries, (log,), all),
        call_ensures(SegLog::read, (log, id), one),
        log@.wf(),
        0 <= i < j < all@.len(),
    ensures
        all@[i].0 < all@[j].0,
        all@[i].2 == all@[i].3@.len(),
        all@[i].0 == id ==> (one matches Ok(e) && e.1 == all@[i].1 && e.2@ == all@[i].3@),
        one is Ok ==> exists|k: int| 0 <= k < all@.len() && (#[trigger] all@[k]).0 == id,
{
    let told = quads_view(all@);
    law_log_listed(log@, id, i, j);
    assert(told.len() == all@.len());
    assert(told[i] == (all@[i].0, all@[i].1, all@[i].2, all@[i].3@));
    assert(told[j].0 == all@[j].0);
    if one is Ok {
        let k = choose|k: int| 0 <= k < log@.listed().len() && (#[trigger] log@.listed()[k]).0 == id;
        assert(told[k].0 == all@[k].0);
    }
}

/// The bytes of an entry that was appended are its id, its timestamp, the length of its payload and its
/// payload.
pub proof fn law_raw_entry(
    first: &mut SegLog,
    second: &SegLog,
    timestamp: u64,
    payload: &[u8],
    appending: Result<u64, LogError>,
    raw: Result<&[u8], &'static str>,
)
    requires
        call_ensures(SegLog::append, (first, timestamp, payload), appending),
        appending is Ok,
        call_ensures(SegLog::get_raw_entry_slice, (second, appending->Ok_0), raw),
        final(first)@ == second@,
    ensures
        raw matches Ok(b) && b@ == le_bytes(appending->Ok_0 as nat, 8) + le_bytes(
            timestamp as nat,
            8,
        ) + le_bytes(payload@.len(), 4) + payload@,
{
    law_log_wire_form(old(first)@, timestamp, payload@);
}

/// What is said of a request that a log refuses, and which refusal is told: an entry that is longer than a
/// segment is too large, and for any other there is no segment left.
pub proof fn law_log_errors_say(e: &LogError, m: String, payload: Seq<u8>)
    requires
        call_ensures(LogError::message, (e,), m),
    ensures
        e is EntryTooLarge ==> m@ == "entry exceeds segment capacity"@,
        e is SegmentLimitReached ==> m@ == "max segment count reached"@,
        e is EntryNotFound ==> m@ == "entry not found"@,
        e is AllocationFailed ==> m@ == "failed to allocate memory for segment"@,
        e is MaxSegmentsReached ==> m@ == "maximum segments reached"@,
        e is WriteLockUnavailable ==> m@ == "write lock is currently held by another operation"@,
        *e matches LogError::SnapshotFailed(reason) ==> m@ == "snapshot failed: "@ + reason@,
        refusal(payload) is EntryTooLarge <==> payload.len() + 20 > 65536,
        refusal(payload) is MaxSegmentsReached <==> payload.len() + 20 <= 65536,
{
}

/// A log has the name that it was made with, 1 as the first id, and no entries.
pub proof fn law_new_log(
    name: String,
    log: SegLog,
    id: u64,
    total: u64,
    bytes: usize,
    identifier: &str,
    entry: u64,
    reading: Result<(u64, u64, Vec<u8>), LogError>,
)
    requires
        call_ensures(SegLog::new, (name,), log),
        call_ensures(SegLog::next_id, (&log,), id),
        call_ensures(SegLog::total_entries, (&log,), total),
        call_ensures(SegLog::active_segment_bytes, (&log,), bytes),
        call_ensures(SegLog::identifier, (&log,), identifier),
        call_ensures(SegLog::read, (&log, entry), reading),
    ensures
        id == 1 && total == 0 && bytes == 0,
        identifier@ == name@,
        reading matches Err(LogError::EntryNotFound),
{
}

/// An append takes up the bytes of the header and of the payload in the segment that is filled, or in the
/// next one where they do not fit any more.
pub proof fn law_append_takes_space(
    before: &SegLog,
    log: &mut SegLog,
    after: &SegLog,
    timestamp: u64,
    payload: &[u8],
    r: Result<u64, LogError>,
    was: usize,
    is: usize,
    segs_before: usize,
    segs_after: usize,
)
    requires
        call_ensures(SegLog::append, (log, timestamp, payload), r),
        call_ensures(SegLog::active_segment_bytes, (before,), was),
        call_ensures(SegLog::active_segment_bytes, (after,), is),
        call_ensures(SegLog::total_segments, (before,), segs_before),
        call_ensures(SegLog::total_segments, (after,), segs_after),
        before@ == old(log)@,
        after@ == final(log)@,
        before@.wf(),
        r is Ok,
    ensures
        was + 20 + payload@.len() <= 65536 ==> is == was + 20 + payload@.len() && segs_after
            == segs_before,
        was + 20 + payload@.len() > 65536 ==> is == 20 + payload@.len() && segs_before <= segs_after
            <= segs_before + 1,
{
    law_log_space(before@, timestamp, payload@);
}

/// A copy of a log has the same entries and the same name. A log that can have one more segment gets it,
/// and keeps its entries.
pub proof fn law_log_is_copied_and_grows(
    log: &SegLog,
    copy: SegLog,
    grown: &mut SegLog,
    r: Result<(), LogError>,
    id: u64,
)
    requires
        call_ensures(SegLog::copy, (log,), copy),
        call_ensures(SegLog::allocate_seg, (grown,), r),
    ensures
        copy@ == log@ && copy.name() == log.name(),
        r is Ok <==> old(grown)@.segs < 1024 * 1024 * 1024,
        r is Ok ==> final(grown)@.segs == old(grown)@.segs + 1,
        final(grown)@.entries == old(grown)@.entries && final(grown)@.next_id == old(grown)@.next_id,
        final(grown)@.cursor == old(grown)@.cursor && final(grown)@.active == old(grown)@.active,
{
}

/// A new log has eight segments.
pub proof fn law_new_log_segments(name: String, log: SegLog, segments: usize)
    requires
        call_ensures(SegLog::new, (name,), log),
        call_ensures(SegLog::total_segments, (&log,), segments),
    ensures
        segments == 8,
{
}

} // verus!
