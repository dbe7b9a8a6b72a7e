//! Named lists of byte strings, one segment of memory to each item.

use crate::le::{
    le_bytes, le_value, lemma_le_bytes_len, lemma_le_limits, lemma_le_round_trip, read_le, set_le,
};
use crate::strmap::StrMap;
use crate::views::{copy_bytes, copy_str, overwrite_bytes, vecs_view, zeroed_bytes, zeros};
use vstd::prelude::*;

verus! {

pub const SEGMENT_SIZE: usize = 64 * 1024;

/// An item stands behind a header, which gives its length at 16.
pub const HEADER_SIZE: usize = 8 + 8 + 4;

/// How many free segments are made at a time: 2 GB of them.
pub const GROWTH: usize = 32 * 1024;

/// Why a list refuses a request.
#[derive(Debug)]
pub enum ListError {
    EntryTooLarge,
    AllocFailed,
    KeyNotFound,
    OutOfRange,
}

impl ListError {
    /// What the error says of itself.
    pub open spec fn text(self) -> Seq<char> {
        match self {
            ListError::EntryTooLarge => "entry exceeds segment capacity"@,
            ListError::AllocFailed => "failed to grow the list"@,
            ListError::KeyNotFound => "key not found"@,
            ListError::OutOfRange => "given range is invalidß"@,
        }
    }

    pub fn message(&self) -> (r: String)
        ensures
            r@ == self.text(),
    {
        match self {
            ListError::EntryTooLarge => copy_str("entry exceeds segment capacity"),
            ListError::AllocFailed => copy_str("failed to grow the list"),
            ListError::KeyNotFound => copy_str("key not found"),
            ListError::OutOfRange => copy_str("given range is invalidß"),
        }
    }
}

/// The lists by name. The first item of a list is the one pushed first.
pub type Lists = Map<Seq<char>, Seq<Seq<u8>>>;

/// The items of a list, none where there is no such list.
pub open spec fn items_of(lists: Lists, key: Seq<char>) -> Seq<Seq<u8>> {
    if lists.contains_key(key) {
        lists[key]
    } else {
        Seq::empty()
    }
}

/// Whether an item fits in a segment.
pub open spec fn item_fits(payload: Seq<u8>) -> bool {
    HEADER_SIZE + payload.len() <= SEGMENT_SIZE
}

/// After pushing an item.
pub open spec fn pushed(lists: Lists, key: Seq<char>, payload: Seq<u8>) -> Lists {
    lists.insert(key, items_of(lists, key).push(payload))
}

/// After pushing items. Pushing none makes no list.
pub open spec fn pushed_all(lists: Lists, key: Seq<char>, items: Seq<Seq<u8>>) -> Lists {
    if items.len() == 0 {
        lists
    } else {
        lists.insert(key, items_of(lists, key) + items)
    }
}

/// How many of the first items fit.
pub open spec fn fitting(items: Seq<Seq<u8>>) -> nat
    decreases items.len(),
{
    if items.len() == 0 || !item_fits(items[0]) {
        0
    } else {
        1 + fitting(items.drop_first())
    }
}

/// The items that fit are some of the items, and an item that does not fit follows where they
/// are not all.
pub proof fn lemma_fitting(items: Seq<Seq<u8>>)
    ensures
        fitting(items) <= items.len(),
        forall|i: int| 0 <= i < fitting(items) ==> item_fits(#[trigger] items[i]),
        fitting(items) < items.len() ==> !item_fits(items[fitting(items) as int]),
    decreases items.len(),
{
    if items.len() > 0 && item_fits(items[0]) {
        let rest = items.drop_first();
        lemma_fitting(rest);
        assert forall|i: int| 0 <= i < fitting(items) implies item_fits(#[trigger] items[i]) by {
            if i > 0 {
                assert(item_fits(rest[i - 1]));
            }
        }
    }
}

/// The items that fit of a range all fit by themselves.
pub proof fn lemma_fitting_part(items: Seq<Seq<u8>>)
    ensures
        fitting(items) <= items.len(),
        fitting(items.take(fitting(items) as int)) == fitting(items),
    decreases items.len(),
{
    if items.len() > 0 && item_fits(items[0]) {
        let n = fitting(items) as int;
        lemma_fitting_part(items.drop_first());
        assert(items.take(n).drop_first() =~= items.drop_first().take(n - 1));
        assert(items.take(n)[0] == items[0]);
    }
}

/// After dropping the items from `start` up to `end` of a list.
pub open spec fn popped(lists: Lists, key: Seq<char>, start: int, end: int) -> Lists {
    let items = lists[key];
    lists.insert(key, items.subrange(0, start) + items.subrange(end, items.len() as int))
}

/// The number of free segments that a push finds: where there are none left, more are made.
pub open spec fn stocked(free: nat) -> nat {
    if free == 0 {
        GROWTH as nat
    } else {
        free
    }
}

/// The number of free segments after `count` pushes, each of which takes one.
pub open spec fn free_after(free: nat, count: nat) -> nat
    decreases count,
{
    if count == 0 {
        free
    } else {
        (stocked(free_after(free, (count - 1) as nat)) - 1) as nat
    }
}

/// The number of free segments that a push of `count` items finds: where there are fewer than
/// that, more are made.
pub open spec fn stocked_for(free: nat, count: nat) -> nat {
    if free < count {
        free + GROWTH as nat
    } else {
        free
    }
}

/// The item in a segment.
spec fn item_in(seg: Seq<u8>) -> Seq<u8> {
    seg.subrange(20, 20 + le_value(seg.subrange(16, 20)) as int)
}

/// A segment that holds an item.
spec fn filled(seg: Seq<u8>) -> bool {
    seg.len() == SEGMENT_SIZE && 20 + le_value(seg.subrange(16, 20)) <= SEGMENT_SIZE
}

spec fn all_filled(segs: Seq<Vec<u8>>) -> bool {
    forall|i: int| 0 <= i < segs.len() ==> filled((#[trigger] segs[i])@)
}

spec fn items_in(segs: Seq<Vec<u8>>) -> Seq<Seq<u8>> {
    Seq::new(segs.len(), |i: int| item_in(segs[i]@))
}

/// Named lists, with the segments that they do not use.
pub struct SegList {
    written: StrMap<Vec<Vec<u8>>>,
    free_segs: Vec<Vec<u8>>,
}

impl View for SegList {
    type V = Lists;

    closed spec fn view(&self) -> Lists {
        self.written@.map_values(|segs: Vec<Vec<u8>>| items_in(segs@))
    }
}

/// Reads the item in a segment.
fn read_item(seg: &Vec<u8>) -> (r: Vec<u8>)
    requires
        filled(seg@),
    ensures
        r@ == item_in(seg@),
{
    let len: usize = read_le(seg.as_slice(), 16, 4) as usize;
    copy_bytes(vstd::slice::slice_subrange(seg.as_slice(), HEADER_SIZE, HEADER_SIZE + len))
}

/// Writes an item into a zeroed segment.
fn write_item(seg: &mut Vec<u8>, payload: &[u8])
    requires
        old(seg)@.len() == SEGMENT_SIZE,
        item_fits(payload@),
    ensures
        filled(final(seg)@),
        item_in(final(seg)@) == payload@,
{
    broadcast use lemma_le_bytes_len;

    set_le(seg, 16, payload.len() as u64, 4);
    let ghost head = seg@.subrange(0, 20);
    overwrite_bytes(seg, HEADER_SIZE, payload);
    proof {
        lemma_le_limits();
        lemma_le_round_trip(payload@.len(), 4);
        assert(seg@.subrange(16, 20) =~= le_bytes(payload@.len(), 4));
        assert(item_in(seg@) =~= payload@);
    }
}

impl SegList {
    pub closed spec fn wf(&self) -> bool {
        &&& self.written.wf()
        &&& forall|k: Seq<char>| #[trigger]
            self.written@.contains_key(k) ==> all_filled(self.written@[k]@)
        &&& forall|i: int|
            0 <= i < self.free_segs@.len() ==> (#[trigger] self.free_segs@[i])@ == zeros(
                SEGMENT_SIZE as nat,
            )
    }

    /// How many zeroed segments are at hand for items to come.
    pub closed spec fn free(&self) -> nat {
        self.free_segs@.len()
    }

    /// No lists, with free segments made beforehand.
    pub fn new() -> (r: Self)
        ensures
            r.wf(),
            r@ == Map::<Seq<char>, Seq<Seq<u8>>>::empty(),
            r.free() == GROWTH,
    {
        let mut r = SegList { written: StrMap::new(), free_segs: Vec::new() };
        r.grow_segs();
        assert(r@ =~= Map::<Seq<char>, Seq<Seq<u8>>>::empty());
        r
    }

    /// Adds free segments.
    fn grow_segs(&mut self)
        requires
            old(self).wf(),
        ensures
            final(self).wf(),
            final(self).written == old(self).written,
            final(self).free_segs@.len() == old(self).free_segs@.len() + GROWTH,
    {
        let mut i: usize = 0;
        while i < GROWTH
            invariant
                i <= GROWTH,
                self.wf(),
                self.written == old(self).written,
                self.free_segs@.len() == old(self).free_segs@.len() + i,
            decreases GROWTH - i,
        {
            self.free_segs.push(zeroed_bytes(SEGMENT_SIZE));
            i = i + 1;
        }
    }

    /// Makes sure that there is a list with this name.
    fn ensure_list(&mut self, key: &str)
        requires
            old(self).wf(),
        ensures
            final(self).wf(),
            final(self).written@.contains_key(key@),
            final(self).free_segs == old(self).free_segs,
            final(self)@ == old(self)@.insert(key@, items_of(old(self)@, key@)),
    {
        if !self.written.contains_key(key) {
            self.written.insert(copy_str(key), Vec::new());
        }
        assert(items_in(Seq::empty()) =~= Seq::empty());
        assert(self@ =~= old(self)@.insert(key@, items_of(old(self)@, key@)));
    }

    /// Pushes an item at the end of a list, in a free segment.
    pub fn push(&mut self, key: String, payload: Vec<u8>) -> (r: Result<(), ListError>)
        requires
            old(self).wf(),
        ensures
            final(self).wf(),
            match r {
                Ok(()) => {
                    &&& item_fits(payload@)
                    &&& final(self)@ == pushed(old(self)@, key@, payload@)
                    &&& final(self).free() == stocked(old(self).free()) - 1
                },
                Err(e) => {
                    &&& e == ListError::EntryTooLarge
                    &&& !item_fits(payload@)
                    &&& final(self)@ == old(self)@
                    &&& final(self).free() == stocked(old(self).free())
                },
            },
    {
        if self.free_segs.is_empty() {
            self.grow_segs();
        }
        if payload.len() > SEGMENT_SIZE - HEADER_SIZE {
            return Err(ListError::EntryTooLarge);
        }
        let mut seg: Vec<u8> = match self.free_segs.pop() {
            Some(seg) => seg,
            None => zeroed_bytes(SEGMENT_SIZE),
        };
        write_item(&mut seg, payload.as_slice());
        self.ensure_list(key.as_str());
        let ghost mid = *self;
        if let Some(segs) = self.written.get_mut(key.as_str()) {
            segs.push(seg);
        }
        proof {
            let was = mid.written@[key@]@;
            let now = self.written@[key@]@;
            assert(now == was.push(seg));
            assert forall|i: int| 0 <= i < now.len() implies filled((#[trigger] now[i])@) by {
                if i < was.len() {
                    assert(now[i] == was[i]);
                }
            }
            assert(items_in(now) =~= items_in(was).push(payload@));
            assert(mid@[key@] == items_in(was));
            assert(self@ =~= mid@.insert(key@, items_in(now)));
            assert(self@ =~= pushed(old(self)@, key@, payload@));
        }
        Ok(())
    }

    /// Takes the first item of a list. Its segment is free again.
    pub fn pop(&mut self, key: String) -> (r: Result<Vec<u8>, ListError>)
        requires
            old(self).wf(),
            old(self)@.contains_key(key@) ==> old(self)@[key@].len() > 0,
        ensures
            final(self).wf(),
            match r {
                Ok(item) => {
                    &&& old(self)@.contains_key(key@)
                    &&& item@ == old(self)@[key@][0]
                    &&& final(self)@ == popped(old(self)@, key@, 0, 1)
                    &&& final(self).free() == old(self).free() + 1
                },
                Err(e) => {
                    &&& e == ListError::KeyNotFound
                    &&& !old(self)@.contains_key(key@)
                    &&& final(self)@ == old(self)@
                    &&& final(self).free() == old(self).free()
                },
            },
    {
        match self.pop_range(key, 0, 1) {
            Ok(mut items) => {
                assert(vecs_view(items@).len() == 1);
                assert(vecs_view(items@)[0] == items@[0]@);
                Ok(items.swap_remove(0))
            },
            Err(e) => Err(e),
        }
    }

    /// Pushes items at the end of a list, in order, up to the first that does not fit.
    pub fn push_range(&mut self, key: String, items: Vec<Vec<u8>>) -> (r: Result<(), ListError>)
        requires
            old(self).wf(),
        ensures
            final(self).wf(),
            final(self)@ == pushed_all(
                old(self)@,
                key@,
                vecs_view(items@).take(fitting(vecs_view(items@)) as int),
            ),
            match r {
                Ok(()) => {
                    &&& fitting(vecs_view(items@)) == items@.len()
                    &&& final(self).free() == free_after(
                        stocked_for(old(self).free(), items@.len()),
                        items@.len(),
                    )
                },
                Err(e) => {
                    &&& e == ListError::EntryTooLarge
                    &&& fitting(vecs_view(items@)) < items@.len()
                    &&& final(self).free() == stocked(
                        free_after(
                            stocked_for(old(self).free(), items@.len()),
                            fitting(vecs_view(items@)),
                        ),
                    )
                },
            },
    {
        let ghost all = vecs_view(items@);
        proof {
            lemma_fitting(all);
        }
        if self.free_segs.len() < items.len() {
            self.grow_segs();
        }
        let ghost at_hand = self.free();
        let mut i: usize = 0;
        assert(all.take(0) =~= Seq::empty());
        assert(self@ == old(self)@);
        while i < items.len()
            invariant
                self.wf(),
                i <= items.len(),
                i <= fitting(all),
                all == vecs_view(items@),
                fitting(all) <= all.len(),
                forall|j: int| 0 <= j < fitting(all) ==> item_fits(#[trigger] all[j]),
                fitting(all) < all.len() ==> !item_fits(all[fitting(all) as int]),
                self@ == pushed_all(old(self)@, key@, all.take(i as int)),
                at_hand == stocked_for(old(self).free(), items@.len()),
                self.free() == free_after(at_hand, i as nat),
            decreases items.len() - i,
        {
            let item = copy_bytes(items[i].as_slice());
            assert(item@ == all[i as int]);
            let ghost before = self@;
            match self.push(copy_str(key.as_str()), item) {
                Ok(()) => {},
                Err(e) => {
                    return Err(e);
                },
            }
            proof {
                assert(all.take(i + 1) =~= all.take(i as int).push(all[i as int]));
                assert(items_of(old(self)@, key@) + all.take(i + 1) =~= (items_of(
                    old(self)@,
                    key@,
                ) + all.take(i as int)).push(all[i as int]));
                assert(items_of(old(self)@, key@) + Seq::<Seq<u8>>::empty() =~= items_of(
                    old(self)@,
                    key@,
                ));
                assert(self@ =~= pushed_all(old(self)@, key@, all.take(i + 1)));
            }
            i = i + 1;
        }
        Ok(())
    }

    /// Takes the first `count` items of a list. Their segments are free again.
    pub fn pop_count(&mut self, key: String, count: usize) -> (r: Result<Vec<Vec<u8>>, ListError>)
        requires
            old(self).wf(),
            old(self)@.contains_key(key@) ==> count <= old(self)@[key@].len(),
        ensures
            final(self).wf(),
            match r {
                Ok(items) => {
                    &&& old(self)@.contains_key(key@)
                    &&& vecs_view(items@) == old(self)@[key@].take(count as int)
                    &&& final(self)@ == popped(old(self)@, key@, 0, count as int)
                    &&& final(self).free() == old(self).free() + count
                },
                Err(e) => {
                    &&& e == ListError::KeyNotFound
                    &&& !old(self)@.contains_key(key@)
                    &&& final(self)@ == old(self)@
                    &&& final(self).free() == old(self).free()
                },
            },
    {
        self.pop_range(key, 0, count)
    }

    /// Takes the items of a list from `start` up to `end`. Their segments are free again.
    pub fn pop_range(&mut self, key: String, start: usize, end: usize) -> (r: Result<
        Vec<Vec<u8>>,
        ListError,
    >)
        requires
            old(self).wf(),
            old(self)@.contains_key(key@) && end <= old(self)@[key@].len() ==> start <= end,
        ensures
            final(self).wf(),
            match r {
                Ok(items) => {
                    &&& old(self)@.contains_key(key@)
                    &&& end <= old(self)@[key@].len()
                    &&& vecs_view(items@) == old(self)@[key@].subrange(start as int, end as int)
                    &&& final(self)@ == popped(old(self)@, key@, start as int, end as int)
                    &&& final(self).free() == old(self).free() + (end - start)
                },
                Err(ListError::KeyNotFound) => {
                    &&& !old(self)@.contains_key(key@)
                    &&& final(self)@ == old(self)@
                    &&& final(self).free() == old(self).free()
                },
                Err(e) => {
                    &&& e == ListError::OutOfRange
                    &&& old(self)@.contains_key(key@)
                    &&& end > old(self)@[key@].len()
                    &&& final(self)@ == old(self)@
                    &&& final(self).free() == old(self).free()
                },
            },
    {
        let ghost was = *self;
        let mut taken: Vec<Vec<u8>> = Vec::new();
        match self.written.get_mut(key.as_str()) {
            None => {
                return Err(ListError::KeyNotFound);
            },
            Some(segs) => {
                if end > segs.len() {
                    assert(was.written@.insert(key@, *segs) =~= was.written@);
                    return Err(ListError::OutOfRange);
                }
                assert(was@[key@].len() == segs@.len());
                let mut tail = segs.split_off(end);
                taken = segs.split_off(start);
                segs.append(&mut tail);
            },
        }
        let ghost segs0 = was.written@[key@]@;
        proof {
            let now = self.written@[key@]@;
            assert(now =~= segs0.subrange(0, start as int) + segs0.subrange(
                end as int,
                segs0.len() as int,
            ));
            assert(taken@ =~= segs0.subrange(start as int, end as int));
            assert forall|i: int| 0 <= i < now.len() implies filled((#[trigger] now[i])@) by {
                if i < start {
                    assert(now[i] == segs0[i]);
                } else {
                    assert(now[i] == segs0[i - start + end]);
                }
            }
            assert(items_in(now) =~= items_in(segs0).subrange(0, start as int) + items_in(
                segs0,
            ).subrange(end as int, segs0.len() as int));
            assert(self@ =~= popped(was@, key@, start as int, end as int));
        }
        let mut result: Vec<Vec<u8>> = Vec::new();
        let mut i: usize = 0;
        let ghost mid = *self;
        while i < taken.len()
            invariant
                i <= taken.len(),
                self.wf(),
                self.written == mid.written,
                self.free_segs@.len() == was.free_segs@.len() + i,
                all_filled(taken@),
                result@.len() == i,
                forall|j: int| 0 <= j < i ==> (#[trigger] result@[j])@ == item_in(taken@[j]@),
            decreases taken.len() - i,
        {
            result.push(read_item(&taken[i]));
            self.free_segs.push(zeroed_bytes(SEGMENT_SIZE));
            i = i + 1;
        }
        assert(vecs_view(result@) =~= was@[key@].subrange(start as int, end as int));
        Ok(result)
    }

    /// How many items a list has. A list that is asked for exists from then on.
    pub fn len(&mut self, key: String) -> (r: Result<usize, ListError>)
        requires
            old(self).wf(),
        ensures
            final(self).wf(),
            final(self)@ == old(self)@.insert(key@, items_of(old(self)@, key@)),
            final(self).free() == old(self).free(),
            r matches Ok(n) && n == items_of(old(self)@, key@).len(),
    {
        self.ensure_list(key.as_str());
        match self.written.get(key.as_str()) {
            Some(segs) => {
                assert(self@[key@].len() == segs@.len());
                Ok(segs.len())
            },
            None => Err(ListError::KeyNotFound),
        }
    }

    /// How many items a list has, if it exists.
    pub fn length(&self, key: &str) -> (r: Option<usize>)
        requires
            self.wf(),
        ensures
            match r {
                Some(n) => self@.contains_key(key@) && n == self@[key@].len(),
                None => !self@.contains_key(key@),
            },
    {
        match self.written.get(key) {
            Some(segs) => {
                assert(self@[key@].len() == segs@.len());
                Some(segs.len())
            },
            None => None,
        }
    }

    /// Every item of a list fits in a segment.
    pub proof fn lemma_items_fit(&self, key: Seq<char>, i: int)
        requires
            self.wf(),
            self@.contains_key(key),
            0 <= i < self@[key].len(),
        ensures
            item_fits(self@[key][i]),
    {
        assert(filled(self.written@[key]@[i]@));
    }

    /// The first item of a list, which stays in it.
    pub fn first(&self, key: &str) -> (r: Option<Vec<u8>>)
        requires
            self.wf(),
        ensures
            match r {
                Some(item) => {
                    &&& self@.contains_key(key@)
                    &&& self@[key@].len() > 0
                    &&& item@ == self@[key@][0]
                },
                None => self@.contains_key(key@) ==> self@[key@].len() == 0,
            },
    {
        match self.written.get(key) {
            Some(segs) => {
                assert(self@[key@] == items_in(segs@));
                if segs.len() > 0 {
                    Some(read_item(&segs[0]))
                } else {
                    None
                }
            },
            None => None,
        }
    }

    /// The items of a list, which stay in it.
    pub fn items(&self, key: &str) -> (r: Option<Vec<Vec<u8>>>)
        requires
            self.wf(),
        ensures
            match r {
                Some(items) => self@.contains_key(key@) && vecs_view(items@) == self@[key@],
                None => !self@.contains_key(key@),
            },
    {
        let segs = match self.written.get(key) {
            Some(segs) => segs,
            None => {
                return None;
            },
        };
        assert(self@[key@] == items_in(segs@));
        let mut r: Vec<Vec<u8>> = Vec::new();
        let mut i: usize = 0;
        while i < segs.len()
            invariant
                i <= segs@.len(),
                all_filled(segs@),
                r@.len() == i,
                forall|j: int| 0 <= j < i ==> (#[trigger] r@[j])@ == item_in(segs@[j]@),
            decreases segs@.len() - i,
        {
            r.push(read_item(&segs[i]));
            i = i + 1;
        }
        assert(vecs_view(r@) =~= items_in(segs@));
        Some(r)
    }

    /// Drops the items of a list from `len` on, or, where there is no `len`, the list. The segments
    /// are free again.
    pub fn cut(&mut self, key: &str, len: Option<usize>)
        requires
            old(self).wf(),
            len matches Some(n) ==> old(self)@.contains_key(key@) && n <= old(self)@[key@].len(),
        ensures
            final(self).wf(),
            final(self)@ == (match len {
                Some(n) => old(self)@.insert(key@, old(self)@[key@].take(n as int)),
                None => old(self)@.remove(key@),
            }),
            final(self).free() == old(self).free() + items_of(old(self)@, key@).len() - (match len {
                Some(n) => n as int,
                None => 0,
            }),
    {
        let ghost was = *self;
        let start: usize = match len {
            Some(n) => n,
            None => 0,
        };
        if let Some(end) = self.length(key) {
            let _ = self.pop_range(copy_str(key), start, end);
            proof {
                let items = was@[key@];
                assert(items.subrange(0, start as int) + items.subrange(end as int, end as int)
                    =~= items.take(start as int));
            }
        }
        if len.is_none() {
            let ghost mid = *self;
            let _ = self.written.remove(key);
            proof {
                assert(self@ =~= mid@.remove(key@));
                assert(self@ =~= was@.remove(key@));
            }
        }
    }

    /// Puts an item in front of a list, in a free segment.
    pub fn unpop(&mut self, key: &str, item: Vec<u8>)
        requires
            old(self).wf(),
            old(self)@.contains_key(key@),
            item_fits(item@),
        ensures
            final(self).wf(),
            final(self)@ == old(self)@.insert(key@, seq![item@] + old(self)@[key@]),
            final(self).free() == stocked(old(self).free()) - 1,
    {
        if self.free_segs.is_empty() {
            self.grow_segs();
        }
        let mut seg: Vec<u8> = match self.free_segs.pop() {
            Some(seg) => seg,
            None => zeroed_bytes(SEGMENT_SIZE),
        };
        write_item(&mut seg, item.as_slice());
        let ghost mid = *self;
        if let Some(segs) = self.written.get_mut(key) {
            segs.insert(0, seg);
        }
        proof {
            let was = mid.written@[key@]@;
            let now = self.written@[key@]@;
            assert(now =~= seq![seg] + was);
            assert forall|i: int| 0 <= i < now.len() implies filled((#[trigger] now[i])@) by {
                if i > 0 {
                    assert(now[i] == was[i - 1]);
                }
            }
            assert(items_in(now) =~= seq![item@] + items_in(was));
            assert(mid@[key@] == items_in(was));
            assert(self@ =~= mid@.insert(key@, items_in(now)));
        }
    }

    /// Drops all items of a list. Their segments are free again.
    pub fn flush(&mut self, key: String) -> (r: Result<(), ListError>)
        requires
            old(self).wf(),
        ensures
            final(self).wf(),
            match r {
                Ok(()) => {
                    &&& old(self)@.contains_key(key@)
                    &&& final(self)@ == old(self)@.insert(key@, Seq::empty())
                    &&& final(self).free() == old(self).free() + old(self)@[key@].len()
                },
                Err(e) => {
                    &&& e == ListError::KeyNotFound
                    &&& !old(self)@.contains_key(key@)
                    &&& final(self)@ == old(self)@
                    &&& final(self).free() == old(self).free()
                },
            },
    {
        let n: usize = match self.written.get(key.as_str()) {
            Some(segs) => {
                assert(self@[key@].len() == segs@.len());
                segs.len()
            },
            None => {
                return Err(ListError::KeyNotFound);
            },
        };
        match self.pop_range(key, 0, n) {
            Ok(_) => {
                proof {
                    let items = old(self)@[key@];
                    assert(items.subrange(0, 0) + items.subrange(n as int, n as int)
                        =~= Seq::empty());
                }
                Ok(())
            },
            Err(e) => Err(e),
        }
    }
}

/// Items come out of a list in the order in which they went in: what was pushed to a list is
/// what its last items are, and taking as many items as it had before leaves exactly those.
pub proof fn law_list_first_in_first_out(lists: Lists, key: Seq<char>, items: Seq<Seq<u8>>)
    requires
        items.len() > 0,
    ensures
        ({
            let n = items_of(lists, key).len() as int;
            let full = pushed_all(lists, key, items);
            &&& full[key].take(n) == items_of(lists, key)
            &&& full[key].subrange(n, full[key].len() as int) == items
            &&& popped(full, key, 0, n)[key] == items
            &&& popped(popped(full, key, 0, n), key, 0, items.len() as int)[key] == Seq::<
                Seq<u8>,
            >::empty()
        }),
{
    let had = items_of(lists, key);
    let full = pushed_all(lists, key, items);
    let n = had.len() as int;
    assert(full[key].take(n) =~= had);
    assert(full[key].subrange(n, full[key].len() as int) =~= items);
    assert(popped(full, key, 0, n)[key] =~= items);
    assert(popped(popped(full, key, 0, n), key, 0, items.len() as int)[key] =~= Seq::empty());
}

/// Pushing items at once is pushing them one by one.
pub proof fn law_list_push_range_is_pushes(
    lists: Lists,
    key: Seq<char>,
    items: Seq<Seq<u8>>,
    last: Seq<u8>,
)
    ensures
        pushed_all(lists, key, items.push(last)) == pushed(
            pushed_all(lists, key, items),
            key,
            last,
        ),
{
    assert(items_of(lists, key) + items.push(last) =~= (items_of(lists, key) + items).push(last));
    assert(items_of(lists, key) + Seq::<Seq<u8>>::empty() =~= items_of(lists, key));
    assert(pushed_all(lists, key, items.push(last)) =~= pushed(
        pushed_all(lists, key, items),
        key,
        last,
    ));
}

/// What is done to one list leaves every other list as it is.
pub proof fn law_lists_are_independent(
    lists: Lists,
    key: Seq<char>,
    other: Seq<char>,
    items: Seq<Seq<u8>>,
    start: int,
    end: int,
)
    requires
        key != other,
    ensures
        items_of(pushed_all(lists, key, items), other) == items_of(lists, other),
        items_of(popped(lists, key, start, end), other) == items_of(lists, other),
        items_of(lists.insert(key, Seq::empty()), other) == items_of(lists, other),
{
}

/// Popping a range of a list takes the items of the range, in their order, and leaves those before
/// it and those behind it, in theirs. Put back where they were, the items make the list that it was.
pub proof fn law_list_pop_range(lists: Lists, key: Seq<char>, start: int, end: int, i: int)
    requires
        lists.contains_key(key),
        0 <= start <= end <= lists[key].len(),
    ensures
        ({
            let before = lists[key];
            let after = popped(lists, key, start, end)[key];
            &&& popped(lists, key, start, end).contains_key(key)
            &&& after.len() == before.len() - (end - start)
            &&& 0 <= i < start ==> after[i] == before[i]
            &&& start <= i < after.len() ==> after[i] == before[i + (end - start)]
            &&& after.take(start) + before.subrange(start, end) + after.skip(start) == before
        }),
{
    let before = lists[key];
    let after = popped(lists, key, start, end)[key];
    assert(after.take(start) + before.subrange(start, end) + after.skip(start) =~= before);
}

/// A push puts the item behind all others and changes none of them. A push of items up to the first
/// that does not fit puts each of those before it in the list, in order, and no other.
pub proof fn law_list_push(
    lists: Lists,
    key: Seq<char>,
    payload: Seq<u8>,
    items: Seq<Seq<u8>>,
    i: int,
)
    ensures
        pushed(lists, key, payload).contains_key(key),
        pushed(lists, key, payload)[key].len() == items_of(lists, key).len() + 1,
        pushed(lists, key, payload)[key].last() == payload,
        0 <= i < items_of(lists, key).len() ==> pushed(lists, key, payload)[key][i] == items_of(
            lists,
            key,
        )[i],
        fitting(items) <= items.len(),
        0 <= i < fitting(items) ==> items[i].len() + 20 <= 65536,
        fitting(items) < items.len() ==> items[fitting(items) as int].len() + 20 > 65536,
{
    lemma_fitting(items);
    if 0 <= i < fitting(items) {
        assert(item_fits(items[i]));
    }
}

/// A list has the items that stand under its name, and one that is not there has none.
pub proof fn law_items_of(lists: Lists, key: Seq<char>)
    ensures
        lists.contains_key(key) ==> items_of(lists, key) == lists[key],
        !lists.contains_key(key) ==> items_of(lists, key).len() == 0,
{
}

/// What is pushed takes a free segment each, and segments are made, as many as there were at first,
/// only where there are too few.
pub proof fn law_free_segments(free: nat, count: nat)
    ensures
        count <= free ==> free_after(free, count) == free - count,
        free == 0 ==> stocked(free) == 32768,
        free > 0 ==> stocked(free) == free,
        count <= free ==> stocked_for(free, count) == free,
        count > free ==> stocked_for(free, count) == free + 32768,
    decreases count,
{
    if 0 < count <= free {
        law_free_segments(free, (count - 1) as nat);
    }
}

/// What is pushed to a list, one by one or together, is what is popped from it, in the order in which
/// it went in. The length of the list is how many items are in it.
#[verifier::rlimit(30)]
pub proof fn law_push_then_pop(
    first: &mut SegList,
    second: &mut SegList,
    third: &mut SegList,
    fourth: &mut SegList,
    key: String,
    items: Vec<Vec<u8>>,
    last: Vec<u8>,
    count: usize,
    pushing: Result<(), ListError>,
    pushing_last: Result<(), ListError>,
    len: Result<usize, ListError>,
    popping: Result<Vec<Vec<u8>>, ListError>,
    i: int,
)
    requires
        call_ensures(SegList::push_range, (first, key, items), pushing),
        call_ensures(SegList::push, (second, key, last), pushing_last),
        call_ensures(SegList::len, (third, key), len),
        call_ensures(SegList::pop_count, (fourth, key, count), popping),
        final(first)@ == old(second)@,
        final(second)@ == old(third)@,
        final(third)@ == old(fourth)@,
        pushing is Ok && pushing_last is Ok,
        items_of(old(first)@, key@).len() == 0,
        count == items@.len() + 1,
        0 <= i < items@.len(),
    ensures
        len matches Ok(n) && n == count,
        popping matches Ok(popped) && {
            &&& popped@.len() == count
            &&& popped@[i]@ == items@[i]@
            &&& popped@.last()@ == last@
        },
        items_of(final(fourth)@, key@).len() == 0,
{
    let all = vecs_view(items@);
    assert(all.take(all.len() as int) =~= all);
    assert(items_of(final(first)@, key@) =~= all);
    assert(items_of(final(second)@, key@) =~= all.push(last@));
    assert(items_of(final(third)@, key@) == items_of(final(second)@, key@));
    let had = items_of(old(fourth)@, key@);
    assert(had.len() == count);
    assert(had.take(count as int) =~= had);
    let out = vecs_view((popping->Ok_0)@);
    assert(out == had);
    assert(out[i] == (popping->Ok_0)@[i]@);
    assert(out[items@.len() as int] == (popping->Ok_0)@[items@.len() as int]@);
    assert(all[i] == items@[i]@);
}

/// An item fits in a list where it fits in a segment with its header. One that does not is refused, and
/// changes no list. What is pushed together is pushed up to the first that does not fit.
#[verifier::rlimit(50)]
pub proof fn law_push_is_refused(
    first: &mut SegList,
    second: &mut SegList,
    key: String,
    item: Vec<u8>,
    items: Vec<Vec<u8>>,
    pushing: Result<(), ListError>,
    pushing_all: Result<(), ListError>,
    n: int,
    other: Seq<char>,
)
    requires
        call_ensures(SegList::push, (first, key, item), pushing),
        call_ensures(SegList::push_range, (second, key, items), pushing_all),
        0 <= n < items@.len(),
        items@[n]@.len() + 20 > 65536,
        forall|i: int| 0 <= i < n ==> (#[trigger] items@[i])@.len() + 20 <= 65536,
        other != key@,
    ensures
        pushing is Ok <==> item@.len() + 20 <= 65536,
        pushing is Err ==> final(first)@ == old(first)@,
        pushing is Ok ==> items_of(final(first)@, key@) == items_of(old(first)@, key@).push(item@),
        pushing_all is Err,
        items_of(final(second)@, key@) == items_of(old(second)@, key@) + vecs_view(items@).take(n),
        items_of(final(first)@, other) == items_of(old(first)@, other),
        items_of(final(second)@, other) == items_of(old(second)@, other),
{
    let all = vecs_view(items@);
    lemma_fitting(all);
    let k = fitting(all) as int;
    if k < n {
        assert(items@[k]@.len() + 20 <= 65536);
        assert(all[k] == items@[k]@);
        assert(item_fits(all[k]));
    }
    if k > n {
        assert(item_fits(all[n]));
        assert(all[n] == items@[n]@);
    }
    if pushing is Ok {
        assert(items_of(final(first)@, key@) =~= items_of(old(first)@, key@).push(item@));
    }
}

/// A pop takes the first item of a list, a pop of a range takes the items of the range, and a flush
/// takes all. What is left stays in order.
#[verifier::rlimit(50)]
pub proof fn law_pops(
    first: &mut SegList,
    second: &mut SegList,
    third: &mut SegList,
    key: String,
    start: usize,
    end: usize,
    one: Result<Vec<u8>, ListError>,
    some: Result<Vec<Vec<u8>>, ListError>,
    flushing: Result<(), ListError>,
    i: int,
)
    requires
        call_ensures(SegList::pop, (first, key), one),
        call_ensures(SegList::pop_range, (second, key, start, end), some),
        call_ensures(SegList::flush, (third, key), flushing),
        old(first)@.contains_key(key@),
        old(first)@[key@].len() > 0,
        final(first)@ == old(second)@,
        final(second)@ == old(third)@,
        start <= end,
        end < old(first)@[key@].len(),
        0 <= i < end - start,
    ensures
        ({
            let was = old(first)@[key@];
            &&& one matches Ok(item)
            &&& item@ == was[0]
            &&& some matches Ok(items)
            &&& items@.len() == end - start
            &&& items@[i]@ == was[1 + start + i]
            &&& final(second)@[key@] == was.subrange(1, 1 + start as int) + was.skip(1 + end as int)
            &&& flushing is Ok
            &&& final(third)@[key@].len() == 0
        }),
{
    let was = old(first)@[key@];
    assert(final(first)@[key@] =~= was.skip(1));
    let out = vecs_view((some->Ok_0)@);
    assert(out.len() == end - start);
    assert(out[i] == (some->Ok_0)@[i]@);
    assert(final(second)@[key@] =~= was.subrange(1, 1 + start as int) + was.skip(1 + end as int));
}

/// An item that was popped and is put back is first again, and the list is as it was. A list that is cut
/// to the length that it had before a push is as it was.
#[verifier::rlimit(50)]
pub proof fn law_pop_and_push_are_taken_back(
    first: &mut SegList,
    second: &mut SegList,
    third: &mut SegList,
    fourth: &mut SegList,
    key: String,
    name: &str,
    popping: Result<Vec<u8>, ListError>,
    put: Vec<u8>,
    item: Vec<u8>,
    pushing: Result<(), ListError>,
    len: Option<usize>,
)
    requires
        call_ensures(SegList::pop, (first, key), popping),
        call_ensures(SegList::unpop, (second, name, put), ()),
        final(first)@ == old(second)@,
        popping matches Ok(popped) && popped@ == put@,
        old(first)@[key@].len() > 0,
        name@ == key@,
        call_ensures(SegList::push, (third, key, item), pushing),
        call_ensures(SegList::cut, (fourth, name, len), ()),
        final(third)@ == old(fourth)@,
        pushing is Ok,
        match len {
            Some(n) => old(third)@.contains_key(key@) && n == old(third)@[key@].len(),
            None => !old(third)@.contains_key(key@),
        },
    ensures
        final(second)@ == old(first)@,
        final(fourth)@ == old(third)@,
{
    let was = old(first)@[key@];
    assert(seq![put@] + final(first)@[key@] =~= was);
    assert(final(second)@ =~= old(first)@);
    if len is Some {
        assert(old(fourth)@[key@].take(len->0 as int) =~= old(third)@[key@]);
    }
    assert(final(fourth)@ =~= old(third)@);
}

/// What is told of a list is what it has: its length, its first item, and its items in order.
pub proof fn law_list_is_told(
    list: &SegList,
    key: &str,
    len: Option<usize>,
    one: Option<Vec<u8>>,
    all: Option<Vec<Vec<u8>>>,
    i: int,
)
    requires
        call_ensures(SegList::length, (list, key), len),
        call_ensures(SegList::first, (list, key), one),
        call_ensures(SegList::items, (list, key), all),
        0 <= i < items_of(list@, key@).len(),
    ensures
        len matches Some(n) && n == items_of(list@, key@).len(),
        one matches Some(item) && item@ == items_of(list@, key@)[0],
        all matches Some(items) && items@.len() == items_of(list@, key@).len() && items@[i]@
            == items_of(list@, key@)[i],
{
    let out = vecs_view((all->0)@);
    assert(out[i] == (all->0)@[i]@);
}

/// What is said of a request that a list refuses.
pub proof fn law_list_errors_say(e: &ListError, m: String)
    requires
        call_ensures(ListError::message, (e,), m),
    ensures
        e is EntryTooLarge ==> m@ == "entry exceeds segment capacity"@,
        e is AllocFailed ==> m@ == "failed to grow the list"@,
        e is KeyNotFound ==> m@ == "key not found"@,
        e is OutOfRange ==> m@ == "given range is invalidß"@,
{
}

} // verus!
