//! A cache that drops the entry used longest ago, and entries past their time to live.

use crate::clock::nanos_since;
use crate::le::{le_bytes, push_le};
use crate::span::is_time_since;
use std::collections::hash_map::DefaultHasher;
use std::collections::HashMap;
use std::hash::{Hash, Hasher};
use std::time::Instant;
use vstd::prelude::*;
use vstd::std_specs::hash::{obeys_key_model, DefaultHasherAdditionalSpecFns};
use vstd::utf8::encode_utf8;

verus! {

/// What a cache holds. Times are in nanoseconds.
#[verifier::reject_recursive_types(K)]
pub ghost struct LruView<K, V> {
    /// The keys, the one used last first.
    pub order: Seq<K>,
    /// The value of each key and the time at which it expires.
    pub data: Map<K, (V, u64)>,
    pub ttl: u64,
    pub cap: nat,
}

/// The time at which an entry written at `now` expires.
pub open spec fn expiry(now: u64, ttl: u64) -> u64 {
    if now + ttl > u64::MAX {
        u64::MAX
    } else {
        (now + ttl) as u64
    }
}

impl<K, V> LruView<K, V> {
    /// The order and the data speak of the same keys, each once.
    pub open spec fn wf(self) -> bool {
        &&& self.order.no_duplicates()
        &&& forall|k: K| self.order.contains(k) <==> #[trigger] self.data.contains_key(k)
    }

    pub open spec fn empty(cap: nat, ttl: u64) -> Self {
        LruView { order: Seq::empty(), data: Map::empty(), ttl, cap }
    }

    /// The order once `key` has been used.
    pub open spec fn front(self, key: K) -> Seq<K> {
        seq![key] + self.order.remove(self.order.index_of(key))
    }

    /// Without the entry used longest ago.
    pub open spec fn evicted(self) -> Self {
        LruView {
            order: self.order.drop_last(),
            data: self.data.remove(self.order.last()),
            ..self
        }
    }

    /// After a write of `key` at `now`. A key that is not held yet takes the place of the entry
    /// used longest ago, where the cache holds exactly `cap` entries.
    pub open spec fn inserted(self, key: K, value: V, now: u64) -> Self {
        let e = (value, expiry(now, self.ttl));
        if self.data.contains_key(key) {
            LruView { order: self.front(key), data: self.data.insert(key, e), ..self }
        } else {
            let base = if self.order.len() == self.cap && self.order.len() > 0 {
                self.evicted()
            } else {
                self
            };
            LruView { order: seq![key] + base.order, data: base.data.insert(key, e), ..base }
        }
    }

    /// Whether a read of `key` at `now` finds it.
    pub open spec fn hit(self, key: K, now: u64) -> bool {
        self.data.contains_key(key) && self.data[key].1 >= now
    }

    /// After a read of `key` at `now`: a hit is moved to the front, an expired entry is dropped.
    pub open spec fn read(self, key: K, now: u64) -> Self {
        if self.hit(key, now) {
            LruView { order: self.front(key), ..self }
        } else {
            self.removed(key)
        }
    }

    /// After dropping `key`.
    pub open spec fn removed(self, key: K) -> Self {
        if self.data.contains_key(key) {
            LruView {
                order: self.order.remove(self.order.index_of(key)),
                data: self.data.remove(key),
                ..self
            }
        } else {
            self
        }
    }
}

/// The operations keep the order and the data in step.
pub proof fn law_lru_stays_consistent<K, V>(c: LruView<K, V>, key: K, value: V, now: u64)
    requires
        c.wf(),
    ensures
        c.inserted(key, value, now).wf(),
        c.read(key, now).wf(),
        c.removed(key).wf(),
{
    if c.data.contains_key(key) {
        let p = c.order.index_of(key);
        assert(c.order.contains(key));
        assert(c.order[p] == key);
        lemma_removed_wf(c, p);
        assert(c.front(key) =~= seq![key] + c.removed(key).order);
        lemma_pushed_wf(c.removed(key), key, (value, expiry(now, c.ttl)));
        lemma_pushed_wf(c.removed(key), key, c.data[key]);
        assert(c.removed(key).data.insert(key, c.data[key]) =~= c.data);
        assert(c.removed(key).data.insert(key, (value, expiry(now, c.ttl))) =~= c.data.insert(
            key,
            (value, expiry(now, c.ttl)),
        ));
    } else {
        let e = (value, expiry(now, c.ttl));
        if c.order.len() == c.cap && c.order.len() > 0 {
            let last = c.order.len() - 1;
            lemma_removed_wf(c, last);
            assert(c.order.remove(last) =~= c.order.drop_last());
            lemma_pushed_wf(c.evicted(), key, e);
        } else {
            lemma_pushed_wf(c, key, e);
        }
    }
}

/// Dropping the key at a place keeps a view well-formed.
proof fn lemma_removed_wf<K, V>(c: LruView<K, V>, p: int)
    requires
        c.wf(),
        0 <= p < c.order.len(),
    ensures
        (LruView { order: c.order.remove(p), data: c.data.remove(c.order[p]), ..c }).wf(),
{
    let order = c.order.remove(p);
    assert forall|i: int, j: int|
        0 <= i < order.len() && 0 <= j < order.len() && i != j implies order[i] != order[j] by {
        let a = if i < p { i } else { i + 1 };
        let b = if j < p { j } else { j + 1 };
        assert(c.order[a] != c.order[b]);
    }
    assert forall|k: K| order.contains(k) <==> #[trigger] c.data.remove(c.order[p]).contains_key(
        k,
    ) by {
        if order.contains(k) {
            let i = order.index_of(k);
            let a = if i < p { i } else { i + 1 };
            assert(c.order[a] == k);
            assert(c.order[a] != c.order[p]);
            assert(c.data.contains_key(k));
        }
        if c.data.contains_key(k) && k != c.order[p] {
            let a = c.order.index_of(k);
            assert(c.order.contains(k));
            let i = if a < p { a } else { a - 1 };
            assert(order[i] == k);
        }
    }
}

/// Adding a key at the front keeps a view well-formed.
proof fn lemma_pushed_wf<K, V>(c: LruView<K, V>, key: K, e: (V, u64))
    requires
        c.wf(),
        !c.data.contains_key(key),
    ensures
        (LruView { order: seq![key] + c.order, data: c.data.insert(key, e), ..c }).wf(),
{
    let order = seq![key] + c.order;
    assert forall|i: int, j: int|
        0 <= i < order.len() && 0 <= j < order.len() && i != j implies order[i] != order[j] by {
        if i > 0 && j > 0 {
            assert(c.order[i - 1] != c.order[j - 1]);
        } else if i > 0 {
            assert(c.order.contains(c.order[i - 1]));
        } else {
            assert(c.order.contains(c.order[j - 1]));
        }
    }
    assert forall|k: K| order.contains(k) <==> #[trigger] c.data.insert(key, e).contains_key(k) by {
        if order.contains(k) && k != key {
            let i = order.index_of(k);
            assert(c.order[i - 1] == k);
            assert(c.order.contains(k));
        }
        if k == key {
            assert(order[0] == key);
        } else if c.data.contains_key(k) {
            assert(c.order.contains(k));
            assert(order[c.order.index_of(k) + 1] == k);
        }
    }
}

/// A cache with room for an entry never holds more entries than its capacity.
pub proof fn law_lru_capacity<K, V>(c: LruView<K, V>, key: K, value: V, now: u64)
    requires
        c.wf(),
        c.cap > 0,
        c.order.len() <= c.cap,
    ensures
        c.inserted(key, value, now).order.len() <= c.cap,
        c.read(key, now).order.len() <= c.cap,
        c.removed(key).order.len() <= c.cap,
{
    if c.data.contains_key(key) {
        assert(c.order.contains(key));
    }
}

/// A key that was written is read back with its value until it expires, and is the last that
/// a full cache drops.
pub proof fn law_lru_write_then_read<K, V>(c: LruView<K, V>, key: K, value: V, now: u64, later: u64)
    requires
        c.wf(),
    ensures
        c.inserted(key, value, now).hit(key, later) <==> later <= expiry(now, c.ttl),
        c.inserted(key, value, now).data[key].0 == value,
        c.inserted(key, value, now).order.first() == key,
{
}

/// A write drops no other key, unless the cache is full: then it drops the one used longest
/// ago, and only that.
pub proof fn law_lru_evicts_least_recent<K, V>(
    c: LruView<K, V>,
    key: K,
    value: V,
    now: u64,
    other: K,
)
    requires
        c.wf(),
        other != key,
    ensures
        c.inserted(key, value, now).data.contains_key(other) <==> {
            &&& c.data.contains_key(other)
            &&& c.data.contains_key(key) || c.order.len() != c.cap || c.order.last() != other
        },
        c.inserted(key, value, now).data.contains_key(other) ==> c.inserted(
            key,
            value,
            now,
        ).data[other] == c.data[other],
{
    if c.data.contains_key(other) {
        assert(c.order.contains(other));
    }
}

/// What a key type must keep for the cache to find its entries: equal keys hash alike, and a
/// clone equals what it was cloned from.
pub open spec fn key_type_ok<K: Clone>() -> bool {
    &&& obeys_key_model::<K>()
    &&& forall|a: K, b: K| #[trigger] cloned(a, b) ==> a == b
}

const NULL: usize = usize::MAX;

struct Entry<V> {
    value: V,
    expires_at: u64,
    prev: usize,
    next: usize,
}

/// The neighbour of the `i`th slot towards the front.
spec fn prev_of(order: Seq<usize>, i: int) -> usize {
    if i == 0 {
        NULL
    } else {
        order[i - 1]
    }
}

/// The neighbour of the `i`th slot towards the back.
spec fn next_of(order: Seq<usize>, i: int) -> usize {
    if i == order.len() - 1 {
        NULL
    } else {
        order[i + 1]
    }
}

/// The `i`th slot is filled and names its neighbours.
spec fn linked_at<V>(entries: Seq<Option<Entry<V>>>, order: Seq<usize>, i: int) -> bool {
    let s = order[i] as int;
    &&& s < entries.len()
    &&& entries[s] is Some
    &&& entries[s]->0.prev == prev_of(order, i)
    &&& entries[s]->0.next == next_of(order, i)
}

/// The slots in `order`, and no others between them, are chained from `head` to `tail`.
spec fn chained<V>(
    entries: Seq<Option<Entry<V>>>,
    order: Seq<usize>,
    head: usize,
    tail: usize,
) -> bool {
    &&& order.no_duplicates()
    &&& forall|i: int| 0 <= i < order.len() ==> #[trigger] linked_at(entries, order, i)
    &&& head == (if order.len() == 0 {
        NULL
    } else {
        order[0]
    })
    &&& tail == (if order.len() == 0 {
        NULL
    } else {
        order.last()
    })
}

/// A cache of at most `cap` entries that live for `ttl` nanoseconds from their last write.
///
/// The entries stand in slots that are chained from the one used last to the one used longest
/// ago.
#[verifier::reject_recursive_types(K)]
pub struct LRU<K, V> {
    map: HashMap<K, usize>,
    reverse: Vec<Option<K>>,
    entries: Vec<Option<Entry<V>>>,
    free: Vec<usize>,
    head: usize,
    tail: usize,
    ttl: u64,
    cap: usize,
    origin: Instant,
    order: Ghost<Seq<usize>>,
}

impl<K: Clone, V> View for LRU<K, V> {
    type V = LruView<K, V>;

    closed spec fn view(&self) -> LruView<K, V> {
        LruView {
            order: Seq::new(
                self.order@.len(),
                |i: int| self.reverse@[self.order@[i] as int]->0,
            ),
            data: Map::new(
                |k: K| self.map@.contains_key(k),
                |k: K|
                    {
                        let e = self.entries@[self.map@[k] as int]->0;
                        (e.value, e.expires_at)
                    },
            ),
            ttl: self.ttl,
            cap: self.cap as nat,
        }
    }
}

impl<K, V> LRU<K, V> where K: Eq + Hash + Clone {
    /// The slots are chained in the ghost order.
    spec fn chain(&self) -> bool {
        &&& self.entries@.len() == self.reverse@.len()
        &&& chained(self.entries@, self.order@, self.head, self.tail)
    }

    /// The map and the slots name each other.
    spec fn mapped(&self) -> bool {
        &&& forall|i: int|
            0 <= i < self.order@.len() ==> {
                let s = #[trigger] self.order@[i];
                &&& self.reverse@[s as int] is Some
                &&& self.map@.contains_key(self.reverse@[s as int]->0)
                &&& self.map@[self.reverse@[s as int]->0] == s
            }
        &&& forall|k: K| #[trigger]
            self.map@.contains_key(k) ==> {
                &&& self.order@.contains(self.map@[k])
                &&& self.reverse@[self.map@[k] as int] == Some(k)
            }
    }

    /// The free slots are empty.
    spec fn spare(&self) -> bool {
        &&& self.free@.no_duplicates()
        &&& forall|i: int|
            0 <= i < self.free@.len() ==> (#[trigger] self.free@[i]) < self.entries@.len()
                && self.entries@[self.free@[i] as int] is None
    }

    pub closed spec fn wf(&self) -> bool {
        &&& key_type_ok::<K>()
        &&& self.chain()
        &&& self.mapped()
        &&& self.spare()
    }

    /// The point of the monotonic clock from which the cache counts.
    pub closed spec fn start(&self) -> Instant {
        self.origin
    }

    /// The view of a well-formed cache is well-formed.
    pub proof fn lemma_view_wf(&self)
        requires
            self.wf(),
        ensures
            self@.wf(),
    {
        let v = self@;
        assert forall|i: int, j: int|
            0 <= i < v.order.len() && 0 <= j < v.order.len() && i != j implies v.order[i]
            != v.order[j] by {
            assert(self.order@[i] != self.order@[j]);
        }
        assert forall|k: K| v.order.contains(k) <==> #[trigger] v.data.contains_key(k) by {
            if v.order.contains(k) {
                let i = v.order.index_of(k);
                assert(self.order@[i] == self.order@[i]);
            }
            if v.data.contains_key(k) {
                let i = self.order@.index_of(self.map@[k]);
                assert(v.order[i] == k);
            }
        }
    }

    pub fn new(cap: usize, ttl: u64) -> (r: Self)
        requires
            key_type_ok::<K>(),
        ensures
            r.wf(),
            r@ == LruView::<K, V>::empty(cap as nat, ttl),
    {
        let r = Self {
            map: HashMap::with_capacity(cap),
            reverse: Vec::with_capacity(cap),
            entries: Vec::with_capacity(cap),
            free: Vec::new(),
            head: NULL,
            tail: NULL,
            ttl,
            cap,
            origin: Instant::now(),
            order: Ghost(Seq::empty()),
        };
        assert(r@.order =~= Seq::empty());
        assert(r@.data =~= Map::empty());
        r
    }

    fn set_next(&mut self, idx: usize, next: usize)
        requires
            idx < old(self).entries@.len(),
            old(self).entries@[idx as int] is Some,
        ensures
            *final(self) == (LRU { entries: final(self).entries, ..*old(self) }),
            final(self).entries@ == old(self).entries@.update(
                idx as int,
                Some(Entry { next, ..old(self).entries@[idx as int]->0 }),
            ),
    {
        if let Some(e) = &mut self.entries[idx] {
            e.next = next;
        }
    }

    fn set_prev(&mut self, idx: usize, prev: usize)
        requires
            idx < old(self).entries@.len(),
            old(self).entries@[idx as int] is Some,
        ensures
            *final(self) == (LRU { entries: final(self).entries, ..*old(self) }),
            final(self).entries@ == old(self).entries@.update(
                idx as int,
                Some(Entry { prev, ..old(self).entries@[idx as int]->0 }),
            ),
    {
        if let Some(e) = &mut self.entries[idx] {
            e.prev = prev;
        }
    }

    /// Takes the slot at place `p` of the order out of the chain.
    fn detach(&mut self, idx: usize, Ghost(p): Ghost<int>)
        requires
            old(self).chain(),
            0 <= p < old(self).order@.len(),
            old(self).order@[p] == idx,
        ensures
            final(self).chain(),
            final(self).order@ == old(self).order@.remove(p),
            Self::same_contents(*old(self), *final(self)),
    {
        let ghost order = self.order@;
        let ghost before = self.entries@;
        assert(before.len() == self.entries.len());
        proof {
            assert(linked_at(before, order, p));
            if p > 0 {
                assert(linked_at(before, order, p - 1));
            }
            if p + 1 < order.len() {
                assert(linked_at(before, order, p + 1));
            }
        }
        let (prev, next): (usize, usize) = match &self.entries[idx] {
            Some(e) => (e.prev, e.next),
            None => (NULL, NULL),
        };
        if prev != NULL {
            self.set_next(prev, next);
        } else {
            self.head = next;
        }
        if next != NULL {
            self.set_prev(next, prev);
        } else {
            self.tail = prev;
        }
        self.order = Ghost(order.remove(p));
        proof {
            let now = order.remove(p);
            assert forall|i: int, j: int|
                0 <= i < now.len() && 0 <= j < now.len() && i != j implies now[i] != now[j] by {
                let a = if i < p { i } else { i + 1 };
                let b = if j < p { j } else { j + 1 };
                assert(order[a] != order[b]);
            }
            assert forall|i: int| 0 <= i < now.len() implies #[trigger] linked_at(
                self.entries@,
                now,
                i,
            ) by {
                let a = if i < p { i } else { i + 1 };
                assert(linked_at(before, order, a));
                assert(now[i] == order[a]);
                assert(order[a] != idx);
                if a != p - 1 && p > 0 {
                    assert(order[a] != order[p - 1]);
                }
                if a != p + 1 && p + 1 < order.len() {
                    assert(order[a] != order[p + 1]);
                }
            }
        }
    }

    /// The two caches hold the same entries, apart from how the slots are chained.
    spec fn same_contents(a: Self, b: Self) -> bool {
        &&& b.map == a.map
        &&& b.reverse == a.reverse
        &&& b.free == a.free
        &&& b.ttl == a.ttl
        &&& b.cap == a.cap
        &&& b.origin == a.origin
        &&& b.entries@.len() == a.entries@.len()
        &&& forall|i: int|
            0 <= i < a.entries@.len() ==> {
                &&& (#[trigger] b.entries@[i]) is Some == a.entries@[i] is Some
                &&& b.entries@[i] is Some ==> b.entries@[i]->0.value == a.entries@[i]->0.value
                    && b.entries@[i]->0.expires_at == a.entries@[i]->0.expires_at
            }
    }

    /// Puts a filled slot that is in no chain at the front.
    fn attach_front(&mut self, idx: usize)
        requires
            old(self).chain(),
            idx < old(self).entries@.len(),
            old(self).entries@[idx as int] is Some,
            !old(self).order@.contains(idx),
        ensures
            final(self).chain(),
            final(self).order@ == seq![idx] + old(self).order@,
            Self::same_contents(*old(self), *final(self)),
    {
        let ghost order = self.order@;
        let ghost before = self.entries@;
        assert(before.len() == self.entries.len());
        let head: usize = self.head;
        self.set_prev(idx, NULL);
        self.set_next(idx, head);
        if head != NULL {
            assert(linked_at(before, order, 0));
            assert(order.contains(order[0]));
            self.set_prev(head, idx);
        } else {
            self.tail = idx;
        }
        self.head = idx;
        self.order = Ghost(seq![idx] + order);
        proof {
            if order.len() > 0 {
                assert(linked_at(before, order, 0));
                assert((seq![idx] + order).last() == order.last());
            }
            let now = seq![idx] + order;
            assert forall|i: int, j: int|
                0 <= i < now.len() && 0 <= j < now.len() && i != j implies now[i] != now[j] by {
                if i > 0 && j > 0 {
                    assert(order[i - 1] != order[j - 1]);
                } else if i > 0 {
                    assert(order.contains(order[i - 1]));
                } else {
                    assert(order.contains(order[j - 1]));
                }
            }
            assert forall|i: int| 0 <= i < now.len() implies #[trigger] linked_at(
                self.entries@,
                now,
                i,
            ) by {
                if i > 0 {
                    assert(linked_at(before, order, i - 1));
                    assert(order.contains(order[i - 1]));
                    if i > 1 {
                        assert(order[i - 1] != order[0]);
                    }
                }
            }
        }
    }

    /// Fills a free slot, or a new one.
    fn alloc_slot(&mut self, key: K, entry: Entry<V>) -> (idx: usize)
        requires
            old(self).chain(),
            old(self).spare(),
        ensures
            final(self).chain(),
            final(self).spare(),
            final(self).order == old(self).order,
            final(self).map == old(self).map,
            final(self).ttl == old(self).ttl,
            final(self).cap == old(self).cap,
            final(self).origin == old(self).origin,
            idx < final(self).entries@.len(),
            !final(self).order@.contains(idx),
            final(self).entries@[idx as int] == Some(entry),
            final(self).reverse@[idx as int] == Some(key),
            final(self).entries@.len() >= old(self).entries@.len(),
            forall|i: int|
                0 <= i < old(self).entries@.len() && i != idx ==> #[trigger] final(self).entries@[i] == old(self).entries@[i],
            forall|i: int|
                0 <= i < old(self).reverse@.len() && i != idx ==> #[trigger] final(self).reverse@[i] == old(self).reverse@[i],
    {
        let ghost before = self.entries@;
        let ghost order = self.order@;
        let ghost spare = self.free@;
        let idx: usize = if let Some(idx) = self.free.pop() {
            proof {
                assert(spare.last() == idx);
                assert(spare[spare.len() - 1] == idx);
            }
            self.entries[idx] = Some(entry);
            self.reverse[idx] = Some(key);
            idx
        } else {
            self.entries.push(Some(entry));
            self.reverse.push(Some(key));
            self.entries.len() - 1
        };
        proof {
            if order.contains(idx) {
                assert(linked_at(before, order, order.index_of(idx)));
            }
            assert forall|i: int| 0 <= i < order.len() implies #[trigger] linked_at(
                self.entries@,
                order,
                i,
            ) by {
                assert(linked_at(before, order, i));
                assert(order.contains(order[i]));
            }
            assert forall|i: int| 0 <= i < self.free@.len() implies (#[trigger] self.free@[i])
                < self.entries@.len() && self.entries@[self.free@[i] as int] is None by {
                assert(self.free@[i] == spare[i]);
                if spare.len() > self.free@.len() {
                    assert(spare[i] != spare[spare.len() - 1]);
                }
            }
        }
        idx
    }

    /// The place of a key in the view is that of its slot in the chain.
    proof fn lemma_place(&self, key: K) -> (p: int)
        requires
            self.wf(),
            self.map@.contains_key(key),
        ensures
            0 <= p < self.order@.len(),
            self.order@[p] == self.map@[key],
            self@.order.index_of(key) == p,
            self@.order.contains(key),
            self.map@[key] < self.entries@.len(),
            self.entries@[self.map@[key] as int] is Some,
    {
        let p = self.order@.index_of(self.map@[key]);
        assert(self.order@.contains(self.map@[key]));
        assert(self@.order[p] == key);
        self.lemma_view_wf();
        assert(linked_at(self.entries@, self.order@, p));
        p
    }

    /// Drops a key.
    pub fn remove(&mut self, key: &K) -> (r: Option<V>)
        requires
            old(self).wf(),
        ensures
            final(self).wf(),
            final(self).start() == old(self).start(),
            final(self)@ == old(self)@.removed(*key),
            r == (if old(self)@.data.contains_key(*key) {
                Some(old(self)@.data[*key].0)
            } else {
                None
            }),
    {
        broadcast use vstd::std_specs::hash::group_hash_axioms;

        let ghost was = *self;
        let idx: usize = match self.map.remove(key) {
            Some(idx) => idx,
            None => {
                assert(self.map@ =~= was.map@);
                assert(self@.data =~= was@.data);
                assert(self@ == was@);
                return None;
            },
        };
        let ghost p = was.lemma_place(*key);
        self.detach(idx, Ghost(p));
        let ghost mid = self.entries@;
        self.reverse[idx] = None;
        let mut slot: Option<Entry<V>> = None;
        std::mem::swap(&mut slot, &mut self.entries[idx]);
        self.free.push(idx);
        proof {
            was.lemma_view_wf();
            let order = was.order@;
            let now = order.remove(p);
            assert(self.order@ == now);
            assert forall|i: int| 0 <= i < now.len() implies #[trigger] linked_at(
                self.entries@,
                now,
                i,
            ) && now[i] != idx by {
                let a = if i < p { i } else { i + 1 };
                assert(linked_at(mid, now, i));
                assert(now[i] == order[a]);
                assert(order[a] != order[p]);
            }
            assert(self.chain());
            assert forall|i: int| 0 <= i < now.len() implies {
                let s = #[trigger] self.order@[i];
                &&& self.reverse@[s as int] is Some
                &&& self.map@.contains_key(self.reverse@[s as int]->0)
                &&& self.map@[self.reverse@[s as int]->0] == s
            } by {
                let a = if i < p { i } else { i + 1 };
                assert(now[i] == order[a]);
                assert(linked_at(self.entries@, now, i));
            }
            assert forall|k: K| #[trigger] self.map@.contains_key(k) implies {
                &&& self.order@.contains(self.map@[k])
                &&& self.reverse@[self.map@[k] as int] == Some(k)
            } by {
                assert(was.map@.contains_key(k));
                let a = order.index_of(was.map@[k]);
                assert(order.contains(was.map@[k]));
                assert(order[a] == was.map@[k]);
                assert(a != p);
                let i = if a < p { a } else { a - 1 };
                assert(now[i] == was.map@[k]);
            }
            assert(self.mapped());
            assert forall|i: int| 0 <= i < self.free@.len() implies (#[trigger] self.free@[i])
                < self.entries@.len() && self.entries@[self.free@[i] as int] is None by {
                if i < was.free@.len() {
                    assert(self.free@[i] == was.free@[i]);
                }
            }
            assert(self.spare());
            assert(self@.order =~= was@.order.remove(p));
            assert(self@.data =~= was@.data.remove(*key)) by {
                assert forall|k: K| #[trigger] self@.data.contains_key(k) implies self@.data[k]
                    == was@.data[k] by {
                    assert(was.map@.contains_key(k));
                    let a = was.lemma_place(k);
                    assert(was.reverse@[was.map@[k] as int] == Some(k));
                    assert(was.reverse@[idx as int] == Some(*key));
                    assert(mid[was.map@[k] as int] is Some);
                }
            }
        }
        match slot {
            Some(e) => Some(e.value),
            None => None,
        }
    }

    /// Moves the slot of a key to the front.
    fn touch(&mut self, idx: usize, Ghost(key): Ghost<K>)
        requires
            old(self).wf(),
            old(self).map@.contains_key(key),
            old(self).map@[key] == idx,
        ensures
            final(self).wf(),
            final(self).start() == old(self).start(),
            final(self).map == old(self).map,
            final(self)@ == (LruView { order: old(self)@.front(key), ..old(self)@ }),
    {
        let ghost was = *self;
        let ghost p = was.lemma_place(key);
        self.detach(idx, Ghost(p));
        let ghost order = self.order@;
        let ghost mid = self.entries@;
        proof {
            assert forall|i: int| 0 <= i < order.len() implies order[i] != idx by {
                let a = if i < p { i } else { i + 1 };
                assert(was.order@[a] != was.order@[p]);
            }
            assert(mid[idx as int] is Some);
        }
        self.attach_front(idx);
        proof {
            let now_order = self.order@;
            assert forall|s: usize| was.order@.contains(s) implies now_order.contains(s) by {
                let a = was.order@.index_of(s);
                if a < p {
                    assert(now_order[a + 1] == s);
                } else if a > p {
                    assert(now_order[a] == s);
                } else {
                    assert(now_order[0] == s);
                }
            }
            assert(self.mapped()) by {
                assert forall|i: int| 0 <= i < now_order.len() implies {
                    let s = #[trigger] self.order@[i];
                    &&& self.reverse@[s as int] is Some
                    &&& self.map@.contains_key(self.reverse@[s as int]->0)
                    &&& self.map@[self.reverse@[s as int]->0] == s
                } by {
                    let a = if i == 0 { p } else if i - 1 < p { i - 1 } else { i };
                    assert(now_order[i] == was.order@[a]);
                }
            }
            assert(self.spare()) by {
                assert forall|i: int| 0 <= i < self.free@.len() implies (#[trigger] self.free@[i])
                    < self.entries@.len() && self.entries@[self.free@[i] as int] is None by {
                    assert(mid[was.free@[i] as int] is None);
                }
            }
            assert(self@.order =~= was@.front(key));
            assert(self@.data =~= was@.data) by {
                assert forall|k: K| #[trigger] was@.data.contains_key(k) implies self@.data[k]
                    == was@.data[k] by {
                    assert(was.map@.contains_key(k));
                    let a = was.lemma_place(k);
                    assert(mid[was.map@[k] as int] is Some);
                }
            }
        }
    }

    /// Overwrites the entry in the slot of a key.
    fn overwrite(&mut self, idx: usize, value: V, expires_at: u64, Ghost(key): Ghost<K>)
        requires
            old(self).wf(),
            old(self).map@.contains_key(key),
            old(self).map@[key] == idx,
        ensures
            final(self).wf(),
            final(self).start() == old(self).start(),
            final(self)@ == (LruView {
                data: old(self)@.data.insert(key, (value, expires_at)),
                ..old(self)@
            }),
    {
        let ghost was = *self;
        let ghost p = was.lemma_place(key);
        if let Some(e) = &mut self.entries[idx] {
            e.value = value;
            e.expires_at = expires_at;
        }
        proof {
            assert forall|i: int| 0 <= i < self.order@.len() implies #[trigger] linked_at(
                self.entries@,
                self.order@,
                i,
            ) by {
                assert(linked_at(was.entries@, was.order@, i));
            }
            assert(self@.order =~= was@.order);
            assert(self.entries@[idx as int]->0.value == value);
            assert(was@.data.contains_key(key));
            assert(self@.data[key] == (value, expires_at));
            assert(self@.data.dom() =~= was@.data.insert(key, (value, expires_at)).dom());
            assert(self@.data =~= was@.data.insert(key, (value, expires_at))) by {
                assert forall|k: K| #[trigger] was@.data.contains_key(k) && k != key implies
                    self@.data[k] == was@.data[k] by {
                    assert(was.map@.contains_key(k));
                    let a = was.lemma_place(k);
                    assert(was.reverse@[was.map@[k] as int] == Some(k));
                }
            }
        }
    }

    /// Drops the entry used longest ago, if there is one.
    fn evict(&mut self)
        requires
            old(self).wf(),
        ensures
            final(self).wf(),
            final(self).start() == old(self).start(),
            final(self)@ == (if old(self)@.order.len() > 0 {
                old(self)@.evicted()
            } else {
                old(self)@
            }),
    {
        let ghost was = *self;
        let ghost last = was.order@.len() - 1;
        proof {
            assert(was.entries@.len() == was.entries.len());
            if was.order@.len() > 0 {
                assert(linked_at(was.entries@, was.order@, last));
            }
        }
        let evict: usize = self.tail;
        if evict != NULL {
            assert(was.order@[last] == evict);
            if let Some(old_key) = &self.reverse[evict] {
                let old_key = old_key.clone();
                assert(cloned(was@.order.last(), old_key));
                assert(was.map@.contains_key(old_key));
                proof {
                    was.lemma_view_wf();
                    let p = was.lemma_place(old_key);
                    assert(was@.order[last] == old_key);
                    assert(p == last);
                    assert(was@.order.remove(last) =~= was@.order.drop_last());
                }
                self.remove(&old_key);
            }
        }
    }

    /// Adds a key that is not held, at the front.
    fn push_new(&mut self, key: K, value: V, expires_at: u64)
        requires
            old(self).wf(),
            !old(self)@.data.contains_key(key),
        ensures
            final(self).wf(),
            final(self).start() == old(self).start(),
            final(self)@ == (LruView {
                order: seq![key] + old(self)@.order,
                data: old(self)@.data.insert(key, (value, expires_at)),
                ..old(self)@
            }),
    {
        broadcast use vstd::std_specs::hash::group_hash_axioms;

        let ghost base = *self;
        proof {
            base.lemma_view_wf();
            assert(!base.map@.contains_key(key));
        }
        let slot_key = key.clone();
        assert(cloned(key, slot_key));
        let idx: usize = self.alloc_slot(
            slot_key,
            Entry { value, expires_at, prev: NULL, next: NULL },
        );
        self.map.insert(key, idx);
        let ghost mid = *self;
        self.attach_front(idx);
        proof {
            assert(mid.order@ == base.order@);
            assert(mid.map@ == base.map@.insert(key, idx));
            assert forall|i: int| 0 <= i < base.order@.len() implies #[trigger] base.order@[i]
                != idx && base.order@[i] < base.entries@.len() by {
                assert(base.order@.contains(base.order@[i]));
                assert(linked_at(base.entries@, base.order@, i));
            }
            assert(self.mapped()) by {
                assert forall|i: int| 0 <= i < self.order@.len() implies {
                    let s = #[trigger] self.order@[i];
                    &&& self.reverse@[s as int] is Some
                    &&& self.map@.contains_key(self.reverse@[s as int]->0)
                    &&& self.map@[self.reverse@[s as int]->0] == s
                } by {
                    if i > 0 {
                        assert(self.order@[i] == base.order@[i - 1]);
                        assert(base.reverse@[base.order@[i - 1] as int]->0 != key);
                    }
                }
                assert forall|k: K| #[trigger] self.map@.contains_key(k) implies {
                    &&& self.order@.contains(self.map@[k])
                    &&& self.reverse@[self.map@[k] as int] == Some(k)
                } by {
                    if k == key {
                        assert(self.order@[0] == idx);
                    } else {
                        assert(base.map@.contains_key(k));
                        let a = base.lemma_place(k);
                        assert(self.order@[a + 1] == base.map@[k]);
                    }
                }
            }
            assert(self.spare()) by {
                assert forall|i: int| 0 <= i < self.free@.len() implies (#[trigger] self.free@[i])
                    < self.entries@.len() && self.entries@[self.free@[i] as int] is None by {
                    assert(mid.free@[i] < mid.entries@.len());
                }
            }
            assert(self@.order =~= seq![key] + base@.order);
            assert(self.entries@[idx as int] is Some);
            assert(self@.data =~= base@.data.insert(key, (value, expires_at))) by {
                assert forall|k: K| #[trigger] base@.data.contains_key(k) implies self@.data[k]
                    == base@.data[k] by {
                    assert(base.map@.contains_key(k));
                    let a = base.lemma_place(k);
                    assert(mid.entries@[base.map@[k] as int] is Some);
                }
            }
        }
    }

    /// Writes `key` at time `now`.
    pub fn insert_at(&mut self, key: K, value: V, now: u64)
        requires
            old(self).wf(),
        ensures
            final(self).wf(),
            final(self).start() == old(self).start(),
            final(self)@ == old(self)@.inserted(key, value, now),
    {
        broadcast use vstd::std_specs::hash::group_hash_axioms;

        let expires_at: u64 = if now > u64::MAX - self.ttl {
            u64::MAX
        } else {
            now + self.ttl
        };
        proof {
            self.lemma_view_wf();
            self.lemma_len();
        }
        let held: Option<usize> = match self.map.get(&key) {
            Some(idx) => Some(*idx),
            None => None,
        };
        if let Some(idx) = held {
            self.touch(idx, Ghost(key));
            self.overwrite(idx, value, expires_at, Ghost(key));
            return ;
        }
        if self.map.len() == self.cap {
            self.evict();
        }
        self.push_new(key, value, expires_at);
    }

    /// The map has as many keys as the chain has slots.
    proof fn lemma_len(&self)
        requires
            self.wf(),
        ensures
            self.map@.len() == self.order@.len(),
            self.map@.dom().finite(),
    {
        let keys = self@.order;
        self.lemma_view_wf();
        assert(self.map@.dom() =~= keys.to_set()) by {
            assert forall|k: K| self.map@.dom().contains(k) <==> keys.to_set().contains(k) by {
                assert(self@.data.contains_key(k) <==> self.map@.contains_key(k));
            }
        }
        keys.unique_seq_to_set();
    }

    /// Writes `key`, which then lives for the time to live from now on.
    pub fn insert(&mut self, key: K, value: V)
        requires
            old(self).wf(),
        ensures
            final(self).wf(),
            final(self).start() == old(self).start(),
            exists|now: u64|
                {
                    &&& final(self)@ == #[trigger] old(self)@.inserted(key, value, now)
                    &&& is_time_since(old(self).start(), now)
                },
    {
        let now: u64 = nanos_since(&self.origin);
        self.insert_at(key, value, now);
    }

    /// Reads `key` at time `now`.
    pub fn get_at(&mut self, key: &K, now: u64) -> (r: Option<&V>)
        requires
            old(self).wf(),
        ensures
            final(self).wf(),
            final(self).start() == old(self).start(),
            final(self)@ == old(self)@.read(*key, now),
            r is Some <==> old(self)@.hit(*key, now),
            r matches Some(v) ==> *v == old(self)@.data[*key].0,
    {
        broadcast use vstd::std_specs::hash::group_hash_axioms;

        proof {
            self.lemma_view_wf();
        }
        let idx: usize = match self.map.get(key) {
            Some(idx) => *idx,
            None => {
                return None;
            },
        };
        proof {
            let p = self.lemma_place(*key);
        }
        let expired: bool = match &self.entries[idx] {
            Some(e) => e.expires_at < now,
            None => {
                return None;
            },
        };
        if expired {
            self.remove(key);
            return None;
        }
        self.touch(idx, Ghost(*key));
        proof {
            let p = self.lemma_place(*key);
            assert(self@.data[*key].0 == old(self)@.data[*key].0);
        }
        match &self.entries[idx] {
            Some(e) => Some(&e.value),
            None => None,
        }
    }

    /// Reads `key`, if it has not expired by now.
    pub fn get(&mut self, key: &K) -> (r: Option<&V>)
        requires
            old(self).wf(),
        ensures
            final(self).wf(),
            exists|now: u64|
                {
                    &&& final(self)@ == #[trigger] old(self)@.read(*key, now)
                    &&& r is Some <==> old(self)@.hit(*key, now)
                    &&& is_time_since(old(self).start(), now)
                },
            final(self).start() == old(self).start(),
            r matches Some(v) ==> *v == old(self)@.data[*key].0,
    {
        let now: u64 = nanos_since(&self.origin);
        self.get_at(key, now)
    }
}

/// The cache key of a log entry: the hash of the group's name, a byte that occurs in no name,
/// and the id.
pub open spec fn cache_key(key: Seq<char>, id: u64) -> u64 {
    DefaultHasher::spec_finish(seq![encode_utf8(key), seq![0xffu8], le_bytes(id as nat, 8)])
}

/// Hashes the name and id of a log entry to its cache key.
pub fn build_key(key: &str, id: u64) -> (r: u64)
    ensures
        r == cache_key(key@, id),
{
    let mut h = DefaultHasher::new();
    h.write(key.as_bytes());
    let mut end: Vec<u8> = Vec::new();
    end.push(0xffu8);
    h.write(end.as_slice());
    let mut id_bytes: Vec<u8> = Vec::new();
    push_le(&mut id_bytes, id, 8);
    h.write(id_bytes.as_slice());
    proof {
        assert(end@ =~= seq![0xffu8]);
        assert(id_bytes@ =~= le_bytes(id as nat, 8));
        assert(h@ =~= seq![encode_utf8(key@), seq![0xffu8], le_bytes(id as nat, 8)]);
    }
    h.finish()
}

/// An entry lives for the time to live from its last write, and reading it does not make it live
/// longer. A read of an entry that is alive makes it the one used last, and keeps the others in their
/// order. No read changes another entry.
pub proof fn law_lru_read<K, V>(
    c: LruView<K, V>,
    key: K,
    value: V,
    now: u64,
    later: u64,
    other: K,
)
    requires
        c.wf(),
        other != key,
        now + c.ttl <= u64::MAX,
    ensures
        c.inserted(key, value, now).hit(key, later) <==> later <= now + c.ttl,
        c.hit(key, now) ==> {
            let after = c.read(key, now);
            &&& after.data == c.data
            &&& after.order.len() == c.order.len()
            &&& after.order.first() == key
            &&& after.order.drop_first() == c.order.remove(c.order.index_of(key))
        },
        !c.hit(key, now) ==> !c.read(key, now).data.contains_key(key),
        c.read(key, now).data.contains_key(other) == c.data.contains_key(other),
        c.data.contains_key(other) ==> c.read(key, now).data[other] == c.data[other],
        c.read(key, now).ttl == c.ttl && c.read(key, now).cap == c.cap,
        !c.removed(key).data.contains_key(key),
        c.removed(key).data.contains_key(other) == c.data.contains_key(other),
        c.data.contains_key(other) ==> c.removed(key).data[other] == c.data[other],
{
    if c.hit(key, now) {
        assert(c.order.contains(key));
        let i = c.order.index_of(key);
        assert(c.order[i] == key);
        assert(c.read(key, now).order.drop_first() =~= c.order.remove(i));
    }
}

/// A key that is written is read back with its value while the time since the cache was made, as the
/// clock gave it for the read, is no later than the time to live from where it stood for the write.
/// From then on it is not there.
pub proof fn law_insert_then_get<K: Eq + Hash + Clone, V>(
    first: &mut LRU<K, V>,
    second: &mut LRU<K, V>,
    key: K,
    value: V,
    found: Option<&V>,
)
    requires
        call_ensures(LRU::<K, V>::insert, (first, key, value), ()),
        call_ensures(LRU::<K, V>::get, (second, &key), found),
        final(first)@ == old(second)@,
        old(first)@.wf(),
    ensures
        exists|wrote: u64, read: u64|
            {
                &&& #[trigger] is_time_since(old(first).start(), wrote)
                &&& #[trigger] is_time_since(old(second).start(), read)
                &&& read <= wrote + old(first)@.ttl ==> found == Some(&value)
                &&& read > wrote + old(first)@.ttl ==> found is None
            },
        final(first).start() == old(first).start(),
        final(second).start() == old(second).start(),
{
    let wrote = choose|now: u64|
        {
            &&& final(first)@ == #[trigger] old(first)@.inserted(key, value, now)
            &&& is_time_since(old(first).start(), now)
        };
    let read = choose|now: u64|
        {
            &&& final(second)@ == #[trigger] old(second)@.read(key, now)
            &&& found is Some <==> old(second)@.hit(key, now)
            &&& is_time_since(old(second).start(), now)
        };
    assert(is_time_since(old(first).start(), wrote) && is_time_since(old(second).start(), read));
    law_lru_write_then_read(old(first)@, key, value, wrote, read);
}

/// A key that is dropped gives up its value, and is not read back.
pub proof fn law_remove_then_get<K: Eq + Hash + Clone, V>(
    first: &mut LRU<K, V>,
    second: &mut LRU<K, V>,
    key: K,
    dropped: Option<V>,
    found: Option<&V>,
)
    requires
        call_ensures(LRU::<K, V>::remove, (first, &key), dropped),
        call_ensures(LRU::<K, V>::get, (second, &key), found),
        final(first)@ == old(second)@,
    ensures
        found is None,
        dropped is Some <==> old(first)@.data.contains_key(key),
        dropped matches Some(v) ==> v == old(first)@.data[key].0,
{
    let read = choose|now: u64|
        {
            &&& final(second)@ == #[trigger] old(second)@.read(key, now)
            &&& found is Some <==> old(second)@.hit(key, now)
            &&& is_time_since(old(second).start(), now)
        };
}

/// A full cache that takes one more key drops the key that was used longest ago, and no other.
pub proof fn law_full_cache_drops_least_recent<K: Eq + Hash + Clone, V>(
    cache: &mut LRU<K, V>,
    key: K,
    value: V,
    now: u64,
    other: K,
)
    requires
        call_ensures(LRU::<K, V>::insert_at, (cache, key, value, now), ()),
        old(cache)@.wf(),
        old(cache)@.order.len() == old(cache)@.cap,
        old(cache)@.cap > 0,
        !old(cache)@.data.contains_key(key),
        other != key,
    ensures
        final(cache)@.order.len() == old(cache)@.cap,
        final(cache)@.order.first() == key,
        !final(cache)@.data.contains_key(old(cache)@.order.last()),
        other != old(cache)@.order.last() ==> final(cache)@.data.contains_key(other) == old(
            cache,
        )@.data.contains_key(other),
        final(cache)@.data[key].0 == value,
{
    let c = old(cache)@;
    law_lru_evicts_least_recent(c, key, value, now, other);
    assert(c.order.contains(c.order.last()));
    law_lru_evicts_least_recent(c, key, value, now, c.order.last());
}

/// A new cache is empty, and has the capacity and the time to live that it is given.
pub proof fn law_new_cache<K: Eq + Hash + Clone, V>(cap: usize, ttl: u64, cache: LRU<K, V>, key: K)
    requires
        call_ensures(LRU::<K, V>::new, (cap, ttl), cache),
    ensures
        !cache@.data.contains_key(key),
        cache@.order.len() == 0 && cache@.cap == cap && cache@.ttl == ttl,
{
}

} // verus!
