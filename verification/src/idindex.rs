//! An index of entries by id, kept in ascending order.

use vstd::prelude::*;

verus! {

/// The ids stand in strictly ascending order.
pub open spec fn ascending(ids: Seq<u64>) -> bool {
    forall|i: int, j: int| 0 <= i < j < ids.len() ==> #[trigger] ids[i] < #[trigger] ids[j]
}

/// `ids` are the keys of `m` from `lo` up to and with `hi`, in ascending order.
pub open spec fn are_ids_between<T>(m: Map<u64, T>, lo: int, hi: int, ids: Seq<u64>) -> bool {
    &&& ascending(ids)
    &&& forall|id: u64| #[trigger]
        ids.contains(id) <==> m.contains_key(id) && lo <= id && id <= hi
}

/// The keys of `m` from `lo` up to and with `hi`, in ascending order.
pub open spec fn ids_between<T>(m: Map<u64, T>, lo: int, hi: int) -> Seq<u64> {
    choose|ids: Seq<u64>| are_ids_between(m, lo, hi, ids)
}

/// The keys of `m` in ascending order.
pub open spec fn all_ids<T>(m: Map<u64, T>) -> Seq<u64> {
    ids_between(m, 0, u64::MAX as int)
}

/// Ascending ids are known by which ids they are.
pub proof fn lemma_ascending_unique(a: Seq<u64>, b: Seq<u64>)
    requires
        ascending(a),
        ascending(b),
        forall|x: u64| a.contains(x) <==> b.contains(x),
    ensures
        a == b,
    decreases a.len(),
{
    if a.len() == 0 {
        if b.len() > 0 {
            assert(b.contains(b[0]));
            assert(a.contains(b[0]));
        }
        assert(a =~= b);
    } else {
        assert(a.contains(a.last()));
        assert(b.contains(a.last()));
        assert(b.contains(b.last()));
        assert(a.contains(b.last()));
        let i = b.index_of(a.last());
        let j = a.index_of(b.last());
        assert(b[i] == a.last() && a[j] == b.last());
        assert(a.last() == b.last());
        let a1 = a.drop_last();
        let b1 = b.drop_last();
        assert forall|x: u64| a1.contains(x) <==> b1.contains(x) by {
            if a1.contains(x) {
                assert(a[a1.index_of(x)] == x);
                assert(a.contains(x));
                assert(b.contains(x));
                assert(b[b.index_of(x)] == x);
                assert(b1[b.index_of(x)] == x);
            }
            if b1.contains(x) {
                assert(b[b1.index_of(x)] == x);
                assert(b.contains(x));
                assert(a.contains(x));
                assert(a[a.index_of(x)] == x);
                assert(a1[a.index_of(x)] == x);
            }
        }
        lemma_ascending_unique(a1, b1);
        assert(a =~= a1.push(a.last()));
        assert(b =~= b1.push(b.last()));
    }
}

/// Ids that are the keys of `m` in a range are what `ids_between` names.
pub proof fn lemma_ids_between<T>(m: Map<u64, T>, lo: int, hi: int, ids: Seq<u64>)
    requires
        are_ids_between(m, lo, hi, ids),
    ensures
        ids_between(m, lo, hi) == ids,
{
    let named = ids_between(m, lo, hi);
    assert(are_ids_between(m, lo, hi, named));
    assert forall|x: u64| named.contains(x) <==> ids.contains(x) by {}
    lemma_ascending_unique(named, ids);
}

/// A finite map has its keys in ascending order.
pub proof fn lemma_ids_exist<T>(m: Map<u64, T>)
    requires
        m.dom().finite(),
    ensures
        are_ids_between(m, 0, u64::MAX as int, all_ids(m)),
    decreases m.dom().len(),
{
    if m.dom().len() == 0 {
        assert forall|id: u64| !m.contains_key(id) by {
            assert(!m.dom().contains(id));
        }
        assert(are_ids_between(m, 0, u64::MAX as int, Seq::<u64>::empty()));
    } else {
        let x = lemma_max_id(m.dom());
        let rest = m.remove(x);
        lemma_ids_exist(rest);
        let ids = all_ids(rest).push(x);
        assert(are_ids_between(m, 0, u64::MAX as int, ids)) by {
            assert forall|i: int, j: int| 0 <= i < j < ids.len() implies #[trigger] ids[i]
                < #[trigger] ids[j] by {
                if j == ids.len() - 1 {
                    assert(all_ids(rest).contains(ids[i]));
                    assert(rest.contains_key(ids[i]));
                    assert(m.dom().contains(ids[i]));
                }
            }
            assert forall|id: u64| #[trigger] ids.contains(id) <==> m.contains_key(id) && 0 <= id
                && id <= u64::MAX by {
                if ids.contains(id) {
                    let i = ids.index_of(id);
                    assert(ids[i] == id);
                    if i < ids.len() - 1 {
                        assert(all_ids(rest)[i] == id);
                        assert(all_ids(rest).contains(id));
                    } else {
                        assert(m.dom().contains(x));
                    }
                }
                if m.contains_key(id) {
                    if id == x {
                        assert(ids[ids.len() - 1] == id);
                    } else {
                        assert(rest.contains_key(id));
                        assert(all_ids(rest).contains(id));
                        let i = all_ids(rest).index_of(id);
                        assert(ids[i] == id);
                    }
                }
            }
        }
    }
}

/// A finite map has its keys of a range in ascending order.
pub proof fn lemma_ids_between_exist<T>(m: Map<u64, T>, lo: int, hi: int)
    requires
        m.dom().finite(),
    ensures
        are_ids_between(m, lo, hi, ids_between(m, lo, hi)),
{
    let part = m.restrict(Set::new(|id: u64| lo <= id && id <= hi));
    assert(part.dom() =~= m.dom().intersect(Set::new(|id: u64| lo <= id && id <= hi)));
    lemma_ids_exist(part);
    assert(are_ids_between(m, lo, hi, all_ids(part)));
}

/// A finite set of ids that is not empty has a greatest one.
proof fn lemma_max_id(s: Set<u64>) -> (x: u64)
    requires
        s.finite(),
        s.len() > 0,
    ensures
        s.contains(x),
        forall|y: u64| s.contains(y) ==> y <= x,
    decreases s.len(),
{
    let a = s.choose();
    if s.len() == 1 {
        assert forall|y: u64| s.contains(y) implies y <= a by {
            if y != a {
                assert(s.remove(a).contains(y));
                assert(s.remove(a).len() == 0);
            }
        }
        a
    } else {
        let b = lemma_max_id(s.remove(a));
        let x = if a > b { a } else { b };
        assert forall|y: u64| s.contains(y) implies y <= x by {
            if y != a {
                assert(s.remove(a).contains(y));
            }
        }
        x
    }
}

/// A map from ids.
pub struct IdIndex<T> {
    items: Vec<(u64, T)>,
}

impl<T: Copy> View for IdIndex<T> {
    type V = Map<u64, T>;

    closed spec fn view(&self) -> Map<u64, T> {
        Map::new(
            |id: u64| self.ids().contains(id),
            |id: u64| self.items@[self.ids().index_of(id)].1,
        )
    }
}

impl<T: Copy> IdIndex<T> {
    /// The ids in the order in which they stand.
    pub closed spec fn ids(&self) -> Seq<u64> {
        Seq::new(self.items@.len(), |i: int| self.items@[i].0)
    }

    pub closed spec fn wf(&self) -> bool {
        ascending(self.ids())
    }

    /// The ids are the keys of the view, in ascending order.
    pub proof fn lemma_ids(&self)
        requires
            self.wf(),
        ensures
            ascending(self.ids()),
            are_ids_between(self@, 0, u64::MAX as int, self.ids()),
            all_ids(self@) == self.ids(),
            forall|id: u64| self.ids().contains(id) <==> #[trigger] self@.contains_key(id),
            self@.dom().finite(),
            self@.len() == self.ids().len(),
    {
        lemma_ids_between(self@, 0, u64::MAX as int, self.ids());
        assert(self.ids().no_duplicates());
        self.ids().unique_seq_to_set();
        assert(self.ids().to_set() =~= self@.dom());
    }

    /// The item at a place is that of its id.
    proof fn lemma_at(&self, i: int)
        requires
            self.wf(),
            0 <= i < self.items@.len(),
        ensures
            self@.contains_key(self.items@[i].0),
            self@[self.items@[i].0] == self.items@[i].1,
            self.ids()[i] == self.items@[i].0,
    {
        let id = self.items@[i].0;
        assert(self.ids()[i] == id);
        assert(self.ids().contains(id));
        let j = self.ids().index_of(id);
        assert(self.ids()[j] == id);
        assert(i == j);
    }

    pub fn new() -> (r: Self)
        ensures
            r.wf(),
            r@ == Map::<u64, T>::empty(),
    {
        let r = IdIndex { items: Vec::new() };
        assert(r@ =~= Map::<u64, T>::empty());
        r
    }

    pub fn len(&self) -> (n: usize)
        ensures
            n == self.ids().len(),
    {
        self.items.len()
    }

    /// The `i`th id and its item.
    pub fn at(&self, i: usize) -> (r: (u64, T))
        requires
            self.wf(),
            i < self.ids().len(),
        ensures
            r.0 == self.ids()[i as int],
            self@.contains_key(r.0),
            r.1 == self@[r.0],
    {
        proof {
            self.lemma_at(i as int);
        }
        self.items[i]
    }

    /// How many ids lie below `id`.
    pub fn lower_bound(&self, id: u64) -> (p: usize)
        requires
            self.wf(),
        ensures
            p <= self.ids().len(),
            forall|i: int| 0 <= i < p ==> #[trigger] self.ids()[i] < id,
            forall|i: int| p <= i < self.ids().len() ==> #[trigger] self.ids()[i] >= id,
    {
        let mut lo: usize = 0;
        let mut hi: usize = self.items.len();
        while lo < hi
            invariant
                self.wf(),
                lo <= hi <= self.items.len(),
                forall|i: int| 0 <= i < lo ==> #[trigger] self.ids()[i] < id,
                forall|i: int| hi <= i < self.ids().len() ==> #[trigger] self.ids()[i] >= id,
            decreases hi - lo,
        {
            let mid: usize = lo + (hi - lo) / 2;
            assert(self.ids()[mid as int] == self.items@[mid as int].0);
            if self.items[mid].0 < id {
                lo = mid + 1;
            } else {
                hi = mid;
            }
        }
        lo
    }

    pub fn get(&self, id: u64) -> (r: Option<T>)
        requires
            self.wf(),
        ensures
            r == (if self@.contains_key(id) {
                Some(self@[id])
            } else {
                None
            }),
    {
        let p: usize = self.lower_bound(id);
        if p < self.items.len() {
            proof {
                self.lemma_at(p as int);
            }
            if self.items[p].0 == id {
                return Some(self.items[p].1);
            }
        }
        proof {
            if self@.contains_key(id) {
                let j = self.ids().index_of(id);
                assert(self.ids()[j] == id);
            }
        }
        None
    }

    /// Sets the item of an id.
    pub fn insert(&mut self, id: u64, item: T)
        requires
            old(self).wf(),
        ensures
            final(self).wf(),
            final(self)@ == old(self)@.insert(id, item),
    {
        let ghost was = *self;
        let p: usize = self.lower_bound(id);
        if p < self.items.len() && self.items[p].0 == id {
            self.items[p] = (id, item);
            proof {
                assert(self.ids() =~= was.ids());
                was.lemma_at(p as int);
                self.lemma_at(p as int);
                assert(self@ =~= was@.insert(id, item)) by {
                    assert forall|k: u64| #[trigger] was@.contains_key(k) && k != id implies self@[k]
                        == was@[k] by {
                        let j = was.ids().index_of(k);
                        assert(was.ids()[j] == k);
                    }
                }
            }
        } else {
            proof {
                if p < was.items@.len() {
                    assert(was.ids()[p as int] > id);
                }
            }
            self.items.insert(p, (id, item));
            proof {
                let ids = was.ids();
                assert(self.ids() =~= ids.insert(p as int, id));
                assert(ascending(self.ids())) by {
                    assert forall|i: int, j: int| 0 <= i < j < self.ids().len() implies
                        #[trigger] self.ids()[i] < #[trigger] self.ids()[j] by {
                        let a = if i < p { i } else { i - 1 };
                        let b = if j < p { j } else { j - 1 };
                        if i != p && j != p {
                            assert(ids[a] < ids[b]);
                        } else if i == p {
                            assert(ids[b] >= id);
                        } else {
                            assert(ids[a] < id);
                        }
                    }
                }
                self.lemma_at(p as int);
                assert(self@ =~= was@.insert(id, item)) by {
                    assert forall|k: u64| #[trigger] self@.contains_key(k) && k != id implies
                        was@.contains_key(k) && self@[k] == was@[k] by {
                        let j = self.ids().index_of(k);
                        assert(self.ids()[j] == k);
                        let i = if j < p { j } else { j - 1 };
                        was.lemma_at(i);
                        self.lemma_at(j);
                    }
                    assert forall|k: u64| #[trigger] was@.contains_key(k) implies
                        self@.contains_key(k) by {
                        let i = was.ids().index_of(k);
                        assert(was.ids()[i] == k);
                        let j = if i < p { i } else { i + 1 };
                        self.lemma_at(j);
                    }
                }
            }
        }
    }

    /// Drops an id.
    pub fn remove(&mut self, id: u64)
        requires
            old(self).wf(),
        ensures
            final(self).wf(),
            final(self)@ == old(self)@.remove(id),
    {
        let ghost was = *self;
        let p: usize = self.lower_bound(id);
        if p < self.items.len() && self.items[p].0 == id {
            self.items.remove(p);
            proof {
                was.lemma_at(p as int);
                assert(self.ids() =~= was.ids().remove(p as int));
                assert forall|k: u64| #[trigger] self@.contains_key(k) implies was@.contains_key(k)
                    && k != id && self@[k] == was@[k] by {
                    let j = self.ids().index_of(k);
                    assert(self.ids()[j] == k);
                    self.lemma_at(j);
                    was.lemma_at(if j < p { j } else { j + 1 });
                }
                assert forall|k: u64| #[trigger] was@.contains_key(k) && k != id implies
                    self@.contains_key(k) by {
                    let j = was.ids().index_of(k);
                    assert(was.ids()[j] == k);
                    self.lemma_at(if j < p { j } else { j - 1 });
                }
                assert(self@ =~= was@.remove(id));
            }
        } else {
            proof {
                if was@.contains_key(id) {
                    let j = was.ids().index_of(id);
                    assert(was.ids()[j] == id);
                    was.lemma_at(p as int);
                }
                assert(self@ =~= was@.remove(id));
            }
        }
    }

    /// A copy of the index.
    pub fn copy(&self) -> (r: Self)
        ensures
            r@ == self@,
            r.ids() == self.ids(),
            r.wf() == self.wf(),
    {
        let mut items: Vec<(u64, T)> = Vec::new();
        let mut i: usize = 0;
        while i < self.items.len()
            invariant
                i <= self.items@.len(),
                items@ =~= self.items@.take(i as int),
            decreases self.items@.len() - i,
        {
            items.push(self.items[i]);
            i = i + 1;
        }
        assert(items@ =~= self.items@);
        IdIndex { items }
    }

    /// Drops the ids below `cutoff` and gives them back, in ascending order.
    pub fn remove_below(&mut self, cutoff: u64) -> (r: Vec<u64>)
        requires
            old(self).wf(),
        ensures
            final(self).wf(),
            final(self)@ == old(self)@.restrict(Set::new(|id: u64| id >= cutoff)),
            r@ == ids_between(old(self)@, 0, cutoff - 1),
            are_ids_between(old(self)@, 0, cutoff - 1, r@),
            r@.len() + final(self).ids().len() == old(self).ids().len(),
    {
        let ghost was = *self;
        let p: usize = self.lower_bound(cutoff);
        let mut r: Vec<u64> = Vec::new();
        let mut i: usize = 0;
        while i < p
            invariant
                *self == was,
                i <= p <= self.items.len(),
                r@ =~= self.ids().subrange(0, i as int),
            decreases p - i,
        {
            r.push(self.items[i].0);
            i = i + 1;
        }
        let tail = self.items.split_off(p);
        self.items = tail;
        proof {
            let n = was.ids().len() as int;
            assert(self.ids() =~= was.ids().subrange(p as int, n));
            assert(self@ =~= was@.restrict(Set::new(|id: u64| id >= cutoff))) by {
                assert forall|k: u64| #[trigger] self@.contains_key(k) implies was@.contains_key(k)
                    && k >= cutoff && self@[k] == was@[k] by {
                    let j = self.ids().index_of(k);
                    assert(self.ids()[j] == k);
                    was.lemma_at(j + p);
                    self.lemma_at(j);
                }
                assert forall|k: u64| #[trigger] was@.contains_key(k) && k >= cutoff implies
                    self@.contains_key(k) by {
                    let j = was.ids().index_of(k);
                    assert(was.ids()[j] == k);
                    self.lemma_at(j - p);
                }
            }
            assert(are_ids_between(was@, 0, cutoff - 1, r@)) by {
                assert forall|id: u64| #[trigger] r@.contains(id) <==> was@.contains_key(id) && 0
                    <= id && id <= cutoff - 1 by {
                    if r@.contains(id) {
                        let j = r@.index_of(id);
                        assert(was.ids()[j] == id);
                        was.lemma_at(j);
                    }
                    if was@.contains_key(id) && id < cutoff {
                        let j = was.ids().index_of(id);
                        assert(was.ids()[j] == id);
                        assert(r@[j] == id);
                    }
                }
            }
            lemma_ids_between(was@, 0, cutoff - 1, r@);
        }
        r
    }
}

/// What is put in under an id is found under it, what is taken out is not found, and nothing else is
/// touched.
pub proof fn law_index_finds_what_is_put_in<T: Copy>(
    first: &mut IdIndex<T>,
    second: &IdIndex<T>,
    third: &mut IdIndex<T>,
    fourth: &IdIndex<T>,
    before: &IdIndex<T>,
    id: u64,
    item: T,
    other: u64,
    was: Option<T>,
    found: Option<T>,
    others: Option<T>,
    gone: Option<T>,
)
    requires
        call_ensures(IdIndex::<T>::insert, (first, id, item), ()),
        call_ensures(IdIndex::<T>::get, (before, other), was),
        call_ensures(IdIndex::<T>::get, (second, id), found),
        call_ensures(IdIndex::<T>::get, (second, other), others),
        call_ensures(IdIndex::<T>::remove, (third, id), ()),
        call_ensures(IdIndex::<T>::get, (fourth, id), gone),
        before@ == old(first)@,
        final(first)@ == second@,
        second@ == old(third)@,
        final(third)@ == fourth@,
        other != id,
    ensures
        found == Some(item),
        others == was,
        gone is None,
{
}

/// What stands below a cutoff is taken out, its ids are told in order, and what is left stays.
pub proof fn law_index_drops_below<T: Copy>(
    index: &mut IdIndex<T>,
    cutoff: u64,
    gone: Vec<u64>,
    id: u64,
    i: int,
    j: int,
)
    requires
        call_ensures(IdIndex::<T>::remove_below, (index, cutoff), gone),
    ensures
        0 <= i < j < gone@.len() ==> gone@[i] < gone@[j],
        gone@.contains(id) <==> old(index)@.contains_key(id) && id < cutoff,
        final(index)@.contains_key(id) <==> old(index)@.contains_key(id) && id >= cutoff,
        final(index)@.contains_key(id) ==> final(index)@[id] == old(index)@[id],
{
}

} // verus!
