//! A map from text whose entries also stand in a row, so that they can be walked.

use crate::views::{copy_str, strings_view};
use vstd::hash_map::StringHashMap;
use vstd::prelude::*;

verus! {

/// A map from text. The entries stand in slots, and a hash index leads from a key to its slot.
#[verifier::reject_recursive_types(V)]
pub struct StrMap<V> {
    index: StringHashMap<usize>,
    slots: Vec<(String, V)>,
}

impl<V> View for StrMap<V> {
    type V = Map<Seq<char>, V>;

    closed spec fn view(&self) -> Map<Seq<char>, V> {
        Map::new(
            |k: Seq<char>| self.index@.contains_key(k),
            |k: Seq<char>| self.slots@[self.index@[k] as int].1,
        )
    }
}

impl<V> StrMap<V> {
    /// The index and the slots name each other.
    pub closed spec fn wf(&self) -> bool {
        &&& forall|i: int|
            0 <= i < self.slots@.len() ==> {
                &&& self.index@.contains_key((#[trigger] self.slots@[i]).0@)
                &&& self.index@[self.slots@[i].0@] == i
            }
        &&& forall|k: Seq<char>| #[trigger]
            self.index@.contains_key(k) ==> {
                &&& self.index@[k] < self.slots@.len()
                &&& self.slots@[self.index@[k] as int].0@ == k
            }
    }

    /// The keys in the order in which they are walked.
    pub closed spec fn order(&self) -> Seq<Seq<char>> {
        Seq::new(self.slots@.len(), |i: int| self.slots@[i].0@)
    }

    /// The walk meets each key once, and no others.
    pub proof fn lemma_order(&self)
        requires
            self.wf(),
        ensures
            self.order().no_duplicates(),
            self.order().to_set() == self@.dom(),
            self@.dom().finite(),
            self@.len() == self.order().len(),
            forall|k: Seq<char>| #[trigger] self@.contains_key(k) ==> self.order().contains(k),
            forall|i: int|
                0 <= i < self.order().len() ==> self@.contains_key(#[trigger] self.order()[i]),
    {
        let order = self.order();
        assert forall|i: int, j: int|
            0 <= i < order.len() && 0 <= j < order.len() && i != j implies order[i] != order[j] by {
            assert(self.slots@[i].0@ != self.slots@[j].0@);
        }
        assert forall|k: Seq<char>| #[trigger] self@.contains_key(k) implies order.contains(k) by {
            assert(order[self.index@[k] as int] == k);
        }
        assert forall|i: int| 0 <= i < order.len() implies self@.contains_key(
            #[trigger] order[i],
        ) by {
            assert(self.slots@[i].0@ == order[i]);
        }
        assert(order.to_set() =~= self@.dom()) by {
            assert forall|k: Seq<char>| order.to_set().contains(k) implies self@.dom().contains(
                k,
            ) by {
                let i = order.index_of(k);
                assert(order[i] == k);
            }
            assert forall|k: Seq<char>| self@.dom().contains(k) implies order.to_set().contains(
                k,
            ) by {
                assert(self@.contains_key(k));
            }
        }
        order.unique_seq_to_set();
    }

    pub fn new() -> (r: Self)
        ensures
            r.wf(),
            r@ == Map::<Seq<char>, V>::empty(),
    {
        let r = StrMap { index: StringHashMap::new(), slots: Vec::new() };
        assert(r@ =~= Map::<Seq<char>, V>::empty());
        r
    }

    pub fn len(&self) -> (n: usize)
        requires
            self.wf(),
        ensures
            n == self@.len(),
            n == self.order().len(),
    {
        proof {
            self.lemma_order();
        }
        self.slots.len()
    }

    pub fn contains_key(&self, key: &str) -> (r: bool)
        requires
            self.wf(),
        ensures
            r == self@.contains_key(key@),
    {
        self.index.contains_key(key)
    }

    pub fn get(&self, key: &str) -> (r: Option<&V>)
        requires
            self.wf(),
        ensures
            r == (if self@.contains_key(key@) {
                Some(&self@[key@])
            } else {
                None
            }),
    {
        match self.index.get(key) {
            Some(i) => Some(&self.slots[*i].1),
            None => None,
        }
    }

    /// Borrows the value of a key for change.
    pub fn get_mut(&mut self, key: &str) -> (r: Option<&mut V>)
        requires
            old(self).wf(),
        ensures
            final(self).wf(),
            final(self).order() == old(self).order(),
            match r {
                Some(v) => {
                    &&& old(self)@.contains_key(key@)
                    &&& *v == old(self)@[key@]
                    &&& final(self)@ == old(self)@.insert(key@, *final(v))
                },
                None => !old(self)@.contains_key(key@) && final(self)@ == old(self)@,
            },
    {
        match self.index.get(key) {
            Some(i) => Some(&mut self.slots[*i].1),
            None => None,
        }
    }

    /// Sets the value of a key.
    pub fn insert(&mut self, key: String, value: V)
        requires
            old(self).wf(),
        ensures
            final(self).wf(),
            final(self)@ == old(self)@.insert(key@, value),
    {
        let ghost was = *self;
        let slot: Option<usize> = match self.index.get(key.as_str()) {
            Some(i) => Some(*i),
            None => None,
        };
        match slot {
            Some(i) => {
                self.slots[i].1 = value;
                assert(self@ =~= was@.insert(key@, value));
            },
            None => {
                let i: usize = self.slots.len();
                let copy = copy_str(key.as_str());
                self.index.insert(copy, i);
                self.slots.push((key, value));
                proof {
                    assert forall|j: int| 0 <= j < self.slots@.len() implies {
                        &&& self.index@.contains_key((#[trigger] self.slots@[j]).0@)
                        &&& self.index@[self.slots@[j].0@] == j
                    } by {
                        if j < was.slots@.len() {
                            assert(self.slots@[j] == was.slots@[j]);
                        }
                    }
                    assert(self@ =~= was@.insert(key@, value));
                }
            },
        }
    }

    /// Drops a key. The last slot takes the place of the one that it leaves.
    pub fn remove(&mut self, key: &str) -> (r: Option<V>)
        requires
            old(self).wf(),
        ensures
            final(self).wf(),
            final(self)@ == old(self)@.remove(key@),
            r == (if old(self)@.contains_key(key@) {
                Some(old(self)@[key@])
            } else {
                None
            }),
    {
        let ghost was = *self;
        let i: usize = match self.index.get(key) {
            Some(i) => *i,
            None => {
                assert(self@ =~= was@.remove(key@));
                return None;
            },
        };
        let last: usize = self.slots.len() - 1;
        self.index.remove(key);
        let e = self.slots.swap_remove(i);
        if i < last {
            let moved = copy_str(self.slots[i].0.as_str());
            proof {
                assert(was.slots@[last as int].0@ == moved@);
                assert(moved@ != key@);
            }
            self.index.insert(moved, i);
        }
        proof {
            assert forall|j: int| 0 <= j < self.slots@.len() implies {
                &&& self.index@.contains_key((#[trigger] self.slots@[j]).0@)
                &&& self.index@[self.slots@[j].0@] == j
            } by {
                if j != i {
                    assert(self.slots@[j] == was.slots@[j]);
                }
                assert(was.slots@[last as int].0@ == was.slots@[last as int].0@);
            }
            assert forall|k: Seq<char>| #[trigger] self.index@.contains_key(k) implies {
                &&& self.index@[k] < self.slots@.len()
                &&& self.slots@[self.index@[k] as int].0@ == k
            } by {
                assert(was.index@.contains_key(k));
                assert(was.slots@[last as int].0@ == was.slots@[last as int].0@);
            }
            assert(self@ =~= was@.remove(key@)) by {
                assert forall|k: Seq<char>| #[trigger] self@.contains_key(k) implies self@[k]
                    == was@[k] by {
                    assert(was.index@.contains_key(k));
                    assert(was.slots@[last as int].0@ == was.slots@[last as int].0@);
                }
            }
        }
        Some(e.1)
    }

    /// The `i`th entry of the walk.
    pub fn at(&self, i: usize) -> (r: (&String, &V))
        requires
            self.wf(),
            i < self.order().len(),
        ensures
            r.0@ == self.order()[i as int],
            self@.contains_key(r.0@),
            *r.1 == self@[r.0@],
    {
        let e = &self.slots[i];
        (&e.0, &e.1)
    }

    /// The keys in the order of the walk.
    pub fn keys(&self) -> (r: Vec<String>)
        requires
            self.wf(),
        ensures
            strings_view(r@) == self.order(),
    {
        let mut r: Vec<String> = Vec::new();
        let mut i: usize = 0;
        while i < self.slots.len()
            invariant
                self.wf(),
                i <= self.slots.len(),
                r@.len() == i,
                forall|j: int| 0 <= j < i ==> (#[trigger] r@[j])@ == self.slots@[j].0@,
            decreases self.slots.len() - i,
        {
            r.push(copy_str(self.slots[i].0.as_str()));
            i = i + 1;
        }
        assert(strings_view(r@) =~= self.order());
        r
    }

    pub fn clear(&mut self)
        ensures
            final(self).wf(),
            final(self)@ == Map::<Seq<char>, V>::empty(),
    {
        self.index.clear();
        self.slots.clear();
        assert(self@ =~= Map::<Seq<char>, V>::empty());
    }
}

/// What is put in under a key is found under it, what is taken out is not found, and nothing else is
/// touched.
pub proof fn law_map_finds_what_is_put_in<V>(
    first: &mut StrMap<V>,
    second: &StrMap<V>,
    third: &mut StrMap<V>,
    fourth: &StrMap<V>,
    before: &StrMap<V>,
    key: String,
    name: &str,
    value: V,
    other: &str,
    was: Option<&V>,
    found: Option<&V>,
    others: Option<&V>,
    taken: Option<V>,
    there: bool,
)
    requires
        call_ensures(StrMap::<V>::insert, (first, key, value), ()),
        call_ensures(StrMap::<V>::get, (before, other), was),
        call_ensures(StrMap::<V>::get, (second, name), found),
        call_ensures(StrMap::<V>::get, (second, other), others),
        call_ensures(StrMap::<V>::remove, (third, name), taken),
        call_ensures(StrMap::<V>::contains_key, (fourth, name), there),
        before@ == old(first)@,
        final(first)@ == second@,
        second@ == old(third)@,
        final(third)@ == fourth@,
        name@ == key@,
        other@ != key@,
    ensures
        found == Some(&value),
        others == was,
        taken == Some(value),
        !there,
{
}

/// The keys of a map are those under which something is found, each once, and there are as many as the map
/// has entries. A map that is cleared has none.
pub proof fn law_map_lists_its_keys<V>(
    map: &StrMap<V>,
    keys: Vec<String>,
    n: usize,
    cleared: &mut StrMap<V>,
    key: Seq<char>,
)
    requires
        map.wf(),
        call_ensures(StrMap::<V>::keys, (map,), keys),
        call_ensures(StrMap::<V>::len, (map,), n),
        call_ensures(StrMap::<V>::clear, (cleared,), ()),
    ensures
        keys@.len() == n,
        strings_view(keys@).no_duplicates(),
        strings_view(keys@).contains(key) <==> map@.contains_key(key),
        !final(cleared)@.contains_key(key),
{
    map.lemma_order();
    assert(strings_view(keys@).len() == keys@.len());
    assert(map.order().to_set().contains(key) == map.order().contains(key));
}

} // verus!
