//! An ordered map from entity ids to their slots in a table: an
//! insertion-ordered hash map whose n-th entry points at slot n.

use ordered_hash_map::OrderedHashMap;
use std::collections::hash_map::RandomState;
use vstd::prelude::*;

verus! {

/// `ordered_hash_map::OrderedHashMap`, a hash map that remembers the order
/// in which its keys were inserted. Nothing of its inside is visible here.
#[verifier::external_type_specification]
#[verifier::external_body]
#[verifier::reject_recursive_types(K)]
#[verifier::reject_recursive_types(V)]
#[verifier::reject_recursive_types(S)]
pub struct ExOrderedHashMap<K, V, S>(OrderedHashMap<K, V, S>);

/// The entries of an ordered map, each a key with its value, oldest
/// insertion first.
pub uninterp spec fn entries(map: OrderedHashMap<usize, usize, RandomState>) -> Seq<(usize, usize)>;

/// `OrderedHashMap::default`: a map without entries.
#[verifier::external_body]
fn empty_map() -> (map: OrderedHashMap<usize, usize, RandomState>)
    ensures
        entries(map) == Seq::<(usize, usize)>::empty(),
{
    OrderedHashMap::default()
}

/// `OrderedHashMap::get`: the value stored under `key`, if there is one.
#[verifier::external_body]
fn value_of(map: &OrderedHashMap<usize, usize, RandomState>, key: usize) -> (value: Option<usize>)
    ensures
        match value {
            Some(v) => entries(*map).contains((key, v)),
            None => forall|i: int| 0 <= i < entries(*map).len() ==> (#[trigger] entries(*map)[i]).0 != key,
        },
{
    map.get(&key).copied()
}

/// `OrderedHashMap::insert`: a new key is appended behind all entries; a
/// key that was present gives up its old value, which is returned, and its
/// entry moves behind all others with the new value.
#[verifier::external_body]
fn put(map: &mut OrderedHashMap<usize, usize, RandomState>, key: usize, value: usize) -> (prior: Option<usize>)
    ensures
        match prior {
            Some(v) => exists|i: int|
                0 <= i < entries(*old(map)).len() && #[trigger] entries(*old(map))[i] == (key, v)
                    && entries(*final(map)) == entries(*old(map)).remove(i).push((key, value)),
            None => {
                &&& forall|i: int|
                    0 <= i < entries(*old(map)).len() ==> (#[trigger] entries(*old(map))[i]).0 != key
                &&& entries(*final(map)) == entries(*old(map)).push((key, value))
            },
        },
{
    map.insert(key, value)
}

/// The slots of a table by id. The n-th id that was added has slot n.
pub struct SlotMap {
    map: OrderedHashMap<usize, usize, RandomState>,
    count: usize,
}

impl SlotMap {
    /// The ids in the order of their slots.
    pub closed spec fn ids(&self) -> Seq<usize> {
        entries(self.map).map_values(|e: (usize, usize)| e.0)
    }

    /// Every entry points at its own position, no id occurs twice, and the
    /// count is the number of entries.
    pub closed spec fn wf(&self) -> bool {
        &&& self.count == entries(self.map).len()
        &&& forall|i: int| 0 <= i < entries(self.map).len() ==> (#[trigger] entries(self.map)[i]).1 == i
        &&& self.ids().no_duplicates()
    }

    pub fn new() -> (slots: SlotMap)
        ensures
            slots.wf(),
            slots.ids() == Seq::<usize>::empty(),
    {
        let slots = SlotMap { map: empty_map(), count: 0 };
        assert(slots.ids() =~= Seq::<usize>::empty());
        slots
    }

    /// The number of ids.
    pub fn len(&self) -> (count: usize)
        requires
            self.wf(),
        ensures
            count == self.ids().len(),
    {
        self.count
    }

    /// The slot of `id`, if the id was added.
    pub fn slot(&self, id: usize) -> (slot: Option<usize>)
        requires
            self.wf(),
        ensures
            match slot {
                Some(k) => k < self.ids().len() && self.ids()[k as int] == id,
                None => !self.ids().contains(id),
            },
    {
        let found = value_of(&self.map, id);
        proof {
            let all = entries(self.map);
            match found {
                Some(v) => {
                    let i = choose|i: int| 0 <= i < all.len() && all[i] == (id, v);
                    assert(all[i].1 == i);
                    assert(self.ids()[i] == id);
                },
                None => {
                    assert forall|i: int| 0 <= i < self.ids().len() implies self.ids()[i] != id by {
                        assert(all[i].0 != id);
                    }
                },
            }
        }
        found
    }

    /// Gives `id` the next free slot, unless the id has one already.
    pub fn add(&mut self, id: usize) -> (added: bool)
        requires
            old(self).wf(),
            old(self).ids().len() < usize::MAX,
        ensures
            final(self).wf(),
            added == !old(self).ids().contains(id),
            added ==> final(self).ids() == old(self).ids().push(id),
            !added ==> final(self).ids() == old(self).ids(),
    {
        if self.slot(id).is_some() {
            return false;
        }
        let ghost before = entries(self.map);
        let prior = put(&mut self.map, id, self.count);
        proof {
            let after = entries(self.map);
            match prior {
                Some(v) => {
                    let i = choose|i: int| 0 <= i < before.len() && before[i] == (id, v);
                    assert(old(self).ids()[i] == id);
                    assert(false);
                },
                None => {},
            }
            assert(after == before.push((id, old(self).count)));
            assert(self.ids() =~= old(self).ids().push(id));
            assert forall|i: int, j: int|
                0 <= i < self.ids().len() && 0 <= j < self.ids().len() && i != j implies self.ids()[i]
                != self.ids()[j] by {
                if i < before.len() && j < before.len() {
                    assert(old(self).ids()[i] != old(self).ids()[j]);
                } else if i < before.len() {
                    assert(old(self).ids()[i] == self.ids()[i]);
                } else {
                    assert(old(self).ids()[j] == self.ids()[j]);
                }
            }
        }
        self.count = self.count + 1;
        true
    }

    /// What `wf` says of the ids: none occurs twice.
    pub proof fn lemma_distinct(&self)
        requires
            self.wf(),
        ensures
            self.ids().no_duplicates(),
    {
    }
}

} // verus!
