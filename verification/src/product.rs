//! Products and the table that reaches one product record under several
//! keys: its numeric id and, where it has one, its alias.

use multi_key_map::MultiKeyMap;
use crate::category::clone_ids;
use crate::natural::{natural_order, natural_ordering, order_of};
use std::cmp::Ordering;
use std::collections::HashSet;
use vstd::prelude::*;

verus! {

/// One of the two ways to address a product.
#[derive(Debug, PartialEq, Eq, Hash)]
pub enum ProductKey {
    Id(usize),
    Upid(String),
}

/// What a product key stands for: a number, or the text of an alias.
pub enum KeyModel {
    Id(usize),
    Upid(Seq<char>),
}

impl View for ProductKey {
    type V = KeyModel;

    open spec fn view(&self) -> KeyModel {
        match self {
            ProductKey::Id(n) => KeyModel::Id(*n),
            ProductKey::Upid(text) => KeyModel::Upid(text@),
        }
    }
}

/// A copy of a key addresses the same thing.
impl Clone for ProductKey {
    fn clone(&self) -> (copy: Self)
        ensures
            copy@ == self@,
    {
        self.duplicate()
    }
}

impl ProductKey {
    /// Whether two keys address the same thing.
    pub fn same(&self, other: &ProductKey) -> (same: bool)
        ensures
            same == (self@ == other@),
    {
        match (self, other) {
            (ProductKey::Id(a), ProductKey::Id(b)) => *a == *b,
            (ProductKey::Upid(a), ProductKey::Upid(b)) => *a == *b,
            _ => false,
        }
    }

    /// A second key for the same thing.
    pub fn duplicate(&self) -> (copy: ProductKey)
        ensures
            copy@ == self@,
    {
        match self {
            ProductKey::Id(n) => ProductKey::Id(*n),
            ProductKey::Upid(text) => ProductKey::Upid(text.clone()),
        }
    }
}

/// A product: the presets of one content root, or of several roots that
/// share an alias.
#[derive(Debug)]
pub struct Product {
    pub id: usize,
    pub name: String,
    pub content_dir: String,
    pub vendor: String,
    pub upid: String,
    pub presets: HashSet<usize>,
}

/// A copy of a product says what the product says, field by field.
impl Clone for Product {
    fn clone(&self) -> (copy: Self)
        ensures
            copy.id == self.id,
            copy.name == self.name,
            copy.content_dir == self.content_dir,
            copy.vendor == self.vendor,
            copy.upid == self.upid,
            copy.presets@ == self.presets@,
    {
        Product {
            id: self.id,
            name: self.name.clone(),
            content_dir: self.content_dir.clone(),
            vendor: self.vendor.clone(),
            upid: self.upid.clone(),
            presets: clone_ids(&self.presets),
        }
    }
}

/// Two values are the same product where their ids are the same.
impl PartialEq for Product {
    fn eq(&self, other: &Self) -> (same: bool) {
        self.id == other.id
    }
}

impl vstd::std_specs::cmp::PartialEqSpecImpl for Product {
    open spec fn obeys_eq_spec() -> bool {
        true
    }

    open spec fn eq_spec(&self, other: &Self) -> bool {
        self.id == other.id
    }
}

impl Eq for Product {
}

/// Products are ordered by their names, in natural order.
impl PartialOrd for Product {
    fn partial_cmp(&self, other: &Self) -> (order: Option<Ordering>) {
        Some(natural_ordering(self.name.as_str(), other.name.as_str()))
    }
}

impl vstd::std_specs::cmp::PartialOrdSpecImpl for Product {
    open spec fn obeys_partial_cmp_spec() -> bool {
        true
    }

    open spec fn partial_cmp_spec(&self, other: &Self) -> Option<Ordering> {
        Some(order_of(natural_order(self.name@, other.name@)))
    }
}

/// `multi_key_map::MultiKeyMap`, a hash map in which several keys may lead
/// to one value. Nothing of its inside is visible here.
#[verifier::external_type_specification]
#[verifier::external_body]
#[verifier::reject_recursive_types(K)]
#[verifier::reject_recursive_types(V)]
pub struct ExMultiKeyMap<K: std::hash::Hash + Eq, V>(MultiKeyMap<K, V>);

/// Whether `key` is one of `keys`.
pub open spec fn lists_key(keys: Seq<ProductKey>, key: KeyModel) -> bool {
    exists|i: int| 0 <= i < keys.len() && (#[trigger] keys[i])@ == key
}

/// The map that binds each of `keys` to `slot`, and nothing else.
pub open spec fn bound_to(keys: Seq<ProductKey>, slot: usize) -> Map<KeyModel, usize> {
    Map::new(|k: KeyModel| lists_key(keys, k), |k: KeyModel| slot)
}

/// The value that a multi-key map holds under each of its keys.
pub uninterp spec fn key_slots(map: MultiKeyMap<ProductKey, usize>) -> Map<KeyModel, usize>;

/// `MultiKeyMap::new`: a map without keys.
#[verifier::external_body]
fn no_keys() -> (map: MultiKeyMap<ProductKey, usize>)
    ensures
        key_slots(map).dom() == Set::<KeyModel>::empty(),
{
    MultiKeyMap::new()
}

/// `MultiKeyMap::get`: the value under `key`, if the key is bound.
#[verifier::external_body]
fn slot_under(map: &MultiKeyMap<ProductKey, usize>, key: &ProductKey) -> (slot: Option<usize>)
    ensures
        match slot {
            Some(s) => key_slots(*map).contains_key(key@) && key_slots(*map)[key@] == s,
            None => !key_slots(*map).contains_key(key@),
        },
{
    map.get(key).copied()
}

/// `MultiKeyMap::insert_many` for keys that differ from each other and of
/// which the map holds none: afterwards each of them leads to `slot`, and
/// every other key is as before.
#[verifier::external_body]
fn bind_all(map: &mut MultiKeyMap<ProductKey, usize>, keys: Vec<ProductKey>, slot: usize)
    requires
        forall|i: int, j: int| 0 <= i < j < keys@.len() ==> keys@[i]@ != keys@[j]@,
        forall|i: int| 0 <= i < keys@.len() ==> !key_slots(*old(map)).contains_key(#[trigger] keys@[i]@),
    ensures
        key_slots(*final(map)) == key_slots(*old(map)).union_prefer_right(bound_to(keys@, slot)),
{
    map.insert_many(keys, slot);
}

/// `MultiKeyMap::remove`: `key` is bound no longer, and every other key is
/// as before.
#[verifier::external_body]
fn unbind(map: &mut MultiKeyMap<ProductKey, usize>, key: &ProductKey)
    ensures
        key_slots(*final(map)) == key_slots(*old(map)).remove(key@),
{
    map.remove(key);
}

/// Whether no key of `keys` occurs twice.
pub open spec fn distinct_keys(keys: Seq<ProductKey>) -> bool {
    forall|i: int, j: int| 0 <= i < j < keys.len() ==> keys[i]@ != keys[j]@
}

/// The product records of an index, each reachable under all of its keys.
pub struct ProductTable {
    keys: MultiKeyMap<ProductKey, usize>,
    records: Vec<Option<Product>>,
    bound: Vec<Vec<ProductKey>>,
}

impl ProductTable {
    /// The slot that each bound key leads to.
    pub closed spec fn slots(&self) -> Map<KeyModel, usize> {
        key_slots(self.keys)
    }

    /// The records by slot. The slot of a record that was removed stays
    /// behind, empty.
    pub closed spec fn records(&self) -> Seq<Option<Product>> {
        self.records@
    }

    /// Whether `key` is bound.
    pub open spec fn binds(&self, key: KeyModel) -> bool {
        self.slots().contains_key(key)
    }

    /// The record that `key` leads to.
    pub open spec fn lookup(&self, key: KeyModel) -> Option<Product> {
        if self.binds(key) {
            self.records()[self.slots()[key] as int]
        } else {
            None
        }
    }

    /// Every bound key leads to a record that is there.
    pub open spec fn sound(&self) -> bool {
        forall|k: KeyModel| #[trigger]
            self.binds(k) ==> self.slots()[k] < self.records().len() && self.records()[self.slots()[k] as int]
                is Some
    }

    /// The table's invariant: it is sound, and it knows of each record the
    /// keys that lead to it.
    pub closed spec fn wf(&self) -> bool {
        &&& self.sound()
        &&& self.bound@.len() == self.records@.len()
        &&& forall|k: KeyModel| #[trigger]
            self.binds(k) ==> lists_key(self.bound@[self.slots()[k] as int]@, k)
        &&& forall|s: int, j: int|
            0 <= s < self.bound@.len() && 0 <= j < self.bound@[s]@.len() ==> self.binds(
                (#[trigger] self.bound@[s]@[j])@,
            ) && self.slots()[self.bound@[s]@[j]@] == s
    }

    /// What the invariant says to every caller.
    pub proof fn lemma_sound(&self)
        requires
            self.wf(),
        ensures
            self.sound(),
    {
    }

    pub fn new() -> (table: ProductTable)
        ensures
            table.wf(),
            table.records().len() == 0,
            table.slots() == Map::<KeyModel, usize>::empty(),
    {
        let table = ProductTable { keys: no_keys(), records: Vec::new(), bound: Vec::new() };
        assert(table.slots() =~= Map::<KeyModel, usize>::empty());
        table
    }

    /// The number of slots, those of removed records included.
    pub fn len(&self) -> (count: usize)
        ensures
            count == self.records().len(),
    {
        self.records.len()
    }

    /// The record in `slot`, if it was not removed.
    pub fn at(&self, slot: usize) -> (record: Option<&Product>)
        requires
            slot < self.records().len(),
        ensures
            match record {
                Some(r) => self.records()[slot as int] == Some(*r),
                None => self.records()[slot as int] is None,
            },
    {
        self.records[slot].as_ref()
    }

    /// The slot that `key` leads to.
    pub fn slot(&self, key: &ProductKey) -> (slot: Option<usize>)
        requires
            self.wf(),
        ensures
            match slot {
                Some(s) => self.binds(key@) && self.slots()[key@] == s && s < self.records().len()
                    && self.records()[s as int] is Some,
                None => !self.binds(key@),
            },
    {
        let slot = slot_under(&self.keys, key);
        assert(slot is Some ==> self.binds(key@));
        slot
    }

    pub fn contains_key(&self, key: &ProductKey) -> (bound: bool)
        requires
            self.wf(),
        ensures
            bound == self.binds(key@),
    {
        self.slot(key).is_some()
    }

    /// The record that `key` leads to.
    pub fn get(&self, key: &ProductKey) -> (record: Option<&Product>)
        requires
            self.wf(),
        ensures
            match record {
                Some(r) => self.lookup(key@) == Some(*r),
                None => self.lookup(key@) is None,
            },
    {
        match self.slot(key) {
            Some(s) => self.records[s].as_ref(),
            None => None,
        }
    }

    /// Whether the table takes a new record under `keys`: there is at least
    /// one key, no key occurs twice, and none is bound.
    pub open spec fn accepts(&self, keys: Seq<ProductKey>) -> bool {
        &&& keys.len() > 0
        &&& distinct_keys(keys)
        &&& forall|i: int| 0 <= i < keys.len() ==> !self.binds(#[trigger] keys[i]@)
    }

    /// `self` differs from `before` by one more record, in slot `slot` and
    /// bound under exactly the keys `keys`.
    pub open spec fn extends(&self, before: &ProductTable, keys: Seq<ProductKey>, record: Product, slot: usize) -> bool {
        &&& slot == before.records().len()
        &&& self.records() == before.records().push(Some(record))
        &&& forall|k: KeyModel| #[trigger] self.binds(k) <==> before.binds(k) || lists_key(keys, k)
        &&& forall|k: KeyModel| before.binds(k) ==> #[trigger] self.slots()[k] == before.slots()[k]
        &&& forall|k: KeyModel| lists_key(keys, k) ==> #[trigger] self.slots()[k] == slot
    }

    /// `self` holds what `other` holds.
    pub open spec fn same_as(&self, other: &ProductTable) -> bool {
        &&& self.records() == other.records()
        &&& self.slots() == other.slots()
    }

    /// Whether the table takes a new record under `keys`.
    fn takes(&self, keys: &Vec<ProductKey>) -> (ok: bool)
        requires
            self.wf(),
        ensures
            ok == self.accepts(keys@),
    {
        if keys.len() == 0 {
            return false;
        }
        let mut i: usize = 0;
        while i < keys.len()
            invariant
                self.wf(),
                i <= keys.len(),
                forall|a: int| 0 <= a < i ==> !self.binds(#[trigger] keys@[a]@),
                forall|a: int, b: int| 0 <= a < b < i ==> keys@[a]@ != keys@[b]@,
            decreases keys.len() - i,
        {
            if self.slot(&keys[i]).is_some() {
                return false;
            }
            let mut j: usize = 0;
            while j < i
                invariant
                    j <= i < keys.len(),
                    forall|a: int| 0 <= a < j ==> keys@[a]@ != keys@[i as int]@,
                decreases i - j,
            {
                if keys[j].same(&keys[i]) {
                    return false;
                }
                j = j + 1;
            }
            i = i + 1;
        }
        true
    }

    /// Adds `record` under `keys` and gives back its slot. The record is
    /// handed back, and nothing changes, where the table does not accept
    /// the keys: a key that is bound already is never bound anew.
    pub fn insert(&mut self, keys: Vec<ProductKey>, record: Product) -> (outcome: Result<usize, Product>)
        requires
            old(self).wf(),
        ensures
            final(self).wf(),
            match outcome {
                Ok(slot) => old(self).accepts(keys@) && final(self).extends(old(self), keys@, record, slot),
                Err(back) => !old(self).accepts(keys@) && back == record && final(self).same_as(old(self)),
            },
    {
        if !self.takes(&keys) {
            return Err(record);
        }
        let slot = self.records.len();
        let mut kept: Vec<ProductKey> = Vec::new();
        let mut i: usize = 0;
        while i < keys.len()
            invariant
                i <= keys.len(),
                kept@.len() == i,
                forall|a: int| 0 <= a < i ==> (#[trigger] kept@[a])@ == keys@[a]@,
            decreases keys.len() - i,
        {
            kept.push(keys[i].duplicate());
            i = i + 1;
        }
        let ghost listed = keys@;
        bind_all(&mut self.keys, keys, slot);
        self.records.push(Some(record));
        self.bound.push(kept);
        proof {
            assert forall|k: KeyModel| #[trigger] self.binds(k) implies self.slots()[k]
                < self.records().len() && self.records()[self.slots()[k] as int] is Some by {
                if lists_key(listed, k) {
                } else {
                    assert(old(self).binds(k));
                }
            }
            assert forall|k: KeyModel| #[trigger] self.binds(k) implies lists_key(
                self.bound@[self.slots()[k] as int]@,
                k,
            ) by {
                if lists_key(listed, k) {
                    let i = choose|i: int| 0 <= i < listed.len() && (#[trigger] listed[i])@ == k;
                    assert(kept@[i]@ == k);
                } else {
                    assert(old(self).binds(k));
                    assert(lists_key(old(self).bound@[old(self).slots()[k] as int]@, k));
                }
            }
            assert forall|s: int, j: int|
                0 <= s < self.bound@.len() && 0 <= j < self.bound@[s]@.len() implies self.binds(
                (#[trigger] self.bound@[s]@[j])@,
            ) && self.slots()[self.bound@[s]@[j]@] == s by {
                if s < old(self).bound@.len() {
                    assert(old(self).binds(old(self).bound@[s]@[j]@));
                } else {
                    assert(kept@[j]@ == listed[j]@);
                }
            }
            assert forall|k: KeyModel| lists_key(listed, k) implies #[trigger] self.slots()[k] == slot by {
                let i = choose|i: int| 0 <= i < listed.len() && (#[trigger] listed[i])@ == k;
            }
        }
        Ok(slot)
    }

    /// `self` differs from `before` by one more key, `extra`, which leads
    /// where `existing` leads.
    pub open spec fn aliases(&self, before: &ProductTable, existing: KeyModel, extra: KeyModel) -> bool {
        &&& self.records() == before.records()
        &&& self.slots() == before.slots().insert(extra, before.slots()[existing])
    }

    /// Binds one more key to the record that `existing` leads to. Nothing
    /// changes where `existing` is not bound or `extra` is bound already.
    pub fn bind(&mut self, existing: &ProductKey, extra: ProductKey) -> (done: bool)
        requires
            old(self).wf(),
        ensures
            final(self).wf(),
            done == (old(self).binds(existing@) && !old(self).binds(extra@)),
            done ==> final(self).aliases(old(self), existing@, extra@),
            !done ==> final(self).same_as(old(self)),
    {
        let slot = match self.slot(existing) {
            Some(s) => s,
            None => {
                return false;
            },
        };
        if self.slot(&extra).is_some() {
            return false;
        }
        let kept = extra.duplicate();
        let mut one: Vec<ProductKey> = Vec::new();
        one.push(extra);
        bind_all(&mut self.keys, one, slot);
        self.bound[slot].push(kept);
        proof {
            let added = extra@;
            assert(one@[0]@ == added);
            assert(self.slots() =~= old(self).slots().insert(added, slot)) by {
                assert forall|k: KeyModel| #[trigger]
                    self.slots().contains_key(k) <==> old(self).slots().insert(added, slot).contains_key(
                        k,
                    ) by {
                    assert(self.binds(k) <==> old(self).binds(k) || lists_key(one@, k));
                    if k == added {
                        assert(lists_key(one@, k));
                    }
                }
                assert forall|k: KeyModel| #[trigger] self.slots().contains_key(k) implies self.slots()[k]
                    == old(self).slots().insert(added, slot)[k] by {
                    if k != added {
                        assert(self.binds(k) <==> old(self).binds(k) || lists_key(one@, k));
                    }
                }
            }
            assert forall|k: KeyModel| #[trigger] self.binds(k) implies self.slots()[k]
                < self.records().len() && self.records()[self.slots()[k] as int] is Some by {
                if k != added {
                    assert(old(self).binds(k));
                }
            }
            assert forall|k: KeyModel| #[trigger] self.binds(k) implies lists_key(
                self.bound@[self.slots()[k] as int]@,
                k,
            ) by {
                if k == added {
                    let list = self.bound@[slot as int]@;
                    assert(list[list.len() - 1]@ == k);
                } else {
                    let s = old(self).slots()[k] as int;
                    assert(old(self).binds(k));
                    let prior = old(self).bound@[s]@;
                    assert(lists_key(prior, k));
                    let i = choose|i: int| 0 <= i < prior.len() && (#[trigger] prior[i])@ == k;
                    assert(self.bound@[s]@[i]@ == k);
                }
            }
            assert forall|s: int, j: int|
                0 <= s < self.bound@.len() && 0 <= j < self.bound@[s]@.len() implies self.binds(
                (#[trigger] self.bound@[s]@[j])@,
            ) && self.slots()[self.bound@[s]@[j]@] == s by {
                if s == slot && j == old(self).bound@[s]@.len() {
                } else {
                    assert(old(self).binds(old(self).bound@[s]@[j]@));
                }
            }
        }
        true
    }

    /// `self` differs from `before` by one more preset id in the record
    /// that stands in `slot`.
    pub open spec fn credits(&self, before: &ProductTable, slot: int, preset: usize) -> bool {
        &&& self.slots() == before.slots()
        &&& self.records().len() == before.records().len()
        &&& forall|s: int|
            0 <= s < self.records().len() && s != slot ==> #[trigger] self.records()[s] == before.records()[s]
        &&& self.records()[slot] is Some
        &&& before.records()[slot] is Some
        &&& {
            let now = self.records()[slot]->0;
            let was = before.records()[slot]->0;
            &&& now.presets@ == was.presets@.insert(preset)
            &&& now.id == was.id
            &&& now.name == was.name
            &&& now.content_dir == was.content_dir
            &&& now.vendor == was.vendor
            &&& now.upid == was.upid
        }
    }

    /// Adds a preset id to the record that `key` leads to: a change that
    /// shows under every key of that record. Nothing changes where `key` is
    /// not bound.
    pub fn add_preset(&mut self, key: &ProductKey, preset: usize) -> (done: bool)
        requires
            old(self).wf(),
        ensures
            final(self).wf(),
            done == old(self).binds(key@),
            done ==> final(self).credits(old(self), old(self).slots()[key@] as int, preset),
            !done ==> final(self).same_as(old(self)),
    {
        broadcast use vstd::std_specs::hash::group_hash_axioms;

        let slot = match self.slot(key) {
            Some(s) => s,
            None => {
                return false;
            },
        };
        match &mut self.records[slot] {
            Some(record) => {
                record.presets.insert(preset);
            },
            None => {},
        }
        proof {
            assert forall|k: KeyModel| #[trigger] self.binds(k) implies self.slots()[k]
                < self.records().len() && self.records()[self.slots()[k] as int] is Some && lists_key(
                self.bound@[self.slots()[k] as int]@,
                k,
            ) by {
                assert(old(self).binds(k));
            }
            assert forall|s: int, j: int|
                0 <= s < self.bound@.len() && 0 <= j < self.bound@[s]@.len() implies self.binds(
                (#[trigger] self.bound@[s]@[j])@,
            ) && self.slots()[self.bound@[s]@[j]@] == s by {
                assert(old(self).binds(old(self).bound@[s]@[j]@));
            }
        }
        true
    }

    /// `self` differs from `before` by the record in `slot`, which is gone
    /// together with every key that led to it.
    pub open spec fn drops(&self, before: &ProductTable, slot: usize) -> bool {
        &&& self.records() == before.records().update(slot as int, None)
        &&& forall|k: KeyModel| #[trigger] self.binds(k) <==> before.binds(k) && before.slots()[k] != slot
        &&& forall|k: KeyModel| self.binds(k) ==> #[trigger] self.slots()[k] == before.slots()[k]
    }

    /// Removes the record that `key` leads to, under all of its keys at
    /// once, and hands it out.
    pub fn remove(&mut self, key: &ProductKey) -> (gone: Option<Product>)
        requires
            old(self).wf(),
        ensures
            final(self).wf(),
            match gone {
                Some(record) => old(self).lookup(key@) == Some(record) && final(self).drops(
                    old(self),
                    old(self).slots()[key@],
                ),
                None => !old(self).binds(key@) && final(self).same_as(old(self)),
            },
    {
        let slot = match self.slot(key) {
            Some(s) => s,
            None => {
                return None;
            },
        };
        let ghost start = key_slots(self.keys);
        let mut i: usize = 0;
        while i < self.bound[slot].len()
            invariant
                slot < self.bound@.len(),
                self.bound == old(self).bound,
                self.records == old(self).records,
                start == old(self).slots(),
                old(self).wf(),
                i <= self.bound@[slot as int]@.len(),
                forall|k: KeyModel| #[trigger]
                    key_slots(self.keys).contains_key(k) <==> start.contains_key(k) && !(exists|j: int|
                        0 <= j < i && (#[trigger] self.bound@[slot as int]@[j])@ == k),
                forall|k: KeyModel|
                    key_slots(self.keys).contains_key(k) ==> #[trigger] key_slots(self.keys)[k] == start[k],
            decreases self.bound@[slot as int]@.len() - i,
        {
            unbind(&mut self.keys, &self.bound[slot][i]);
            i = i + 1;
        }
        let gone = self.records[slot].take();
        self.bound[slot].clear();
        proof {
            let list = old(self).bound@[slot as int]@;
            assert forall|k: KeyModel| #[trigger]
                self.binds(k) <==> old(self).binds(k) && old(self).slots()[k] != slot by {
                if old(self).binds(k) {
                    if old(self).slots()[k] == slot {
                        assert(lists_key(list, k));
                    } else {
                        if exists|j: int| 0 <= j < list.len() && (#[trigger] list[j])@ == k {
                            let j = choose|j: int| 0 <= j < list.len() && (#[trigger] list[j])@ == k;
                            assert(old(self).slots()[old(self).bound@[slot as int]@[j]@] == slot);
                        }
                    }
                }
            }
            assert forall|k: KeyModel| #[trigger] self.binds(k) implies lists_key(
                self.bound@[self.slots()[k] as int]@,
                k,
            ) by {
                assert(old(self).binds(k));
                assert(lists_key(old(self).bound@[old(self).slots()[k] as int]@, k));
            }
            assert forall|s: int, j: int|
                0 <= s < self.bound@.len() && 0 <= j < self.bound@[s]@.len() implies self.binds(
                (#[trigger] self.bound@[s]@[j])@,
            ) && self.slots()[self.bound@[s]@[j]@] == s by {
                assert(s != slot);
                assert(old(self).binds(old(self).bound@[s]@[j]@));
            }
        }
        gone
    }
}

/// Under the keys it was inserted with, a record is found, the same under
/// each of them; and once it is removed through one of its keys, every key
/// that led to it misses.
pub proof fn law_keys_share_one_record(
    before: ProductTable,
    filled: ProductTable,
    emptied: ProductTable,
    keys: Seq<ProductKey>,
    record: Product,
    slot: usize,
    first: int,
    second: int,
)
    requires
        before.sound(),
        before.accepts(keys),
        filled.extends(&before, keys, record, slot),
        0 <= first < keys.len(),
        0 <= second < keys.len(),
        emptied.drops(&filled, filled.slots()[keys[first]@]),
    ensures
        filled.lookup(keys[first]@) == Some(record),
        filled.lookup(keys[second]@) == filled.lookup(keys[first]@),
        emptied.lookup(keys[first]@) is None,
        emptied.lookup(keys[second]@) is None,
{
    assert(lists_key(keys, keys[first]@));
    assert(lists_key(keys, keys[second]@));
    assert(filled.binds(keys[first]@));
    assert(filled.binds(keys[second]@));
    assert(filled.slots()[keys[first]@] == slot);
    assert(filled.slots()[keys[second]@] == slot);
}

/// A change made through one key shows under every key of the record: a
/// preset credited through `through` is found in the record that `other`
/// leads to, where both keys led to one record.
pub proof fn law_change_shows_under_every_key(
    before: ProductTable,
    after: ProductTable,
    through: KeyModel,
    other: KeyModel,
    preset: usize,
)
    requires
        before.sound(),
        before.binds(through),
        before.binds(other),
        before.slots()[through] == before.slots()[other],
        after.credits(&before, before.slots()[through] as int, preset),
    ensures
        after.lookup(other) == after.lookup(through),
        after.lookup(other) is Some,
        after.lookup(other)->0.presets@.contains(preset),
{
}

} // verus!
