//! The steps of building an index from flat rows.

use crate::natural::{is_ranking, lemma_ranking_covers, texts};
use crate::product::{KeyModel, Product, ProductKey, ProductTable};
use crate::rows::{
    absorb, banked_presets, blueprint, credited_presets, keys, labels, linked_facets, linked_presets,
    path_of, without_repeats, Blueprint, LinkRow, Listed, PathRow, PresetRow, ProductRow, ProductSheet, Rows,
};
use crate::slots::SlotMap;
use crate::text::has_text;
use std::collections::HashMap;
use std::collections::HashSet;
use vstd::prelude::*;

verus! {

/// Why a set of rows gives no index.
#[derive(Debug, Clone, Copy, PartialEq, Eq, Structural)]
pub enum IngestError {
    /// Two banks, presets, categories or modes share an id.
    DuplicateId,
    /// A preset lies in a content root that leads to no product.
    UnknownProduct,
    /// A preset names a bank that no row describes.
    UnknownBank,
    /// A link names a category that no row describes.
    UnknownCategory,
    /// A link names a mode that no row describes.
    UnknownMode,
    /// A link names a preset that no row describes.
    UnknownPreset,
}

impl IngestError {
    /// What went wrong, in words.
    pub fn message(&self) -> (text: &'static str)
        ensures
            text@ == (match self {
                IngestError::DuplicateId => "two banks, presets, categories or modes share an id"@,
                IngestError::UnknownProduct => "a preset lies in a content root that leads to no product"@,
                IngestError::UnknownBank => "a preset names a bank that no row describes"@,
                IngestError::UnknownCategory => "a link names a category that no row describes"@,
                IngestError::UnknownMode => "a link names a mode that no row describes"@,
                IngestError::UnknownPreset => "a link names a preset that no row describes"@,
            }),
    {
        match self {
            IngestError::DuplicateId => "two banks, presets, categories or modes share an id",
            IngestError::UnknownProduct => "a preset lies in a content root that leads to no product",
            IngestError::UnknownBank => "a preset names a bank that no row describes",
            IngestError::UnknownCategory => "a link names a category that no row describes",
            IngestError::UnknownMode => "a link names a mode that no row describes",
            IngestError::UnknownPreset => "a link names a preset that no row describes",
        }
    }
}

impl Rows {
    /// Why the rows give no index, if they give none. Repeated ids are
    /// looked for first, then presets without a product, presets with an
    /// unknown bank, links to unknown categories, links to unknown modes,
    /// and last links from unknown presets.
    pub open spec fn fault(&self) -> Option<IngestError> {
        if self.repeats_an_id() {
            Some(IngestError::DuplicateId)
        } else if self.misses_a_product() {
            Some(IngestError::UnknownProduct)
        } else if self.misses_a_bank() {
            Some(IngestError::UnknownBank)
        } else if self.misses_a_category() {
            Some(IngestError::UnknownCategory)
        } else if self.misses_a_mode() {
            Some(IngestError::UnknownMode)
        } else if self.misses_a_preset() {
            Some(IngestError::UnknownPreset)
        } else {
            None
        }
    }
}

/// The texts of `list` without the repetitions, each at its first place.
pub(crate) fn distinct_texts(list: &Vec<String>) -> (kept: Vec<String>)
    ensures
        texts(kept@) == without_repeats(texts(list@)),
{
    let mut kept: Vec<String> = Vec::new();
    let mut i: usize = 0;
    assert(texts(list@).take(0) =~= Seq::<Seq<char>>::empty());
    assert(texts(kept@) =~= Seq::<Seq<char>>::empty());
    while i < list.len()
        invariant
            i <= list.len(),
            texts(kept@) == without_repeats(texts(list@).take(i as int)),
        decreases list.len() - i,
    {
        let ghost before = texts(kept@);
        let ghost seen = texts(list@).take(i as int);
        let ghost next = texts(list@).take(i + 1);
        assert(next.drop_last() =~= seen);
        assert(next.last() == list@[i as int]@);
        let known = has_text(&kept, &list[i]);
        if !known {
            kept.push(list[i].clone());
            assert(texts(kept@) =~= before.push(list@[i as int]@));
        }
        i = i + 1;
    }
    assert(texts(list@).take(list@.len() as int) =~= texts(list@));
    kept
}

/// The strings of `names` in the order of `ranking`.
pub(crate) fn arrange_texts(names: &Vec<String>, ranking: &Vec<usize>) -> (arranged: Vec<String>)
    requires
        forall|i: int| 0 <= i < ranking@.len() ==> (#[trigger] ranking@[i]) < names@.len(),
    ensures
        arranged@.len() == ranking@.len(),
        forall|i: int| 0 <= i < ranking@.len() ==> (#[trigger] arranged@[i])@ == names@[ranking@[i] as int]@,
{
    let mut arranged: Vec<String> = Vec::new();
    let mut i: usize = 0;
    while i < ranking.len()
        invariant
            i <= ranking.len(),
            arranged@.len() == i,
            forall|j: int| 0 <= j < ranking@.len() ==> (#[trigger] ranking@[j]) < names@.len(),
            forall|j: int| 0 <= j < i ==> (#[trigger] arranged@[j])@ == names@[ranking@[j] as int]@,
        decreases ranking.len() - i,
    {
        arranged.push(names[ranking[i]].clone());
        i = i + 1;
    }
    arranged
}

/// `ids` in the order of `ranking`.
pub open spec fn ranked(ids: Seq<usize>, ranking: Seq<usize>) -> Seq<usize> {
    Seq::new(ranking.len(), |i: int| ids[ranking[i] as int])
}

/// A ranking reorders ids without losing or repeating one.
pub proof fn lemma_ranked_ids(ids: Seq<usize>, ranking: Seq<usize>)
    requires
        is_ranking(ranking, ids.len()),
    ensures
        ids.no_duplicates() <==> ranked(ids, ranking).no_duplicates(),
        forall|id: usize| ids.contains(id) <==> ranked(ids, ranking).contains(id),
{
    let r = ranked(ids, ranking);
    if ids.no_duplicates() {
        assert forall|i: int, j: int| 0 <= i < r.len() && 0 <= j < r.len() && i != j implies r[i] != r[j] by {
            assert(ranking[i] != ranking[j]);
        }
    }
    if r.no_duplicates() {
        assert forall|a: int, b: int| 0 <= a < ids.len() && 0 <= b < ids.len() && a != b implies ids[a]
            != ids[b] by {
            lemma_ranking_covers(ranking, ids.len(), a);
            lemma_ranking_covers(ranking, ids.len(), b);
            let i = choose|i: int| 0 <= i < ranking.len() && #[trigger] ranking[i] == a;
            let j = choose|j: int| 0 <= j < ranking.len() && #[trigger] ranking[j] == b;
            assert(r[i] == ids[a] && r[j] == ids[b]);
        }
    }
    assert forall|id: usize| ids.contains(id) <==> r.contains(id) by {
        if ids.contains(id) {
            let a = choose|a: int| 0 <= a < ids.len() && ids[a] == id;
            lemma_ranking_covers(ranking, ids.len(), a);
            let i = choose|i: int| 0 <= i < ranking.len() && #[trigger] ranking[i] == a;
            assert(r[i] == id);
        }
        if r.contains(id) {
            let i = choose|i: int| 0 <= i < r.len() && r[i] == id;
            assert(ids[ranking[i] as int] == id);
        }
    }
}

/// Gives each id its slot in the order of `ranking`; `None` where an id
/// occurs twice.
pub(crate) fn ranked_slots(ids: &Vec<usize>, ranking: &Vec<usize>) -> (slots: Option<SlotMap>)
    requires
        is_ranking(ranking@, ids@.len()),
    ensures
        match slots {
            Some(s) => s.wf() && s.ids() == ranked(ids@, ranking@) && ids@.no_duplicates(),
            None => !ids@.no_duplicates(),
        },
{
    let ghost target = ranked(ids@, ranking@);
    let mut slots = SlotMap::new();
    let mut i: usize = 0;
    assert(target.take(0) =~= Seq::<usize>::empty());
    while i < ranking.len()
        invariant
            i <= ranking.len(),
            is_ranking(ranking@, ids@.len()),
            target == ranked(ids@, ranking@),
            slots.wf(),
            slots.ids() == target.take(i as int),
        decreases ranking.len() - i,
    {
        let id = ids[ranking[i]];
        let ghost before = slots.ids();
        let added = slots.add(id);
        if !added {
            proof {
                let j = choose|j: int| 0 <= j < before.len() && before[j] == id;
                assert(target[j] == id && target[i as int] == id);
                lemma_ranked_ids(ids@, ranking@);
            }
            return None;
        }
        assert(target.take(i + 1) =~= target.take(i as int).push(id));
        i = i + 1;
    }
    proof {
        assert(target.take(ranking@.len() as int) =~= target);
        slots.lemma_distinct();
        lemma_ranked_ids(ids@, ranking@);
    }
    Some(slots)
}

/// The positions of the content roots by id: of each id the last row.
pub(crate) fn index_paths(paths: &Vec<PathRow>) -> (by_id: HashMap<usize, usize>)
    ensures
        forall|id: usize| #[trigger] by_id@.contains_key(id) <==> path_of(paths@, id) is Some,
        forall|id: usize| #[trigger]
            by_id@.contains_key(id) ==> by_id@[id] < paths@.len() && path_of(paths@, id) == Some(
                paths@[by_id@[id] as int],
            ),
{
    broadcast use vstd::std_specs::hash::group_hash_axioms;

    let mut by_id: HashMap<usize, usize> = HashMap::new();
    let mut i: usize = 0;
    while i < paths.len()
        invariant
            i <= paths.len(),
            forall|id: usize| #[trigger]
                by_id@.contains_key(id) <==> path_of(paths@.take(i as int), id) is Some,
            forall|id: usize| #[trigger]
                by_id@.contains_key(id) ==> by_id@[id] < i && path_of(paths@.take(i as int), id) == Some(
                    paths@[by_id@[id] as int],
                ),
        decreases paths.len() - i,
    {
        let ghost seen = paths@.take(i as int);
        let ghost next = paths@.take(i + 1);
        assert(next.drop_last() =~= seen);
        assert(next.last() == paths@[i as int]);
        by_id.insert(paths[i].id, i);
        i = i + 1;
    }
    assert(paths@.take(paths@.len() as int) =~= paths@);
    by_id
}

/// The record says what the sheet says.
pub open spec fn on_sheet(record: Product, sheet: ProductSheet) -> bool {
    &&& record.id == sheet.id
    &&& record.name@ == sheet.name
    &&& record.content_dir@ == sheet.content_dir
    &&& record.vendor@ == sheet.vendor
    &&& record.upid@ == sheet.upid
}

/// The table binds the keys of the plan and holds a record for each of its
/// sheets.
pub open spec fn follows_plan(table: &ProductTable, plan: Blueprint) -> bool {
    &&& table.slots() == plan.slots
    &&& table.records().len() == plan.sheets.len()
    &&& forall|s: int|
        0 <= s < plan.sheets.len() ==> (#[trigger] table.records()[s]) is Some && on_sheet(
            table.records()[s]->0,
            plan.sheets[s],
        )
}

/// Builds the product table of the rows, with no preset credited yet.
pub(crate) fn plan_products(paths: &Vec<PathRow>, rows: &Vec<ProductRow>) -> (table: ProductTable)
    ensures
        table.wf(),
        follows_plan(&table, blueprint(paths@, rows@)),
        forall|s: int| 0 <= s < table.records().len() ==> (#[trigger] table.records()[s])->0.presets@.is_empty(),
{
    broadcast use vstd::std_specs::hash::group_hash_axioms;

    let by_id = index_paths(paths);
    let mut table = ProductTable::new();
    let mut i: usize = 0;
    proof {
        assert(rows@.take(0) =~= Seq::<ProductRow>::empty());
    }
    while i < rows.len()
        invariant
            i <= rows.len(),
            table.wf(),
            follows_plan(&table, blueprint(paths@, rows@.take(i as int))),
            forall|s: int|
                0 <= s < table.records().len() ==> (#[trigger] table.records()[s])->0.presets@.is_empty(),
            forall|id: usize| #[trigger] by_id@.contains_key(id) <==> path_of(paths@, id) is Some,
            forall|id: usize| #[trigger]
                by_id@.contains_key(id) ==> by_id@[id] < paths@.len() && path_of(paths@, id) == Some(
                    paths@[by_id@[id] as int],
                ),
        decreases rows.len() - i,
    {
        let ghost plan = blueprint(paths@, rows@.take(i as int));
        let ghost next = rows@.take(i + 1);
        proof {
            assert(next.drop_last() =~= rows@.take(i as int));
            assert(next.last() == rows@[i as int]);
            assert(blueprint(paths@, next) == absorb(plan, paths@, rows@[i as int]));
            table.lemma_sound();
        }
        let row = &rows[i];
        let numeric = ProductKey::Id(row.path_id);
        i = i + 1;
        let at = match by_id.get(&row.path_id) {
            Some(at) => *at,
            None => {
                continue ;
            },
        };
        let path = &paths[at];
        if table.contains_key(&numeric) {
            continue ;
        }
        if path.upid.as_str().is_empty() {
            let record = Product {
                id: row.path_id,
                name: path.alias.clone(),
                content_dir: path.path.clone(),
                vendor: row.vendor.clone(),
                upid: path.upid.clone(),
                presets: HashSet::new(),
            };
            let mut keys: Vec<ProductKey> = Vec::new();
            keys.push(numeric);
            let ghost before = table;
            let outcome = table.insert(keys, record);
            proof {
                assert(before.accepts(keys@));
                assert(outcome is Ok);
                assert(table.slots() =~= plan.slots.insert(KeyModel::Id(row.path_id), plan.sheets.len() as usize))
                    by {
                    assert forall|k: KeyModel| #[trigger]
                        table.slots().contains_key(k) <==> plan.slots.insert(
                            KeyModel::Id(row.path_id),
                            plan.sheets.len() as usize,
                        ).contains_key(k) by {
                        assert(table.binds(k) <==> before.binds(k) || crate::product::lists_key(keys@, k));
                        if k == KeyModel::Id(row.path_id) {
                            assert(keys@[0]@ == k);
                        }
                    }
                    assert forall|k: KeyModel| #[trigger] table.slots().contains_key(k) implies table.slots()[k]
                        == plan.slots.insert(KeyModel::Id(row.path_id), plan.sheets.len() as usize)[k] by {
                        assert(table.binds(k));
                        if k == KeyModel::Id(row.path_id) {
                            assert(keys@[0]@ == k);
                            assert(crate::product::lists_key(keys@, k));
                        } else {
                            assert(before.binds(k));
                        }
                    }
                }
            }
        } else {
            let alias = ProductKey::Upid(path.upid.clone());
            if table.contains_key(&alias) {
                let done = table.bind(&alias, numeric);
                assert(done);
            } else {
                let record = Product {
                    id: row.path_id,
                    name: path.alias.clone(),
                    content_dir: path.path.clone(),
                    vendor: row.vendor.clone(),
                    upid: path.upid.clone(),
                    presets: HashSet::new(),
                };
                let ghost alias_view = alias@;
                let mut keys: Vec<ProductKey> = Vec::new();
                keys.push(numeric);
                keys.push(alias);
                let ghost before = table;
                let outcome = table.insert(keys, record);
                proof {
                    let slot = plan.sheets.len() as usize;
                    let wanted = plan.slots.insert(KeyModel::Id(row.path_id), slot).insert(alias_view, slot);
                    assert(before.accepts(keys@));
                    assert(outcome is Ok);
                    assert(table.slots() =~= wanted) by {
                        assert forall|k: KeyModel| #[trigger]
                            table.slots().contains_key(k) <==> wanted.contains_key(k) by {
                            assert(table.binds(k) <==> before.binds(k) || crate::product::lists_key(keys@, k));
                            if k == KeyModel::Id(row.path_id) {
                                assert(keys@[0]@ == k);
                            }
                            if k == alias_view {
                                assert(keys@[1]@ == k);
                            }
                        }
                        assert forall|k: KeyModel| #[trigger] table.slots().contains_key(k) implies table.slots()[k]
                            == wanted[k] by {
                            assert(table.binds(k));
                            if k == KeyModel::Id(row.path_id) {
                                assert(keys@[0]@ == k);
                                assert(crate::product::lists_key(keys@, k));
                            } else if k == alias_view {
                                assert(keys@[1]@ == k);
                                assert(crate::product::lists_key(keys@, k));
                            } else {
                                assert(before.binds(k));
                            }
                        }
                    }
                }
            }
        }
    }
    assert(rows@.take(rows@.len() as int) =~= rows@);
    table
}

/// Credits every preset to the product that its content root leads to.
/// Gives `false`, with the table in no particular state, where some preset
/// lies in a root that leads to no product.
pub(crate) fn credit_products(table: &mut ProductTable, presets: &Vec<PresetRow>, Ghost(plan): Ghost<Blueprint>) -> (complete: bool)
    requires
        old(table).wf(),
        follows_plan(old(table), plan),
        forall|s: int|
            0 <= s < old(table).records().len() ==> (#[trigger] old(table).records()[s])->0.presets@.is_empty(),
    ensures
        final(table).wf(),
        complete == forall|p: int|
            0 <= p < presets@.len() ==> plan.slots.contains_key(KeyModel::Id((#[trigger] presets@[p]).path_id)),
        complete ==> follows_plan(final(table), plan),
        complete ==> forall|s: int|
            0 <= s < final(table).records().len() ==> (#[trigger] final(table).records()[s])->0.presets@
                == credited_presets(plan.slots, presets@, s),
{
    let mut i: usize = 0;
    proof {
        assert forall|s: int| 0 <= s < table.records().len() implies (#[trigger] table.records()[s])->0.presets@
            == credited_presets(plan.slots, presets@.take(0), s) by {
            assert(table.records()[s]->0.presets@ =~= credited_presets(plan.slots, presets@.take(0), s));
        }
    }
    while i < presets.len()
        invariant
            i <= presets.len(),
            table.wf(),
            follows_plan(table, plan),
            forall|p: int| 0 <= p < i ==> plan.slots.contains_key(KeyModel::Id((#[trigger] presets@[p]).path_id)),
            forall|s: int|
                0 <= s < table.records().len() ==> (#[trigger] table.records()[s])->0.presets@
                    == credited_presets(plan.slots, presets@.take(i as int), s),
        decreases presets.len() - i,
    {
        let key = ProductKey::Id(presets[i].path_id);
        let ghost before = *table;
        let done = table.add_preset(&key, presets[i].id);
        if !done {
            return false;
        }
        proof {
            let slot = plan.slots[key@] as int;
            let seen = presets@.take(i as int);
            let next = presets@.take(i + 1);
            assert(next.drop_last() =~= seen);
            assert(next.last() == presets@[i as int]);
            before.lemma_sound();
            assert(before.binds(key@));
            assert forall|s: int| 0 <= s < table.records().len() implies (#[trigger] table.records()[s])->0.presets@
                == credited_presets(plan.slots, next, s) by {
                let had = credited_presets(plan.slots, seen, s);
                let has = credited_presets(plan.slots, next, s);
                assert(before.records()[s]->0.presets@ == had);
                if s == slot {
                    assert forall|id: usize| has.contains(id) <==> had.insert(presets@[i as int].id).contains(
                        id,
                    ) by {
                        if has.contains(id) {
                            let p = choose|p: int|
                                0 <= p < next.len() && (#[trigger] next[p]).id == id && plan.slots.contains_key(
                                    KeyModel::Id(next[p].path_id),
                                ) && plan.slots[KeyModel::Id(next[p].path_id)] == s;
                            if p < i {
                                assert(seen[p] == next[p]);
                            }
                        }
                        if had.contains(id) {
                            let p = choose|p: int|
                                0 <= p < seen.len() && (#[trigger] seen[p]).id == id && plan.slots.contains_key(
                                    KeyModel::Id(seen[p].path_id),
                                ) && plan.slots[KeyModel::Id(seen[p].path_id)] == s;
                            assert(next[p] == seen[p]);
                        }
                        if id == presets@[i as int].id {
                            assert(next[i as int].id == id);
                        }
                    }
                    assert(has =~= had.insert(presets@[i as int].id));
                } else {
                    assert forall|id: usize| has.contains(id) <==> had.contains(id) by {
                        if has.contains(id) {
                            let p = choose|p: int|
                                0 <= p < next.len() && (#[trigger] next[p]).id == id && plan.slots.contains_key(
                                    KeyModel::Id(next[p].path_id),
                                ) && plan.slots[KeyModel::Id(next[p].path_id)] == s;
                            assert(p < i);
                            assert(seen[p] == next[p]);
                        }
                        if had.contains(id) {
                            let p = choose|p: int|
                                0 <= p < seen.len() && (#[trigger] seen[p]).id == id && plan.slots.contains_key(
                                    KeyModel::Id(seen[p].path_id),
                                ) && plan.slots[KeyModel::Id(seen[p].path_id)] == s;
                            assert(next[p] == seen[p]);
                        }
                    }
                    assert(has =~= had);
                }
            }
        }
        i = i + 1;
    }
    assert(presets@.take(presets@.len() as int) =~= presets@);
    true
}

/// As many empty sets as asked for.
pub(crate) fn empty_sets(count: usize) -> (sets: Vec<HashSet<usize>>)
    ensures
        sets@.len() == count,
        forall|s: int| 0 <= s < count ==> (#[trigger] sets@[s])@ == Set::<usize>::empty(),
{
    let mut sets: Vec<HashSet<usize>> = Vec::new();
    let mut i: usize = 0;
    while i < count
        invariant
            i <= count,
            sets@.len() == i,
            forall|s: int| 0 <= s < i ==> (#[trigger] sets@[s])@ == Set::<usize>::empty(),
        decreases count - i,
    {
        sets.push(HashSet::new());
        i = i + 1;
    }
    sets
}

/// The presets of each bank, by the bank's slot; `None` where a preset
/// names a bank that has no slot.
pub(crate) fn bank_sets(banks: &SlotMap, presets: &Vec<PresetRow>) -> (sets: Option<Vec<HashSet<usize>>>)
    requires
        banks.wf(),
    ensures
        match sets {
            Some(v) => {
                &&& v@.len() == banks.ids().len()
                &&& forall|s: int|
                    0 <= s < v@.len() ==> (#[trigger] v@[s])@ == banked_presets(presets@, banks.ids()[s])
                &&& forall|p: int|
                    0 <= p < presets@.len() && (#[trigger] presets@[p]).bank != 0 ==> banks.ids().contains(
                        presets@[p].bank,
                    )
            },
            None => exists|p: int|
                0 <= p < presets@.len() && (#[trigger] presets@[p]).bank != 0 && !banks.ids().contains(
                    presets@[p].bank,
                ),
        },
{
    broadcast use vstd::std_specs::hash::group_hash_axioms;

    let mut sets = empty_sets(banks.len());
    let mut i: usize = 0;
    proof {
        assert forall|s: int| 0 <= s < sets@.len() implies (#[trigger] sets@[s])@ == banked_presets(
            presets@.take(0),
            banks.ids()[s],
        ) by {
            assert(sets@[s]@ =~= banked_presets(presets@.take(0), banks.ids()[s]));
        }
    }
    while i < presets.len()
        invariant
            i <= presets.len(),
            banks.wf(),
            sets@.len() == banks.ids().len(),
            forall|s: int|
                0 <= s < sets@.len() ==> (#[trigger] sets@[s])@ == banked_presets(
                    presets@.take(i as int),
                    banks.ids()[s],
                ),
            forall|p: int|
                0 <= p < i && (#[trigger] presets@[p]).bank != 0 ==> banks.ids().contains(presets@[p].bank),
        decreases presets.len() - i,
    {
        let bank = presets[i].bank;
        let id = presets[i].id;
        let ghost seen = presets@.take(i as int);
        let ghost next = presets@.take(i + 1);
        let ghost prior = sets@;
        proof {
            assert(next.drop_last() =~= seen);
            assert(next.last() == presets@[i as int]);
            banks.lemma_distinct();
        }
        let ghost mut hit: int = -1;
        if bank != 0 {
            match banks.slot(bank) {
                Some(slot) => {
                    sets[slot].insert(id);
                    proof {
                        hit = slot as int;
                    }
                },
                None => {
                    return None;
                },
            }
        }
        proof {
            assert forall|s: int| 0 <= s < sets@.len() implies (#[trigger] sets@[s])@ == banked_presets(
                next,
                banks.ids()[s],
            ) by {
                let had = banked_presets(seen, banks.ids()[s]);
                let has = banked_presets(next, banks.ids()[s]);
                assert(prior[s]@ == had);
                let here = bank != 0 && banks.ids()[s] == bank;
                assert(here <==> hit == s);
                assert forall|x: usize| has.contains(x) <==> (had.contains(x) || (here && x == id)) by {
                    if has.contains(x) {
                        let p = choose|p: int|
                            0 <= p < next.len() && (#[trigger] next[p]).bank == banks.ids()[s] && next[p].id == x;
                        if p < i {
                            assert(seen[p] == next[p]);
                        }
                    }
                    if had.contains(x) {
                        let p = choose|p: int|
                            0 <= p < seen.len() && (#[trigger] seen[p]).bank == banks.ids()[s] && seen[p].id == x;
                        assert(next[p] == seen[p]);
                    }
                    if here && x == id {
                        assert(next[i as int].bank == banks.ids()[s]);
                    }
                }
                if here {
                    assert(has =~= had.insert(id));
                } else {
                    assert(has =~= had);
                }
            }
        }
        i = i + 1;
    }
    assert(presets@.take(presets@.len() as int) =~= presets@);
    Some(sets)
}

/// Whether every link names a facet value that has a slot.
pub(crate) fn facets_known(links: &Vec<LinkRow>, facets: &SlotMap) -> (known: bool)
    requires
        facets.wf(),
    ensures
        known == forall|l: int| 0 <= l < links@.len() ==> facets.ids().contains((#[trigger] links@[l]).facet),
{
    let mut i: usize = 0;
    while i < links.len()
        invariant
            i <= links.len(),
            facets.wf(),
            forall|l: int| 0 <= l < i ==> facets.ids().contains((#[trigger] links@[l]).facet),
        decreases links.len() - i,
    {
        if facets.slot(links[i].facet).is_none() {
            return false;
        }
        i = i + 1;
    }
    true
}

/// Whether every link names a preset that has a slot.
pub(crate) fn presets_known(links: &Vec<LinkRow>, presets: &SlotMap) -> (known: bool)
    requires
        presets.wf(),
    ensures
        known == forall|l: int| 0 <= l < links@.len() ==> presets.ids().contains((#[trigger] links@[l]).preset),
{
    let mut i: usize = 0;
    while i < links.len()
        invariant
            i <= links.len(),
            presets.wf(),
            forall|l: int| 0 <= l < i ==> presets.ids().contains((#[trigger] links@[l]).preset),
        decreases links.len() - i,
    {
        if presets.slot(links[i].preset).is_none() {
            return false;
        }
        i = i + 1;
    }
    true
}

/// Sorts the links both ways: the presets of each facet value by the
/// value's slot, and the facet values of each preset by the preset's slot.
pub(crate) fn gather(links: &Vec<LinkRow>, facets: &SlotMap, presets: &SlotMap) -> (sets: (
    Vec<HashSet<usize>>,
    Vec<HashSet<usize>>,
))
    requires
        facets.wf(),
        presets.wf(),
        forall|l: int| 0 <= l < links@.len() ==> facets.ids().contains((#[trigger] links@[l]).facet),
        forall|l: int| 0 <= l < links@.len() ==> presets.ids().contains((#[trigger] links@[l]).preset),
    ensures
        sets.0@.len() == facets.ids().len(),
        sets.1@.len() == presets.ids().len(),
        forall|s: int|
            0 <= s < sets.0@.len() ==> (#[trigger] sets.0@[s])@ == linked_presets(links@, facets.ids()[s]),
        forall|s: int|
            0 <= s < sets.1@.len() ==> (#[trigger] sets.1@[s])@ == linked_facets(links@, presets.ids()[s]),
{
    broadcast use vstd::std_specs::hash::group_hash_axioms;

    let mut by_facet = empty_sets(facets.len());
    let mut by_preset = empty_sets(presets.len());
    let mut i: usize = 0;
    proof {
        assert forall|s: int| 0 <= s < by_facet@.len() implies (#[trigger] by_facet@[s])@ == linked_presets(
            links@.take(0),
            facets.ids()[s],
        ) by {
            assert(by_facet@[s]@ =~= linked_presets(links@.take(0), facets.ids()[s]));
        }
        assert forall|s: int| 0 <= s < by_preset@.len() implies (#[trigger] by_preset@[s])@ == linked_facets(
            links@.take(0),
            presets.ids()[s],
        ) by {
            assert(by_preset@[s]@ =~= linked_facets(links@.take(0), presets.ids()[s]));
        }
    }
    while i < links.len()
        invariant
            i <= links.len(),
            facets.wf(),
            presets.wf(),
            forall|l: int| 0 <= l < links@.len() ==> facets.ids().contains((#[trigger] links@[l]).facet),
            forall|l: int| 0 <= l < links@.len() ==> presets.ids().contains((#[trigger] links@[l]).preset),
            by_facet@.len() == facets.ids().len(),
            by_preset@.len() == presets.ids().len(),
            forall|s: int|
                0 <= s < by_facet@.len() ==> (#[trigger] by_facet@[s])@ == linked_presets(
                    links@.take(i as int),
                    facets.ids()[s],
                ),
            forall|s: int|
                0 <= s < by_preset@.len() ==> (#[trigger] by_preset@[s])@ == linked_facets(
                    links@.take(i as int),
                    presets.ids()[s],
                ),
        decreases links.len() - i,
    {
        let facet = links[i].facet;
        let preset = links[i].preset;
        let ghost seen = links@.take(i as int);
        let ghost next = links@.take(i + 1);
        let ghost prior_facet = by_facet@;
        let ghost prior_preset = by_preset@;
        proof {
            assert(next.drop_last() =~= seen);
            assert(next.last() == links@[i as int]);
            facets.lemma_distinct();
            presets.lemma_distinct();
        }
        let mut f_at: usize = 0;
        let mut p_at: usize = 0;
        match facets.slot(facet) {
            Some(slot) => {
                by_facet[slot].insert(preset);
                f_at = slot;
            },
            None => {
                assert(false);
            },
        }
        match presets.slot(preset) {
            Some(slot) => {
                by_preset[slot].insert(facet);
                p_at = slot;
            },
            None => {
                assert(false);
            },
        }
        proof {
            assert forall|s: int| 0 <= s < by_facet@.len() implies (#[trigger] by_facet@[s])@ == linked_presets(
                next,
                facets.ids()[s],
            ) by {
                let had = linked_presets(seen, facets.ids()[s]);
                let has = linked_presets(next, facets.ids()[s]);
                assert(prior_facet[s]@ == had);
                let here = s == f_at;
                assert(here <==> facets.ids()[s] == facet);
                assert forall|x: usize| has.contains(x) <==> (had.contains(x) || (here && x == preset)) by {
                    if has.contains(x) {
                        let l = choose|l: int|
                            0 <= l < next.len() && (#[trigger] next[l]).facet == facets.ids()[s] && next[l].preset
                                == x;
                        if l < i {
                            assert(seen[l] == next[l]);
                        }
                    }
                    if had.contains(x) {
                        let l = choose|l: int|
                            0 <= l < seen.len() && (#[trigger] seen[l]).facet == facets.ids()[s] && seen[l].preset
                                == x;
                        assert(next[l] == seen[l]);
                    }
                    if here && x == preset {
                        assert(next[i as int].facet == facets.ids()[s]);
                    }
                }
                if here {
                    assert(has =~= had.insert(preset));
                } else {
                    assert(has =~= had);
                }
            }
            assert forall|s: int| 0 <= s < by_preset@.len() implies (#[trigger] by_preset@[s])@ == linked_facets(
                next,
                presets.ids()[s],
            ) by {
                let had = linked_facets(seen, presets.ids()[s]);
                let has = linked_facets(next, presets.ids()[s]);
                assert(prior_preset[s]@ == had);
                let here = s == p_at;
                assert(here <==> presets.ids()[s] == preset);
                assert forall|x: usize| has.contains(x) <==> (had.contains(x) || (here && x == facet)) by {
                    if has.contains(x) {
                        let l = choose|l: int|
                            0 <= l < next.len() && (#[trigger] next[l]).preset == presets.ids()[s] && next[l].facet
                                == x;
                        if l < i {
                            assert(seen[l] == next[l]);
                        }
                    }
                    if had.contains(x) {
                        let l = choose|l: int|
                            0 <= l < seen.len() && (#[trigger] seen[l]).preset == presets.ids()[s] && seen[l].facet
                                == x;
                        assert(next[l] == seen[l]);
                    }
                    if here && x == facet {
                        assert(next[i as int].preset == presets.ids()[s]);
                    }
                }
                if here {
                    assert(has =~= had.insert(facet));
                } else {
                    assert(has =~= had);
                }
            }
        }
        i = i + 1;
    }
    assert(links@.take(links@.len() as int) =~= links@);
    (by_facet, by_preset)
}

/// The ids of the rows, and the names that they are ordered by.
pub(crate) fn list<R: Listed>(rows: &Vec<R>) -> (listed: (Vec<usize>, Vec<String>))
    ensures
        listed.0@ == keys(rows@),
        texts(listed.1@) == labels(rows@),
{
    let mut ids: Vec<usize> = Vec::new();
    let mut names: Vec<String> = Vec::new();
    let mut i: usize = 0;
    while i < rows.len()
        invariant
            i <= rows.len(),
            ids@.len() == i,
            names@.len() == i,
            forall|j: int| 0 <= j < i ==> ids@[j] == (#[trigger] rows@[j]).key(),
            forall|j: int| 0 <= j < i ==> (#[trigger] names@[j])@ == rows@[j].label(),
        decreases rows.len() - i,
    {
        ids.push(rows[i].id());
        names.push(rows[i].name());
        i = i + 1;
    }
    assert(ids@ =~= keys(rows@));
    assert(texts(names@) =~= labels(rows@));
    (ids, names)
}

} // verus!
