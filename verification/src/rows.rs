//! The flat rows that an index is built from, as the data source hands
//! them over, and what they say together.

use crate::category::{display_name, join_parts};
use crate::product::KeyModel;
use vstd::prelude::*;

verus! {

/// A bank: an id and up to three hierarchical entries.
pub struct BankRow {
    pub id: usize,
    pub entry1: String,
    pub entry2: String,
    pub entry3: String,
}

/// A content root: where a product's files lie, the name it is shown
/// under, and the alias that it may share with other roots.
pub struct PathRow {
    pub id: usize,
    pub path: String,
    pub alias: String,
    pub upid: String,
}

/// A content root together with a vendor that has presets in it.
pub struct ProductRow {
    pub path_id: usize,
    pub vendor: String,
}

/// A preset, with the content root it lies in and the bank it belongs to.
pub struct PresetRow {
    pub id: usize,
    pub name: String,
    pub vendor: String,
    pub comment: String,
    pub path_id: usize,
    pub file_name: String,
    /// The preset's bank, `0` where it has none.
    pub bank: usize,
}

/// A category: an id, a name and up to two levels of subcategory.
pub struct CategoryRow {
    pub id: usize,
    pub name: String,
    pub subcategory: String,
    pub subsubcategory: String,
}

/// A mode: an id and a name.
pub struct ModeRow {
    pub id: usize,
    pub name: String,
}

/// A preset carries a facet value: a category or a mode.
pub struct LinkRow {
    pub preset: usize,
    pub facet: usize,
}

/// Everything the data source delivers, in no particular order.
pub struct Rows {
    pub vendors: Vec<String>,
    pub banks: Vec<BankRow>,
    pub paths: Vec<PathRow>,
    pub products: Vec<ProductRow>,
    pub presets: Vec<PresetRow>,
    pub categories: Vec<CategoryRow>,
    pub category_links: Vec<LinkRow>,
    pub modes: Vec<ModeRow>,
    pub mode_links: Vec<LinkRow>,
}

/// A row that stands for one entity: it has an id, and a name that the
/// entity is ordered by.
pub trait Listed {
    spec fn key(&self) -> usize;

    spec fn label(&self) -> Seq<char>;

    fn id(&self) -> (id: usize)
        ensures
            id == self.key(),
    ;

    fn name(&self) -> (name: String)
        ensures
            name@ == self.label(),
    ;
}

impl Listed for BankRow {
    open spec fn key(&self) -> usize {
        self.id
    }

    open spec fn label(&self) -> Seq<char> {
        display_name(self.entry1@, self.entry2@, self.entry3@)
    }

    fn id(&self) -> (id: usize) {
        self.id
    }

    fn name(&self) -> (name: String) {
        join_parts(&self.entry1, &self.entry2, &self.entry3)
    }
}

impl Listed for CategoryRow {
    open spec fn key(&self) -> usize {
        self.id
    }

    open spec fn label(&self) -> Seq<char> {
        display_name(self.name@, self.subcategory@, self.subsubcategory@)
    }

    fn id(&self) -> (id: usize) {
        self.id
    }

    fn name(&self) -> (name: String) {
        join_parts(&self.name, &self.subcategory, &self.subsubcategory)
    }
}

impl Listed for ModeRow {
    open spec fn key(&self) -> usize {
        self.id
    }

    open spec fn label(&self) -> Seq<char> {
        self.name@
    }

    fn id(&self) -> (id: usize) {
        self.id
    }

    fn name(&self) -> (name: String) {
        self.name.clone()
    }
}

impl Listed for PresetRow {
    open spec fn key(&self) -> usize {
        self.id
    }

    open spec fn label(&self) -> Seq<char> {
        self.name@
    }

    fn id(&self) -> (id: usize) {
        self.id
    }

    fn name(&self) -> (name: String) {
        self.name.clone()
    }
}

/// The ids of a list of rows.
pub open spec fn keys<R: Listed>(rows: Seq<R>) -> Seq<usize> {
    Seq::new(rows.len(), |i: int| rows[i].key())
}

/// The names that a list of rows is ordered by.
pub open spec fn labels<R: Listed>(rows: Seq<R>) -> Seq<Seq<char>> {
    Seq::new(rows.len(), |i: int| rows[i].label())
}

/// The presets that `links` give to a facet value.
pub open spec fn linked_presets(links: Seq<LinkRow>, facet: usize) -> Set<usize> {
    Set::new(
        |preset: usize|
            exists|l: int|
                0 <= l < links.len() && (#[trigger] links[l]).facet == facet && links[l].preset == preset,
    )
}

/// The facet values that `links` give to a preset.
pub open spec fn linked_facets(links: Seq<LinkRow>, preset: usize) -> Set<usize> {
    Set::new(
        |facet: usize|
            exists|l: int|
                0 <= l < links.len() && (#[trigger] links[l]).preset == preset && links[l].facet == facet,
    )
}

/// The presets that lie in a bank. The bank `0` stands for "no bank" and
/// holds none.
pub open spec fn banked_presets(presets: Seq<PresetRow>, bank: usize) -> Set<usize> {
    Set::new(
        |preset: usize|
            bank != 0 && exists|p: int|
                0 <= p < presets.len() && (#[trigger] presets[p]).bank == bank && presets[p].id == preset,
    )
}

/// The row that describes a content root: the last one with its id.
pub open spec fn path_of(paths: Seq<PathRow>, id: usize) -> Option<PathRow>
    decreases paths.len(),
{
    if paths.len() == 0 {
        None
    } else if paths.last().id == id {
        Some(paths.last())
    } else {
        path_of(paths.drop_last(), id)
    }
}

/// What a product record says, apart from its presets.
pub struct ProductSheet {
    pub id: usize,
    pub name: Seq<char>,
    pub content_dir: Seq<char>,
    pub vendor: Seq<char>,
    pub upid: Seq<char>,
}

/// The products of an index before any preset is credited to them: the
/// record sheets by slot, and the slot that each key leads to.
pub struct Blueprint {
    pub slots: Map<KeyModel, usize>,
    pub sheets: Seq<ProductSheet>,
}

/// The blueprint after one more product row. A row without a content root
/// is passed over, and so is one whose root is represented already. A root
/// with an alias that is bound joins the record of that alias under its own
/// numeric key; any other root gets a record of its own, bound under its
/// numeric key and, where it has one, under its alias.
pub open spec fn absorb(plan: Blueprint, paths: Seq<PathRow>, row: ProductRow) -> Blueprint {
    let numeric = KeyModel::Id(row.path_id);
    match path_of(paths, row.path_id) {
        None => plan,
        Some(path) => {
            let alias = KeyModel::Upid(path.upid@);
            let sheet = ProductSheet {
                id: row.path_id,
                name: path.alias@,
                content_dir: path.path@,
                vendor: row.vendor@,
                upid: path.upid@,
            };
            let slot = plan.sheets.len() as usize;
            if plan.slots.contains_key(numeric) {
                plan
            } else if path.upid@.len() == 0 {
                Blueprint { slots: plan.slots.insert(numeric, slot), sheets: plan.sheets.push(sheet) }
            } else if plan.slots.contains_key(alias) {
                Blueprint { slots: plan.slots.insert(numeric, plan.slots[alias]), sheets: plan.sheets }
            } else {
                Blueprint {
                    slots: plan.slots.insert(numeric, slot).insert(alias, slot),
                    sheets: plan.sheets.push(sheet),
                }
            }
        },
    }
}

/// The blueprint that the product rows give, taken in their order.
pub open spec fn blueprint(paths: Seq<PathRow>, rows: Seq<ProductRow>) -> Blueprint
    decreases rows.len(),
{
    if rows.len() == 0 {
        Blueprint { slots: Map::empty(), sheets: Seq::empty() }
    } else {
        absorb(blueprint(paths, rows.drop_last()), paths, rows.last())
    }
}

/// Every key of a blueprint leads to a sheet, and the numeric key of each
/// sheet leads to that sheet.
pub open spec fn well_planned(plan: Blueprint) -> bool {
    &&& forall|k: KeyModel| #[trigger] plan.slots.contains_key(k) ==> plan.slots[k] < plan.sheets.len()
    &&& forall|s: int|
        0 <= s < plan.sheets.len() ==> plan.slots.contains_key(KeyModel::Id((#[trigger] plan.sheets[s]).id))
            && plan.slots[KeyModel::Id(plan.sheets[s].id)] == s
}

/// The blueprint of rows that a machine word can count is well planned,
/// and has no more sheets than there are rows.
pub proof fn lemma_blueprint_well_planned(paths: Seq<PathRow>, rows: Seq<ProductRow>)
    requires
        rows.len() <= usize::MAX,
    ensures
        well_planned(blueprint(paths, rows)),
        blueprint(paths, rows).sheets.len() <= rows.len(),
    decreases rows.len(),
{
    if rows.len() > 0 {
        let before = blueprint(paths, rows.drop_last());
        let after = blueprint(paths, rows);
        assert(after == absorb(before, paths, rows.last()));
        lemma_blueprint_well_planned(paths, rows.drop_last());
        assert forall|s: int| 0 <= s < after.sheets.len() implies after.slots.contains_key(
            KeyModel::Id((#[trigger] after.sheets[s]).id),
        ) && after.slots[KeyModel::Id(after.sheets[s].id)] == s by {
            if s < before.sheets.len() {
                assert(after.sheets[s] == before.sheets[s]);
                assert(before.slots.contains_key(KeyModel::Id(before.sheets[s].id)));
            }
        }
    }
}

/// Every numeric key of a blueprint is the id of a content root that has a
/// row, and where that root has an alias, the alias is bound and leads
/// where the numeric key leads.
pub open spec fn aliases_agree(plan: Blueprint, paths: Seq<PathRow>) -> bool {
    forall|root: usize| #[trigger]
        plan.slots.contains_key(KeyModel::Id(root)) ==> {
            &&& path_of(paths, root) is Some
            &&& path_of(paths, root)->0.upid@.len() > 0 ==> {
                &&& plan.slots.contains_key(KeyModel::Upid(path_of(paths, root)->0.upid@))
                &&& plan.slots[KeyModel::Upid(path_of(paths, root)->0.upid@)] == plan.slots[KeyModel::Id(root)]
            }
        }
}

/// In the blueprint of any rows, a content root's alias leads to the
/// record that its numeric key leads to; and every product row whose
/// content root has a row of its own has its numeric key bound.
pub proof fn lemma_blueprint_aliases_agree(paths: Seq<PathRow>, rows: Seq<ProductRow>)
    ensures
        aliases_agree(blueprint(paths, rows), paths),
        forall|k: int|
            0 <= k < rows.len() && path_of(paths, (#[trigger] rows[k]).path_id) is Some ==> blueprint(
                paths,
                rows,
            ).slots.contains_key(KeyModel::Id(rows[k].path_id)),
    decreases rows.len(),
{
    if rows.len() > 0 {
        let front = rows.drop_last();
        let before = blueprint(paths, front);
        let after = blueprint(paths, rows);
        assert(after == absorb(before, paths, rows.last()));
        lemma_blueprint_aliases_agree(paths, front);
        assert forall|k: KeyModel| before.slots.contains_key(k) implies after.slots.contains_key(k)
            && after.slots[k] == before.slots[k] by {}
        assert forall|root: usize| #[trigger] after.slots.contains_key(KeyModel::Id(root)) implies {
            &&& path_of(paths, root) is Some
            &&& path_of(paths, root)->0.upid@.len() > 0 ==> {
                &&& after.slots.contains_key(KeyModel::Upid(path_of(paths, root)->0.upid@))
                &&& after.slots[KeyModel::Upid(path_of(paths, root)->0.upid@)] == after.slots[KeyModel::Id(root)]
            }
        } by {
            if before.slots.contains_key(KeyModel::Id(root)) {
                if path_of(paths, root)->0.upid@.len() > 0 {
                    assert(before.slots.contains_key(KeyModel::Upid(path_of(paths, root)->0.upid@)));
                }
            }
        }
        assert forall|k: int|
            0 <= k < rows.len() && path_of(paths, (#[trigger] rows[k]).path_id) is Some implies after.slots.contains_key(
            KeyModel::Id(rows[k].path_id),
        ) by {
            if k < front.len() {
                assert(front[k] == rows[k]);
            }
        }
    }
}

/// The presets of the product record in `slot`: those whose content root
/// leads to it.
pub open spec fn credited_presets(slots: Map<KeyModel, usize>, presets: Seq<PresetRow>, slot: int) -> Set<
    usize,
> {
    Set::new(
        |preset: usize|
            exists|p: int|
                0 <= p < presets.len() && (#[trigger] presets[p]).id == preset && slots.contains_key(
                    KeyModel::Id(presets[p].path_id),
                ) && slots[KeyModel::Id(presets[p].path_id)] == slot,
    )
}

/// The texts of a list without the repetitions: of each text the first
/// occurrence, in the order of the list.
pub open spec fn without_repeats(texts: Seq<Seq<char>>) -> Seq<Seq<char>>
    decreases texts.len(),
{
    if texts.len() == 0 {
        texts
    } else {
        let before = without_repeats(texts.drop_last());
        if before.contains(texts.last()) {
            before
        } else {
            before.push(texts.last())
        }
    }
}

impl Rows {
    pub open spec fn bank_ids(&self) -> Seq<usize> {
        keys(self.banks@)
    }

    pub open spec fn preset_ids(&self) -> Seq<usize> {
        keys(self.presets@)
    }

    pub open spec fn category_ids(&self) -> Seq<usize> {
        keys(self.categories@)
    }

    pub open spec fn mode_ids(&self) -> Seq<usize> {
        keys(self.modes@)
    }

    /// The products that the rows describe.
    pub open spec fn plan(&self) -> Blueprint {
        blueprint(self.paths@, self.products@)
    }

    /// Some id of a bank, preset, category or mode occurs twice.
    pub open spec fn repeats_an_id(&self) -> bool {
        ||| !self.bank_ids().no_duplicates()
        ||| !self.preset_ids().no_duplicates()
        ||| !self.category_ids().no_duplicates()
        ||| !self.mode_ids().no_duplicates()
    }

    /// Some preset lies in a content root that leads to no product.
    pub open spec fn misses_a_product(&self) -> bool {
        exists|p: int|
            0 <= p < self.presets@.len() && !self.plan().slots.contains_key(
                KeyModel::Id((#[trigger] self.presets@[p]).path_id),
            )
    }

    /// Some preset names a bank that no row describes.
    pub open spec fn misses_a_bank(&self) -> bool {
        exists|p: int|
            0 <= p < self.presets@.len() && (#[trigger] self.presets@[p]).bank != 0
                && !self.bank_ids().contains(self.presets@[p].bank)
    }

    /// Some link names a category that no row describes.
    pub open spec fn misses_a_category(&self) -> bool {
        exists|l: int|
            0 <= l < self.category_links@.len() && !self.category_ids().contains(
                (#[trigger] self.category_links@[l]).facet,
            )
    }

    /// Some link names a mode that no row describes.
    pub open spec fn misses_a_mode(&self) -> bool {
        exists|l: int|
            0 <= l < self.mode_links@.len() && !self.mode_ids().contains((#[trigger] self.mode_links@[l]).facet)
    }

    /// Some link names a preset that no row describes.
    pub open spec fn misses_a_preset(&self) -> bool {
        ||| exists|l: int|
            0 <= l < self.category_links@.len() && !self.preset_ids().contains(
                (#[trigger] self.category_links@[l]).preset,
            )
        ||| exists|l: int|
            0 <= l < self.mode_links@.len() && !self.preset_ids().contains(
                (#[trigger] self.mode_links@[l]).preset,
            )
    }
}

} // verus!
