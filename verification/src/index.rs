//! The consolidated index: every entity in its display order, reachable by
//! id, with the cross-references between presets and facet values.

use crate::category::{Bank, Category, Mode};
use crate::ingest::{
    arrange_texts, bank_sets, credit_products, distinct_texts, facets_known, follows_plan, gather, lemma_ranked_ids,
    list, plan_products, presets_known, ranked_slots, IngestError,
};
use crate::natural::{is_ranking, lemma_ranking_covers, natural_ranking, ranks_naturally, texts};
use crate::preset::Preset;
use crate::product::{KeyModel, Product, ProductKey, ProductTable};
use crate::rows::{
    aliases_agree, banked_presets, credited_presets, labels, lemma_blueprint_aliases_agree,
    lemma_blueprint_well_planned, linked_facets, linked_presets, path_of, without_repeats, BankRow, Blueprint,
    CategoryRow, LinkRow, ModeRow, PresetRow, Rows,
};
use crate::slots::SlotMap;
use std::collections::HashSet;
use vstd::prelude::*;

verus! {

/// The bank says what its row says, and holds the presets that lie in it.
pub open spec fn bank_from(bank: Bank, row: BankRow, presets: Seq<PresetRow>) -> bool {
    &&& bank.id == row.id
    &&& bank.entry1@ == row.entry1@
    &&& bank.entry2@ == row.entry2@
    &&& bank.entry3@ == row.entry3@
    &&& bank.presets@ == banked_presets(presets, row.id)
}

/// The category says what its row says, and holds the presets linked to it.
pub open spec fn category_from(category: Category, row: CategoryRow, links: Seq<LinkRow>) -> bool {
    &&& category.id == row.id
    &&& category.name@ == row.name@
    &&& category.subcategory@ == row.subcategory@
    &&& category.subsubcategory@ == row.subsubcategory@
    &&& category.presets@ == linked_presets(links, row.id)
}

/// The mode says what its row says, and holds the presets linked to it.
pub open spec fn mode_from(mode: Mode, row: ModeRow, links: Seq<LinkRow>) -> bool {
    &&& mode.id == row.id
    &&& mode.name@ == row.name@
    &&& mode.presets@ == linked_presets(links, row.id)
}

/// The preset says what its row says, refers by numeric key to the product
/// that its content root leads to, carries that product's name, and holds
/// the categories and modes linked to it.
pub open spec fn preset_from(
    preset: Preset,
    row: PresetRow,
    plan: Blueprint,
    category_links: Seq<LinkRow>,
    mode_links: Seq<LinkRow>,
) -> bool {
    &&& preset.id == row.id
    &&& preset.name@ == row.name@
    &&& preset.vendor@ == row.vendor@
    &&& preset.comment@ == row.comment@
    &&& preset.file_name@ == row.file_name@
    &&& preset.bank == row.bank
    &&& plan.slots.contains_key(KeyModel::Id(row.path_id))
    &&& plan.slots[KeyModel::Id(row.path_id)] < plan.sheets.len()
    &&& preset.product_id@ == KeyModel::Id(plan.sheets[plan.slots[KeyModel::Id(row.path_id)] as int].id)
    &&& preset.product_name@ == plan.sheets[plan.slots[KeyModel::Id(row.path_id)] as int].name
    &&& preset.categories@ == linked_facets(category_links, row.id)
    &&& preset.modes@ == linked_facets(mode_links, row.id)
}

/// The index of a preset collection. It is built once and never changes.
pub struct Index {
    pub(crate) vendors: Vec<String>,
    pub(crate) banks: Vec<Bank>,
    pub(crate) bank_slots: SlotMap,
    pub(crate) categories: Vec<Category>,
    pub(crate) category_slots: SlotMap,
    pub(crate) modes: Vec<Mode>,
    pub(crate) mode_slots: SlotMap,
    pub(crate) presets: Vec<Preset>,
    pub(crate) preset_slots: SlotMap,
    pub(crate) products: ProductTable,
}

impl Index {
    /// The vendors in display order.
    pub open(crate) spec fn vendors(&self) -> Seq<String> {
        self.vendors@
    }

    /// The banks in display order.
    pub open(crate) spec fn banks(&self) -> Seq<Bank> {
        self.banks@
    }

    /// The categories in display order.
    pub open(crate) spec fn categories(&self) -> Seq<Category> {
        self.categories@
    }

    /// The modes in display order.
    pub open(crate) spec fn modes(&self) -> Seq<Mode> {
        self.modes@
    }

    /// The presets in the natural order of their names.
    pub open(crate) spec fn presets(&self) -> Seq<Preset> {
        self.presets@
    }

    /// The products.
    pub open(crate) spec fn products(&self) -> ProductTable {
        self.products
    }

    /// Each entity is found by its id at the place where it stands, and
    /// every id in a set of presets belongs to a preset of the index.
    #[verifier::type_invariant]
    pub open(crate) spec fn sound(&self) -> bool {
        &&& self.bank_slots.wf()
        &&& self.bank_slots.ids() == Seq::new(self.banks@.len(), |i: int| self.banks@[i].id)
        &&& self.category_slots.wf()
        &&& self.category_slots.ids() == Seq::new(self.categories@.len(), |i: int| self.categories@[i].id)
        &&& self.mode_slots.wf()
        &&& self.mode_slots.ids() == Seq::new(self.modes@.len(), |i: int| self.modes@[i].id)
        &&& self.preset_slots.wf()
        &&& self.preset_slots.ids() == Seq::new(self.presets@.len(), |i: int| self.presets@[i].id)
        &&& self.products.wf()
        &&& self.knows_its_presets()
    }

    /// The vendors are those of the rows, each once, in natural order.
    pub open spec fn lists_vendors(&self, rows: &Rows) -> bool {
        let names = without_repeats(texts(rows.vendors@));
        exists|ranking: Seq<usize>|
            {
                &&& #[trigger] ranks_naturally(names, ranking)
                &&& self.vendors().len() == ranking.len()
                &&& forall|i: int|
                    0 <= i < ranking.len() ==> (#[trigger] self.vendors()[i])@ == names[ranking[i] as int]
            }
    }

    /// The banks are those of the rows, in the natural order of their
    /// display names.
    pub open spec fn lists_banks(&self, rows: &Rows) -> bool {
        exists|ranking: Seq<usize>|
            {
                &&& #[trigger] ranks_naturally(labels(rows.banks@), ranking)
                &&& self.banks().len() == ranking.len()
                &&& forall|i: int|
                    0 <= i < ranking.len() ==> bank_from(
                        #[trigger] self.banks()[i],
                        rows.banks@[ranking[i] as int],
                        rows.presets@,
                    )
            }
    }

    /// The categories are those of the rows, in the natural order of their
    /// display names.
    pub open spec fn lists_categories(&self, rows: &Rows) -> bool {
        exists|ranking: Seq<usize>|
            {
                &&& #[trigger] ranks_naturally(labels(rows.categories@), ranking)
                &&& self.categories().len() == ranking.len()
                &&& forall|i: int|
                    0 <= i < ranking.len() ==> category_from(
                        #[trigger] self.categories()[i],
                        rows.categories@[ranking[i] as int],
                        rows.category_links@,
                    )
            }
    }

    /// The modes are those of the rows, in the natural order of their names.
    pub open spec fn lists_modes(&self, rows: &Rows) -> bool {
        exists|ranking: Seq<usize>|
            {
                &&& #[trigger] ranks_naturally(labels(rows.modes@), ranking)
                &&& self.modes().len() == ranking.len()
                &&& forall|i: int|
                    0 <= i < ranking.len() ==> mode_from(
                        #[trigger] self.modes()[i],
                        rows.modes@[ranking[i] as int],
                        rows.mode_links@,
                    )
            }
    }

    /// The presets are those of the rows, in the natural order of their
    /// names.
    pub open spec fn lists_presets(&self, rows: &Rows) -> bool {
        exists|ranking: Seq<usize>|
            {
                &&& #[trigger] ranks_naturally(labels(rows.presets@), ranking)
                &&& self.presets().len() == ranking.len()
                &&& forall|i: int|
                    0 <= i < ranking.len() ==> preset_from(
                        #[trigger] self.presets()[i],
                        rows.presets@[ranking[i] as int],
                        rows.plan(),
                        rows.category_links@,
                        rows.mode_links@,
                    )
            }
    }

    /// The products are those that the rows plan, each with the presets
    /// whose content root leads to it.
    pub open spec fn lists_products(&self, rows: &Rows) -> bool {
        &&& self.products().sound()
        &&& follows_plan(&self.products(), rows.plan())
        &&& forall|s: int|
            0 <= s < self.products().records().len() ==> (#[trigger] self.products().records()[s])->0.presets@
                == credited_presets(rows.plan().slots, rows.presets@, s)
    }

    /// The index holds what the rows say, and nothing else.
    pub open spec fn holds(&self, rows: &Rows) -> bool {
        &&& self.lists_vendors(rows)
        &&& self.lists_banks(rows)
        &&& self.lists_categories(rows)
        &&& self.lists_modes(rows)
        &&& self.lists_presets(rows)
        &&& self.lists_products(rows)
    }

    /// Every preset's product reference leads to a product of the index.
    pub open spec fn resolves_products(&self) -> bool {
        forall|p: int|
            0 <= p < self.presets().len() ==> self.products().lookup((#[trigger] self.presets()[p]).product_id@)
                is Some
    }

    /// A category holds a preset exactly where the preset holds the
    /// category.
    pub open spec fn mirrors_categories(&self) -> bool {
        forall|c: int, p: int|
            0 <= c < self.categories().len() && 0 <= p < self.presets().len() ==> ((
            #[trigger] self.categories()[c]).presets@.contains((#[trigger] self.presets()[p]).id)
                <==> self.presets()[p].categories@.contains(self.categories()[c].id))
    }

    /// A mode holds a preset exactly where the preset holds the mode.
    pub open spec fn mirrors_modes(&self) -> bool {
        forall|m: int, p: int|
            0 <= m < self.modes().len() && 0 <= p < self.presets().len() ==> ((
            #[trigger] self.modes()[m]).presets@.contains((#[trigger] self.presets()[p]).id)
                <==> self.presets()[p].modes@.contains(self.modes()[m].id))
    }

    /// Some preset of the index has the id.
    pub open spec fn has_preset(&self, id: usize) -> bool {
        exists|i: int| 0 <= i < self.presets().len() && (#[trigger] self.presets()[i]).id == id
    }

    /// Every id in a set of presets belongs to a preset of the index, be
    /// it the set of a category, of a mode, of a bank or of a product.
    pub open spec fn knows_its_presets(&self) -> bool {
        &&& forall|i: int, id: usize|
            0 <= i < self.categories().len() && (#[trigger] self.categories()[i]).presets@.contains(id)
                ==> #[trigger] self.has_preset(id)
        &&& forall|i: int, id: usize|
            0 <= i < self.modes().len() && (#[trigger] self.modes()[i]).presets@.contains(id)
                ==> #[trigger] self.has_preset(id)
        &&& forall|i: int, id: usize|
            0 <= i < self.banks().len() && (#[trigger] self.banks()[i]).presets@.contains(id)
                ==> #[trigger] self.has_preset(id)
        &&& forall|s: int, id: usize|
            0 <= s < self.products().records().len() && (#[trigger] self.products().records()[s])->0.presets@.contains(
                id,
            ) ==> #[trigger] self.has_preset(id)
    }

    /// A bank holds a preset exactly where the preset lies in it; the bank
    /// `0` holds none.
    pub open spec fn mirrors_banks(&self) -> bool {
        forall|b: int, p: int|
            0 <= b < self.banks().len() && 0 <= p < self.presets().len() ==> ((
            #[trigger] self.banks()[b]).presets@.contains((#[trigger] self.presets()[p]).id) <==> (
            self.presets()[p].bank == self.banks()[b].id && self.banks()[b].id != 0))
    }
}

/// Takes the set out of `sets[at]` and leaves an empty one behind.
fn take_set(sets: &mut Vec<HashSet<usize>>, at: usize) -> (taken: HashSet<usize>)
    requires
        at < old(sets)@.len(),
    ensures
        taken@ == old(sets)@[at as int]@,
        final(sets)@.len() == old(sets)@.len(),
        forall|s: int| 0 <= s < old(sets)@.len() && s != at ==> final(sets)@[s] == old(sets)@[s],
{
    let mut taken: HashSet<usize> = HashSet::new();
    core::mem::swap(&mut sets[at], &mut taken);
    taken
}

/// The banks in the order of `ranking`, each with its set of presets.
fn assemble_banks(
    rows: &Vec<BankRow>,
    ranking: &Vec<usize>,
    sets: Vec<HashSet<usize>>,
    Ghost(presets): Ghost<Seq<PresetRow>>,
) -> (banks: Vec<Bank>)
    requires
        is_ranking(ranking@, rows@.len()),
        sets@.len() == ranking@.len(),
        forall|s: int|
            0 <= s < sets@.len() ==> (#[trigger] sets@[s])@ == banked_presets(
                presets,
                rows@[ranking@[s] as int].id,
            ),
    ensures
        banks@.len() == ranking@.len(),
        forall|i: int|
            0 <= i < ranking@.len() ==> bank_from(#[trigger] banks@[i], rows@[ranking@[i] as int], presets),
{
    let mut sets = sets;
    let mut banks: Vec<Bank> = Vec::new();
    let mut i: usize = 0;
    while i < ranking.len()
        invariant
            i <= ranking.len(),
            is_ranking(ranking@, rows@.len()),
            sets@.len() == ranking@.len(),
            banks@.len() == i,
            forall|s: int|
                i <= s < sets@.len() ==> (#[trigger] sets@[s])@ == banked_presets(
                    presets,
                    rows@[ranking@[s] as int].id,
                ),
            forall|j: int| 0 <= j < i ==> bank_from(#[trigger] banks@[j], rows@[ranking@[j] as int], presets),
        decreases ranking.len() - i,
    {
        let row = &rows[ranking[i]];
        let held = take_set(&mut sets, i);
        banks.push(
            Bank {
                id: row.id,
                entry1: row.entry1.clone(),
                entry2: row.entry2.clone(),
                entry3: row.entry3.clone(),
                presets: held,
            },
        );
        i = i + 1;
    }
    banks
}

/// The categories in the order of `ranking`, each with its set of presets.
fn assemble_categories(
    rows: &Vec<CategoryRow>,
    ranking: &Vec<usize>,
    sets: Vec<HashSet<usize>>,
    Ghost(links): Ghost<Seq<LinkRow>>,
) -> (categories: Vec<Category>)
    requires
        is_ranking(ranking@, rows@.len()),
        sets@.len() == ranking@.len(),
        forall|s: int|
            0 <= s < sets@.len() ==> (#[trigger] sets@[s])@ == linked_presets(links, rows@[ranking@[s] as int].id),
    ensures
        categories@.len() == ranking@.len(),
        forall|i: int|
            0 <= i < ranking@.len() ==> category_from(
                #[trigger] categories@[i],
                rows@[ranking@[i] as int],
                links,
            ),
{
    let mut sets = sets;
    let mut categories: Vec<Category> = Vec::new();
    let mut i: usize = 0;
    while i < ranking.len()
        invariant
            i <= ranking.len(),
            is_ranking(ranking@, rows@.len()),
            sets@.len() == ranking@.len(),
            categories@.len() == i,
            forall|s: int|
                i <= s < sets@.len() ==> (#[trigger] sets@[s])@ == linked_presets(
                    links,
                    rows@[ranking@[s] as int].id,
                ),
            forall|j: int|
                0 <= j < i ==> category_from(#[trigger] categories@[j], rows@[ranking@[j] as int], links),
        decreases ranking.len() - i,
    {
        let row = &rows[ranking[i]];
        let held = take_set(&mut sets, i);
        categories.push(
            Category {
                id: row.id,
                name: row.name.clone(),
                subcategory: row.subcategory.clone(),
                subsubcategory: row.subsubcategory.clone(),
                presets: held,
            },
        );
        i = i + 1;
    }
    categories
}

/// The modes in the order of `ranking`, each with its set of presets.
fn assemble_modes(
    rows: &Vec<ModeRow>,
    ranking: &Vec<usize>,
    sets: Vec<HashSet<usize>>,
    Ghost(links): Ghost<Seq<LinkRow>>,
) -> (modes: Vec<Mode>)
    requires
        is_ranking(ranking@, rows@.len()),
        sets@.len() == ranking@.len(),
        forall|s: int|
            0 <= s < sets@.len() ==> (#[trigger] sets@[s])@ == linked_presets(links, rows@[ranking@[s] as int].id),
    ensures
        modes@.len() == ranking@.len(),
        forall|i: int| 0 <= i < ranking@.len() ==> mode_from(#[trigger] modes@[i], rows@[ranking@[i] as int], links),
{
    let mut sets = sets;
    let mut modes: Vec<Mode> = Vec::new();
    let mut i: usize = 0;
    while i < ranking.len()
        invariant
            i <= ranking.len(),
            is_ranking(ranking@, rows@.len()),
            sets@.len() == ranking@.len(),
            modes@.len() == i,
            forall|s: int|
                i <= s < sets@.len() ==> (#[trigger] sets@[s])@ == linked_presets(
                    links,
                    rows@[ranking@[s] as int].id,
                ),
            forall|j: int| 0 <= j < i ==> mode_from(#[trigger] modes@[j], rows@[ranking@[j] as int], links),
        decreases ranking.len() - i,
    {
        let row = &rows[ranking[i]];
        let held = take_set(&mut sets, i);
        modes.push(Mode { id: row.id, name: row.name.clone(), presets: held });
        i = i + 1;
    }
    modes
}

/// The presets in the order of `ranking`, each with its product and its
/// sets of categories and modes.
fn assemble_presets(
    rows: &Vec<PresetRow>,
    ranking: &Vec<usize>,
    products: &ProductTable,
    categories: Vec<HashSet<usize>>,
    modes: Vec<HashSet<usize>>,
    Ghost(plan): Ghost<Blueprint>,
    Ghost(category_links): Ghost<Seq<LinkRow>>,
    Ghost(mode_links): Ghost<Seq<LinkRow>>,
) -> (presets: Vec<Preset>)
    requires
        is_ranking(ranking@, rows@.len()),
        products.wf(),
        follows_plan(products, plan),
        forall|p: int| 0 <= p < rows@.len() ==> plan.slots.contains_key(KeyModel::Id((#[trigger] rows@[p]).path_id)),
        categories@.len() == ranking@.len(),
        modes@.len() == ranking@.len(),
        forall|s: int|
            0 <= s < categories@.len() ==> (#[trigger] categories@[s])@ == linked_facets(
                category_links,
                rows@[ranking@[s] as int].id,
            ),
        forall|s: int|
            0 <= s < modes@.len() ==> (#[trigger] modes@[s])@ == linked_facets(
                mode_links,
                rows@[ranking@[s] as int].id,
            ),
    ensures
        presets@.len() == ranking@.len(),
        forall|i: int|
            0 <= i < ranking@.len() ==> preset_from(
                #[trigger] presets@[i],
                rows@[ranking@[i] as int],
                plan,
                category_links,
                mode_links,
            ),
{
    let mut categories = categories;
    let mut modes = modes;
    let mut presets: Vec<Preset> = Vec::new();
    let mut i: usize = 0;
    while i < ranking.len()
        invariant
            i <= ranking.len(),
            is_ranking(ranking@, rows@.len()),
            products.wf(),
            follows_plan(products, plan),
            forall|p: int|
                0 <= p < rows@.len() ==> plan.slots.contains_key(KeyModel::Id((#[trigger] rows@[p]).path_id)),
            categories@.len() == ranking@.len(),
            modes@.len() == ranking@.len(),
            presets@.len() == i,
            forall|s: int|
                i <= s < categories@.len() ==> (#[trigger] categories@[s])@ == linked_facets(
                    category_links,
                    rows@[ranking@[s] as int].id,
                ),
            forall|s: int|
                i <= s < modes@.len() ==> (#[trigger] modes@[s])@ == linked_facets(
                    mode_links,
                    rows@[ranking@[s] as int].id,
                ),
            forall|j: int|
                0 <= j < i ==> preset_from(
                    #[trigger] presets@[j],
                    rows@[ranking@[j] as int],
                    plan,
                    category_links,
                    mode_links,
                ),
        decreases ranking.len() - i,
    {
        let row = &rows[ranking[i]];
        let key = ProductKey::Id(row.path_id);
        proof {
            products.lemma_sound();
            assert(products.binds(key@));
        }
        let (product_id, product_name) = match products.get(&key) {
            Some(product) => (ProductKey::Id(product.id), product.name.clone()),
            None => {
                assert(false);
                (ProductKey::Id(row.path_id), String::new())
            },
        };
        let held_categories = take_set(&mut categories, i);
        let held_modes = take_set(&mut modes, i);
        presets.push(
            Preset {
                name: row.name.clone(),
                vendor: row.vendor.clone(),
                comment: row.comment.clone(),
                product_id,
                product_name,
                id: row.id,
                file_name: row.file_name.clone(),
                bank: row.bank,
                categories: held_categories,
                modes: held_modes,
            },
        );
        i = i + 1;
    }
    presets
}

impl Index {
    /// Builds the index of the rows. There is no partial index: rows that
    /// miss an expected relation, or repeat an id, give an error and
    /// nothing else.
    pub fn build(rows: &Rows) -> (built: Result<Index, IngestError>)
        ensures
            match built {
                Ok(index) => {
                    &&& rows.fault() is None
                    &&& index.holds(rows)
                    &&& index.resolves_products()
                    &&& index.mirrors_categories()
                    &&& index.mirrors_modes()
                    &&& index.mirrors_banks()
                    &&& index.knows_its_presets()
                    &&& aliases_agree(rows.plan(), rows.paths@)
                },
                Err(fault) => rows.fault() == Some(fault),
            },
    {
        let names = distinct_texts(&rows.vendors);
        let vendor_ranking = natural_ranking(&names);
        let vendors = arrange_texts(&names, &vendor_ranking);

        let (bank_ids, bank_names) = list(&rows.banks);
        let bank_ranking = natural_ranking(&bank_names);
        let (category_ids, category_names) = list(&rows.categories);
        let category_ranking = natural_ranking(&category_names);
        let (mode_ids, mode_names) = list(&rows.modes);
        let mode_ranking = natural_ranking(&mode_names);
        let (preset_ids, preset_names) = list(&rows.presets);
        let preset_ranking = natural_ranking(&preset_names);
        proof {
            lemma_ranked_ids(bank_ids@, bank_ranking@);
            lemma_ranked_ids(category_ids@, category_ranking@);
            lemma_ranked_ids(mode_ids@, mode_ranking@);
            lemma_ranked_ids(preset_ids@, preset_ranking@);
        }

        let bank_slots = match ranked_slots(&bank_ids, &bank_ranking) {
            Some(slots) => slots,
            None => {
                return Err(IngestError::DuplicateId);
            },
        };
        let preset_slots = match ranked_slots(&preset_ids, &preset_ranking) {
            Some(slots) => slots,
            None => {
                return Err(IngestError::DuplicateId);
            },
        };
        let category_slots = match ranked_slots(&category_ids, &category_ranking) {
            Some(slots) => slots,
            None => {
                return Err(IngestError::DuplicateId);
            },
        };
        let mode_slots = match ranked_slots(&mode_ids, &mode_ranking) {
            Some(slots) => slots,
            None => {
                return Err(IngestError::DuplicateId);
            },
        };
        assert(!rows.repeats_an_id());

        let ghost plan = rows.plan();
        let mut products = plan_products(&rows.paths, &rows.products);
        if !credit_products(&mut products, &rows.presets, Ghost(plan)) {
            return Err(IngestError::UnknownProduct);
        }
        assert(!rows.misses_a_product());

        let by_bank = match bank_sets(&bank_slots, &rows.presets) {
            Some(sets) => sets,
            None => {
                return Err(IngestError::UnknownBank);
            },
        };
        assert(!rows.misses_a_bank());

        if !facets_known(&rows.category_links, &category_slots) {
            return Err(IngestError::UnknownCategory);
        }
        assert(!rows.misses_a_category());
        if !facets_known(&rows.mode_links, &mode_slots) {
            return Err(IngestError::UnknownMode);
        }
        assert(!rows.misses_a_mode());
        if !presets_known(&rows.category_links, &preset_slots) {
            return Err(IngestError::UnknownPreset);
        }
        if !presets_known(&rows.mode_links, &preset_slots) {
            return Err(IngestError::UnknownPreset);
        }
        assert(!rows.misses_a_preset());

        let (by_category, categories_of) = gather(&rows.category_links, &category_slots, &preset_slots);
        let (by_mode, modes_of) = gather(&rows.mode_links, &mode_slots, &preset_slots);

        let banks = assemble_banks(&rows.banks, &bank_ranking, by_bank, Ghost(rows.presets@));
        let categories = assemble_categories(
            &rows.categories,
            &category_ranking,
            by_category,
            Ghost(rows.category_links@),
        );
        let modes = assemble_modes(&rows.modes, &mode_ranking, by_mode, Ghost(rows.mode_links@));
        let presets = assemble_presets(
            &rows.presets,
            &preset_ranking,
            &products,
            categories_of,
            modes_of,
            Ghost(plan),
            Ghost(rows.category_links@),
            Ghost(rows.mode_links@),
        );
        proof {
            products.lemma_sound();
            assert(bank_slots.ids() =~= Seq::new(banks@.len(), |i: int| banks@[i].id));
            assert(category_slots.ids() =~= Seq::new(categories@.len(), |i: int| categories@[i].id));
            assert(mode_slots.ids() =~= Seq::new(modes@.len(), |i: int| modes@[i].id));
            assert(preset_slots.ids() =~= Seq::new(presets@.len(), |i: int| presets@[i].id));
            let planned = Index {
                vendors,
                banks,
                bank_slots,
                categories,
                category_slots,
                modes,
                mode_slots,
                presets,
                preset_slots,
                products,
            };
            assert(ranks_naturally(without_repeats(texts(rows.vendors@)), vendor_ranking@));
            assert(planned.lists_vendors(rows));
            assert(ranks_naturally(labels(rows.banks@), bank_ranking@));
            assert(planned.lists_banks(rows));
            assert(ranks_naturally(labels(rows.categories@), category_ranking@));
            assert(planned.lists_categories(rows));
            assert(ranks_naturally(labels(rows.modes@), mode_ranking@));
            assert(planned.lists_modes(rows));
            assert(ranks_naturally(labels(rows.presets@), preset_ranking@));
            assert(planned.lists_presets(rows));
            assert(planned.lists_products(rows));
            law_products_resolve(planned, *rows);
            law_categories_mirror(planned, *rows);
            law_modes_mirror(planned, *rows);
            law_banks_mirror(planned, *rows);
            law_preset_sets_resolve(planned, *rows);
            lemma_blueprint_aliases_agree(rows.paths@, rows.products@);
        }
        let index = Index {
            vendors,
            banks,
            bank_slots,
            categories,
            category_slots,
            modes,
            mode_slots,
            presets,
            preset_slots,
            products,
        };
        Ok(index)
    }
}

impl Index {
    /// The vendors in display order.
    pub fn vendor_list(&self) -> (list: &Vec<String>)
        ensures
            list@ == self.vendors(),
    {
        &self.vendors
    }

    /// The banks in display order.
    pub fn bank_list(&self) -> (list: &Vec<Bank>)
        ensures
            list@ == self.banks(),
    {
        &self.banks
    }

    /// The categories in display order.
    pub fn category_list(&self) -> (list: &Vec<Category>)
        ensures
            list@ == self.categories(),
    {
        &self.categories
    }

    /// The modes in display order.
    pub fn mode_list(&self) -> (list: &Vec<Mode>)
        ensures
            list@ == self.modes(),
    {
        &self.modes
    }

    /// The presets in the natural order of their names.
    pub fn preset_list(&self) -> (list: &Vec<Preset>)
        ensures
            list@ == self.presets(),
    {
        &self.presets
    }

    /// The products.
    pub fn product_table(&self) -> (table: &ProductTable)
        ensures
            *table == self.products(),
            table.wf(),
    {
        proof {
            use_type_invariant(self);
        }
        &self.products
    }

    /// The bank with the given id.
    pub fn bank(&self, id: usize) -> (found: Option<&Bank>)
        ensures
            match found {
                Some(bank) => bank.id == id && self.banks().contains(*bank),
                None => forall|i: int| 0 <= i < self.banks().len() ==> (#[trigger] self.banks()[i]).id != id,
            },
    {
        proof {
            use_type_invariant(self);
        }
        match self.bank_slots.slot(id) {
            Some(at) => {
                assert(self.bank_slots.ids()[at as int] == self.banks()[at as int].id);
                Some(&self.banks[at])
            },
            None => {
                assert forall|i: int| 0 <= i < self.banks().len() implies (#[trigger] self.banks()[i]).id
                    != id by {
                    assert(self.bank_slots.ids()[i] == self.banks()[i].id);
                }
                None
            },
        }
    }

    /// The category with the given id.
    pub fn category(&self, id: usize) -> (found: Option<&Category>)
        ensures
            match found {
                Some(category) => category.id == id && self.categories().contains(*category),
                None => forall|i: int|
                    0 <= i < self.categories().len() ==> (#[trigger] self.categories()[i]).id != id,
            },
    {
        proof {
            use_type_invariant(self);
        }
        match self.category_slots.slot(id) {
            Some(at) => {
                assert(self.category_slots.ids()[at as int] == self.categories()[at as int].id);
                Some(&self.categories[at])
            },
            None => {
                assert forall|i: int| 0 <= i < self.categories().len() implies (
                #[trigger] self.categories()[i]).id != id by {
                    assert(self.category_slots.ids()[i] == self.categories()[i].id);
                }
                None
            },
        }
    }

    /// The mode with the given id.
    pub fn mode(&self, id: usize) -> (found: Option<&Mode>)
        ensures
            match found {
                Some(mode) => mode.id == id && self.modes().contains(*mode),
                None => forall|i: int| 0 <= i < self.modes().len() ==> (#[trigger] self.modes()[i]).id != id,
            },
    {
        proof {
            use_type_invariant(self);
        }
        match self.mode_slots.slot(id) {
            Some(at) => {
                assert(self.mode_slots.ids()[at as int] == self.modes()[at as int].id);
                Some(&self.modes[at])
            },
            None => {
                assert forall|i: int| 0 <= i < self.modes().len() implies (#[trigger] self.modes()[i]).id
                    != id by {
                    assert(self.mode_slots.ids()[i] == self.modes()[i].id);
                }
                None
            },
        }
    }

    /// The preset with the given id.
    pub fn preset(&self, id: usize) -> (found: Option<&Preset>)
        ensures
            match found {
                Some(preset) => preset.id == id && self.presets().contains(*preset),
                None => forall|i: int| 0 <= i < self.presets().len() ==> (#[trigger] self.presets()[i]).id != id,
            },
    {
        proof {
            use_type_invariant(self);
        }
        match self.preset_slots.slot(id) {
            Some(at) => {
                assert(self.preset_slots.ids()[at as int] == self.presets()[at as int].id);
                Some(&self.presets[at])
            },
            None => {
                assert forall|i: int| 0 <= i < self.presets().len() implies (#[trigger] self.presets()[i]).id
                    != id by {
                    assert(self.preset_slots.ids()[i] == self.presets()[i].id);
                }
                None
            },
        }
    }

    /// The product that the key leads to.
    pub fn product(&self, key: &ProductKey) -> (found: Option<&Product>)
        ensures
            match found {
                Some(record) => self.products().lookup(key@) == Some(*record),
                None => self.products().lookup(key@) is None,
            },
    {
        proof {
            use_type_invariant(self);
        }
        self.products.get(key)
    }
}

/// In an index that holds what its rows say, every preset's product
/// reference leads to a product.
pub proof fn law_products_resolve(index: Index, rows: Rows)
    requires
        index.holds(&rows),
    ensures
        index.resolves_products(),
{
    let ranking = choose|ranking: Seq<usize>|
        {
            &&& #[trigger] ranks_naturally(labels(rows.presets@), ranking)
            &&& index.presets().len() == ranking.len()
            &&& forall|i: int|
                0 <= i < ranking.len() ==> preset_from(
                    #[trigger] index.presets()[i],
                    rows.presets@[ranking[i] as int],
                    rows.plan(),
                    rows.category_links@,
                    rows.mode_links@,
                )
        };
    assert(rows.products@.len() <= usize::MAX) by {
        assert(rows.products.len() == rows.products@.len());
    }
    lemma_blueprint_well_planned(rows.paths@, rows.products@);
    assert forall|p: int| 0 <= p < index.presets().len() implies index.products().lookup(
        (#[trigger] index.presets()[p]).product_id@,
    ) is Some by {
        let key = index.presets()[p].product_id@;
        assert(preset_from(
            index.presets()[p],
            rows.presets@[ranking[p] as int],
            rows.plan(),
            rows.category_links@,
            rows.mode_links@,
        ));
        assert(index.products().binds(key));
    }
}

/// In an index that holds what its rows say, a category holds a preset
/// exactly where the preset holds the category.
pub proof fn law_categories_mirror(index: Index, rows: Rows)
    requires
        index.holds(&rows),
    ensures
        index.mirrors_categories(),
{
    let links = rows.category_links@;
    let of_presets = choose|ranking: Seq<usize>|
        {
            &&& #[trigger] ranks_naturally(labels(rows.presets@), ranking)
            &&& index.presets().len() == ranking.len()
            &&& forall|i: int|
                0 <= i < ranking.len() ==> preset_from(
                    #[trigger] index.presets()[i],
                    rows.presets@[ranking[i] as int],
                    rows.plan(),
                    rows.category_links@,
                    rows.mode_links@,
                )
        };
    let of_categories = choose|ranking: Seq<usize>|
        {
            &&& #[trigger] ranks_naturally(labels(rows.categories@), ranking)
            &&& index.categories().len() == ranking.len()
            &&& forall|i: int|
                0 <= i < ranking.len() ==> category_from(
                    #[trigger] index.categories()[i],
                    rows.categories@[ranking[i] as int],
                    rows.category_links@,
                )
        };
    assert forall|c: int, p: int|
        0 <= c < index.categories().len() && 0 <= p < index.presets().len() implies ((
    #[trigger] index.categories()[c]).presets@.contains((#[trigger] index.presets()[p]).id)
        <==> index.presets()[p].categories@.contains(index.categories()[c].id)) by {
        let category = index.categories()[c];
        let preset = index.presets()[p];
        assert(category_from(category, rows.categories@[of_categories[c] as int], links));
        assert(preset_from(
            preset,
            rows.presets@[of_presets[p] as int],
            rows.plan(),
            links,
            rows.mode_links@,
        ));
        if category.presets@.contains(preset.id) {
            let l = choose|l: int|
                0 <= l < links.len() && (#[trigger] links[l]).facet == category.id && links[l].preset == preset.id;
            assert(linked_facets(links, preset.id).contains(category.id));
        }
        if preset.categories@.contains(category.id) {
            let l = choose|l: int|
                0 <= l < links.len() && (#[trigger] links[l]).preset == preset.id && links[l].facet == category.id;
            assert(linked_presets(links, category.id).contains(preset.id));
        }
    }
}

/// In an index that holds what its rows say, a mode holds a preset exactly
/// where the preset holds the mode.
pub proof fn law_modes_mirror(index: Index, rows: Rows)
    requires
        index.holds(&rows),
    ensures
        index.mirrors_modes(),
{
    let links = rows.mode_links@;
    let of_presets = choose|ranking: Seq<usize>|
        {
            &&& #[trigger] ranks_naturally(labels(rows.presets@), ranking)
            &&& index.presets().len() == ranking.len()
            &&& forall|i: int|
                0 <= i < ranking.len() ==> preset_from(
                    #[trigger] index.presets()[i],
                    rows.presets@[ranking[i] as int],
                    rows.plan(),
                    rows.category_links@,
                    rows.mode_links@,
                )
        };
    let of_modes = choose|ranking: Seq<usize>|
        {
            &&& #[trigger] ranks_naturally(labels(rows.modes@), ranking)
            &&& index.modes().len() == ranking.len()
            &&& forall|i: int|
                0 <= i < ranking.len() ==> mode_from(
                    #[trigger] index.modes()[i],
                    rows.modes@[ranking[i] as int],
                    rows.mode_links@,
                )
        };
    assert forall|m: int, p: int|
        0 <= m < index.modes().len() && 0 <= p < index.presets().len() implies ((
    #[trigger] index.modes()[m]).presets@.contains((#[trigger] index.presets()[p]).id)
        <==> index.presets()[p].modes@.contains(index.modes()[m].id)) by {
        let mode = index.modes()[m];
        let preset = index.presets()[p];
        assert(mode_from(mode, rows.modes@[of_modes[m] as int], links));
        assert(preset_from(
            preset,
            rows.presets@[of_presets[p] as int],
            rows.plan(),
            rows.category_links@,
            links,
        ));
        if mode.presets@.contains(preset.id) {
            let l = choose|l: int|
                0 <= l < links.len() && (#[trigger] links[l]).facet == mode.id && links[l].preset == preset.id;
            assert(linked_facets(links, preset.id).contains(mode.id));
        }
        if preset.modes@.contains(mode.id) {
            let l = choose|l: int|
                0 <= l < links.len() && (#[trigger] links[l]).preset == preset.id && links[l].facet == mode.id;
            assert(linked_presets(links, mode.id).contains(preset.id));
        }
    }
}

/// In an index that holds what rows without a repeated id say, a bank
/// holds a preset exactly where the preset lies in it, and the bank `0`
/// holds none.
pub proof fn law_banks_mirror(index: Index, rows: Rows)
    requires
        index.holds(&rows),
        !rows.repeats_an_id(),
    ensures
        index.mirrors_banks(),
{
    let of_presets = choose|ranking: Seq<usize>|
        {
            &&& #[trigger] ranks_naturally(labels(rows.presets@), ranking)
            &&& index.presets().len() == ranking.len()
            &&& forall|i: int|
                0 <= i < ranking.len() ==> preset_from(
                    #[trigger] index.presets()[i],
                    rows.presets@[ranking[i] as int],
                    rows.plan(),
                    rows.category_links@,
                    rows.mode_links@,
                )
        };
    let of_banks = choose|ranking: Seq<usize>|
        {
            &&& #[trigger] ranks_naturally(labels(rows.banks@), ranking)
            &&& index.banks().len() == ranking.len()
            &&& forall|i: int|
                0 <= i < ranking.len() ==> bank_from(
                    #[trigger] index.banks()[i],
                    rows.banks@[ranking[i] as int],
                    rows.presets@,
                )
        };
    assert forall|b: int, p: int|
        0 <= b < index.banks().len() && 0 <= p < index.presets().len() implies ((
    #[trigger] index.banks()[b]).presets@.contains((#[trigger] index.presets()[p]).id) <==> (
    index.presets()[p].bank == index.banks()[b].id && index.banks()[b].id != 0)) by {
        let bank = index.banks()[b];
        let preset = index.presets()[p];
        let at = of_presets[p] as int;
        assert(bank_from(bank, rows.banks@[of_banks[b] as int], rows.presets@));
        assert(preset_from(preset, rows.presets@[at], rows.plan(), rows.category_links@, rows.mode_links@));
        if bank.presets@.contains(preset.id) {
            let q = choose|q: int|
                0 <= q < rows.presets@.len() && (#[trigger] rows.presets@[q]).bank == bank.id
                    && rows.presets@[q].id == preset.id;
            assert(rows.preset_ids()[q] == rows.preset_ids()[at]);
        }
        if preset.bank == bank.id && bank.id != 0 {
            assert(rows.presets@[at].bank == bank.id);
        }
    }
}

/// The preset of a row is in every index that holds what the rows say.
proof fn lemma_row_is_listed(index: Index, rows: Rows, at: int)
    requires
        index.holds(&rows),
        0 <= at < rows.presets@.len(),
    ensures
        index.has_preset(rows.presets@[at].id),
{
    let ranking = choose|ranking: Seq<usize>|
        {
            &&& #[trigger] ranks_naturally(labels(rows.presets@), ranking)
            &&& index.presets().len() == ranking.len()
            &&& forall|i: int|
                0 <= i < ranking.len() ==> preset_from(
                    #[trigger] index.presets()[i],
                    rows.presets@[ranking[i] as int],
                    rows.plan(),
                    rows.category_links@,
                    rows.mode_links@,
                )
        };
    lemma_ranking_covers(ranking, rows.presets@.len(), at);
    let i = choose|i: int| 0 <= i < ranking.len() && #[trigger] ranking[i] == at;
    assert(preset_from(
        index.presets()[i],
        rows.presets@[ranking[i] as int],
        rows.plan(),
        rows.category_links@,
        rows.mode_links@,
    ));
}

/// In an index that holds what faultless rows say, every id in a set of
/// presets belongs to a preset of the index: no lookup of such an id can
/// miss.
pub proof fn law_preset_sets_resolve(index: Index, rows: Rows)
    requires
        index.holds(&rows),
        rows.fault() is None,
    ensures
        index.knows_its_presets(),
{
    let category_ranking = choose|ranking: Seq<usize>|
        {
            &&& #[trigger] ranks_naturally(labels(rows.categories@), ranking)
            &&& index.categories().len() == ranking.len()
            &&& forall|i: int|
                0 <= i < ranking.len() ==> category_from(
                    #[trigger] index.categories()[i],
                    rows.categories@[ranking[i] as int],
                    rows.category_links@,
                )
        };
    let mode_ranking = choose|ranking: Seq<usize>|
        {
            &&& #[trigger] ranks_naturally(labels(rows.modes@), ranking)
            &&& index.modes().len() == ranking.len()
            &&& forall|i: int|
                0 <= i < ranking.len() ==> mode_from(
                    #[trigger] index.modes()[i],
                    rows.modes@[ranking[i] as int],
                    rows.mode_links@,
                )
        };
    let bank_ranking = choose|ranking: Seq<usize>|
        {
            &&& #[trigger] ranks_naturally(labels(rows.banks@), ranking)
            &&& index.banks().len() == ranking.len()
            &&& forall|i: int|
                0 <= i < ranking.len() ==> bank_from(
                    #[trigger] index.banks()[i],
                    rows.banks@[ranking[i] as int],
                    rows.presets@,
                )
        };
    assert forall|i: int, id: usize|
        0 <= i < index.categories().len() && (#[trigger] index.categories()[i]).presets@.contains(
            id,
        ) implies #[trigger] index.has_preset(id) by {
        let links = rows.category_links@;
        assert(category_from(index.categories()[i], rows.categories@[category_ranking[i] as int], links));
        let l = choose|l: int|
            0 <= l < links.len() && (#[trigger] links[l]).facet == index.categories()[i].id && links[l].preset
                == id;
        assert(rows.preset_ids().contains(links[l].preset));
        let at = choose|at: int| 0 <= at < rows.preset_ids().len() && rows.preset_ids()[at] == id;
        lemma_row_is_listed(index, rows, at);
    }
    assert forall|i: int, id: usize|
        0 <= i < index.modes().len() && (#[trigger] index.modes()[i]).presets@.contains(id) implies #[trigger] index.has_preset(
        id,
    ) by {
        let links = rows.mode_links@;
        assert(mode_from(index.modes()[i], rows.modes@[mode_ranking[i] as int], links));
        let l = choose|l: int|
            0 <= l < links.len() && (#[trigger] links[l]).facet == index.modes()[i].id && links[l].preset == id;
        assert(rows.preset_ids().contains(links[l].preset));
        let at = choose|at: int| 0 <= at < rows.preset_ids().len() && rows.preset_ids()[at] == id;
        lemma_row_is_listed(index, rows, at);
    }
    assert forall|i: int, id: usize|
        0 <= i < index.banks().len() && (#[trigger] index.banks()[i]).presets@.contains(id) implies #[trigger] index.has_preset(
        id,
    ) by {
        assert(bank_from(index.banks()[i], rows.banks@[bank_ranking[i] as int], rows.presets@));
        let at = choose|at: int|
            0 <= at < rows.presets@.len() && (#[trigger] rows.presets@[at]).bank == index.banks()[i].id
                && rows.presets@[at].id == id;
        lemma_row_is_listed(index, rows, at);
    }
    assert forall|s: int, id: usize|
        0 <= s < index.products().records().len() && (#[trigger] index.products().records()[s])->0.presets@.contains(
            id,
        ) implies #[trigger] index.has_preset(id) by {
        let at = choose|at: int|
            0 <= at < rows.presets@.len() && (#[trigger] rows.presets@[at]).id == id
                && rows.plan().slots.contains_key(KeyModel::Id(rows.presets@[at].path_id))
                && rows.plan().slots[KeyModel::Id(rows.presets@[at].path_id)] == s;
        lemma_row_is_listed(index, rows, at);
    }
}

/// In an index that holds what its rows say, a content root is reached by
/// its alias as by its number: a numeric key that is bound belongs to a
/// content root with a row of its own and leads to a record, and where that
/// root has an alias, the alias leads to the same record.
pub proof fn law_alias_and_number_share_one_record(index: Index, rows: Rows, root: usize)
    requires
        index.holds(&rows),
        index.products().binds(KeyModel::Id(root)),
    ensures
        path_of(rows.paths@, root) is Some,
        index.products().lookup(KeyModel::Id(root)) is Some,
        path_of(rows.paths@, root)->0.upid@.len() > 0 ==> index.products().lookup(
            KeyModel::Upid(path_of(rows.paths@, root)->0.upid@),
        ) == index.products().lookup(KeyModel::Id(root)),
{
    lemma_blueprint_aliases_agree(rows.paths@, rows.products@);
    assert(rows.plan().slots.contains_key(KeyModel::Id(root)));
    if path_of(rows.paths@, root)->0.upid@.len() > 0 {
        let alias = KeyModel::Upid(path_of(rows.paths@, root)->0.upid@);
        assert(index.products().binds(alias));
    }
}

/// In an index that holds what its rows say, every product row whose
/// content root has a row of its own leads to a record.
pub proof fn law_product_rows_lead_to_records(index: Index, rows: Rows, at: int)
    requires
        index.holds(&rows),
        0 <= at < rows.products@.len(),
        path_of(rows.paths@, rows.products@[at].path_id) is Some,
    ensures
        index.products().lookup(KeyModel::Id(rows.products@[at].path_id)) is Some,
{
    lemma_blueprint_aliases_agree(rows.paths@, rows.products@);
    assert(rows.plan().slots.contains_key(KeyModel::Id(rows.products@[at].path_id)));
    assert(index.products().binds(KeyModel::Id(rows.products@[at].path_id)));
}

} // verus!
