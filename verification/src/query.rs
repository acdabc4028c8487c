//! Faceted queries over a built index: which values of one facet remain,
//! given the values selected on the others.

use crate::category::{Bank, Category, Mode};
use crate::index::Index;
use crate::natural::{is_ranking, lemma_ranking_covers, natural_ranking, ranks_naturally, texts};
use crate::paginated_result::{page_begin, page_end, page_of, paginate, PaginatedResult};
use crate::preset::Preset;
use crate::product::{KeyModel, Product, ProductKey};
use crate::text::{contains_text, has_id, has_text, lowercase, occurs_in};
use std::collections::HashSet;
use vstd::prelude::*;
use vstd::std_specs::iter::IteratorSpec;

verus! {

/// A dimension that presets are filtered by.
#[derive(Debug, Clone, Copy, PartialEq, Eq, Structural)]
pub enum Facet {
    Vendor,
    Product,
    Category,
    Mode,
    Bank,
}

/// The values selected on each facet. An empty list leaves its facet open.
pub struct Selection {
    pub vendors: Vec<String>,
    pub products: Vec<usize>,
    pub categories: Vec<usize>,
    pub modes: Vec<usize>,
    pub banks: Vec<usize>,
}

/// What a selection says: the selected values of each facet.
pub struct Chosen {
    pub vendors: Seq<Seq<char>>,
    pub products: Seq<usize>,
    pub categories: Seq<usize>,
    pub modes: Seq<usize>,
    pub banks: Seq<usize>,
}

impl View for Selection {
    type V = Chosen;

    open spec fn view(&self) -> Chosen {
        Chosen {
            vendors: texts(self.vendors@),
            products: self.products@,
            categories: self.categories@,
            modes: self.modes@,
            banks: self.banks@,
        }
    }
}

impl Chosen {
    /// Whether any value is selected on the facet.
    pub open spec fn constrains(&self, facet: Facet) -> bool {
        match facet {
            Facet::Vendor => self.vendors.len() > 0,
            Facet::Product => self.products.len() > 0,
            Facet::Category => self.categories.len() > 0,
            Facet::Mode => self.modes.len() > 0,
            Facet::Bank => self.banks.len() > 0,
        }
    }

    /// Whether the preset's value on the facet is one of the selected. A
    /// preset has one vendor, one product and one bank; of its categories
    /// and modes a single selected one is enough.
    pub open spec fn admits(&self, preset: Preset, facet: Facet) -> bool {
        match facet {
            Facet::Vendor => self.vendors.contains(preset.vendor@),
            Facet::Product => preset.product_id@ is Id && self.products.contains(preset.product_id@->Id_0),
            Facet::Category => exists|k: int|
                0 <= k < self.categories.len() && preset.categories@.contains(#[trigger] self.categories[k]),
            Facet::Mode => exists|k: int|
                0 <= k < self.modes.len() && preset.modes@.contains(#[trigger] self.modes[k]),
            Facet::Bank => self.banks.contains(preset.bank),
        }
    }

    /// The facet is open, or the preset's value on it is selected.
    pub open spec fn allows(&self, preset: Preset, facet: Facet) -> bool {
        !self.constrains(facet) || self.admits(preset, facet)
    }

    /// The selection of one vendor and nothing else.
    pub open spec fn only_vendor(vendor: Seq<char>) -> Chosen {
        Chosen {
            vendors: seq![vendor],
            products: Seq::empty(),
            categories: Seq::empty(),
            modes: Seq::empty(),
            banks: Seq::empty(),
        }
    }

    /// No facet is constrained.
    pub open spec fn open(&self) -> bool {
        forall|facet: Facet| !self.constrains(facet)
    }

    /// The two selections name the same values on every facet, however
    /// often and in whatever order.
    pub open spec fn same_values(&self, other: Chosen) -> bool {
        &&& self.vendors.to_set() == other.vendors.to_set()
        &&& self.products.to_set() == other.products.to_set()
        &&& self.categories.to_set() == other.categories.to_set()
        &&& self.modes.to_set() == other.modes.to_set()
        &&& self.banks.to_set() == other.banks.to_set()
    }
}

/// Whether the preset answers a free-text query: the query is empty, or it
/// stands in the preset's name or comment, upper and lower case taken as
/// one.
pub open spec fn answers(preset: Preset, query: Seq<char>) -> bool {
    ||| query.len() == 0
    ||| occurs_in(lowercase(query), lowercase(preset.name@))
    ||| occurs_in(lowercase(query), lowercase(preset.comment@))
}

impl Selection {
    /// Whether any value is selected on the facet.
    pub fn constrains(&self, facet: Facet) -> (constrained: bool)
        ensures
            constrained == self@.constrains(facet),
    {
        match facet {
            Facet::Vendor => self.vendors.len() > 0,
            Facet::Product => self.products.len() > 0,
            Facet::Category => self.categories.len() > 0,
            Facet::Mode => self.modes.len() > 0,
            Facet::Bank => self.banks.len() > 0,
        }
    }

    /// Whether the preset's value on the facet is one of the selected.
    pub fn admits(&self, preset: &Preset, facet: Facet) -> (admitted: bool)
        ensures
            admitted == self@.admits(*preset, facet),
    {
        broadcast use vstd::std_specs::hash::group_hash_axioms;

        match facet {
            Facet::Vendor => has_text(&self.vendors, &preset.vendor),
            Facet::Product => match &preset.product_id {
                ProductKey::Id(n) => has_id(&self.products, *n),
                ProductKey::Upid(_) => false,
            },
            Facet::Category => {
                let shared = shares(&self.categories, &preset.categories);
                proof {
                    let wanted = self@.categories;
                    if shared {
                        let k = choose|k: int|
                            0 <= k < self.categories@.len() && preset.categories@.contains(
                                #[trigger] self.categories@[k],
                            );
                        assert(preset.categories@.contains(wanted[k]));
                    }
                    if self@.admits(*preset, facet) {
                        let k = choose|k: int|
                            0 <= k < wanted.len() && preset.categories@.contains(#[trigger] wanted[k]);
                        assert(preset.categories@.contains(self.categories@[k]));
                    }
                }
                shared
            },
            Facet::Mode => {
                let shared = shares(&self.modes, &preset.modes);
                proof {
                    let wanted = self@.modes;
                    if shared {
                        let k = choose|k: int|
                            0 <= k < self.modes@.len() && preset.modes@.contains(#[trigger] self.modes@[k]);
                        assert(preset.modes@.contains(wanted[k]));
                    }
                    if self@.admits(*preset, facet) {
                        let k = choose|k: int| 0 <= k < wanted.len() && preset.modes@.contains(#[trigger] wanted[k]);
                        assert(preset.modes@.contains(self.modes@[k]));
                    }
                }
                shared
            },
            Facet::Bank => has_id(&self.banks, preset.bank),
        }
    }

    /// Whether the facet is open, or the preset's value on it is selected.
    pub fn allows(&self, preset: &Preset, facet: Facet) -> (allowed: bool)
        ensures
            allowed == self@.allows(*preset, facet),
    {
        !self.constrains(facet) || self.admits(preset, facet)
    }

    /// The selection of one vendor and nothing else.
    pub fn only_vendor(vendor: &String) -> (only: Selection)
        ensures
            only@ == Chosen::only_vendor(vendor@),
    {
        let mut vendors: Vec<String> = Vec::new();
        vendors.push(vendor.clone());
        let only = Selection {
            vendors,
            products: Vec::new(),
            categories: Vec::new(),
            modes: Vec::new(),
            banks: Vec::new(),
        };
        assert(texts(only.vendors@) =~= seq![vendor@]);
        only
    }
}

/// The facets that a listing looks at.
fn facet_list(first: Facet, second: Facet, third: Facet) -> (list: Vec<Facet>)
    ensures
        list@ == seq![first, second, third],
{
    let mut list: Vec<Facet> = Vec::new();
    list.push(first);
    list.push(second);
    list.push(third);
    assert(list@ =~= seq![first, second, third]);
    list
}

/// The facets that a listing looks at, with the vendor in front.
fn facets_behind_vendor(second: Facet, third: Facet, fourth: Facet) -> (list: Vec<Facet>)
    ensures
        list@ == seq![Facet::Vendor, second, third, fourth],
{
    let mut list: Vec<Facet> = Vec::new();
    list.push(Facet::Vendor);
    list.push(second);
    list.push(third);
    list.push(fourth);
    assert(list@ =~= seq![Facet::Vendor, second, third, fourth]);
    list
}

/// Whether one of `wanted` is in `held`.
fn shares(wanted: &Vec<usize>, held: &HashSet<usize>) -> (shared: bool)
    ensures
        shared == exists|k: int| 0 <= k < wanted@.len() && held@.contains(#[trigger] wanted@[k]),
{
    broadcast use vstd::std_specs::hash::group_hash_axioms;

    let mut k: usize = 0;
    while k < wanted.len()
        invariant
            k <= wanted.len(),
            forall|j: int| 0 <= j < k ==> !held@.contains(#[trigger] wanted@[j]),
        decreases wanted.len() - k,
    {
        if held.contains(&wanted[k]) {
            return true;
        }
        k = k + 1;
    }
    false
}

impl Index {
    /// Some preset among `ids` has a selected value on the facet.
    pub open spec fn bridges(&self, ids: Set<usize>, chosen: Chosen, facet: Facet) -> bool {
        exists|i: int|
            0 <= i < self.presets().len() && ids.contains((#[trigger] self.presets()[i]).id) && chosen.admits(
                self.presets()[i],
                facet,
            )
    }

    /// The facet is open, or some preset among `ids` has a selected value
    /// on it.
    pub open spec fn reaches(&self, ids: Set<usize>, chosen: Chosen, facet: Facet) -> bool {
        !chosen.constrains(facet) || self.bridges(ids, chosen, facet)
    }

    /// Every one of `ids` belongs to a preset of the index.
    pub open spec fn holds_presets(&self, ids: Set<usize>) -> bool {
        forall|id: usize| ids.contains(id) ==> #[trigger] self.has_preset(id)
    }

    /// Whether the facet is open, or some preset among `ids` has a selected
    /// value on it. The ids are those of a set of the index, so each of
    /// them is found.
    fn can_reach(&self, ids: &HashSet<usize>, selection: &Selection, facet: Facet) -> (reached: bool)
        requires
            self.holds_presets(ids@),
        ensures
            reached == self.reaches(ids@, selection@, facet),
    {
        broadcast use vstd::std_specs::hash::group_hash_axioms;

        proof {
            use_type_invariant(self);
        }
        if !selection.constrains(facet) {
            return true;
        }
        let ghost order = ids.iter().remaining().unref();
        for id in it: ids.iter()
            invariant
                it.seq().unref() == order,
                order.to_set() == ids@,
                self.sound(),
                self.holds_presets(ids@),
                forall|k: int, i: int|
                    0 <= k < it.index() && 0 <= i < self.presets().len() && (#[trigger] self.presets()[i]).id
                        == (#[trigger] order[k]) ==> !selection@.admits(self.presets()[i], facet),
        {
            assert(order[it.index()] == *id);
            match self.preset_slots.slot(*id) {
                Some(at) => {
                    if selection.admits(&self.presets[at], facet) {
                        assert(order.to_set().contains(order[it.index()]));
                        return true;
                    }
                    assert(self.preset_slots.ids().no_duplicates()) by {
                        self.preset_slots.lemma_distinct();
                    }
                    assert forall|i: int|
                        0 <= i < self.presets().len() && (#[trigger] self.presets()[i]).id == *id implies i
                        == at by {
                        assert(self.preset_slots.ids()[i] == self.preset_slots.ids()[at as int]);
                    }
                },
                None => {
                    proof {
                        assert(order.to_set().contains(order[it.index()]));
                        assert(self.has_preset(*id));
                        let i = choose|i: int|
                            0 <= i < self.presets().len() && (#[trigger] self.presets()[i]).id == *id;
                        assert(self.preset_slots.ids()[i] == self.presets()[i].id);
                        assert(false);
                    }
                },
            }
        }
        proof {
            if self.bridges(ids@, selection@, facet) {
                let i = choose|i: int|
                    0 <= i < self.presets().len() && ids@.contains((#[trigger] self.presets()[i]).id)
                        && selection@.admits(self.presets()[i], facet);
                assert(order.contains(self.presets()[i].id));
                let k = choose|k: int| 0 <= k < order.len() && order[k] == self.presets()[i].id;
                assert(!selection@.admits(self.presets()[i], facet));
            }
        }
        false
    }

    /// A facet value with the presets `ids` remains under the selection:
    /// on each of the given facets that is constrained, one of its presets
    /// has a selected value.
    pub open spec fn remains(&self, ids: Set<usize>, chosen: Chosen, facets: Seq<Facet>) -> bool {
        forall|f: int| 0 <= f < facets.len() ==> self.reaches(ids, chosen, #[trigger] facets[f])
    }

    /// A category remains where its presets reach the selected vendors,
    /// products, modes and banks.
    pub open spec fn category_passes(&self, category: Category, chosen: Chosen) -> bool {
        self.remains(category.presets@, chosen, seq![Facet::Vendor, Facet::Product, Facet::Mode, Facet::Bank])
    }

    /// A bank remains where its presets reach the selected vendors,
    /// products, modes and categories.
    pub open spec fn bank_passes(&self, bank: Bank, chosen: Chosen) -> bool {
        self.remains(bank.presets@, chosen, seq![Facet::Vendor, Facet::Product, Facet::Mode, Facet::Category])
    }

    /// A mode remains where its presets reach the selected vendors,
    /// products, categories and banks.
    pub open spec fn mode_passes(&self, mode: Mode, chosen: Chosen) -> bool {
        self.remains(mode.presets@, chosen, seq![Facet::Vendor, Facet::Product, Facet::Category, Facet::Bank])
    }

    /// A product remains where its own vendor is selected, or none is, and
    /// its presets reach the selected categories, modes and banks.
    pub open spec fn product_passes(&self, product: Product, chosen: Chosen) -> bool {
        &&& !chosen.constrains(Facet::Vendor) || chosen.vendors.contains(product.vendor@)
        &&& self.remains(product.presets@, chosen, seq![Facet::Category, Facet::Mode, Facet::Bank])
    }

    /// A preset remains where its own value on every constrained facet is
    /// selected, and it answers the query.
    pub open spec fn preset_passes(&self, preset: Preset, chosen: Chosen, query: Seq<char>) -> bool {
        &&& chosen.allows(preset, Facet::Vendor)
        &&& chosen.allows(preset, Facet::Product)
        &&& chosen.allows(preset, Facet::Category)
        &&& chosen.allows(preset, Facet::Mode)
        &&& chosen.allows(preset, Facet::Bank)
        &&& answers(preset, query)
    }

    /// Some preset among `ids` is of the vendor.
    pub open spec fn carries(&self, ids: Set<usize>, vendor: Seq<char>) -> bool {
        self.bridges(ids, Chosen::only_vendor(vendor), Facet::Vendor)
    }

    /// Some preset of the vendor has a selected product.
    pub open spec fn stocks(&self, vendor: Seq<char>, chosen: Chosen) -> bool {
        exists|i: int|
            0 <= i < self.presets().len() && (#[trigger] self.presets()[i]).vendor@ == vendor && chosen.admits(
                self.presets()[i],
                Facet::Product,
            )
    }

    /// A vendor remains where, on each constrained facet, a preset of the
    /// vendor has a selected value: a preset of the vendor has a selected
    /// product, and a selected category, a selected mode and a selected
    /// bank each hold a preset of the vendor.
    pub open spec fn vendor_passes(&self, vendor: Seq<char>, chosen: Chosen) -> bool {
        &&& !chosen.constrains(Facet::Product) || self.stocks(vendor, chosen)
        &&& !chosen.constrains(Facet::Category) || exists|i: int|
            0 <= i < self.categories().len() && chosen.categories.contains((#[trigger] self.categories()[i]).id)
                && self.carries(self.categories()[i].presets@, vendor)
        &&& !chosen.constrains(Facet::Mode) || exists|i: int|
            0 <= i < self.modes().len() && chosen.modes.contains((#[trigger] self.modes()[i]).id)
                && self.carries(self.modes()[i].presets@, vendor)
        &&& !chosen.constrains(Facet::Bank) || exists|i: int|
            0 <= i < self.banks().len() && chosen.banks.contains((#[trigger] self.banks()[i]).id)
                && self.carries(self.banks()[i].presets@, vendor)
    }

    /// Some category of the index has the id.
    pub open spec fn has_category(&self, id: usize) -> bool {
        exists|i: int| 0 <= i < self.categories().len() && (#[trigger] self.categories()[i]).id == id
    }

    /// Some mode of the index has the id.
    pub open spec fn has_mode(&self, id: usize) -> bool {
        exists|i: int| 0 <= i < self.modes().len() && (#[trigger] self.modes()[i]).id == id
    }

    /// Some bank of the index has the id.
    pub open spec fn has_bank(&self, id: usize) -> bool {
        exists|i: int| 0 <= i < self.banks().len() && (#[trigger] self.banks()[i]).id == id
    }

    /// The index holds what the selection names: every selected product id
    /// is bound in the product table, and every selected category, mode and
    /// bank id is the id of a category, a mode or a bank of the index. What
    /// the selection says of vendors is not looked at.
    pub open spec fn knows(&self, chosen: Chosen) -> bool {
        &&& forall|k: int|
            0 <= k < chosen.products.len() ==> self.products().binds(KeyModel::Id(#[trigger] chosen.products[k]))
        &&& forall|k: int| 0 <= k < chosen.categories.len() ==> self.has_category(#[trigger] chosen.categories[k])
        &&& forall|k: int| 0 <= k < chosen.modes.len() ==> self.has_mode(#[trigger] chosen.modes[k])
        &&& forall|k: int| 0 <= k < chosen.banks.len() ==> self.has_bank(#[trigger] chosen.banks[k])
    }

    /// The test that categories are filtered by.
    pub open spec fn category_test(&self, chosen: Chosen) -> spec_fn(Category) -> bool {
        |category: Category| self.category_passes(category, chosen)
    }

    /// The test that banks are filtered by.
    pub open spec fn bank_test(&self, chosen: Chosen) -> spec_fn(Bank) -> bool {
        |bank: Bank| self.bank_passes(bank, chosen)
    }

    /// The test that modes are filtered by.
    pub open spec fn mode_test(&self, chosen: Chosen) -> spec_fn(Mode) -> bool {
        |mode: Mode| self.mode_passes(mode, chosen)
    }

    /// The test that product records, of which the removed ones never pass, are filtered by.
    pub open spec fn product_test(&self, chosen: Chosen) -> spec_fn(Option<Product>) -> bool {
        |record: Option<Product>| record is Some && self.product_passes(record->0, chosen)
    }

    /// The test that presets are filtered by.
    pub open spec fn preset_test(&self, chosen: Chosen, query: Seq<char>) -> spec_fn(Preset) -> bool {
        |preset: Preset| self.preset_passes(preset, chosen, query)
    }

    /// The test that vendors are filtered by.
    pub open spec fn vendor_test(&self, chosen: Chosen) -> spec_fn(String) -> bool {
        |vendor: String| self.vendor_passes(vendor@, chosen)
    }

    /// Whether the presets `ids` reach the selection on each of the facets.
    fn remains_on(&self, ids: &HashSet<usize>, selection: &Selection, facets: &Vec<Facet>) -> (kept: bool)
        requires
            self.holds_presets(ids@),
        ensures
            kept == self.remains(ids@, selection@, facets@),
    {
        let mut f: usize = 0;
        while f < facets.len()
            invariant
                f <= facets.len(),
                self.holds_presets(ids@),
                forall|g: int| 0 <= g < f ==> self.reaches(ids@, selection@, #[trigger] facets@[g]),
            decreases facets.len() - f,
        {
            if !self.can_reach(ids, selection, facets[f]) {
                return false;
            }
            f = f + 1;
        }
        true
    }

    /// The categories that remain under the selection, in display order.
    /// What the selection says of categories is not looked at.
    pub fn get_categories(&self, selection: &Selection) -> (listed: Vec<&Category>)
        ensures
            listed@.unref() == self.categories().filter(self.category_test(selection@)),
    {
        proof {
            use_type_invariant(self);
        }
        let ghost test = self.category_test(selection@);
        let facets = facets_behind_vendor(Facet::Product, Facet::Mode, Facet::Bank);
        let mut listed: Vec<&Category> = Vec::new();
        let mut i: usize = 0;
        assert(self.categories().take(0).filter(test) =~= Seq::<Category>::empty());
        assert(listed@.unref() =~= Seq::<Category>::empty());
        while i < self.categories.len()
            invariant
                i <= self.categories().len(),
                self.sound(),
                test == self.category_test(selection@),
                facets@ == seq![Facet::Vendor, Facet::Product, Facet::Mode, Facet::Bank],
                listed@.unref() == self.categories().take(i as int).filter(test),
            decreases self.categories.len() - i,
        {
            let category = &self.categories[i];
            let ghost before = listed@.unref();
            proof {
                assert(self.categories().take(i + 1) =~= self.categories().take(i as int).push(*category));
                self.categories().take(i as int).lemma_filter_push(*category, test);
                assert(self.categories()[i as int] == *category);
                assert(self.holds_presets(category.presets@));
            }
            if self.remains_on(&category.presets, selection, &facets) {
                listed.push(category);
                assert(listed@.unref() =~= before.push(*category));
            }
            i = i + 1;
        }
        assert(self.categories().take(self.categories().len() as int) =~= self.categories());
        listed
    }

    /// The banks that remain under the selection, in display order. What
    /// the selection says of banks is not looked at.
    pub fn get_banks(&self, selection: &Selection) -> (listed: Vec<&Bank>)
        ensures
            listed@.unref() == self.banks().filter(self.bank_test(selection@)),
    {
        proof {
            use_type_invariant(self);
        }
        let ghost test = self.bank_test(selection@);
        let facets = facets_behind_vendor(Facet::Product, Facet::Mode, Facet::Category);
        let mut listed: Vec<&Bank> = Vec::new();
        let mut i: usize = 0;
        assert(self.banks().take(0).filter(test) =~= Seq::<Bank>::empty());
        assert(listed@.unref() =~= Seq::<Bank>::empty());
        while i < self.banks.len()
            invariant
                i <= self.banks().len(),
                self.sound(),
                test == self.bank_test(selection@),
                facets@ == seq![Facet::Vendor, Facet::Product, Facet::Mode, Facet::Category],
                listed@.unref() == self.banks().take(i as int).filter(test),
            decreases self.banks.len() - i,
        {
            let bank = &self.banks[i];
            let ghost before = listed@.unref();
            proof {
                assert(self.banks().take(i + 1) =~= self.banks().take(i as int).push(*bank));
                self.banks().take(i as int).lemma_filter_push(*bank, test);
                assert(self.banks()[i as int] == *bank);
                assert(self.holds_presets(bank.presets@));
            }
            if self.remains_on(&bank.presets, selection, &facets) {
                listed.push(bank);
                assert(listed@.unref() =~= before.push(*bank));
            }
            i = i + 1;
        }
        assert(self.banks().take(self.banks().len() as int) =~= self.banks());
        listed
    }

    /// The modes that remain under the selection, in display order. What
    /// the selection says of modes is not looked at.
    pub fn get_modes(&self, selection: &Selection) -> (listed: Vec<&Mode>)
        ensures
            listed@.unref() == self.modes().filter(self.mode_test(selection@)),
    {
        proof {
            use_type_invariant(self);
        }
        let ghost test = self.mode_test(selection@);
        let facets = facets_behind_vendor(Facet::Product, Facet::Category, Facet::Bank);
        let mut listed: Vec<&Mode> = Vec::new();
        let mut i: usize = 0;
        assert(self.modes().take(0).filter(test) =~= Seq::<Mode>::empty());
        assert(listed@.unref() =~= Seq::<Mode>::empty());
        while i < self.modes.len()
            invariant
                i <= self.modes().len(),
                self.sound(),
                test == self.mode_test(selection@),
                facets@ == seq![Facet::Vendor, Facet::Product, Facet::Category, Facet::Bank],
                listed@.unref() == self.modes().take(i as int).filter(test),
            decreases self.modes.len() - i,
        {
            let mode = &self.modes[i];
            let ghost before = listed@.unref();
            proof {
                assert(self.modes().take(i + 1) =~= self.modes().take(i as int).push(*mode));
                self.modes().take(i as int).lemma_filter_push(*mode, test);
                assert(self.modes()[i as int] == *mode);
                assert(self.holds_presets(mode.presets@));
            }
            if self.remains_on(&mode.presets, selection, &facets) {
                listed.push(mode);
                assert(listed@.unref() =~= before.push(*mode));
            }
            i = i + 1;
        }
        assert(self.modes().take(self.modes().len() as int) =~= self.modes());
        listed
    }

    /// The names of a list of presets.
    pub open spec fn preset_names(presets: Seq<Preset>) -> Seq<Seq<char>> {
        Seq::new(presets.len(), |i: int| presets[i].name@)
    }

    /// The presets `passing` in the order of `ranking`.
    pub open spec fn ranked_presets(passing: Seq<Preset>, ranking: Seq<usize>) -> Seq<Preset> {
        Seq::new(ranking.len(), |i: int| passing[ranking[i] as int])
    }

    /// The presets that remain under the selection and answer the query,
    /// ranked anew in the natural order of their names; presets of one name
    /// keep the order of the index.
    pub fn matching_presets(&self, selection: &Selection, query: &str) -> (listed: Vec<&Preset>)
        ensures
            exists|ranking: Seq<usize>|
                {
                    &&& #[trigger] ranks_naturally(
                        Self::preset_names(self.presets().filter(self.preset_test(selection@, query@))),
                        ranking,
                    )
                    &&& listed@.unref() == Self::ranked_presets(
                        self.presets().filter(self.preset_test(selection@, query@)),
                        ranking,
                    )
                },
            listed@.len() == self.presets().filter(self.preset_test(selection@, query@)).len(),
            forall|preset: Preset|
                listed@.unref().contains(preset) <==> self.presets().filter(
                    self.preset_test(selection@, query@),
                ).contains(preset),
    {
        let ghost test = self.preset_test(selection@, query@);
        let wanted = query.to_lowercase();
        let mut kept: Vec<&Preset> = Vec::new();
        let mut names: Vec<String> = Vec::new();
        let mut i: usize = 0;
        assert(self.presets().take(0).filter(test) =~= Seq::<Preset>::empty());
        assert(kept@.unref() =~= Seq::<Preset>::empty());
        while i < self.presets.len()
            invariant
                i <= self.presets().len(),
                test == self.preset_test(selection@, query@),
                wanted@ == lowercase(query@),
                kept@.unref() == self.presets().take(i as int).filter(test),
                names@.len() == kept@.len(),
                forall|j: int| 0 <= j < kept@.len() ==> (#[trigger] names@[j])@ == kept@[j].name@,
            decreases self.presets.len() - i,
        {
            let preset = &self.presets[i];
            let ghost before = kept@.unref();
            proof {
                assert(self.presets().take(i + 1) =~= self.presets().take(i as int).push(*preset));
                self.presets().take(i as int).lemma_filter_push(*preset, test);
            }
            let passes = selection.allows(preset, Facet::Vendor) && selection.allows(preset, Facet::Product)
                && selection.allows(preset, Facet::Category) && selection.allows(preset, Facet::Mode)
                && selection.allows(preset, Facet::Bank) && (query.is_empty() || contains_text(
                preset.name.as_str().to_lowercase().as_str(),
                wanted.as_str(),
            ) || contains_text(preset.comment.as_str().to_lowercase().as_str(), wanted.as_str()));
            if passes {
                kept.push(preset);
                names.push(preset.name.clone());
                assert(kept@.unref() =~= before.push(*preset));
            }
            i = i + 1;
        }
        assert(self.presets().take(self.presets().len() as int) =~= self.presets());
        let ghost passing = self.presets().filter(test);
        let ranking = natural_ranking(&names);
        let mut listed: Vec<&Preset> = Vec::new();
        let mut r: usize = 0;
        while r < ranking.len()
            invariant
                r <= ranking.len(),
                ranks_naturally(texts(names@), ranking@),
                kept@.len() == names@.len(),
                listed@.len() == r,
                forall|j: int| 0 <= j < r ==> *(#[trigger] listed@[j]) == *kept@[ranking@[j] as int],
            decreases ranking.len() - r,
        {
            listed.push(kept[ranking[r]]);
            r = r + 1;
        }
        proof {
            assert(Self::preset_names(passing) =~= texts(names@)) by {
                assert forall|j: int| 0 <= j < passing.len() implies Self::preset_names(passing)[j] == texts(
                    names@,
                )[j] by {
                    assert(kept@.unref()[j] == passing[j]);
                }
            }
            assert(listed@.unref() =~= Self::ranked_presets(passing, ranking@)) by {
                assert forall|j: int| 0 <= j < listed@.len() implies listed@.unref()[j] == Self::ranked_presets(
                    passing,
                    ranking@,
                )[j] by {
                    assert(kept@.unref()[ranking@[j] as int] == passing[ranking@[j] as int]);
                }
            }
            assert(ranks_naturally(Self::preset_names(passing), ranking@));
            assert forall|preset: Preset| listed@.unref().contains(preset) <==> passing.contains(preset) by {
                let ranked = Self::ranked_presets(passing, ranking@);
                if ranked.contains(preset) {
                    let j = choose|j: int| 0 <= j < ranked.len() && ranked[j] == preset;
                    assert(passing[ranking@[j] as int] == preset);
                }
                if passing.contains(preset) {
                    let at = choose|at: int| 0 <= at < passing.len() && passing[at] == preset;
                    lemma_ranking_covers(ranking@, passing.len(), at);
                    let j = choose|j: int| 0 <= j < ranking@.len() && #[trigger] ranking@[j] == at;
                    assert(ranked[j] == preset);
                }
            }
        }
        listed
    }

    /// One page of the presets that remain under the selection and answer
    /// the query, in the natural order of their names: the presets
    /// `[offset, offset + limit)` of them, clipped to their number.
    pub fn get_presets(&self, selection: &Selection, query: &str, offset: usize, limit: usize) -> (page:
        PaginatedResult<&Preset>)
        requires
            offset < usize::MAX,
        ensures
            exists|ranking: Seq<usize>|
                {
                    &&& #[trigger] ranks_naturally(
                        Self::preset_names(self.presets().filter(self.preset_test(selection@, query@))),
                        ranking,
                    )
                    &&& page.results@.unref() == page_of(
                        Self::ranked_presets(self.presets().filter(self.preset_test(selection@, query@)), ranking),
                        offset as int,
                        limit as int,
                    )
                },
            page.total == self.presets().filter(self.preset_test(selection@, query@)).len(),
            page.results@.len() == page_end(page.total as int, offset as int, limit as int) - page_begin(
                page.total as int,
                offset as int,
            ),
            page.start == offset + 1,
            page.end == offset + page.results@.len(),
    {
        let ghost passing = self.presets().filter(self.preset_test(selection@, query@));
        let listed = self.matching_presets(selection, query);
        let ghost ranking = choose|ranking: Seq<usize>|
            {
                &&& #[trigger] ranks_naturally(Self::preset_names(passing), ranking)
                &&& listed@.unref() == Self::ranked_presets(passing, ranking)
            };
        let page = paginate(listed, offset, limit);
        assert(page.results@.unref() =~= page_of(listed@.unref(), offset as int, limit as int));
        assert(ranks_naturally(Self::preset_names(passing), ranking));
        page
    }

    /// The products that remain under the selection, in the natural order
    /// of their names; products of one name keep the order of the table.
    /// What the selection says of products is not looked at.
    pub fn get_products(&self, selection: &Selection) -> (listed: Vec<&Product>)
        ensures
            exists|ranking: Seq<usize>|
                self.arranges_products(
                    self.products().records().filter(self.product_test(selection@)),
                    ranking,
                    listed@.unref(),
                ),
    {
        proof {
            use_type_invariant(self);
        }
        let ghost test = self.product_test(selection@);
        let ghost records = self.products().records();
        let facets = facet_list(Facet::Category, Facet::Mode, Facet::Bank);
        let mut kept: Vec<&Product> = Vec::new();
        let mut names: Vec<String> = Vec::new();
        let mut i: usize = 0;
        assert(records.take(0).filter(test) =~= Seq::<Option<Product>>::empty());
        while i < self.products.len()
            invariant
                i <= records.len(),
                records == self.products().records(),
                self.sound(),
                test == self.product_test(selection@),
                facets@ == seq![Facet::Category, Facet::Mode, Facet::Bank],
                kept@.len() == names@.len(),
                kept@.len() == records.take(i as int).filter(test).len(),
                forall|j: int|
                    0 <= j < kept@.len() ==> Some(*#[trigger] kept@[j]) == records.take(i as int).filter(test)[j],
                forall|j: int| 0 <= j < kept@.len() ==> (#[trigger] names@[j])@ == kept@[j].name@,
            decreases records.len() - i,
        {
            proof {
                assert(records.take(i + 1) =~= records.take(i as int).push(records[i as int]));
                records.take(i as int).lemma_filter_push(records[i as int], test);
            }
            match self.products.at(i) {
                Some(product) => {
                    proof {
                        assert(records[i as int]->0 == *product);
                        assert(self.holds_presets(product.presets@));
                    }
                    let by_vendor = !selection.constrains(Facet::Vendor) || has_text(
                        &selection.vendors,
                        &product.vendor,
                    );
                    if by_vendor && self.remains_on(&product.presets, selection, &facets) {
                        kept.push(product);
                        names.push(product.name.clone());
                    }
                },
                None => {},
            }
            i = i + 1;
        }
        assert(records.take(records.len() as int) =~= records);
        let ranking = natural_ranking(&names);
        let mut listed: Vec<&Product> = Vec::new();
        let mut r: usize = 0;
        while r < ranking.len()
            invariant
                r <= ranking.len(),
                ranks_naturally(texts(names@), ranking@),
                kept@.len() == names@.len(),
                listed@.len() == r,
                forall|j: int| 0 <= j < r ==> *(#[trigger] listed@[j]) == *kept@[ranking@[j] as int],
            decreases ranking.len() - r,
        {
            listed.push(kept[ranking[r]]);
            r = r + 1;
        }
        proof {
            let passing = records.filter(test);
            assert(Self::product_names(passing) =~= texts(names@));
            assert(self.arranges_products(passing, ranking@, listed@.unref()));
        }
        listed
    }

    /// The names of a list of product records.
    pub open spec fn product_names(records: Seq<Option<Product>>) -> Seq<Seq<char>> {
        Seq::new(records.len(), |i: int| records[i]->0.name@)
    }

    /// `listed` holds the records `passing` in the order of `ranking`,
    /// which ranks their names naturally.
    pub open spec fn arranges_products(
        &self,
        passing: Seq<Option<Product>>,
        ranking: Seq<usize>,
        listed: Seq<Product>,
    ) -> bool {
        &&& ranks_naturally(Self::product_names(passing), ranking)
        &&& listed.len() == ranking.len()
        &&& forall|i: int| 0 <= i < ranking.len() ==> Some(#[trigger] listed[i]) == passing[ranking[i] as int]
    }

    /// Whether the index holds what the selection names. Where it does
    /// not, the vendor listing has no answer: a selected id that belongs to
    /// nothing is a fault of the caller.
    pub fn knows_selection(&self, selection: &Selection) -> (known: bool)
        ensures
            known == self.knows(selection@),
    {
        proof {
            use_type_invariant(self);
        }
        let mut k: usize = 0;
        while k < selection.products.len()
            invariant
                k <= selection.products.len(),
                self.sound(),
                forall|j: int|
                    0 <= j < k ==> self.products().binds(KeyModel::Id(#[trigger] selection@.products[j])),
            decreases selection.products.len() - k,
        {
            let key = ProductKey::Id(selection.products[k]);
            if !self.products.contains_key(&key) {
                assert(!self.products().binds(KeyModel::Id(selection@.products[k as int])));
                return false;
            }
            k = k + 1;
        }
        let mut k: usize = 0;
        while k < selection.categories.len()
            invariant
                k <= selection.categories.len(),
                self.sound(),
                forall|j: int|
                    0 <= j < selection@.products.len() ==> self.products().binds(
                        KeyModel::Id(#[trigger] selection@.products[j]),
                    ),
                forall|j: int| 0 <= j < k ==> self.has_category(#[trigger] selection@.categories[j]),
            decreases selection.categories.len() - k,
        {
            match self.category_slots.slot(selection.categories[k]) {
                Some(at) => {
                    assert(self.category_slots.ids()[at as int] == self.categories()[at as int].id);
                },
                None => {
                    assert forall|i: int| 0 <= i < self.categories().len() implies (
                    #[trigger] self.categories()[i]).id != selection@.categories[k as int] by {
                        assert(self.category_slots.ids()[i] == self.categories()[i].id);
                    }
                    assert(!self.has_category(selection@.categories[k as int]));
                    return false;
                },
            }
            k = k + 1;
        }
        let mut k: usize = 0;
        while k < selection.modes.len()
            invariant
                k <= selection.modes.len(),
                self.sound(),
                forall|j: int|
                    0 <= j < selection@.products.len() ==> self.products().binds(
                        KeyModel::Id(#[trigger] selection@.products[j]),
                    ),
                forall|j: int|
                    0 <= j < selection@.categories.len() ==> self.has_category(#[trigger] selection@.categories[j]),
                forall|j: int| 0 <= j < k ==> self.has_mode(#[trigger] selection@.modes[j]),
            decreases selection.modes.len() - k,
        {
            match self.mode_slots.slot(selection.modes[k]) {
                Some(at) => {
                    assert(self.mode_slots.ids()[at as int] == self.modes()[at as int].id);
                },
                None => {
                    assert forall|i: int| 0 <= i < self.modes().len() implies (#[trigger] self.modes()[i]).id
                        != selection@.modes[k as int] by {
                        assert(self.mode_slots.ids()[i] == self.modes()[i].id);
                    }
                    assert(!self.has_mode(selection@.modes[k as int]));
                    return false;
                },
            }
            k = k + 1;
        }
        let mut k: usize = 0;
        while k < selection.banks.len()
            invariant
                k <= selection.banks.len(),
                self.sound(),
                forall|j: int|
                    0 <= j < selection@.products.len() ==> self.products().binds(
                        KeyModel::Id(#[trigger] selection@.products[j]),
                    ),
                forall|j: int|
                    0 <= j < selection@.categories.len() ==> self.has_category(#[trigger] selection@.categories[j]),
                forall|j: int| 0 <= j < selection@.modes.len() ==> self.has_mode(#[trigger] selection@.modes[j]),
                forall|j: int| 0 <= j < k ==> self.has_bank(#[trigger] selection@.banks[j]),
            decreases selection.banks.len() - k,
        {
            match self.bank_slots.slot(selection.banks[k]) {
                Some(at) => {
                    assert(self.bank_slots.ids()[at as int] == self.banks()[at as int].id);
                },
                None => {
                    assert forall|i: int| 0 <= i < self.banks().len() implies (#[trigger] self.banks()[i]).id
                        != selection@.banks[k as int] by {
                        assert(self.bank_slots.ids()[i] == self.banks()[i].id);
                    }
                    assert(!self.has_bank(selection@.banks[k as int]));
                    return false;
                },
            }
            k = k + 1;
        }
        true
    }

    /// The vendors that remain under the selection, in display order. What
    /// the selection says of vendors is not looked at. Every selected id
    /// has to belong to something in the index: `knows_selection` tells.
    pub fn get_vendors(&self, selection: &Selection) -> (listed: Vec<String>)
        requires
            self.knows(selection@),
        ensures
            listed@ == self.vendors().filter(self.vendor_test(selection@)),
    {
        proof {
            use_type_invariant(self);
        }
        let ghost test = self.vendor_test(selection@);
        let mut listed: Vec<String> = Vec::new();
        let mut i: usize = 0;
        assert(self.vendors().take(0).filter(test) =~= Seq::<String>::empty());
        while i < self.vendors.len()
            invariant
                i <= self.vendors().len(),
                self.sound(),
                self.knows(selection@),
                test == self.vendor_test(selection@),
                listed@ == self.vendors().take(i as int).filter(test),
            decreases self.vendors.len() - i,
        {
            let vendor = &self.vendors[i];
            proof {
                assert(self.vendors().take(i + 1) =~= self.vendors().take(i as int).push(*vendor));
                self.vendors().take(i as int).lemma_filter_push(*vendor, test);
            }
            let only = Selection::only_vendor(vendor);
            let kept = self.some_preset_stocks(selection, vendor) && self.some_category_carries(selection, &only)
                && self.some_mode_carries(selection, &only) && self.some_bank_carries(selection, &only);
            if kept {
                listed.push(vendor.clone());
            }
            i = i + 1;
        }
        assert(self.vendors().take(self.vendors().len() as int) =~= self.vendors());
        listed
    }

    /// Whether no product is selected, or a preset of the vendor has a
    /// selected product.
    fn some_preset_stocks(&self, selection: &Selection, vendor: &String) -> (found: bool)
        ensures
            found == (!selection@.constrains(Facet::Product) || self.stocks(vendor@, selection@)),
    {
        if selection.products.len() == 0 {
            return true;
        }
        let mut i: usize = 0;
        while i < self.presets.len()
            invariant
                i <= self.presets().len(),
                forall|j: int|
                    0 <= j < i ==> !((#[trigger] self.presets()[j]).vendor@ == vendor@ && selection@.admits(
                        self.presets()[j],
                        Facet::Product,
                    )),
            decreases self.presets.len() - i,
        {
            let preset = &self.presets[i];
            if preset.vendor == *vendor && selection.admits(preset, Facet::Product) {
                return true;
            }
            i = i + 1;
        }
        false
    }

    /// Whether no category is selected, or a selected one has a preset of the
    /// one vendor that `only` names.
    fn some_category_carries(&self, selection: &Selection, only: &Selection) -> (found: bool)
        requires
            self.knows(selection@),
            only@.constrains(Facet::Vendor),
        ensures
            found == (!selection@.constrains(Facet::Category) || exists|i: int|
                0 <= i < self.categories().len() && selection@.categories.contains((#[trigger] self.categories()[i]).id)
                    && self.bridges(self.categories()[i].presets@, only@, Facet::Vendor)),
    {
        proof {
            use_type_invariant(self);
        }
        if selection.categories.len() == 0 {
            return true;
        }
        let mut k: usize = 0;
        while k < selection.categories.len()
            invariant
                k <= selection.categories.len(),
                self.sound(),
                self.knows(selection@),
                only@.constrains(Facet::Vendor),
                forall|j: int, i: int|
                    0 <= j < k && 0 <= i < self.categories().len() && (#[trigger] self.categories()[i]).id == (
                    #[trigger] selection@.categories[j]) ==> !self.bridges(
                        self.categories()[i].presets@,
                        only@,
                        Facet::Vendor,
                    ),
            decreases selection.categories.len() - k,
        {
            let id = selection.categories[k];
            proof {
                self.category_slots.lemma_distinct();
            }
            match self.category_slots.slot(id) {
                Some(at) => {
                    proof {
                        assert(self.categories()[at as int] == self.categories@[at as int]);
                        assert(self.holds_presets(self.categories()[at as int].presets@));
                    }
                    if self.can_reach(&self.categories[at].presets, only, Facet::Vendor) {
                        assert(selection@.categories.contains(self.categories()[at as int].id));
                        return true;
                    }
                    assert forall|i: int|
                        0 <= i < self.categories().len() && (#[trigger] self.categories()[i]).id == id implies i
                        == at by {
                        assert(self.category_slots.ids()[i] == self.category_slots.ids()[at as int]);
                    }
                },
                None => {
                    proof {
                        assert(self.has_category(selection@.categories[k as int]));
                        let i = choose|i: int|
                            0 <= i < self.categories().len() && (#[trigger] self.categories()[i]).id == id;
                        assert(self.category_slots.ids()[i] == self.categories()[i].id);
                        assert(false);
                    }
                },
            }
            k = k + 1;
        }
        proof {
            assert forall|i: int|
                0 <= i < self.categories().len() && selection@.categories.contains((#[trigger] self.categories()[i]).id)
                implies !self.bridges(self.categories()[i].presets@, only@, Facet::Vendor) by {
                let j = choose|j: int|
                    0 <= j < selection@.categories.len() && selection@.categories[j] == self.categories()[i].id;
            }
        }
        false
    }

    /// Whether no mode is selected, or a selected one has a preset of the
    /// one vendor that `only` names.
    fn some_mode_carries(&self, selection: &Selection, only: &Selection) -> (found: bool)
        requires
            self.knows(selection@),
            only@.constrains(Facet::Vendor),
        ensures
            found == (!selection@.constrains(Facet::Mode) || exists|i: int|
                0 <= i < self.modes().len() && selection@.modes.contains((#[trigger] self.modes()[i]).id)
                    && self.bridges(self.modes()[i].presets@, only@, Facet::Vendor)),
    {
        proof {
            use_type_invariant(self);
        }
        if selection.modes.len() == 0 {
            return true;
        }
        let mut k: usize = 0;
        while k < selection.modes.len()
            invariant
                k <= selection.modes.len(),
                self.sound(),
                self.knows(selection@),
                only@.constrains(Facet::Vendor),
                forall|j: int, i: int|
                    0 <= j < k && 0 <= i < self.modes().len() && (#[trigger] self.modes()[i]).id == (
                    #[trigger] selection@.modes[j]) ==> !self.bridges(
                        self.modes()[i].presets@,
                        only@,
                        Facet::Vendor,
                    ),
            decreases selection.modes.len() - k,
        {
            let id = selection.modes[k];
            proof {
                self.mode_slots.lemma_distinct();
            }
            match self.mode_slots.slot(id) {
                Some(at) => {
                    proof {
                        assert(self.modes()[at as int] == self.modes@[at as int]);
                        assert(self.holds_presets(self.modes()[at as int].presets@));
                    }
                    if self.can_reach(&self.modes[at].presets, only, Facet::Vendor) {
                        assert(selection@.modes.contains(self.modes()[at as int].id));
                        return true;
                    }
                    assert forall|i: int|
                        0 <= i < self.modes().len() && (#[trigger] self.modes()[i]).id == id implies i
                        == at by {
                        assert(self.mode_slots.ids()[i] == self.mode_slots.ids()[at as int]);
                    }
                },
                None => {
                    proof {
                        assert(self.has_mode(selection@.modes[k as int]));
                        let i = choose|i: int|
                            0 <= i < self.modes().len() && (#[trigger] self.modes()[i]).id == id;
                        assert(self.mode_slots.ids()[i] == self.modes()[i].id);
                        assert(false);
                    }
                },
            }
            k = k + 1;
        }
        proof {
            assert forall|i: int|
                0 <= i < self.modes().len() && selection@.modes.contains((#[trigger] self.modes()[i]).id)
                implies !self.bridges(self.modes()[i].presets@, only@, Facet::Vendor) by {
                let j = choose|j: int|
                    0 <= j < selection@.modes.len() && selection@.modes[j] == self.modes()[i].id;
            }
        }
        false
    }

    /// Whether no bank is selected, or a selected one has a preset of the
    /// one vendor that `only` names.
    fn some_bank_carries(&self, selection: &Selection, only: &Selection) -> (found: bool)
        requires
            self.knows(selection@),
            only@.constrains(Facet::Vendor),
        ensures
            found == (!selection@.constrains(Facet::Bank) || exists|i: int|
                0 <= i < self.banks().len() && selection@.banks.contains((#[trigger] self.banks()[i]).id)
                    && self.bridges(self.banks()[i].presets@, only@, Facet::Vendor)),
    {
        proof {
            use_type_invariant(self);
        }
        if selection.banks.len() == 0 {
            return true;
        }
        let mut k: usize = 0;
        while k < selection.banks.len()
            invariant
                k <= selection.banks.len(),
                self.sound(),
                self.knows(selection@),
                only@.constrains(Facet::Vendor),
                forall|j: int, i: int|
                    0 <= j < k && 0 <= i < self.banks().len() && (#[trigger] self.banks()[i]).id == (
                    #[trigger] selection@.banks[j]) ==> !self.bridges(
                        self.banks()[i].presets@,
                        only@,
                        Facet::Vendor,
                    ),
            decreases selection.banks.len() - k,
        {
            let id = selection.banks[k];
            proof {
                self.bank_slots.lemma_distinct();
            }
            match self.bank_slots.slot(id) {
                Some(at) => {
                    proof {
                        assert(self.banks()[at as int] == self.banks@[at as int]);
                        assert(self.holds_presets(self.banks()[at as int].presets@));
                    }
                    if self.can_reach(&self.banks[at].presets, only, Facet::Vendor) {
                        assert(selection@.banks.contains(self.banks()[at as int].id));
                        return true;
                    }
                    assert forall|i: int|
                        0 <= i < self.banks().len() && (#[trigger] self.banks()[i]).id == id implies i
                        == at by {
                        assert(self.bank_slots.ids()[i] == self.bank_slots.ids()[at as int]);
                    }
                },
                None => {
                    proof {
                        assert(self.has_bank(selection@.banks[k as int]));
                        let i = choose|i: int|
                            0 <= i < self.banks().len() && (#[trigger] self.banks()[i]).id == id;
                        assert(self.bank_slots.ids()[i] == self.banks()[i].id);
                        assert(false);
                    }
                },
            }
            k = k + 1;
        }
        proof {
            assert forall|i: int|
                0 <= i < self.banks().len() && selection@.banks.contains((#[trigger] self.banks()[i]).id)
                implies !self.bridges(self.banks()[i].presets@, only@, Facet::Vendor) by {
                let j = choose|j: int|
                    0 <= j < selection@.banks.len() && selection@.banks[j] == self.banks()[i].id;
            }
        }
        false
    }
}

/// Filtering a list a second time by the same test changes nothing.
pub proof fn lemma_filter_twice<T>(list: Seq<T>, test: spec_fn(T) -> bool)
    ensures
        list.filter(test).filter(test) == list.filter(test),
    decreases list.len(),
{
    if list.len() == 0 {
        assert(list.filter(test) =~= Seq::<T>::empty()) by {
            list.lemma_filter_len(test);
        }
        assert(Seq::<T>::empty().filter(test) =~= Seq::<T>::empty()) by {
            Seq::<T>::empty().lemma_filter_len(test);
        }
    } else {
        let front = list.drop_last();
        let last = list.last();
        assert(list =~= front.push(last));
        lemma_filter_twice(front, test);
        front.lemma_filter_push(last, test);
        if test(last) {
            front.filter(test).lemma_filter_push(last, test);
        }
    }
}

/// Filtering by a test that every item passes changes nothing.
pub proof fn lemma_filter_all<T>(list: Seq<T>, test: spec_fn(T) -> bool)
    requires
        forall|i: int| 0 <= i < list.len() ==> test(#[trigger] list[i]),
    ensures
        list.filter(test) == list,
    decreases list.len(),
{
    if list.len() == 0 {
        assert(list.filter(test) =~= list) by {
            list.lemma_filter_len(test);
        }
    } else {
        let front = list.drop_last();
        let last = list.last();
        assert(list =~= front.push(last));
        assert forall|i: int| 0 <= i < front.len() implies test(#[trigger] front[i]) by {
            assert(front[i] == list[i]);
        }
        lemma_filter_all(front, test);
        front.lemma_filter_push(last, test);
        assert(test(list[list.len() - 1]));
    }
}

/// Two tests that agree on every item of a list filter it alike.
pub proof fn lemma_filter_alike<T>(list: Seq<T>, first: spec_fn(T) -> bool, second: spec_fn(T) -> bool)
    requires
        forall|i: int| 0 <= i < list.len() ==> first(#[trigger] list[i]) == second(list[i]),
    ensures
        list.filter(first) == list.filter(second),
    decreases list.len(),
{
    if list.len() == 0 {
        assert(list.filter(first) =~= list.filter(second)) by {
            list.lemma_filter_len(first);
            list.lemma_filter_len(second);
        }
    } else {
        let front = list.drop_last();
        let last = list.last();
        assert(list =~= front.push(last));
        assert forall|i: int| 0 <= i < front.len() implies first(#[trigger] front[i]) == second(front[i]) by {
            assert(front[i] == list[i]);
        }
        lemma_filter_alike(front, first, second);
        front.lemma_filter_push(last, first);
        front.lemma_filter_push(last, second);
        assert(first(list[list.len() - 1]) == second(list[list.len() - 1]));
    }
}

/// Applying a selection to what it has already filtered changes nothing:
/// of every facet, the values that remain under a selection all remain
/// when the same selection is applied to them again.
pub proof fn law_selection_applies_once(index: Index, chosen: Chosen, query: Seq<char>)
    ensures
        index.categories().filter(index.category_test(chosen)).filter(index.category_test(chosen))
            == index.categories().filter(index.category_test(chosen)),
        index.banks().filter(index.bank_test(chosen)).filter(index.bank_test(chosen)) == index.banks().filter(
            index.bank_test(chosen),
        ),
        index.modes().filter(index.mode_test(chosen)).filter(index.mode_test(chosen)) == index.modes().filter(
            index.mode_test(chosen),
        ),
        index.vendors().filter(index.vendor_test(chosen)).filter(index.vendor_test(chosen))
            == index.vendors().filter(index.vendor_test(chosen)),
        index.products().records().filter(index.product_test(chosen)).filter(index.product_test(chosen))
            == index.products().records().filter(index.product_test(chosen)),
        index.presets().filter(index.preset_test(chosen, query)).filter(index.preset_test(chosen, query))
            == index.presets().filter(index.preset_test(chosen, query)),
{
    lemma_filter_twice(index.categories(), index.category_test(chosen));
    lemma_filter_twice(index.banks(), index.bank_test(chosen));
    lemma_filter_twice(index.modes(), index.mode_test(chosen));
    lemma_filter_twice(index.vendors(), index.vendor_test(chosen));
    lemma_filter_twice(index.products().records(), index.product_test(chosen));
    lemma_filter_twice(index.presets(), index.preset_test(chosen, query));
}

/// A facet on which nothing is selected constrains nothing: under a
/// selection without any value, and with an empty query, every category,
/// bank, mode, vendor and preset of the index remains, and every product
/// that was not removed.
pub proof fn law_open_selection_keeps_all(index: Index, chosen: Chosen)
    requires
        chosen.open(),
    ensures
        index.categories().filter(index.category_test(chosen)) == index.categories(),
        index.banks().filter(index.bank_test(chosen)) == index.banks(),
        index.modes().filter(index.mode_test(chosen)) == index.modes(),
        index.vendors().filter(index.vendor_test(chosen)) == index.vendors(),
        index.products().records().filter(index.product_test(chosen)) == index.products().records().filter(
            |record: Option<Product>| record is Some,
        ),
        index.presets().filter(index.preset_test(chosen, Seq::empty())) == index.presets(),
{
    assert(!chosen.constrains(Facet::Vendor));
    assert(!chosen.constrains(Facet::Product));
    assert(!chosen.constrains(Facet::Category));
    assert(!chosen.constrains(Facet::Mode));
    assert(!chosen.constrains(Facet::Bank));
    assert forall|ids: Set<usize>, facet: Facet| #[trigger] index.reaches(ids, chosen, facet) by {
        assert(!chosen.constrains(facet));
    }
    lemma_filter_all(index.categories(), index.category_test(chosen));
    lemma_filter_all(index.banks(), index.bank_test(chosen));
    lemma_filter_all(index.modes(), index.mode_test(chosen));
    lemma_filter_all(index.vendors(), index.vendor_test(chosen));
    lemma_filter_alike(
        index.products().records(),
        index.product_test(chosen),
        |record: Option<Product>| record is Some,
    );
    lemma_filter_all(index.presets(), index.preset_test(chosen, Seq::empty()));
}

/// Lists that name the same values are both empty or both not.
proof fn lemma_same_values_same_size<T>(first: Seq<T>, second: Seq<T>)
    requires
        first.to_set() == second.to_set(),
    ensures
        first.len() > 0 <==> second.len() > 0,
        forall|value: T| first.contains(value) <==> second.contains(value),
{
    assert forall|value: T| first.contains(value) <==> second.contains(value) by {
        assert(first.contains(value) <==> first.to_set().contains(value));
        assert(second.contains(value) <==> second.to_set().contains(value));
    }
    if first.len() > 0 {
        assert(first.contains(first[0]));
        assert(second.contains(first[0]));
    }
    if second.len() > 0 {
        assert(second.contains(second[0]));
        assert(first.contains(second[0]));
    }
}

/// Selections that name the same values constrain the same facets and
/// admit the same presets.
proof fn lemma_same_values_admit_alike(first: Chosen, second: Chosen, preset: Preset, facet: Facet)
    requires
        first.same_values(second),
    ensures
        first.constrains(facet) == second.constrains(facet),
        first.admits(preset, facet) == second.admits(preset, facet),
{
    lemma_same_values_same_size(first.vendors, second.vendors);
    lemma_same_values_same_size(first.products, second.products);
    lemma_same_values_same_size(first.categories, second.categories);
    lemma_same_values_same_size(first.modes, second.modes);
    lemma_same_values_same_size(first.banks, second.banks);
    match facet {
        Facet::Category => {
            if first.admits(preset, facet) {
                let k = choose|k: int|
                    0 <= k < first.categories.len() && preset.categories@.contains(#[trigger] first.categories[k]);
                assert(first.categories.contains(first.categories[k]));
                let j = choose|j: int| 0 <= j < second.categories.len() && second.categories[j] == first.categories[k];
                assert(preset.categories@.contains(second.categories[j]));
            }
            if second.admits(preset, facet) {
                let k = choose|k: int|
                    0 <= k < second.categories.len() && preset.categories@.contains(
                        #[trigger] second.categories[k],
                    );
                assert(second.categories.contains(second.categories[k]));
                let j = choose|j: int| 0 <= j < first.categories.len() && first.categories[j] == second.categories[k];
                assert(preset.categories@.contains(first.categories[j]));
            }
        },
        Facet::Mode => {
            if first.admits(preset, facet) {
                let k = choose|k: int|
                    0 <= k < first.modes.len() && preset.modes@.contains(#[trigger] first.modes[k]);
                assert(first.modes.contains(first.modes[k]));
                let j = choose|j: int| 0 <= j < second.modes.len() && second.modes[j] == first.modes[k];
                assert(preset.modes@.contains(second.modes[j]));
            }
            if second.admits(preset, facet) {
                let k = choose|k: int|
                    0 <= k < second.modes.len() && preset.modes@.contains(#[trigger] second.modes[k]);
                assert(second.modes.contains(second.modes[k]));
                let j = choose|j: int| 0 <= j < first.modes.len() && first.modes[j] == second.modes[k];
                assert(preset.modes@.contains(first.modes[j]));
            }
        },
        _ => {},
    }
}

/// A set of presets reaches the same facets under selections that name
/// the same values.
proof fn lemma_same_values_reach_alike(index: Index, first: Chosen, second: Chosen, ids: Set<usize>, facet: Facet)
    requires
        first.same_values(second),
    ensures
        index.reaches(ids, first, facet) == index.reaches(ids, second, facet),
        index.remains(ids, first, seq![Facet::Vendor, Facet::Product, Facet::Mode, Facet::Bank]) == index.remains(
            ids,
            second,
            seq![Facet::Vendor, Facet::Product, Facet::Mode, Facet::Bank],
        ),
        index.remains(ids, first, seq![Facet::Vendor, Facet::Product, Facet::Mode, Facet::Category])
            == index.remains(ids, second, seq![Facet::Vendor, Facet::Product, Facet::Mode, Facet::Category]),
        index.remains(ids, first, seq![Facet::Vendor, Facet::Product, Facet::Category, Facet::Bank])
            == index.remains(ids, second, seq![Facet::Vendor, Facet::Product, Facet::Category, Facet::Bank]),
        index.remains(ids, first, seq![Facet::Category, Facet::Mode, Facet::Bank]) == index.remains(
            ids,
            second,
            seq![Facet::Category, Facet::Mode, Facet::Bank],
        ),
{
    assert forall|any: Facet| index.reaches(ids, first, any) == index.reaches(ids, second, any) by {
        assert forall|i: int| 0 <= i < index.presets().len() implies first.constrains(any) == second.constrains(
            any,
        ) && first.admits(#[trigger] index.presets()[i], any) == second.admits(index.presets()[i], any) by {
            lemma_same_values_admit_alike(first, second, index.presets()[i], any);
        }
        lemma_same_values_same_size(first.vendors, second.vendors);
        lemma_same_values_same_size(first.products, second.products);
        lemma_same_values_same_size(first.categories, second.categories);
        lemma_same_values_same_size(first.modes, second.modes);
        lemma_same_values_same_size(first.banks, second.banks);
        if index.bridges(ids, first, any) {
            let i = choose|i: int|
                0 <= i < index.presets().len() && ids.contains((#[trigger] index.presets()[i]).id) && first.admits(
                    index.presets()[i],
                    any,
                );
            assert(second.admits(index.presets()[i], any));
        }
        if index.bridges(ids, second, any) {
            let i = choose|i: int|
                0 <= i < index.presets().len() && ids.contains((#[trigger] index.presets()[i]).id) && second.admits(
                    index.presets()[i],
                    any,
                );
            assert(first.admits(index.presets()[i], any));
        }
    }
}

/// A value that is selected twice counts once: selections that name the
/// same values on every facet leave the same categories, banks, modes,
/// vendors, products and presets.
pub proof fn law_values_count_once(index: Index, first: Chosen, second: Chosen, query: Seq<char>)
    requires
        first.same_values(second),
    ensures
        index.categories().filter(index.category_test(first)) == index.categories().filter(
            index.category_test(second),
        ),
        index.banks().filter(index.bank_test(first)) == index.banks().filter(index.bank_test(second)),
        index.modes().filter(index.mode_test(first)) == index.modes().filter(index.mode_test(second)),
        index.vendors().filter(index.vendor_test(first)) == index.vendors().filter(index.vendor_test(second)),
        index.products().records().filter(index.product_test(first)) == index.products().records().filter(
            index.product_test(second),
        ),
        index.presets().filter(index.preset_test(first, query)) == index.presets().filter(
            index.preset_test(second, query),
        ),
{
    lemma_same_values_same_size(first.vendors, second.vendors);
    lemma_same_values_same_size(first.products, second.products);
    lemma_same_values_same_size(first.categories, second.categories);
    lemma_same_values_same_size(first.modes, second.modes);
    lemma_same_values_same_size(first.banks, second.banks);
    assert forall|i: int| 0 <= i < index.categories().len() implies index.category_test(first)(
        #[trigger] index.categories()[i],
    ) == index.category_test(second)(index.categories()[i]) by {
        lemma_same_values_reach_alike(index, first, second, index.categories()[i].presets@, Facet::Vendor);
    }
    lemma_filter_alike(index.categories(), index.category_test(first), index.category_test(second));
    assert forall|i: int| 0 <= i < index.banks().len() implies index.bank_test(first)(
        #[trigger] index.banks()[i],
    ) == index.bank_test(second)(index.banks()[i]) by {
        lemma_same_values_reach_alike(index, first, second, index.banks()[i].presets@, Facet::Vendor);
    }
    lemma_filter_alike(index.banks(), index.bank_test(first), index.bank_test(second));
    assert forall|i: int| 0 <= i < index.modes().len() implies index.mode_test(first)(
        #[trigger] index.modes()[i],
    ) == index.mode_test(second)(index.modes()[i]) by {
        lemma_same_values_reach_alike(index, first, second, index.modes()[i].presets@, Facet::Vendor);
    }
    lemma_filter_alike(index.modes(), index.mode_test(first), index.mode_test(second));
    let records = index.products().records();
    assert forall|i: int| 0 <= i < records.len() implies index.product_test(first)(#[trigger] records[i])
        == index.product_test(second)(records[i]) by {
        if records[i] is Some {
            lemma_same_values_reach_alike(index, first, second, records[i]->0.presets@, Facet::Vendor);
        }
    }
    lemma_filter_alike(records, index.product_test(first), index.product_test(second));
    assert forall|i: int| 0 <= i < index.presets().len() implies index.preset_test(first, query)(
        #[trigger] index.presets()[i],
    ) == index.preset_test(second, query)(index.presets()[i]) by {
        let preset = index.presets()[i];
        lemma_same_values_admit_alike(first, second, preset, Facet::Vendor);
        lemma_same_values_admit_alike(first, second, preset, Facet::Product);
        lemma_same_values_admit_alike(first, second, preset, Facet::Category);
        lemma_same_values_admit_alike(first, second, preset, Facet::Mode);
        lemma_same_values_admit_alike(first, second, preset, Facet::Bank);
    }
    lemma_filter_alike(index.presets(), index.preset_test(first, query), index.preset_test(second, query));
    assert forall|i: int| 0 <= i < index.vendors().len() implies index.vendor_test(first)(
        #[trigger] index.vendors()[i],
    ) == index.vendor_test(second)(index.vendors()[i]) by {
        let vendor = index.vendors()[i]@;
        if index.stocks(vendor, first) {
            let p = choose|p: int|
                0 <= p < index.presets().len() && (#[trigger] index.presets()[p]).vendor@ == vendor && first.admits(
                    index.presets()[p],
                    Facet::Product,
                );
            lemma_same_values_admit_alike(first, second, index.presets()[p], Facet::Product);
        }
        if index.stocks(vendor, second) {
            let p = choose|p: int|
                0 <= p < index.presets().len() && (#[trigger] index.presets()[p]).vendor@ == vendor && second.admits(
                    index.presets()[p],
                    Facet::Product,
                );
            lemma_same_values_admit_alike(first, second, index.presets()[p], Facet::Product);
        }
    }
    lemma_filter_alike(index.vendors(), index.vendor_test(first), index.vendor_test(second));
}

/// Applying a search to its own result changes nothing: of the presets
/// that remain under a selection and a query, taken in any ranking, all
/// remain under the same selection and query, in the same places.
pub proof fn law_search_keeps_its_own_result(index: Index, chosen: Chosen, query: Seq<char>, ranking: Seq<usize>)
    requires
        is_ranking(ranking, index.presets().filter(index.preset_test(chosen, query)).len()),
    ensures
        Index::ranked_presets(index.presets().filter(index.preset_test(chosen, query)), ranking).filter(
            index.preset_test(chosen, query),
        ) == Index::ranked_presets(index.presets().filter(index.preset_test(chosen, query)), ranking),
        Index::ranked_presets(index.presets().filter(index.preset_test(chosen, query)), ranking).len()
            == index.presets().filter(index.preset_test(chosen, query)).len(),
{
    let test = index.preset_test(chosen, query);
    let passing = index.presets().filter(test);
    let ranked = Index::ranked_presets(passing, ranking);
    assert forall|i: int| 0 <= i < ranked.len() implies test(#[trigger] ranked[i]) by {
        index.presets().lemma_filter_pred(test, ranking[i] as int);
    }
    lemma_filter_all(ranked, test);
}

/// A facet on which nothing is selected is no constraint: it allows every
/// preset, and every set of presets reaches it.
pub proof fn law_open_facet_constrains_nothing(
    index: Index,
    chosen: Chosen,
    facet: Facet,
    preset: Preset,
    ids: Set<usize>,
)
    requires
        !chosen.constrains(facet),
    ensures
        chosen.allows(preset, facet),
        index.reaches(ids, chosen, facet),
{
}

} // verus!
