use preset_browser::index::Index;
use preset_browser::query::{Facet, Selection};
use preset_browser::rows::{BankRow, CategoryRow, LinkRow, ModeRow, PathRow, PresetRow, ProductRow, Rows};

fn text(s: &str) -> String {
    String::from(s)
}

fn preset(id: usize, name: &str, vendor: &str, comment: &str, path_id: usize, bank: usize) -> PresetRow {
    PresetRow {
        id,
        name: text(name),
        vendor: text(vendor),
        comment: text(comment),
        path_id,
        file_name: format!("/content/{}/{}.nki", path_id, id),
        bank,
    }
}

fn link(preset: usize, facet: usize) -> LinkRow {
    LinkRow { preset, facet }
}

fn library() -> Index {
    let rows = Rows {
        vendors: vec![text("Zeta"), text("Acme"), text("Solo")],
        banks: vec![
            BankRow { id: 1, entry1: text("Keys"), entry2: text(""), entry3: text("") },
            BankRow { id: 2, entry1: text("Drums"), entry2: text(""), entry3: text("") },
        ],
        paths: vec![
            PathRow { id: 10, path: text("/content/10"), alias: text("Piano 2"), upid: text("") },
            PathRow { id: 11, path: text("/content/11"), alias: text("piano 10"), upid: text("") },
            PathRow { id: 12, path: text("/content/12"), alias: text("Drum Lab"), upid: text("") },
        ],
        products: vec![
            ProductRow { path_id: 11, vendor: text("Zeta") },
            ProductRow { path_id: 10, vendor: text("Acme") },
            ProductRow { path_id: 12, vendor: text("Acme") },
        ],
        presets: vec![
            preset(1, "Grand", "Acme", "Concert HALL", 10, 1),
            preset(2, "Upright", "Acme", "", 10, 1),
            preset(3, "Felt", "Zeta", "soft", 11, 1),
            preset(4, "Kick", "Acme", "hall of fame", 12, 2),
            preset(5, "Snare", "Solo", "", 12, 0),
        ],
        categories: vec![
            CategoryRow { id: 7, name: text("Piano"), subcategory: text(""), subsubcategory: text("") },
            CategoryRow { id: 8, name: text("Drums"), subcategory: text(""), subsubcategory: text("") },
            CategoryRow { id: 9, name: text("Unused"), subcategory: text(""), subsubcategory: text("") },
        ],
        category_links: vec![link(1, 7), link(2, 7), link(3, 7), link(4, 8), link(5, 8)],
        modes: vec![ModeRow { id: 20, name: text("Acoustic") }, ModeRow { id: 21, name: text("Layered") }],
        mode_links: vec![link(1, 20), link(2, 20), link(3, 21), link(4, 20)],
    };
    Index::build(&rows).unwrap()
}

fn open() -> Selection {
    Selection { vendors: vec![], products: vec![], categories: vec![], modes: vec![], banks: vec![] }
}

fn category_ids(index: &Index, selection: &Selection) -> Vec<usize> {
    index.get_categories(selection).iter().map(|c| c.id).collect()
}

fn bank_ids(index: &Index, selection: &Selection) -> Vec<usize> {
    index.get_banks(selection).iter().map(|b| b.id).collect()
}

fn mode_ids(index: &Index, selection: &Selection) -> Vec<usize> {
    index.get_modes(selection).iter().map(|m| m.id).collect()
}

fn product_ids(index: &Index, selection: &Selection) -> Vec<usize> {
    index.get_products(selection).iter().map(|p| p.id).collect()
}

fn preset_ids(index: &Index, selection: &Selection, query: &str) -> Vec<usize> {
    index.matching_presets(selection, query).iter().map(|p| p.id).collect()
}

#[test]
fn an_open_selection_keeps_everything() {
    let index = library();
    let all = open();
    assert_eq!(category_ids(&index, &all), vec![8, 7, 9]);
    assert_eq!(bank_ids(&index, &all), vec![2, 1]);
    assert_eq!(mode_ids(&index, &all), vec![20, 21]);
    assert_eq!(product_ids(&index, &all), vec![12, 10, 11]);
    assert_eq!(preset_ids(&index, &all, ""), vec![3, 1, 4, 5, 2]);
    assert_eq!(index.get_vendors(&all), vec![text("Acme"), text("Solo"), text("Zeta")]);
}

#[test]
fn categories_go_through_their_presets() {
    let index = library();
    let mut by_vendor = open();
    by_vendor.vendors = vec![text("Zeta")];
    assert_eq!(category_ids(&index, &by_vendor), vec![7]);
    let mut by_product = open();
    by_product.products = vec![12];
    assert_eq!(category_ids(&index, &by_product), vec![8]);
    let mut by_mode = open();
    by_mode.modes = vec![21];
    assert_eq!(category_ids(&index, &by_mode), vec![7]);
    let mut by_bank = open();
    by_bank.banks = vec![2];
    assert_eq!(category_ids(&index, &by_bank), vec![8]);
}

#[test]
fn facets_are_joined_by_and_values_by_or() {
    let index = library();
    let mut both = open();
    both.vendors = vec![text("Zeta"), text("Solo")];
    assert_eq!(category_ids(&index, &both), vec![8, 7]);
    both.modes = vec![21];
    assert_eq!(category_ids(&index, &both), vec![7]);
    both.banks = vec![2];
    assert_eq!(category_ids(&index, &both), Vec::<usize>::new());
}

#[test]
fn each_facet_may_be_met_by_another_preset() {
    let index = library();
    let mut selection = open();
    selection.vendors = vec![text("Solo")];
    selection.modes = vec![20];
    assert_eq!(category_ids(&index, &selection), vec![8]);
    assert_eq!(preset_ids(&index, &selection, ""), Vec::<usize>::new());
}

#[test]
fn a_listing_ignores_its_own_facet() {
    let index = library();
    let mut selection = open();
    selection.categories = vec![9];
    assert_eq!(category_ids(&index, &selection), vec![8, 7, 9]);
    selection.categories = vec![];
    selection.banks = vec![2];
    assert_eq!(bank_ids(&index, &selection), vec![2, 1]);
}

#[test]
fn banks_and_modes_go_through_their_presets() {
    let index = library();
    let mut selection = open();
    selection.categories = vec![8];
    assert_eq!(bank_ids(&index, &selection), vec![2]);
    assert_eq!(mode_ids(&index, &selection), vec![20]);
    selection.categories = vec![7];
    selection.vendors = vec![text("Zeta")];
    assert_eq!(bank_ids(&index, &selection), vec![1]);
    assert_eq!(mode_ids(&index, &selection), vec![21]);
}

#[test]
fn products_compare_their_own_vendor() {
    let index = library();
    let mut selection = open();
    selection.vendors = vec![text("Solo")];
    assert_eq!(product_ids(&index, &selection), Vec::<usize>::new());
    selection.vendors = vec![text("Acme")];
    assert_eq!(product_ids(&index, &selection), vec![12, 10]);
    selection.categories = vec![7];
    assert_eq!(product_ids(&index, &selection), vec![10]);
}

#[test]
fn products_are_sorted_naturally_by_name() {
    let index = library();
    let names: Vec<&str> = index.get_products(&open()).iter().map(|p| p.name.as_str()).collect();
    assert_eq!(names, vec!["Drum Lab", "Piano 2", "piano 10"]);
}

#[test]
fn presets_compare_their_own_values() {
    let index = library();
    let mut selection = open();
    selection.vendors = vec![text("Acme")];
    assert_eq!(preset_ids(&index, &selection, ""), vec![1, 4, 2]);
    selection.banks = vec![1];
    assert_eq!(preset_ids(&index, &selection, ""), vec![1, 2]);
    selection.products = vec![12, 10];
    selection.categories = vec![7, 8];
    selection.modes = vec![20];
    assert_eq!(preset_ids(&index, &selection, ""), vec![1, 2]);
    selection.banks = vec![0];
    selection.vendors = vec![text("Solo")];
    selection.modes = vec![];
    assert_eq!(preset_ids(&index, &selection, ""), vec![5]);
}

#[test]
fn the_query_matches_name_or_comment_without_case() {
    let index = library();
    let all = open();
    assert_eq!(preset_ids(&index, &all, "hall"), vec![1, 4]);
    assert_eq!(preset_ids(&index, &all, "HALL"), vec![1, 4]);
    assert_eq!(preset_ids(&index, &all, "RIGHT"), vec![2]);
    assert_eq!(preset_ids(&index, &all, "felt"), vec![3]);
    assert_eq!(preset_ids(&index, &all, "nothing like it"), Vec::<usize>::new());
    assert_eq!(preset_ids(&index, &all, ""), vec![3, 1, 4, 5, 2]);
}

#[test]
fn vendors_follow_selected_products_and_facets() {
    let index = library();
    let mut selection = open();
    selection.products = vec![11];
    assert_eq!(index.get_vendors(&selection), vec![text("Zeta")]);
    selection.products = vec![12];
    assert_eq!(index.get_vendors(&selection), vec![text("Acme"), text("Solo")]);
    selection.products = vec![10];
    assert_eq!(index.get_vendors(&selection), vec![text("Acme")]);
    selection.products = vec![10, 11];
    assert_eq!(index.get_vendors(&selection), vec![text("Acme"), text("Zeta")]);
    let mut selection = open();
    selection.categories = vec![8];
    assert_eq!(index.get_vendors(&selection), vec![text("Acme"), text("Solo")]);
    selection.modes = vec![20];
    assert_eq!(index.get_vendors(&selection), vec![text("Acme")]);
    selection.banks = vec![1];
    assert_eq!(index.get_vendors(&selection), vec![text("Acme")]);
    selection.categories = vec![9];
    assert_eq!(index.get_vendors(&selection), Vec::<String>::new());
}

#[test]
fn an_unknown_selected_id_is_not_known() {
    let index = library();
    let mut selection = open();
    assert!(index.knows_selection(&selection));
    selection.categories = vec![404];
    assert!(!index.knows_selection(&selection));
    selection.categories = vec![7, 8];
    selection.products = vec![404];
    assert!(!index.knows_selection(&selection));
    selection.products = vec![10, 12];
    selection.modes = vec![20, 404];
    assert!(!index.knows_selection(&selection));
    selection.modes = vec![21];
    selection.banks = vec![0];
    assert!(!index.knows_selection(&selection));
    selection.banks = vec![2, 1];
    assert!(index.knows_selection(&selection));
    selection.vendors = vec![text("Nobody")];
    assert!(index.knows_selection(&selection));
}

#[test]
fn an_unknown_selected_id_selects_nothing_in_the_other_listings() {
    let index = library();
    let mut selection = open();
    selection.categories = vec![404];
    assert_eq!(bank_ids(&index, &selection), Vec::<usize>::new());
    assert_eq!(mode_ids(&index, &selection), Vec::<usize>::new());
    assert_eq!(preset_ids(&index, &selection, ""), Vec::<usize>::new());
    selection.categories = vec![];
    selection.products = vec![404];
    assert_eq!(category_ids(&index, &selection), Vec::<usize>::new());
}

#[test]
fn matching_presets_are_ranked_by_name() {
    let index = library();
    let mut selection = open();
    selection.vendors = vec![text("Acme"), text("Solo")];
    let names: Vec<&str> = index.matching_presets(&selection, "").iter().map(|p| p.name.as_str()).collect();
    assert_eq!(names, vec!["Grand", "Kick", "Snare", "Upright"]);
    let page = index.get_presets(&selection, "", 1, 2);
    let names: Vec<&str> = page.results.iter().map(|p| p.name.as_str()).collect();
    assert_eq!(names, vec!["Kick", "Snare"]);
    assert_eq!((page.total, page.start, page.end), (4, 2, 3));
}

#[test]
fn a_value_selected_twice_counts_once() {
    let index = library();
    let mut once = open();
    once.vendors = vec![text("Zeta")];
    once.modes = vec![21];
    let mut twice = open();
    twice.vendors = vec![text("Zeta"), text("Zeta")];
    twice.modes = vec![21, 21];
    assert_eq!(category_ids(&index, &once), category_ids(&index, &twice));
    assert_eq!(bank_ids(&index, &once), bank_ids(&index, &twice));
    assert_eq!(product_ids(&index, &once), product_ids(&index, &twice));
    assert_eq!(preset_ids(&index, &once, ""), preset_ids(&index, &twice, ""));
}

#[test]
fn selection_tells_what_it_constrains_and_admits() {
    let index = library();
    let mut selection = open();
    assert!(!selection.constrains(Facet::Vendor));
    selection.vendors = vec![text("Zeta")];
    assert!(selection.constrains(Facet::Vendor));
    assert!(!selection.constrains(Facet::Bank));
    let felt = index.preset(3).unwrap();
    let grand = index.preset(1).unwrap();
    assert!(selection.admits(felt, Facet::Vendor));
    assert!(!selection.admits(grand, Facet::Vendor));
    assert!(selection.allows(grand, Facet::Bank));
    assert!(!selection.allows(grand, Facet::Vendor));
}

#[test]
fn pages_of_a_search() {
    let index = library();
    let all = open();
    let page = index.get_presets(&all, "", 1, 2);
    let ids: Vec<usize> = page.results.iter().map(|p| p.id).collect();
    assert_eq!(ids, vec![1, 4]);
    assert_eq!(page.total, 5);
    assert_eq!(page.start, 2);
    assert_eq!(page.end, 3);
    let page = index.get_presets(&all, "hall", 0, 10);
    let ids: Vec<usize> = page.results.iter().map(|p| p.id).collect();
    assert_eq!(ids, vec![1, 4]);
    assert_eq!((page.total, page.start, page.end), (2, 1, 2));
    let page = index.get_presets(&all, "", 5, 10);
    assert!(page.results.is_empty());
    assert_eq!((page.total, page.start, page.end), (5, 6, 5));
}
