use preset_browser::index::Index;
use preset_browser::ingest::IngestError;
use preset_browser::product::ProductKey;
use preset_browser::rows::{BankRow, CategoryRow, LinkRow, ModeRow, PathRow, PresetRow, ProductRow, Rows};

fn text(s: &str) -> String {
    String::from(s)
}

fn bank(id: usize, entry1: &str, entry2: &str, entry3: &str) -> BankRow {
    BankRow { id, entry1: text(entry1), entry2: text(entry2), entry3: text(entry3) }
}

fn path(id: usize, dir: &str, name: &str, upid: &str) -> PathRow {
    PathRow { id, path: text(dir), alias: text(name), upid: text(upid) }
}

fn product(path_id: usize, vendor: &str) -> ProductRow {
    ProductRow { path_id, vendor: text(vendor) }
}

fn preset(id: usize, name: &str, vendor: &str, comment: &str, path_id: usize, file: &str, bank: usize) -> PresetRow {
    PresetRow {
        id,
        name: text(name),
        vendor: text(vendor),
        comment: text(comment),
        path_id,
        file_name: text(file),
        bank,
    }
}

fn category(id: usize, name: &str, sub: &str, subsub: &str) -> CategoryRow {
    CategoryRow { id, name: text(name), subcategory: text(sub), subsubcategory: text(subsub) }
}

fn mode(id: usize, name: &str) -> ModeRow {
    ModeRow { id, name: text(name) }
}

fn link(preset: usize, facet: usize) -> LinkRow {
    LinkRow { preset, facet }
}

fn library() -> Rows {
    Rows {
        vendors: vec![text("Zeta Audio"), text("acme"), text("Zeta Audio"), text("Brass 10"), text("Brass 9")],
        banks: vec![bank(1, "Factory", "Pads", ""), bank(2, "Factory", "Bass", "Deep"), bank(3, "artist", "", "")],
        paths: vec![
            path(10, "/content/massive", "Massive", "upid-massive"),
            path(11, "/content/kontakt", "Kontakt", ""),
            path(12, "/content/massive-extra", "Massive Extra", "upid-massive"),
        ],
        products: vec![product(10, "acme"), product(11, "Zeta Audio"), product(10, "Zeta Audio"), product(12, "acme"), product(99, "acme")],
        presets: vec![
            preset(100, "Track 10", "acme", "bright lead", 10, "/content/massive/a.nmsv", 1),
            preset(101, "track 2", "acme", "", 10, "/content/massive/b.nmsv", 2),
            preset(102, "Warm Pad", "Zeta Audio", "Slow ATTACK", 11, "/content/kontakt/pad.wav", 0),
            preset(103, "Extra", "acme", "", 12, "/content/massive-extra/x.nmsv", 1),
        ],
        categories: vec![category(7, "Synth", "Lead", ""), category(8, "Pad", "", ""), category(9, "Bass", "Sub", "808")],
        category_links: vec![link(100, 7), link(101, 9), link(102, 8), link(103, 7), link(100, 7)],
        modes: vec![mode(20, "Poly"), mode(21, "mono")],
        mode_links: vec![link(100, 21), link(102, 20), link(103, 20)],
    }
}

fn ids_of(set: &std::collections::HashSet<usize>) -> Vec<usize> {
    let mut ids: Vec<usize> = set.iter().copied().collect();
    ids.sort();
    ids
}

#[test]
fn vendors_are_distinct_and_naturally_ordered() {
    let index = Index::build(&library()).unwrap();
    assert_eq!(index.vendor_list(), &vec![text("acme"), text("Brass 9"), text("Brass 10"), text("Zeta Audio")]);
}

#[test]
fn banks_are_ordered_by_display_name() {
    let index = Index::build(&library()).unwrap();
    let names: Vec<String> = index.bank_list().iter().map(|b| b.get_name()).collect();
    assert_eq!(names, vec![text("artist"), text("Factory / Bass / Deep"), text("Factory / Pads")]);
    let ids: Vec<usize> = index.bank_list().iter().map(|b| b.id).collect();
    assert_eq!(ids, vec![3, 2, 1]);
}

#[test]
fn categories_and_modes_are_ordered_by_name() {
    let index = Index::build(&library()).unwrap();
    let names: Vec<String> = index.category_list().iter().map(|c| c.get_name()).collect();
    assert_eq!(names, vec![text("Bass / Sub / 808"), text("Pad"), text("Synth / Lead")]);
    let modes: Vec<&str> = index.mode_list().iter().map(|m| m.name.as_str()).collect();
    assert_eq!(modes, vec!["mono", "Poly"]);
}

#[test]
fn presets_are_ordered_by_name() {
    let index = Index::build(&library()).unwrap();
    let names: Vec<&str> = index.preset_list().iter().map(|p| p.name.as_str()).collect();
    assert_eq!(names, vec!["Extra", "track 2", "Track 10", "Warm Pad"]);
}

#[test]
fn every_preset_resolves_its_product() {
    let index = Index::build(&library()).unwrap();
    for preset in index.preset_list() {
        let product = index.product(&preset.product_id).unwrap();
        assert_eq!(product.name, preset.product_name);
        assert!(product.presets.contains(&preset.id));
    }
}

#[test]
fn presets_and_categories_mirror_each_other() {
    let index = Index::build(&library()).unwrap();
    for category in index.category_list() {
        for preset in index.preset_list() {
            assert_eq!(category.presets.contains(&preset.id), preset.categories.contains(&category.id));
        }
    }
    for mode in index.mode_list() {
        for preset in index.preset_list() {
            assert_eq!(mode.presets.contains(&preset.id), preset.modes.contains(&mode.id));
        }
    }
    assert_eq!(ids_of(&index.category(7).unwrap().presets), vec![100, 103]);
    assert_eq!(ids_of(&index.preset(100).unwrap().categories), vec![7]);
    assert_eq!(ids_of(&index.preset(100).unwrap().modes), vec![21]);
    assert_eq!(ids_of(&index.mode(20).unwrap().presets), vec![102, 103]);
}

#[test]
fn banks_hold_their_presets_and_bank_zero_holds_none() {
    let index = Index::build(&library()).unwrap();
    assert_eq!(ids_of(&index.bank(1).unwrap().presets), vec![100, 103]);
    assert_eq!(ids_of(&index.bank(2).unwrap().presets), vec![101]);
    assert_eq!(ids_of(&index.bank(3).unwrap().presets), Vec::<usize>::new());
    assert!(index.bank(0).is_none());
    assert_eq!(index.preset(102).unwrap().bank, 0);
}

#[test]
fn a_bank_row_with_id_zero_stays_empty() {
    let mut rows = library();
    rows.banks.push(bank(0, "None", "", ""));
    let index = Index::build(&rows).unwrap();
    assert_eq!(ids_of(&index.bank(0).unwrap().presets), Vec::<usize>::new());
}

#[test]
fn first_vendor_of_a_content_root_wins() {
    let index = Index::build(&library()).unwrap();
    let massive = index.product(&ProductKey::Id(10)).unwrap();
    assert_eq!(massive.vendor, "acme");
    assert_eq!(massive.name, "Massive");
    assert_eq!(massive.content_dir, "/content/massive");
    assert_eq!(massive.upid, "upid-massive");
}

#[test]
fn a_product_is_reached_by_id_and_by_alias() {
    let index = Index::build(&library()).unwrap();
    let by_id = index.product(&ProductKey::Id(10)).unwrap();
    let by_alias = index.product(&ProductKey::Upid(text("upid-massive"))).unwrap();
    assert_eq!(by_id.id, by_alias.id);
    assert_eq!(ids_of(&by_id.presets), ids_of(&by_alias.presets));
    assert!(index.product(&ProductKey::Upid(text(""))).is_none());
}

#[test]
fn content_roots_with_one_alias_are_one_product() {
    let index = Index::build(&library()).unwrap();
    let first = index.product(&ProductKey::Id(10)).unwrap();
    let second = index.product(&ProductKey::Id(12)).unwrap();
    assert_eq!(first.id, 10);
    assert_eq!(second.id, 10);
    assert_eq!(ids_of(&first.presets), vec![100, 101, 103]);
    assert_eq!(index.product_table().len(), 2);
    let extra = index.preset(103).unwrap();
    assert_eq!(extra.product_id, ProductKey::Id(10));
    assert_eq!(extra.product_name, "Massive");
}

#[test]
fn a_product_row_without_content_root_is_passed_over() {
    let index = Index::build(&library()).unwrap();
    assert!(index.product(&ProductKey::Id(99)).is_none());
}

#[test]
fn the_last_row_of_a_content_root_describes_it() {
    let mut rows = library();
    rows.paths.push(path(11, "/elsewhere", "Kontakt 7", ""));
    let index = Index::build(&rows).unwrap();
    let kontakt = index.product(&ProductKey::Id(11)).unwrap();
    assert_eq!(kontakt.name, "Kontakt 7");
    assert_eq!(kontakt.content_dir, "/elsewhere");
}

#[test]
fn no_rows_give_an_empty_index() {
    let rows = Rows {
        vendors: vec![],
        banks: vec![],
        paths: vec![],
        products: vec![],
        presets: vec![],
        categories: vec![],
        category_links: vec![],
        modes: vec![],
        mode_links: vec![],
    };
    let index = Index::build(&rows).unwrap();
    assert!(index.vendor_list().is_empty());
    assert!(index.preset_list().is_empty());
    assert_eq!(index.product_table().len(), 0);
}

#[test]
fn a_repeated_id_is_fatal() {
    let mut rows = library();
    rows.banks.push(bank(2, "Again", "", ""));
    assert_eq!(Index::build(&rows).err(), Some(IngestError::DuplicateId));
    let mut rows = library();
    rows.presets.push(preset(100, "Again", "acme", "", 10, "/content/massive/z.nmsv", 0));
    assert_eq!(Index::build(&rows).err(), Some(IngestError::DuplicateId));
    let mut rows = library();
    rows.categories.push(category(7, "Again", "", ""));
    assert_eq!(Index::build(&rows).err(), Some(IngestError::DuplicateId));
    let mut rows = library();
    rows.modes.push(mode(20, "Again"));
    assert_eq!(Index::build(&rows).err(), Some(IngestError::DuplicateId));
}

#[test]
fn a_preset_without_product_is_fatal() {
    let mut rows = library();
    rows.presets.push(preset(104, "Lost", "acme", "", 99, "/nowhere/l.nmsv", 0));
    assert_eq!(Index::build(&rows).err(), Some(IngestError::UnknownProduct));
    let mut rows = library();
    rows.presets.push(preset(104, "Lost", "acme", "", 55, "/nowhere/l.nmsv", 0));
    assert_eq!(Index::build(&rows).err(), Some(IngestError::UnknownProduct));
}

#[test]
fn a_preset_in_an_unknown_bank_is_fatal() {
    let mut rows = library();
    rows.presets.push(preset(104, "Lost", "acme", "", 10, "/content/massive/l.nmsv", 42));
    assert_eq!(Index::build(&rows).err(), Some(IngestError::UnknownBank));
}

#[test]
fn a_link_to_an_unknown_category_is_fatal() {
    let mut rows = library();
    rows.category_links.push(link(100, 77));
    assert_eq!(Index::build(&rows).err(), Some(IngestError::UnknownCategory));
}

#[test]
fn a_link_to_an_unknown_mode_is_fatal() {
    let mut rows = library();
    rows.mode_links.push(link(100, 77));
    assert_eq!(Index::build(&rows).err(), Some(IngestError::UnknownMode));
}

#[test]
fn a_link_from_an_unknown_preset_is_fatal() {
    let mut rows = library();
    rows.category_links.push(link(555, 7));
    assert_eq!(Index::build(&rows).err(), Some(IngestError::UnknownPreset));
    let mut rows = library();
    rows.mode_links.push(link(555, 20));
    assert_eq!(Index::build(&rows).err(), Some(IngestError::UnknownPreset));
}

#[test]
fn faults_are_reported_in_a_fixed_order() {
    let mut rows = library();
    rows.mode_links.push(link(555, 77));
    rows.category_links.push(link(555, 77));
    assert_eq!(Index::build(&rows).err(), Some(IngestError::UnknownCategory));
    rows.presets.push(preset(104, "Lost", "acme", "", 10, "/content/massive/l.nmsv", 42));
    assert_eq!(Index::build(&rows).err(), Some(IngestError::UnknownBank));
    rows.presets.push(preset(105, "Lost", "acme", "", 55, "/nowhere/l.nmsv", 0));
    assert_eq!(Index::build(&rows).err(), Some(IngestError::UnknownProduct));
    rows.modes.push(mode(20, "Again"));
    assert_eq!(Index::build(&rows).err(), Some(IngestError::DuplicateId));
}

#[test]
fn every_fault_says_what_it_is() {
    assert_eq!(IngestError::DuplicateId.message(), "two banks, presets, categories or modes share an id");
    assert_eq!(IngestError::UnknownProduct.message(), "a preset lies in a content root that leads to no product");
    assert_eq!(IngestError::UnknownBank.message(), "a preset names a bank that no row describes");
    assert_eq!(IngestError::UnknownCategory.message(), "a link names a category that no row describes");
    assert_eq!(IngestError::UnknownMode.message(), "a link names a mode that no row describes");
    assert_eq!(IngestError::UnknownPreset.message(), "a link names a preset that no row describes");
}
