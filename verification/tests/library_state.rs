use preset_browser::index::Index;
use preset_browser::library::Library;
use preset_browser::query::Selection;
use preset_browser::rows::{PresetRow, PathRow, ProductRow, Rows};

fn rows(presets: usize) -> Rows {
    Rows {
        vendors: vec![String::from("Acme")],
        banks: vec![],
        paths: vec![PathRow {
            id: 1,
            path: String::from("/content"),
            alias: String::from("Product"),
            upid: String::new(),
        }],
        products: vec![ProductRow { path_id: 1, vendor: String::from("Acme") }],
        presets: (0..presets)
            .map(|id| PresetRow {
                id,
                name: format!("Preset {}", id),
                vendor: String::from("Acme"),
                comment: String::new(),
                path_id: 1,
                file_name: format!("/content/{}.nki", id),
                bank: 0,
            })
            .collect(),
        categories: vec![],
        category_links: vec![],
        modes: vec![],
        mode_links: vec![],
    }
}

#[test]
fn a_library_loads_until_an_index_is_published() {
    let mut library = Library::new(true);
    assert!(library.db_found());
    assert!(library.is_loading());
    assert!(library.index().is_none());
    assert!(library.publish(Index::build(&rows(3)).unwrap()));
    assert!(!library.is_loading());
    assert_eq!(library.index().unwrap().preset_list().len(), 3);
    assert!(library.db_found());
}

#[test]
fn the_first_index_stays() {
    let mut library = Library::new(true);
    assert!(library.publish(Index::build(&rows(3)).unwrap()));
    assert!(!library.publish(Index::build(&rows(5)).unwrap()));
    assert_eq!(library.index().unwrap().preset_list().len(), 3);
}

#[test]
fn without_a_data_source_the_library_stays_empty() {
    let library = Library::new(false);
    assert!(!library.db_found());
    assert!(library.is_loading());
    assert!(library.index().is_none());
}

#[test]
fn many_presets_are_ranked_in_natural_order() {
    let index = Index::build(&rows(200)).unwrap();
    let ids: Vec<usize> = index.preset_list().iter().map(|preset| preset.id).collect();
    assert_eq!(ids, (0..200).collect::<Vec<usize>>());
    for id in 0..200 {
        assert_eq!(index.preset(id).unwrap().name, format!("Preset {}", id));
    }
}

fn open() -> Selection {
    Selection { vendors: vec![], products: vec![], categories: vec![], modes: vec![], banks: vec![] }
}

#[test]
fn without_an_index_every_listing_is_empty() {
    for found in [false, true] {
        let library = Library::new(found);
        let mut selection = open();
        selection.categories = vec![404];
        selection.products = vec![7];
        assert!(library.get_categories(&selection).is_empty());
        assert!(library.get_banks(&selection).is_empty());
        assert!(library.get_modes(&selection).is_empty());
        assert!(library.get_products(&selection).is_empty());
        assert!(library.knows_selection(&selection));
        assert!(library.get_vendors(&selection).is_empty());
        let page = library.get_presets(&selection, "pad", 20, 10);
        assert!(page.results.is_empty());
        assert_eq!((page.total, page.start, page.end), (0, 21, 20));
    }
}

#[test]
fn a_published_index_answers_through_the_library() {
    let mut library = Library::new(true);
    library.publish(Index::build(&rows(12)).unwrap());
    let all = open();
    assert!(library.get_categories(&all).is_empty());
    assert!(library.get_banks(&all).is_empty());
    assert!(library.get_modes(&all).is_empty());
    let products: Vec<usize> = library.get_products(&all).iter().map(|product| product.id).collect();
    assert_eq!(products, vec![1]);
    assert!(library.knows_selection(&all));
    assert_eq!(library.get_vendors(&all), vec![String::from("Acme")]);
    let page = library.get_presets(&all, "preset 1", 1, 2);
    let names: Vec<&str> = page.results.iter().map(|preset| preset.name.as_str()).collect();
    assert_eq!(names, vec!["Preset 10", "Preset 11"]);
    assert_eq!((page.total, page.start, page.end), (3, 2, 3));
    let mut selection = open();
    selection.banks = vec![5];
    assert!(!library.knows_selection(&selection));
    selection.banks = vec![];
    selection.products = vec![1];
    assert!(library.knows_selection(&selection));
    assert_eq!(library.get_vendors(&selection), vec![String::from("Acme")]);
}
