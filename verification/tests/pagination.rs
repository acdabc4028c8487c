use preset_browser::paginated_result::paginate;

fn numbers(count: usize) -> Vec<usize> {
    (0..count).collect()
}

#[test]
fn a_full_page_in_the_middle() {
    let page = paginate(numbers(37), 10, 10);
    assert_eq!(page.results, (10..20).collect::<Vec<usize>>());
    assert_eq!(page.results.len(), 10);
    assert_eq!(page.start, 11);
    assert_eq!(page.end, 20);
    assert_eq!(page.total, 37);
}

#[test]
fn the_last_page_is_clipped() {
    let page = paginate(numbers(37), 35, 10);
    assert_eq!(page.results, vec![35, 36]);
    assert_eq!(page.start, 36);
    assert_eq!(page.end, 37);
    assert_eq!(page.total, 37);
}

#[test]
fn a_page_behind_the_end_is_empty() {
    let page = paginate(numbers(37), 100, 10);
    assert!(page.results.is_empty());
    assert_eq!(page.start, 101);
    assert_eq!(page.end, 100);
    assert_eq!(page.total, 37);
}

#[test]
fn a_page_at_the_end_is_empty() {
    let page = paginate(numbers(37), 37, 10);
    assert!(page.results.is_empty());
    assert_eq!((page.start, page.end, page.total), (38, 37, 37));
}

#[test]
fn a_limit_of_zero_gives_nothing() {
    let page = paginate(numbers(5), 2, 0);
    assert!(page.results.is_empty());
    assert_eq!((page.start, page.end, page.total), (3, 2, 5));
}

#[test]
fn a_huge_limit_gives_the_rest() {
    let page = paginate(numbers(5), 2, usize::MAX);
    assert_eq!(page.results, vec![2, 3, 4]);
    assert_eq!((page.start, page.end, page.total), (3, 5, 5));
}

#[test]
fn a_page_of_nothing() {
    let page = paginate(Vec::<String>::new(), 0, 10);
    assert!(page.results.is_empty());
    assert_eq!((page.start, page.end, page.total), (1, 0, 0));
}
