use preset_browser::natural::{natural_ranking, natural_sign};

#[test]
fn track_numbers_order_by_value() {
    assert_eq!(natural_sign("Track 2", "Track 10"), -1);
    assert_eq!(natural_sign("Track 10", "Track 10b"), -1);
    assert_eq!(natural_sign("Track 2", "Track 10b"), -1);
    assert_eq!(natural_sign("Track 10", "Track 2"), 1);
}

#[test]
fn a_name_equals_itself() {
    assert_eq!(natural_sign("Massive X", "Massive X"), 0);
    assert_eq!(natural_sign("", ""), 0);
}

#[test]
fn case_does_not_order() {
    assert_eq!(natural_sign("abc", "ABC"), 0);
    assert_eq!(natural_sign("ABC", "abc"), 0);
}

#[test]
fn shorter_prefix_orders_first() {
    assert_eq!(natural_sign("Pad", "Pad Warm"), -1);
    assert_eq!(natural_sign("Pad Warm", "Pad"), 1);
}

#[test]
fn swapping_mirrors_the_sign() {
    let names = ["b2", "B10", "a", "A1", "", "10", "9"];
    for left in names {
        for right in names {
            assert_eq!(natural_sign(left, right), -natural_sign(right, left));
        }
    }
}

#[test]
fn ranking_sorts_and_keeps_ties_in_order() {
    let names: Vec<String> =
        vec!["Track 10", "track 2", "Track 2", "Track 10b", "TRACK 2"].into_iter().map(String::from).collect();
    assert_eq!(natural_ranking(&names), vec![1, 2, 4, 0, 3]);
}

#[test]
fn ranking_of_nothing_is_empty() {
    let names: Vec<String> = Vec::new();
    assert_eq!(natural_ranking(&names), Vec::<usize>::new());
}

fn awkward_names() -> Vec<&'static str> {
    vec![
        "", " ", "  ", "0", "00", "000", "01", "010", "1", "1 ", " 1", "1 0", "10", "1 1", "11", "1!", "1/", "1a",
        "1 a", "1A", "12", "1 2", "9", "09", "a", "A", "a ", " a", "a0", "a00", "a01", "a1", "a 1", "a1b", "a 1 b",
        "a10", "a2", "a02", "ab", "a b", "B", "b", "\u{130}", "i\u{307}", "\u{e4}", "\u{c4}", "x2-g8", "x2-y7",
        "pic 5", "pic5", "pic05", "pic 05", "1.001", "1.002", "1.010", "1.02", "1.1", "\t1", "1\u{a0}2",
    ]
}

#[test]
fn swapping_mirrors_the_sign_of_awkward_names() {
    let names = awkward_names();
    for left in &names {
        assert_eq!(natural_sign(left, left), 0);
        for right in &names {
            assert_eq!(natural_sign(left, right), -natural_sign(right, left), "{:?} and {:?}", left, right);
        }
    }
}

#[test]
fn a_ranking_of_awkward_names_puts_neighbours_in_order() {
    let names: Vec<String> = awkward_names().into_iter().map(String::from).collect();
    let ranking = natural_ranking(&names);
    let mut seen = ranking.clone();
    seen.sort();
    assert_eq!(seen, (0..names.len()).collect::<Vec<usize>>());
    for pair in ranking.windows(2) {
        let sign = natural_sign(&names[pair[0]], &names[pair[1]]);
        assert!(sign < 0 || (sign == 0 && pair[0] < pair[1]), "{:?} before {:?}", names[pair[0]], names[pair[1]]);
    }
}
