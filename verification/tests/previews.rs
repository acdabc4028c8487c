use preset_browser::preview::{
    cached_preview, has_waveform_extension, join, relative_path, rerooted_preview, Ask, Reply, Resolver,
};

fn text(s: &str) -> String {
    String::from(s)
}

fn asked_path(ask: &Ask) -> &str {
    match ask {
        Ask::Exists(path) => path.as_str(),
        other => panic!("no path is asked for: {:?}", other),
    }
}

#[test]
fn a_waveform_that_exists_is_its_own_preview() {
    let (mut search, ask) = Resolver::start(text("foo.wav"), text("alias"), text("/content"));
    assert_eq!(asked_path(&ask), "foo.wav");
    match search.answer(Reply::Exists(true)) {
        Ask::Found(path) => assert_eq!(path, "foo.wav"),
        other => panic!("unexpected: {:?}", other),
    }
}

#[test]
fn without_cache_and_manifest_there_is_no_preview() {
    let (mut search, ask) = Resolver::start(text("/content/lib/bar.nki"), text("alias"), text("/content/lib"));
    assert_eq!(asked_path(&ask), "/content/lib/.previews/bar.nki.ogg");
    assert!(matches!(search.answer(Reply::Exists(false)), Ask::ContentDir));
    assert!(matches!(search.answer(Reply::ContentDir(None)), Ask::Nothing));
}

#[test]
fn a_missing_waveform_falls_back_to_the_cache() {
    let (mut search, ask) = Resolver::start(text("/a/b/Kick.WAV"), text(""), text("/a"));
    assert_eq!(asked_path(&ask), "/a/b/Kick.WAV");
    let ask = search.answer(Reply::Exists(false));
    assert_eq!(asked_path(&ask), "/a/b/.previews/Kick.WAV.ogg");
    match search.answer(Reply::Exists(true)) {
        Ask::Found(path) => assert_eq!(path, "/a/b/.previews/Kick.WAV.ogg"),
        other => panic!("unexpected: {:?}", other),
    }
}

#[test]
fn the_library_is_tried_last() {
    let (mut search, _) =
        Resolver::start(text("/content/lib/Pads/warm.nki"), text("upid-9"), text("/content/lib"));
    assert!(matches!(search.answer(Reply::Exists(false)), Ask::ContentDir));
    let ask = search.answer(Reply::ContentDir(Some(text("/previews"))));
    assert_eq!(asked_path(&ask), "/previews/Samples/upid-9/Pads/.previews/warm.nki.ogg");
    match search.answer(Reply::Exists(true)) {
        Ask::Found(path) => assert_eq!(path, "/previews/Samples/upid-9/Pads/.previews/warm.nki.ogg"),
        other => panic!("unexpected: {:?}", other),
    }
}

#[test]
fn a_library_preview_that_is_missing_is_no_preview() {
    let (mut search, _) =
        Resolver::start(text("/content/lib/Pads/warm.nki"), text("upid-9"), text("/content/lib"));
    search.answer(Reply::Exists(false));
    search.answer(Reply::ContentDir(Some(text("/previews"))));
    assert!(matches!(search.answer(Reply::Exists(false)), Ask::Nothing));
}

#[test]
fn a_product_without_alias_has_no_library_preview() {
    let (mut search, _) = Resolver::start(text("/content/lib/warm.nki"), text(""), text("/content/lib"));
    search.answer(Reply::Exists(false));
    assert!(matches!(search.answer(Reply::ContentDir(Some(text("/previews")))), Ask::Nothing));
}

#[test]
fn a_search_that_is_over_stays_over() {
    let (mut search, _) = Resolver::start(text("foo.wav"), text("alias"), text("/content"));
    assert!(matches!(search.answer(Reply::Exists(true)), Ask::Found(_)));
    assert!(matches!(search.answer(Reply::Exists(true)), Ask::Nothing));
    assert!(matches!(search.answer(Reply::ContentDir(None)), Ask::Nothing));
}

#[test]
fn an_answer_that_does_not_fit_ends_the_search() {
    let (mut search, _) = Resolver::start(text("foo.wav"), text("alias"), text("/content"));
    assert!(matches!(search.answer(Reply::ContentDir(Some(text("/x")))), Ask::Nothing));
}

#[test]
fn waveforms_are_known_by_their_extension() {
    assert!(has_waveform_extension("foo.wav"));
    assert!(has_waveform_extension("/a/b.c/Foo.WaV"));
    assert!(has_waveform_extension("C:\\samples\\kick.WAV"));
    assert!(has_waveform_extension("a.b.wav"));
    assert!(!has_waveform_extension("foo.wave"));
    assert!(!has_waveform_extension("foo.ogg"));
    assert!(!has_waveform_extension("wav"));
    assert!(!has_waveform_extension(".wav"));
    assert!(!has_waveform_extension("/a.wav/foo"));
    assert!(!has_waveform_extension("foo.wav/"));
    assert!(!has_waveform_extension(""));
    assert!(!has_waveform_extension("foo.w\u{e4}v"));
}

#[test]
fn the_cache_lies_beside_the_file() {
    assert_eq!(cached_preview("/a/b/c.nki"), "/a/b/.previews/c.nki.ogg");
    assert_eq!(cached_preview("c.nki"), ".previews/c.nki.ogg");
    assert_eq!(cached_preview("/c.nki"), "/.previews/c.nki.ogg");
    assert_eq!(cached_preview("C:\\lib\\c.nki"), "C:\\lib\\.previews/c.nki.ogg");
    assert_eq!(cached_preview("/a/\u{fc}ber.nki"), "/a/.previews/\u{fc}ber.nki.ogg");
}

#[test]
fn folders_are_joined_with_one_separator() {
    assert_eq!(join("/a", "b"), "/a/b");
    assert_eq!(join("/a/", "b"), "/a/b");
    assert_eq!(join("C:\\a\\", "b"), "C:\\a\\b");
    assert_eq!(join("", "b"), "b");
    assert_eq!(join("/a", ""), "/a/");
}

#[test]
fn a_path_below_a_root() {
    assert_eq!(relative_path("/a/b/c.nki", "/a"), Some(text("b/c.nki")));
    assert_eq!(relative_path("/a/b/c.nki", "/a/"), Some(text("b/c.nki")));
    assert_eq!(relative_path("/a//b", "/a"), Some(text("b")));
    assert_eq!(relative_path("C:\\lib\\x.nki", "C:\\lib"), Some(text("x.nki")));
    assert_eq!(relative_path("/ab/c", "/a"), None);
    assert_eq!(relative_path("/a", "/a"), None);
    assert_eq!(relative_path("/a/", "/a"), None);
    assert_eq!(relative_path("/a/b", ""), None);
    assert_eq!(relative_path("/a", "/a/b"), None);
    assert_eq!(relative_path("/x/b", "/a"), None);
}

#[test]
fn previews_in_the_library() {
    assert_eq!(
        rerooted_preview("/previews", "upid", "/lib/Pads/warm.nki", "/lib"),
        Some(text("/previews/Samples/upid/Pads/.previews/warm.nki.ogg"))
    );
    assert_eq!(
        rerooted_preview("/previews/", "upid", "/lib/warm.nki", "/lib/"),
        Some(text("/previews/Samples/upid/.previews/warm.nki.ogg"))
    );
    assert_eq!(rerooted_preview("/previews", "", "/lib/warm.nki", "/lib"), None);
    assert_eq!(rerooted_preview("/previews", "upid", "/other/warm.nki", "/lib"), None);
}
