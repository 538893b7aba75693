use subclip::db::Key;
use subclip::select::{correlate, sort_strings, CorrelateError};

fn key(path: &str) -> Key {
    Key { video_path: String::from(path) }
}

fn search_map() -> Vec<(Key, String)> {
    vec![
        (key("/v/a.mkv"), String::from("alpha")),
        (key("/v/a.mkv"), String::from("beta")),
        (key("/v/b.mkv"), String::from("gamma")),
    ]
}

#[test]
fn duplicate_detection() {
    // the same string selected twice aborts the batch, reported with
    // multiplicity two, before anything else happens
    let selected = vec![
        String::from("beta"),
        String::from("alpha"),
        String::from("beta"),
    ];
    match correlate(&search_map(), &selected) {
        Err(CorrelateError::Duplicates(d)) => {
            assert_eq!(d.len(), 1);
            assert_eq!(d[0].0, 2);
            assert_eq!(d[0].1, "beta");
        },
        other => panic!("expected the duplicate report, got {:?}", other),
    }
}

#[test]
fn every_duplicate_is_reported() {
    let selected = vec![
        String::from("alpha"),
        String::from("alpha"),
        String::from("beta"),
        String::from("beta"),
        String::from("beta"),
        String::from("gamma"),
    ];
    match correlate(&search_map(), &selected) {
        Err(CorrelateError::Duplicates(d)) => {
            assert_eq!(d.len(), 2);
            assert_eq!(d[0], (2, String::from("alpha")));
            assert_eq!(d[1], (3, String::from("beta")));
        },
        other => panic!("expected the duplicate report, got {:?}", other),
    }
}

#[test]
fn unique_selections_resolve_to_their_pairs() {
    let selected = vec![String::from("gamma"), String::from("alpha")];
    let pairs = correlate(&search_map(), &selected).unwrap();
    assert_eq!(pairs.len(), 2);
    // resolution is by string; result order follows the sorted strings
    assert_eq!(pairs[0].0, key("/v/a.mkv"));
    assert_eq!(pairs[0].1, "alpha");
    assert_eq!(pairs[1].0, key("/v/b.mkv"));
    assert_eq!(pairs[1].1, "gamma");
}

#[test]
fn unknown_selection_is_an_invariant_break() {
    let selected = vec![String::from("delta")];
    match correlate(&search_map(), &selected) {
        Err(CorrelateError::UnmatchedSelection(t)) => assert_eq!(t, "delta"),
        other => panic!("expected the unmatched report, got {:?}", other),
    }
}

#[test]
fn empty_selection_resolves_to_nothing() {
    let selected: Vec<String> = Vec::new();
    let pairs = correlate(&search_map(), &selected).unwrap();
    assert!(pairs.is_empty());
}

#[test]
fn duplicate_strings_resolve_to_first_match() {
    // two generated pairs can carry the same string; resolution takes
    // the first one
    let map = vec![
        (key("/v/a.mkv"), String::from("same")),
        (key("/v/b.mkv"), String::from("same")),
    ];
    let pairs = correlate(&map, &vec![String::from("same")]).unwrap();
    assert_eq!(pairs.len(), 1);
    assert_eq!(pairs[0].0, key("/v/a.mkv"));
}

#[test]
fn sort_orders_and_keeps_occurrences() {
    let v = vec![
        String::from("pear"),
        String::from("apple"),
        String::from("pear"),
        String::from(""),
    ];
    let sorted = sort_strings(&v);
    assert_eq!(
        sorted,
        vec![String::from(""), String::from("apple"), String::from("pear"), String::from("pear")]
    );
}
