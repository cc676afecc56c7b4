use profile_backend::caller::CallerId;
use profile_backend::profile::{Profile, ProfileBook};

fn caller(bytes: &[u8]) -> CallerId {
    CallerId::from_bytes(bytes.to_vec()).unwrap()
}

fn profile(name: &str, description: &str, keywords: &[&str]) -> Profile {
    Profile {
        name: name.to_string(),
        description: description.to_string(),
        keywords: keywords.iter().map(|k| k.to_string()).collect(),
    }
}

fn names(v: &Vec<Profile>) -> Vec<String> {
    v.iter().map(|p| p.name.clone()).collect()
}

#[test]
fn add_then_get_self_includes_record() {
    let mut book = ProfileBook::new();
    let a = caller(&[1]);
    book.add(&a, profile("alice", "first", &["k1"]));
    let got = book.get_self(&a);
    assert_eq!(got.len(), 1);
    assert_eq!(got[0].name, "alice");
    assert_eq!(got[0].description, "first");
    assert_eq!(got[0].keywords, vec!["k1".to_string()]);
}

#[test]
fn adding_same_profile_twice_keeps_two_copies() {
    let mut book = ProfileBook::new();
    let a = caller(&[1]);
    book.add(&a, profile("alice", "d", &[]));
    book.add(&a, profile("alice", "d", &[]));
    let got = book.get_self(&a);
    assert_eq!(names(&got), vec!["alice".to_string(), "alice".to_string()]);
}

#[test]
fn get_self_of_unknown_caller_is_empty() {
    let book = ProfileBook::new();
    assert!(book.get_self(&caller(&[9])).is_empty());
}

#[test]
fn get_by_name_resolves_last_writer() {
    let mut book = ProfileBook::new();
    let a = caller(&[1]);
    let b = caller(&[2]);
    book.add(&a, profile("shared", "from a", &[]));
    book.add(&b, profile("shared", "from b", &[]));
    // b registered the name last, so the lookup returns b's collection
    let got = book.get(&"shared".to_string());
    assert_eq!(got.len(), 1);
    assert_eq!(got[0].description, "from b");
}

#[test]
fn cross_owner_read_through_global_index() {
    let mut book = ProfileBook::new();
    let a = caller(&[1]);
    book.add(&a, profile("x", "d", &["k1"]));
    // a different caller reads by name and receives a's collection
    let got = book.get(&"x".to_string());
    assert_eq!(got.len(), 1);
    assert_eq!(got[0].name, "x");
    assert_eq!(got[0].description, "d");
    assert_eq!(got[0].keywords, vec!["k1".to_string()]);
}

#[test]
fn get_of_unregistered_name_is_empty() {
    let book = ProfileBook::new();
    assert!(book.get(&"nobody".to_string()).is_empty());
}

#[test]
fn update_appends_without_registering_name() {
    let mut book = ProfileBook::new();
    let a = caller(&[1]);
    book.update(&a, profile("quiet", "d", &[]));
    assert_eq!(book.get_self(&a).len(), 1);
    // the name index never saw "quiet"
    assert!(book.get(&"quiet".to_string()).is_empty());
}

#[test]
fn remove_drops_all_of_that_name_and_keeps_others() {
    let mut book = ProfileBook::new();
    let a = caller(&[1]);
    book.add(&a, profile("x", "1", &[]));
    book.add(&a, profile("y", "2", &[]));
    book.add(&a, profile("x", "3", &[]));
    book.remove(&a, &"x".to_string());
    assert_eq!(names(&book.get_self(&a)), vec!["y".to_string()]);
}

#[test]
fn remove_of_absent_name_is_a_noop() {
    let mut book = ProfileBook::new();
    let a = caller(&[1]);
    book.add(&a, profile("x", "d", &[]));
    book.remove(&a, &"z".to_string());
    assert_eq!(book.get_self(&a).len(), 1);
}

#[test]
fn remove_does_not_retract_name_index() {
    let mut book = ProfileBook::new();
    let a = caller(&[1]);
    book.add(&a, profile("x", "d", &[]));
    book.remove(&a, &"x".to_string());
    // the index still resolves "x" to a, whose collection is now empty
    assert!(book.get(&"x".to_string()).is_empty());
    assert!(book.get_self(&a).is_empty());
}

#[test]
fn search_is_case_insensitive() {
    let mut book = ProfileBook::new();
    let a = caller(&[1]);
    book.add(&a, profile("alice", "plain", &[]));
    let hit = book.search(&"ALICE".to_string());
    assert!(hit.is_some());
    assert_eq!(hit.unwrap()[0].name, "alice");
}

#[test]
fn search_folds_the_stored_side_too() {
    let mut book = ProfileBook::new();
    let a = caller(&[1]);
    book.add(&a, profile("ALICE", "plain", &[]));
    assert!(book.search(&"alice".to_string()).is_some());
}

#[test]
fn empty_text_matches_any_record() {
    let mut book = ProfileBook::new();
    assert!(book.search(&"".to_string()).is_none());
    book.add(&caller(&[1]), profile("x", "d", &[]));
    assert!(book.search(&"".to_string()).is_some());
}

#[test]
fn search_matches_description_substring() {
    let mut book = ProfileBook::new();
    let a = caller(&[1]);
    book.add(&a, profile("n", "Enjoys Gardening a lot", &[]));
    assert!(book.search(&"gardening".to_string()).is_some());
}

#[test]
fn search_matches_keyword_exactly_only() {
    let mut book = ProfileBook::new();
    let a = caller(&[1]);
    book.add(&a, profile("n", "d", &["Rust"]));
    assert!(book.search(&"rust".to_string()).is_some());
    // a keyword matches as a whole token, not as a substring
    assert!(book.search(&"rus".to_string()).is_none());
}

#[test]
fn search_returns_whole_collection_of_first_matching_owner() {
    let mut book = ProfileBook::new();
    let a = caller(&[1]);
    let b = caller(&[2]);
    book.add(&a, profile("first", "d", &[]));
    book.add(&a, profile("second", "d", &[]));
    book.add(&b, profile("second", "elsewhere", &[]));
    let hit = book.search(&"second".to_string()).unwrap();
    // a's whole collection comes back, because a is the first owner with a match
    assert_eq!(names(&hit), vec!["first".to_string(), "second".to_string()]);
}

#[test]
fn search_on_empty_store_is_absent() {
    let book = ProfileBook::new();
    assert!(book.search(&"anything".to_string()).is_none());
}

#[test]
fn search_without_match_is_absent() {
    let mut book = ProfileBook::new();
    book.add(&caller(&[1]), profile("alice", "d", &["k"]));
    assert!(book.search(&"zebra".to_string()).is_none());
}

#[test]
fn iterate_returns_every_collection() {
    let mut book = ProfileBook::new();
    let a = caller(&[1]);
    let b = caller(&[2]);
    book.add(&a, profile("pa", "d", &[]));
    book.add(&b, profile("pb", "d", &[]));
    book.add(&a, profile("pa2", "d", &[]));
    let all = book.iterate();
    assert_eq!(all.len(), 2);
    assert_eq!(names(&all[0]), vec!["pa".to_string(), "pa2".to_string()]);
    assert_eq!(names(&all[1]), vec!["pb".to_string()]);
}

#[test]
fn reads_are_idempotent_without_writes() {
    let mut book = ProfileBook::new();
    let a = caller(&[1]);
    book.add(&a, profile("alice", "d", &["k"]));
    let s1 = book.get_self(&a);
    let s2 = book.get_self(&a);
    assert_eq!(names(&s1), names(&s2));
    let f1 = book.search(&"alice".to_string());
    let f2 = book.search(&"alice".to_string());
    assert_eq!(f1.is_some(), f2.is_some());
    assert_eq!(names(&f1.unwrap()), names(&f2.unwrap()));
    let e1 = book.iterate();
    let e2 = book.iterate();
    assert_eq!(e1.len(), e2.len());
    assert_eq!(names(&e1[0]), names(&e2[0]));
}
