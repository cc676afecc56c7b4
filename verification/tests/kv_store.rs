use profile_backend::caller::CallerId;
use profile_backend::kv::{KvStore, OpError, Status};

fn caller(bytes: &[u8]) -> CallerId {
    CallerId::from_bytes(bytes.to_vec()).unwrap()
}

fn pairs(store: &KvStore, who: &CallerId) -> Vec<(String, String)> {
    store
        .get_all(who)
        .map(|v| v.into_iter().map(|p| (p.key, p.value)).collect())
        .unwrap_or_default()
}

#[test]
fn add_then_get_returns_value() {
    let admin = caller(&[1]);
    let mut store = KvStore::new(&admin, false);
    let st = store.add(&admin, "k".to_string(), "v".to_string()).unwrap();
    assert_eq!(st, Status::Done);
    assert_eq!(store.get(&admin, &"k".to_string()), Some("v".to_string()));
}

#[test]
fn add_existing_key_conflicts_and_keeps_first_value() {
    let admin = caller(&[1]);
    let mut store = KvStore::new(&admin, false);
    store.add(&admin, "k".to_string(), "v".to_string()).unwrap();
    let st = store.add(&admin, "k".to_string(), "v2".to_string()).unwrap();
    assert_eq!(st, Status::AlreadyExists);
    assert_eq!(store.get(&admin, &"k".to_string()), Some("v".to_string()));
    let st = store.update(&admin, "k".to_string(), "v2".to_string()).unwrap();
    assert_eq!(st, Status::Done);
    assert_eq!(store.get(&admin, &"k".to_string()), Some("v2".to_string()));
}

#[test]
fn update_of_absent_key_reports_no_match() {
    let admin = caller(&[1]);
    let mut store = KvStore::new(&admin, false);
    let st = store.update(&admin, "k".to_string(), "v".to_string()).unwrap();
    assert_eq!(st, Status::NoMatch);
    assert_eq!(store.get(&admin, &"k".to_string()), None);
}

#[test]
fn remove_of_absent_key_reports_no_match_and_changes_nothing() {
    let admin = caller(&[1]);
    let mut store = KvStore::new(&admin, false);
    store.add(&admin, "a".to_string(), "1".to_string()).unwrap();
    let st = store.remove(&admin, &"b".to_string()).unwrap();
    assert_eq!(st, Status::NoMatch);
    assert_eq!(pairs(&store, &admin), vec![("a".to_string(), "1".to_string())]);
}

#[test]
fn remove_of_present_key_deletes_it() {
    let admin = caller(&[1]);
    let mut store = KvStore::new(&admin, false);
    store.add(&admin, "a".to_string(), "1".to_string()).unwrap();
    store.add(&admin, "b".to_string(), "2".to_string()).unwrap();
    let st = store.remove(&admin, &"a".to_string()).unwrap();
    assert_eq!(st, Status::Done);
    assert_eq!(store.get(&admin, &"a".to_string()), None);
    assert_eq!(store.get(&admin, &"b".to_string()), Some("2".to_string()));
}

#[test]
fn unauthorized_caller_is_rejected_and_store_unchanged() {
    let admin = caller(&[1]);
    let outsider = caller(&[2]);
    let mut store = KvStore::new(&admin, false);
    store.add(&admin, "k".to_string(), "v".to_string()).unwrap();

    assert_eq!(store.add(&outsider, "x".to_string(), "y".to_string()), Err(OpError::Unauthorized));
    assert_eq!(store.update(&outsider, "k".to_string(), "y".to_string()), Err(OpError::Unauthorized));
    assert_eq!(store.remove(&outsider, &"k".to_string()), Err(OpError::Unauthorized));
    assert_eq!(store.add_user(&outsider, caller(&[3])), Err(OpError::Unauthorized));
    assert!(store.get_self(&outsider).is_err());

    assert_eq!(pairs(&store, &admin), vec![("k".to_string(), "v".to_string())]);
    assert_eq!(pairs(&store, &outsider), Vec::<(String, String)>::new());
}

#[test]
fn override_switch_admits_any_caller() {
    let admin = caller(&[1]);
    let outsider = caller(&[2]);
    let mut store = KvStore::new(&admin, true);
    let st = store.add(&outsider, "k".to_string(), "v".to_string()).unwrap();
    assert_eq!(st, Status::Done);
    assert_eq!(store.get(&outsider, &"k".to_string()), Some("v".to_string()));
}

#[test]
fn granted_user_may_mutate() {
    let admin = caller(&[1]);
    let friend = caller(&[2]);
    let mut store = KvStore::new(&admin, false);
    store.add_user(&admin, caller(&[2])).unwrap();
    let st = store.add(&friend, "k".to_string(), "v".to_string()).unwrap();
    assert_eq!(st, Status::Done);
}

#[test]
fn owners_are_partitioned() {
    let a = caller(&[1]);
    let b = caller(&[2]);
    let mut store = KvStore::new(&a, true);
    store.add(&a, "k".to_string(), "from a".to_string()).unwrap();
    store.add(&b, "k".to_string(), "from b".to_string()).unwrap();
    assert_eq!(store.get(&a, &"k".to_string()), Some("from a".to_string()));
    assert_eq!(store.get(&b, &"k".to_string()), Some("from b".to_string()));
}

#[test]
fn get_all_is_absent_for_unknown_owner() {
    let admin = caller(&[1]);
    let store = KvStore::new(&admin, false);
    assert!(store.get_all(&caller(&[9])).is_none());
}

#[test]
fn unauthorized_message_text() {
    assert_eq!(
        OpError::Unauthorized.message(),
        "operation restricted to authorized identities."
    );
}

#[test]
fn kv_reads_are_idempotent_without_writes() {
    let admin = caller(&[1]);
    let mut store = KvStore::new(&admin, false);
    store.add(&admin, "k".to_string(), "v".to_string()).unwrap();
    assert_eq!(pairs(&store, &admin), pairs(&store, &admin));
    assert_eq!(store.get(&admin, &"k".to_string()), store.get(&admin, &"k".to_string()));
}
