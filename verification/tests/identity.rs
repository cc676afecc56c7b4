use profile_backend::caller::CallerId;
use profile_backend::kv::{KvStore, OpError};

fn caller(bytes: &[u8]) -> CallerId {
    CallerId::from_bytes(bytes.to_vec()).unwrap()
}

#[test]
fn from_bytes_rejects_overlong_identities() {
    assert!(CallerId::from_bytes(vec![0u8; 29]).is_some());
    assert!(CallerId::from_bytes(vec![0u8; 30]).is_none());
}

#[test]
fn from_text_accepts_the_anonymous_principal() {
    // the anonymous principal is the single byte 0x04
    let c = CallerId::from_text("2vxsx-fae").unwrap();
    let same = caller(&[4]);
    assert_eq!(c.to_text(), same.to_text());
}

#[test]
fn from_text_rejects_garbage() {
    assert!(CallerId::from_text("not a principal").is_none());
    assert!(CallerId::from_text("").is_none());
}

#[test]
fn to_text_round_trips_through_candid() {
    let c = caller(&[1, 2, 3]);
    let text = c.to_text();
    assert_eq!(text, candid::Principal::from_slice(&[1, 2, 3]).to_text());
    let back = CallerId::from_text(&text).unwrap();
    assert_eq!(back.to_text(), text);
}

#[test]
fn get_self_reports_the_caller_identity_text() {
    let admin = caller(&[7, 7]);
    let store = KvStore::new(&admin, false);
    let text = store.get_self(&admin).unwrap();
    assert_eq!(text, candid::Principal::from_slice(&[7, 7]).to_text());
}

#[test]
fn get_by_id_with_malformed_identity_fails_without_corruption() {
    let admin = caller(&[1]);
    let mut store = KvStore::new(&admin, false);
    store.add(&admin, "k".to_string(), "v".to_string()).unwrap();
    let r = store.get_by_id(&"definitely*not*valid".to_string());
    assert_eq!(r, Err(OpError::MalformedInput));
    // other owners' data is untouched
    assert_eq!(store.get(&admin, &"k".to_string()), Some("v".to_string()));
}

#[test]
fn get_by_id_resolves_a_textual_identity() {
    let admin = caller(&[1]);
    let mut store = KvStore::new(&admin, false);
    store.add(&admin, "k".to_string(), "v".to_string()).unwrap();
    let text = candid::Principal::from_slice(&[1]).to_text();
    let got = store.get_by_id(&text).unwrap().unwrap();
    assert_eq!(got.len(), 1);
    assert_eq!(got[0].key, "k");
    assert_eq!(got[0].value, "v");
    // an identity that stored nothing resolves to an absent collection
    let other = candid::Principal::from_slice(&[2]).to_text();
    assert!(store.get_by_id(&other).unwrap().is_none());
}

#[test]
fn malformed_input_message_text() {
    assert_eq!(OpError::MalformedInput.message(), "not a valid textual identity.");
}
