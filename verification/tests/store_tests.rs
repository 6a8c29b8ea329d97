use pasta_store::codec::Strategy;
use pasta_store::pasta::Pasta;
use pasta_store::store::{FindOutcome, RemoveOutcome, Store, StoreError};

const PHRASE: &str = "yes, delete it";

fn record(id: u64, created: i64) -> Pasta {
    Pasta {
        id,
        title: format!("note {id}"),
        content: String::from("hello"),
        file: None,
        extension: String::from("txt"),
        readonly: false,
        private: false,
        editable: true,
        encrypt_server: false,
        encrypt_client: false,
        encrypted_key: None,
        created,
        expiration: 0,
        last_read: 0,
        read_count: 0,
        burn_after_reads: 0,
        pasta_type: String::from("text"),
    }
}

#[test]
fn unrestricted_remove_then_miss() {
    let mut st = Store::open_in_memory(Strategy::Words).unwrap();
    let p = Pasta { editable: true, readonly: false, encrypt_server: false, expiration: 0, ..record(42, 1) };
    st.submit(p, 100).unwrap();
    let token = st.token_for(42);
    let out = st.remove(&token, "", PHRASE, 100).unwrap();
    assert!(matches!(out, RemoveOutcome::Deleted(p) if p.id == 42));
    let found = st.find_by_token(&token, "", 100).unwrap();
    assert!(matches!(found, FindOutcome::NotFound));
}

#[test]
fn readonly_remove_needs_the_phrase() {
    let mut st = Store::open_in_memory(Strategy::Words).unwrap();
    st.submit(Pasta { readonly: true, ..record(7, 1) }, 100).unwrap();
    let token = st.token_for(7);
    let out = st.remove(&token, "wrong", PHRASE, 100).unwrap();
    assert!(matches!(out, RemoveOutcome::AuthMismatch));
    let out = st.remove(&token, PHRASE, PHRASE, 100).unwrap();
    assert!(matches!(out, RemoveOutcome::Deleted(p) if p.id == 7));
}

#[test]
fn gated_remove_prompts_without_input() {
    let mut st = Store::open_in_memory(Strategy::Words).unwrap();
    st.submit(Pasta { encrypt_server: true, ..record(5, 1) }, 100).unwrap();
    let token = st.token_for(5);
    let out = st.remove(&token, "", PHRASE, 100).unwrap();
    assert!(matches!(out, RemoveOutcome::NeedsAuth));
}

#[test]
fn listing_is_in_creation_order() {
    let mut st = Store::open_in_memory(Strategy::Words).unwrap();
    st.submit(record(20, 2), 100).unwrap();
    st.submit(record(99, 9), 100).unwrap();
    st.submit(record(30, 3), 100).unwrap();
    // Removing an unrelated record must not disturb the order of the rest.
    let token99 = st.token_for(99);
    let out = st.remove(&token99, "", PHRASE, 100).unwrap();
    assert!(matches!(out, RemoveOutcome::Deleted(_)));
    st.submit(record(10, 1), 100).unwrap();
    let all = st.list(100).unwrap();
    let created: Vec<i64> = all.iter().map(|p| p.created).collect();
    assert_eq!(created, vec![1, 2, 3]);
    let ids: Vec<u64> = all.iter().map(|p| p.id).collect();
    assert_eq!(ids, vec![10, 20, 30]);
}

#[test]
fn expired_records_are_swept_on_touch() {
    let mut st = Store::open_in_memory(Strategy::Words).unwrap();
    st.submit(Pasta { expiration: 50, ..record(1, 1) }, 10).unwrap();
    st.submit(record(2, 2), 10).unwrap();
    // Before expiry both are visible.
    assert_eq!(st.list(10).unwrap().len(), 2);
    // At (and past) the expiration time the record is gone everywhere.
    let all = st.list(50).unwrap();
    assert_eq!(all.len(), 1);
    assert_eq!(all[0].id, 2);
    let token = st.token_for(1);
    assert!(matches!(st.find_by_token(&token, "", 60).unwrap(), FindOutcome::NotFound));
}

#[test]
fn zero_expiration_never_expires() {
    let mut st = Store::open_in_memory(Strategy::Words).unwrap();
    st.submit(record(1, 1), 10).unwrap();
    assert_eq!(st.list(i64::MAX).unwrap().len(), 1);
}

#[test]
fn duplicate_id_is_rejected() {
    let mut st = Store::open_in_memory(Strategy::Words).unwrap();
    st.submit(record(1, 1), 10).unwrap();
    assert_eq!(st.submit(record(1, 5), 10), Err(StoreError::DuplicateId));
    assert_eq!(st.list(10).unwrap().len(), 1);
}

#[test]
fn find_gates_private_records() {
    let mut st = Store::open_in_memory(Strategy::Words).unwrap();
    st.submit(Pasta { private: true, ..record(3, 1) }, 10).unwrap();
    let token = st.token_for(3);
    assert!(matches!(st.find_by_token(&token, "", 10).unwrap(), FindOutcome::NeedsAuth));
    assert!(matches!(st.find_by_token(&token, "s3cret", 10).unwrap(), FindOutcome::Found(p) if p.id == 3));
}

#[test]
fn find_with_garbage_token_misses() {
    let mut st = Store::open_in_memory(Strategy::Words).unwrap();
    st.submit(record(3, 1), 10).unwrap();
    assert!(matches!(st.find_by_token("zzz-zzz", "", 10).unwrap(), FindOutcome::NotFound));
    assert!(matches!(st.find_by_token("", "", 10).unwrap(), FindOutcome::NotFound));
}

#[test]
fn update_replaces_but_keeps_creation_time() {
    let mut st = Store::open_in_memory(Strategy::Words).unwrap();
    st.submit(record(4, 7), 10).unwrap();
    let mut newer = record(4, 999);
    newer.content = String::from("changed");
    assert_eq!(st.update(newer, 10), Ok(true));
    let token = st.token_for(4);
    match st.find_by_token(&token, "", 10).unwrap() {
        FindOutcome::Found(p) => {
            assert_eq!(p.content, "changed");
            assert_eq!(p.created, 7);
        },
        other => panic!("expected Found, got {other:?}"),
    }
    assert_eq!(st.update(record(77, 1), 10), Ok(false));
}

#[test]
fn lookup_auth_hands_out_key_material() {
    let mut st = Store::open_in_memory(Strategy::Hashed { salt: 12345 }).unwrap();
    let p = Pasta {
        encrypt_client: true,
        encrypted_key: Some(String::from("wrapped-key")),
        ..record(9, 1)
    };
    st.submit(p, 10).unwrap();
    let token = st.token_for(9);
    let av = st.lookup_auth(&token, 10).unwrap().unwrap();
    assert_eq!(av.encrypted_key, "wrapped-key");
    assert!(av.encrypt_client);
    assert!(st.lookup_auth("nonsense", 10).unwrap().is_none());
}

#[test]
fn store_works_under_the_hashed_strategy_too() {
    let mut st = Store::open_in_memory(Strategy::Hashed { salt: 7 }).unwrap();
    st.submit(record(42, 1), 10).unwrap();
    let token = st.token_for(42);
    assert_eq!(token.len(), 16);
    assert!(matches!(st.find_by_token(&token, "", 10).unwrap(), FindOutcome::Found(p) if p.id == 42));
}

#[test]
fn rewrite_all_rebuilds_the_table_from_live_records() {
    let mut st = Store::open_in_memory(Strategy::Words).unwrap();
    st.submit(record(1, 1), 3).unwrap();
    st.submit(Pasta { expiration: 5, ..record(2, 2) }, 3).unwrap();
    let mut st = st.rewrite_all(10).unwrap();
    let all = st.list(10).unwrap();
    assert_eq!(all.len(), 1);
    assert_eq!(all[0].id, 1);
}
