use pasta_store::codec::{decode, encode, Strategy};

#[test]
fn words_round_trip() {
    let ids: [u64; 9] = [0, 1, 15, 16, 42, 255, 4096, 123_456_789, u64::MAX];
    for &id in ids.iter() {
        let token = encode(Strategy::Words, id);
        assert_eq!(decode(Strategy::Words, &token), Some(id));
    }
}

#[test]
fn words_token_text() {
    assert_eq!(encode(Strategy::Words, 0), "ant");
    assert_eq!(encode(Strategy::Words, 1), "bat");
    assert_eq!(encode(Strategy::Words, 15), "yak");
    assert_eq!(encode(Strategy::Words, 16), "bat-ant");
    // 42 = 2 * 16 + 10
    assert_eq!(encode(Strategy::Words, 42), "cat-moa");
    assert_eq!(decode(Strategy::Words, "cat-moa"), Some(42));
}

#[test]
fn words_garbage_decodes_to_none() {
    let garbage = [
        "", "a", "an", "ants", "xyz", "ant-", "-ant", "antant", "ant ant", "Ant", "ANT",
        "ant-zzz", "zzz-ant", "ant--ant", "bat-", "bat-an", "cat-moa-", "ant_bat",
    ];
    for g in garbage.iter() {
        assert_eq!(decode(Strategy::Words, g), None, "{g:?} must not decode");
    }
}

#[test]
fn words_reject_leading_zero_word() {
    // "ant" is the zero digit: a multi-word token may not start with it,
    // since no identifier encodes to that form.
    assert_eq!(decode(Strategy::Words, "ant-ant"), None);
    assert_eq!(decode(Strategy::Words, "ant-bat"), None);
}

#[test]
fn words_tokens_unique() {
    let a = encode(Strategy::Words, 7);
    let b = encode(Strategy::Words, 8);
    assert_ne!(a, b);
}

#[test]
fn hashed_round_trip() {
    let st = Strategy::Hashed { salt: 0xDEAD_BEEF_0123_4567 };
    let ids: [u64; 7] = [0, 1, 42, 255, 65_536, 123_456_789, u64::MAX];
    for &id in ids.iter() {
        let token = encode(st, id);
        assert_eq!(token.len(), 16);
        assert_eq!(decode(st, &token), Some(id));
    }
}

#[test]
fn hashed_garbage_decodes_to_none() {
    let st = Strategy::Hashed { salt: 99 };
    let garbage = ["", "k", "kkkkkkkkkkkkkkk", "kkkkkkkkkkkkkkkkk", "aaaaaaaaaaaaaaaa", "KKKKKKKKKKKKKKKK"];
    for g in garbage.iter() {
        assert_eq!(decode(st, g), None, "{g:?} must not decode");
    }
}

#[test]
fn hashed_salt_changes_tokens() {
    let a = encode(Strategy::Hashed { salt: 1 }, 42);
    let b = encode(Strategy::Hashed { salt: 2 }, 42);
    assert_ne!(a, b);
    // Decoding under the wrong salt unmasks to a different identifier.
    assert_ne!(decode(Strategy::Hashed { salt: 2 }, &a), Some(42));
}

#[test]
fn strategies_differ() {
    let w = encode(Strategy::Words, 42);
    let h = encode(Strategy::Hashed { salt: 0 }, 42);
    assert_ne!(w, h);
}
