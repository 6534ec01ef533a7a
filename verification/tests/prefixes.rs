use linkmod::prefix_store::PrefixStore;

#[test]
fn guild_id_has_no_prefix() {
    // Dummy ID to try to retrieve from the store.
    let store = PrefixStore::new();
    let prefix = store.get_prefix_for_guild(000000000000000000);
    // Fail test if it returns a valid prefix.
    assert_eq!(prefix, "");
}

#[test]
fn adding_a_prefix_to_a_guild_id() {
    let mut store = PrefixStore::new();
    store.set_prefix(111111111111111111, String::from("+"));

    let prefix = store.get_prefix_for_guild(111111111111111111);

    assert_eq!(prefix, "+");
}

#[test]
fn set_prefix_overwrites() {
    let mut store = PrefixStore::new();
    store.set_prefix(7, String::from("+"));
    store.set_prefix(7, String::from("!"));
    assert_eq!(store.get_prefix_for_guild(7), "!");
    assert_eq!(store.len(), 1);
}

#[test]
fn save_doc_canonical_form() {
    let mut store = PrefixStore::new();
    store.set_prefix(1, String::from("+"));
    assert_eq!(store.save_doc(), "{\"1\":\"+\"}");

    let empty = PrefixStore::new();
    assert_eq!(empty.save_doc(), "{}");
}

#[test]
fn save_then_load_round_trip() {
    let mut store = PrefixStore::new();
    store.set_prefix(0, String::from(""));
    store.set_prefix(111111111111111111, String::from("+"));
    store.set_prefix(42, String::from("bot!"));
    store.set_prefix(7, String::from("\"\\quote"));
    store.set_prefix(9, String::from("tab\there\nline"));
    store.set_prefix(u64::MAX, String::from("émoji ßtr"));

    let doc = store.save_doc();
    let loaded = PrefixStore::load_doc(doc.as_str()).expect("the saved document must load");

    assert_eq!(loaded.get_prefix_for_guild(0), "");
    assert_eq!(loaded.get_prefix_for_guild(111111111111111111), "+");
    assert_eq!(loaded.get_prefix_for_guild(42), "bot!");
    assert_eq!(loaded.get_prefix_for_guild(7), "\"\\quote");
    assert_eq!(loaded.get_prefix_for_guild(9), "tab\there\nline");
    assert_eq!(loaded.get_prefix_for_guild(u64::MAX), "émoji ßtr");
    // Unknown context identifiers still resolve to the empty string.
    assert_eq!(loaded.get_prefix_for_guild(12345), "");
}

#[test]
fn load_doc_empty_object() {
    let store = PrefixStore::load_doc("{}").expect("the empty document must load");
    assert_eq!(store.len(), 0);
    assert_eq!(store.get_prefix_for_guild(1), "");
}

#[test]
fn load_doc_rejects_malformed() {
    assert!(PrefixStore::load_doc("").is_none());
    assert!(PrefixStore::load_doc("{").is_none());
    assert!(PrefixStore::load_doc("not json").is_none());
    assert!(PrefixStore::load_doc("{\"x\":\"y\"}").is_none());
    assert!(PrefixStore::load_doc("{\"1\":\"a\"").is_none());
    assert!(PrefixStore::load_doc("{\"1\":\"a\",}").is_none());
    assert!(PrefixStore::load_doc("{\"99999999999999999999999\":\"a\"}").is_none());
}

#[test]
fn load_doc_tolerates_whitespace() {
    let store = PrefixStore::load_doc(" { } ").expect("a spaced empty object must load");
    assert_eq!(store.len(), 0);

    let store = PrefixStore::load_doc("{\n  \"1\": \"+\",\n  \"2\" : \"!\"\n}\n")
        .expect("a pretty-printed object must load");
    assert_eq!(store.get_prefix_for_guild(1), "+");
    assert_eq!(store.get_prefix_for_guild(2), "!");
}

#[test]
fn load_doc_accepts_standard_escapes() {
    let store = PrefixStore::load_doc(
        "{\"1\":\"a\\tb\\nc\\rd\\be\\ff\\/g\",\"2\":\"\\u0041\\u00e9\"}",
    )
    .expect("standard JSON escapes must load");
    assert_eq!(
        store.get_prefix_for_guild(1),
        "a\tb\nc\rd\u{0008}e\u{000C}f/g"
    );
    assert_eq!(store.get_prefix_for_guild(2), "A\u{00e9}");
}

#[test]
fn load_doc_rejects_lone_surrogate() {
    assert!(PrefixStore::load_doc("{\"1\":\"\\uD800\"}").is_none());
    assert!(PrefixStore::load_doc("{\"1\":\"\\uZZZZ\"}").is_none());
}

#[test]
fn load_doc_last_duplicate_wins() {
    let store = PrefixStore::load_doc("{\"1\":\"a\",\"1\":\"b\"}").expect("must load");
    assert_eq!(store.get_prefix_for_guild(1), "b");
}
