use jenkins::cookie::CookieStore;

#[test]
fn header_reflects_last_write_per_key() {
    // The same key written twice in one batch: the later value wins, both in
    // the header text and in single-value lookups.
    let mut store = CookieStore::new(None, None);
    let updates = vec![
        ("a".to_string(), "1".to_string()),
        ("jwt_token".to_string(), "x".to_string()),
        ("a".to_string(), "2".to_string()),
    ];
    store.update_from_pairs(&updates);
    assert_eq!(store.get_value("a"), Some("2".to_string()));
    assert_eq!(store.get_value("jwt_token"), Some("x".to_string()));
    let header = store.header_value().unwrap();
    assert!(header.contains("a=2"));
    assert!(!header.contains("a=1"));

    // A later batch overrides an earlier one.
    let updates = vec![("a".to_string(), "3".to_string())];
    store.update_from_pairs(&updates);
    assert_eq!(store.get_value("a"), Some("3".to_string()));
    assert_eq!(store.get_value("jwt_token"), Some("x".to_string()));
}

#[test]
fn persistence_fires_once_per_distinct_subset() {
    let mut store = CookieStore::new(None, Some(vec!["jwt_token".to_string()]));

    // First value of the persisted key: a write is requested.
    let updates = vec![
        ("JSESSIONID".to_string(), "transient".to_string()),
        ("jwt_token".to_string(), "x".to_string()),
    ];
    let directive = store.update_from_pairs(&updates);
    assert_eq!(directive, Some("jwt_token=x".to_string()));
    store.confirm_persisted(directive.unwrap());

    // The same subset again: no write. The transient key changing does not
    // count as a change of the persisted subset.
    let updates = vec![
        ("JSESSIONID".to_string(), "other".to_string()),
        ("jwt_token".to_string(), "x".to_string()),
    ];
    assert_eq!(store.update_from_pairs(&updates), None);

    // A new value of the persisted key: one more write.
    let updates = vec![("jwt_token".to_string(), "y".to_string())];
    assert_eq!(store.update_from_pairs(&updates), Some("jwt_token=y".to_string()));
}

#[test]
fn initial_cookie_is_parsed_and_served() {
    let store = CookieStore::new(Some("a=1; b = 2 ;c"), None);
    assert_eq!(store.get_value("a"), Some("1".to_string()));
    assert_eq!(store.get_value("b"), Some("2".to_string()));
    // A piece without `=` denotes no cookie.
    assert_eq!(store.get_value("c"), None);
    // The header text is handed out as configured.
    assert_eq!(store.header_value(), Some("a=1; b = 2 ;c".to_string()));
}

#[test]
fn set_cookie_values_are_merged_without_attributes() {
    let mut store = CookieStore::new(Some("a=1"), None);
    let raw = vec![
        "sid=abc; Path=/; HttpOnly".to_string(),
        "a=9; Max-Age=3600".to_string(),
    ];
    store.update_from_set_cookie(&raw);
    assert_eq!(store.get_value("sid"), Some("abc".to_string()));
    assert_eq!(store.get_value("a"), Some("9".to_string()));
}

#[test]
fn parse_cookie_pair_reads_first_piece() {
    let parsed = CookieStore::parse_cookie_pair("name=value; Path=/").unwrap();
    assert_eq!(parsed.0, "name");
    assert_eq!(parsed.1, "value");
    assert!(CookieStore::parse_cookie_pair("just-attributes").is_none());
    assert!(CookieStore::parse_cookie_pair("=nameless").is_none());
}

#[test]
fn junk_updates_are_dropped() {
    let mut store = CookieStore::new(None, None);
    let updates = vec![
        ("".to_string(), "v".to_string()),
        ("bad;key".to_string(), "v".to_string()),
        ("ok".to_string(), "fine".to_string()),
    ];
    store.update_from_pairs(&updates);
    assert_eq!(store.get_value("ok"), Some("fine".to_string()));
    assert_eq!(store.get_value(""), None);
    assert_eq!(store.header_value(), Some("ok=fine".to_string()));
}

#[test]
fn persisted_subset_is_key_sorted() {
    // The persisted subset is serialized with sorted keys: the same subset
    // always compares equal, whatever order the updates arrived in.
    let mut store = CookieStore::new(
        None,
        Some(vec!["zz_token".to_string(), "aa_token".to_string()]),
    );
    let updates = vec![
        ("zz_token".to_string(), "2".to_string()),
        ("aa_token".to_string(), "1".to_string()),
    ];
    let directive = store.update_from_pairs(&updates);
    assert_eq!(directive, Some("aa_token=1; zz_token=2".to_string()));
    store.confirm_persisted(directive.unwrap());

    // The same two values written in the opposite order: no new write.
    let updates = vec![
        ("aa_token".to_string(), "1".to_string()),
        ("zz_token".to_string(), "2".to_string()),
    ];
    assert_eq!(store.update_from_pairs(&updates), None);
}

#[test]
fn initial_subset_counts_as_persisted() {
    // The filtered initial cookie is the baseline: an update that reproduces
    // it triggers no redundant write.
    let mut store = CookieStore::new(
        Some("jwt_token=x; JSESSIONID=temp"),
        Some(vec!["jwt_token".to_string()]),
    );
    let updates = vec![("jwt_token".to_string(), "x".to_string())];
    assert_eq!(store.update_from_pairs(&updates), None);
    // A different value does get written.
    let updates = vec![("jwt_token".to_string(), "y".to_string())];
    assert_eq!(store.update_from_pairs(&updates), Some("jwt_token=y".to_string()));
}
