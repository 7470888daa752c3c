use nadamark::linkwarden::{
    adapt_collections, parse_created_date, parse_linkwarden_json, ImportError, RawCollection,
    RawLink,
};

#[test]
fn one_collection_with_one_link() {
    let json = r#"{"collections":[{"id":1,"name":"C1","parentId":null,"links":[{"url":"http://a","name":"A"}]}]}"#;
    let (folders, bookmarks) = parse_linkwarden_json(json, 1, 1, 42).unwrap();
    assert_eq!(folders.len(), 1);
    assert_eq!(folders[0].name, "C1");
    assert_eq!(folders[0].parent_id, None);
    assert_eq!(folders[0].id, 1);
    assert_eq!(bookmarks.len(), 1);
    assert_eq!(bookmarks[0].name, "A");
    assert_eq!(bookmarks[0].url, "http://a");
    assert_eq!(bookmarks[0].folder_id, Some(folders[0].id));
    assert!(!folders[0].favorite);
    assert!(!bookmarks[0].favorite);
}

#[test]
fn malformed_json_aborts_the_import() {
    let r = parse_linkwarden_json("{not json", 1, 1, 0);
    assert_eq!(r.err(), Some(ImportError::InvalidJson));
}

#[test]
fn exhausted_id_space_aborts_the_import() {
    let json = r#"{"collections":[{"id":1,"name":"c","parentId":null,"links":[{"url":"http://a","name":"A"}]}]}"#;
    let r = parse_linkwarden_json(json, i32::MAX, 1, 0);
    assert_eq!(r.err(), Some(ImportError::TooManyItems));
    let r2 = parse_linkwarden_json(json, 1, i32::MAX, 0);
    assert_eq!(r2.err(), Some(ImportError::TooManyItems));
}

#[test]
fn current_time_is_after_the_library_was_written() {
    // A sanity check on the clock wrappers: the current time lies well
    // after 2020 and within the representable range.
    let now = nadamark::timestamps::current_unix_time();
    assert!(now > 1_577_836_800);
    assert!(now < 253_402_300_799);
}

#[test]
fn external_parent_ids_are_remapped() {
    let json = r#"{"collections":[
        {"id":100,"name":"parent","parentId":null,"links":[]},
        {"id":200,"name":"child","parentId":100,"links":[]}
    ]}"#;
    let (folders, _) = parse_linkwarden_json(json, 5, 1, 0).unwrap();
    assert_eq!(folders.len(), 2);
    assert_eq!(folders[0].id, 5);
    assert_eq!(folders[1].id, 6);
    assert_eq!(folders[1].parent_id, Some(5));
}

#[test]
fn a_parent_appearing_later_still_resolves() {
    let json = r#"{"collections":[
        {"id":2,"name":"child","parentId":9,"links":[]},
        {"id":9,"name":"parent","parentId":null,"links":[]}
    ]}"#;
    let (folders, _) = parse_linkwarden_json(json, 1, 1, 0).unwrap();
    assert_eq!(folders[0].parent_id, Some(2));
    assert_eq!(folders[1].parent_id, None);
}

#[test]
fn unknown_parent_reference_becomes_root() {
    let json = r#"{"collections":[{"id":1,"name":"c","parentId":77,"links":[]}]}"#;
    let (folders, _) = parse_linkwarden_json(json, 1, 1, 0).unwrap();
    assert_eq!(folders[0].parent_id, None);
}

#[test]
fn blank_and_missing_link_names_get_the_placeholder() {
    let json = r#"{"collections":[{"id":1,"name":"c","parentId":null,"links":[
        {"url":"http://a","name":"  "},
        {"url":"http://b"},
        {"url":"http://c","name":"kept"}
    ]}]}"#;
    let (_, bookmarks) = parse_linkwarden_json(json, 1, 1, 0).unwrap();
    assert_eq!(bookmarks.len(), 3);
    assert_eq!(bookmarks[0].name, "Missing Name");
    assert_eq!(bookmarks[1].name, "Missing Name");
    assert_eq!(bookmarks[2].name, "kept");
}

#[test]
fn links_without_url_are_dropped() {
    let json = r#"{"collections":[{"id":1,"name":"c","parentId":null,"links":[
        {"name":"no url"},
        {"url":"http://ok","name":"ok"}
    ]}]}"#;
    let (_, bookmarks) = parse_linkwarden_json(json, 1, 1, 0).unwrap();
    assert_eq!(bookmarks.len(), 1);
    assert_eq!(bookmarks[0].name, "ok");
}

#[test]
fn created_at_parses_rfc3339_or_falls_back() {
    assert_eq!(parse_created_date(Some("2021-01-01T00:00:00Z"), 5), 1609459200);
    assert_eq!(parse_created_date(Some("not a date"), 5), 5);
    assert_eq!(parse_created_date(None, 5), 5);
    let json = r#"{"collections":[{"id":1,"name":"c","parentId":null,"createdAt":"2021-01-01T00:00:00Z","links":[{"url":"http://a","name":"A"}]}]}"#;
    let (folders, bookmarks) = parse_linkwarden_json(json, 1, 1, 5).unwrap();
    assert_eq!(folders[0].created, 1609459200);
    // Links take the collection's creation time.
    assert_eq!(bookmarks[0].created, 1609459200);
}

#[test]
fn missing_created_at_uses_now() {
    let json = r#"{"collections":[{"id":1,"name":"c","parentId":null,"links":[]}]}"#;
    let (folders, _) = parse_linkwarden_json(json, 1, 1, 123).unwrap();
    assert_eq!(folders[0].created, 123);
}

#[test]
fn adapt_handles_duplicate_external_ids_last_wins() {
    let cols = vec![
        RawCollection {
            ext_id: 1,
            name: "first".to_string(),
            parent_ext: None,
            created: 0,
            links: vec![],
        },
        RawCollection {
            ext_id: 1,
            name: "second".to_string(),
            parent_ext: None,
            created: 0,
            links: vec![],
        },
        RawCollection {
            ext_id: 3,
            name: "child".to_string(),
            parent_ext: Some(1),
            created: 0,
            links: vec![RawLink { url: "http://x".to_string(), name: None }],
        },
    ];
    let (folders, bookmarks) = adapt_collections(&cols, 10, 20);
    assert_eq!(folders[2].parent_id, Some(11));
    assert_eq!(bookmarks[0].id, 20);
    assert_eq!(bookmarks[0].folder_id, Some(12));
}
