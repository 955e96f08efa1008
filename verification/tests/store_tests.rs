use bmark::{is_setup_done, BMark, BMarkError, Bookmark, ListColumn, OutputType, TagMode};

/// A database file path of its own for one test, so runs do not
/// interfere with one another.
fn fresh_db_path(tag: &str) -> String {
    let secs = std::time::SystemTime::now()
        .duration_since(std::time::UNIX_EPOCH)
        .unwrap()
        .as_secs();
    let ts = uuid::Timestamp::from_unix(uuid::NoContext, secs, 0);
    let id = uuid::Uuid::new_v7(ts).simple().to_string();
    format!("/tmp/bmark_test_{}_{}.db", tag, id)
}

fn find_by_url<'a>(records: &'a [Bookmark], url: &str) -> &'a Bookmark {
    records
        .iter()
        .find(|b| b.url == url)
        .expect("a record with this url should be listed")
}

#[test]
fn test_setup_then_ready() {
    let mut store = BMark::new_in_memory().unwrap();
    store.setup().unwrap();
    // a second setup is a misuse: the schema already exists, and the
    // failure leaves the store untouched
    assert!(matches!(store.setup(), Err(BMarkError::Schema(_))));
    let records = store
        .list(OutputType::All, ListColumn::All, TagMode::Any)
        .unwrap();
    assert_eq!(records.len(), 0);
}

#[test]
fn test_is_setup_done_lifecycle() {
    let path = fresh_db_path("lifecycle");
    // fresh path: not set up, and the check must not create the file
    assert_eq!(is_setup_done(&path).unwrap(), false);
    assert_eq!(is_setup_done(&path).unwrap(), false);
    let mut store = BMark::new(&path).unwrap();
    // file exists but has no tables yet
    assert_eq!(is_setup_done(&path).unwrap(), false);
    store.setup().unwrap();
    assert_eq!(is_setup_done(&path).unwrap(), true);
}

#[test]
fn test_insert_requires_url() {
    let mut store = BMark::new_in_memory().unwrap();
    store.setup().unwrap();
    let r = store.insert("", None, vec!["a"], None, None);
    assert!(matches!(r, Err(BMarkError::Validation(_))));
    let records = store
        .list(OutputType::All, ListColumn::All, TagMode::Any)
        .unwrap();
    assert_eq!(records.len(), 0);
}

#[test]
fn test_insert_and_list_all_columns() {
    let mut store = BMark::new_in_memory().unwrap();
    store.setup().unwrap();
    store
        .insert(
            "https://example.org",
            Some("example"),
            vec!["reading", "reference"],
            Some("a note"),
            Some("docs/web"),
        )
        .unwrap();
    let records = store
        .list(OutputType::All, ListColumn::All, TagMode::Any)
        .unwrap();
    assert_eq!(records.len(), 1);
    let b = &records[0];
    assert_eq!(b.url, "https://example.org");
    assert_eq!(b.name.as_deref(), Some("example"));
    assert_eq!(b.tag, vec!["reading".to_string(), "reference".to_string()]);
    assert_eq!(b.desc.as_deref(), Some("a note"));
    assert_eq!(b.category.as_deref(), Some("docs/web"));
}

#[test]
fn test_shared_tag_creates_one_row() {
    let path = fresh_db_path("shared_tag");
    let mut store = BMark::new(&path).unwrap();
    store.setup().unwrap();
    store.insert("u1", None, vec!["a", "b"], None, None).unwrap();
    store.insert("u2", None, vec!["b", "c"], None, None).unwrap();

    // look into the stored tables directly: exactly one tag row is named
    // "b", and it is referenced by two association rows
    let conn = rusqlite::Connection::open(&path).unwrap();
    let b_rows: i64 = conn
        .query_row("SELECT COUNT(*) FROM tag WHERE name='b'", (), |row| row.get(0))
        .unwrap();
    assert_eq!(b_rows, 1);
    let b_id: String = conn
        .query_row("SELECT id FROM tag WHERE name='b'", (), |row| row.get(0))
        .unwrap();
    // identifiers are hyphenated version-7 UUIDs: 36 characters with
    // the version nibble at the head of the third group
    assert_eq!(b_id.len(), 36);
    assert_eq!(&b_id[14..15], "7");
    let b_refs: i64 = conn
        .query_row(
            "SELECT COUNT(*) FROM bmark_tag WHERE tag_id=?1",
            (&b_id,),
            |row| row.get(0),
        )
        .unwrap();
    assert_eq!(b_refs, 2);
    let tag_rows: i64 = conn
        .query_row("SELECT COUNT(*) FROM tag", (), |row| row.get(0))
        .unwrap();
    assert_eq!(tag_rows, 3);

    // and through the reader: each bookmark still carries its own tags
    let records = store
        .list(OutputType::All, ListColumn::All, TagMode::Any)
        .unwrap();
    assert_eq!(records.len(), 2);
    assert_eq!(find_by_url(&records, "u1").tag, vec!["a", "b"]);
    assert_eq!(find_by_url(&records, "u2").tag, vec!["b", "c"]);
}

#[test]
fn test_zero_tag_bookmarks_list_once_each() {
    let mut store = BMark::new_in_memory().unwrap();
    store.setup().unwrap();
    store.insert("u1", None, vec![], None, None).unwrap();
    store.insert("u2", None, vec![], None, None).unwrap();
    store.insert("u3", None, vec![], None, None).unwrap();
    let records = store
        .list(OutputType::All, ListColumn::Tag, TagMode::Any)
        .unwrap();
    assert_eq!(records.len(), 3);
    for b in &records {
        assert_eq!(b.tag.len(), 0);
    }
    assert_eq!(find_by_url(&records, "u1").tag.len(), 0);
    assert_eq!(find_by_url(&records, "u2").tag.len(), 0);
    assert_eq!(find_by_url(&records, "u3").tag.len(), 0);
}

#[test]
fn test_tag_filter_all_and_any() {
    let mut store = BMark::new_in_memory().unwrap();
    store.setup().unwrap();
    store.insert("both", None, vec!["a", "b"], None, None).unwrap();
    store.insert("only_a", None, vec!["a"], None, None).unwrap();
    store.insert("other", None, vec!["c"], None, None).unwrap();

    let wanted = OutputType::Tag(vec!["a".to_string(), "b".to_string()]);
    let strict = store
        .list(wanted.clone(), ListColumn::All, TagMode::All)
        .unwrap();
    assert_eq!(strict.len(), 1);
    assert_eq!(strict[0].url, "both");

    let loose = store
        .list(wanted, ListColumn::All, TagMode::Any)
        .unwrap();
    assert_eq!(loose.len(), 2);
    find_by_url(&loose, "both");
    find_by_url(&loose, "only_a");
}

#[test]
fn test_failed_insert_changes_nothing() {
    let path = fresh_db_path("atomic");
    let mut store = BMark::new(&path).unwrap();
    store.setup().unwrap();
    store.insert("u1", None, vec!["a"], None, None).unwrap();

    // a duplicate tag name inside one request hits the uniqueness
    // constraint mid-transaction; the whole insert must roll back
    let r = store.insert("u2", None, vec!["x", "x"], None, None);
    assert!(matches!(r, Err(BMarkError::Constraint(_))));

    let conn = rusqlite::Connection::open(&path).unwrap();
    let bmarks: i64 = conn
        .query_row("SELECT COUNT(*) FROM bmark", (), |row| row.get(0))
        .unwrap();
    let tags: i64 = conn
        .query_row("SELECT COUNT(*) FROM tag", (), |row| row.get(0))
        .unwrap();
    let links: i64 = conn
        .query_row("SELECT COUNT(*) FROM bmark_tag", (), |row| row.get(0))
        .unwrap();
    assert_eq!(bmarks, 1);
    assert_eq!(tags, 1);
    assert_eq!(links, 1);

    // the store remains usable after the rollback
    store.insert("u3", None, vec!["y"], None, None).unwrap();
    let records = store
        .list(OutputType::All, ListColumn::All, TagMode::Any)
        .unwrap();
    assert_eq!(records.len(), 2);
}

#[test]
fn test_column_projection() {
    let mut store = BMark::new_in_memory().unwrap();
    store.setup().unwrap();
    store
        .insert("u1", Some("name1"), vec!["t1"], Some("desc1"), Some("catg1"))
        .unwrap();

    let urls = store
        .list(OutputType::All, ListColumn::Url, TagMode::Any)
        .unwrap();
    assert_eq!(urls.len(), 1);
    assert_eq!(urls[0].url, "u1");
    assert!(urls[0].name.is_none());
    assert_eq!(urls[0].tag.len(), 0);
    assert!(urls[0].desc.is_none());
    assert!(urls[0].category.is_none());

    let descs = store
        .list(OutputType::All, ListColumn::Desc, TagMode::Any)
        .unwrap();
    assert_eq!(descs[0].url, "u1");
    assert_eq!(descs[0].desc.as_deref(), Some("desc1"));
    assert!(descs[0].name.is_none());

    let tags = store
        .list(OutputType::All, ListColumn::Tag, TagMode::Any)
        .unwrap();
    assert_eq!(tags[0].url, "u1");
    assert_eq!(tags[0].tag, vec!["t1"]);
    assert!(tags[0].desc.is_none());
}

#[test]
fn test_duplicate_urls_are_permitted() {
    let mut store = BMark::new_in_memory().unwrap();
    store.setup().unwrap();
    store.insert("same", None, vec![], None, None).unwrap();
    store.insert("same", None, vec![], None, None).unwrap();
    let records = store
        .list(OutputType::All, ListColumn::All, TagMode::Any)
        .unwrap();
    assert_eq!(records.len(), 2);
}

#[test]
fn test_unusable_path_is_config_error() {
    let r = BMark::new("/nonexistent_dir_for_bmark_tests/store.db");
    assert!(matches!(r, Err(BMarkError::Config(_))));
}

#[test]
fn test_write_before_setup_fails_cleanly() {
    let mut store = BMark::new_in_memory().unwrap();
    // no setup: the tables are missing, so the write fails and rolls back
    let r = store.insert("u1", None, vec!["a"], None, None);
    assert!(matches!(r, Err(BMarkError::Backend(_))));
    // the handle stays usable: setting up afterwards succeeds
    store.setup().unwrap();
    store.insert("u1", None, vec!["a"], None, None).unwrap();
    let records = store
        .list(OutputType::All, ListColumn::All, TagMode::Any)
        .unwrap();
    assert_eq!(records.len(), 1);
}
