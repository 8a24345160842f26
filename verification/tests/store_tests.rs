use linkstash::Link;
use linkstash::StashError;
use linkstash::delete_link;
use linkstash::list_all;
use linkstash::load_store;
use linkstash::open_link;
use linkstash::save_store;
use linkstash::stash_link;

fn mk(url: &str, title: &str) -> Link {
    Link::new(url.to_string(), title.to_string())
}

#[test]
fn save_empty_store() {
    let store: Vec<Link> = Vec::new();
    assert_eq!(save_store(&store), "[]\n");
}

#[test]
fn save_one_record_exact_text() {
    let store = vec![mk("https://a.test", "A")];
    let expected = "[\n  {\n    \"url\": \"https://a.test\",\n    \"title\": \"A\"\n  }\n]\n";
    assert_eq!(save_store(&store), expected);
}

#[test]
fn save_two_records_exact_text() {
    let store = vec![mk("https://a.test", "A"), mk("https://b.test", "B")];
    let expected = "[\n  {\n    \"url\": \"https://a.test\",\n    \"title\": \"A\"\n  },\n  {\n    \"url\": \"https://b.test\",\n    \"title\": \"B\"\n  }\n]\n";
    assert_eq!(save_store(&store), expected);
}

#[test]
fn load_after_save_returns_store() {
    let store = vec![mk("https://a.test", "A"), mk("https://b.test", "B"), mk("c", "")];
    let text = save_store(&store);
    let loaded = load_store(Some(&text));
    assert_eq!(loaded.len(), 3);
    for i in 0..3 {
        assert_eq!(loaded[i].url, store[i].url);
        assert_eq!(loaded[i].title, store[i].title);
    }
}

#[test]
fn load_missing_file_is_empty() {
    let loaded = load_store(None);
    assert!(loaded.is_empty());
}

#[test]
fn load_empty_text_is_empty() {
    let loaded = load_store(Some(""));
    assert!(loaded.is_empty());
}

#[test]
fn load_garbage_is_empty() {
    assert!(load_store(Some("not json at all")).is_empty());
    assert!(load_store(Some("[ { \"url\": \"a\" } ]")).is_empty());
    assert!(load_store(Some("[}")).is_empty());
    assert!(load_store(Some("[] trailing")).is_empty());
    // a raw control character inside a string is refused
    assert!(load_store(Some("[ { \"url\": \"a\u{1}\", \"title\": \"t\" } ]")).is_empty());
    // an unknown escape is refused
    assert!(load_store(Some("[ { \"url\": \"a\\x\", \"title\": \"t\" } ]")).is_empty());
    // a truncated hex escape is refused
    assert!(load_store(Some("[ { \"url\": \"\\u00\", \"title\": \"t\" } ]")).is_empty());
}

#[test]
fn load_accepts_other_whitespace() {
    let text = " [ { \"url\" : \"https://a.test\" , \"title\" : \"A\" } ] ";
    let loaded = load_store(Some(text));
    assert_eq!(loaded.len(), 1);
    assert_eq!(loaded[0].url, "https://a.test");
    assert_eq!(loaded[0].title, "A");
}

#[test]
fn load_decodes_escapes() {
    let text = "[\n  {\n    \"url\": \"\\u0041\\t\",\n    \"title\": \"q\\\"b\\\\n\\n\"\n  }\n]\n";
    let loaded = load_store(Some(text));
    assert_eq!(loaded.len(), 1);
    assert_eq!(loaded[0].url, "A\t");
    assert_eq!(loaded[0].title, "q\"b\\n\n");
}

#[test]
fn escaped_content_round_trips() {
    let store = vec![
        mk("https://a.test/?q=\"x\"&p=\\y", "tab\there"),
        mk("line\nbreak", "ctrl\u{1f}char"),
        mk("unicode \u{e9}\u{4e16}", ""),
    ];
    let text = save_store(&store);
    let loaded = load_store(Some(&text));
    assert_eq!(loaded.len(), store.len());
    for i in 0..store.len() {
        assert_eq!(loaded[i].url, store[i].url);
        assert_eq!(loaded[i].title, store[i].title);
    }
}

#[test]
fn control_chars_use_hex_escapes() {
    let store = vec![mk("a\u{1f}b", "c\u{8}d")];
    let text = save_store(&store);
    assert!(text.contains("a\\u001fb"));
    assert!(text.contains("c\\bd"));
}

#[test]
fn save_load_save_is_stable() {
    let texts = [
        "[\n  {\n    \"url\": \"a\",\n    \"title\": \"A\"\n  }\n]\n",
        " [ { \"url\" : \"a\" , \"title\" : \"A\" } ] ",
        "",
        "garbage",
    ];
    for start in texts {
        let once = save_store(&load_store(Some(start)));
        let twice = save_store(&load_store(Some(&once)));
        assert_eq!(once, twice);
    }
}

#[test]
fn stash_appends_on_success() {
    let mut store = vec![mk("a", "A")];
    let r = stash_link(&mut store, "b".to_string(), Some("B".to_string()));
    assert!(r.is_ok());
    assert_eq!(store.len(), 2);
    assert_eq!(store[1].url, "b");
    assert_eq!(store[1].title, "B");
}

#[test]
fn stash_reports_enrichment_failure_without_mutation() {
    let mut store = vec![mk("a", "A")];
    let r = stash_link(&mut store, "b".to_string(), None);
    assert!(matches!(r, Err(StashError::EnrichmentFailure)));
    assert_eq!(store.len(), 1);
    assert_eq!(store[0].url, "a");
}

#[test]
fn delete_index_one_removes_newest() {
    let mut store = vec![mk("old", "O"), mk("mid", "M"), mk("new", "N")];
    let r = delete_link(&mut store, 1);
    let removed = r.unwrap();
    assert_eq!(removed.url, "new");
    assert_eq!(store.len(), 2);
    assert_eq!(store[0].url, "old");
    assert_eq!(store[1].url, "mid");
}

#[test]
fn delete_index_length_removes_oldest() {
    let mut store = vec![mk("old", "O"), mk("mid", "M"), mk("new", "N")];
    let r = delete_link(&mut store, 3);
    let removed = r.unwrap();
    assert_eq!(removed.url, "old");
    assert_eq!(store.len(), 2);
    assert_eq!(store[0].url, "mid");
    assert_eq!(store[1].url, "new");
}

#[test]
fn delete_rejects_zero_and_too_large() {
    let mut store = vec![mk("a", "A")];
    assert!(matches!(delete_link(&mut store, 0), Err(StashError::InvalidIndex)));
    assert_eq!(store.len(), 1);
    assert!(matches!(delete_link(&mut store, 2), Err(StashError::InvalidIndex)));
    assert_eq!(store.len(), 1);
    assert_eq!(store[0].url, "a");
}

#[test]
fn open_resolves_display_index() {
    let store = vec![mk("old", "O"), mk("new", "N")];
    assert_eq!(open_link(&store, 1).unwrap().url, "new");
    assert_eq!(open_link(&store, 2).unwrap().url, "old");
}

#[test]
fn open_rejects_zero_and_too_large() {
    let store = vec![mk("a", "A")];
    assert!(matches!(open_link(&store, 0), Err(StashError::InvalidIndex)));
    assert!(matches!(open_link(&store, 2), Err(StashError::InvalidIndex)));
    let empty: Vec<Link> = Vec::new();
    assert!(matches!(open_link(&empty, 1), Err(StashError::InvalidIndex)));
}

#[test]
fn list_is_newest_first() {
    let store = vec![mk("old", "O"), mk("mid", "M"), mk("new", "N")];
    let listed = list_all(&store);
    assert_eq!(listed.len(), 3);
    assert_eq!(listed[0].url, "new");
    assert_eq!(listed[1].url, "mid");
    assert_eq!(listed[2].url, "old");
}

#[test]
fn list_of_empty_store_is_empty() {
    let store: Vec<Link> = Vec::new();
    assert!(list_all(&store).is_empty());
}

#[test]
fn full_scenario() {
    // empty store; add "https://a.test" enriched as "A"
    let mut store = load_store(None);
    assert!(store.is_empty());
    stash_link(&mut store, "https://a.test".to_string(), Some("A".to_string())).unwrap();
    assert_eq!(store.len(), 1);
    assert_eq!(store[0].url, "https://a.test");
    assert_eq!(store[0].title, "A");
    // add "https://b.test" enriched as "B", going through a save and a load
    let mut store = load_store(Some(&save_store(&store)));
    stash_link(&mut store, "https://b.test".to_string(), Some("B".to_string())).unwrap();
    assert_eq!(store.len(), 2);
    // the listing shows B first, then A
    let listed = list_all(&store);
    assert_eq!(listed[0].title, "B");
    assert_eq!(listed[0].url, "https://b.test");
    assert_eq!(listed[1].title, "A");
    assert_eq!(listed[1].url, "https://a.test");
    // delete display index 1 removes the b record
    let removed = delete_link(&mut store, 1).unwrap();
    assert_eq!(removed.url, "https://b.test");
    assert_eq!(store.len(), 1);
    // open display index 1 now resolves to the a record
    assert_eq!(open_link(&store, 1).unwrap().url, "https://a.test");
}
