use ice_finder::history::History;

#[test]
fn history_starts_empty() {
    let h = History::new();
    assert_eq!(h.get("/a"), None);
    assert!(h.entries().is_empty());
}

#[test]
fn history_get_after_insert() {
    let mut h = History::new();
    h.insert("/a/lib.rs", true);
    h.insert("/a/b.rs", false);
    assert_eq!(h.get("/a/lib.rs"), Some(true));
    assert_eq!(h.get("/a/b.rs"), Some(false));
    assert_eq!(h.get("/a/c.rs"), None);
}

#[test]
fn history_insert_replaces() {
    let mut h = History::new();
    h.insert("/a", true);
    h.insert("/a", false);
    assert_eq!(h.get("/a"), Some(false));
    assert_eq!(h.entries().len(), 1);
}

#[test]
fn history_record_run_sets_all() {
    let mut h = History::new();
    h.insert("/keep", true);
    h.insert("/x", true);
    h.record_run(&vec!["/x".to_string(), "/y".to_string()], false);
    assert_eq!(h.get("/x"), Some(false));
    assert_eq!(h.get("/y"), Some(false));
    assert_eq!(h.get("/keep"), Some(true));
    assert_eq!(h.entries().len(), 3);
}
