use ice_finder::entries::{build_choices, collect_files, is_lib_rs, sort_entries, FileEntry};
use ice_finder::history::History;
use ice_finder::rel_path::RelPath;

fn rel(parts: &[&str]) -> RelPath {
    RelPath { parts: parts.iter().map(|p| p.to_string()).collect() }
}

fn names(entries: &[FileEntry]) -> Vec<Vec<String>> {
    entries.iter().map(|e| e.relative.parts.clone()).collect()
}

#[test]
fn lib_rs_is_not_selectable() {
    let e = FileEntry::new(rel(&["src", "lib.rs"]), "/c/src/lib.rs".to_string());
    assert!(!e.selectable);
    let e = FileEntry::new(rel(&["src", "a.rs"]), "/c/src/a.rs".to_string());
    assert!(e.selectable);
    assert!(is_lib_rs(&rel(&["src", "lib.rs"])));
    assert!(!is_lib_rs(&rel(&["src", "lib.rs", "x"])));
}

#[test]
fn collect_files_orders_by_components() {
    let walked = vec![
        (rel(&["src", "b.rs"]), "/c/src/b.rs".to_string()),
        (rel(&["src", "a.rs"]), "/c/src/a.rs".to_string()),
        (rel(&["src", "a", "x.rs"]), "/c/src/a/x.rs".to_string()),
        (rel(&["src", "lib.rs"]), "/c/src/lib.rs".to_string()),
        (rel(&["src", "B.rs"]), "/c/src/B.rs".to_string()),
    ];
    let entries = collect_files(walked);
    assert_eq!(
        names(&entries),
        vec![
            vec!["src".to_string(), "B.rs".to_string()],
            vec!["src".to_string(), "a".to_string(), "x.rs".to_string()],
            vec!["src".to_string(), "a.rs".to_string()],
            vec!["src".to_string(), "b.rs".to_string()],
            vec!["src".to_string(), "lib.rs".to_string()],
        ]
    );
    let selectable: Vec<bool> = entries.iter().map(|e| e.selectable).collect();
    assert_eq!(selectable, vec![true, true, true, true, false]);
}

#[test]
fn sort_entries_keeps_equal_paths_in_order() {
    let entries = vec![
        FileEntry::new(rel(&["z"]), "first".to_string()),
        FileEntry::new(rel(&["a"]), "a".to_string()),
        FileEntry::new(rel(&["z"]), "second".to_string()),
    ];
    let sorted = sort_entries(entries);
    let canon: Vec<&str> = sorted.iter().map(|e| e.canonical.as_str()).collect();
    assert_eq!(canon, vec!["a", "first", "second"]);
}

#[test]
fn prefix_path_comes_first() {
    assert!(rel(&["src"]).precedes(&rel(&["src", "a.rs"])));
    assert!(!rel(&["src", "a.rs"]).precedes(&rel(&["src"])));
    assert!(!rel(&["src"]).precedes(&rel(&["src"])));
}

#[test]
fn build_choices_labels_from_history() {
    let entries = collect_files(vec![
        (rel(&["src", "lib.rs"]), "/c/src/lib.rs".to_string()),
        (rel(&["src", "a.rs"]), "/c/src/a.rs".to_string()),
        (rel(&["src", "b.rs"]), "/c/src/b.rs".to_string()),
        (rel(&["src", "m", "c.rs"]), "/c/src/m/c.rs".to_string()),
    ]);
    let mut history = History::new();
    history.insert("/c/src/a.rs", true);
    history.insert("/c/src/b.rs", false);
    let (choices, has_choices) = build_choices(&entries, &history, '/');
    assert!(has_choices);
    let got: Vec<(String, usize)> = choices.into_iter().map(|c| (c.key, c.value)).collect();
    assert_eq!(
        got,
        vec![
            ("ICE_FOUND /c/src/a.rs (src/a.rs)".to_string(), 0),
            ("NO_ICE /c/src/b.rs (src/b.rs)".to_string(), 1),
            ("UNKNOWN /c/src/m/c.rs (src/m/c.rs)".to_string(), 3),
        ]
    );
}

#[test]
fn build_choices_uses_separator() {
    let entries = collect_files(vec![(rel(&["src", "a.rs"]), "D:\\c\\src\\a.rs".to_string())]);
    let (choices, _) = build_choices(&entries, &History::new(), '\\');
    assert_eq!(choices[0].key, "UNKNOWN D:\\c\\src\\a.rs (src\\a.rs)");
}

#[test]
fn build_choices_none_when_only_lib_rs() {
    let entries = collect_files(vec![(rel(&["src", "lib.rs"]), "/c/src/lib.rs".to_string())]);
    let (choices, has_choices) = build_choices(&entries, &History::new(), '/');
    assert!(choices.is_empty());
    assert!(!has_choices);
}
