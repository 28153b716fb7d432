use ice_finder::module_walk::{module_candidates, source_candidates, ModuleWalk};
use ice_finder::rel_path::RelPath;

fn rel(parts: &[&str]) -> RelPath {
    RelPath { parts: parts.iter().map(|p| p.to_string()).collect() }
}

#[test]
fn candidates_sit_next_to_the_declaring_file() {
    let (a, b) = module_candidates(&rel(&["src", "lib.rs"]), &"foo".to_string());
    assert_eq!(a.parts, vec!["src".to_string(), "foo.rs".to_string()]);
    assert_eq!(b.parts, vec!["src".to_string(), "foo".to_string(), "mod.rs".to_string()]);
}

#[test]
fn candidates_of_a_top_level_file() {
    let (a, b) = module_candidates(&rel(&["lib.rs"]), &"m".to_string());
    assert_eq!(a.parts, vec!["m.rs".to_string()]);
    assert_eq!(b.parts, vec!["m".to_string(), "mod.rs".to_string()]);
}

#[test]
fn source_candidates_follow_declarations() {
    let c = source_candidates(&rel(&["src", "a", "mod.rs"]), "mod x;\npub mod y;\n");
    let got: Vec<Vec<String>> = c.into_iter().map(|p| p.parts).collect();
    let want: Vec<Vec<&str>> = vec![
        vec!["src", "a", "x.rs"],
        vec!["src", "a", "x", "mod.rs"],
        vec!["src", "a", "y.rs"],
        vec!["src", "a", "y", "mod.rs"],
    ];
    let want: Vec<Vec<String>> =
        want.into_iter().map(|v| v.into_iter().map(|s| s.to_string()).collect()).collect();
    assert_eq!(got, want);
}

#[test]
fn offer_copies_each_path_once() {
    let mut w = ModuleWalk::new();
    assert!(w.offer(rel(&["src", "lib.rs"])));
    assert!(w.offer(rel(&["src", "a.rs"])));
    assert!(!w.offer(rel(&["src", "lib.rs"])));
    assert!(w.is_copied(&rel(&["src", "a.rs"])));
    assert!(!w.is_copied(&rel(&["src", "b.rs"])));
    assert_eq!(w.pop().map(|p| p.parts), Some(vec!["src".to_string(), "a.rs".to_string()]));
    assert_eq!(w.pop().map(|p| p.parts), Some(vec!["src".to_string(), "lib.rs".to_string()]));
    assert!(w.pop().is_none());
    assert!(!w.offer(rel(&["src", "a.rs"])));
    assert!(w.pop().is_none());
}
