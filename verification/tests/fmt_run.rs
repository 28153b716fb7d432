use ice_finder::fmt_run::{replace_all_str, rewrite_manifest, FormatResult};

#[test]
fn rewrite_manifest_points_at_absolute_path() {
    let toml = "[dependencies]\nbevy_macro_utils = { path = \"../../bevy_macro_utils\", version = \"0.1\" }\n";
    let out = rewrite_manifest(toml, "D:/w/crates/bevy_macro_utils");
    assert_eq!(
        out,
        "[dependencies]\nbevy_macro_utils = { path = \"D:/w/crates/bevy_macro_utils\", version = \"0.1\" }\n"
    );
}

#[test]
fn rewrite_manifest_without_the_line_changes_nothing() {
    let toml = "[package]\nname = \"x\"\n";
    assert_eq!(rewrite_manifest(toml, "/abs"), toml);
}

#[test]
fn replace_all_does_not_overlap() {
    assert_eq!(replace_all_str("aaaa", "aa", "b"), "bb");
    assert_eq!(replace_all_str("aaa", "aa", "b"), "ba");
    assert_eq!(replace_all_str("xyx", "x", ""), "y");
}

#[test]
fn from_output_detects_ice() {
    let r = FormatResult::from_output(
        "",
        "error: the compiler unexpectedly panicked. this is a bug.\n",
        false,
    );
    assert!(r.ice_found);
    assert!(!r.success);
    assert!(!r.is_clean());
}

#[test]
fn from_output_joins_streams() {
    let r = FormatResult::from_output("out\n", "err\n", true);
    assert_eq!(r.output, "out\nerr\n");
    assert!(!r.ice_found);
    assert!(r.is_clean());
}

#[test]
fn from_output_marker_may_span_both_streams() {
    let r = FormatResult::from_output("error: the compiler ", "unexpectedly panicked.", true);
    assert!(r.ice_found);
    assert!(!r.is_clean());
}
