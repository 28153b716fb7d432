use ice_finder::path_norm::normalize_manifest_path;

#[test]
fn normalize_removes_unc_backslash_and_slashes_drive() {
    let raw = "\\\\?\\D:\\bevywinicon\\crates\\bevy_macro_utils";
    let normalized = normalize_manifest_path(raw);
    assert_eq!(normalized, "D:/bevywinicon/crates/bevy_macro_utils");
}

#[test]
fn normalize_removes_unc_slash_prefix() {
    let raw = "//?/D:/bevywinicon/crates/bevy_macro_utils";
    let normalized = normalize_manifest_path(raw);
    assert_eq!(normalized, "D:/bevywinicon/crates/bevy_macro_utils");
}

#[test]
fn normalize_adds_missing_slash_after_drive() {
    let raw = "D:bevywinicon\\crates\\bevy_macro_utils";
    let normalized = normalize_manifest_path(raw);
    assert_eq!(normalized, "D:/bevywinicon/crates/bevy_macro_utils");
}

#[test]
fn normalize_keeps_already_forward_slashes() {
    let raw = "D:/bevywinicon/crates/bevy_macro_utils";
    let normalized = normalize_manifest_path(raw);
    assert_eq!(normalized, "D:/bevywinicon/crates/bevy_macro_utils");
}

#[test]
fn normalize_leaves_unix_path_alone() {
    assert_eq!(normalize_manifest_path("/home/user/crates/x"), "/home/user/crates/x");
}

#[test]
fn normalize_empty_path() {
    assert_eq!(normalize_manifest_path(""), "");
}

#[test]
fn normalize_colon_at_end_gets_slash() {
    assert_eq!(normalize_manifest_path("C:"), "C:/");
}

#[test]
fn normalize_backslash_after_colon_counts_as_slash() {
    assert_eq!(normalize_manifest_path("C:\\x"), "C:/x");
}

#[test]
fn normalize_only_first_colon_matters() {
    assert_eq!(normalize_manifest_path("a:b:c"), "a:/b:c");
}

#[test]
fn normalize_strips_only_one_prefix() {
    assert_eq!(normalize_manifest_path("\\\\?\\\\\\?\\x"), "//?/x");
    assert_eq!(normalize_manifest_path("//?/x"), "x");
}

#[test]
fn normalize_twice_is_once() {
    let once = normalize_manifest_path("\\\\?\\E:dir\\sub");
    assert_eq!(once, "E:/dir/sub");
    assert_eq!(normalize_manifest_path(&once), once);
}
