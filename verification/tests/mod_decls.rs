use ice_finder::mod_decls::find_mod_decls;

#[test]
fn finds_plain_and_pub_declarations() {
    let src = "mod a;\npub mod b;\nfn main() {}\n";
    assert_eq!(find_mod_decls(src), vec!["a".to_string(), "b".to_string()]);
}

#[test]
fn skips_inline_modules_and_restricted_visibility() {
    let src = "mod inline {\n}\npub(crate) mod hidden;\nmod tests { }\n";
    assert!(find_mod_decls(src).is_empty());
}

#[test]
fn allows_indentation_and_spaces_before_semicolon() {
    let src = "    mod  indented  ;  \n\tpub   mod tabbed;";
    assert_eq!(find_mod_decls(src), vec!["indented".to_string(), "tabbed".to_string()]);
}

#[test]
fn rejects_trailing_comment_and_code_before() {
    let src = "mod a; // note\nuse x; mod b;\n";
    assert!(find_mod_decls(src).is_empty());
}

#[test]
fn white_space_may_span_lines() {
    let src = "mod\nsplit\n;\n";
    assert_eq!(find_mod_decls(src), vec!["split".to_string()]);
}

#[test]
fn handles_crlf_line_endings() {
    let src = "mod a;\r\nmod b;\r\n";
    assert_eq!(find_mod_decls(src), vec!["a".to_string(), "b".to_string()]);
}

#[test]
fn blank_lines_between_declarations() {
    let src = "\n\nmod a;\n\n  \nmod b;";
    assert_eq!(find_mod_decls(src), vec!["a".to_string(), "b".to_string()]);
}

#[test]
fn name_must_be_word_characters() {
    let src = "mod r#raw;\nmod ok_1;\nmod é;\n";
    assert_eq!(find_mod_decls(src), vec!["ok_1".to_string()]);
}

#[test]
fn unicode_space_counts_as_white_space() {
    let src = "\u{a0}mod\u{3000}wide;\u{2003}";
    assert_eq!(find_mod_decls(src), vec!["wide".to_string()]);
}

#[test]
fn pub_without_space_is_not_a_declaration() {
    assert!(find_mod_decls("pubmod x;").is_empty());
    assert!(find_mod_decls("modx;").is_empty());
    assert!(find_mod_decls("mod ;").is_empty());
}
