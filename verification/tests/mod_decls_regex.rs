use ice_finder::mod_decls::find_mod_decls;
use regex::Regex;

fn by_regex(re: &Regex, src: &str) -> Vec<String> {
    re.captures_iter(src)
        .filter_map(|cap| cap.get(1).map(|m| m.as_str().to_string()))
        .collect()
}

#[test]
fn scanner_agrees_with_the_pattern_on_all_short_inputs() {
    let re = Regex::new(r"(?m)^\s*(?:pub\s+)?mod\s+([A-Za-z0-9_]+)\s*;\s*$").unwrap();
    let tokens = ["mod", "pub", " ", "\n", "\r", ";", "ab", "_1", "\u{a0}", "{", "é"];
    let n = tokens.len();
    let mut count = 0usize;
    for len in 0..=5u32 {
        let total = n.pow(len);
        for mut code in 0..total {
            let mut src = String::new();
            for _ in 0..len {
                src.push_str(tokens[code % n]);
                code /= n;
            }
            assert_eq!(find_mod_decls(&src), by_regex(&re, &src), "input {:?}", src);
            count += 1;
        }
    }
    assert!(count > 100_000);
}

#[test]
fn scanner_agrees_with_the_pattern_on_a_source_file() {
    let re = Regex::new(r"(?m)^\s*(?:pub\s+)?mod\s+([A-Za-z0-9_]+)\s*;\s*$").unwrap();
    let src = "//! doc\nmod a;\n  pub mod b ;\r\nmod c { }\npub(crate) mod d;\n\n\tmod\te;\nfn f() {}\nmod g;";
    assert_eq!(find_mod_decls(src), by_regex(&re, src));
    assert_eq!(
        find_mod_decls(src),
        vec!["a".to_string(), "b".to_string(), "e".to_string(), "g".to_string()]
    );
}
