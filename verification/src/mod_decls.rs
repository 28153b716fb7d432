//! Finding the file-module declarations (`mod foo;` / `pub mod foo;`) of a
//! Rust source file.
//!
//! A declaration is recognised exactly as the multi-line pattern
//! `^\s*(?:pub\s+)?mod\s+([A-Za-z0-9_]+)\s*;\s*$` recognises it when its
//! matches are searched for from left to right without overlap: `\s` is
//! Unicode white space (new lines included), `^` holds at the start of the
//! text and after a `\n`, `$` at the end of the text and before a `\n`.
use vstd::prelude::*;
use crate::text::{chars_of, has_at, matches_at, string_of_range};

verus! {

/// Unicode white space (the `White_Space` property).
pub open spec fn is_space(c: char) -> bool {
    ||| ('\t' <= c && c <= '\r')
    ||| c == ' '
    ||| c == '\u{85}'
    ||| c == '\u{a0}'
    ||| c == '\u{1680}'
    ||| ('\u{2000}' <= c && c <= '\u{200a}')
    ||| c == '\u{2028}'
    ||| c == '\u{2029}'
    ||| c == '\u{202f}'
    ||| c == '\u{205f}'
    ||| c == '\u{3000}'
}

/// A character allowed in a module name: `[A-Za-z0-9_]`.
pub open spec fn is_word(c: char) -> bool {
    ||| ('A' <= c && c <= 'Z')
    ||| ('a' <= c && c <= 'z')
    ||| ('0' <= c && c <= '9')
    ||| c == '_'
}

/// The end of the run of white space that starts at `i`.
pub open spec fn spaces_end(s: Seq<char>, i: int) -> int
    decreases s.len() - i,
{
    if 0 <= i < s.len() && is_space(s[i]) {
        spaces_end(s, i + 1)
    } else {
        i
    }
}

/// The end of the run of name characters that starts at `i`.
pub open spec fn word_end(s: Seq<char>, i: int) -> int
    decreases s.len() - i,
{
    if 0 <= i < s.len() && is_word(s[i]) {
        word_end(s, i + 1)
    } else {
        i
    }
}

/// Position `p` starts a line.
pub open spec fn line_start(s: Seq<char>, p: int) -> bool {
    p == 0 || (0 < p <= s.len() && s[p - 1] == '\n')
}

/// Position `p` ends a line.
pub open spec fn line_end(s: Seq<char>, p: int) -> bool {
    p == s.len() || (0 <= p < s.len() && s[p] == '\n')
}

/// The last position in `lo..=k` that ends a line, or -1 if there is none.
pub open spec fn last_line_end(s: Seq<char>, lo: int, k: int) -> int
    decreases k - lo,
{
    if line_end(s, k) {
        k
    } else if k <= lo {
        -1
    } else {
        last_line_end(s, lo, k - 1)
    }
}

pub open spec fn kw_pub() -> Seq<char> {
    seq!['p', 'u', 'b']
}

pub open spec fn kw_mod() -> Seq<char> {
    seq!['m', 'o', 'd']
}

/// Where `mod` has to stand when the keyword part begins at `a`: after
/// `pub` and at least one space if `pub` is there, else at `a`; -1 when
/// `pub` is not followed by white space.
pub open spec fn mod_position(s: Seq<char>, a: int) -> int {
    if has_at(s, a, kw_pub()) {
        let q = spaces_end(s, a + 3);
        if q > a + 3 {
            q
        } else {
            -1
        }
    } else {
        a
    }
}

/// The declaration that starts at `p`, if any: the position where it ends
/// and the module name.
pub open spec fn decl_at(s: Seq<char>, p: int) -> Option<(int, Seq<char>)> {
    if !line_start(s, p) {
        None
    } else {
        let b = mod_position(s, spaces_end(s, p));
        if b < 0 || !has_at(s, b, kw_mod()) {
            None
        } else {
            let c = spaces_end(s, b + 3);
            let d = word_end(s, c);
            let e = spaces_end(s, d);
            if c == b + 3 || d == c || !(e < s.len() && s[e] == ';') {
                None
            } else {
                let t = last_line_end(s, e + 1, spaces_end(s, e + 1));
                if t < 0 {
                    None
                } else {
                    Some((t, s.subrange(c, d)))
                }
            }
        }
    }
}

/// The names of the declarations found by scanning from `i` on.
pub open spec fn decls_from(s: Seq<char>, i: int) -> Seq<Seq<char>>
    decreases s.len() - i,
{
    if i < 0 || i >= s.len() {
        seq![]
    } else {
        match decl_at(s, i) {
            Some((t, name)) => if i < t <= s.len() {
                seq![name] + decls_from(s, t)
            } else {
                seq![]
            },
            None => decls_from(s, i + 1),
        }
    }
}

/// The names of all declarations in `s`, in order.
pub open spec fn mod_decls(s: Seq<char>) -> Seq<Seq<char>> {
    decls_from(s, 0)
}

/// Decides `is_space`.
pub fn is_space_char(c: char) -> (b: bool)
    ensures
        b == is_space(c),
{
    ('\t' <= c && c <= '\r') || c == ' ' || c == '\u{85}' || c == '\u{a0}' || c == '\u{1680}'
        || ('\u{2000}' <= c && c <= '\u{200a}') || c == '\u{2028}' || c == '\u{2029}' || c
        == '\u{202f}' || c == '\u{205f}' || c == '\u{3000}'
}

/// Decides `is_word`.
pub fn is_word_char(c: char) -> (b: bool)
    ensures
        b == is_word(c),
{
    ('A' <= c && c <= 'Z') || ('a' <= c && c <= 'z') || ('0' <= c && c <= '9') || c == '_'
}

fn skip_spaces(v: &Vec<char>, i: usize) -> (r: usize)
    requires
        i <= v@.len(),
    ensures
        r == spaces_end(v@, i as int),
        i <= r <= v@.len(),
{
    let mut j = i;
    while j < v.len() && is_space_char(v[j])
        invariant
            i <= j <= v@.len(),
            spaces_end(v@, i as int) == spaces_end(v@, j as int),
        decreases v@.len() - j,
    {
        j += 1;
    }
    j
}

fn skip_word(v: &Vec<char>, i: usize) -> (r: usize)
    requires
        i <= v@.len(),
    ensures
        r == word_end(v@, i as int),
        i <= r <= v@.len(),
{
    let mut j = i;
    while j < v.len() && is_word_char(v[j])
        invariant
            i <= j <= v@.len(),
            word_end(v@, i as int) == word_end(v@, j as int),
        decreases v@.len() - j,
    {
        j += 1;
    }
    j
}

fn last_line_end_exec(v: &Vec<char>, lo: usize, k: usize) -> (r: Option<usize>)
    requires
        lo <= k <= v@.len(),
    ensures
        match r {
            Some(t) => t as int == last_line_end(v@, lo as int, k as int) && lo <= t <= k,
            None => last_line_end(v@, lo as int, k as int) == -1,
        },
{
    let mut j = k;
    loop
        invariant
            lo <= j <= k <= v@.len(),
            last_line_end(v@, lo as int, k as int) == last_line_end(v@, lo as int, j as int),
        decreases j - lo,
    {
        if j == v.len() || v[j] == '\n' {
            return Some(j);
        }
        if j == lo {
            return None;
        }
        j -= 1;
    }
}

/// Decides `decl_at`; on a declaration it gives its end and the bounds of
/// the name.
fn decl_at_exec(v: &Vec<char>, p: usize) -> (r: Option<(usize, usize, usize)>)
    requires
        p < v@.len(),
    ensures
        match r {
            Some((t, c, d)) => {
                &&& decl_at(v@, p as int) == Some((t as int, v@.subrange(c as int, d as int)))
                &&& p < t <= v@.len()
                &&& c < d <= v@.len()
            },
            None => decl_at(v@, p as int) is None,
        },
{
    if !(p == 0 || v[p - 1] == '\n') {
        return None;
    }
    let n = v.len();
    let a = skip_spaces(v, p);
    let kp: Vec<char> = vec!['p', 'u', 'b'];
    let km: Vec<char> = vec!['m', 'o', 'd'];
    assert(kp@ == kw_pub());
    assert(km@ == kw_mod());
    let b = if matches_at(v, a, &kp) {
        assert(a + 3 <= n);
        let q = skip_spaces(v, a + 3);
        if q > a + 3 {
            q
        } else {
            return None;
        }
    } else {
        a
    };
    assert(b as int == mod_position(v@, spaces_end(v@, p as int)));
    if !matches_at(v, b, &km) {
        return None;
    }
    assert(b + 3 <= n);
    let c = skip_spaces(v, b + 3);
    let d = skip_word(v, c);
    let e = skip_spaces(v, d);
    if c == b + 3 || d == c || !(e < v.len() && v[e] == ';') {
        return None;
    }
    let f = skip_spaces(v, e + 1);
    match last_line_end_exec(v, e + 1, f) {
        Some(t) => Some((t, c, d)),
        None => None,
    }
}

/// The names of the module declarations in `src`, in the order in which
/// they appear.
pub fn find_mod_decls(src: &str) -> (names: Vec<String>)
    ensures
        names@.map_values(|n: String| n@) == mod_decls(src@),
{
    let v = chars_of(src);
    let mut out: Vec<String> = Vec::new();
    let mut i: usize = 0;
    while i < v.len()
        invariant
            i <= v@.len(),
            mod_decls(v@) == out@.map_values(|n: String| n@) + decls_from(v@, i as int),
        decreases v@.len() - i,
    {
        match decl_at_exec(&v, i) {
            Some((t, c, d)) => {
                let name = string_of_range(&v, c, d);
                let ghost before = out@.map_values(|n: String| n@);
                out.push(name);
                assert(out@.map_values(|n: String| n@) =~= before.push(name@));
                assert(decls_from(v@, i as int) == seq![name@] + decls_from(v@, t as int));
                assert(before + decls_from(v@, i as int) =~= before.push(name@) + decls_from(
                    v@,
                    t as int,
                ));
                i = t;
            },
            None => {
                i += 1;
            },
        }
    }
    assert(decls_from(v@, i as int) == Seq::<Seq<char>>::empty());
    assert(out@.map_values(|n: String| n@) + Seq::<Seq<char>>::empty() =~= out@.map_values(
        |n: String| n@,
    ));
    out
}

proof fn lemma_word_end_words(s: Seq<char>, i: int)
    requires
        0 <= i <= s.len(),
    ensures
        i <= word_end(s, i) <= s.len(),
        forall|j: int| i <= j < word_end(s, i) ==> is_word(#[trigger] s[j]),
    decreases s.len() - i,
{
    if i < s.len() && is_word(s[i]) {
        lemma_word_end_words(s, i + 1);
    }
}

proof fn lemma_decls_from_are_names(s: Seq<char>, i: int)
    ensures
        forall|k: int|
            0 <= k < decls_from(s, i).len() ==> {
                &&& #[trigger] decls_from(s, i)[k].len() > 0
                &&& forall|j: int|
                    0 <= j < decls_from(s, i)[k].len() ==> is_word(decls_from(s, i)[k][j])
            },
    decreases s.len() - i,
{
    if i < 0 || i >= s.len() {
    } else {
        match decl_at(s, i) {
            Some((t, name)) => {
                if i < t <= s.len() {
                    lemma_decls_from_are_names(s, t);
                    let b = mod_position(s, spaces_end(s, i));
                    let c = spaces_end(s, b + 3);
                    lemma_spaces_end_bounds(s, b + 3);
                    lemma_word_end_words(s, c);
                    let rest = decls_from(s, t);
                    assert(decls_from(s, i) == seq![name] + rest);
                    assert forall|k: int| 0 <= k < decls_from(s, i).len() implies {
                        &&& #[trigger] decls_from(s, i)[k].len() > 0
                        &&& forall|j: int|
                            0 <= j < decls_from(s, i)[k].len() ==> is_word(
                                decls_from(s, i)[k][j],
                            )
                    } by {
                        if k == 0 {
                            assert(decls_from(s, i)[k] == name);
                            assert forall|j: int| 0 <= j < name.len() implies is_word(name[j]) by {
                                assert(name[j] == s[c + j]);
                            }
                        } else {
                            assert(decls_from(s, i)[k] == rest[k - 1]);
                        }
                    }
                } else {
                    assert(decls_from(s, i).len() == 0);
                }
            },
            None => {
                lemma_decls_from_are_names(s, i + 1);
                assert(decls_from(s, i) == decls_from(s, i + 1));
            },
        }
    }
}

proof fn lemma_spaces_end_bounds(s: Seq<char>, i: int)
    ensures
        0 <= i <= s.len() ==> i <= spaces_end(s, i) <= s.len(),
        !(0 <= i < s.len()) ==> spaces_end(s, i) == i,
    decreases s.len() - i,
{
    if 0 <= i < s.len() && is_space(s[i]) {
        lemma_spaces_end_bounds(s, i + 1);
    }
}

/// Every name found is a non-empty run of `[A-Za-z0-9_]`.
pub proof fn lemma_mod_decl_names_are_words(s: Seq<char>)
    ensures
        forall|k: int|
            0 <= k < mod_decls(s).len() ==> {
                &&& #[trigger] mod_decls(s)[k].len() > 0
                &&& forall|j: int| 0 <= j < mod_decls(s)[k].len() ==> is_word(mod_decls(s)[k][j])
            },
{
    lemma_decls_from_are_names(s, 0);
}

proof fn lemma_spaces_end_exact(s: Seq<char>, j: int)
    requires
        0 <= j <= s.len(),
    ensures
        j <= spaces_end(s, j) <= s.len(),
        forall|k: int| j <= k < spaces_end(s, j) ==> is_space(#[trigger] s[k]),
        spaces_end(s, j) < s.len() ==> !is_space(s[spaces_end(s, j)]),
    decreases s.len() - j,
{
    if j < s.len() && is_space(s[j]) {
        lemma_spaces_end_exact(s, j + 1);
    }
}

proof fn lemma_word_end_exact(s: Seq<char>, j: int)
    requires
        0 <= j <= s.len(),
    ensures
        j <= word_end(s, j) <= s.len(),
        forall|k: int| j <= k < word_end(s, j) ==> is_word(#[trigger] s[k]),
        word_end(s, j) < s.len() ==> !is_word(s[word_end(s, j)]),
    decreases s.len() - j,
{
    if j < s.len() && is_word(s[j]) {
        lemma_word_end_exact(s, j + 1);
    }
}

proof fn lemma_last_line_end_exact(s: Seq<char>, lo: int, k: int)
    requires
        0 <= lo <= k <= s.len(),
    ensures
        last_line_end(s, lo, k) == -1 || (lo <= last_line_end(s, lo, k) <= k && line_end(
            s,
            last_line_end(s, lo, k),
        )),
        line_end(s, lo) ==> last_line_end(s, lo, k) >= lo,
    decreases k - lo,
{
    if !line_end(s, k) && k > lo {
        lemma_last_line_end_exact(s, lo, k - 1);
    }
}

/// Where a declaration is found, it ends after where it starts and within
/// the text.
proof fn lemma_decl_at_bounds(s: Seq<char>, p: int)
    requires
        0 <= p,
        decl_at(s, p) is Some,
    ensures
        p < decl_at(s, p).unwrap().0 <= s.len(),
{
    let a = spaces_end(s, p);
    lemma_spaces_end_bounds(s, p);
    let b = mod_position(s, a);
    if has_at(s, a, kw_pub()) {
        lemma_spaces_end_exact(s, a + 3);
    }
    let c = spaces_end(s, b + 3);
    lemma_spaces_end_exact(s, b + 3);
    let d = word_end(s, c);
    lemma_word_end_exact(s, c);
    let e = spaces_end(s, d);
    lemma_spaces_end_exact(s, d);
    let f = spaces_end(s, e + 1);
    lemma_spaces_end_exact(s, e + 1);
    lemma_last_line_end_exact(s, e + 1, f);
}

/// The characters of a line `mod <name>;` starting at `i`.
pub open spec fn decl_line(name: Seq<char>) -> Seq<char> {
    seq!['m', 'o', 'd', ' '] + name + seq![';']
}

/// Position `i` starts a line that reads exactly `mod <name>;`.
pub open spec fn is_decl_line(s: Seq<char>, i: int, name: Seq<char>) -> bool {
    &&& 0 <= i
    &&& i == 0 || (i <= s.len() && s[i - 1] == '\n')
    &&& name.len() > 0
    &&& forall|k: int| 0 <= k < name.len() ==> is_word(#[trigger] name[k])
    &&& i + name.len() + 5 <= s.len()
    &&& s.subrange(i, i + name.len() + 5) == decl_line(name)
    &&& (i + name.len() + 5 == s.len() || s[i + name.len() + 5] == '\n')
}

proof fn lemma_decl_line_chars(s: Seq<char>, i: int, name: Seq<char>)
    requires
        is_decl_line(s, i, name),
    ensures
        s[i] == 'm',
        s[i + 1] == 'o',
        s[i + 2] == 'd',
        s[i + 3] == ' ',
        forall|k: int| 0 <= k < name.len() ==> s[i + 4 + k] == #[trigger] name[k],
        s[i + 4 + name.len()] == ';',
{
    let w = decl_line(name);
    let sub = s.subrange(i, i + name.len() + 5);
    assert(sub[0] == s[i] && w[0] == 'm');
    assert(sub[1] == s[i + 1] && w[1] == 'o');
    assert(sub[2] == s[i + 2] && w[2] == 'd');
    assert(sub[3] == s[i + 3] && w[3] == ' ');
    assert forall|k: int| 0 <= k < name.len() implies s[i + 4 + k] == #[trigger] name[k] by {
        assert(sub[4 + k] == s[i + 4 + k]);
        assert(w[4 + k] == name[k]);
    }
    assert(sub[4 + name.len() as int] == s[i + 4 + name.len()]);
    assert(w[4 + name.len() as int] == ';');
}

/// Reading a `mod` keyword at `b` that begins a declaration line gives that
/// line's name.
proof fn lemma_name_after_keyword(s: Seq<char>, i: int, name: Seq<char>)
    requires
        is_decl_line(s, i, name),
    ensures
        spaces_end(s, i + 3) == i + 4,
        word_end(s, i + 4) == i + 4 + name.len(),
        spaces_end(s, i + 4 + name.len()) == i + 4 + name.len(),
{
    lemma_decl_line_chars(s, i, name);
    lemma_spaces_end_exact(s, i + 3);
    lemma_word_end_exact(s, i + 4);
    let d = word_end(s, i + 4);
    if d < i + 4 + name.len() {
        assert(s[d] == name[d - i - 4]);
    }
    if d > i + 4 + name.len() {
        assert(is_word(s[i + 4 + name.len()]));
    }
    assert(s[i + 4] == name[0]);
}

/// The declaration on a line `mod <name>;` is read as such.
proof fn lemma_decl_line_is_decl(s: Seq<char>, i: int, name: Seq<char>)
    requires
        is_decl_line(s, i, name),
    ensures
        decl_at(s, i) is Some,
        decl_at(s, i).unwrap().1 == name,
{
    lemma_decl_line_chars(s, i, name);
    lemma_name_after_keyword(s, i, name);
    lemma_spaces_end_exact(s, i);
    assert(spaces_end(s, i) == i);
    assert(!has_at(s, i, kw_pub())) by {
        if has_at(s, i, kw_pub()) {
            assert(s.subrange(i, i + 3)[0] == s[i]);
        }
    }
    assert(has_at(s, i, kw_mod())) by {
        assert(s.subrange(i, i + 3) =~= kw_mod());
    }
    let e = i + 4 + name.len();
    lemma_spaces_end_exact(s, e + 1);
    lemma_last_line_end_exact(s, e + 1, spaces_end(s, e + 1));
    assert(s.subrange(i + 4, i + 4 + name.len()) =~= name);
}

/// A declaration that starts before a declaration line and reaches past
/// its start is that line's declaration.
proof fn lemma_overlap_is_same_decl(s: Seq<char>, j: int, i: int, name: Seq<char>)
    requires
        is_decl_line(s, i, name),
        0 <= j < i,
        decl_at(s, j) is Some,
        decl_at(s, j).unwrap().0 > i,
    ensures
        decl_at(s, j).unwrap().1 == name,
{
    lemma_decl_line_chars(s, i, name);
    lemma_name_after_keyword(s, i, name);
    let a = spaces_end(s, j);
    lemma_spaces_end_exact(s, j);
    let b = mod_position(s, a);
    if has_at(s, a, kw_pub()) {
        lemma_spaces_end_exact(s, a + 3);
        assert(s.subrange(a, a + 3)[1] == s[a + 1]);
        assert(s.subrange(a, a + 3)[2] == s[a + 2]);
        assert(s.subrange(a, a + 3)[0] == s[a]);
    }
    assert(s.subrange(b, b + 3)[0] == s[b]);
    assert(s.subrange(b, b + 3)[1] == s[b + 1]);
    assert(s.subrange(b, b + 3)[2] == s[b + 2]);
    let c = spaces_end(s, b + 3);
    lemma_spaces_end_exact(s, b + 3);
    let d = word_end(s, c);
    lemma_word_end_exact(s, c);
    let e = spaces_end(s, d);
    lemma_spaces_end_exact(s, d);
    let f = spaces_end(s, e + 1);
    lemma_spaces_end_exact(s, e + 1);
    lemma_last_line_end_exact(s, e + 1, f);
    if i < a {
        assert(is_space(s[i]));
    } else if i == a {
        assert(b == i);
        assert(s.subrange(c, d) =~= name) by {
            assert forall|k: int| 0 <= k < name.len() implies s.subrange(c, d)[k] == name[k] by {
                assert(s[i + 4 + k] == name[k]);
            }
        }
    } else if i < b {
        if i >= a + 3 {
            assert(is_space(s[i]));
        }
    } else if i == b {
        assert(s.subrange(c, d) =~= name) by {
            assert forall|k: int| 0 <= k < name.len() implies s.subrange(c, d)[k] == name[k] by {
                assert(s[i + 4 + k] == name[k]);
            }
        }
    } else if i < b + 3 {
    } else if i < c {
        assert(is_space(s[i]));
    } else if i < d {
        if i > c {
            assert(is_word(s[i - 1]));
        } else {
            lemma_word_end_exact(s, i);
            assert(word_end(s, i) == i + 3) by {
                assert(is_word(s[i]) && is_word(s[i + 1]) && is_word(s[i + 2]));
                assert(!is_word(s[i + 3]));
                lemma_word_end_exact(s, i + 1);
                lemma_word_end_exact(s, i + 2);
                lemma_word_end_exact(s, i + 3);
            }
            assert(s[i + 4] == name[0]);
        }
    } else if i < e {
        assert(is_space(s[i]));
    } else if i == e {
    } else {
        assert(is_space(s[i]));
    }
}

proof fn lemma_scan_reaches_line(s: Seq<char>, j: int, i: int, name: Seq<char>)
    requires
        is_decl_line(s, i, name),
        0 <= j <= i,
    ensures
        decls_from(s, j).contains(name),
    decreases i - j,
{
    if j == i {
        lemma_decl_line_is_decl(s, i, name);
        lemma_decl_at_bounds(s, i);
        assert(decls_from(s, i)[0] == name);
    } else {
        match decl_at(s, j) {
            Some((t, nm)) => {
                lemma_decl_at_bounds(s, j);
                assert(decls_from(s, j) == seq![nm] + decls_from(s, t));
                if t <= i {
                    lemma_scan_reaches_line(s, t, i, name);
                    let k = choose|k: int|
                        0 <= k < decls_from(s, t).len() && decls_from(s, t)[k] == name;
                    assert(decls_from(s, j)[k + 1] == name);
                } else {
                    lemma_overlap_is_same_decl(s, j, i, name);
                    assert(decls_from(s, j)[0] == name);
                }
            },
            None => {
                lemma_scan_reaches_line(s, j + 1, i, name);
                assert(decls_from(s, j) == decls_from(s, j + 1));
            },
        }
    }
}

/// A declaration is found wherever it stands: every line that reads exactly
/// `mod <name>;` contributes `<name>` to the names found, however much text
/// comes before it.
pub proof fn lemma_every_decl_line_is_found(s: Seq<char>, i: int, name: Seq<char>)
    requires
        is_decl_line(s, i, name),
    ensures
        mod_decls(s).contains(name),
{
    lemma_scan_reaches_line(s, 0, i, name);
}

} // verus!
