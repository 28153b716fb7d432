//! Turning a canonicalised Windows path into the form that a Cargo manifest
//! accepts in a `path = "..."` entry.
use vstd::prelude::*;
use crate::text::{chars_of, has_at, matches_at, push_char, string_of, string_of_range};

verus! {

/// The extended-length prefix `\\?\` that canonicalisation adds on Windows.
pub open spec fn unc_backslash() -> Seq<char> {
    seq!['\\', '\\', '?', '\\']
}

/// The same prefix written with forward slashes: `//?/`.
pub open spec fn unc_slash() -> Seq<char> {
    seq!['/', '/', '?', '/']
}

/// `s` without a leading `\\?\`, or else without a leading `//?/`.
pub open spec fn strip_unc(s: Seq<char>) -> Seq<char> {
    if has_at(s, 0, unc_backslash()) || has_at(s, 0, unc_slash()) {
        s.skip(4)
    } else {
        s
    }
}

/// `s` with every backslash replaced by a forward slash.
pub open spec fn forward_slashes(s: Seq<char>) -> Seq<char> {
    Seq::new(s.len(), |i: int| if s[i] == '\\' { '/' } else { s[i] })
}

/// `k` is the position of the first `:` in `s`.
pub open spec fn is_first_colon(s: Seq<char>, k: int) -> bool {
    0 <= k < s.len() && s[k] == ':' && forall|j: int| 0 <= j < k ==> s[j] != ':'
}

/// Inserts a `/` right after the first `:` unless one is already there.
pub open spec fn fix_drive(u: Seq<char>) -> Seq<char> {
    if exists|k: int| is_first_colon(u, k) {
        let k = choose|k: int| is_first_colon(u, k);
        if k + 1 < u.len() && u[k + 1] == '/' {
            u
        } else {
            u.take(k + 1) + seq!['/'] + u.skip(k + 1)
        }
    } else {
        u
    }
}

/// The normal form of a path string.
pub open spec fn normalized(s: Seq<char>) -> Seq<char> {
    fix_drive(forward_slashes(strip_unc(s)))
}

proof fn lemma_first_colon_unique(s: Seq<char>, a: int, b: int)
    requires
        is_first_colon(s, a),
        is_first_colon(s, b),
    ensures
        a == b,
{
    if a < b {
        assert(s[a] != ':');
    } else if b < a {
        assert(s[b] != ':');
    }
}

/// Normalises a canonical path for use in a manifest: drops a leading
/// `\\?\` (or else `//?/`), turns every `\` into `/`, and makes sure the
/// first `:` (the drive letter's) is followed by `/`.
pub fn normalize_manifest_path(path: &str) -> (out: String)
    ensures
        out@ == normalized(path@),
{
    let v = chars_of(path);
    let back: Vec<char> = vec!['\\', '\\', '?', '\\'];
    let fwd: Vec<char> = vec!['/', '/', '?', '/'];
    assert(back@ == unc_backslash());
    assert(fwd@ == unc_slash());
    let start: usize = if matches_at(&v, 0, &back) || matches_at(&v, 0, &fwd) {
        4
    } else {
        0
    };
    let ghost t = strip_unc(v@);
    assert(t == v@.skip(start as int));
    let mut u: Vec<char> = Vec::new();
    let mut i = start;
    while i < v.len()
        invariant
            start <= i <= v@.len(),
            t == v@.skip(start as int),
            u@ == forward_slashes(t).take(i - start),
        decreases v@.len() - i,
    {
        let c = v[i];
        if c == '\\' {
            u.push('/');
        } else {
            u.push(c);
        }
        assert(forward_slashes(t).take(i + 1 - start) =~= forward_slashes(t).take(i - start).push(
            if c == '\\' { '/' } else { c },
        ));
        i += 1;
    }
    assert(u@ =~= forward_slashes(t));
    let mut k: usize = 0;
    while k < u.len() && u[k] != ':'
        invariant
            k <= u@.len(),
            forall|j: int| 0 <= j < k ==> u@[j] != ':',
        decreases u@.len() - k,
    {
        k += 1;
    }
    if k < u.len() {
        assert(is_first_colon(u@, k as int));
        proof {
            assert forall|j: int| is_first_colon(u@, j) implies j == k by {
                lemma_first_colon_unique(u@, j, k as int);
            }
        }
        if k + 1 < u.len() && u[k + 1] == '/' {
            string_of(&u)
        } else {
            let mut out = string_of_range(&u, 0, k + 1);
            push_char(&mut out, '/');
            let rest = string_of_range(&u, k + 1, u.len());
            out.append(rest.as_str());
            assert(u@.take(k + 1) =~= u@.subrange(0, k + 1));
            assert(u@.skip(k + 1) =~= u@.subrange(k + 1, u@.len() as int));
            out
        }
    } else {
        assert(!exists|j: int| is_first_colon(u@, j));
        string_of(&u)
    }
}

/// `s` without a leading `\\?\` or, failing that, `//?/`, read off the
/// first four characters.
pub open spec fn without_unc_prefix(s: Seq<char>) -> Seq<char> {
    if s.len() >= 4 && (s.take(4) == seq!['\\', '\\', '?', '\\'] || s.take(4) == seq![
        '/',
        '/',
        '?',
        '/',
    ]) {
        s.skip(4)
    } else {
        s
    }
}

/// `t` with each backslash in its place turned into `/`.
pub open spec fn backslashes_as_slashes(t: Seq<char>) -> Seq<char> {
    Seq::new(t.len(), |i: int| if t[i] == '\\' { '/' } else { t[i] })
}

/// Normalising rewrites nothing but backslashes: after the prefix is
/// dropped, every character stays in place, a backslash becoming `/` and
/// every other character unchanged, and at most one `/` is inserted.
pub proof fn lemma_normalize_only_rewrites_backslashes(s: Seq<char>)
    ensures
        normalized(s) == backslashes_as_slashes(without_unc_prefix(s)) || exists|k: int|
            0 <= k <= without_unc_prefix(s).len() && normalized(s) == #[trigger] backslashes_as_slashes(
                without_unc_prefix(s),
            ).take(k) + seq!['/'] + backslashes_as_slashes(without_unc_prefix(s)).skip(k),
{
    let t = without_unc_prefix(s);
    assert(strip_unc(s) == t) by {
        if s.len() >= 4 {
            assert(s.subrange(0, 4) =~= s.take(4));
        }
    }
    let m = backslashes_as_slashes(t);
    assert(forward_slashes(t) =~= m);
    let u = forward_slashes(t);
    if exists|k: int| is_first_colon(u, k) {
        let k = choose|k: int| is_first_colon(u, k);
        if !(k + 1 < u.len() && u[k + 1] == '/') {
            assert(normalized(s) == m.take(k + 1) + seq!['/'] + m.skip(k + 1));
        }
    }
}

/// A path with no backslash, no `//?/` prefix, and a `/` after its first
/// `:` (or no `:` at all) comes back unchanged.
pub proof fn lemma_normalize_keeps_normal_paths(s: Seq<char>)
    requires
        forall|i: int| 0 <= i < s.len() ==> s[i] != '\\',
        !(s.len() >= 4 && s.take(4) == seq!['/', '/', '?', '/']),
        forall|k: int|
            0 <= k < s.len() && #[trigger] s[k] == ':' && (forall|j: int| 0 <= j < k ==> s[j] != ':') ==> k
                + 1 < s.len() && s[k + 1] == '/',
    ensures
        normalized(s) == s,
{
    assert(strip_unc(s) == s) by {
        if has_at(s, 0, unc_backslash()) {
            assert(s.subrange(0, 4)[0] == '\\');
        }
        if has_at(s, 0, unc_slash()) {
            assert(s.subrange(0, 4) =~= s.take(4));
        }
    }
    assert(forward_slashes(s) =~= s);
    if exists|k: int| is_first_colon(s, k) {
        let k = choose|k: int| is_first_colon(s, k);
        assert(k + 1 < s.len() && s[k + 1] == '/');
    }
}

/// A normalised path holds no backslash.
pub proof fn lemma_normalized_has_no_backslash(s: Seq<char>)
    ensures
        forall|i: int| 0 <= i < normalized(s).len() ==> normalized(s)[i] != '\\',
{
    let u = forward_slashes(strip_unc(s));
    assert forall|i: int| 0 <= i < u.len() implies u[i] != '\\' by {}
    if exists|k: int| is_first_colon(u, k) {
        let k = choose|k: int| is_first_colon(u, k);
        let w = u.take(k + 1) + seq!['/'] + u.skip(k + 1);
        assert forall|i: int| 0 <= i < w.len() implies w[i] != '\\' by {
            if i < k + 1 {
                assert(w[i] == u[i]);
            } else if i > k + 1 {
                assert(w[i] == u[i - 1]);
            }
        }
    }
}

/// In a normalised path the first `:` is followed by `/`.
pub proof fn lemma_normalized_drive_slash(s: Seq<char>, k: int)
    requires
        is_first_colon(normalized(s), k),
    ensures
        k + 1 < normalized(s).len(),
        normalized(s)[k + 1] == '/',
{
    let u = forward_slashes(strip_unc(s));
    let n = normalized(s);
    if exists|c: int| is_first_colon(u, c) {
        let c = choose|c: int| is_first_colon(u, c);
        if c + 1 < u.len() && u[c + 1] == '/' {
        } else {
            let w = u.take(c + 1) + seq!['/'] + u.skip(c + 1);
            assert(n == w);
            assert(is_first_colon(w, c)) by {
                assert forall|j: int| 0 <= j < c implies w[j] != ':' by {
                    assert(w[j] == u[j]);
                }
            }
            lemma_first_colon_unique(w, k, c);
        }
    } else {
        assert(n == u);
        assert(is_first_colon(u, k));
    }
}

/// Normalising twice gives what normalising once gave, unless the first
/// result still starts with `//?/` (as `\\?\\\?\x` does, whose first
/// pass leaves `//?/x`).
pub proof fn lemma_normalize_idempotent(s: Seq<char>)
    requires
        !has_at(normalized(s), 0, unc_slash()),
    ensures
        normalized(normalized(s)) == normalized(s),
{
    let n = normalized(s);
    lemma_normalized_has_no_backslash(s);
    assert(!has_at(n, 0, unc_backslash())) by {
        if has_at(n, 0, unc_backslash()) {
            assert(n.subrange(0, 4)[0] == '\\');
        }
    }
    assert(strip_unc(n) == n);
    assert(forward_slashes(n) =~= n);
    if exists|k: int| is_first_colon(n, k) {
        let k = choose|k: int| is_first_colon(n, k);
        lemma_normalized_drive_slash(s, k);
    }
}

} // verus!
