//! The computing parts of one `cargo fmt` run: pointing the copied
//! manifest at the real `bevy_macro_utils`, and reading the outcome.
use vstd::prelude::*;
use crate::text::{chars_of, contains_chars, contains_seq, has_at, matches_at, push_char};

verus! {

/// `s` with every occurrence of `pat` replaced by `rep`, scanning from the
/// left without overlap.
pub open spec fn replace_all(s: Seq<char>, pat: Seq<char>, rep: Seq<char>) -> Seq<char>
    decreases s.len(),
{
    if pat.len() == 0 || s.len() == 0 {
        s
    } else if has_at(s, 0, pat) {
        rep + replace_all(s.skip(pat.len() as int), pat, rep)
    } else {
        seq![s[0]] + replace_all(s.skip(1), pat, rep)
    }
}

/// Replaces every occurrence of the non-empty `pat` in `s` by `rep`.
pub fn replace_all_str(s: &str, pat: &str, rep: &str) -> (out: String)
    requires
        pat@.len() > 0,
    ensures
        out@ == replace_all(s@, pat@, rep@),
{
    let v = chars_of(s);
    let p = chars_of(pat);
    let mut out = String::new();
    let mut i: usize = 0;
    assert(v@.skip(0) =~= v@);
    while i < v.len()
        invariant
            i <= v@.len(),
            p@.len() > 0,
            p@ == pat@,
            v@ == s@,
            replace_all(s@, pat@, rep@) == out@ + replace_all(v@.skip(i as int), pat@, rep@),
        decreases v@.len() - i,
    {
        let ghost t = v@.skip(i as int);
        let ghost before = out@;
        assert(has_at(v@, i as int, p@) == has_at(t, 0, p@)) by {
            if i + p@.len() <= v@.len() {
                assert(v@.subrange(i as int, i + p@.len()) =~= t.subrange(0, p@.len() as int));
            }
        }
        if matches_at(&v, i, &p) {
            out.append(rep);
            assert(t.skip(p@.len() as int) =~= v@.skip(i + p@.len()));
            assert(out@ + replace_all(v@.skip(i + p@.len()), pat@, rep@) =~= before + (rep@
                + replace_all(t.skip(p@.len() as int), pat@, rep@)));
            i += p.len();
        } else {
            push_char(&mut out, v[i]);
            assert(t.skip(1) =~= v@.skip(i + 1));
            assert(t[0] == v@[i as int]);
            assert(out@ + replace_all(v@.skip(i + 1), pat@, rep@) =~= before + (seq![v@[i as int]]
                + replace_all(t.skip(1), pat@, rep@)));
            i += 1;
        }
    }
    assert(out@ + replace_all(v@.skip(i as int), pat@, rep@) =~= out@);
    out
}

proof fn lemma_replace_all_absent_from(s: Seq<char>, pat: Seq<char>, rep: Seq<char>, i: int)
    requires
        0 <= i <= s.len(),
        !contains_seq(s, pat),
    ensures
        replace_all(s.skip(i), pat, rep) == s.skip(i),
    decreases s.len() - i,
{
    let t = s.skip(i);
    if pat.len() > 0 && t.len() > 0 {
        if has_at(t, 0, pat) {
            assert(s.subrange(i, i + pat.len()) =~= t.subrange(0, pat.len() as int));
            assert(has_at(s, i, pat));
        }
        lemma_replace_all_absent_from(s, pat, rep, i + 1);
        assert(t.skip(1) =~= s.skip(i + 1));
        assert(t =~= seq![t[0]] + t.skip(1));
    }
}

/// Where the pattern does not occur, replacing changes nothing.
pub proof fn lemma_replace_all_absent(s: Seq<char>, pat: Seq<char>, rep: Seq<char>)
    requires
        !contains_seq(s, pat),
    ensures
        replace_all(s, pat, rep) == s,
{
    lemma_replace_all_absent_from(s, pat, rep, 0);
    assert(s.skip(0) =~= s);
}

/// The dependency line of the `derive` crate's manifest that points at
/// `bevy_macro_utils` by a relative path.
pub open spec fn macro_utils_line() -> Seq<char> {
    "path = \"../../bevy_macro_utils\""@
}

/// `cargo_toml` with each relative `bevy_macro_utils` path replaced by
/// `macro_utils_path`, so that the copy in a temporary directory still
/// finds the crate.
pub fn rewrite_manifest(cargo_toml: &str, macro_utils_path: &str) -> (out: String)
    ensures
        out@ == replace_all(
            cargo_toml@,
            macro_utils_line(),
            "path = \""@ + macro_utils_path@ + "\""@,
        ),
{
    let mut rep = "path = \"".to_owned();
    rep.append(macro_utils_path);
    rep.append("\"");
    proof {
        reveal_strlit("path = \"../../bevy_macro_utils\"");
    }
    replace_all_str(cargo_toml, "path = \"../../bevy_macro_utils\"", rep.as_str())
}

/// What `rustfmt` prints when it crashes.
pub open spec fn ice_marker() -> Seq<char> {
    "error: the compiler unexpectedly panicked."@
}

/// An output shows an internal compiler error exactly when it contains the
/// full line `error: the compiler unexpectedly panicked.`.
pub proof fn lemma_ice_is_the_panic_line(out: Seq<char>)
    ensures
        contains_seq(out, ice_marker()) <==> contains_seq(
            out,
            seq!['e', 'r', 'r', 'o', 'r', ':', ' ', 't', 'h', 'e', ' ', 'c', 'o', 'm', 'p', 'i', 'l', 'e', 'r', ' ', 'u', 'n', 'e', 'x', 'p', 'e', 'c', 't', 'e', 'd', 'l', 'y', ' ', 'p', 'a', 'n', 'i', 'c', 'k', 'e', 'd', '.'],
        ),
{
    reveal_strlit("error: the compiler unexpectedly panicked.");
    assert(ice_marker() =~= seq!['e', 'r', 'r', 'o', 'r', ':', ' ', 't', 'h', 'e', ' ', 'c', 'o', 'm', 'p', 'i', 'l', 'e', 'r', ' ', 'u', 'n', 'e', 'x', 'p', 'e', 'c', 't', 'e', 'd', 'l', 'y', ' ', 'p', 'a', 'n', 'i', 'c', 'k', 'e', 'd', '.']);
}

/// An output in which the word `panicked` never occurs (such as one holding
/// only ordinary `error: ...` lines) shows no internal compiler error.
pub proof fn lemma_no_panic_no_ice(out: Seq<char>)
    requires
        forall|i: int| !has_at(out, i, seq!['p', 'a', 'n', 'i', 'c', 'k', 'e', 'd']),
    ensures
        !contains_seq(out, ice_marker()),
{
    reveal_strlit("error: the compiler unexpectedly panicked.");
    let m = ice_marker();
    assert(m.len() == 42);
    if contains_seq(out, m) {
        let i = choose|i: int| has_at(out, i, m);
        let w = seq!['p', 'a', 'n', 'i', 'c', 'k', 'e', 'd'];
        assert(out.subrange(i + 33, i + 41) =~= w) by {
            assert forall|k: int| 0 <= k < 8 implies out.subrange(i + 33, i + 41)[k] == w[k] by {
                assert(out.subrange(i, i + 42)[33 + k] == m[33 + k]);
            }
        }
        assert(has_at(out, i + 33, w));
    }
}

/// The outcome of one `cargo fmt` run.
pub struct FormatResult {
    /// The output shows an internal compiler error.
    pub ice_found: bool,
    /// The command exited successfully.
    pub success: bool,
    /// Standard output followed by standard error.
    pub output: String,
}

impl FormatResult {
    /// Reads the outcome from the command's output and exit status.
    pub fn from_output(stdout: &str, stderr: &str, success: bool) -> (r: FormatResult)
        ensures
            r.output@ == stdout@ + stderr@,
            r.ice_found == contains_seq(stdout@ + stderr@, ice_marker()),
            r.success == success,
    {
        let mut output = stdout.to_owned();
        output.append(stderr);
        let text = chars_of(output.as_str());
        let marker = chars_of("error: the compiler unexpectedly panicked.");
        let ice_found = contains_chars(&text, &marker);
        FormatResult { ice_found, success, output }
    }

    /// The run succeeded without a crash.
    pub fn is_clean(&self) -> (b: bool)
        ensures
            b == (self.success && !self.ice_found),
    {
        self.success && !self.ice_found
    }
}

} // verus!
