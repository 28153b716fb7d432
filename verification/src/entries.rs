//! The files of the crate being reduced, in path order, and the choices
//! offered to the user for the next run.
use vstd::prelude::*;
use crate::history::{History, lookup};
use crate::rel_path::{
    RelPath,
    parts_lt,
    lemma_parts_lt_irreflexive,
    lemma_parts_lt_transitive,
};
use crate::text::push_char;
use vstd::multiset::Multiset;

verus! {

broadcast use vstd::seq_lib::group_to_multiset_ensures;

/// A file found under the crate's `src` directory.
pub struct FileEntry {
    /// Path relative to the crate root, such as `src/a.rs`.
    pub relative: RelPath,
    /// Canonical absolute path, as text.
    pub canonical: String,
    /// Whether the user may choose it (every file but `src/lib.rs`, which
    /// every run includes).
    pub selectable: bool,
}

/// The path `src/lib.rs`.
pub open spec fn lib_rs() -> Seq<Seq<char>> {
    seq!["src"@, "lib.rs"@]
}

/// The entry made for a file with the given relative and canonical paths.
pub open spec fn entry_of(relative: RelPath, canonical: String) -> FileEntry {
    FileEntry { relative, canonical, selectable: relative@ != lib_rs() }
}

/// Every file is selectable except `src/lib.rs`, whatever else its path is
/// (a `mod.rs`, a file in a subdirectory, a file named `lib.rs` elsewhere).
pub proof fn lemma_only_lib_rs_is_fixed(relative: RelPath, canonical: String)
    ensures
        entry_of(relative, canonical).selectable <==> relative@ != seq![
            seq!['s', 'r', 'c'],
            seq!['l', 'i', 'b', '.', 'r', 's'],
        ],
        entry_of(relative, canonical).relative == relative,
        entry_of(relative, canonical).canonical == canonical,
{
    reveal_strlit("src");
    reveal_strlit("lib.rs");
    assert(lib_rs() =~= seq![seq!['s', 'r', 'c'], seq!['l', 'i', 'b', '.', 'r', 's']]) by {
        assert("src"@ =~= seq!['s', 'r', 'c']);
        assert("lib.rs"@ =~= seq!['l', 'i', 'b', '.', 'r', 's']);
    }
}

/// The entries are in path order.
pub open spec fn sorted_by_path(s: Seq<FileEntry>) -> bool {
    forall|i: int, j: int| 0 <= i < j < s.len() ==> !parts_lt(s[j].relative@, s[i].relative@)
}

/// Whether an entry's relative path is `p`.
pub open spec fn path_is(p: Seq<Seq<char>>) -> spec_fn(FileEntry) -> bool {
    |e: FileEntry| e.relative@ == p
}

/// The entries of `s` whose relative path is `p`, in order.
pub open spec fn with_path(s: Seq<FileEntry>, p: Seq<Seq<char>>) -> Seq<FileEntry> {
    s.filter(path_is(p))
}

proof fn lemma_with_path_none(s: Seq<FileEntry>, p: Seq<Seq<char>>)
    requires
        forall|i: int| 0 <= i < s.len() ==> #[trigger] s[i].relative@ != p,
    ensures
        with_path(s, p) =~= Seq::<FileEntry>::empty(),
{
    let pred = path_is(p);
    if s.filter(pred).len() > 0 {
        let x = s.filter(pred)[0];
        s.lemma_filter_pred(pred, 0);
        assert(s.filter(pred).contains(x));
        s.lemma_filter_contains_rev(pred, x);
        let k = choose|k: int| 0 <= k < s.len() && s[k] == x;
        assert(s[k].relative@ == p);
    }
}

impl FileEntry {
    /// The entry for a file; only `src/lib.rs` is not selectable.
    pub fn new(relative: RelPath, canonical: String) -> (e: FileEntry)
        ensures
            e == entry_of(relative, canonical),
    {
        let lib = is_lib_rs(&relative);
        FileEntry { relative, canonical, selectable: !lib }
    }
}

/// Whether `p` is `src/lib.rs`.
pub fn is_lib_rs(p: &RelPath) -> (b: bool)
    ensures
        b == (p@ == lib_rs()),
{
    if p.parts.len() != 2 {
        assert(p@.len() != lib_rs().len());
        return false;
    }
    let src = "src".to_owned();
    let lib = "lib.rs".to_owned();
    let b = p.parts[0] == src && p.parts[1] == lib;
    if b {
        assert(p@ =~= lib_rs());
    } else {
        assert(p@[0] != lib_rs()[0] || p@[1] != lib_rs()[1]);
    }
    b
}

proof fn lemma_insert_to_multiset<A>(s: Seq<A>, j: int, x: A)
    requires
        0 <= j <= s.len(),
    ensures
        s.insert(j, x).to_multiset() =~= s.to_multiset().insert(x),
{
    broadcast use vstd::multiset::group_multiset_axioms;

    let t = s.insert(j, x);
    assert(t.remove(j) =~= s);
    assert(t[j] == x);
    assert(t.contains(x));
}

/// The entries ordered by relative path; entries with equal paths keep
/// their order.
pub fn sort_entries(entries: Vec<FileEntry>) -> (r: Vec<FileEntry>)
    ensures
        sorted_by_path(r@),
        r@.to_multiset() =~= entries@.to_multiset(),
        forall|p: Seq<Seq<char>>| with_path(r@, p) == with_path(entries@, p),
{
    let mut rest = entries;
    let mut out: Vec<FileEntry> = Vec::new();
    while rest.len() > 0
        invariant
            sorted_by_path(out@),
            out@.to_multiset().add(rest@.to_multiset()) =~= entries@.to_multiset(),
            forall|p: Seq<Seq<char>>|
                #[trigger] with_path(out@, p) + with_path(rest@, p) == with_path(entries@, p),
        decreases rest@.len(),
    {
        let ghost rest0 = rest@;
        let e = rest.remove(0);
        assert(rest0 =~= seq![e] + rest@);
        assert(rest0.to_multiset() =~= rest@.to_multiset().insert(e)) by {
            broadcast use vstd::multiset::group_multiset_axioms;

            assert(rest0.remove(0) =~= rest@);
            assert(rest0.contains(e)) by {
                assert(rest0[0] == e);
            }
        }
        let mut j: usize = 0;
        while j < out.len() && !e.relative.precedes(&out[j].relative)
            invariant
                j <= out@.len(),
                forall|p: int| 0 <= p < j ==> !parts_lt(e.relative@, #[trigger] out@[p].relative@),
            decreases out@.len() - j,
        {
            j += 1;
        }
        let ghost out0 = out@;
        out.insert(j, e);
        proof {
            lemma_insert_to_multiset(out0, j as int, e);
            assert forall|p: int, q: int| 0 <= p < q < out@.len() implies !parts_lt(
                out@[q].relative@,
                out@[p].relative@,
            ) by {
                if q < j {
                    assert(out@[q] == out0[q] && out@[p] == out0[p]);
                } else if q == j {
                    assert(out@[p] == out0[p]);
                    if parts_lt(e.relative@, out0[p].relative@) {
                    }
                } else if p > j {
                    assert(out@[q] == out0[q - 1] && out@[p] == out0[p - 1]);
                } else if p == j {
                    assert(out@[q] == out0[q - 1]);
                    let w = out0[j as int].relative@;
                    if parts_lt(out0[q - 1].relative@, e.relative@) {
                        lemma_parts_lt_transitive(out0[q - 1].relative@, e.relative@, w);
                        if q - 1 == j {
                            lemma_parts_lt_irreflexive(w);
                        }
                    }
                } else {
                    assert(out@[q] == out0[q - 1] && out@[p] == out0[p]);
                }
            }
            assert(out@ =~= out0.take(j as int) + seq![e] + out0.skip(j as int));
            assert(out0 =~= out0.take(j as int) + out0.skip(j as int));
            assert forall|q: int| 0 <= q < out0.skip(j as int).len() implies #[trigger] out0.skip(
                j as int,
            )[q].relative@ != e.relative@ by {
                let w = out0[j as int].relative@;
                assert(out0.skip(j as int)[q] == out0[j + q]);
                if out0[j + q].relative@ == e.relative@ {
                    if q == 0 {
                        lemma_parts_lt_irreflexive(w);
                    }
                }
            }
            lemma_with_path_none(out0.skip(j as int), e.relative@);
            assert forall|p: Seq<Seq<char>>|
                #[trigger] with_path(out@, p) + with_path(rest@, p) == with_path(entries@, p) by {
                let pred = path_is(p);
                Seq::filter_distributes_over_add(out0.take(j as int) + seq![e], out0.skip(j as int), pred);
                Seq::filter_distributes_over_add(out0.take(j as int), seq![e], pred);
                Seq::filter_distributes_over_add(out0.take(j as int), out0.skip(j as int), pred);
                rest@.lemma_filter_prepend(e, pred);
                reveal_with_fuel(Seq::filter, 2);
                if p == e.relative@ {
                    assert(with_path(out@, p) =~= with_path(out0, p) + seq![e]);
                    assert(with_path(rest0, p) =~= seq![e] + with_path(rest@, p));
                } else {
                    assert(seq![e].filter(pred) =~= Seq::<FileEntry>::empty());
                    assert(with_path(out@, p) =~= with_path(out0, p));
                    assert(with_path(rest0, p) =~= with_path(rest@, p));
                }
                assert(with_path(out0, p) + with_path(rest0, p) == with_path(entries@, p));
            }
            broadcast use vstd::multiset::group_multiset_axioms;

            assert(out@.to_multiset().add(rest@.to_multiset()) =~= entries@.to_multiset());
        }
    }
    proof {
        broadcast use vstd::multiset::group_multiset_axioms;

        assert(rest@.to_multiset() =~= Multiset::empty());
        assert forall|p: Seq<Seq<char>>| with_path(out@, p) == with_path(entries@, p) by {
            assert(with_path(rest@, p) =~= Seq::<FileEntry>::empty()) by {
                reveal_with_fuel(Seq::filter, 1);
            }
            assert(with_path(out@, p) + with_path(rest@, p) == with_path(entries@, p));
            assert(with_path(out@, p) + Seq::<FileEntry>::empty() =~= with_path(out@, p));
        }
    }
    out
}

/// The walked files as entries, ordered by relative path: each pair holds
/// a file's path relative to the crate root and its canonical path.
pub fn collect_files(walked: Vec<(RelPath, String)>) -> (r: Vec<FileEntry>)
    ensures
        sorted_by_path(r@),
        r@.to_multiset() =~= walked@.map_values(|w: (RelPath, String)| entry_of(w.0, w.1)).to_multiset(),
        forall|p: Seq<Seq<char>>|
            with_path(r@, p) == with_path(
                walked@.map_values(|w: (RelPath, String)| entry_of(w.0, w.1)),
                p,
            ),
{
    let ghost target = walked@.map_values(|w: (RelPath, String)| entry_of(w.0, w.1));
    let mut rest = walked;
    let mut made: Vec<FileEntry> = Vec::new();
    while rest.len() > 0
        invariant
            made@ + rest@.map_values(|w: (RelPath, String)| entry_of(w.0, w.1)) == target,
        decreases rest@.len(),
    {
        let ghost rest0 = rest@;
        let (relative, canonical) = rest.remove(0);
        let e = FileEntry::new(relative, canonical);
        let ghost made0 = made@;
        made.push(e);
        assert(made@ + rest@.map_values(|w: (RelPath, String)| entry_of(w.0, w.1)) =~= made0
            + rest0.map_values(|w: (RelPath, String)| entry_of(w.0, w.1)));
    }
    assert(made@ =~= target);
    sort_entries(made)
}

/// One entry of the list the user picks from: the text shown and the index
/// of the entry it stands for.
pub struct PickChoice {
    pub key: String,
    pub value: usize,
}

/// The label for what the history says of a file.
pub open spec fn status_label(s: Option<bool>) -> Seq<char> {
    match s {
        Some(true) => "ICE_FOUND"@,
        Some(false) => "NO_ICE"@,
        None => "UNKNOWN"@,
    }
}

/// The components of a path joined by `sep`, as the path is displayed.
pub open spec fn joined(parts: Seq<Seq<char>>, sep: char) -> Seq<char>
    decreases parts.len(),
{
    if parts.len() == 0 {
        seq![]
    } else if parts.len() == 1 {
        parts[0]
    } else {
        joined(parts.drop_last(), sep).push(sep) + parts.last()
    }
}

/// The text shown for an entry: `LABEL canonical (relative)`.
pub open spec fn choice_key(e: FileEntry, h: Map<Seq<char>, bool>, sep: char) -> Seq<char> {
    status_label(lookup(h, e.canonical@)) + " "@ + e.canonical@ + " ("@ + joined(e.relative@, sep)
        + ")"@
}

/// The choices for the selectable entries, in order, each with its index.
pub open spec fn choices_for(entries: Seq<FileEntry>, h: Map<Seq<char>, bool>, sep: char) -> Seq<
    (Seq<char>, usize),
>
    decreases entries.len(),
{
    if entries.len() == 0 {
        seq![]
    } else {
        let prev = choices_for(entries.drop_last(), h, sep);
        let e = entries.last();
        if e.selectable {
            prev.push((choice_key(e, h, sep), (entries.len() - 1) as usize))
        } else {
            prev
        }
    }
}

/// The label of a choice is what the history records for the entry's
/// canonical path, looked up unchanged: `ICE_FOUND` for a crash, `NO_ICE`
/// for a clean run, `UNKNOWN` when nothing is recorded; the canonical path
/// follows the label and a space, as it is.
pub proof fn lemma_choice_label_follows_history(e: FileEntry, h: Map<Seq<char>, bool>, sep: char)
    ensures
        h.contains_key(e.canonical@) && h[e.canonical@] ==> choice_key(e, h, sep).take(10)
            == seq!['I', 'C', 'E', '_', 'F', 'O', 'U', 'N', 'D', ' '] && choice_key(e, h, sep).skip(10).take(
            e.canonical@.len() as int,
        ) == e.canonical@,
        h.contains_key(e.canonical@) && !h[e.canonical@] ==> choice_key(e, h, sep).take(7)
            == seq!['N', 'O', '_', 'I', 'C', 'E', ' '] && choice_key(e, h, sep).skip(7).take(
            e.canonical@.len() as int,
        ) == e.canonical@,
        !h.contains_key(e.canonical@) ==> choice_key(e, h, sep).take(8) == seq!['U', 'N', 'K', 'N', 'O', 'W', 'N', ' ']
            && choice_key(e, h, sep).skip(8).take(e.canonical@.len() as int) == e.canonical@,
{
    reveal_strlit("ICE_FOUND");
    reveal_strlit("NO_ICE");
    reveal_strlit("UNKNOWN");
    reveal_strlit(" ");
    let k = choice_key(e, h, sep);
    let c = e.canonical@;
    let rest = " ("@ + joined(e.relative@, sep) + ")"@;
    let label = status_label(lookup(h, c));
    assert(k =~= label + " "@ + c + rest);
    let n = label.len() + 1;
    assert(k.take(n as int) =~= label + " "@);
    assert(k.skip(n as int).take(c.len() as int) =~= c);
}

/// A choice as its text and index.
pub open spec fn choice_view(c: PickChoice) -> (Seq<char>, usize) {
    (c.key@, c.value)
}

/// The path's components joined by `sep`.
pub fn display_path(p: &RelPath, sep: char) -> (s: String)
    ensures
        s@ == joined(p@, sep),
{
    let mut s = String::new();
    let mut i: usize = 0;
    while i < p.parts.len()
        invariant
            i <= p@.len(),
            s@ == joined(p@.take(i as int), sep),
        decreases p@.len() - i,
    {
        let ghost before = s@;
        if i > 0 {
            push_char(&mut s, sep);
        }
        s.append(p.parts[i].as_str());
        assert(p@.take(i + 1).drop_last() =~= p@.take(i as int));
        if i == 0 {
            assert(before =~= Seq::<char>::empty());
            assert(s@ =~= joined(p@.take(1), sep));
        }
        i += 1;
    }
    assert(p@.take(i as int) =~= p@);
    s
}

/// The text shown for `e`.
pub fn make_choice_key(e: &FileEntry, history: &History, sep: char) -> (key: String)
    ensures
        key@ == choice_key(*e, history@, sep),
{
    let label: &str = match history.get(e.canonical.as_str()) {
        Some(true) => "ICE_FOUND",
        Some(false) => "NO_ICE",
        None => "UNKNOWN",
    };
    let mut key = label.to_owned();
    key.append(" ");
    key.append(e.canonical.as_str());
    key.append(" (");
    let shown = display_path(&e.relative, sep);
    key.append(shown.as_str());
    key.append(")");
    key
}

/// The choices offered for the next run: one per selectable entry, in
/// order, labelled with what the history says of it; and whether there is
/// any.
pub fn build_choices(entries: &Vec<FileEntry>, history: &History, sep: char) -> (r: (
    Vec<PickChoice>,
    bool,
))
    ensures
        r.0@.map_values(|c: PickChoice| choice_view(c)) == choices_for(entries@, history@, sep),
        r.1 == (r.0@.len() > 0),
{
    let mut choices: Vec<PickChoice> = Vec::new();
    let mut idx: usize = 0;
    while idx < entries.len()
        invariant
            idx <= entries@.len(),
            choices@.map_values(|c: PickChoice| choice_view(c)) == choices_for(
                entries@.take(idx as int),
                history@,
                sep,
            ),
        decreases entries@.len() - idx,
    {
        let ghost before = choices@;
        assert(entries@.take(idx + 1).drop_last() =~= entries@.take(idx as int));
        assert(entries@.take(idx + 1).last() == entries@[idx as int]);
        let entry = &entries[idx];
        if entry.selectable {
            let key = make_choice_key(entry, history, sep);
            choices.push(PickChoice { key, value: idx });
            assert(choices@.map_values(|c: PickChoice| choice_view(c)) =~= before.map_values(
                |c: PickChoice| choice_view(c),
            ).push(choice_view(choices@[before.len() as int])));
        }
        idx += 1;
    }
    assert(entries@.take(idx as int) =~= entries@);
    let has_choices = choices.len() > 0;
    (choices, has_choices)
}

/// Each choice stands for a selectable entry, shows that entry's text and
/// comes in the order of the entries; every selectable entry has a choice.
pub proof fn lemma_choices_cover_selectable(
    entries: Seq<FileEntry>,
    h: Map<Seq<char>, bool>,
    sep: char,
)
    requires
        entries.len() <= usize::MAX,
    ensures
        forall|k: int|
            0 <= k < choices_for(entries, h, sep).len() ==> {
                let c = #[trigger] choices_for(entries, h, sep)[k];
                &&& c.1 < entries.len()
                &&& entries[c.1 as int].selectable
                &&& c.0 == choice_key(entries[c.1 as int], h, sep)
            },
        forall|k1: int, k2: int|
            0 <= k1 < k2 < choices_for(entries, h, sep).len() ==> choices_for(entries, h, sep)[k1].1
                < choices_for(entries, h, sep)[k2].1,
        forall|i: int|
            0 <= i < entries.len() && #[trigger] entries[i].selectable ==> exists|k: int|
                0 <= k < choices_for(entries, h, sep).len() && choices_for(entries, h, sep)[k].1
                    == i,
    decreases entries.len(),
{
    if entries.len() > 0 {
        let init = entries.drop_last();
        lemma_choices_cover_selectable(init, h, sep);
        let prev = choices_for(init, h, sep);
        let c = choices_for(entries, h, sep);
        let last = entries.last();
        assert(c == if last.selectable {
            prev.push((choice_key(last, h, sep), (entries.len() - 1) as usize))
        } else {
            prev
        });
        assert(last == entries[entries.len() - 1]);
        assert forall|k: int|
            0 <= k < c.len() implies {
                let ck = #[trigger] c[k];
                &&& ck.1 < entries.len()
                &&& entries[ck.1 as int].selectable
                &&& ck.0 == choice_key(entries[ck.1 as int], h, sep)
            } by {
            if k < prev.len() {
                assert(c[k] == prev[k]);
                assert(entries[prev[k].1 as int] == init[prev[k].1 as int]);
            }
        }
        assert forall|i: int|
            0 <= i < entries.len() && #[trigger] entries[i].selectable implies exists|k: int|
                0 <= k < c.len() && c[k].1 == i by {
            if i < init.len() {
                assert(init[i] == entries[i]);
                let k = choose|k: int| 0 <= k < prev.len() && prev[k].1 == i;
                assert(c[k] == prev[k]);
            } else {
                assert(c[prev.len() as int].1 == i);
            }
        }
        assert forall|k1: int, k2: int| 0 <= k1 < k2 < c.len() implies c[k1].1 < c[k2].1 by {
            assert(c[k1] == prev[k1]);
            if k2 < prev.len() {
                assert(c[k2] == prev[k2]);
            }
        }
    }
}

} // verus!
