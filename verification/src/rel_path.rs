//! Relative paths as sequences of components, and their order.
//!
//! Two paths are compared component by component; two components are
//! compared character by character by code point, which is the order of
//! their UTF-8 bytes; a proper prefix comes first.
use vstd::prelude::*;
use crate::text::chars_of;

verus! {

/// Lexicographic order on strings by code point.
pub open spec fn chars_lt(a: Seq<char>, b: Seq<char>) -> bool
    decreases a.len(),
{
    if a.len() == 0 {
        b.len() > 0
    } else if b.len() == 0 {
        false
    } else if a[0] != b[0] {
        a[0] < b[0]
    } else {
        chars_lt(a.drop_first(), b.drop_first())
    }
}

/// Lexicographic order on paths, component by component.
pub open spec fn parts_lt(a: Seq<Seq<char>>, b: Seq<Seq<char>>) -> bool
    decreases a.len(),
{
    if a.len() == 0 {
        b.len() > 0
    } else if b.len() == 0 {
        false
    } else if a[0] != b[0] {
        chars_lt(a[0], b[0])
    } else {
        parts_lt(a.drop_first(), b.drop_first())
    }
}

/// No string comes before itself.
pub proof fn lemma_chars_lt_irreflexive(a: Seq<char>)
    ensures
        !chars_lt(a, a),
    decreases a.len(),
{
    if a.len() > 0 {
        lemma_chars_lt_irreflexive(a.drop_first());
    }
}

/// The order on strings is transitive.
pub proof fn lemma_chars_lt_transitive(a: Seq<char>, b: Seq<char>, c: Seq<char>)
    requires
        chars_lt(a, b),
        chars_lt(b, c),
    ensures
        chars_lt(a, c),
    decreases a.len(),
{
    if a.len() > 0 && a[0] == b[0] && b[0] == c[0] {
        lemma_chars_lt_transitive(a.drop_first(), b.drop_first(), c.drop_first());
    }
}

/// Two different strings are ordered one way or the other.
pub proof fn lemma_chars_lt_total(a: Seq<char>, b: Seq<char>)
    requires
        a != b,
    ensures
        chars_lt(a, b) || chars_lt(b, a),
    decreases a.len(),
{
    if a.len() > 0 && b.len() > 0 && a[0] == b[0] {
        if a.drop_first() == b.drop_first() {
            assert(a =~= seq![a[0]] + a.drop_first());
            assert(b =~= seq![b[0]] + b.drop_first());
        }
        lemma_chars_lt_total(a.drop_first(), b.drop_first());
    } else if a.len() == 0 && b.len() == 0 {
        assert(a =~= b);
    }
}

/// No path comes before itself.
pub proof fn lemma_parts_lt_irreflexive(a: Seq<Seq<char>>)
    ensures
        !parts_lt(a, a),
    decreases a.len(),
{
    if a.len() > 0 {
        lemma_parts_lt_irreflexive(a.drop_first());
    }
}

/// The order on paths is transitive.
pub proof fn lemma_parts_lt_transitive(a: Seq<Seq<char>>, b: Seq<Seq<char>>, c: Seq<Seq<char>>)
    requires
        parts_lt(a, b),
        parts_lt(b, c),
    ensures
        parts_lt(a, c),
    decreases a.len(),
{
    if a.len() > 0 {
        if a[0] != b[0] {
            if b[0] != c[0] {
                lemma_chars_lt_transitive(a[0], b[0], c[0]);
                if a[0] == c[0] {
                    lemma_chars_lt_transitive(a[0], b[0], a[0]);
                    lemma_chars_lt_irreflexive(a[0]);
                }
            }
        } else if b[0] == c[0] {
            lemma_parts_lt_transitive(a.drop_first(), b.drop_first(), c.drop_first());
        }
    }
}

/// Two different paths are ordered one way or the other.
pub proof fn lemma_parts_lt_total(a: Seq<Seq<char>>, b: Seq<Seq<char>>)
    requires
        a != b,
    ensures
        parts_lt(a, b) || parts_lt(b, a),
    decreases a.len(),
{
    if a.len() > 0 && b.len() > 0 {
        if a[0] == b[0] {
            if a.drop_first() == b.drop_first() {
                assert(a =~= seq![a[0]] + a.drop_first());
                assert(b =~= seq![b[0]] + b.drop_first());
            }
            lemma_parts_lt_total(a.drop_first(), b.drop_first());
        } else {
            lemma_chars_lt_total(a[0], b[0]);
        }
    } else if a.len() == 0 && b.len() == 0 {
        assert(a =~= b);
    }
}

/// Decides `chars_lt`.
pub fn chars_less(a: &Vec<char>, b: &Vec<char>) -> (r: bool)
    ensures
        r == chars_lt(a@, b@),
{
    let mut i: usize = 0;
    assert(a@.skip(0) =~= a@);
    assert(b@.skip(0) =~= b@);
    while i < a.len() && i < b.len()
        invariant
            i <= a@.len(),
            i <= b@.len(),
            chars_lt(a@, b@) == chars_lt(a@.skip(i as int), b@.skip(i as int)),
        decreases a@.len() - i,
    {
        if a[i] != b[i] {
            return a[i] < b[i];
        }
        assert(a@.skip(i as int).drop_first() =~= a@.skip(i + 1));
        assert(b@.skip(i as int).drop_first() =~= b@.skip(i + 1));
        i += 1;
    }
    i == a.len() && i < b.len()
}

/// The contents of a list of strings.
pub open spec fn views_of(v: Seq<String>) -> Seq<Seq<char>> {
    v.map_values(|p: String| p@)
}

/// A path relative to the root of the crate being reduced, as its
/// components.
pub struct RelPath {
    pub parts: Vec<String>,
}

impl View for RelPath {
    type V = Seq<Seq<char>>;

    open spec fn view(&self) -> Seq<Seq<char>> {
        views_of(self.parts@)
    }
}

impl RelPath {
    /// A copy of the path.
    pub fn duplicate(&self) -> (r: RelPath)
        ensures
            r@ == self@,
    {
        let mut parts: Vec<String> = Vec::new();
        let mut i: usize = 0;
        while i < self.parts.len()
            invariant
                i <= self.parts@.len(),
                views_of(parts@) == self@.take(i as int),
                parts@.len() == i,
            decreases self.parts@.len() - i,
        {
            let ghost prev = parts@;
            let c = self.parts[i].clone();
            parts.push(c);
            assert forall|j: int| 0 <= j < i + 1 implies #[trigger] views_of(parts@)[j] == self@.take(i + 1)[j] by {
                if j < i {
                    assert(parts@[j] == prev[j]);
                    assert(views_of(prev)[j] == self@.take(i as int)[j]);
                }
            }
            assert(views_of(parts@) =~= self@.take(i + 1));
            i += 1;
        }
        assert(self@.take(i as int) =~= self@);
        RelPath { parts }
    }

    /// Whether the two paths have the same components.
    pub fn same_as(&self, other: &RelPath) -> (r: bool)
        ensures
            r == (self@ == other@),
    {
        if self.parts.len() != other.parts.len() {
            assert(self@.len() != other@.len());
            return false;
        }
        let mut i: usize = 0;
        while i < self.parts.len()
            invariant
                i <= self.parts@.len(),
                self.parts@.len() == other.parts@.len(),
                forall|j: int| 0 <= j < i ==> self@[j] == other@[j],
            decreases self.parts@.len() - i,
        {
            if self.parts[i] != other.parts[i] {
                assert(self@[i as int] != other@[i as int]);
                return false;
            }
            i += 1;
        }
        assert(self@ =~= other@);
        true
    }

    /// Whether this path comes before `other`.
    pub fn precedes(&self, other: &RelPath) -> (r: bool)
        ensures
            r == parts_lt(self@, other@),
    {
        let a = &self.parts;
        let b = &other.parts;
        let ghost sa = self@;
        let ghost sb = other@;
        assert(sa.skip(0) =~= sa);
        assert(sb.skip(0) =~= sb);
        let mut i: usize = 0;
        while i < a.len() && i < b.len()
            invariant
                a == &self.parts,
                b == &other.parts,
                sa == self@,
                sb == other@,
                i <= sa.len(),
                i <= sb.len(),
                parts_lt(sa, sb) == parts_lt(sa.skip(i as int), sb.skip(i as int)),
            decreases sa.len() - i,
        {
            if a[i] != b[i] {
                let ca = chars_of(a[i].as_str());
                let cb = chars_of(b[i].as_str());
                assert(sa.skip(i as int)[0] == sa[i as int]);
                assert(sb.skip(i as int)[0] == sb[i as int]);
                return chars_less(&ca, &cb);
            }
            assert(sa.skip(i as int).drop_first() =~= sa.skip(i + 1));
            assert(sb.skip(i as int).drop_first() =~= sb.skip(i + 1));
            i += 1;
        }
        i == a.len() && i < b.len()
    }

    /// The path without its last component (the empty path stays empty).
    pub fn parent(&self) -> (r: RelPath)
        ensures
            r@ == parent_of(self@),
    {
        let mut parts: Vec<String> = Vec::new();
        let n = if self.parts.len() == 0 {
            0
        } else {
            self.parts.len() - 1
        };
        let mut i: usize = 0;
        while i < n
            invariant
                n <= self.parts@.len(),
                n == (if self@.len() == 0 { 0 } else { self@.len() - 1 }),
                i <= n,
                views_of(parts@) == self@.take(i as int),
                parts@.len() == i,
            decreases n - i,
        {
            let ghost prev = parts@;
            let c = self.parts[i].clone();
            parts.push(c);
            assert forall|j: int| 0 <= j < i + 1 implies #[trigger] views_of(parts@)[j] == self@.take(i + 1)[j] by {
                if j < i {
                    assert(parts@[j] == prev[j]);
                    assert(views_of(prev)[j] == self@.take(i as int)[j]);
                }
            }
            assert(views_of(parts@) =~= self@.take(i + 1));
            i += 1;
        }
        RelPath { parts }
    }

    /// This path with `name` appended as a last component.
    pub fn join(self, name: String) -> (r: RelPath)
        ensures
            r@ == self@.push(name@),
    {
        let mut parts = self.parts;
        let ghost before = parts@;
        parts.push(name);
        assert(views_of(parts@) =~= views_of(before).push(
            name@,
        ));
        RelPath { parts }
    }
}

/// The parent of a path; the empty path is its own parent.
pub open spec fn parent_of(p: Seq<Seq<char>>) -> Seq<Seq<char>> {
    if p.len() == 0 {
        p
    } else {
        p.drop_last()
    }
}

} // verus!
