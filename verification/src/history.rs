//! The record of which files were part of a `cargo fmt` run that crashed
//! (`true`) or did not (`false`), keyed by canonical path.
use vstd::prelude::*;

verus! {

/// No key occurs twice.
pub open spec fn keys_distinct(e: Seq<(String, bool)>) -> bool {
    forall|i: int, j: int| 0 <= i < j < e.len() ==> e[i].0@ != e[j].0@
}

/// The map that a list of distinct key/value pairs stands for.
pub open spec fn map_of(e: Seq<(String, bool)>) -> Map<Seq<char>, bool> {
    Map::new(
        |k: Seq<char>| exists|i: int| 0 <= i < e.len() && e[i].0@ == k,
        |k: Seq<char>| e[choose|i: int| 0 <= i < e.len() && e[i].0@ == k].1,
    )
}

/// What looking `k` up in `m` gives.
pub open spec fn lookup(m: Map<Seq<char>, bool>, k: Seq<char>) -> Option<bool> {
    if m.contains_key(k) {
        Some(m[k])
    } else {
        None
    }
}

/// `m` after setting each of `keys`, in order, to `v`.
pub open spec fn recorded(m: Map<Seq<char>, bool>, keys: Seq<Seq<char>>, v: bool) -> Map<
    Seq<char>,
    bool,
>
    decreases keys.len(),
{
    if keys.len() == 0 {
        m
    } else {
        recorded(m, keys.drop_last(), v).insert(keys.last(), v)
    }
}

proof fn lemma_map_of_at(e: Seq<(String, bool)>, i: int)
    requires
        keys_distinct(e),
        0 <= i < e.len(),
    ensures
        map_of(e).contains_key(e[i].0@),
        map_of(e)[e[i].0@] == e[i].1,
{
    let k = e[i].0@;
    assert(exists|j: int| 0 <= j < e.len() && e[j].0@ == k);
    let j = choose|j: int| 0 <= j < e.len() && e[j].0@ == k;
    if j < i {
        assert(e[j].0@ != e[i].0@);
    } else if i < j {
        assert(e[i].0@ != e[j].0@);
    }
}

/// Canonical path to the outcome of the last run that included it.
pub struct History {
    statuses: Vec<(String, bool)>,
}

impl View for History {
    type V = Map<Seq<char>, bool>;

    closed spec fn view(&self) -> Map<Seq<char>, bool> {
        map_of(self.statuses@)
    }
}

impl History {
    #[verifier::type_invariant]
    spec fn wf(self) -> bool {
        keys_distinct(self.statuses@)
    }

    /// An empty history.
    pub fn new() -> (h: History)
        ensures
            h@ == Map::<Seq<char>, bool>::empty(),
    {
        let h = History { statuses: Vec::new() };
        assert(map_of(h.statuses@) =~= Map::<Seq<char>, bool>::empty());
        h
    }

    /// The index of `key` among the entries, if it is there.
    fn position(&self, key: &String) -> (r: Option<usize>)
        ensures
            match r {
                Some(i) => i < self.statuses@.len() && self.statuses@[i as int].0@ == key@,
                None => forall|j: int|
                    0 <= j < self.statuses@.len() ==> self.statuses@[j].0@ != key@,
            },
    {
        let mut i: usize = 0;
        while i < self.statuses.len()
            invariant
                i <= self.statuses@.len(),
                forall|j: int| 0 <= j < i ==> self.statuses@[j].0@ != key@,
            decreases self.statuses@.len() - i,
        {
            if self.statuses[i].0 == *key {
                return Some(i);
            }
            i += 1;
        }
        None
    }

    /// Records the outcome `ice_found` for `canonical`, replacing an earlier
    /// one.
    pub fn insert(&mut self, canonical: &str, ice_found: bool)
        ensures
            final(self)@ == old(self)@.insert(canonical@, ice_found),
    {
        proof {
            use_type_invariant(&*self);
        }
        let key = canonical.to_owned();
        let found = self.position(&key);
        let mut entries: Vec<(String, bool)> = Vec::new();
        std::mem::swap(&mut entries, &mut self.statuses);
        let ghost old_e = entries@;
        assert(keys_distinct(old_e));
        match found {
            Some(i) => {
                entries.set(i, (key, ice_found));
            },
            None => {
                entries.push((key, ice_found));
            },
        }
        let ghost new_e = entries@;
        assert(keys_distinct(new_e));
        assert(map_of(new_e) =~= map_of(old_e).insert(canonical@, ice_found)) by {
            assert forall|k: Seq<char>|
                map_of(new_e).contains_key(k) <==> map_of(old_e).insert(
                    canonical@,
                    ice_found,
                ).contains_key(k) by {
                if map_of(new_e).contains_key(k) {
                    let j = choose|j: int| 0 <= j < new_e.len() && new_e[j].0@ == k;
                    if k != canonical@ {
                        assert(old_e[j].0@ == k);
                    }
                }
                if map_of(old_e).contains_key(k) && k != canonical@ {
                    let j = choose|j: int| 0 <= j < old_e.len() && old_e[j].0@ == k;
                    assert(new_e[j].0@ == k);
                }
                if k == canonical@ {
                    match found {
                        Some(i) => assert(new_e[i as int].0@ == k),
                        None => assert(new_e[new_e.len() - 1].0@ == k),
                    }
                }
            }
            assert forall|k: Seq<char>| #[trigger]
                map_of(new_e).contains_key(k) implies map_of(new_e)[k] == map_of(old_e).insert(
                canonical@,
                ice_found,
            )[k] by {
                let j = choose|j: int| 0 <= j < new_e.len() && new_e[j].0@ == k;
                lemma_map_of_at(new_e, j);
                if k != canonical@ {
                    assert(old_e[j] == new_e[j]);
                    lemma_map_of_at(old_e, j);
                }
            }
        }
        self.statuses = entries;
    }

    /// The outcome recorded for `canonical`, if any.
    pub fn get(&self, canonical: &str) -> (r: Option<bool>)
        ensures
            r == lookup(self@, canonical@),
    {
        proof {
            use_type_invariant(self);
        }
        let key = canonical.to_owned();
        match self.position(&key) {
            Some(i) => {
                proof {
                    lemma_map_of_at(self.statuses@, i as int);
                }
                Some(self.statuses[i].1)
            },
            None => None,
        }
    }

    /// Records `ice_found` for every path in `canonicals`, in order.
    pub fn record_run(&mut self, canonicals: &Vec<String>, ice_found: bool)
        ensures
            final(self)@ == recorded(
                old(self)@,
                canonicals@.map_values(|c: String| c@),
                ice_found,
            ),
    {
        let mut i: usize = 0;
        while i < canonicals.len()
            invariant
                i <= canonicals@.len(),
                self@ == recorded(
                    old(self)@,
                    canonicals@.map_values(|c: String| c@).take(i as int),
                    ice_found,
                ),
            decreases canonicals@.len() - i,
        {
            self.insert(canonicals[i].as_str(), ice_found);
            let ghost keys = canonicals@.map_values(|c: String| c@);
            assert(keys.take(i + 1).drop_last() =~= keys.take(i as int));
            i += 1;
        }
        assert(canonicals@.map_values(|c: String| c@).take(i as int) =~= canonicals@.map_values(
            |c: String| c@,
        ));
    }

    /// The recorded entries, each key once.
    pub fn entries(&self) -> (r: &Vec<(String, bool)>)
        ensures
            keys_distinct(r@),
            map_of(r@) == self@,
    {
        proof {
            use_type_invariant(self);
        }
        &self.statuses
    }
}

/// Looking a path up right after recording an outcome for it gives that
/// outcome; looking up any other path gives what it gave before.
pub proof fn lemma_lookup_after_insert(
    m: Map<Seq<char>, bool>,
    k: Seq<char>,
    v: bool,
    other: Seq<char>,
)
    ensures
        lookup(m.insert(k, v), k) == Some(v),
        other != k ==> lookup(m.insert(k, v), other) == lookup(m, other),
{
}

/// After a run is recorded, every path of the run maps to its outcome and
/// every other path keeps what it had.
pub proof fn lemma_recorded(m: Map<Seq<char>, bool>, keys: Seq<Seq<char>>, v: bool, k: Seq<char>)
    ensures
        keys.contains(k) ==> lookup(recorded(m, keys, v), k) == Some(v),
        !keys.contains(k) ==> lookup(recorded(m, keys, v), k) == lookup(m, k),
    decreases keys.len(),
{
    if keys.len() > 0 {
        lemma_recorded(m, keys.drop_last(), v, k);
        if k != keys.last() {
            if keys.contains(k) {
                let j = choose|j: int| 0 <= j < keys.len() && keys[j] == k;
                assert(keys.drop_last()[j] == k);
            }
            if keys.drop_last().contains(k) {
                let j = choose|j: int| 0 <= j < keys.drop_last().len() && keys.drop_last()[j] == k;
                assert(keys[j] == k);
            }
        } else {
            assert(keys[keys.len() - 1] == k);
        }
    }
}

} // verus!
