//! Bookkeeping for copying a crate's module files: which files have been
//! copied, which still have to be read for `mod` declarations, and where a
//! declared module's file may be.
use vstd::prelude::*;
use crate::mod_decls::{find_mod_decls, mod_decls};
use crate::rel_path::{RelPath, parent_of};

verus! {

/// The two places where module `name`, declared in the file at `rel`, may
/// live: `<parent>/<name>.rs` and `<parent>/<name>/mod.rs`.
pub open spec fn candidates_of(rel: Seq<Seq<char>>, name: Seq<char>) -> Seq<Seq<Seq<char>>> {
    seq![
        parent_of(rel).push(name + ".rs"@),
        parent_of(rel).push(name).push("mod.rs"@),
    ]
}

/// The candidates for each of `names`, in order.
pub open spec fn candidates_of_all(rel: Seq<Seq<char>>, names: Seq<Seq<char>>) -> Seq<
    Seq<Seq<char>>,
>
    decreases names.len(),
{
    if names.len() == 0 {
        seq![]
    } else {
        candidates_of_all(rel, names.drop_last()) + candidates_of(rel, names.last())
    }
}

/// The contents of a list of paths.
pub open spec fn paths_of(v: Seq<RelPath>) -> Seq<Seq<Seq<char>>> {
    v.map_values(|p: RelPath| p@)
}

/// The files where module `module`, declared in `rel`, may live.
pub fn module_candidates(rel: &RelPath, module: &String) -> (r: (RelPath, RelPath))
    ensures
        seq![r.0@, r.1@] == candidates_of(rel@, module@),
{
    let parent = rel.parent();
    let mut file = module.clone();
    file.append(".rs");
    let first = parent.duplicate().join(file);
    let second = parent.join(module.clone()).join("mod.rs".to_owned());
    assert(seq![first@, second@] =~= candidates_of(rel@, module@));
    (first, second)
}

/// The files where the modules declared in `contents`, the text of the file
/// at `rel`, may live: two per declaration, in order.
pub fn source_candidates(rel: &RelPath, contents: &str) -> (r: Vec<RelPath>)
    ensures
        paths_of(r@) == candidates_of_all(rel@, mod_decls(contents@)),
{
    let names = find_mod_decls(contents);
    let ghost ns = names@.map_values(|n: String| n@);
    let mut r: Vec<RelPath> = Vec::new();
    let mut i: usize = 0;
    while i < names.len()
        invariant
            i <= names@.len(),
            ns == names@.map_values(|n: String| n@),
            paths_of(r@) == candidates_of_all(rel@, ns.take(i as int)),
        decreases names@.len() - i,
    {
        let (a, b) = module_candidates(rel, &names[i]);
        let ghost before = paths_of(r@);
        r.push(a);
        r.push(b);
        assert(ns.take(i + 1).drop_last() =~= ns.take(i as int));
        assert(ns.take(i + 1).last() == names@[i as int]@);
        assert(paths_of(r@) =~= before + candidates_of(rel@, names@[i as int]@));
        i += 1;
    }
    assert(ns.take(i as int) =~= ns);
    r
}

/// The set of copied files and the stack of copied files whose `mod`
/// declarations have not been followed yet.
pub struct ModuleWalk {
    queue: Vec<RelPath>,
    copied: Vec<RelPath>,
}

impl ModuleWalk {
    /// The files still to be read, the last one first.
    pub closed spec fn queued(&self) -> Seq<Seq<Seq<char>>> {
        paths_of(self.queue@)
    }

    /// The files copied so far.
    pub closed spec fn copied_set(&self) -> Set<Seq<Seq<char>>> {
        paths_of(self.copied@).to_set()
    }

    /// Every queued file has been copied, and no file is queued twice.
    pub closed spec fn wf(&self) -> bool {
        &&& forall|i: int|
            0 <= i < self.queue@.len() ==> self.copied_set().contains(#[trigger] self.queue@[i]@)
        &&& forall|i: int, j: int|
            0 <= i < j < self.queue@.len() ==> self.queue@[i]@ != self.queue@[j]@
    }

    /// Nothing copied, nothing queued.
    pub fn new() -> (w: ModuleWalk)
        ensures
            w.wf(),
            w.queued() == Seq::<Seq<Seq<char>>>::empty(),
            w.copied_set() == Set::<Seq<Seq<char>>>::empty(),
    {
        let w = ModuleWalk { queue: Vec::new(), copied: Vec::new() };
        assert(paths_of(w.queue@) =~= Seq::<Seq<Seq<char>>>::empty());
        assert(paths_of(w.copied@).to_set() =~= Set::<Seq<Seq<char>>>::empty());
        w
    }

    /// Whether `p` has been copied.
    pub fn is_copied(&self, p: &RelPath) -> (b: bool)
        ensures
            b == self.copied_set().contains(p@),
    {
        let mut i: usize = 0;
        while i < self.copied.len()
            invariant
                i <= self.copied@.len(),
                forall|j: int| 0 <= j < i ==> self.copied@[j]@ != p@,
            decreases self.copied@.len() - i,
        {
            if self.copied[i].same_as(p) {
                assert(paths_of(self.copied@)[i as int] == p@);
                return true;
            }
            i += 1;
        }
        assert(!paths_of(self.copied@).contains(p@));
        false
    }

    /// Marks `p` as copied and queues it for reading, unless it was copied
    /// already; says whether it was new (and so has to be copied now).
    pub fn offer(&mut self, p: RelPath) -> (added: bool)
        requires
            old(self).wf(),
        ensures
            final(self).wf(),
            added == !old(self).copied_set().contains(p@),
            final(self).copied_set() == old(self).copied_set().insert(p@),
            final(self).queued() == if added {
                old(self).queued().push(p@)
            } else {
                old(self).queued()
            },
    {
        if self.is_copied(&p) {
            assert(self.copied_set().insert(p@) =~= self.copied_set());
            return false;
        }
        let ghost old_copied = paths_of(self.copied@);
        let ghost old_queue = paths_of(self.queue@);
        let q = p.duplicate();
        self.copied.push(p);
        self.queue.push(q);
        assert(paths_of(self.copied@) =~= old_copied.push(q@));
        assert(paths_of(self.queue@) =~= old_queue.push(q@));
        assert forall|x: Seq<Seq<char>>|
            old_copied.push(q@).contains(x) <==> old_copied.to_set().insert(q@).contains(x) by {
            if old_copied.contains(x) {
                let k = choose|k: int| 0 <= k < old_copied.len() && old_copied[k] == x;
                assert(old_copied.push(q@)[k] == x);
            }
            if x == q@ {
                assert(old_copied.push(q@)[old_copied.len() as int] == x);
            }
            if old_copied.push(q@).contains(x) && x != q@ {
                let k = choose|k: int| 0 <= k < old_copied.len() + 1 && old_copied.push(q@)[k] == x;
                assert(old_copied[k] == x);
            }
        }
        assert(old_copied.push(q@).to_set() =~= old_copied.to_set().insert(q@));
        assert forall|i: int| 0 <= i < self.queue@.len() implies self.copied_set().contains(
            #[trigger] self.queue@[i]@,
        ) by {
            if i < self.queue@.len() - 1 {
                assert(old_queue[i] == self.queue@[i]@);
            }
        }
        assert forall|i: int, j: int|
            0 <= i < j < self.queue@.len() implies self.queue@[i]@ != self.queue@[j]@ by {
            if j == self.queue@.len() - 1 {
                assert(old_queue[i] == self.queue@[i]@);
                assert(old_copied.to_set().contains(self.queue@[i]@));
            }
        }
        true
    }

    /// Takes the most recently queued file off the queue.
    pub fn pop(&mut self) -> (r: Option<RelPath>)
        requires
            old(self).wf(),
        ensures
            final(self).wf(),
            final(self).copied_set() == old(self).copied_set(),
            match r {
                Some(p) => {
                    &&& old(self).queued().len() > 0
                    &&& p@ == old(self).queued().last()
                    &&& final(self).queued() == old(self).queued().drop_last()
                    &&& old(self).copied_set().contains(p@)
                },
                None => old(self).queued().len() == 0 && final(self).queued() == old(self).queued(),
            },
    {
        let ghost old_queue = self.queue@;
        let r = self.queue.pop();
        proof {
            if r.is_some() {
                assert(paths_of(self.queue@) =~= paths_of(old_queue).drop_last());
                assert(old_queue[old_queue.len() - 1]@ == paths_of(old_queue).last());
                assert forall|i: int| 0 <= i < self.queue@.len() implies self.copied_set().contains(
                    #[trigger] self.queue@[i]@,
                ) by {
                    assert(self.queue@[i] == old_queue[i]);
                }
            }
        }
        r
    }
}

/// Every file waiting to be read has been copied, and none waits twice.
pub proof fn lemma_queued_are_copied(w: ModuleWalk)
    requires
        w.wf(),
    ensures
        forall|i: int| 0 <= i < w.queued().len() ==> w.copied_set().contains(#[trigger] w.queued()[i]),
        forall|i: int, j: int| 0 <= i < j < w.queued().len() ==> w.queued()[i] != w.queued()[j],
{
    assert forall|i: int| 0 <= i < w.queued().len() implies w.copied_set().contains(
        #[trigger] w.queued()[i],
    ) by {
        assert(w.queued()[i] == w.queue@[i]@);
    }
    assert forall|i: int, j: int| 0 <= i < j < w.queued().len() implies w.queued()[i] != w.queued()[j] by {
        assert(w.queued()[i] == w.queue@[i]@);
        assert(w.queued()[j] == w.queue@[j]@);
    }
}

} // verus!
