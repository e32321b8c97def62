//! Sets of file paths.

use vstd::prelude::*;

verus! {

/// The views of the strings of `v`, in order.
pub open spec fn path_views(v: Seq<String>) -> Seq<Seq<char>> {
    Seq::new(v.len(), |i: int| v[i]@)
}

/// A set of file paths, compared as plain strings.
///
/// The paths are kept in the order in which they first came in; no path is
/// held twice.
#[derive(Debug)]
pub struct ChangedFiles {
    files: Vec<String>,
}

impl View for ChangedFiles {
    type V = Set<Seq<char>>;

    closed spec fn view(&self) -> Set<Seq<char>> {
        path_views(self.files@).to_set()
    }
}

impl ChangedFiles {
    /// No path is held twice.
    pub closed spec fn wf(&self) -> bool {
        path_views(self.files@).no_duplicates()
    }

    /// The paths in the order in which they are kept.
    pub closed spec fn paths(self) -> Seq<Seq<char>> {
        path_views(self.files@)
    }

    /// The empty set.
    pub fn new() -> (r: Self)
        ensures
            r.wf(),
            r@ == Set::<Seq<char>>::empty(),
    {
        let r = ChangedFiles { files: Vec::new() };
        assert(path_views(r.files@) =~= Seq::empty());
        assert(r@ =~= Set::<Seq<char>>::empty());
        r
    }

    /// How many paths the set holds.
    pub fn len(&self) -> (n: usize)
        requires
            self.wf(),
        ensures
            n == self@.len(),
    {
        proof {
            path_views(self.files@).unique_seq_to_set();
            vstd::seq_lib::seq_to_set_is_finite(path_views(self.files@));
        }
        self.files.len()
    }

    /// Whether the set holds no path.
    pub fn is_empty(&self) -> (r: bool)
        ensures
            r == (self@ == Set::<Seq<char>>::empty()),
    {
        proof {
            if self.files@.len() > 0 {
                assert(path_views(self.files@)[0] == self.files@[0]@);
                assert(self@.contains(self.files@[0]@));
            } else {
                assert(self@ =~= Set::<Seq<char>>::empty());
            }
        }
        self.files.len() == 0
    }

    /// Whether `path` is in the set.
    pub fn contains(&self, path: &String) -> (r: bool)
        ensures
            r == self@.contains(path@),
    {
        let mut i: usize = 0;
        while i < self.files.len()
            invariant
                i <= self.files@.len(),
                forall|j: int| 0 <= j < i ==> self.files@[j]@ != path@,
            decreases self.files@.len() - i,
        {
            if self.files[i] == *path {
                assert(path_views(self.files@)[i as int] == path@);
                return true;
            }
            i = i + 1;
        }
        false
    }

    /// Adds `path`; says whether it was new.
    pub fn insert(&mut self, path: String) -> (added: bool)
        requires
            old(self).wf(),
        ensures
            final(self).wf(),
            final(self)@ == old(self)@.insert(path@),
            added == !old(self)@.contains(path@),
    {
        if self.contains(&path) {
            assert(self@.insert(path@) =~= self@);
            false
        } else {
            let ghost before = path_views(self.files@);
            self.files.push(path);
            proof {
                assert(path_views(self.files@) =~= before.push(path@));
                assert(forall|j: int| 0 <= j < before.len() ==> before[j] != path@) by {
                    assert forall|j: int| 0 <= j < before.len() implies before[j] != path@ by {
                        assert(before.to_set().contains(before[j]));
                    }
                }
                assert(before.push(path@).to_set() =~= before.to_set().insert(path@)) by {
                    assert forall|p: Seq<char>| before.push(path@).to_set().contains(p)
                        implies before.to_set().insert(path@).contains(p) by {
                        let k = choose|k: int|
                            0 <= k < before.push(path@).len() && before.push(path@)[k] == p;
                        if k < before.len() {
                            assert(before[k] == p);
                        }
                    }
                    assert forall|p: Seq<char>| before.to_set().insert(path@).contains(p)
                        implies before.push(path@).to_set().contains(p) by {
                        if p == path@ {
                            assert(before.push(path@)[before.len() as int] == p);
                        } else {
                            let k = choose|k: int| 0 <= k < before.len() && before[k] == p;
                            assert(before.push(path@)[k] == p);
                        }
                    }
                }
            }
            true
        }
    }

    /// The set of the given paths.
    pub fn from_vec(paths: Vec<String>) -> (r: Self)
        ensures
            r.wf(),
            r@ == path_views(paths@).to_set(),
    {
        let mut r = ChangedFiles::new();
        let mut paths = paths;
        let ghost all = path_views(paths@);
        let mut rest: Vec<String> = Vec::new();
        // Paths are taken from the back; the order of a set does not matter.
        while paths.len() > 0
            invariant
                r.wf(),
                path_views(paths@) == all.take(paths@.len() as int),
                paths@.len() <= all.len(),
                forall|p: Seq<char>|
                    r@.contains(p) <==> exists|j: int|
                        paths@.len() <= j < all.len() && all[j] == p,
            decreases paths@.len(),
        {
            let ghost n = paths@.len() as int;
            let ghost before = r@;
            let ghost old_views = path_views(paths@);
            let p = paths.pop().unwrap();
            proof {
                assert(old_views[n - 1] == p@);
                assert(all[n - 1] == p@);
                assert(path_views(paths@) =~= all.take(n - 1)) by {
                    assert forall|j: int| 0 <= j < n - 1 implies path_views(paths@)[j]
                        == all.take(n - 1)[j] by {
                        assert(old_views[j] == all.take(n)[j]);
                    }
                }
            }
            r.insert(p);
            proof {
                assert forall|q: Seq<char>| r@.contains(q) <==> exists|j: int|
                    n - 1 <= j < all.len() && all[j] == q by {
                    if before.contains(q) {
                        let j = choose|j: int| n <= j < all.len() && all[j] == q;
                        assert(n - 1 <= j < all.len() && all[j] == q);
                    }
                    if exists|j: int| n - 1 <= j < all.len() && all[j] == q {
                        let j = choose|j: int| n - 1 <= j < all.len() && all[j] == q;
                        if j >= n {
                            assert(before.contains(q));
                        }
                    }
                }
            }
        }
        proof {
            assert(r@ =~= all.to_set()) by {
                assert forall|q: Seq<char>| r@.contains(q) implies all.to_set().contains(q) by {
                    let j = choose|j: int| 0 <= j < all.len() && all[j] == q;
                    assert(all.contains(q));
                }
                assert forall|q: Seq<char>| all.to_set().contains(q) implies r@.contains(q) by {
                    let j = choose|j: int| 0 <= j < all.len() && all[j] == q;
                    assert(0 <= j < all.len() && all[j] == q);
                }
            }
        }
        r
    }

    /// The paths, each once, in the order in which they are kept.
    pub fn to_vec(&self) -> (r: Vec<String>)
        requires
            self.wf(),
        ensures
            path_views(r@) == self.paths(),
            path_views(r@).no_duplicates(),
            path_views(r@).to_set() == self@,
    {
        let mut r: Vec<String> = Vec::new();
        let mut i: usize = 0;
        while i < self.files.len()
            invariant
                i <= self.files@.len(),
                r@.len() == i,
                forall|j: int| 0 <= j < i ==> r@[j]@ == self.files@[j]@,
            decreases self.files@.len() - i,
        {
            r.push(self.files[i].clone());
            i = i + 1;
        }
        assert(path_views(r@) =~= path_views(self.files@));
        r
    }

    /// Adds every path of `other`.
    pub fn extend(&mut self, other: ChangedFiles)
        requires
            old(self).wf(),
        ensures
            final(self).wf(),
            final(self)@ == old(self)@.union(other@),
    {
        let mut other = other;
        let ghost all = path_views(other.files@);
        let ghost start = self@;
        while other.files.len() > 0
            invariant
                self.wf(),
                path_views(other.files@) == all.take(other.files@.len() as int),
                other.files@.len() <= all.len(),
                forall|p: Seq<char>|
                    #![trigger self@.contains(p)]
                    self@.contains(p) <==> (start.contains(p) || exists|j: int|
                        other.files@.len() <= j < all.len() && all[j] == p),
            decreases other.files@.len(),
        {
            let ghost n = other.files@.len() as int;
            let ghost before = self@;
            let ghost old_views = path_views(other.files@);
            let p = other.files.pop().unwrap();
            proof {
                assert(old_views[n - 1] == p@);
                assert(all[n - 1] == p@);
                assert(path_views(other.files@) =~= all.take(n - 1)) by {
                    assert forall|j: int| 0 <= j < n - 1 implies path_views(other.files@)[j]
                        == all.take(n - 1)[j] by {
                        assert(old_views[j] == all.take(n)[j]);
                    }
                }
            }
            self.insert(p);
            proof {
                assert forall|q: Seq<char>| #![trigger self@.contains(q)]
                    self@.contains(q) <==> (start.contains(q)
                    || exists|j: int| n - 1 <= j < all.len() && all[j] == q) by {
                    if before.contains(q) && !start.contains(q) {
                        let j = choose|j: int| n <= j < all.len() && all[j] == q;
                        assert(n - 1 <= j < all.len() && all[j] == q);
                    }
                    if exists|j: int| n - 1 <= j < all.len() && all[j] == q {
                        let j = choose|j: int| n - 1 <= j < all.len() && all[j] == q;
                        if j >= n {
                            assert(exists|k: int| n <= k < all.len() && all[k] == q);
                            assert(before.contains(q));
                        }
                    }
                }
            }
        }
        proof {
            assert(self@ =~= start.union(all.to_set())) by {
                assert forall|q: Seq<char>| self@.contains(q) implies start.union(
                    all.to_set(),
                ).contains(q) by {
                    if !start.contains(q) {
                        let j = choose|j: int| 0 <= j < all.len() && all[j] == q;
                        assert(all.contains(q));
                    }
                }
                assert forall|q: Seq<char>| start.union(all.to_set()).contains(q)
                    implies self@.contains(q) by {
                    if !start.contains(q) {
                        let j = choose|j: int| 0 <= j < all.len() && all[j] == q;
                        assert(0 <= j < all.len() && all[j] == q);
                    }
                }
            }
        }
    }

    /// How many paths `self` and `other` share.
    pub fn overlap(&self, other: &ChangedFiles) -> (n: usize)
        requires
            self.wf(),
        ensures
            n == self@.intersect(other@).len(),
    {
        let ghost all = path_views(self.files@);
        let mut n: usize = 0;
        let mut i: usize = 0;
        proof {
            assert(all.take(0).to_set().intersect(other@) =~= Set::<Seq<char>>::empty());
        }
        while i < self.files.len()
            invariant
                all == path_views(self.files@),
                all.no_duplicates(),
                i <= self.files@.len(),
                n <= i,
                all.take(i as int).to_set().intersect(other@).finite(),
                n == all.take(i as int).to_set().intersect(other@).len(),
            decreases self.files@.len() - i,
        {
            let hit = other.contains(&self.files[i]);
            proof {
                let p = all[i as int];
                let head = all.take(i as int);
                let more = all.take(i as int + 1);
                let seen = head.to_set();
                let next = more.to_set();
                assert(!seen.contains(p)) by {
                    if seen.contains(p) {
                        let j = choose|j: int| 0 <= j < head.len() && head[j] == p;
                        assert(all[j] == all[i as int]);
                    }
                }
                assert(next =~= seen.insert(p)) by {
                    assert forall|q: Seq<char>| next.contains(q) implies seen.insert(p).contains(
                        q,
                    ) by {
                        let j = choose|j: int| 0 <= j < more.len() && more[j] == q;
                        if j < i {
                            assert(head[j] == q);
                        }
                    }
                    assert forall|q: Seq<char>| seen.insert(p).contains(q) implies next.contains(
                        q,
                    ) by {
                        if q == p {
                            assert(more[i as int] == q);
                        } else {
                            let j = choose|j: int| 0 <= j < head.len() && head[j] == q;
                            assert(more[j] == q);
                        }
                    }
                }
                if hit {
                    assert(next.intersect(other@) =~= seen.intersect(other@).insert(p));
                } else {
                    assert(next.intersect(other@) =~= seen.intersect(other@));
                }
            }
            if hit {
                n = n + 1;
            }
            i = i + 1;
        }
        proof {
            assert(all.take(i as int) =~= all);
        }
        n
    }

    /// Whether `self` and `other` hold the same paths.
    pub fn same_as(&self, other: &ChangedFiles) -> (r: bool)
        ensures
            r == (self@ == other@),
    {
        let r = self.within(other) && other.within(self);
        proof {
            if r {
                assert(self@ =~= other@);
            }
        }
        r
    }

    /// Whether every path of `self` is in `other`.
    pub fn within(&self, other: &ChangedFiles) -> (r: bool)
        ensures
            r == self@.subset_of(other@),
    {
        let mut i: usize = 0;
        while i < self.files.len()
            invariant
                i <= self.files@.len(),
                forall|j: int| 0 <= j < i ==> other@.contains(self.files@[j]@),
            decreases self.files@.len() - i,
        {
            if !other.contains(&self.files[i]) {
                assert(path_views(self.files@)[i as int] == self.files@[i as int]@);
                assert(self@.contains(self.files@[i as int]@));
                return false;
            }
            i = i + 1;
        }
        proof {
            assert forall|p: Seq<char>| self@.contains(p) implies other@.contains(p) by {
                let j = choose|j: int|
                    0 <= j < path_views(self.files@).len() && path_views(self.files@)[j] == p;
                assert(self.files@[j]@ == p);
            }
        }
        true
    }

    /// A well-formed set is finite.
    pub proof fn lemma_finite(&self)
        requires
            self.wf(),
        ensures
            self@.finite(),
            self@.len() == self.paths().len(),
            self.paths().no_duplicates(),
            self.paths().to_set() == self@,
    {
        self.paths().unique_seq_to_set();
        vstd::seq_lib::seq_to_set_is_finite(self.paths());
    }
}

impl Clone for ChangedFiles {
    fn clone(&self) -> (r: Self)
        ensures
            r@ == self@,
            r.paths() == self.paths(),
            self.wf() ==> r.wf(),
    {
        let mut files: Vec<String> = Vec::new();
        let mut i: usize = 0;
        while i < self.files.len()
            invariant
                i <= self.files@.len(),
                files@.len() == i,
                forall|j: int| 0 <= j < i ==> files@[j]@ == self.files@[j]@,
            decreases self.files@.len() - i,
        {
            files.push(self.files[i].clone());
            i = i + 1;
        }
        assert(path_views(files@) =~= path_views(self.files@));
        ChangedFiles { files }
    }
}

impl PartialEq for ChangedFiles {
    /// Two sets are equal when they hold the same paths, in whatever order.
    fn eq(&self, other: &Self) -> (r: bool) {
        self.same_as(other)
    }
}

impl vstd::std_specs::cmp::PartialEqSpecImpl for ChangedFiles {
    open spec fn obeys_eq_spec() -> bool {
        true
    }

    open spec fn eq_spec(&self, other: &Self) -> bool {
        self@ == other@
    }
}

impl Eq for ChangedFiles {

}

} // verus!
