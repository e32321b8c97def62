//! The files that each scope has touched.

use crate::commit_scopes::changed_files::ChangedFiles;
use crate::commit_scopes::scope::CommitScope;
use crate::utils::EntityView;
use vstd::prelude::*;

verus! {

/// For each scope, by name, the set of files that commits with that scope
/// have changed.
#[derive(Debug)]
pub struct ScopeIndex {
    scopes: Vec<CommitScope>,
    files: Vec<ChangedFiles>,
}

/// The place of the entry named `name` among `keys`.
pub open spec fn place_of(keys: Seq<EntityView>, name: Seq<char>) -> int {
    choose|i: int| 0 <= i < keys.len() && keys[i].name == name
}

/// Whether an entry of `keys` is named `name`.
pub open spec fn has_name(keys: Seq<EntityView>, name: Seq<char>) -> bool {
    exists|i: int| 0 <= i < keys.len() && keys[i].name == name
}

/// No two entries of `keys` have the same name.
pub open spec fn distinct_names(keys: Seq<EntityView>) -> bool {
    forall|i: int, j: int|
        0 <= i < keys.len() && 0 <= j < keys.len() && keys[i].name == keys[j].name ==> i == j
}

impl View for ScopeIndex {
    type V = Map<Seq<char>, Set<Seq<char>>>;

    /// The files of each scope, by the scope's name.
    open spec fn view(&self) -> Map<Seq<char>, Set<Seq<char>>> {
        Map::new(
            |name: Seq<char>| has_name(self.keys(), name),
            |name: Seq<char>| self.sets()[place_of(self.keys(), name)],
        )
    }
}

impl ScopeIndex {
    /// The scopes in the order in which they are kept.
    pub closed spec fn keys(&self) -> Seq<EntityView> {
        Seq::new(self.scopes@.len(), |i: int| self.scopes@[i]@)
    }

    /// The file sets, in the order of `keys`.
    pub closed spec fn sets(&self) -> Seq<Set<Seq<char>>> {
        Seq::new(self.files@.len(), |i: int| self.files@[i]@)
    }

    /// Every scope has one file set, no name occurs twice, and every file set
    /// is well formed.
    pub closed spec fn wf(&self) -> bool {
        &&& self.scopes@.len() == self.files@.len()
        &&& distinct_names(self.keys())
        &&& forall|i: int| 0 <= i < self.files@.len() ==> (#[trigger] self.files@[i]).wf()
    }

    /// The description of each scope, by the scope's name.
    pub open spec fn descriptions(&self) -> Map<Seq<char>, Seq<char>> {
        Map::new(
            |name: Seq<char>| has_name(self.keys(), name),
            |name: Seq<char>| self.keys()[place_of(self.keys(), name)].description,
        )
    }

    /// What well-formedness says of `keys` and `sets`.
    pub proof fn lemma_wf(&self)
        requires
            self.wf(),
        ensures
            self.keys().len() == self.sets().len(),
            distinct_names(self.keys()),
            forall|i: int| 0 <= i < self.sets().len() ==> (#[trigger] self.sets()[i]).finite(),
            forall|i: int|
                0 <= i < self.keys().len() ==> place_of(self.keys(), (#[trigger] self.keys()[i]).name)
                    == i,
            forall|i: int|
                0 <= i < self.keys().len() ==> self@.dom().contains((#[trigger] self.keys()[i]).name)
                    && self@[self.keys()[i].name] == self.sets()[i]
                    && self.descriptions()[self.keys()[i].name] == self.keys()[i].description,
            self.descriptions().dom() == self@.dom(),
            self@.dom().finite(),
            self@.dom().len() == self.keys().len(),
    {
        let keys = self.keys();
        assert forall|i: int| 0 <= i < self.sets().len() implies (#[trigger] self.sets()[i]).finite() by {
            self.files@[i].lemma_finite();
        }
        assert forall|i: int| 0 <= i < keys.len() implies place_of(keys, (#[trigger] keys[i]).name)
            == i by {
            assert(0 <= i < keys.len() && keys[i].name == keys[i].name);
        }
        lemma_names_finite(keys);
        assert(self.descriptions().dom() =~= self@.dom());
    }

    /// The empty index.
    pub fn new() -> (r: Self)
        ensures
            r.wf(),
            r@ == Map::<Seq<char>, Set<Seq<char>>>::empty(),
            r.keys() == Seq::<EntityView>::empty(),
    {
        let r = ScopeIndex { scopes: Vec::new(), files: Vec::new() };
        assert(r.keys() =~= Seq::<EntityView>::empty());
        assert(r@ =~= Map::<Seq<char>, Set<Seq<char>>>::empty());
        r
    }

    /// How many scopes the index holds.
    pub fn len(&self) -> (n: usize)
        requires
            self.wf(),
        ensures
            n == self.keys().len(),
            n == self@.dom().len(),
    {
        proof {
            self.lemma_wf();
        }
        self.scopes.len()
    }

    /// Whether the index holds no scope.
    pub fn is_empty(&self) -> (r: bool)
        requires
            self.wf(),
        ensures
            r == (self.keys().len() == 0),
            r == (self@ == Map::<Seq<char>, Set<Seq<char>>>::empty()),
    {
        proof {
            if self.keys().len() == 0 {
                assert(self@ =~= Map::<Seq<char>, Set<Seq<char>>>::empty());
            } else {
                assert(0 <= 0 < self.keys().len() && self.keys()[0].name == self.keys()[0].name);
                assert(self@.dom().contains(self.keys()[0].name));
            }
        }
        self.scopes.len() == 0
    }

    /// The scope at place `i`.
    pub fn scope_at(&self, i: usize) -> (r: &CommitScope)
        requires
            self.wf(),
            i < self.keys().len(),
        ensures
            r@ == self.keys()[i as int],
    {
        &self.scopes[i]
    }

    /// The file set at place `i`.
    pub fn files_at(&self, i: usize) -> (r: &ChangedFiles)
        requires
            self.wf(),
            i < self.keys().len(),
        ensures
            r.wf(),
            r@ == self.sets()[i as int],
    {
        &self.files[i]
    }

    /// The place of the scope named `name`, if the index has it.
    pub fn position(&self, name: &String) -> (r: Option<usize>)
        requires
            self.wf(),
        ensures
            match r {
                Some(i) => i < self.keys().len() && self.keys()[i as int].name == name@,
                None => !has_name(self.keys(), name@),
            },
    {
        let mut i: usize = 0;
        while i < self.scopes.len()
            invariant
                i <= self.scopes@.len(),
                forall|j: int| 0 <= j < i ==> self.keys()[j].name != name@,
            decreases self.scopes@.len() - i,
        {
            if self.scopes[i].name == *name {
                return Some(i);
            }
            i = i + 1;
        }
        None
    }

    /// The scopes of the index, in the order in which they are kept.
    pub fn scopes(&self) -> (r: Vec<CommitScope>)
        requires
            self.wf(),
        ensures
            crate::utils::entities(r@) == self.keys(),
    {
        let mut r: Vec<CommitScope> = Vec::new();
        let mut i: usize = 0;
        while i < self.scopes.len()
            invariant
                i <= self.scopes@.len(),
                r@.len() == i,
                forall|j: int| 0 <= j < i ==> r@[j]@ == self.scopes@[j]@,
            decreases self.scopes@.len() - i,
        {
            r.push(self.scopes[i].clone());
            i = i + 1;
        }
        assert(crate::utils::entities(r@) =~= self.keys());
        r
    }

    /// The files of the scope named `name`, if the index has it.
    pub fn get(&self, name: &String) -> (r: Option<&ChangedFiles>)
        requires
            self.wf(),
        ensures
            match r {
                Some(files) => files.wf() && self@.dom().contains(name@) && files@ == self@[name@],
                None => !self@.dom().contains(name@),
            },
    {
        proof {
            self.lemma_wf();
        }
        match self.position(name) {
            Some(i) => {
                assert(has_name(self.keys(), name@));
                Some(&self.files[i])
            },
            None => None,
        }
    }

    /// Whether the two indexes hold the same scopes, by name and
    /// description, with the same files.
    pub fn same_as(&self, other: &ScopeIndex) -> (r: bool)
        requires
            self.wf(),
            other.wf(),
        ensures
            r == (self@ == other@ && self.descriptions() == other.descriptions()),
    {
        proof {
            self.lemma_wf();
            other.lemma_wf();
        }
        if self.scopes.len() != other.scopes.len() {
            return false;
        }
        let mut i: usize = 0;
        while i < self.scopes.len()
            invariant
                self.wf(),
                other.wf(),
                i <= self.scopes@.len(),
                forall|k: int|
                    0 <= k < i ==> other@.dom().contains((#[trigger] self.keys()[k]).name)
                        && other@[self.keys()[k].name] == self.sets()[k]
                        && other.descriptions()[self.keys()[k].name] == self.keys()[k].description,
            decreases self.scopes@.len() - i,
        {
            proof {
                self.lemma_wf();
                other.lemma_wf();
            }
            match other.position(&self.scopes[i].name) {
                Some(j) => {
                    proof {
                        let n = self.keys()[i as int].name;
                        assert(other.keys()[j as int].name == n);
                        assert(self@[n] == self.sets()[i as int]);
                        assert(other@[n] == other.sets()[j as int]);
                        assert(self.descriptions()[n] == self.keys()[i as int].description);
                        assert(other.descriptions()[n] == other.keys()[j as int].description);
                    }
                    if !self.files[i].same_as(&other.files[j]) {
                        return false;
                    }
                    if !(self.scopes[i].description == other.scopes[j].description) {
                        return false;
                    }
                },
                None => {
                    assert(self@.dom().contains(self.keys()[i as int].name));
                    return false;
                },
            }
            i = i + 1;
        }
        proof {
            self.lemma_wf();
            other.lemma_wf();
            assert(self@.dom().subset_of(other@.dom())) by {
                assert forall|n: Seq<char>| self@.dom().contains(n) implies other@.dom().contains(
                    n,
                ) by {
                    let k = place_of(self.keys(), n);
                    assert(self.keys()[k].name == n);
                }
            }
            vstd::set_lib::lemma_subset_equality(self@.dom(), other@.dom());
            assert forall|n: Seq<char>| self@.dom().contains(n) implies #[trigger] self@[n]
                == other@[n] && self.descriptions()[n] == other.descriptions()[n] by {
                let k = place_of(self.keys(), n);
                assert(self.keys()[k].name == n);
            }
            assert(self@ =~= other@);
            assert(self.descriptions() =~= other.descriptions());
        }
        true
    }

    /// Records that a commit with scope `scope` changed `files`: a scope that
    /// the index has by name gets the files added to its own, and keeps its
    /// description; a new scope comes in with these files.
    pub fn insert_changes(&mut self, scope: CommitScope, files: ChangedFiles)
        requires
            old(self).wf(),
            files.wf(),
        ensures
            final(self).wf(),
            final(self)@ == absorb(old(self)@, scope.name@, files@),
            final(self).descriptions() == absorb_description(
                old(self).descriptions(),
                scope.name@,
                scope.description@,
            ),
    {
        let ghost old_keys = self.keys();
        let ghost old_sets = self.sets();
        let ghost old_view = self@;
        let ghost old_desc = self.descriptions();
        proof {
            self.lemma_wf();
        }
        match self.position(&scope.name) {
            Some(i) => {
                self.files[i].extend(files);
                proof {
                    assert(self.keys() =~= old_keys);
                    assert(self.sets() =~= old_sets.update(i as int, old_sets[i as int].union(files@)));
                    assert(place_of(old_keys, scope.name@) == i);
                    assert(has_name(old_keys, scope.name@));
                    assert(self@ =~= absorb(old_view, scope.name@, files@)) by {
                        assert forall|n: Seq<char>| has_name(old_keys, n) implies #[trigger] self@[n]
                            == absorb(old_view, scope.name@, files@)[n] by {
                            let k = place_of(old_keys, n);
                            if n != scope.name@ {
                                assert(k != i);
                            }
                        }
                    }
                    assert(self.descriptions() =~= absorb_description(
                        old_desc,
                        scope.name@,
                        scope.description@,
                    ));
                }
            },
            None => {
                self.scopes.push(scope);
                self.files.push(files);
                proof {
                    let keys = self.keys();
                    let n = old_keys.len() as int;
                    assert(keys =~= old_keys.push(scope@));
                    assert(self.sets() =~= old_sets.push(files@));
                    assert(distinct_names(keys)) by {
                        assert forall|a: int, b: int|
                            0 <= a < keys.len() && 0 <= b < keys.len() && keys[a].name
                                == keys[b].name implies a == b by {
                            if a < n && b == n {
                                assert(old_keys[a].name == scope.name@);
                            }
                            if b < n && a == n {
                                assert(old_keys[b].name == scope.name@);
                            }
                        }
                    }
                    assert forall|m: Seq<char>| has_name(keys, m) <==> (has_name(old_keys, m) || m
                        == scope.name@) by {
                        if has_name(old_keys, m) {
                            let k = place_of(old_keys, m);
                            assert(keys[k].name == m);
                        }
                        if m == scope.name@ {
                            assert(keys[n].name == m);
                        }
                        if has_name(keys, m) {
                            let k = place_of(keys, m);
                            if k < n {
                                assert(old_keys[k].name == m);
                            }
                        }
                    }
                    assert forall|m: Seq<char>| has_name(keys, m) implies place_of(keys, m) == (
                    if m == scope.name@ {
                        n
                    } else {
                        place_of(old_keys, m)
                    }) by {
                        let k = place_of(keys, m);
                        if m == scope.name@ {
                            assert(keys[n].name == m);
                        } else {
                            let j = place_of(old_keys, m);
                            assert(keys[j].name == m);
                        }
                    }
                    assert(self@ =~= absorb(old_view, scope.name@, files@));
                    assert(self.descriptions() =~= absorb_description(
                        old_desc,
                        scope.name@,
                        scope.description@,
                    ));
                }
            },
        }
    }
}

impl Clone for ScopeIndex {
    fn clone(&self) -> (r: Self)
        ensures
            r@ == self@,
            r.keys() == self.keys(),
            r.sets() == self.sets(),
            r.descriptions() == self.descriptions(),
            self.wf() ==> r.wf(),
    {
        let mut scopes: Vec<CommitScope> = Vec::new();
        let mut files: Vec<ChangedFiles> = Vec::new();
        let mut i: usize = 0;
        while i < self.scopes.len()
            invariant
                i <= self.scopes@.len(),
                scopes@.len() == i,
                forall|j: int| 0 <= j < i ==> scopes@[j]@ == self.scopes@[j]@,
            decreases self.scopes@.len() - i,
        {
            scopes.push(self.scopes[i].clone());
            i = i + 1;
        }
        let mut k: usize = 0;
        while k < self.files.len()
            invariant
                k <= self.files@.len(),
                files@.len() == k,
                forall|j: int| 0 <= j < k ==> files@[j]@ == self.files@[j]@,
                forall|j: int| 0 <= j < k ==> (self.files@[j].wf() ==> (#[trigger] files@[j]).wf()),
            decreases self.files@.len() - k,
        {
            files.push(self.files[k].clone());
            k = k + 1;
        }
        let r = ScopeIndex { scopes, files };
        assert(r.keys() =~= self.keys());
        assert(r.sets() =~= self.sets());
        r
    }
}

/// The index `index` after a commit with scope `name` that changed `files`.
pub open spec fn absorb(
    index: Map<Seq<char>, Set<Seq<char>>>,
    name: Seq<char>,
    files: Set<Seq<char>>,
) -> Map<Seq<char>, Set<Seq<char>>> {
    if index.dom().contains(name) {
        index.insert(name, index[name].union(files))
    } else {
        index.insert(name, files)
    }
}

/// The descriptions after a scope named `name` came in with `description`:
/// the first description of a name stays.
pub open spec fn absorb_description(
    descriptions: Map<Seq<char>, Seq<char>>,
    name: Seq<char>,
    description: Seq<char>,
) -> Map<Seq<char>, Seq<char>> {
    if descriptions.dom().contains(name) {
        descriptions
    } else {
        descriptions.insert(name, description)
    }
}

/// The order in which two commits come in does not matter to the files of
/// the scopes.
pub proof fn lemma_absorb_commutes(
    index: Map<Seq<char>, Set<Seq<char>>>,
    a: Seq<char>,
    files_a: Set<Seq<char>>,
    b: Seq<char>,
    files_b: Set<Seq<char>>,
)
    ensures
        absorb(absorb(index, a, files_a), b, files_b) == absorb(
            absorb(index, b, files_b),
            a,
            files_a,
        ),
{
    let left = absorb(absorb(index, a, files_a), b, files_b);
    let right = absorb(absorb(index, b, files_b), a, files_a);
    assert(left.dom() =~= right.dom());
    assert forall|n: Seq<char>| left.dom().contains(n) implies #[trigger] left[n] =~= right[n] by {}
    assert(left =~= right);
}

/// The names of a list of distinct names form a finite set of that size.
pub proof fn lemma_names_finite(keys: Seq<EntityView>)
    requires
        distinct_names(keys),
    ensures
        Set::new(|name: Seq<char>| has_name(keys, name)).finite(),
        Set::new(|name: Seq<char>| has_name(keys, name)).len() == keys.len(),
    decreases keys.len(),
{
    let all = Set::new(|name: Seq<char>| has_name(keys, name));
    if keys.len() == 0 {
        assert(all =~= Set::<Seq<char>>::empty());
    } else {
        let head = keys.drop_last();
        let last = keys.last();
        let fewer = Set::new(|name: Seq<char>| has_name(head, name));
        assert(distinct_names(head)) by {
            assert forall|i: int, j: int|
                0 <= i < head.len() && 0 <= j < head.len() && head[i].name
                    == head[j].name implies i == j by {
                assert(keys[i].name == keys[j].name);
            }
        }
        lemma_names_finite(head);
        assert(!fewer.contains(last.name)) by {
            if has_name(head, last.name) {
                let i = place_of(head, last.name);
                assert(keys[i].name == keys[keys.len() - 1].name);
            }
        }
        assert(all =~= fewer.insert(last.name)) by {
            assert forall|m: Seq<char>| all.contains(m) implies fewer.insert(last.name).contains(
                m,
            ) by {
                let i = place_of(keys, m);
                if i < head.len() {
                    assert(head[i].name == m);
                }
            }
            assert forall|m: Seq<char>| fewer.insert(last.name).contains(m) implies all.contains(
                m,
            ) by {
                if m == last.name {
                    assert(keys[keys.len() - 1].name == m);
                } else {
                    let i = place_of(head, m);
                    assert(keys[i].name == m);
                }
            }
        }
    }
}

} // verus!
