//! Which scope is closest to the staged files.
//!
//! A scope is as close as the number of staged files that it has touched
//! before. Only equal paths count. Among the scopes that share the largest
//! number, the one whose name comes first wins.

use crate::commit_scopes::changed_files::ChangedFiles;
use crate::commit_scopes::index::has_name;
use crate::commit_scopes::index::place_of;
use crate::commit_scopes::index::ScopeIndex;
use crate::commit_scopes::scope::CommitScope;
use crate::text::lex_le;
use crate::text::lex_lt;
use crate::utils::EntityView;
use vstd::prelude::*;

verus! {

/// How many of the staged files are among `files`.
pub open spec fn overlap(staged: Set<Seq<char>>, files: Set<Seq<char>>) -> nat {
    staged.intersect(files).len()
}

/// The scope `name` shares a staged file, and no scope shares more.
pub open spec fn is_best(
    staged: Set<Seq<char>>,
    index: Map<Seq<char>, Set<Seq<char>>>,
    name: Seq<char>,
) -> bool {
    &&& index.dom().contains(name)
    &&& overlap(staged, index[name]) > 0
    &&& forall|m: Seq<char>| #[trigger]
        index.dom().contains(m) ==> overlap(staged, index[m]) <= overlap(staged, index[name])
}

/// The scope `name` is best, and first by name among the best.
pub open spec fn is_closest(
    staged: Set<Seq<char>>,
    index: Map<Seq<char>, Set<Seq<char>>>,
    name: Seq<char>,
) -> bool {
    &&& is_best(staged, index, name)
    &&& forall|m: Seq<char>| #[trigger] is_best(staged, index, m) ==> lex_le(name, m)
}

/// The name of the closest scope, if any scope shares a staged file.
pub open spec fn closest(
    staged: Set<Seq<char>>,
    index: Map<Seq<char>, Set<Seq<char>>>,
) -> Option<Seq<char>> {
    if exists|n: Seq<char>| is_closest(staged, index, n) {
        Some(choose|n: Seq<char>| is_closest(staged, index, n))
    } else {
        None
    }
}

/// No scope of `index` shares a file with `staged`.
pub open spec fn no_overlap(
    staged: Set<Seq<char>>,
    index: Map<Seq<char>, Set<Seq<char>>>,
) -> bool {
    forall|m: Seq<char>| #[trigger] index.dom().contains(m) ==> overlap(staged, index[m]) == 0
}

/// At most one scope is closest.
pub proof fn lemma_closest_unique(
    staged: Set<Seq<char>>,
    index: Map<Seq<char>, Set<Seq<char>>>,
    a: Seq<char>,
    b: Seq<char>,
)
    requires
        is_closest(staged, index, a),
        is_closest(staged, index, b),
    ensures
        a == b,
{
    assert(lex_le(a, b));
    assert(lex_le(b, a));
    crate::text::lemma_lex_lt_total(a, b);
}

/// A closest scope is the one that `closest` names.
pub proof fn lemma_closest_is(
    staged: Set<Seq<char>>,
    index: Map<Seq<char>, Set<Seq<char>>>,
    name: Seq<char>,
)
    requires
        is_closest(staged, index, name),
    ensures
        closest(staged, index) == Some(name),
{
    let c = choose|n: Seq<char>| is_closest(staged, index, n);
    lemma_closest_unique(staged, index, c, name);
}

/// A staged set that shares no file with any scope has no closest scope.
pub proof fn lemma_disjoint_has_no_match(
    staged: Set<Seq<char>>,
    index: Map<Seq<char>, Set<Seq<char>>>,
)
    requires
        forall|m: Seq<char>| #[trigger] index.dom().contains(m) ==> staged.disjoint(index[m]),
    ensures
        closest(staged, index) is None,
        no_overlap(staged, index),
{
    assert forall|m: Seq<char>| #[trigger] index.dom().contains(m) implies overlap(
        staged,
        index[m],
    ) == 0 by {
        assert(staged.disjoint(index[m]));
        assert(staged.intersect(index[m]) =~= Set::<Seq<char>>::empty());
    }
    assert forall|n: Seq<char>| !is_closest(staged, index, n) by {
        if is_best(staged, index, n) {
            assert(index.dom().contains(n));
        }
    }
}

/// A scope whose files are exactly the staged ones is the closest, provided
/// that something is staged and that every other scope that has touched all
/// the staged files comes later by name.
pub proof fn lemma_exact_match_is_closest(
    staged: Set<Seq<char>>,
    index: Map<Seq<char>, Set<Seq<char>>>,
    name: Seq<char>,
)
    requires
        staged.finite(),
        staged.len() > 0,
        index.dom().contains(name),
        index[name] == staged,
        forall|m: Seq<char>|
            #[trigger] index.dom().contains(m) && m != name && staged.subset_of(index[m])
                ==> lex_lt(name, m),
    ensures
        closest(staged, index) == Some(name),
{
    assert(staged.intersect(staged) =~= staged);
    assert forall|m: Seq<char>| #[trigger] index.dom().contains(m) implies overlap(
        staged,
        index[m],
    ) <= staged.len() by {
        vstd::set_lib::lemma_len_subset(staged.intersect(index[m]), staged);
    }
    assert(is_best(staged, index, name));
    assert forall|m: Seq<char>| #[trigger] is_best(staged, index, m) implies lex_le(name, m) by {
        assert(index.dom().contains(m));
        assert(overlap(staged, index[m]) <= staged.len());
        assert(overlap(staged, index[name]) <= overlap(staged, index[m]));
        vstd::set_lib::lemma_subset_equality(staged.intersect(index[m]), staged);
        assert(staged.intersect(index[m]) =~= staged);
        assert(staged.subset_of(index[m])) by {
            assert forall|p: Seq<char>| staged.contains(p) implies index[m].contains(p) by {
                assert(staged.intersect(index[m]).contains(p));
            }
        }
        if m == name {
            crate::text::lemma_lex_lt_irreflexive(name);
        } else {
            crate::text::lemma_lex_lt_asymmetric(name, m);
        }
    }
    lemma_closest_is(staged, index, name);
}

/// Where two scopes share the largest number of staged files, the one that
/// comes later by name is not the closest; where they are the only two, the
/// earlier one is.
pub proof fn lemma_tie_goes_to_smaller_name(
    staged: Set<Seq<char>>,
    index: Map<Seq<char>, Set<Seq<char>>>,
    a: Seq<char>,
    b: Seq<char>,
)
    requires
        is_best(staged, index, a),
        is_best(staged, index, b),
        lex_lt(a, b),
    ensures
        closest(staged, index) != Some(b),
        (forall|m: Seq<char>| #[trigger] is_best(staged, index, m) ==> m == a || m == b)
            ==> closest(staged, index) == Some(a),
{
    if closest(staged, index) == Some(b) {
        assert(is_closest(staged, index, b));
        assert(lex_le(b, a));
    }
    if forall|m: Seq<char>| #[trigger] is_best(staged, index, m) ==> m == a || m == b {
        crate::text::lemma_lex_lt_irreflexive(a);
        crate::text::lemma_lex_lt_asymmetric(a, b);
        assert forall|m: Seq<char>| #[trigger] is_best(staged, index, m) implies lex_le(a, m) by {
            assert(m == a || m == b);
        }
        lemma_closest_is(staged, index, a);
    }
}

/// The scopes that share the largest number of files with the staged ones,
/// each once; none where no scope shares a file.
pub fn find_by_overlap(staged_files: ChangedFiles, scope_set: ScopeIndex) -> (r: Vec<CommitScope>)
    requires
        staged_files.wf(),
        scope_set.wf(),
    ensures
        forall|j: int|
            0 <= j < r@.len() ==> is_best(staged_files@, scope_set@, (#[trigger] r@[j])@.name),
        forall|j: int|
            0 <= j < r@.len() ==> (#[trigger] r@[j])@.description
                == scope_set.descriptions()[r@[j]@.name],
        forall|name: Seq<char>|
            is_best(staged_files@, scope_set@, name) ==> exists|j: int|
                0 <= j < r@.len() && (#[trigger] r@[j])@.name == name,
        forall|i: int, j: int|
            0 <= i < r@.len() && 0 <= j < r@.len() && r@[i]@.name == r@[j]@.name ==> i == j,
        r@.len() == 0 <==> no_overlap(staged_files@, scope_set@),
{
    let ghost keys = scope_set.keys();
    let ghost sets = scope_set.sets();
    let ghost staged = staged_files@;
    proof {
        scope_set.lemma_wf();
        staged_files.lemma_finite();
    }
    let mut best: usize = 0;
    let mut result: Vec<CommitScope> = Vec::new();
    let ghost mut picked: Seq<int> = Seq::empty();
    let n = scope_set.len();
    let mut i: usize = 0;
    while i < n
        invariant
            scope_set.wf(),
            staged_files.wf(),
            keys == scope_set.keys(),
            sets == scope_set.sets(),
            staged == staged_files@,
            n == keys.len(),
            keys.len() == sets.len(),
            i <= n,
            picked.len() == result@.len(),
            forall|j: int|
                0 <= j < picked.len() ==> 0 <= #[trigger] picked[j] < i && result@[j]@
                    == keys[picked[j]] && overlap(staged, sets[picked[j]]) == best,
            forall|a: int, b: int| 0 <= a < b < picked.len() ==> picked[a] < picked[b],
            forall|k: int| 0 <= k < i ==> overlap(staged, #[trigger] sets[k]) <= best,
            forall|k: int|
                0 <= k < i && best > 0 && overlap(staged, #[trigger] sets[k]) == best
                    ==> exists|j: int| 0 <= j < picked.len() && picked[j] == k,
            best == 0 ==> result@.len() == 0,
            best > 0 ==> result@.len() > 0,
        decreases n - i,
    {
        let shared = staged_files.overlap(scope_set.files_at(i));
        if shared > 0 {
            if shared == best {
                result.push(scope_set.scope_at(i).clone());
                proof {
                    let before = picked;
                    picked = picked.push(i as int);
                    assert forall|k: int|
                        0 <= k < i + 1 && best > 0 && overlap(staged, #[trigger] sets[k])
                            == best implies exists|j: int|
                        0 <= j < picked.len() && picked[j] == k by {
                        if k < i {
                            let j = choose|j: int| 0 <= j < before.len() && before[j] == k;
                            assert(picked[j] == k);
                        } else {
                            assert(picked[before.len() as int] == k);
                        }
                    }
                }
            } else if shared > best {
                best = shared;
                result = Vec::new();
                result.push(scope_set.scope_at(i).clone());
                proof {
                    picked = seq![i as int];
                    assert forall|k: int|
                        0 <= k < i + 1 && best > 0 && overlap(staged, #[trigger] sets[k])
                            == best implies exists|j: int|
                        0 <= j < picked.len() && picked[j] == k by {
                        assert(picked[0] == i);
                    }
                }
            }
        }
        i = i + 1;
    }
    proof {
        let index = scope_set@;
        assert forall|m: Seq<char>| #[trigger] index.dom().contains(m) implies overlap(
            staged,
            index[m],
        ) <= best by {
            let k = place_of(keys, m);
            assert(overlap(staged, sets[k]) <= best);
        }
        assert forall|j: int| 0 <= j < result@.len() implies is_best(
            staged,
            index,
            (#[trigger] result@[j])@.name,
        ) && result@[j]@.description == scope_set.descriptions()[result@[j]@.name] by {
            let k = picked[j];
            assert(keys[k].name == result@[j]@.name);
            assert(has_name(keys, keys[k].name));
            assert(place_of(keys, keys[k].name) == k);
        }
        assert forall|name: Seq<char>| is_best(staged, index, name) implies exists|j: int|
            0 <= j < result@.len() && (#[trigger] result@[j])@.name == name by {
            let k = place_of(keys, name);
            assert(overlap(staged, sets[k]) <= best);
            if overlap(staged, sets[k]) < best {
                assert(best > 0);
                let p = picked[0];
                assert(has_name(keys, keys[p].name));
                assert(place_of(keys, keys[p].name) == p);
                assert(index.dom().contains(keys[p].name));
                assert(false);
            }
            let j = choose|j: int| 0 <= j < picked.len() && picked[j] == k;
            assert(result@[j]@.name == name);
        }
        assert forall|a: int, b: int|
            0 <= a < result@.len() && 0 <= b < result@.len() && result@[a]@.name
                == result@[b]@.name implies a == b by {
            assert(keys[picked[a]].name == keys[picked[b]].name);
            if a < b {
                assert(picked[a] < picked[b]);
            }
            if b < a {
                assert(picked[b] < picked[a]);
            }
        }
        if result@.len() == 0 {
            assert(no_overlap(staged, index));
        } else {
            let p = picked[0];
            assert(has_name(keys, keys[p].name));
            assert(place_of(keys, keys[p].name) == p);
            assert(index.dom().contains(keys[p].name));
            assert(!no_overlap(staged, index));
        }
    }
    result
}

/// The scope that shares the most files with the staged ones; of several
/// such scopes, the first by name; none where no scope shares a file.
pub fn find_closest_neighbor(staged_files: ChangedFiles, scope_set: ScopeIndex) -> (r: Option<
    CommitScope,
>)
    requires
        staged_files.wf(),
        scope_set.wf(),
    ensures
        match r {
            Some(s) => {
                &&& is_closest(staged_files@, scope_set@, s@.name)
                &&& closest(staged_files@, scope_set@) == Some(s@.name)
                &&& s@.description == scope_set.descriptions()[s@.name]
            },
            None => {
                &&& closest(staged_files@, scope_set@) is None
                &&& no_overlap(staged_files@, scope_set@)
            },
        },
{
    let ghost staged = staged_files@;
    let ghost index = scope_set@;
    let res = find_by_overlap(staged_files, scope_set);
    if res.len() == 0 {
        proof {
            assert forall|n: Seq<char>| !is_closest(staged, index, n) by {
                if is_best(staged, index, n) {
                    assert(index.dom().contains(n));
                }
            }
        }
        return None;
    }
    let mut first: usize = 0;
    let mut i: usize = 1;
    while i < res.len()
        invariant
            0 <= first < i <= res@.len(),
            forall|j: int| 0 <= j < i ==> lex_le(res@[first as int]@.name, #[trigger] res@[j]@.name),
        decreases res@.len() - i,
    {
        if crate::text::str_lt(res[i].name.as_str(), res[first].name.as_str()) {
            proof {
                let old_first = res@[first as int]@.name;
                let new_first = res@[i as int]@.name;
                assert forall|j: int| 0 <= j < i + 1 implies lex_le(
                    new_first,
                    #[trigger] res@[j]@.name,
                ) by {
                    if lex_lt(res@[j]@.name, new_first) {
                        crate::text::lemma_lex_lt_transitive(res@[j]@.name, new_first, old_first);
                        assert(lex_le(old_first, res@[j]@.name));
                    }
                }
            }
            first = i;
        }
        i = i + 1;
    }
    let found = res[first].clone();
    proof {
        assert(is_best(staged, index, res@[first as int]@.name));
        assert forall|m: Seq<char>| #[trigger] is_best(staged, index, m) implies lex_le(
            found@.name,
            m,
        ) by {
            let j = choose|j: int| 0 <= j < res@.len() && (#[trigger] res@[j])@.name == m;
            assert(lex_le(res@[first as int]@.name, res@[j]@.name));
        }
        lemma_closest_is(staged, index, found@.name);
    }
    Some(found)
}

} // verus!
