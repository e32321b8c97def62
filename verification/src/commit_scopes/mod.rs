//! Scopes: where they come from and how the list of them is put together.
//!
//! The list that is offered holds the scopes that the project configures and
//! those found in its history, sorted by name. A configured scope wins over
//! one of the same name from the history. The scope that is closest to the
//! staged files comes first.

pub mod changed_files;
pub mod commit;
pub mod distance;
pub mod index;
pub mod scope;

use crate::commit_scopes::changed_files::ChangedFiles;
use crate::commit_scopes::distance::closest;
use crate::commit_scopes::distance::find_closest_neighbor;
use crate::commit_scopes::index::has_name;
use crate::commit_scopes::index::place_of;
use crate::commit_scopes::index::ScopeIndex;
use crate::commit_scopes::scope::CommitScope;
use crate::config::Config;
use crate::utils::entities;
use crate::utils::sort_entities;
use crate::utils::sorted;
use crate::utils::EntityView;
use vstd::prelude::*;

verus! {

/// The place of the first entry of `list` named `name`.
pub open spec fn first_place(list: Seq<EntityView>, name: Seq<char>) -> int {
    choose|i: int|
        0 <= i < list.len() && list[i].name == name && forall|j: int|
            0 <= j < i ==> list[j].name != name
}

/// The list with its first entry named `name` moved to the front, and the
/// others left in their order; the list itself where it has no such entry.
pub open spec fn promoted(list: Seq<EntityView>, name: Seq<char>) -> Seq<EntityView> {
    if has_name(list, name) {
        seq![list[first_place(list, name)]] + list.remove(first_place(list, name))
    } else {
        list
    }
}

/// Moves the scope named as `first` to the front of the list. The scopes
/// after it keep their order. A list without a scope of that name stays as
/// it is.
pub fn push_to_first(v: Vec<CommitScope>, first: CommitScope) -> (r: Vec<CommitScope>)
    ensures
        entities(r@) == promoted(entities(v@), first@.name),
{
    let ghost list = entities(v@);
    let mut out = v;
    let mut i: usize = 0;
    while i < out.len()
        invariant
            i <= out@.len(),
            list == entities(v@),
            list == entities(out@),
            forall|j: int| 0 <= j < i ==> list[j].name != first@.name,
        decreases out@.len() - i,
    {
        if out[i].name == first.name {
            proof {
                assert(list[i as int].name == first@.name);
                assert(has_name(list, first@.name));
                assert(first_place(list, first@.name) == i);
            }
            let found = out.remove(i);
            out.insert(0, found);
            proof {
                assert(entities(out@) =~= seq![list[i as int]] + list.remove(i as int));
            }
            return out;
        }
        i = i + 1;
    }
    proof {
        if has_name(list, first@.name) {
            let k = place_of(list, first@.name);
            assert(list[k].name != first@.name);
        }
    }
    out
}

/// Whether the history has a scope with the name and the description of `e`.
pub open spec fn from_history(
    index: Map<Seq<char>, Set<Seq<char>>>,
    descriptions: Map<Seq<char>, Seq<char>>,
    e: EntityView,
) -> bool {
    index.dom().contains(e.name) && descriptions[e.name] == e.description
}

/// How often the history adds `e` to the configured scopes: once where it
/// has `e` and no configured scope has that name.
pub open spec fn added_by_history(
    configured: Seq<EntityView>,
    index: Map<Seq<char>, Set<Seq<char>>>,
    descriptions: Map<Seq<char>, Seq<char>>,
    e: EntityView,
) -> nat {
    if from_history(index, descriptions, e) && !has_name(configured, e.name) {
        1
    } else {
        0
    }
}

/// `list` holds the configured scopes and the scopes of the history whose
/// names are not configured, each as often as it is there, sorted by name.
pub open spec fn is_merged(
    list: Seq<EntityView>,
    configured: Seq<EntityView>,
    index: Map<Seq<char>, Set<Seq<char>>>,
    descriptions: Map<Seq<char>, Seq<char>>,
) -> bool {
    &&& sorted(list)
    &&& forall|e: EntityView|
        #![trigger list.to_multiset().count(e)]
        list.to_multiset().count(e) == configured.to_multiset().count(e) + added_by_history(
            configured,
            index,
            descriptions,
            e,
        )
}

/// The merged list of the configured scopes and those of the history.
pub open spec fn merged(
    configured: Seq<EntityView>,
    index: Map<Seq<char>, Set<Seq<char>>>,
    descriptions: Map<Seq<char>, Seq<char>>,
) -> Seq<EntityView> {
    choose|list: Seq<EntityView>| is_merged(list, configured, index, descriptions)
}

/// There is one merged list only.
pub proof fn lemma_merged_unique(
    list: Seq<EntityView>,
    configured: Seq<EntityView>,
    index: Map<Seq<char>, Set<Seq<char>>>,
    descriptions: Map<Seq<char>, Seq<char>>,
)
    requires
        is_merged(list, configured, index, descriptions),
    ensures
        merged(configured, index, descriptions) == list,
{
    let other = merged(configured, index, descriptions);
    assert(is_merged(other, configured, index, descriptions));
    assert(other.to_multiset() =~= list.to_multiset()) by {
        assert forall|e: EntityView| other.to_multiset().count(e) == list.to_multiset().count(
            e,
        ) by {}
    }
    crate::utils::lemma_sorted_unique(other, list);
}

/// Whether one of `v` is named `name`.
pub fn holds_scope_named(v: &Vec<CommitScope>, name: &String) -> (r: bool)
    ensures
        r == has_name(entities(v@), name@),
{
    let mut i: usize = 0;
    while i < v.len()
        invariant
            i <= v@.len(),
            forall|j: int| 0 <= j < i ==> entities(v@)[j].name != name@,
        decreases v@.len() - i,
    {
        if v[i].name == *name {
            assert(entities(v@)[i as int].name == name@);
            return true;
        }
        i = i + 1;
    }
    proof {
        if has_name(entities(v@), name@) {
            let k = place_of(entities(v@), name@);
            assert(entities(v@)[k].name != name@);
        }
    }
    false
}

/// The configured scopes together with the scopes of the history that no
/// configured scope names, sorted by name.
pub fn merge_with_history(configured: Vec<CommitScope>, history: &ScopeIndex) -> (r: Vec<
    CommitScope,
>)
    requires
        history.wf(),
    ensures
        is_merged(entities(r@), entities(configured@), history@, history.descriptions()),
        entities(r@) == merged(entities(configured@), history@, history.descriptions()),
{
    let ghost given = entities(configured@);
    let ghost keys = history.keys();
    let ghost index = history@;
    let ghost descriptions = history.descriptions();
    proof {
        history.lemma_wf();
    }
    let mut fresh: Vec<CommitScope> = Vec::new();
    let n = history.len();
    let mut i: usize = 0;
    assert(entities(fresh@) =~= Seq::<EntityView>::empty());
    while i < n
        invariant
            history.wf(),
            keys == history.keys(),
            given == entities(configured@),
            n == keys.len(),
            i <= n,
            crate::commit_scopes::index::distinct_names(keys),
            forall|a: int|
                0 <= a < fresh@.len() ==> exists|k: int|
                    0 <= k < i && keys[k] == #[trigger] entities(fresh@)[a] && !has_name(
                        given,
                        keys[k].name,
                    ),
            forall|k: int|
                0 <= k < i && !has_name(given, (#[trigger] keys[k]).name) ==> entities(
                    fresh@,
                ).contains(keys[k]),
            entities(fresh@).no_duplicates(),
        decreases n - i,
    {
        let scope = history.scope_at(i);
        let ghost before = entities(fresh@);
        if !holds_scope_named(&configured, &scope.name) {
            fresh.push(scope.clone());
            proof {
                let now = entities(fresh@);
                assert(now =~= before.push(keys[i as int]));
                assert forall|a: int| 0 <= a < now.len() implies exists|k: int|
                    0 <= k < i + 1 && keys[k] == #[trigger] now[a] && !has_name(
                        given,
                        keys[k].name,
                    ) by {
                    if a < before.len() {
                        let k = choose|k: int|
                            0 <= k < i && keys[k] == before[a] && !has_name(given, keys[k].name);
                        assert(0 <= k < i + 1 && keys[k] == now[a]);
                    } else {
                        assert(keys[i as int] == now[a]);
                    }
                }
                assert forall|k: int|
                    0 <= k < i + 1 && !has_name(given, (#[trigger] keys[k]).name) implies now.contains(
                    keys[k],
                ) by {
                    if k < i {
                        let a = choose|a: int| 0 <= a < before.len() && before[a] == keys[k];
                        assert(now[a] == keys[k]);
                    } else {
                        assert(now[before.len() as int] == keys[k]);
                    }
                }
                assert forall|a: int, b: int|
                    0 <= a < now.len() && 0 <= b < now.len() && a != b implies now[a]
                    != now[b] by {
                    if a < before.len() && b == before.len() {
                        let k = choose|k: int|
                            0 <= k < i && keys[k] == before[a] && !has_name(given, keys[k].name);
                        assert(keys[k].name != keys[i as int].name);
                    }
                    if b < before.len() && a == before.len() {
                        let k = choose|k: int|
                            0 <= k < i && keys[k] == before[b] && !has_name(given, keys[k].name);
                        assert(keys[k].name != keys[i as int].name);
                    }
                }
            }
        }
        i = i + 1;
    }
    let ghost added = entities(fresh@);
    let mut all = configured;
    all.append(&mut fresh);
    let sorted_list = sort_entities(all);
    proof {
        broadcast use vstd::seq_lib::group_to_multiset_ensures;

        let list = entities(sorted_list@);
        assert(entities(all@) =~= given + added);
        vstd::seq_lib::lemma_multiset_commutative(given, added);
        added.lemma_multiset_has_no_duplicates();
        assert forall|e: EntityView|
            #![trigger list.to_multiset().count(e)]
            list.to_multiset().count(e) == given.to_multiset().count(e) + added_by_history(
                given,
                index,
                descriptions,
                e,
            ) by {
            assert(list.to_multiset().count(e) == given.to_multiset().count(e)
                + added.to_multiset().count(e));
            if from_history(index, descriptions, e) && !has_name(given, e.name) {
                let k = place_of(keys, e.name);
                assert(keys[k].name == e.name);
                assert(descriptions[keys[k].name] == keys[k].description);
                assert(keys[k] == e);
                assert(added.contains(e));
                assert(added.to_multiset().count(e) > 0);
            } else {
                if added.contains(e) {
                    let a = choose|a: int| 0 <= a < added.len() && added[a] == e;
                    let k = choose|k: int|
                        0 <= k < n && keys[k] == added[a] && !has_name(given, keys[k].name);
                    assert(index.dom().contains(keys[k].name));
                    assert(false);
                }
                assert(added.to_multiset().count(e) == 0);
            }
        }
        lemma_merged_unique(list, given, index, descriptions);
    }
    sorted_list
}

/// The view of an optional set of files.
pub open spec fn staged_view(staged: Option<ChangedFiles>) -> Option<Set<Seq<char>>> {
    match staged {
        Some(files) => Some(files@),
        None => None,
    }
}

/// The list with the scope that is closest to the staged files moved to the
/// front; the list itself where nothing is staged or no scope is close.
pub open spec fn suggested(
    list: Seq<EntityView>,
    staged: Option<Set<Seq<char>>>,
    index: Map<Seq<char>, Set<Seq<char>>>,
) -> Seq<EntityView> {
    match staged {
        Some(files) => match closest(files, index) {
            Some(name) => promoted(list, name),
            None => list,
        },
        None => list,
    }
}

/// The list of scopes that is offered. Without a history it is the
/// configured list as it was given, if there is one. With a history it is
/// the merged list, with the scope that is closest to the staged files in
/// front.
pub open spec fn assembled(
    configured: Option<Seq<EntityView>>,
    history: Option<Map<Seq<char>, Set<Seq<char>>>>,
    descriptions: Map<Seq<char>, Seq<char>>,
    staged: Option<Set<Seq<char>>>,
) -> Option<Seq<EntityView>> {
    match history {
        None => configured,
        Some(index) => Some(
            suggested(
                merged(
                    match configured {
                        Some(c) => c,
                        None => Seq::empty(),
                    },
                    index,
                    descriptions,
                ),
                staged,
                index,
            ),
        ),
    }
}

/// The entries of an optional list of scopes.
pub open spec fn scope_views(list: Option<Vec<CommitScope>>) -> Option<Seq<EntityView>> {
    match list {
        Some(v) => Some(entities(v@)),
        None => None,
    }
}

/// The view of an optional index.
pub open spec fn index_view(history: Option<ScopeIndex>) -> Option<Map<Seq<char>, Set<Seq<char>>>> {
    match history {
        Some(index) => Some(index@),
        None => None,
    }
}

/// The descriptions of an optional index.
pub open spec fn index_descriptions(history: Option<ScopeIndex>) -> Map<Seq<char>, Seq<char>> {
    match history {
        Some(index) => index.descriptions(),
        None => Map::empty(),
    }
}

/// Puts the list of scopes together from the configured scopes, the index of
/// the history and the staged files, each of which may be missing.
pub fn assemble_scopes(
    configured: Option<Vec<CommitScope>>,
    history: Option<ScopeIndex>,
    staged: Option<ChangedFiles>,
) -> (r: Option<Vec<CommitScope>>)
    requires
        history matches Some(index) ==> index.wf(),
        staged matches Some(files) ==> files.wf(),
    ensures
        scope_views(r) == assembled(
            scope_views(configured),
            index_view(history),
            index_descriptions(history),
            staged_view(staged),
        ),
{
    match history {
        None => configured,
        Some(index) => {
            let given = match configured {
                Some(c) => c,
                None => {
                    let c: Vec<CommitScope> = Vec::new();
                    assert(entities(c@) =~= Seq::<EntityView>::empty());
                    c
                },
            };
            let scopes = merge_with_history(given, &index);
            match staged {
                Some(files) => {
                    match find_closest_neighbor(files, index) {
                        Some(matched) => Some(push_to_first(scopes, matched)),
                        None => Some(scopes),
                    }
                },
                None => Some(scopes),
            }
        },
    }
}

/// The entries of `list` whose names are not ignored, in their order.
pub open spec fn offered(list: Seq<EntityView>, ignored: Set<Seq<char>>) -> Seq<EntityView> {
    list.filter(|e: EntityView| !ignored.contains(e.name))
}

/// Drops the scopes that the configuration ignores.
pub fn drop_ignored(scopes: Vec<CommitScope>, config: &Config) -> (r: Vec<CommitScope>)
    ensures
        entities(r@) == offered(entities(scopes@), config.ignored_names()),
{
    let ghost all = entities(scopes@);
    let ghost ignored = config.ignored_names();
    let ghost keep = |e: EntityView| !ignored.contains(e.name);
    let mut rest = scopes;
    let mut out: Vec<CommitScope> = Vec::new();
    let ghost mut done: int = 0;
    proof {
        reveal(Seq::filter);
        assert(all.take(0) =~= Seq::<EntityView>::empty());
        assert(all.skip(0) =~= all);
        assert(entities(out@) =~= Seq::<EntityView>::empty());
    }
    while rest.len() > 0
        invariant
            0 <= done <= all.len(),
            rest@.len() + done == all.len(),
            entities(rest@) == all.skip(done),
            entities(out@) == all.take(done).filter(keep),
            keep == |e: EntityView| !ignored.contains(e.name),
            ignored == config.ignored_names(),
        decreases rest@.len(),
    {
        let ghost before = entities(rest@);
        let ghost kept = entities(out@);
        let x = rest.remove(0);
        proof {
            reveal(Seq::filter);
            assert(before[0] == x@);
            assert(all[done] == x@);
            assert(entities(rest@) =~= all.skip(done + 1)) by {
                assert forall|j: int| 0 <= j < entities(rest@).len() implies entities(rest@)[j]
                    == all.skip(done + 1)[j] by {
                    assert(before[j + 1] == all.skip(done)[j + 1]);
                }
            }
            assert(all.take(done + 1).drop_last() =~= all.take(done));
            assert(all.take(done + 1).last() == x@);
        }
        if !config.ignores(&x.name) {
            out.push(x);
            proof {
                assert(entities(out@) =~= kept.push(all[done]));
            }
        }
        proof {
            done = done + 1;
        }
    }
    proof {
        assert(all.take(done) =~= all);
    }
    out
}

/// Drops from the index the scopes that the configuration ignores.
pub fn drop_ignored_from_index(index: ScopeIndex, config: &Config) -> (r: ScopeIndex)
    requires
        index.wf(),
    ensures
        r.wf(),
        r@ == index@.remove_keys(config.ignored_names()),
        r.descriptions() == index.descriptions().remove_keys(config.ignored_names()),
{
    let ghost keys = index.keys();
    let ghost sets = index.sets();
    let ghost ignored = config.ignored_names();
    proof {
        index.lemma_wf();
    }
    let mut out = ScopeIndex::new();
    let n = index.len();
    let mut i: usize = 0;
    proof {
        assert(out.descriptions() =~= Map::<Seq<char>, Seq<char>>::empty());
    }
    while i < n
        invariant
            index.wf(),
            out.wf(),
            keys == index.keys(),
            sets == index.sets(),
            ignored == config.ignored_names(),
            n == keys.len(),
            i <= n,
            out.descriptions().dom() == out@.dom(),
            forall|name: Seq<char>|
                #![trigger out@.dom().contains(name)]
                out@.dom().contains(name) <==> (!ignored.contains(name) && exists|k: int|
                    0 <= k < i && keys[k].name == name),
            forall|name: Seq<char>|
                #![trigger out@.dom().contains(name)]
                out@.dom().contains(name) ==> out@[name] == index@[name]
                    && out.descriptions()[name] == index.descriptions()[name],
        decreases n - i,
    {
        let scope = index.scope_at(i);
        let ghost before = out@;
        let ghost before_descriptions = out.descriptions();
        proof {
            index.lemma_wf();
        }
        if !config.ignores(&scope.name) {
            proof {
                if before.dom().contains(scope@.name) {
                    let k = choose|k: int| 0 <= k < i && keys[k].name == scope@.name;
                    assert(keys[k].name == keys[i as int].name);
                }
            }
            out.insert_changes(scope.clone(), index.files_at(i).clone());
            proof {
                assert(out@ == before.insert(scope@.name, sets[i as int]));
                assert(out.descriptions() == before_descriptions.insert(
                    scope@.name,
                    scope@.description,
                ));
                assert(out.descriptions().dom() =~= out@.dom());
            }
        }
        proof {
            assert forall|name: Seq<char>|
                #![trigger out@.dom().contains(name)]
                out@.dom().contains(name) <==> (!ignored.contains(name) && exists|k: int|
                    0 <= k < i + 1 && keys[k].name == name) by {
                if before.dom().contains(name) {
                    let k = choose|k: int| 0 <= k < i && keys[k].name == name;
                    assert(0 <= k < i + 1 && keys[k].name == name);
                }
                if !ignored.contains(name) && exists|k: int|
                    0 <= k < i + 1 && keys[k].name == name {
                    let k = choose|k: int| 0 <= k < i + 1 && keys[k].name == name;
                    if k < i {
                        assert(before.dom().contains(name));
                    }
                }
            }
        }
        i = i + 1;
    }
    proof {
        let want = index@.remove_keys(ignored);
        assert forall|name: Seq<char>| out@.dom().contains(name) <==> want.dom().contains(
            name,
        ) by {
            if out@.dom().contains(name) {
                let k = choose|k: int| 0 <= k < n && keys[k].name == name;
                assert(has_name(keys, name));
            }
            if want.dom().contains(name) {
                let k = place_of(keys, name);
                assert(0 <= k < n && keys[k].name == name);
            }
        }
        assert(out@ =~= want);
        assert(out.descriptions() =~= index.descriptions().remove_keys(ignored));
    }
    out
}

/// The scopes that the configuration names and does not ignore.
pub open spec fn configured_scopes(config: Option<Config>) -> Option<Seq<EntityView>> {
    match config {
        Some(c) => match c.commit_scopes {
            Some(scopes) => Some(offered(entities(scopes@), c.ignored_names())),
            None => None,
        },
        None => None,
    }
}

/// The names that the configuration ignores; none without a configuration.
pub open spec fn ignored_by(config: Option<Config>) -> Set<Seq<char>> {
    match config {
        Some(c) => c.ignored_names(),
        None => Set::empty(),
    }
}

/// Whether the configuration leaves the history out.
pub open spec fn history_disabled_by(config: Option<Config>) -> bool {
    match config {
        Some(c) => c.history_disabled(),
        None => false,
    }
}

/// The part of the history that the configuration lets through: nothing
/// where it leaves the history out, else the index without the ignored
/// scopes.
pub open spec fn searched_history(
    config: Option<Config>,
    history: Option<Map<Seq<char>, Set<Seq<char>>>>,
) -> Option<Map<Seq<char>, Set<Seq<char>>>> {
    match history {
        Some(index) => if history_disabled_by(config) {
            None
        } else {
            Some(index.remove_keys(ignored_by(config)))
        },
        None => None,
    }
}

/// The list of scopes for a repository, from its configuration, from the
/// index of its history and from the files that are staged in it.
///
/// Scopes that the configuration ignores are left out of both sources, and
/// the history is left out altogether where the configuration says so. What
/// is left is put together as `assembled` says.
pub fn try_get_commit_scopes_from_repo(
    config: Option<Config>,
    history: Option<ScopeIndex>,
    staged: Option<ChangedFiles>,
) -> (r: Option<Vec<CommitScope>>)
    requires
        history matches Some(index) ==> index.wf(),
        staged matches Some(files) ==> files.wf(),
    ensures
        scope_views(r) == assembled(
            configured_scopes(config),
            searched_history(config, index_view(history)),
            index_descriptions(history).remove_keys(ignored_by(config)),
            staged_view(staged),
        ),
{
    match config {
        Some(whole) => {
            let mut config = whole;
            let given = config.commit_scopes.take();
            let other = match history {
                Some(index) => {
                    if config.disables_history_search() {
                        None
                    } else {
                        Some(drop_ignored_from_index(index, &config))
                    }
                },
                None => None,
            };
            let scopes_from_config = match given {
                Some(scopes) => Some(drop_ignored(scopes, &config)),
                None => None,
            };
            assemble_scopes(scopes_from_config, other, staged)
        },
        None => {
            proof {
                if history is Some {
                    let index = history->0;
                    assert(index@.remove_keys(Set::<Seq<char>>::empty()) =~= index@);
                    assert(index.descriptions().remove_keys(Set::<Seq<char>>::empty())
                        =~= index.descriptions());
                }
            }
            assemble_scopes(None, history, staged)
        },
    }
}

/// Gets the scopes that the configuration of a repository names, as they
/// are given; nothing where there is no configuration.
pub fn try_get_commit_scopes_from_repo_at_path(config: Option<Config>) -> (r: Option<
    Vec<CommitScope>,
>)
    ensures
        r == match config {
            Some(c) => c.commit_scopes,
            None => None,
        },
{
    match config {
        Some(config) => config.commit_scopes,
        None => None,
    }
}

} // verus!
