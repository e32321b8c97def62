//! The configuration of a project.

use crate::commit_scopes::scope::CommitScope;
use crate::commit_types::CommitType;
use crate::utils::entities;
use crate::utils::unique;
use crate::utils::unique_entities;
use crate::utils::EntityView;
use crate::utils::PrintableEntity;
use vstd::prelude::*;

verus! {

/// Settings that are no commit types or scopes.
#[derive(Debug, Clone, Eq, PartialEq, Default)]
pub struct GeneralConfig {
    pub scopes: Option<GeneralScopeConfig>,
}

/// Settings on how scopes are looked up.
#[derive(Debug, Clone, Eq, PartialEq, Default)]
pub struct GeneralScopeConfig {
    /// Names of scopes that are never offered.
    pub ignored: Option<Vec<String>>,
    /// Whether the history is left out of the search for scopes.
    pub disable_history_search: Option<bool>,
}

/// Holds the runtime configuration.
#[derive(Debug, Clone, Eq, PartialEq, Default)]
pub struct Config {
    pub commit_types: Option<Vec<CommitType>>,
    pub commit_scopes: Option<Vec<CommitScope>>,
    pub general: Option<GeneralConfig>,
}

/// The entries of an optional list; none where there is no list.
pub open spec fn listed<T: PrintableEntity>(list: Option<Vec<T>>) -> Seq<EntityView> {
    match list {
        Some(v) => entities(v@),
        None => Seq::empty(),
    }
}

/// The list itself, or an empty one.
fn or_empty<T: PrintableEntity>(list: Option<Vec<T>>) -> (r: Vec<T>)
    ensures
        r@ == match list {
            Some(v) => v@,
            None => Seq::empty(),
        },
        entities(r@) == listed(list),
{
    match list {
        Some(v) => v,
        None => {
            let r: Vec<T> = Vec::new();
            assert(entities(r@) =~= Seq::<EntityView>::empty());
            r
        },
    }
}

/// `a` followed by `b`, without the entries that repeat an earlier one.
fn chain_unique<T: PrintableEntity>(a: Vec<T>, b: Vec<T>) -> (r: Vec<T>)
    ensures
        entities(r@) == unique(entities(a@) + entities(b@)),
{
    let mut all = a;
    let mut rest = b;
    all.append(&mut rest);
    assert(entities(all@) =~= entities(a@) + entities(b@));
    unique_entities(all)
}

/// Whether `name` is among `names`.
pub open spec fn names_hold(names: Seq<String>, name: Seq<char>) -> bool {
    exists|i: int| 0 <= i < names.len() && names[i]@ == name
}

/// Whether `name` is among `names`.
pub fn holds_name(names: &Vec<String>, name: &String) -> (r: bool)
    ensures
        r == names_hold(names@, name@),
{
    let mut i: usize = 0;
    while i < names.len()
        invariant
            i <= names@.len(),
            forall|j: int| 0 <= j < i ==> names@[j]@ != name@,
        decreases names@.len() - i,
    {
        if names[i] == *name {
            assert(names@[i as int]@ == name@);
            return true;
        }
        i = i + 1;
    }
    false
}

impl Config {
    /// Puts two configurations together. The types and the scopes of `self`
    /// come first, those of `other` follow, and an entry that repeats an
    /// earlier one with the same name and description is dropped. The general
    /// settings are those of `self` where it has any, else those of `other`.
    pub fn merge(self, other: Self) -> (r: Self)
        ensures
            r.commit_types is Some,
            r.commit_scopes is Some,
            listed(r.commit_types) == unique(
                listed(self.commit_types) + listed(other.commit_types),
            ),
            listed(r.commit_scopes) == unique(
                listed(self.commit_scopes) + listed(other.commit_scopes),
            ),
            r.general == if self.general is Some {
                self.general
            } else {
                other.general
            },
    {
        let commit_types = chain_unique(or_empty(self.commit_types), or_empty(other.commit_types));
        let commit_scopes = chain_unique(
            or_empty(self.commit_scopes),
            or_empty(other.commit_scopes),
        );
        let general = match self.general {
            Some(g) => Some(g),
            None => other.general,
        };
        Config { commit_types: Some(commit_types), commit_scopes: Some(commit_scopes), general }
    }

    /// The configuration to work with, given what the repository and the
    /// user's own settings hold: where both are there they are merged, the
    /// repository's first; one alone is taken as it is.
    pub fn load(repo_config: Option<Config>, global_config: Option<Config>) -> (r: Option<Config>)
        ensures
            match (repo_config, global_config) {
                (Some(repo), Some(global)) => {
                    &&& r is Some
                    &&& r->0.commit_types is Some
                    &&& r->0.commit_scopes is Some
                    &&& listed(r->0.commit_types) == unique(
                        listed(repo.commit_types) + listed(global.commit_types),
                    )
                    &&& listed(r->0.commit_scopes) == unique(
                        listed(repo.commit_scopes) + listed(global.commit_scopes),
                    )
                    &&& r->0.general == if repo.general is Some {
                        repo.general
                    } else {
                        global.general
                    }
                },
                (Some(repo), None) => r == Some(repo),
                (None, Some(global)) => r == Some(global),
                (None, None) => r is None,
            },
    {
        match (repo_config, global_config) {
            (Some(repo), Some(global)) => Some(repo.merge(global)),
            (Some(repo), None) => Some(repo),
            (None, Some(global)) => Some(global),
            (None, None) => None,
        }
    }

    /// The names of the scopes that are never offered.
    pub open spec fn ignored_names(&self) -> Set<Seq<char>> {
        match self.general {
            Some(g) => match g.scopes {
                Some(s) => match s.ignored {
                    Some(names) => Set::new(|n: Seq<char>| names_hold(names@, n)),
                    None => Set::empty(),
                },
                None => Set::empty(),
            },
            None => Set::empty(),
        }
    }

    /// Whether the history is left out of the search for scopes.
    pub open spec fn history_disabled(&self) -> bool {
        match self.general {
            Some(g) => match g.scopes {
                Some(s) => s.disable_history_search == Some(true),
                None => false,
            },
            None => false,
        }
    }

    /// Whether the configuration leaves the history out of the search for
    /// scopes.
    pub fn disables_history_search(&self) -> (r: bool)
        ensures
            r == self.history_disabled(),
    {
        match &self.general {
            Some(g) => match &g.scopes {
                Some(s) => match s.disable_history_search {
                    Some(b) => b,
                    None => false,
                },
                None => false,
            },
            None => false,
        }
    }

    /// Whether the scope named `name` is never offered.
    pub fn ignores(&self, name: &String) -> (r: bool)
        ensures
            r == self.ignored_names().contains(name@),
    {
        match &self.general {
            Some(g) => match &g.scopes {
                Some(s) => match &s.ignored {
                    Some(names) => holds_name(names, name),
                    None => false,
                },
                None => false,
            },
            None => false,
        }
    }
}

} // verus!
