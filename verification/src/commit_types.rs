//! The types of a conventional commit.

use crate::config::Config;
use crate::utils::entities;
use crate::utils::EntityView;
use crate::utils::PrintableEntity;
use vstd::prelude::*;

verus! {

/// A commit type such as `feat` or `fix`, with what it means.
#[derive(Debug, Eq, PartialEq, Hash, Ord, PartialOrd)]
pub struct CommitType {
    pub name: String,
    pub description: String,
}

impl View for CommitType {
    type V = EntityView;

    open spec fn view(&self) -> EntityView {
        EntityView { name: self.name@, description: self.description@ }
    }
}

impl Clone for CommitType {
    fn clone(&self) -> (r: Self)
        ensures
            r@ == self@,
    {
        CommitType { name: self.name.clone(), description: self.description.clone() }
    }
}

impl PrintableEntity for CommitType {
    open spec fn entity(&self) -> EntityView {
        self@
    }

    fn name(&self) -> (r: &str) {
        self.name.as_str()
    }

    fn description(&self) -> (r: &str) {
        self.description.as_str()
    }
}

/// A commit type whose texts are borrowed.
#[derive(Clone, Debug)]
pub struct CommitTypeRef<'a> {
    pub name: &'a str,
    pub description: &'a str,
}

impl<'a> View for CommitTypeRef<'a> {
    type V = EntityView;

    open spec fn view(&self) -> EntityView {
        EntityView { name: self.name@, description: self.description@ }
    }
}

impl<'a> CommitTypeRef<'a> {
    /// The commit type with the same texts, owned.
    pub fn to_commit_type(&self) -> (r: CommitType)
        ensures
            r@ == self@,
    {
        CommitType { name: self.name.to_owned(), description: self.description.to_owned() }
    }
}

/// The commit types that are offered where a project configures none, as
/// names and descriptions.
pub open spec fn default_commit_types() -> Seq<EntityView> {
    seq![
        EntityView { name: "feat"@, description: "A new feature"@ },
        EntityView { name: "fix"@, description: "A bug fix"@ },
        EntityView { name: "docs"@, description: "Documentation only changes"@ },
        EntityView {
            name: "style"@,
            description: "Changes that do not affect the meaning of the code (white-space, formatting, missing semi-colons, etc)"@,
        },
        EntityView {
            name: "refactor"@,
            description: "A code change that neither fixes a bug nor adds a feature"@,
        },
        EntityView { name: "perf"@, description: "A code change that improves performance"@ },
        EntityView {
            name: "test"@,
            description: "Adding missing tests or correcting existing tests"@,
        },
        EntityView {
            name: "build"@,
            description: "Changes that affect the build system or external dependencies (example scopes: gulp, broccoli, npm)"@,
        },
        EntityView {
            name: "ci"@,
            description: "Changes to our CI configuration files and scripts (example scopes: Travis, Circle, BrowserStack, SauceLabs)"@,
        },
        EntityView {
            name: "chore"@,
            description: "Other changes that don't modify src or test files"@,
        },
    ]
}

/// The views of a list of borrowed commit types.
pub open spec fn ref_views(v: Seq<CommitTypeRef<'static>>) -> Seq<EntityView> {
    Seq::new(v.len(), |i: int| v[i]@)
}

/// The default commit types, with borrowed texts.
pub fn default_commit_type_refs() -> (r: Vec<CommitTypeRef<'static>>)
    ensures
        ref_views(r@) == default_commit_types(),
{
    let mut r: Vec<CommitTypeRef<'static>> = Vec::new();
    r.push(CommitTypeRef { name: "feat", description: "A new feature" });
    r.push(CommitTypeRef { name: "fix", description: "A bug fix" });
    r.push(CommitTypeRef { name: "docs", description: "Documentation only changes" });
    r.push(
        CommitTypeRef {
            name: "style",
            description: "Changes that do not affect the meaning of the code (white-space, formatting, missing semi-colons, etc)",
        },
    );
    r.push(
        CommitTypeRef {
            name: "refactor",
            description: "A code change that neither fixes a bug nor adds a feature",
        },
    );
    r.push(CommitTypeRef { name: "perf", description: "A code change that improves performance" });
    r.push(
        CommitTypeRef {
            name: "test",
            description: "Adding missing tests or correcting existing tests",
        },
    );
    r.push(
        CommitTypeRef {
            name: "build",
            description: "Changes that affect the build system or external dependencies (example scopes: gulp, broccoli, npm)",
        },
    );
    r.push(
        CommitTypeRef {
            name: "ci",
            description: "Changes to our CI configuration files and scripts (example scopes: Travis, Circle, BrowserStack, SauceLabs)",
        },
    );
    r.push(
        CommitTypeRef {
            name: "chore",
            description: "Other changes that don't modify src or test files",
        },
    );
    assert(ref_views(r@) =~= default_commit_types());
    r
}

/// The default commit types.
pub fn get_default_commit_types() -> (r: Vec<CommitType>)
    ensures
        entities(r@) == default_commit_types(),
{
    let refs = default_commit_type_refs();
    let mut r: Vec<CommitType> = Vec::new();
    let mut i: usize = 0;
    while i < refs.len()
        invariant
            i <= refs@.len(),
            r@.len() == i,
            forall|j: int| 0 <= j < i ==> r@[j]@ == refs@[j]@,
        decreases refs@.len() - i,
    {
        r.push(refs[i].to_commit_type());
        i = i + 1;
    }
    assert(entities(r@) =~= ref_views(refs@));
    r
}

/// The commit types that a configuration gives, as names and descriptions:
/// its own where it has any, the default ones otherwise.
pub open spec fn commit_types_of(config: Option<Config>) -> Seq<EntityView> {
    match config {
        Some(c) => match c.commit_types {
            Some(types) => entities(types@),
            None => default_commit_types(),
        },
        None => default_commit_types(),
    }
}

/// The commit types of the configuration, or the default ones where there
/// is no configuration or it names no types.
pub fn get_commit_types_from_repo_or_default(config: Option<Config>) -> (r: Vec<CommitType>)
    ensures
        entities(r@) == commit_types_of(config),
{
    match config {
        Some(config) => match config.commit_types {
            Some(types) => types,
            None => get_default_commit_types(),
        },
        None => get_default_commit_types(),
    }
}

} // verus!
