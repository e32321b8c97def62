//! The scope of a commit.

use crate::utils::EntityView;
use crate::utils::PrintableEntity;
use vstd::prelude::*;

verus! {

/// A label for the part of a project that a commit is about.
#[derive(Debug, PartialEq, Eq, Hash, PartialOrd, Ord)]
pub struct CommitScope {
    pub name: String,
    pub description: String,
}

impl View for CommitScope {
    type V = EntityView;

    open spec fn view(&self) -> EntityView {
        EntityView { name: self.name@, description: self.description@ }
    }
}

impl CommitScope {
    /// A scope with the given name and no description.
    pub fn new(name: String) -> (r: Self)
        ensures
            r@ == (EntityView { name: name@, description: Seq::<char>::empty() }),
    {
        CommitScope { name, description: String::new() }
    }
}

impl Clone for CommitScope {
    fn clone(&self) -> (r: Self)
        ensures
            r@ == self@,
    {
        CommitScope { name: self.name.clone(), description: self.description.clone() }
    }
}

impl PrintableEntity for CommitScope {
    open spec fn entity(&self) -> EntityView {
        self@
    }

    fn name(&self) -> (r: &str) {
        self.name.as_str()
    }

    fn description(&self) -> (r: &str) {
        self.description.as_str()
    }
}

} // verus!
