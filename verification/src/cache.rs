//! A store of the scope index of each repository, to spare the walk through
//! its history.
//!
//! The store is kept in memory here. Reading it from a file and writing it
//! back is done elsewhere.

use crate::commit_scopes::index::ScopeIndex;
use vstd::prelude::*;

verus! {

/// For how many seconds an entry counts as fresh.
pub const TTL: u64 = 86400;

/// What is stored of one repository.
#[derive(Debug, Clone)]
pub struct CacheEntry {
    /// The index of the history.
    pub scopes: ScopeIndex,
    /// When the entry was made, in seconds since the epoch.
    pub timestamp: u64,
    /// The head commit at the time.
    pub head_commit_hash: String,
}

/// The stored entries, one for each repository, by the path of the
/// repository.
#[derive(Debug)]
pub struct Cache {
    repos: Vec<String>,
    entries: Vec<CacheEntry>,
}

/// The place of `repo` among `repos`.
pub open spec fn repo_place(repos: Seq<Seq<char>>, repo: Seq<char>) -> int {
    choose|i: int| 0 <= i < repos.len() && repos[i] == repo
}

impl View for Cache {
    type V = Map<Seq<char>, CacheEntry>;

    /// The entry of each repository, by its path.
    closed spec fn view(&self) -> Map<Seq<char>, CacheEntry> {
        Map::new(
            |repo: Seq<char>| self.paths().contains(repo),
            |repo: Seq<char>| self.entries@[repo_place(self.paths(), repo)],
        )
    }
}

impl Cache {
    /// The paths of the repositories, in the order in which they are kept.
    pub closed spec fn paths(&self) -> Seq<Seq<char>> {
        Seq::new(self.repos@.len(), |i: int| self.repos@[i]@)
    }

    /// Every repository has one entry, no repository occurs twice, and every
    /// stored index is well formed.
    pub closed spec fn wf(&self) -> bool {
        &&& self.repos@.len() == self.entries@.len()
        &&& self.paths().no_duplicates()
        &&& forall|i: int| 0 <= i < self.entries@.len() ==> (#[trigger] self.entries@[i]).scopes.wf()
    }

    /// The empty store.
    pub fn new() -> (r: Self)
        ensures
            r.wf(),
            r@ == Map::<Seq<char>, CacheEntry>::empty(),
    {
        let r = Cache { repos: Vec::new(), entries: Vec::new() };
        assert(r.paths() =~= Seq::<Seq<char>>::empty());
        assert(r@ =~= Map::<Seq<char>, CacheEntry>::empty());
        r
    }

    /// How many repositories the store holds.
    pub fn len(&self) -> (n: usize)
        requires
            self.wf(),
        ensures
            n == self@.dom().len(),
            self@.dom().finite(),
    {
        proof {
            self.paths().unique_seq_to_set();
            vstd::seq_lib::seq_to_set_is_finite(self.paths());
            assert(self@.dom() =~= self.paths().to_set());
        }
        self.repos.len()
    }

    /// The place of the repository at `repo`, if the store has it.
    fn position(&self, repo: &String) -> (r: Option<usize>)
        requires
            self.wf(),
        ensures
            match r {
                Some(i) => i < self.paths().len() && self.paths()[i as int] == repo@
                    && repo_place(self.paths(), repo@) == i,
                None => !self.paths().contains(repo@),
            },
    {
        let mut i: usize = 0;
        while i < self.repos.len()
            invariant
                self.wf(),
                i <= self.repos@.len(),
                forall|j: int| 0 <= j < i ==> self.paths()[j] != repo@,
            decreases self.repos@.len() - i,
        {
            if self.repos[i] == *repo {
                assert(self.paths()[i as int] == repo@);
                assert(self.paths().contains(repo@));
                return Some(i);
            }
            i = i + 1;
        }
        None
    }

    /// The entry of the repository at `repo`, if the store has one.
    pub fn get_entry(&self, repo: &String) -> (r: Option<&CacheEntry>)
        requires
            self.wf(),
        ensures
            match r {
                Some(entry) => self@.dom().contains(repo@) && *entry == self@[repo@]
                    && entry.scopes.wf(),
                None => !self@.dom().contains(repo@),
            },
    {
        match self.position(repo) {
            Some(i) => Some(&self.entries[i]),
            None => None,
        }
    }

    /// The index stored for the repository at `repo`, if there is one.
    pub fn get_scopes_for_repo(&self, repo: &String) -> (r: Option<ScopeIndex>)
        requires
            self.wf(),
        ensures
            match r {
                Some(index) => {
                    &&& self@.dom().contains(repo@)
                    &&& index.wf()
                    &&& index@ == self@[repo@].scopes@
                    &&& index.descriptions() == self@[repo@].scopes.descriptions()
                },
                None => !self@.dom().contains(repo@),
            },
    {
        match self.get_entry(repo) {
            Some(entry) => Some(entry.scopes.clone()),
            None => None,
        }
    }

    /// The paths of the repositories that the store holds, each once.
    pub fn repos(&self) -> (r: Vec<String>)
        requires
            self.wf(),
        ensures
            r@.len() == self@.dom().len(),
            forall|repo: Seq<char>|
                self@.dom().contains(repo) <==> exists|i: int|
                    0 <= i < r@.len() && (#[trigger] r@[i])@ == repo,
    {
        let mut r: Vec<String> = Vec::new();
        let mut i: usize = 0;
        while i < self.repos.len()
            invariant
                i <= self.repos@.len(),
                r@.len() == i,
                forall|j: int| 0 <= j < i ==> r@[j]@ == self.repos@[j]@,
            decreases self.repos@.len() - i,
        {
            r.push(self.repos[i].clone());
            i = i + 1;
        }
        proof {
            self.paths().unique_seq_to_set();
            assert(self@.dom() =~= self.paths().to_set());
            assert forall|repo: Seq<char>|
                self@.dom().contains(repo) <==> exists|i: int|
                    0 <= i < r@.len() && (#[trigger] r@[i])@ == repo by {
                if self@.dom().contains(repo) {
                    let i = repo_place(self.paths(), repo);
                    assert(r@[i]@ == repo);
                }
                if exists|i: int| 0 <= i < r@.len() && (#[trigger] r@[i])@ == repo {
                    let i = choose|i: int| 0 <= i < r@.len() && (#[trigger] r@[i])@ == repo;
                    assert(self.paths()[i] == repo);
                }
            }
        }
        r
    }

    /// Stores `entry` for the repository at `repo`, in place of an entry that
    /// the repository had.
    pub fn insert(&mut self, repo: String, entry: CacheEntry)
        requires
            old(self).wf(),
            entry.scopes.wf(),
        ensures
            final(self).wf(),
            final(self)@ == old(self)@.insert(repo@, entry),
    {
        let ghost old_paths = self.paths();
        let ghost old_view = self@;
        match self.position(&repo) {
            Some(i) => {
                self.entries.set(i, entry);
                proof {
                    assert(self.paths() =~= old_paths);
                    assert(self@ =~= old_view.insert(repo@, entry)) by {
                        assert forall|r: Seq<char>| old_paths.contains(r) && r != repo@
                            implies repo_place(old_paths, r) != i by {}
                    }
                }
            },
            None => {
                self.repos.push(repo);
                self.entries.push(entry);
                proof {
                    let paths = self.paths();
                    let n = old_paths.len() as int;
                    assert(paths =~= old_paths.push(repo@));
                    assert forall|r: Seq<char>| paths.contains(r) <==> (old_paths.contains(r) || r
                        == repo@) by {
                        if old_paths.contains(r) {
                            let k = repo_place(old_paths, r);
                            assert(paths[k] == r);
                        }
                        if r == repo@ {
                            assert(paths[n] == r);
                        }
                        if paths.contains(r) {
                            let k = repo_place(paths, r);
                            if k < n {
                                assert(old_paths[k] == r);
                            }
                        }
                    }
                    assert forall|r: Seq<char>| paths.contains(r) implies repo_place(paths, r) == (
                    if r == repo@ {
                        n
                    } else {
                        repo_place(old_paths, r)
                    }) by {
                        let k = repo_place(paths, r);
                        if r == repo@ {
                            assert(paths[n] == r);
                        } else {
                            let j = repo_place(old_paths, r);
                            assert(paths[j] == r);
                        }
                    }
                    assert(self@ =~= old_view.insert(repo@, entry));
                }
            },
        }
    }

    /// Drops the entry of the repository at `repo`; says whether it had one.
    pub fn remove(&mut self, repo: &String) -> (had: bool)
        requires
            old(self).wf(),
        ensures
            final(self).wf(),
            had == old(self)@.dom().contains(repo@),
            final(self)@ == old(self)@.remove(repo@),
    {
        let ghost old_paths = self.paths();
        let ghost old_entries = self.entries@;
        let ghost old_view = self@;
        match self.position(repo) {
            Some(i) => {
                self.repos.remove(i);
                self.entries.remove(i);
                proof {
                    let paths = self.paths();
                    assert(paths =~= old_paths.remove(i as int));
                    assert(self.entries@ =~= old_entries.remove(i as int));
                    assert forall|r: Seq<char>| paths.contains(r) <==> (old_paths.contains(r) && r
                        != repo@) by {
                        if paths.contains(r) {
                            let k = repo_place(paths, r);
                            let k0 = if k < i { k } else { k + 1 };
                            assert(old_paths[k0] == r);
                        }
                        if old_paths.contains(r) && r != repo@ {
                            let k = repo_place(old_paths, r);
                            let k1 = if k < i { k } else { k - 1 };
                            assert(paths[k1] == r);
                        }
                    }
                    assert forall|r: Seq<char>| paths.contains(r) implies self.entries@[repo_place(
                        paths,
                        r,
                    )] == old_entries[repo_place(old_paths, r)] by {
                        let k = repo_place(paths, r);
                        let k0 = if k < i { k } else { k + 1 };
                        assert(old_paths[k0] == r);
                        assert(repo_place(old_paths, r) == k0);
                    }
                    assert(self@ =~= old_view.remove(repo@));
                }
                true
            },
            None => {
                proof {
                    assert(self@ =~= old_view.remove(repo@));
                }
                false
            },
        }
    }
}

/// Why the store could not be brought up to date.
#[derive(Debug, Clone, Copy, PartialEq, Eq)]
pub enum CacheError {
    /// The history of the repository holds no scope.
    NoScopes,
}

impl CacheError {
    /// The message for the user.
    pub fn message(&self) -> (r: String)
        ensures
            r@ == "No scopes detected in the repo"@,
    {
        "No scopes detected in the repo".to_owned()
    }
}

/// Stores the index of the history of the repository at `repo`, made at
/// `timestamp` with the head commit `head_commit_hash`. A history without
/// scopes is refused, and the store stays as it is.
pub fn update_cache_for_repo(
    cache: &mut Cache,
    repo: String,
    scopes: Option<ScopeIndex>,
    timestamp: u64,
    head_commit_hash: String,
) -> (r: Result<(), CacheError>)
    requires
        old(cache).wf(),
        scopes matches Some(index) ==> index.wf(),
    ensures
        final(cache).wf(),
        match scopes {
            Some(index) => r is Ok && final(cache)@ == old(cache)@.insert(
                repo@,
                CacheEntry { scopes: index, timestamp, head_commit_hash },
            ),
            None => r == Err::<(), CacheError>(CacheError::NoScopes) && final(cache)@ == old(
                cache,
            )@,
        },
{
    match scopes {
        Some(index) => {
            cache.insert(repo, CacheEntry { scopes: index, timestamp, head_commit_hash });
            Ok(())
        },
        None => Err(CacheError::NoScopes),
    }
}

/// Drops what is stored of the repository at `repo`; says whether anything
/// was.
pub fn drop_cache_for_repo(cache: &mut Cache, repo: &String) -> (had: bool)
    requires
        old(cache).wf(),
    ensures
        final(cache).wf(),
        had == old(cache)@.dom().contains(repo@),
        final(cache)@ == old(cache)@.remove(repo@),
{
    cache.remove(repo)
}

/// What to do with a stale entry.
#[derive(Debug, Clone, Copy, PartialEq, Eq)]
pub enum RegenerateOnStale {
    /// Make the entry anew.
    Always,
    /// Ask the user.
    Prompt,
    /// Leave the entry, and walk through the history.
    Never,
}

/// Where the index of the history is taken from.
#[derive(Debug, Clone, Copy, PartialEq, Eq)]
pub enum HistorySource {
    /// The stored entry is fresh: its index stands in for the walk through
    /// the history.
    Cached,
    /// The stored entry is made anew, and the new index is used.
    Regenerate,
    /// The user is asked whether the stored entry is to be made anew.
    AskUser,
    /// The history is walked through.
    Walk,
}

/// An entry is fresh while it is younger than `TTL` seconds, and as long as
/// the head commit is the one it was made with.
pub open spec fn is_fresh(
    timestamp: u64,
    head_commit_hash: Seq<char>,
    now: u64,
    head: Seq<char>,
) -> bool {
    now - timestamp < TTL || head_commit_hash == head
}

/// Where the index is taken from, given what the store holds of the
/// repository, the time, the head commit and what to do with a stale entry.
pub open spec fn history_source(
    entry: Option<CacheEntry>,
    now: u64,
    head: Seq<char>,
    policy: RegenerateOnStale,
) -> HistorySource {
    match entry {
        None => HistorySource::Walk,
        Some(e) => if is_fresh(e.timestamp, e.head_commit_hash@, now, head) {
            HistorySource::Cached
        } else {
            match policy {
                RegenerateOnStale::Always => HistorySource::Regenerate,
                RegenerateOnStale::Prompt => HistorySource::AskUser,
                RegenerateOnStale::Never => HistorySource::Walk,
            }
        },
    }
}

/// Decides where the index of the history is taken from. `now` is the time
/// in seconds since the epoch, and no entry is younger than that.
pub fn choose_history_source(
    entry: Option<&CacheEntry>,
    now: u64,
    head: &String,
    policy: RegenerateOnStale,
) -> (r: HistorySource)
    requires
        entry matches Some(e) ==> e.timestamp <= now,
    ensures
        r == history_source(
            match entry {
                Some(e) => Some(*e),
                None => None,
            },
            now,
            head@,
            policy,
        ),
{
    match entry {
        None => HistorySource::Walk,
        Some(e) => {
            if now - e.timestamp < TTL || e.head_commit_hash == *head {
                HistorySource::Cached
            } else {
                match policy {
                    RegenerateOnStale::Always => HistorySource::Regenerate,
                    RegenerateOnStale::Prompt => HistorySource::AskUser,
                    RegenerateOnStale::Never => HistorySource::Walk,
                }
            }
        },
    }
}

/// What follows the user's answer to the question whether a stale entry is
/// to be made anew.
pub fn after_prompt(confirmed: bool) -> (r: HistorySource)
    ensures
        r == if confirmed {
            HistorySource::Regenerate
        } else {
            HistorySource::Walk
        },
{
    if confirmed {
        HistorySource::Regenerate
    } else {
        HistorySource::Walk
    }
}

} // verus!
