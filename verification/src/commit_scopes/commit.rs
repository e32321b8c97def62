//! From the history of a repository to the files of each scope.
//!
//! A repository is read elsewhere. Here a commit is what was read of it: its
//! summary line, and for each parent the paths that differ between the
//! parent's tree and the commit's own.

use crate::commit_scopes::changed_files::ChangedFiles;
use crate::commit_scopes::index::absorb;
use crate::commit_scopes::index::has_name;
use crate::commit_scopes::index::ScopeIndex;
use crate::commit_scopes::scope::CommitScope;
use vstd::prelude::*;

verus! {

/// The error type of the `fancy_regex` crate, carried through unread.
#[verifier::external_type_specification]
#[verifier::external_body]
pub struct ExRegexError(fancy_regex::Error);

/// The pattern that finds a scope in the first line of a commit message: a
/// run of word characters, spaces and hyphens right after an opening
/// bracket and right before a closing bracket, an optional exclamation mark
/// and a colon.
pub const SCOPE_PATTERN: &'static str = r"(?<=\()[\w -]+(?=\)!?:)";

/// How a search with a regular expression ended.
pub enum SearchOutcome {
    /// The text of the first match.
    Match(Seq<char>),
    /// The pattern matches nowhere.
    NoMatch,
    /// The pattern could not be compiled, or the search gave up.
    Failure,
}

/// What `fancy_regex` finds first in `text` when it searches for `pattern`.
pub uninterp spec fn regex_search(pattern: Seq<char>, text: Seq<char>) -> SearchOutcome;

/// The outcome that a search result stands for.
pub open spec fn outcome_of(found: Result<Option<String>, fancy_regex::Error>) -> SearchOutcome {
    match found {
        Ok(Some(s)) => SearchOutcome::Match(s@),
        Ok(None) => SearchOutcome::NoMatch,
        Err(_) => SearchOutcome::Failure,
    }
}

/// Compiles `pattern` with `fancy_regex::Regex::new` and searches `text`
/// with `Regex::find`; the text of a match is read with `Match::as_str`.
///
/// Nothing is proved of the search. The contract only gives its outcome a
/// name, which rests on the search being a function of the pattern and the
/// text alone.
///
/// The pattern is held to `SCOPE_PATTERN`. The search is not safe for every
/// pattern: one with a back-reference inside its own group can make it
/// panic, and a repeat count beyond 32 bits is read differently on machines
/// of different word size. `SCOPE_PATTERN` has neither.
#[verifier::external_body]
fn first_match(pattern: &str, text: &str) -> (r: Result<Option<String>, fancy_regex::Error>)
    requires
        pattern@ == SCOPE_PATTERN@,
    ensures
        outcome_of(r) == regex_search(pattern@, text@),
{
    match fancy_regex::Regex::new(pattern)?.find(text)? {
        Some(m) => Ok(Some(m.as_str().to_string())),
        None => Ok(None),
    }
}

/// After place `k` of `message` comes a colon, or an exclamation mark and a
/// colon.
pub open spec fn closes(message: Seq<char>, k: int) -> bool {
    ||| (0 <= k < message.len() && message[k] == ':')
    ||| (0 <= k && k + 1 < message.len() && message[k] == '!' && message[k + 1] == ':')
}

/// At place `i` of `message` stands `scope` between an opening and a closing
/// bracket, and after the closing bracket comes a colon, or an exclamation
/// mark and a colon.
pub open spec fn scope_at(message: Seq<char>, scope: Seq<char>, i: int) -> bool {
    &&& 1 <= i
    &&& i + scope.len() < message.len()
    &&& message[i - 1] == '('
    &&& message.subrange(i, i + scope.len()) == scope
    &&& message[i + scope.len()] == ')'
    &&& closes(message, i + scope.len() + 1)
}

/// Somewhere in `message` stands `(scope):` or `(scope)!:`.
pub open spec fn is_bracketed(message: Seq<char>, scope: Seq<char>) -> bool {
    exists|i: int| scope_at(message, scope, i)
}

/// Whether `scope` stands in `message` from place `i` on.
fn stands_at(message: &Vec<char>, scope: &Vec<char>, i: usize) -> (r: bool)
    requires
        i + scope@.len() <= message@.len(),
    ensures
        r == (message@.subrange(i as int, i + scope@.len()) == scope@),
{
    let n = message.len();
    let mut k: usize = 0;
    while k < scope.len()
        invariant
            n == message@.len(),
            i + scope@.len() <= n,
            k <= scope@.len(),
            forall|j: int| 0 <= j < k ==> message@[i + j] == scope@[j],
        decreases scope@.len() - k,
    {
        if message[i + k] != scope[k] {
            assert(message@.subrange(i as int, i + scope@.len())[k as int] != scope@[k as int]);
            return false;
        }
        k = k + 1;
    }
    assert(message@.subrange(i as int, i + scope@.len()) =~= scope@);
    true
}

/// Whether `(scope):` or `(scope)!:` stands somewhere in `message`.
pub fn holds_bracketed(message: &Vec<char>, scope: &Vec<char>) -> (r: bool)
    ensures
        r == is_bracketed(message@, scope@),
{
    let n = message.len();
    let m = scope.len();
    if n < 3 || n - 3 < m {
        assert forall|i: int| !scope_at(message@, scope@, i) by {}
        return false;
    }
    let bound = n - m - 1;
    let mut i: usize = 1;
    while i < bound
        invariant
            n == message@.len(),
            m == scope@.len(),
            bound == n - m - 1,
            1 <= i,
            forall|j: int| 1 <= j < i ==> !scope_at(message@, scope@, j),
        decreases bound - i,
    {
        if message[i - 1] == '(' && message[i + m] == ')' && stands_at(message, scope, i) {
            let k = i + m + 1;
            if message[k] == ':' || (k + 1 < n && message[k] == '!' && message[k + 1] == ':') {
                assert(scope_at(message@, scope@, i as int));
                return true;
            }
        }
        i = i + 1;
    }
    assert forall|j: int| !scope_at(message@, scope@, j) by {}
    false
}

/// The scope that an outcome of the search for `SCOPE_PATTERN` in `message`
/// gives: the matched text, if it is not empty and stands in the message
/// between brackets before a colon.
pub open spec fn scope_of_outcome(message: Seq<char>, outcome: SearchOutcome) -> Option<Seq<char>> {
    match outcome {
        SearchOutcome::Match(s) => if s.len() > 0 && is_bracketed(message, s) {
            Some(s)
        } else {
            None
        },
        _ => None,
    }
}

/// The scope in the summary line `message`, if it has one.
pub open spec fn scope_in_message(message: Seq<char>) -> Option<Seq<char>> {
    scope_of_outcome(message, regex_search(SCOPE_PATTERN@, message))
}

/// The view of an optional string.
pub open spec fn view_of(s: Option<String>) -> Option<Seq<char>> {
    match s {
        Some(s) => Some(s@),
        None => None,
    }
}

/// Turns the result of a search in `message` into a scope name. A search
/// that failed gives no scope, as one without a match does. A match is held
/// against the message once more: it is a scope only if it is not empty and
/// stands there between brackets, before a colon or an exclamation mark and
/// a colon.
pub fn scope_from_search(message: &str, found: Result<Option<String>, fancy_regex::Error>) -> (r:
    Option<String>)
    ensures
        view_of(r) == scope_of_outcome(message@, outcome_of(found)),
        r matches Some(s) ==> s@.len() > 0 && is_bracketed(message@, s@),
{
    match found {
        Ok(Some(s)) => {
            let scope = crate::text::chars_of(s.as_str());
            if scope.len() > 0 && holds_bracketed(&crate::text::chars_of(message), &scope) {
                Some(s)
            } else {
                None
            }
        },
        Ok(None) => None,
        Err(_) => None,
    }
}

/// Given the summary line of a commit message, finds the scope in it.
///
/// The search is left to `fancy_regex`, so which span it picks is known by
/// name only. What it picks is a scope only if it stands in the message as
/// `(scope):` or `(scope)!:`.
pub fn get_scope_from_commit_message(message: &str) -> (r: Option<String>)
    ensures
        view_of(r) == scope_in_message(message@),
        r matches Some(s) ==> s@.len() > 0 && is_bracketed(message@, s@),
{
    scope_from_search(message, first_match(SCOPE_PATTERN, message))
}

/// The paths that differ between two trees: for each changed entry its path
/// after the change, or nothing where that path is not text.
#[derive(Debug)]
pub struct Diff {
    pub paths: Vec<Option<String>>,
}

impl Diff {
    /// Whether entry `i` of the diff has the path `p`.
    pub open spec fn names(&self, i: int, p: Seq<char>) -> bool {
        0 <= i < self.paths@.len() && view_of(self.paths@[i]) == Some(p)
    }

    /// The paths of the diff that are text.
    pub open spec fn files(&self) -> Set<Seq<char>> {
        Set::new(|p: Seq<char>| exists|i: int| self.names(i, p))
    }
}

/// What was read of one commit.
#[derive(Debug)]
pub struct CommitInfo {
    /// The first line of the message; nothing where it could not be read.
    pub summary: Option<String>,
    /// One diff for each parent, or for a commit without parents the diff
    /// against the empty tree; nothing where a tree could not be read.
    pub diffs: Vec<Option<Diff>>,
}

impl CommitInfo {
    /// Whether diff `d` of the commit could be read and holds the path `p`.
    pub open spec fn touches(&self, d: int, p: Seq<char>) -> bool {
        0 <= d < self.diffs@.len() && self.diffs@[d] is Some && self.diffs@[d]->0.files().contains(
            p,
        )
    }

    /// The files that the commit changed: the union of its readable diffs.
    pub open spec fn changed_files(&self) -> Set<Seq<char>> {
        Set::new(|p: Seq<char>| exists|d: int| self.touches(d, p))
    }
}

/// The set of the changed files of a diff. A path that is not text is left
/// out.
pub fn get_changed_files_from_diff(diff: &Diff) -> (r: ChangedFiles)
    ensures
        r.wf(),
        r@ == diff.files(),
{
    let mut res = ChangedFiles::new();
    let mut i: usize = 0;
    while i < diff.paths.len()
        invariant
            i <= diff.paths@.len(),
            res.wf(),
            forall|p: Seq<char>|
                #![trigger res@.contains(p)]
                res@.contains(p) <==> exists|j: int| 0 <= j < i && diff.names(j, p),
        decreases diff.paths@.len() - i,
    {
        let ghost before = res@;
        match &diff.paths[i] {
            Some(path) => {
                res.insert(path.clone());
                proof {
                    assert(diff.names(i as int, path@));
                }
            },
            None => {},
        }
        proof {
            assert forall|p: Seq<char>|
                #![trigger res@.contains(p)]
                res@.contains(p) <==> exists|j: int| 0 <= j < i + 1 && diff.names(j, p) by {
                if before.contains(p) {
                    let j = choose|j: int| 0 <= j < i && diff.names(j, p);
                    assert(0 <= j < i + 1 && diff.names(j, p));
                }
                if exists|j: int| 0 <= j < i + 1 && diff.names(j, p) {
                    let j = choose|j: int| 0 <= j < i + 1 && diff.names(j, p);
                    if j < i {
                        assert(before.contains(p));
                    }
                }
            }
        }
        i = i + 1;
    }
    proof {
        assert(res@ =~= diff.files()) by {
            assert forall|p: Seq<char>| res@.contains(p) implies diff.files().contains(p) by {
                let j = choose|j: int| 0 <= j < i && diff.names(j, p);
                assert(diff.names(j, p));
            }
            assert forall|p: Seq<char>| diff.files().contains(p) implies res@.contains(p) by {
                let j = choose|j: int| diff.names(j, p);
                assert(0 <= j < i && diff.names(j, p));
            }
        }
    }
    res
}

/// The set of the files that a commit changed: the union of the diffs
/// against its parents that could be read.
pub fn get_changed_files_from_commit(commit: &CommitInfo) -> (r: ChangedFiles)
    ensures
        r.wf(),
        r@ == commit.changed_files(),
{
    let mut res = ChangedFiles::new();
    let mut d: usize = 0;
    while d < commit.diffs.len()
        invariant
            d <= commit.diffs@.len(),
            res.wf(),
            forall|p: Seq<char>|
                #![trigger res@.contains(p)]
                res@.contains(p) <==> exists|e: int| 0 <= e < d && commit.touches(e, p),
        decreases commit.diffs@.len() - d,
    {
        let ghost before = res@;
        match &commit.diffs[d] {
            Some(diff) => {
                res.extend(get_changed_files_from_diff(diff));
            },
            None => {},
        }
        proof {
            assert forall|p: Seq<char>|
                #![trigger res@.contains(p)]
                res@.contains(p) <==> exists|e: int| 0 <= e < d + 1 && commit.touches(e, p) by {
                if before.contains(p) {
                    let e = choose|e: int| 0 <= e < d && commit.touches(e, p);
                    assert(0 <= e < d + 1 && commit.touches(e, p));
                }
                if res@.contains(p) && !before.contains(p) {
                    assert(commit.touches(d as int, p));
                }
                if exists|e: int| 0 <= e < d + 1 && commit.touches(e, p) {
                    let e = choose|e: int| 0 <= e < d + 1 && commit.touches(e, p);
                    if e < d {
                        assert(before.contains(p));
                    }
                }
            }
        }
        d = d + 1;
    }
    proof {
        assert(res@ =~= commit.changed_files()) by {
            assert forall|p: Seq<char>| res@.contains(p) implies commit.changed_files().contains(
                p,
            ) by {
                let e = choose|e: int| 0 <= e < d && commit.touches(e, p);
                assert(commit.touches(e, p));
            }
            assert forall|p: Seq<char>| commit.changed_files().contains(p) implies res@.contains(
                p,
            ) by {
                let e = choose|e: int| commit.touches(e, p);
                assert(0 <= e < d && commit.touches(e, p));
            }
        }
    }
    res
}

/// The scope that an entry of a walk through the history carries. An entry
/// is nothing where the commit could not be read.
pub open spec fn scope_of(entry: Option<CommitInfo>) -> Option<Seq<char>> {
    match entry {
        Some(commit) => match commit.summary {
            Some(summary) => scope_in_message(summary@),
            None => None,
        },
        None => None,
    }
}

/// Entry `i` of `history` is a commit with the scope `name`.
pub open spec fn carries(history: Seq<Option<CommitInfo>>, i: int, name: Seq<char>) -> bool {
    0 <= i < history.len() && scope_of(history[i]) == Some(name)
}

/// Some commit of `history` has the scope `name`.
pub open spec fn has_scope(history: Seq<Option<CommitInfo>>, name: Seq<char>) -> bool {
    exists|i: int| carries(history, i, name)
}

/// Entry `i` of `history` is a commit with the scope `name` that changed
/// the file `p`.
pub open spec fn changes_under(
    history: Seq<Option<CommitInfo>>,
    i: int,
    name: Seq<char>,
    p: Seq<char>,
) -> bool {
    carries(history, i, name) && history[i]->0.changed_files().contains(p)
}

/// The files that the commits of `history` with the scope `name` changed:
/// the union of their changed files.
pub open spec fn files_under(history: Seq<Option<CommitInfo>>, name: Seq<char>) -> Set<Seq<char>> {
    Set::new(|p: Seq<char>| exists|i: int| changes_under(history, i, name, p))
}

/// The index of a history: every scope that a commit carries, with the
/// files that the commits with that scope changed.
pub open spec fn index_of_history(history: Seq<Option<CommitInfo>>) -> Map<
    Seq<char>,
    Set<Seq<char>>,
> {
    Map::new(|name: Seq<char>| has_scope(history, name), |name: Seq<char>| files_under(history, name))
}

/// Every scope in the index of a history has a name that is not empty.
pub proof fn lemma_scopes_of_history_are_named(history: Seq<Option<CommitInfo>>)
    ensures
        forall|name: Seq<char>| #[trigger]
            index_of_history(history).dom().contains(name) ==> name.len() > 0,
{
    assert forall|name: Seq<char>| #[trigger]
        index_of_history(history).dom().contains(name) implies name.len() > 0 by {
        let i = choose|i: int| carries(history, i, name);
        assert(scope_of(history[i]) == Some(name));
    }
}

/// The index of a history that is one entry longer.
pub proof fn lemma_index_of_longer_history(history: Seq<Option<CommitInfo>>, n: int)
    requires
        0 <= n < history.len(),
    ensures
        index_of_history(history.take(n + 1)) == match scope_of(history[n]) {
            Some(name) => absorb(
                index_of_history(history.take(n)),
                name,
                history[n]->0.changed_files(),
            ),
            None => index_of_history(history.take(n)),
        },
{
    let short = history.take(n);
    let long = history.take(n + 1);
    let before = index_of_history(short);
    let after = index_of_history(long);
    assert forall|i: int, name: Seq<char>| carries(short, i, name) implies carries(
        long,
        i,
        name,
    ) by {
        assert(short[i] == long[i]);
    }
    assert forall|i: int, name: Seq<char>| carries(long, i, name) && i < n implies carries(
        short,
        i,
        name,
    ) by {
        assert(short[i] == long[i]);
    }
    assert(long[n] == history[n]);
    let expected = match scope_of(history[n]) {
        Some(name) => absorb(before, name, history[n]->0.changed_files()),
        None => before,
    };
    assert forall|name: Seq<char>| after.dom().contains(name) <==> expected.dom().contains(
        name,
    ) by {
        if has_scope(long, name) {
            let i = choose|i: int| carries(long, i, name);
            if i < n {
                assert(carries(short, i, name));
            }
        }
        if has_scope(short, name) {
            let i = choose|i: int| carries(short, i, name);
            assert(carries(long, i, name));
        }
        if scope_of(history[n]) == Some(name) {
            assert(carries(long, n, name));
        }
    }
    assert forall|name: Seq<char>| after.dom().contains(name) implies after[name]
        =~= expected[name] by {
        let fresh = history[n]->0.changed_files();
        assert forall|p: Seq<char>| after[name].contains(p) <==> expected[name].contains(p) by {
            if files_under(long, name).contains(p) {
                let i = choose|i: int| changes_under(long, i, name, p);
                if i < n {
                    assert(short[i] == long[i]);
                    assert(changes_under(short, i, name, p));
                    assert(has_scope(short, name));
                }
            }
            if has_scope(short, name) && files_under(short, name).contains(p) {
                let i = choose|i: int| changes_under(short, i, name, p);
                assert(short[i] == long[i]);
                assert(changes_under(long, i, name, p));
            }
            if scope_of(history[n]) == Some(name) && fresh.contains(p) {
                assert(changes_under(long, n, name, p));
            }
        }
    }
    assert(after =~= expected);
}

/// Walks through `history` and collects, for every scope that a commit
/// carries, the union of the files that the commits with that scope changed.
/// An entry that could not be read, a commit without a readable summary and
/// a commit without a scope add nothing. Where no commit carries a scope
/// there is no index.
pub fn get_scopes_x_changes(history: &Vec<Option<CommitInfo>>) -> (r: Option<ScopeIndex>)
    ensures
        match r {
            Some(index) => {
                &&& index.wf()
                &&& index@ == index_of_history(history@)
                &&& index@.dom().len() > 0
                &&& forall|name: Seq<char>| #[trigger] index@.dom().contains(name) ==> name.len() > 0
                &&& forall|name: Seq<char>| #[trigger]
                    index.descriptions().dom().contains(name) ==> index.descriptions()[name].len()
                        == 0
            },
            None => index_of_history(history@) == Map::<Seq<char>, Set<Seq<char>>>::empty(),
        },
{
    let mut acc = ScopeIndex::new();
    let mut i: usize = 0;
    proof {
        assert(index_of_history(history@.take(0)) =~= Map::<Seq<char>, Set<Seq<char>>>::empty()) by {
            assert forall|name: Seq<char>| !has_scope(history@.take(0), name) by {
                if has_scope(history@.take(0), name) {
                    let k = choose|k: int| carries(history@.take(0), k, name);
                }
            }
        }
    }
    while i < history.len()
        invariant
            i <= history@.len(),
            acc.wf(),
            acc@ == index_of_history(history@.take(i as int)),
            forall|name: Seq<char>| #[trigger]
                acc.descriptions().dom().contains(name) ==> acc.descriptions()[name].len() == 0,
        decreases history@.len() - i,
    {
        proof {
            lemma_index_of_longer_history(history@, i as int);
        }
        match &history[i] {
            Some(commit) => {
                match &commit.summary {
                    Some(summary) => {
                        match get_scope_from_commit_message(summary.as_str()) {
                            Some(name) => {
                                let changed = get_changed_files_from_commit(commit);
                                acc.insert_changes(CommitScope::new(name), changed);
                            },
                            None => {},
                        }
                    },
                    None => {},
                }
            },
            None => {},
        }
        i = i + 1;
    }
    proof {
        assert(history@.take(i as int) =~= history@);
    }
    if acc.is_empty() {
        None
    } else {
        proof {
            acc.lemma_wf();
            lemma_scopes_of_history_are_named(history@);
        }
        Some(acc)
    }
}

/// Status of a path: new in the index.
pub const INDEX_NEW: u32 = 1;

/// Status of a path: modified in the index.
pub const INDEX_MODIFIED: u32 = 2;

/// Status of a path: deleted from the index.
pub const INDEX_DELETED: u32 = 4;

/// Status of a path: renamed in the index.
pub const INDEX_RENAMED: u32 = 8;

/// Status of a path: modified in the index, and again in the working tree.
pub const INDEX_MODIFIED_WT_MODIFIED: u32 = 258;

/// Status of a path: new in the index, and modified in the working tree.
pub const INDEX_NEW_WT_MODIFIED: u32 = 257;

/// One entry of the status of a repository: the status flags of a path, as
/// git numbers them, and the path, or nothing where it is not text.
#[derive(Debug)]
pub struct StatusEntry {
    pub status: u32,
    pub path: Option<String>,
}

/// Whether a path with these status flags counts as staged: it is new,
/// modified, deleted or renamed in the index and nothing else, or new or
/// modified in the index and modified once more in the working tree.
pub open spec fn is_staged(status: u32) -> bool {
    status == INDEX_NEW || status == INDEX_MODIFIED || status == INDEX_DELETED || status
        == INDEX_RENAMED || status == INDEX_MODIFIED_WT_MODIFIED || status
        == INDEX_NEW_WT_MODIFIED
}

/// Entry `i` of `statuses` is staged and has the path `p`.
pub open spec fn stages(statuses: Seq<StatusEntry>, i: int, p: Seq<char>) -> bool {
    0 <= i < statuses.len() && is_staged(statuses[i].status) && view_of(statuses[i].path) == Some(
        p,
    )
}

/// The paths of the staged entries that are text.
pub open spec fn staged_paths(statuses: Seq<StatusEntry>) -> Set<Seq<char>> {
    Set::new(|p: Seq<char>| exists|i: int| stages(statuses, i, p))
}

/// Whether a path with these status flags counts as staged.
pub fn status_is_staged(status: u32) -> (r: bool)
    ensures
        r == is_staged(status),
{
    status == INDEX_NEW || status == INDEX_MODIFIED || status == INDEX_DELETED || status
        == INDEX_RENAMED || status == INDEX_MODIFIED_WT_MODIFIED || status
        == INDEX_NEW_WT_MODIFIED
}

/// The files that are staged, given the status of the repository. A staged
/// path that is not text is left out. Where no file is staged there is no
/// set.
pub fn get_staged_files(statuses: &Vec<StatusEntry>) -> (r: Option<ChangedFiles>)
    ensures
        match r {
            Some(files) => files.wf() && files@ == staged_paths(statuses@) && files@.len() > 0,
            None => staged_paths(statuses@) == Set::<Seq<char>>::empty(),
        },
{
    let mut paths = ChangedFiles::new();
    let mut i: usize = 0;
    while i < statuses.len()
        invariant
            i <= statuses@.len(),
            paths.wf(),
            forall|p: Seq<char>|
                #![trigger paths@.contains(p)]
                paths@.contains(p) <==> exists|j: int| 0 <= j < i && stages(statuses@, j, p),
        decreases statuses@.len() - i,
    {
        let ghost before = paths@;
        if status_is_staged(statuses[i].status) {
            match &statuses[i].path {
                Some(path) => {
                    paths.insert(path.clone());
                    proof {
                        assert(stages(statuses@, i as int, path@));
                    }
                },
                None => {},
            }
        }
        proof {
            assert forall|p: Seq<char>|
                #![trigger paths@.contains(p)]
                paths@.contains(p) <==> exists|j: int| 0 <= j < i + 1 && stages(statuses@, j, p) by {
                if before.contains(p) {
                    let j = choose|j: int| 0 <= j < i && stages(statuses@, j, p);
                    assert(0 <= j < i + 1 && stages(statuses@, j, p));
                }
                if exists|j: int| 0 <= j < i + 1 && stages(statuses@, j, p) {
                    let j = choose|j: int| 0 <= j < i + 1 && stages(statuses@, j, p);
                    if j < i {
                        assert(before.contains(p));
                    }
                }
            }
        }
        i = i + 1;
    }
    proof {
        assert(paths@ =~= staged_paths(statuses@)) by {
            assert forall|p: Seq<char>| paths@.contains(p) implies staged_paths(
                statuses@,
            ).contains(p) by {
                let j = choose|j: int| 0 <= j < i && stages(statuses@, j, p);
                assert(stages(statuses@, j, p));
            }
            assert forall|p: Seq<char>| staged_paths(statuses@).contains(p) implies paths@.contains(
                p,
            ) by {
                let j = choose|j: int| stages(statuses@, j, p);
                assert(0 <= j < i && stages(statuses@, j, p));
            }
        }
        paths.lemma_finite();
    }
    if paths.is_empty() {
        None
    } else {
        proof {
            assert(paths@.len() > 0) by {
                if paths@.len() == 0 {
                    assert(paths@ =~= Set::<Seq<char>>::empty());
                }
            }
        }
        Some(paths)
    }
}

} // verus!
