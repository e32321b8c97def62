use conventional_commit_helper::commit_scopes::changed_files::ChangedFiles;
use conventional_commit_helper::commit_scopes::commit::get_changed_files_from_commit;
use conventional_commit_helper::commit_scopes::commit::get_changed_files_from_diff;
use conventional_commit_helper::commit_scopes::commit::get_scope_from_commit_message;
use conventional_commit_helper::commit_scopes::commit::get_scopes_x_changes;
use conventional_commit_helper::commit_scopes::commit::get_staged_files;
use conventional_commit_helper::commit_scopes::commit::scope_from_search;
use conventional_commit_helper::commit_scopes::commit::status_is_staged;
use conventional_commit_helper::commit_scopes::commit::CommitInfo;
use conventional_commit_helper::commit_scopes::commit::Diff;
use conventional_commit_helper::commit_scopes::commit::StatusEntry;
use conventional_commit_helper::commit_scopes::commit::INDEX_DELETED;
use conventional_commit_helper::commit_scopes::commit::INDEX_MODIFIED;
use conventional_commit_helper::commit_scopes::commit::INDEX_MODIFIED_WT_MODIFIED;
use conventional_commit_helper::commit_scopes::commit::INDEX_NEW;
use conventional_commit_helper::commit_scopes::commit::INDEX_NEW_WT_MODIFIED;
use conventional_commit_helper::commit_scopes::commit::INDEX_RENAMED;
use conventional_commit_helper::commit_scopes::index::ScopeIndex;
use conventional_commit_helper::commit_scopes::scope::CommitScope;

fn mk_set(paths: &[&str]) -> ChangedFiles {
    ChangedFiles::from_vec(paths.iter().map(|p| p.to_string()).collect())
}

fn diff(paths: &[&str]) -> Diff {
    Diff {
        paths: paths.iter().map(|p| Some(p.to_string())).collect(),
    }
}

/// A commit with one parent, or none, that changed the given files.
fn commit(message: &str, changed: &[&str]) -> Option<CommitInfo> {
    Some(CommitInfo {
        summary: Some(message.to_string()),
        diffs: vec![Some(diff(changed))],
    })
}

/// The commits as a walk from the head meets them: the last one first.
fn history(commit_msgs: &[&str], files: &[&str]) -> Vec<Option<CommitInfo>> {
    commit_msgs
        .iter()
        .zip(files.iter())
        .rev()
        .map(|(message, file)| commit(message, &[file]))
        .collect()
}

fn index(entries: Vec<(CommitScope, ChangedFiles)>) -> ScopeIndex {
    let mut index = ScopeIndex::new();
    for (scope, changed) in entries {
        index.insert_changes(scope, changed);
    }
    index
}

#[test]
fn get_get_changed_files_from_commit() {
    let walk = history(
        &["init", "foo(foz): bar", "foo", "bar"], // commit msgs
        &["init", "one", "two", "two"],           // files
    );

    let test_res: Vec<ChangedFiles> = walk
        .iter()
        .map(|x| get_changed_files_from_commit(x.as_ref().expect("Should get changed files")))
        .collect();
    let expected: Vec<ChangedFiles> = vec![
        mk_set(&["two"]),
        mk_set(&["two"]),
        mk_set(&["one"]),
        mk_set(&["init"]),
    ];

    assert_eq!(test_res, expected);
}

#[test]
fn can_extract_scope_from_commit_msg_present() {
    assert_eq!(
        get_scope_from_commit_message("foo(foz): baz"),
        Some("foz".to_string())
    )
}

#[test]
fn can_extract_scope_from_commit_msg_present_multiple_words() {
    assert_eq!(
        get_scope_from_commit_message("foo(foz baz): bar"),
        Some("foz baz".to_string())
    )
}

#[test]
fn can_extract_scope_from_commit_msg_present_multiple_times() {
    assert_eq!(
        get_scope_from_commit_message("foo(bar): baz (foz)"),
        Some("bar".to_string())
    )
}

#[test]
fn can_extract_scope_from_commit_msg_brackets_without_colon() {
    assert_eq!(get_scope_from_commit_message("foo baz (foz)"), None)
}

#[test]
fn can_extract_scope_from_commit_msg_absent() {
    assert_eq!(get_scope_from_commit_message("foo: baz"), None)
}

#[test]
fn scope_may_be_followed_by_breaking_change_mark() {
    assert_eq!(
        get_scope_from_commit_message("feat(api)!: drop the old endpoint"),
        Some("api".to_string())
    );
    assert_eq!(
        get_scope_from_commit_message("refactor(conventional-commit-helper): rename"),
        Some("conventional-commit-helper".to_string())
    );
}

#[test]
fn scope_needs_word_characters_and_a_colon() {
    assert_eq!(get_scope_from_commit_message("foo(): bar"), None);
    assert_eq!(get_scope_from_commit_message("foo(a/b): bar"), None);
    assert_eq!(get_scope_from_commit_message("foo(bar) : baz"), None);
    assert_eq!(get_scope_from_commit_message("foo(bar)!!: baz"), None);
    assert_eq!(get_scope_from_commit_message(""), None);
}

#[test]
fn search_results_become_scopes() {
    let message = "foo(foz): bar (baz)";
    assert_eq!(
        scope_from_search(message, Ok(Some("foz".to_string()))),
        Some("foz".to_string())
    );
    assert_eq!(
        scope_from_search("foo(foz)!: bar", Ok(Some("foz".to_string()))),
        Some("foz".to_string())
    );
    assert_eq!(scope_from_search(message, Ok(Some(String::new()))), None);
    assert_eq!(scope_from_search(message, Ok(None)), None);
    let broken = fancy_regex::Regex::new("(").unwrap_err();
    assert_eq!(scope_from_search(message, Err(broken)), None);
}

/// A match that does not stand in the message as a scope is none.
#[test]
fn search_results_are_held_against_the_message() {
    let message = "foo(foz): bar (baz)";
    for found in ["baz", "bar", "fo", "oz", "foz)", "foo"] {
        assert_eq!(scope_from_search(message, Ok(Some(found.to_string()))), None);
    }
    assert_eq!(scope_from_search("(a)", Ok(Some("a".to_string()))), None);
    assert_eq!(scope_from_search("(a)!", Ok(Some("a".to_string()))), None);
    assert_eq!(scope_from_search("(a)!:", Ok(Some("a".to_string()))), Some("a".to_string()));
    assert_eq!(scope_from_search("(a):", Ok(Some("a".to_string()))), Some("a".to_string()));
    assert_eq!(scope_from_search("a):", Ok(Some("a".to_string()))), None);
    assert_eq!(scope_from_search("x(é ü):", Ok(Some("é ü".to_string()))), Some("é ü".to_string()));
    assert_eq!(scope_from_search("", Ok(Some("a".to_string()))), None);
}

#[test]
fn scopes_may_hold_letters_of_any_script() {
    assert_eq!(
        get_scope_from_commit_message("fix(ядро): исправление"),
        Some("ядро".to_string())
    );
    assert_eq!(
        get_scope_from_commit_message("fix(コア-1 x_y): 修正"),
        Some("コア-1 x_y".to_string())
    );
}

/// Naive test. A history with one change that has a scope and one file.
#[test]
fn test_get_scopes_x_files_simple() {
    let walk = history(
        &["init", "foo(foz): bar", "foo"], // commit msgs
        &["init", "one", "two"],           // files
    );

    let res = get_scopes_x_changes(&walk);

    let expected = index(vec![(CommitScope::new("foz".to_string()), mk_set(&["one"]))]);

    assert!(res.expect("There should be an index").same_as(&expected));
}

#[test]
fn test_get_scopes_x_files_multiple_files_multiple_scopes() {
    let walk = history(
        &[
            "init",
            "foo(foz): bar",
            "foo(foz): bar",
            "foo(baz): bar",
            "foo(baz): bar",
        ], // commit msgs
        &["init", "one", "two", "three", "two"], // files
    );

    let res = get_scopes_x_changes(&walk);

    let expected = index(vec![
        (CommitScope::new("foz".to_string()), mk_set(&["one", "two"])),
        (
            CommitScope::new("baz".to_string()),
            mk_set(&["three", "two"]),
        ),
    ]);

    assert!(res.expect("There should be an index").same_as(&expected));
}

/// A commit that repeats the files of an earlier one adds nothing new.
#[test]
fn repeated_files_are_held_once() {
    let walk = vec![
        commit("foo(foz): bar", &["one", "two"]),
        commit("foo(foz): bar", &["one", "two"]),
        commit("foo(baz): bar", &["three"]),
        commit("foo(baz): bar", &["two"]),
    ];
    let res = get_scopes_x_changes(&walk).expect("There should be an index");
    let foz = res.get(&"foz".to_string()).expect("foz should be there");
    assert_eq!(foz.len(), 2);
    assert_eq!(*foz, mk_set(&["one", "two"]));
    let baz = res.get(&"baz".to_string()).expect("baz should be there");
    assert_eq!(*baz, mk_set(&["three", "two"]));
    assert_eq!(res.len(), 2);
}

#[test]
fn history_without_scopes_gives_no_index() {
    assert!(get_scopes_x_changes(&vec![]).is_none());
    let walk = history(&["init", "foo", "bar: baz"], &["a", "b", "c"]);
    assert!(get_scopes_x_changes(&walk).is_none());
}

/// What cannot be read is passed over, and the rest is still collected.
#[test]
fn unreadable_parts_of_the_history_are_skipped() {
    let walk = vec![
        None,
        Some(CommitInfo {
            summary: None,
            diffs: vec![Some(diff(&["lost"]))],
        }),
        Some(CommitInfo {
            summary: Some("fix(core): merge".to_string()),
            diffs: vec![None, Some(diff(&["a", "b"])), Some(diff(&["b", "c"]))],
        }),
        Some(CommitInfo {
            summary: Some("fix(empty): nothing readable".to_string()),
            diffs: vec![None],
        }),
    ];
    let res = get_scopes_x_changes(&walk).expect("There should be an index");
    assert_eq!(res.len(), 2);
    assert_eq!(
        *res.get(&"core".to_string()).unwrap(),
        mk_set(&["a", "b", "c"])
    );
    assert!(res.get(&"empty".to_string()).unwrap().is_empty());
    assert!(res.get(&"lost".to_string()).is_none());
}

/// The order of the walk does not change the index.
#[test]
fn index_does_not_depend_on_the_order_of_the_walk() {
    let msgs = ["a(x): 1", "b(y): 2", "c(x): 3", "d(z): 4"];
    let files = ["one", "two", "three", "four"];
    let forward = history(&msgs, &files);
    let mut backward = history(&msgs, &files);
    backward.reverse();
    let first = get_scopes_x_changes(&forward).unwrap();
    let second = get_scopes_x_changes(&backward).unwrap();
    assert!(first.same_as(&second));
    assert_eq!(*first.get(&"x".to_string()).unwrap(), mk_set(&["one", "three"]));
}

#[test]
fn paths_that_are_not_text_are_dropped() {
    let d = Diff {
        paths: vec![Some("a".to_string()), None, Some("b".to_string()), Some("a".to_string())],
    };
    assert_eq!(get_changed_files_from_diff(&d), mk_set(&["a", "b"]));
    assert!(get_changed_files_from_diff(&Diff { paths: vec![None] }).is_empty());
}

#[test]
fn commit_without_diffs_changed_nothing() {
    let c = CommitInfo {
        summary: Some("foo(bar): baz".to_string()),
        diffs: vec![],
    };
    assert!(get_changed_files_from_commit(&c).is_empty());
}

fn status(status: u32, path: &str) -> StatusEntry {
    StatusEntry {
        status,
        path: Some(path.to_string()),
    }
}

#[test]
fn staged_statuses_are_the_six_known_ones() {
    assert_eq!(INDEX_NEW, 1);
    assert_eq!(INDEX_MODIFIED, 2);
    assert_eq!(INDEX_DELETED, 4);
    assert_eq!(INDEX_RENAMED, 8);
    assert_eq!(INDEX_MODIFIED_WT_MODIFIED, 2 | 256);
    assert_eq!(INDEX_NEW_WT_MODIFIED, 1 | 256);
    for s in [1u32, 2, 4, 8, 257, 258] {
        assert!(status_is_staged(s));
    }
    for s in [0u32, 3, 16, 128, 256, 260, 264, 512] {
        assert!(!status_is_staged(s));
    }
}

#[test]
fn nothing_staged_gives_no_set() {
    assert_eq!(get_staged_files(&vec![]), None);
    // Edited but not staged => nothing returned
    assert_eq!(get_staged_files(&vec![status(256, "existingfile")]), None);
    assert_eq!(get_staged_files(&vec![status(128, "newfile")]), None);
    // Staged, but the path is not text
    let unreadable = StatusEntry {
        status: INDEX_NEW,
        path: None,
    };
    assert_eq!(get_staged_files(&vec![unreadable]), None);
}

#[test]
fn staged_files_are_collected() {
    // A new file is added and fully staged
    assert_eq!(
        get_staged_files(&vec![status(INDEX_NEW, "newfile")]),
        Some(mk_set(&["newfile"]))
    );
    // A new file is added and partially staged
    assert_eq!(
        get_staged_files(&vec![status(INDEX_NEW_WT_MODIFIED, "newfile")]),
        Some(mk_set(&["newfile"]))
    );
    // An existing file is edited and fully staged
    assert_eq!(
        get_staged_files(&vec![status(INDEX_MODIFIED, "existingfile")]),
        Some(mk_set(&["existingfile"]))
    );
    // An existing file is edited and partially staged
    assert_eq!(
        get_staged_files(&vec![status(INDEX_MODIFIED_WT_MODIFIED, "existingfile")]),
        Some(mk_set(&["existingfile"]))
    );
    let mixed = vec![
        status(INDEX_DELETED, "gone"),
        status(256, "edited"),
        status(INDEX_RENAMED, "moved"),
        StatusEntry {
            status: INDEX_NEW,
            path: None,
        },
        status(INDEX_DELETED, "gone"),
    ];
    assert_eq!(get_staged_files(&mixed), Some(mk_set(&["gone", "moved"])));
}
