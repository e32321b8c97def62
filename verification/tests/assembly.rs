use conventional_commit_helper::commit_scopes::assemble_scopes;
use conventional_commit_helper::commit_scopes::changed_files::ChangedFiles;
use conventional_commit_helper::commit_scopes::drop_ignored;
use conventional_commit_helper::commit_scopes::drop_ignored_from_index;
use conventional_commit_helper::commit_scopes::holds_scope_named;
use conventional_commit_helper::commit_scopes::index::ScopeIndex;
use conventional_commit_helper::commit_scopes::merge_with_history;
use conventional_commit_helper::commit_scopes::push_to_first;
use conventional_commit_helper::commit_scopes::scope::CommitScope;
use conventional_commit_helper::commit_scopes::try_get_commit_scopes_from_repo;
use conventional_commit_helper::commit_scopes::try_get_commit_scopes_from_repo_at_path;
use conventional_commit_helper::config::Config;
use conventional_commit_helper::config::GeneralConfig;
use conventional_commit_helper::config::GeneralScopeConfig;

fn scope(name: &str, description: &str) -> CommitScope {
    CommitScope {
        name: name.to_string(),
        description: description.to_string(),
    }
}

fn bare(name: &str) -> CommitScope {
    CommitScope::new(name.to_string())
}

fn files(paths: &[&str]) -> ChangedFiles {
    ChangedFiles::from_vec(paths.iter().map(|p| p.to_string()).collect())
}

fn index(entries: &[(&str, &[&str])]) -> ScopeIndex {
    let mut index = ScopeIndex::new();
    for (name, paths) in entries {
        index.insert_changes(bare(name), files(paths));
    }
    index
}

fn config_with(scopes: Option<Vec<CommitScope>>, ignored: Option<Vec<&str>>) -> Config {
    Config {
        commit_types: None,
        commit_scopes: scopes,
        general: Some(GeneralConfig {
            scopes: Some(GeneralScopeConfig {
                ignored: ignored.map(|names| names.iter().map(|n| n.to_string()).collect()),
                disable_history_search: None,
            }),
        }),
    }
}

#[test]
fn push_to_first_moves_the_scope_and_keeps_the_rest() {
    let list = vec![bare("a"), bare("b"), bare("c"), bare("d")];
    assert_eq!(
        push_to_first(list.clone(), bare("c")),
        vec![bare("c"), bare("a"), bare("b"), bare("d")]
    );
    assert_eq!(push_to_first(list.clone(), bare("a")), list);
    assert_eq!(push_to_first(list.clone(), bare("x")), list);
    assert_eq!(push_to_first(vec![], bare("x")), vec![]);
}

/// The entry of the list moves, with the description that the list has.
#[test]
fn push_to_first_goes_by_name() {
    let list = vec![scope("a", "first"), scope("b", "second")];
    assert_eq!(
        push_to_first(list, bare("b")),
        vec![scope("b", "second"), scope("a", "first")]
    );
}

#[test]
fn nothing_configured_and_no_history_gives_nothing() {
    assert_eq!(assemble_scopes(None, None, None), None);
    assert_eq!(assemble_scopes(None, None, Some(files(&["foo"]))), None);
}

/// The configured scopes alone stay in the order in which they were given.
#[test]
fn configured_scopes_alone_keep_their_order() {
    let configured = vec![scope("zeta", "last"), scope("alpha", "first")];
    assert_eq!(
        assemble_scopes(Some(configured.clone()), None, Some(files(&["foo"]))),
        Some(configured)
    );
}

#[test]
fn history_alone_is_sorted_by_name() {
    let history = index(&[("z_bar", &["one"]), ("baz", &["two"]), ("foo", &["three"])]);
    assert_eq!(
        assemble_scopes(None, Some(history), None),
        Some(vec![bare("baz"), bare("foo"), bare("z_bar")])
    );
}

/// The scope that matches the staged files comes first, though it is not
/// first by name.
#[test]
fn matched_scope_is_suggested_first() {
    let history = || index(&[("z_bar", &["one"]), ("baz", &["two"])]);
    assert_eq!(
        assemble_scopes(None, Some(history()), None),
        Some(vec![bare("baz"), bare("z_bar")])
    );
    assert_eq!(
        assemble_scopes(None, Some(history()), Some(files(&["one"]))),
        Some(vec![bare("z_bar"), bare("baz")])
    );
    assert_eq!(
        assemble_scopes(None, Some(history()), Some(files(&["other"]))),
        Some(vec![bare("baz"), bare("z_bar")])
    );
}

/// A scope from the history with a configured name is dropped: one line,
/// with the configured description.
#[test]
fn configured_scope_wins_over_history() {
    let history = index(&[("foz", &["one"])]);
    assert_eq!(
        assemble_scopes(Some(vec![scope("foz", "baz")]), Some(history), None),
        Some(vec![scope("foz", "baz")])
    );
}

#[test]
fn both_sources_are_merged_and_sorted() {
    let history = || index(&[("qux", &["one"]), ("alpha", &["two"]), ("foz", &["three"])]);
    let configured = || vec![scope("zed", "last"), scope("foz", "baz")];
    assert_eq!(
        merge_with_history(configured(), &history()),
        vec![bare("alpha"), scope("foz", "baz"), bare("qux"), scope("zed", "last")]
    );
    assert_eq!(
        assemble_scopes(Some(configured()), Some(history()), Some(files(&["one"]))),
        Some(vec![
            bare("qux"),
            bare("alpha"),
            scope("foz", "baz"),
            scope("zed", "last")
        ])
    );
    // The match on the history promotes the configured scope of that name.
    assert_eq!(
        assemble_scopes(Some(configured()), Some(history()), Some(files(&["three"]))),
        Some(vec![
            scope("foz", "baz"),
            bare("alpha"),
            bare("qux"),
            scope("zed", "last")
        ])
    );
}

/// A scope that is only configured is never promoted: the staged files are
/// held against the history alone.
#[test]
fn purely_configured_scope_is_not_promoted() {
    let history = index(&[("alpha", &["two"])]);
    assert_eq!(
        assemble_scopes(
            Some(vec![scope("zed", "last")]),
            Some(history),
            Some(files(&["zed"]))
        ),
        Some(vec![bare("alpha"), scope("zed", "last")])
    );
}

#[test]
fn empty_history_still_gives_a_list() {
    assert_eq!(
        assemble_scopes(None, Some(ScopeIndex::new()), None),
        Some(vec![])
    );
}

#[test]
fn ignored_scopes_are_left_out() {
    let config = config_with(
        Some(vec![scope("foo", "one"), scope("keep", "two"), scope("bar", "three")]),
        Some(vec!["foo", "bar", "qux"]),
    );
    assert_eq!(
        drop_ignored(config.commit_scopes.clone().unwrap(), &config),
        vec![scope("keep", "two")]
    );
    let history = index(&[("qux", &["one"]), ("alpha", &["two"])]);
    let kept = drop_ignored_from_index(history, &config);
    assert_eq!(kept.len(), 1);
    assert_eq!(*kept.get(&"alpha".to_string()).unwrap(), files(&["two"]));
    assert!(kept.get(&"qux".to_string()).is_none());
}

#[test]
fn scopes_for_a_repo_follow_the_configuration() {
    let history = || index(&[("qux", &["one"]), ("alpha", &["two"])]);
    let config = config_with(Some(vec![scope("foz", "baz")]), Some(vec!["qux"]));
    assert_eq!(
        try_get_commit_scopes_from_repo(
            Some(config.clone()),
            Some(history()),
            Some(files(&["one"]))
        ),
        Some(vec![bare("alpha"), scope("foz", "baz")])
    );
    assert_eq!(
        try_get_commit_scopes_from_repo(None, Some(history()), Some(files(&["one"]))),
        Some(vec![bare("qux"), bare("alpha")])
    );
    assert_eq!(try_get_commit_scopes_from_repo(None, None, None), None);
    assert_eq!(
        try_get_commit_scopes_from_repo(Some(Config::default()), None, None),
        None
    );
}

#[test]
fn history_search_can_be_switched_off() {
    let mut config = config_with(Some(vec![scope("foz", "baz")]), None);
    config.general = Some(GeneralConfig {
        scopes: Some(GeneralScopeConfig {
            ignored: None,
            disable_history_search: Some(true),
        }),
    });
    let history = index(&[("qux", &["one"])]);
    assert_eq!(
        try_get_commit_scopes_from_repo(Some(config), Some(history), Some(files(&["one"]))),
        Some(vec![scope("foz", "baz")])
    );
}

#[test]
fn get_from_repo() {
    let config = Config {
        commit_types: None,
        commit_scopes: Some(vec![scope("foz", "baz")]),
        general: None,
    };
    let res = try_get_commit_scopes_from_repo_at_path(Some(config))
        .expect("There should be something returned here");
    assert_eq!(res.len(), 1);
    assert_eq!(res.first().unwrap().name, "foz");
    assert_eq!(try_get_commit_scopes_from_repo_at_path(None), None);
    assert_eq!(
        try_get_commit_scopes_from_repo_at_path(Some(Config::default())),
        None
    );
}

/// A scope in both history and config shows once, with the description of
/// the config.
#[test]
fn check_merge() {
    let config = Config {
        commit_types: None,
        commit_scopes: Some(vec![scope("foz", "baz")]),
        general: None,
    };
    let history = index(&[("foz", &["default_file"])]);
    let res = try_get_commit_scopes_from_repo(Some(config), Some(history), None)
        .expect("There should be something returned here");
    assert_eq!(res.len(), 1);
    assert_eq!(res.first().unwrap().name, "foz");
    assert_eq!(res.first().unwrap().description, "baz");
}

#[test]
fn scopes_are_found_by_name() {
    let list = vec![scope("a", "x"), scope("b", "y")];
    assert!(holds_scope_named(&list, &"b".to_string()));
    assert!(!holds_scope_named(&list, &"y".to_string()));
    assert!(!holds_scope_named(&vec![], &"a".to_string()));
}
