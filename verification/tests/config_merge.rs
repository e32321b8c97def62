use conventional_commit_helper::config::Config;
use conventional_commit_helper::config::GeneralConfig;
use conventional_commit_helper::config::GeneralScopeConfig;
use conventional_commit_helper::utils::UserProvidedCommitScope;
use conventional_commit_helper::utils::UserProvidedCommitType;

#[test]
fn test_config_merge() {
    let repo_config = Config {
        commit_types: Some(vec![UserProvidedCommitType {
            name: "foo".to_string(),
            description: "bar".to_string(),
        }]),
        commit_scopes: Some(vec![UserProvidedCommitScope {
            name: "foz".to_string(),
            description: "baz".to_string(),
        }]),
        general: None,
    };

    let global_config = Config {
        commit_types: Some(vec![UserProvidedCommitType {
            name: "foo".to_string(),
            description: "bar".to_string(),
        }]),
        commit_scopes: Some(vec![UserProvidedCommitScope {
            name: "global".to_string(),
            description: "global".to_string(),
        }]),
        general: None,
    };

    let merged = repo_config.merge(global_config);

    let expected = Config {
        commit_types: Some(vec![UserProvidedCommitType {
            name: "foo".to_string(),
            description: "bar".to_string(),
        }]),
        commit_scopes: Some(vec![
            UserProvidedCommitScope {
                name: "foz".to_string(),
                description: "baz".to_string(),
            },
            UserProvidedCommitScope {
                name: "global".to_string(),
                description: "global".to_string(),
            },
        ]),
        general: None,
    };

    assert_eq!(merged, expected);
}

fn named(name: &str, description: &str) -> UserProvidedCommitScope {
    UserProvidedCommitScope {
        name: name.to_string(),
        description: description.to_string(),
    }
}

/// Without lists on either side the merged configuration has two empty
/// lists.
#[test]
fn merge_of_empty_configs_has_empty_lists() {
    let merged = Config::default().merge(Config::default());
    assert_eq!(merged.commit_types, Some(vec![]));
    assert_eq!(merged.commit_scopes, Some(vec![]));
    assert_eq!(merged.general, None);
}

/// The same name with another description is another entry and stays.
#[test]
fn merge_keeps_same_name_with_other_description() {
    let a = Config {
        commit_types: None,
        commit_scopes: Some(vec![named("foz", "baz"), named("foz", "baz")]),
        general: None,
    };
    let b = Config {
        commit_types: None,
        commit_scopes: Some(vec![named("foz", "other"), named("foz", "baz")]),
        general: None,
    };
    let merged = a.merge(b);
    assert_eq!(
        merged.commit_scopes,
        Some(vec![named("foz", "baz"), named("foz", "other")])
    );
}

/// The general settings of the first configuration win.
#[test]
fn merge_prefers_own_general_settings() {
    let own = GeneralConfig {
        scopes: Some(GeneralScopeConfig {
            ignored: Some(vec!["foo".to_string()]),
            disable_history_search: None,
        }),
    };
    let theirs = GeneralConfig { scopes: None };
    let a = Config {
        commit_types: None,
        commit_scopes: None,
        general: Some(own.clone()),
    };
    let b = Config {
        commit_types: None,
        commit_scopes: None,
        general: Some(theirs.clone()),
    };
    assert_eq!(a.clone().merge(b.clone()).general, Some(own));
    let none = Config::default();
    assert_eq!(none.merge(b).general, Some(theirs));
}

#[test]
fn config_knows_what_it_ignores() {
    let config = Config {
        commit_types: None,
        commit_scopes: None,
        general: Some(GeneralConfig {
            scopes: Some(GeneralScopeConfig {
                ignored: Some(vec!["foo".to_string(), "bar".to_string()]),
                disable_history_search: Some(true),
            }),
        }),
    };
    assert!(config.ignores(&"foo".to_string()));
    assert!(config.ignores(&"bar".to_string()));
    assert!(!config.ignores(&"baz".to_string()));
    assert!(config.disables_history_search());
    assert!(!Config::default().ignores(&"foo".to_string()));
    assert!(!Config::default().disables_history_search());
}

#[test]
fn loading_merges_what_is_there() {
    let repo = Config {
        commit_types: None,
        commit_scopes: Some(vec![named("foz", "baz")]),
        general: None,
    };
    let global = Config {
        commit_types: None,
        commit_scopes: Some(vec![named("global", "global"), named("foz", "baz")]),
        general: None,
    };
    assert_eq!(Config::load(None, None), None);
    assert_eq!(Config::load(Some(repo.clone()), None), Some(repo.clone()));
    assert_eq!(Config::load(None, Some(global.clone())), Some(global.clone()));
    let both = Config::load(Some(repo), Some(global)).unwrap();
    assert_eq!(both.commit_types, Some(vec![]));
    assert_eq!(
        both.commit_scopes,
        Some(vec![named("foz", "baz"), named("global", "global")])
    );
}
