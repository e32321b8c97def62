use conventional_commit_helper::commit_scopes::changed_files::ChangedFiles;
use conventional_commit_helper::commit_scopes::index::ScopeIndex;
use conventional_commit_helper::commit_scopes::scope::CommitScope;
use conventional_commit_helper::commit_types::default_commit_type_refs;
use conventional_commit_helper::commit_types::get_commit_types_from_repo_or_default;
use conventional_commit_helper::commit_types::get_default_commit_types;
use conventional_commit_helper::commit_types::CommitType;
use conventional_commit_helper::commit_types::CommitTypeRef;
use conventional_commit_helper::config::holds_name;
use conventional_commit_helper::config::Config;
use conventional_commit_helper::test_utils::mk_config_full;
use conventional_commit_helper::test_utils::mk_config_with_scopes_only;
use conventional_commit_helper::test_utils::mk_config_with_types_only;
use conventional_commit_helper::text::chars_of;
use conventional_commit_helper::text::str_eq;
use conventional_commit_helper::text::str_lt;
use conventional_commit_helper::utils::holds_entity;
use conventional_commit_helper::utils::listed_before;
use conventional_commit_helper::utils::same_entity;
use conventional_commit_helper::utils::sort_entities;
use conventional_commit_helper::utils::unique_entities;
use conventional_commit_helper::utils::validate_repo;
use conventional_commit_helper::utils::PrintableEntity;
use conventional_commit_helper::utils::RepoError;

fn scope(name: &str, description: &str) -> CommitScope {
    CommitScope {
        name: name.to_string(),
        description: description.to_string(),
    }
}

fn files(paths: &[&str]) -> ChangedFiles {
    ChangedFiles::from_vec(paths.iter().map(|p| p.to_string()).collect())
}

#[test]
fn strings_are_ordered_as_std_orders_them() {
    let words = [
        "", "a", "ab", "abc", "b", "B", "needle", "z_needle", "other_needle", "é", "e", "zz",
        "日本", "日", "a b", "a-b", "10", "9",
    ];
    for a in words {
        for b in words {
            assert_eq!(str_lt(a, b), a < b);
            assert_eq!(str_eq(a, b), a == b);
        }
    }
}

#[test]
fn default_run_lists_the_default_types() {
    let types = get_default_commit_types();
    let names: Vec<&str> = types.iter().map(|t| t.name()).collect();
    assert_eq!(
        names,
        vec!["feat", "fix", "docs", "style", "refactor", "perf", "test", "build", "ci", "chore"]
    );
    assert_eq!(types[0].description(), "A new feature");
    assert_eq!(types[1].description(), "A bug fix");
    assert_eq!(
        types[9].description(),
        "Other changes that don't modify src or test files"
    );
    let refs = default_commit_type_refs();
    assert_eq!(refs.len(), 10);
    for (r, t) in refs.iter().zip(types.iter()) {
        assert_eq!(r.to_commit_type(), *t);
    }
}

#[test]
fn empty_repo_check_default_returned() {
    assert_eq!(
        get_commit_types_from_repo_or_default(None),
        get_default_commit_types()
    );
    assert_eq!(
        get_commit_types_from_repo_or_default(Some(Config::default())),
        get_default_commit_types()
    );
}

#[test]
fn empty_repo_with_custom_commit_type() {
    let config = Config {
        commit_types: Some(vec![CommitType {
            name: "foo".to_string(),
            description: "bar".to_string(),
        }]),
        commit_scopes: None,
        general: None,
    };
    let res = get_commit_types_from_repo_or_default(Some(config));

    assert_eq!(res.len(), 1);
    assert_eq!(res.first().unwrap().name, "foo");
}

#[test]
fn borrowed_commit_type_becomes_an_owned_one() {
    let r = CommitTypeRef {
        name: "foo",
        description: "bar",
    };
    let t = r.to_commit_type();
    assert_eq!(t.name, "foo");
    assert_eq!(t.description, "bar");
    assert_eq!(t.clone(), t);
}

#[test]
fn entities_show_their_texts() {
    let s = scope("foz", "baz");
    assert_eq!(s.name(), "foz");
    assert_eq!(s.description(), "baz");
    let fresh = CommitScope::new("qux".to_string());
    assert_eq!(fresh.name(), "qux");
    assert_eq!(fresh.description(), "");
    assert_eq!(s.clone(), s);
}

#[test]
fn entities_are_listed_by_name_then_description() {
    assert!(listed_before(&scope("a", "z"), &scope("b", "a")));
    assert!(listed_before(&scope("a", "a"), &scope("a", "b")));
    assert!(!listed_before(&scope("a", "a"), &scope("a", "a")));
    assert!(!listed_before(&scope("b", "a"), &scope("a", "z")));
    assert!(same_entity(&scope("a", "b"), &scope("a", "b")));
    assert!(!same_entity(&scope("a", "b"), &scope("a", "c")));
    assert!(!same_entity(&scope("a", "b"), &scope("b", "b")));
    let list = vec![scope("a", "b")];
    assert!(holds_entity(&list, &scope("a", "b")));
    assert!(!holds_entity(&list, &scope("a", "")));
}

#[test]
fn sorting_agrees_with_the_derived_order() {
    let list = vec![
        scope("foz", "b"),
        scope("z_bar", ""),
        scope("baz", "x"),
        scope("foz", "a"),
        scope("", "y"),
        scope("baz", "x"),
        scope("Baz", ""),
    ];
    let mut expected = list.clone();
    expected.sort();
    assert_eq!(sort_entities(list), expected);
    assert_eq!(sort_entities(Vec::<CommitScope>::new()), vec![]);
}

#[test]
fn unique_keeps_first_occurrences_in_order() {
    let list = vec![
        scope("b", "1"),
        scope("a", "1"),
        scope("b", "1"),
        scope("b", "2"),
        scope("a", "1"),
        scope("c", ""),
    ];
    assert_eq!(
        unique_entities(list),
        vec![scope("b", "1"), scope("a", "1"), scope("b", "2"), scope("c", "")]
    );
}

#[test]
fn bare_repositories_are_refused() {
    assert_eq!(validate_repo(false), Ok(()));
    assert_eq!(validate_repo(true), Err(RepoError::Bare));
    assert_eq!(
        RepoError::Bare.message(),
        "Bare repositories are not supported"
    );
}

#[test]
fn names_are_looked_up_in_lists() {
    let names = vec!["foo".to_string(), "bar".to_string()];
    assert!(holds_name(&names, &"bar".to_string()));
    assert!(!holds_name(&names, &"baz".to_string()));
}

#[test]
fn changed_files_are_a_set() {
    let mut set = ChangedFiles::new();
    assert!(set.is_empty());
    assert!(set.insert("foo".to_string()));
    assert!(!set.insert("foo".to_string()));
    assert!(set.insert("bar".to_string()));
    assert_eq!(set.len(), 2);
    assert!(set.contains(&"foo".to_string()));
    assert!(!set.contains(&"baz".to_string()));
    assert_eq!(set, files(&["bar", "foo", "bar"]));
    assert_ne!(set, files(&["bar"]));
    assert!(files(&["bar"]).within(&set));
    assert!(!set.within(&files(&["bar"])));
    assert_eq!(set.to_vec(), vec!["foo".to_string(), "bar".to_string()]);
    assert_eq!(set.clone(), set);
}

/// The union holds each file once, however often it came in.
#[test]
fn union_is_no_sum() {
    let mut set = files(&["one", "two"]);
    set.extend(files(&["two", "three"]));
    set.extend(files(&["one", "two"]));
    assert_eq!(set.len(), 3);
    assert_eq!(set, files(&["one", "two", "three"]));
    assert_eq!(set.overlap(&files(&["two", "three", "four"])), 2);
    assert_eq!(files(&["two", "three", "four"]).overlap(&set), 2);
    assert_eq!(set.overlap(&ChangedFiles::new()), 0);
}

#[test]
fn index_unions_on_insert() {
    let mut index = ScopeIndex::new();
    assert!(index.is_empty());
    index.insert_changes(scope("foz", "first"), files(&["one"]));
    index.insert_changes(scope("baz", ""), files(&["three"]));
    index.insert_changes(scope("foz", "second"), files(&["two", "one"]));
    assert_eq!(index.len(), 2);
    assert!(!index.is_empty());
    assert_eq!(*index.get(&"foz".to_string()).unwrap(), files(&["one", "two"]));
    assert_eq!(*index.get(&"baz".to_string()).unwrap(), files(&["three"]));
    assert!(index.get(&"qux".to_string()).is_none());
    // The first description of a name stays
    assert_eq!(index.scopes(), vec![scope("foz", "first"), scope("baz", "")]);
    assert_eq!(index.position(&"baz".to_string()), Some(1));
    assert_eq!(index.position(&"qux".to_string()), None);
    assert_eq!(*index.scope_at(1), scope("baz", ""));
    assert_eq!(*index.files_at(0), files(&["one", "two"]));
    let copy = index.clone();
    assert!(copy.same_as(&index));
    let mut other = ScopeIndex::new();
    other.insert_changes(scope("baz", ""), files(&["three"]));
    assert!(!other.same_as(&index));
    other.insert_changes(scope("foz", "first"), files(&["two", "one"]));
    assert!(other.same_as(&index));
    other.insert_changes(scope("foz", "first"), files(&["four"]));
    assert!(!other.same_as(&index));
}

#[test]
fn sample_configurations_have_the_expected_text() {
    let types = mk_config_with_types_only();
    let scopes = mk_config_with_scopes_only();
    let lines = |text: &str| -> Vec<String> {
        text.lines()
            .map(|l| l.trim().to_string())
            .filter(|l| !l.is_empty())
            .collect()
    };
    assert_eq!(lines(&types), vec!["[types]", "foo = \"bar\""]);
    assert_eq!(lines(&scopes), vec!["[scopes]", "foz = \"baz\""]);
    assert_eq!(mk_config_full(), format!("{}{}", types, scopes));
}

#[test]
fn chars_of_a_string_are_its_code_points() {
    assert_eq!(chars_of(""), Vec::<char>::new());
    assert_eq!(chars_of("aé日"), vec!['a', 'é', '日']);
}
