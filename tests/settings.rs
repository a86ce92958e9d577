use rource::config::{temp_location, ConfigError, MergeSortConfig};
use rource::validation::{discover_repositories, resolve_alias, validate_aliases, AliasError, EntryAction};

fn strings(v: &[&str]) -> Vec<String> {
    v.iter().map(|s| s.to_string()).collect()
}

#[test]
fn budget_defaults_and_floor() {
    let c = MergeSortConfig::new(None, "/tmp/sort-here".to_string(), true).unwrap();
    assert_eq!(c.chunk_size, 4096);
    assert_eq!(c.tmp_location, "/tmp/sort-here");
    assert_eq!(c.budget_bytes(), 4096 * 1024 * 1024);
    assert_eq!(
        MergeSortConfig::new(Some(63), "./t/".to_string(), true).unwrap_err(),
        ConfigError::ChunkSizeTooSmall
    );
    assert_eq!(MergeSortConfig::new(Some(64), "x".to_string(), true).unwrap().chunk_size, 64);
    let huge = MergeSortConfig::new(Some(u64::MAX), "x".to_string(), true).unwrap();
    assert_eq!(huge.budget_bytes(), u64::MAX);
}

#[test]
fn location_without_parent_is_refused() {
    assert_eq!(MergeSortConfig::new(None, "/".to_string(), true).unwrap_err(), ConfigError::NoParent);
    assert_eq!(MergeSortConfig::new(None, "".to_string(), true).unwrap_err(), ConfigError::NoParent);
    assert_eq!(MergeSortConfig::new(Some(1), "///".to_string(), true).unwrap_err(), ConfigError::NoParent);
}

#[test]
fn missing_parent_is_refused_before_the_budget() {
    assert_eq!(
        MergeSortConfig::new(Some(1), "/nope/here".to_string(), false).unwrap_err(),
        ConfigError::ParentMissing
    );
    assert_eq!(
        MergeSortConfig::new(None, "/nope/here".to_string(), false).unwrap_err(),
        ConfigError::ParentMissing
    );
}

#[test]
fn default_temp_location_is_fresh_and_random() {
    let location = temp_location(None);
    assert!(location.starts_with("./rource-temp-"));
    assert!(location.ends_with('/'));
    let suffix = &location["./rource-temp-".len()..location.len() - 1];
    assert_eq!(suffix.len(), 5);
    assert!(suffix.chars().all(|ch| ch.is_ascii_alphanumeric()));
    assert_eq!(temp_location(Some("/var/tmp/x".to_string())), "/var/tmp/x");
}

#[test]
fn aliases_split_in_two() {
    let v = validate_aliases(&strings(&["Some#User::SomeUser", "a:::b"])).unwrap();
    assert_eq!(v[0], ("Some#User".to_string(), "SomeUser".to_string()));
    assert_eq!(v[1], ("a".to_string(), ":b".to_string()));
    assert!(validate_aliases(&Vec::new()).unwrap().is_empty());
}

#[test]
fn malformed_aliases_are_refused() {
    for bad in ["nosep", "a::b::c", "", ":", "x:y"] {
        assert_eq!(validate_aliases(&strings(&[bad])), Err(AliasError::InvalidFormat));
    }
    assert_eq!(validate_aliases(&strings(&["ok::fine", "bad"])), Err(AliasError::InvalidFormat));
}

#[test]
fn last_alias_wins() {
    let aliases = vec![
        ("bob".to_string(), "Robert".to_string()),
        ("amy".to_string(), "Amelia".to_string()),
        ("bob".to_string(), "Bobby".to_string()),
    ];
    assert_eq!(resolve_alias(&aliases, &"bob".to_string()), "Bobby");
    assert_eq!(resolve_alias(&aliases, &"amy".to_string()), "Amelia");
    assert_eq!(resolve_alias(&aliases, &"carl".to_string()), "carl");
}

#[test]
fn directory_entries_are_classified() {
    let entries = vec![
        (".git".to_string(), true),
        ("src".to_string(), true),
        ("README".to_string(), false),
        ("skipme".to_string(), true),
    ];
    let actions = discover_repositories(&entries, true, &Vec::new(), &strings(&["skipme"]));
    assert_eq!(
        actions,
        vec![EntryAction::Repository, EntryAction::Descend, EntryAction::Skip, EntryAction::Skip]
    );
    let flat = discover_repositories(&entries, false, &Vec::new(), &Vec::new());
    assert_eq!(flat, vec![EntryAction::Repository, EntryAction::Skip, EntryAction::Skip, EntryAction::Skip]);
    let only = discover_repositories(&entries, true, &strings(&["src"]), &Vec::new());
    assert_eq!(only, vec![EntryAction::Skip, EntryAction::Descend, EntryAction::Skip, EntryAction::Skip]);
}

#[test]
fn leading_tilde_is_expanded_to_a_home_directory() {
    let location = temp_location(Some("~/sorting".to_string()));
    assert!(!location.starts_with('~'));
    assert!(location.ends_with("/sorting"));
    assert_eq!(temp_location(Some("~someone/x".to_string())), "~someone/x");
    let c = MergeSortConfig::new(Some(64), location.clone(), true).unwrap();
    assert_eq!(c.tmp_location, location);
    assert_eq!(c.budget_bytes(), 64 * 1024 * 1024);
}
