use git_branch_stash::config::parse_usize;
use git_branch_stash::config::RepoConfig;
use git_branch_stash::config::DEFAULT_CAPACITY;
use git_branch_stash::text::str_eq;
use git_branch_stash::text::str_le;

fn entry(key: &str, value: Option<&str>) -> (String, Option<String>) {
    (key.to_owned(), value.map(|v| v.to_owned()))
}

#[test]
fn update_accumulates_protected_branches() {
    let base = RepoConfig {
        protected_branches: Some(vec!["main".to_owned()]),
        capacity: Some(10),
    };
    let over = RepoConfig {
        protected_branches: Some(vec!["stable".to_owned()]),
        capacity: None,
    };
    let merged = base.update(over);
    assert_eq!(
        merged.protected_branches,
        Some(vec!["main".to_owned(), "stable".to_owned()])
    );
    assert_eq!(merged.capacity, Some(10));
}

#[test]
fn update_lets_the_later_capacity_win() {
    let base = RepoConfig { protected_branches: None, capacity: Some(10) };
    let over = RepoConfig {
        protected_branches: Some(vec!["dev".to_owned()]),
        capacity: Some(3),
    };
    let merged = base.update(over);
    assert_eq!(merged.protected_branches, Some(vec!["dev".to_owned()]));
    assert_eq!(merged.capacity, Some(3));
}

#[test]
fn capacity_defaults_and_zero_means_unbounded() {
    let unset = RepoConfig { protected_branches: None, capacity: None };
    assert_eq!(unset.capacity(), Some(DEFAULT_CAPACITY));
    assert_eq!(DEFAULT_CAPACITY, 30);
    let zero = RepoConfig { protected_branches: None, capacity: Some(0) };
    assert_eq!(zero.capacity(), None);
    let five = RepoConfig { protected_branches: None, capacity: Some(5) };
    assert_eq!(five.capacity(), Some(5));
}

#[test]
fn protected_branches_default_to_empty() {
    let unset = RepoConfig { protected_branches: None, capacity: None };
    assert!(unset.protected_branches().is_empty());
    let set = RepoConfig {
        protected_branches: Some(vec!["main".to_owned()]),
        capacity: None,
    };
    assert_eq!(set.protected_branches(), &["main".to_owned()]);
}

#[test]
fn parse_usize_accepts_plain_numbers() {
    assert_eq!(parse_usize("42"), Some(42));
    assert_eq!(parse_usize("+42"), Some(42));
    assert_eq!(parse_usize("007"), Some(7));
    assert_eq!(parse_usize("0"), Some(0));
}

#[test]
fn parse_usize_rejects_everything_else() {
    assert_eq!(parse_usize(""), None);
    assert_eq!(parse_usize("+"), None);
    assert_eq!(parse_usize("-3"), None);
    assert_eq!(parse_usize("4x2"), None);
    assert_eq!(parse_usize(" 42"), None);
    assert_eq!(parse_usize("99999999999999999999999999999"), None);
}

#[test]
fn env_entries_accumulate_protected_branches() {
    let config = RepoConfig::from_env_iter(vec![
        entry("stack.protected-branch", Some("main")),
        entry("user.name", Some("someone")),
        entry("stack.protected-branch", Some("release")),
    ]);
    assert_eq!(
        config.protected_branches,
        Some(vec!["main".to_owned(), "release".to_owned()])
    );
    assert_eq!(config.capacity, None);
}

#[test]
fn env_capacity_takes_the_last_value() {
    let config = RepoConfig::from_env_iter(vec![
        entry("branch-stash.capacity", Some("5")),
        entry("branch-stash.capacity", Some("9")),
    ]);
    assert_eq!(config.capacity, Some(9));
    let bad = RepoConfig::from_env_iter(vec![
        entry("branch-stash.capacity", Some("9")),
        entry("branch-stash.capacity", Some("many")),
    ]);
    assert_eq!(bad.capacity, None);
    let none = RepoConfig::from_env_iter(vec![entry("branch-stash.capacity", None)]);
    assert_eq!(none.capacity, None);
}

#[test]
fn defaults_put_the_default_branch_first() {
    let with = RepoConfig::from_defaults_internal(Some("trunk".to_owned()));
    assert_eq!(
        with.protected_branches,
        Some(vec![
            "trunk".to_owned(),
            "main".to_owned(),
            "master".to_owned(),
            "dev".to_owned(),
            "stable".to_owned(),
        ])
    );
    assert_eq!(with.capacity, Some(30));
    let without = RepoConfig::from_defaults_internal(None);
    assert_eq!(
        without.protected_branches,
        Some(vec![
            "main".to_owned(),
            "master".to_owned(),
            "dev".to_owned(),
            "stable".to_owned(),
        ])
    );
}

#[test]
fn string_comparisons_follow_code_points() {
    assert!(str_le("alpha", "beta"));
    assert!(!str_le("beta", "alpha"));
    assert!(str_le("abc", "abc"));
    assert!(str_le("ab", "abc"));
    assert!(str_eq("same", "same"));
    assert!(!str_eq("same", "different"));
}
