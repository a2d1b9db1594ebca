use kaiki::config::{
    default_actual_dir, default_pr_comment, default_pr_comment_behavior, default_set_commit_status,
    default_working_dir, effective_concurrency, expand_env_vars, ConfigError, GitHubNotifyConfig,
};

fn env(pairs: &[(&str, &str)]) -> Vec<(String, String)> {
    pairs.iter().map(|(k, v)| (k.to_string(), v.to_string())).collect()
}

#[test]
fn test_expand_braced_var() {
    let e = env(&[("KAIKI_TEST_VAR", "hello")]);
    assert_eq!(expand_env_vars("${KAIKI_TEST_VAR}", &e).unwrap(), "hello");
}

#[test]
fn test_expand_unbraced_var() {
    let e = env(&[("KAIKI_TEST_VAR2", "world")]);
    assert_eq!(expand_env_vars("$KAIKI_TEST_VAR2", &e).unwrap(), "world");
}

#[test]
fn test_expand_escape() {
    assert_eq!(expand_env_vars("$$", &env(&[])).unwrap(), "$");
}

#[test]
fn test_no_expansion() {
    assert_eq!(expand_env_vars("no vars here", &env(&[])).unwrap(), "no vars here");
}

#[test]
fn test_missing_var() {
    let result = expand_env_vars("${KAIKI_NONEXISTENT_VAR_XYZ}", &env(&[]));
    assert!(result.is_err());
    assert!(matches!(result, Err(ConfigError::EnvVar(n)) if n == "KAIKI_NONEXISTENT_VAR_XYZ"));
}

#[test]
fn expansion_mixes_patterns() {
    let e = env(&[("A", "1"), ("B_2", "two"), ("A", "shadowed")]);
    assert_eq!(expand_env_vars("x=$A-${B_2}/$$A$", &e).unwrap(), "x=1-two/$A$");
    assert_eq!(expand_env_vars("${unclosed", &e).unwrap(), "${unclosed");
    assert_eq!(expand_env_vars("cost: $ 5", &e).unwrap(), "cost: $ 5");
}

#[test]
fn unbraced_name_stops_at_other_characters() {
    let e = env(&[("HOME", "/h")]);
    assert_eq!(expand_env_vars("$HOME/x.json", &e).unwrap(), "/h/x.json");
    assert!(matches!(expand_env_vars("$HOMEX", &e), Err(ConfigError::EnvVar(n)) if n == "HOMEX"));
}

#[test]
fn test_default_values() {
    assert_eq!(default_actual_dir(), "directory_contains_actual_images");
    assert_eq!(default_working_dir(), ".reg");
    assert!(default_pr_comment());
    assert_eq!(default_pr_comment_behavior(), "default");
    assert!(default_set_commit_status());
    let gh = GitHubNotifyConfig::default();
    assert!(gh.pr_comment);
    assert!(gh.set_commit_status);
    assert_eq!(gh.pr_comment_behavior, "default");
    assert!(gh.owner.is_none());
}

#[test]
fn test_effective_concurrency() {
    assert_eq!(effective_concurrency(None), 4);
    assert_eq!(effective_concurrency(Some(16)), 16);
}
