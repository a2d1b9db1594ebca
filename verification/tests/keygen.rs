use kaiki::keygen::{other_branch_tips, select_base_commit, GitError, GitHashKeygen, KeyGenerator, SimpleKeygen};

#[test]
fn test_simple_keygen_expected_key() {
    let keygen = SimpleKeygen { expected_key: "abc123".to_string() };
    assert_eq!(keygen.get_expected_key().unwrap(), Some("abc123".to_string()));
}

#[test]
fn test_simple_keygen_actual_key() {
    let keygen = SimpleKeygen { expected_key: "abc123".to_string() };
    assert_eq!(keygen.get_actual_key().unwrap(), "abc123");
}

#[test]
fn test_simple_keygen_empty_expected() {
    let keygen = SimpleKeygen { expected_key: String::new() };
    assert_eq!(keygen.get_expected_key().unwrap(), None);
}

#[test]
fn test_simple_keygen_actual_key_empty() {
    let keygen = SimpleKeygen { expected_key: String::new() };
    assert_eq!(keygen.get_actual_key().unwrap(), "");
}

#[test]
fn test_new_valid_repo() {
    assert!(GitHashKeygen::new("/repo", true, true).is_ok());
}

#[test]
fn test_new_nonexistent_path() {
    let result = GitHashKeygen::new("/nonexistent/path/to/repo", false, false);
    assert!(result.is_err());
    let err = result.unwrap_err();
    assert!(matches!(err, GitError::RepoNotFound(_)));
}

#[test]
fn test_new_plain_directory() {
    let keygen = GitHashKeygen::new("/tmp/plain", false, true).unwrap();
    assert_eq!(keygen.repo_path(), "/tmp/plain");
}

#[test]
fn repo_not_found_names_the_path() {
    match GitHashKeygen::new("/nope", false, false) {
        Err(GitError::RepoNotFound(p)) => assert_eq!(p, "/nope"),
        other => panic!("unexpected: {other:?}"),
    }
}

fn s(v: &str) -> String {
    v.to_string()
}

#[test]
fn test_expected_key_feature_from_main() {
    // feature branch (HEAD first) forked from main at c1
    let walk = vec![s("f2"), s("f1"), s("c1"), s("c0")];
    let tips = other_branch_tips(
        &vec![(s("refs/heads/main"), s("c1")), (s("refs/heads/feature"), s("f2"))],
        Some(&s("refs/heads/feature")),
    );
    assert_eq!(tips, vec![s("c1")]);
    assert_eq!(select_base_commit(&walk, &tips), Some(s("c1")));
}

#[test]
fn test_expected_key_single_branch_none() {
    let walk = vec![s("c2"), s("c1"), s("c0")];
    let tips = other_branch_tips(&vec![(s("refs/heads/main"), s("c2"))], Some(&s("refs/heads/main")));
    assert!(tips.is_empty());
    assert_eq!(select_base_commit(&walk, &tips), None);
}

#[test]
fn test_expected_key_head_same_as_branch() {
    // another branch points at HEAD itself: HEAD is the base
    let walk = vec![s("c2"), s("c1")];
    let tips = other_branch_tips(
        &vec![(s("refs/heads/main"), s("c2")), (s("refs/heads/copy"), s("c2"))],
        Some(&s("refs/heads/main")),
    );
    assert_eq!(select_base_commit(&walk, &tips), Some(s("c2")));
}

#[test]
fn test_expected_key_multiple_branches_nearest() {
    let walk = vec![s("h"), s("b"), s("a"), s("root")];
    let tips = other_branch_tips(
        &vec![(s("refs/heads/old"), s("a")), (s("refs/heads/new"), s("b")), (s("refs/heads/me"), s("h"))],
        Some(&s("refs/heads/me")),
    );
    assert_eq!(select_base_commit(&walk, &tips), Some(s("b")));
}

#[test]
fn test_expected_key_detached_head() {
    // detached HEAD: no current branch, every branch counts
    let walk = vec![s("d"), s("c")];
    let tips = other_branch_tips(&vec![(s("refs/heads/main"), s("d"))], None);
    assert_eq!(select_base_commit(&walk, &tips), Some(s("d")));
}

#[test]
fn base_commit_search_stops_after_limit() {
    let mut walk: Vec<String> = (0..301).map(|i| format!("c{i}")).collect();
    walk.push(s("base"));
    let tips = vec![s("base"), s("c300")];
    assert_eq!(select_base_commit(&walk, &tips), None);
    let tips = vec![s("c299")];
    assert_eq!(select_base_commit(&walk, &tips), Some(s("c299")));
}
