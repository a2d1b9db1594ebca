use kaiki::json::JsonValue;
use kaiki::release::{
    bump_version, detect_bump_from_commits, internal_dependencies, merge_changelog, parse_release_args,
    topological_sort, update_package_json, update_package_json_files, version_listed, BumpType, ReleaseCommand,
    CHANGELOG_HEADER, PACKAGE_JSON_FILES, WORKSPACE_CRATE_NAMES,
};

fn v(items: &[&str]) -> Vec<String> {
    items.iter().map(|s| s.to_string()).collect()
}

#[test]
fn bump_version_each_kind() {
    assert_eq!(bump_version("1.2.3", BumpType::Major), "2.0.0");
    assert_eq!(bump_version("1.2.3", BumpType::Minor), "1.3.0");
    assert_eq!(bump_version("1.2.3", BumpType::Patch), "1.2.4");
    assert_eq!(bump_version("0.9.9", BumpType::Patch), "0.9.10");
    assert_eq!(bump_version("0.9.9", BumpType::Minor), "0.10.0");
}

#[test]
fn bump_from_commit_messages() {
    assert_eq!(detect_bump_from_commits(&v(&["fix: a", "chore: b"])), BumpType::Patch);
    assert_eq!(detect_bump_from_commits(&v(&["fix: a", "feat: b"])), BumpType::Minor);
    assert_eq!(detect_bump_from_commits(&v(&["feat!: b"])), BumpType::Major);
    assert_eq!(detect_bump_from_commits(&v(&["fix(core)!: b", "feat: c"])), BumpType::Major);
    assert_eq!(detect_bump_from_commits(&v(&["fix: x\n\nBREAKING CHANGE: api"])), BumpType::Major);
    assert_eq!(detect_bump_from_commits(&v(&["fix: x BREAKING-CHANGE"])), BumpType::Major);
    assert_eq!(detect_bump_from_commits(&v(&["fix: wow!"])), BumpType::Patch);
    assert_eq!(detect_bump_from_commits(&v(&[])), BumpType::Patch);
}

#[test]
fn changelog_merge_positions() {
    assert_eq!(merge_changelog("", "## v1\n"), format!("{CHANGELOG_HEADER}## v1\n"));
    assert_eq!(
        merge_changelog("# Changelog\n\n## v1\nold\n", "## v2\nnew\n"),
        "# Changelog\n\n## v2\nnew\n\n## v1\nold\n"
    );
    assert_eq!(merge_changelog("# Changelog\n", "## v1\n"), "# Changelog\n\n## v1\n");
}

#[test]
fn publish_order_respects_dependencies() {
    let names = v(&["kaiki_core", "kaiki_config", "kaiki_diff", "kaiki_report"]);
    // core depends on config, diff and report; report depends on config.
    let deps = vec![vec![1, 2, 3], vec![], vec![], vec![1]];
    let order = topological_sort(&names, &deps).unwrap();
    let ordered: Vec<&str> = order.iter().map(|&i| names[i].as_str()).collect();
    assert_eq!(ordered, vec!["kaiki_config", "kaiki_diff", "kaiki_report", "kaiki_core"]);
}

#[test]
fn publish_order_refuses_cycles() {
    let names = v(&["a", "b", "c"]);
    let deps = vec![vec![1], vec![0], vec![]];
    assert!(topological_sort(&names, &deps).is_none());
}

#[test]
fn dependencies_by_name() {
    let names = v(&["a", "b", "c"]);
    let deps = internal_dependencies(&names, &vec![v(&["serde", "b"]), v(&[]), v(&["a", "b", "tokio"])]);
    assert_eq!(deps, vec![vec![1], vec![], vec![0, 1]]);
    let order = topological_sort(&names, &deps).unwrap();
    assert_eq!(order, vec![1, 0, 2]);
}

#[test]
fn release_arguments() {
    assert_eq!(parse_release_args(&v(&["update"])), ReleaseCommand::Update { dry_run: false });
    assert_eq!(parse_release_args(&v(&["update", "--dry-run"])), ReleaseCommand::Update { dry_run: true });
    assert_eq!(parse_release_args(&v(&["publish", "--dry-run"])), ReleaseCommand::Publish { dry_run: true });
    assert_eq!(parse_release_args(&v(&["changelog"])), ReleaseCommand::Changelog);
    assert_eq!(parse_release_args(&v(&[])), ReleaseCommand::Usage);
    assert_eq!(parse_release_args(&v(&["--help"])), ReleaseCommand::Usage);
    assert_eq!(parse_release_args(&v(&["--dry-run", "update"])), ReleaseCommand::Usage);
    assert_eq!(parse_release_args(&v(&["ship"])), ReleaseCommand::Unknown("ship".into()));
}

#[test]
fn published_versions_lookup() {
    let nums = vec![Some("0.1.0".to_string()), None, Some("0.2.0".to_string())];
    assert!(version_listed(&nums, "0.2.0"));
    assert!(!version_listed(&nums, "0.3.0"));
    assert_eq!(PACKAGE_JSON_FILES.len(), 3);
    assert_eq!(WORKSPACE_CRATE_NAMES.len(), 7);
}

fn obj(entries: Vec<(&str, JsonValue)>) -> JsonValue {
    JsonValue::Object(entries.into_iter().map(|(k, v)| (k.to_string(), v)).collect())
}

fn get<'a>(v: &'a JsonValue, key: &str) -> Option<&'a JsonValue> {
    match v {
        JsonValue::Object(e) => e.iter().find(|(k, _)| k == key).map(|(_, v)| v),
        _ => None,
    }
}

fn text(v: Option<&JsonValue>) -> Option<&str> {
    match v {
        Some(JsonValue::Str(s)) => Some(s.as_str()),
        _ => None,
    }
}

#[test]
fn package_manifest_update() {
    let pkg = obj(vec![
        ("name", JsonValue::Str("kaiki".into())),
        ("version", JsonValue::Str("0.1.0".into())),
        (
            "optionalDependencies",
            obj(vec![("kaiki-linux", JsonValue::Str("0.1.0".into())), ("kaiki-darwin", JsonValue::Str("0.1.0".into()))]),
        ),
    ]);
    let out = update_package_json(pkg, "0.2.0");
    assert_eq!(text(get(&out, "version")), Some("0.2.0"));
    assert_eq!(text(get(&out, "name")), Some("kaiki"));
    let deps = get(&out, "optionalDependencies").unwrap();
    assert_eq!(text(get(deps, "kaiki-linux")), Some("0.2.0"));
    assert_eq!(text(get(deps, "kaiki-darwin")), Some("0.2.0"));
}

#[test]
fn package_manifest_without_version_or_dependencies() {
    let out = update_package_json(obj(vec![("name", JsonValue::Str("x".into()))]), "1.0.0");
    assert_eq!(text(get(&out, "version")), Some("1.0.0"));
    assert!(get(&out, "optionalDependencies").is_none());
    let out = update_package_json(JsonValue::Null, "1.0.0");
    assert_eq!(text(get(&out, "version")), Some("1.0.0"));
}

#[test]
fn package_manifest_files_skip_missing() {
    let out = update_package_json_files(vec![None, Some(obj(vec![])), None], "3.0.0");
    assert_eq!(out.len(), 3);
    assert!(out[0].is_none() && out[2].is_none());
    assert_eq!(text(get(out[1].as_ref().unwrap(), "version")), Some("3.0.0"));
}

#[test]
fn bumped_versions_stay_versions() {
    let mut v = "0.0.9".to_string();
    for bump in [BumpType::Patch, BumpType::Minor, BumpType::Patch, BumpType::Major, BumpType::Minor] {
        v = bump_version(&v, bump);
    }
    assert_eq!(v, "1.1.0");
}

#[test]
fn publish_order_follows_last_dependency_then_name() {
    // m and z have no dependencies; b waits on m, a waits on z.
    let names = v(&["z", "a", "m", "b"]);
    let deps = vec![vec![], vec![0], vec![], vec![2]];
    let order = topological_sort(&names, &deps).unwrap();
    let ordered: Vec<&str> = order.iter().map(|&i| names[i].as_str()).collect();
    assert_eq!(ordered, vec!["m", "z", "b", "a"]);
}

#[test]
fn package_manifest_keys_keep_their_place() {
    let keys = |v: &JsonValue| match v {
        JsonValue::Object(e) => e.iter().map(|(k, _)| k.clone()).collect::<Vec<String>>(),
        _ => vec![],
    };
    let pkg = obj(vec![("name", JsonValue::Str("x".into())), ("version", JsonValue::Str("0.1.0".into())), ("main", JsonValue::Str("i.js".into()))]);
    let out = update_package_json(pkg, "0.2.0");
    assert_eq!(keys(&out), v(&["name", "version", "main"]));
    let out = update_package_json(obj(vec![("name", JsonValue::Str("x".into()))]), "1.0.0");
    assert_eq!(keys(&out), v(&["name", "version"]));
}
