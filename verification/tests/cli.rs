use kaiki::cli::{
    build_config_json, ensure, plugin_plan, validate_config, BuildConfigParams, CliError, CoreSettings, KeygenChoice,
    PluginEntry, StorageChoice, UnitSetting,
};
use kaiki::json::JsonValue;

fn minimal_core() -> CoreSettings {
    CoreSettings { actual_dir: "actual".into(), working_dir: ".reg".into(), matching_threshold: None, threshold_rate: None, alpha: None }
}

fn plugin(name: &str, settings_error: Option<&str>) -> PluginEntry {
    PluginEntry { name: name.into(), settings_error: settings_error.map(|s| s.to_string()) }
}

fn message(r: Result<(), CliError>) -> String {
    match r {
        Err(CliError::Validation(m)) => m,
        other => panic!("expected a validation error, got {other:?}"),
    }
}

fn unit(value: f64) -> UnitSetting {
    UnitSetting { in_range: (0.0..=1.0).contains(&value), text: format!("{value}") }
}

#[test]
fn test_valid_minimal() {
    assert!(validate_config(&minimal_core(), &vec![]).is_ok());
}

#[test]
fn test_empty_actual_dir() {
    let core = CoreSettings { actual_dir: String::new(), ..minimal_core() };
    assert!(message(validate_config(&core, &vec![])).contains("actualDir"));
}

#[test]
fn test_empty_working_dir() {
    let core = CoreSettings { working_dir: String::new(), ..minimal_core() };
    assert!(message(validate_config(&core, &vec![])).contains("workingDir"));
}

#[test]
fn test_matching_threshold_out_of_range() {
    let core = CoreSettings { matching_threshold: Some(unit(1.5)), ..minimal_core() };
    let m = message(validate_config(&core, &vec![]));
    assert!(m.contains("matchingThreshold"));
    assert_eq!(m, "matchingThreshold must be between 0.0 and 1.0, got 1.5");
}

#[test]
fn test_threshold_rate_out_of_range() {
    let core = CoreSettings { threshold_rate: Some(unit(-0.1)), ..minimal_core() };
    assert!(message(validate_config(&core, &vec![])).contains("thresholdRate"));
}

#[test]
fn test_alpha_out_of_range() {
    let core = CoreSettings { alpha: Some(unit(2.0)), ..minimal_core() };
    assert!(message(validate_config(&core, &vec![])).contains("alpha"));
}

#[test]
fn test_valid_with_all_plugins() {
    let plugins = vec![
        plugin("reg-keygen-git-hash-plugin", None),
        plugin("reg-publish-s3-plugin", None),
        plugin("reg-notify-github-plugin", None),
        plugin("reg-notify-slack-plugin", None),
    ];
    assert!(validate_config(&minimal_core(), &plugins).is_ok());
}

#[test]
fn test_multiple_keygen_rejected() {
    let plugins = vec![plugin("reg-keygen-git-hash-plugin", None), plugin("reg-simple-keygen-plugin", None)];
    let m = message(validate_config(&minimal_core(), &plugins));
    assert!(m.contains("keygen"));
    assert_eq!(m, "at most one keygen plugin allowed, found 2");
}

#[test]
fn test_multiple_storage_rejected() {
    let plugins = vec![plugin("reg-publish-s3-plugin", None), plugin("reg-publish-gcs-plugin", None)];
    assert!(message(validate_config(&minimal_core(), &plugins)).contains("storage"));
}

#[test]
fn test_invalid_s3_config() {
    let plugins = vec![plugin("reg-publish-s3-plugin", Some("missing field `bucketName`"))];
    let m = message(validate_config(&minimal_core(), &plugins));
    assert!(m.contains("reg-publish-s3-plugin"));
    assert_eq!(m, "invalid reg-publish-s3-plugin config: missing field `bucketName`");
}

#[test]
fn test_invalid_slack_config() {
    let plugins = vec![plugin("reg-notify-slack-plugin", Some("missing field `webhookUrl`"))];
    assert!(message(validate_config(&minimal_core(), &plugins)).contains("reg-notify-slack-plugin"));
}

#[test]
fn test_unknown_plugin_allowed() {
    let plugins = vec![plugin("some-custom-plugin", Some("ignored"))];
    assert!(validate_config(&minimal_core(), &plugins).is_ok());
}

#[test]
fn ensure_reports_its_message() {
    assert!(ensure(true, "x".into()).is_ok());
    assert!(matches!(ensure(false, "bad".into()), Err(CliError::Validation(m)) if m == "bad"));
}

#[test]
fn plugin_selection() {
    let names = vec!["reg-simple-keygen-plugin".to_string(), "reg-publish-gcs-plugin".to_string(), "reg-notify-slack-plugin".to_string()];
    let plan = plugin_plan(&names, false);
    assert_eq!(plan.keygen, KeygenChoice::Simple);
    assert_eq!(plan.storage, Some(StorageChoice::Gcs));
    assert!(plan.slack && !plan.github);
    let plan = plugin_plan(&names, true);
    assert_eq!(plan.storage, None);
    assert!(!plan.slack);
    let plan = plugin_plan(&vec![], false);
    assert_eq!(plan.keygen, KeygenChoice::GitHash);
}

fn params() -> BuildConfigParams {
    BuildConfigParams {
        actual_dir: "actual".into(),
        working_dir: ".reg".into(),
        keygen_idx: 2,
        expected_key: None,
        storage_idx: 2,
        s3_bucket: None,
        s3_region: None,
        s3_path_prefix: None,
        s3_endpoint: None,
        s3_acl: None,
        gcs_bucket: None,
        gcs_path_prefix: None,
        notifier_idxs: vec![],
        slack_webhook: None,
    }
}

fn get<'a>(v: &'a JsonValue, key: &str) -> Option<&'a JsonValue> {
    match v {
        JsonValue::Object(e) => e.iter().find(|(k, _)| k == key).map(|(_, v)| v),
        _ => None,
    }
}

fn text(v: Option<&JsonValue>) -> Option<&str> {
    match v {
        Some(JsonValue::Str(s)) => Some(s.as_str()),
        _ => None,
    }
}

fn len(v: Option<&JsonValue>) -> usize {
    match v {
        Some(JsonValue::Object(e)) => e.len(),
        _ => usize::MAX,
    }
}

#[test]
fn test_build_minimal_config() {
    let config = build_config_json(params());
    let core = get(&config, "core").unwrap();
    assert_eq!(text(get(core, "actualDir")), Some("actual"));
    assert_eq!(text(get(core, "workingDir")), Some(".reg"));
    assert_eq!(len(get(&config, "plugins")), 0);
}

#[test]
fn test_build_git_keygen_s3_github() {
    let config = build_config_json(BuildConfigParams {
        actual_dir: "screenshots".into(),
        keygen_idx: 0,
        storage_idx: 0,
        s3_bucket: Some("my-bucket".into()),
        s3_region: Some("us-east-1".into()),
        notifier_idxs: vec![0],
        ..params()
    });
    let plugins = get(&config, "plugins").unwrap();
    assert!(get(plugins, "reg-keygen-git-hash-plugin").is_some());
    let s3 = get(plugins, "reg-publish-s3-plugin").unwrap();
    assert_eq!(text(get(s3, "bucketName")), Some("my-bucket"));
    assert_eq!(text(get(s3, "region")), Some("us-east-1"));
    assert!(get(s3, "pathPrefix").is_none());
    assert!(get(plugins, "reg-notify-github-plugin").is_some());
}

#[test]
fn test_build_simple_keygen_gcs_slack() {
    let config = build_config_json(BuildConfigParams {
        actual_dir: "imgs".into(),
        keygen_idx: 1,
        expected_key: Some("main".into()),
        storage_idx: 1,
        gcs_bucket: Some("gcs-bucket".into()),
        gcs_path_prefix: Some("prefix/".into()),
        notifier_idxs: vec![1],
        slack_webhook: Some("https://hooks.slack.com/test".into()),
        ..params()
    });
    let plugins = get(&config, "plugins").unwrap();
    assert_eq!(text(get(get(plugins, "reg-simple-keygen-plugin").unwrap(), "expectedKey")), Some("main"));
    let gcs = get(plugins, "reg-publish-gcs-plugin").unwrap();
    assert_eq!(text(get(gcs, "bucketName")), Some("gcs-bucket"));
    assert_eq!(text(get(gcs, "pathPrefix")), Some("prefix/"));
    assert_eq!(text(get(get(plugins, "reg-notify-slack-plugin").unwrap(), "webhookUrl")), Some("https://hooks.slack.com/test"));
}

#[test]
fn test_build_s3_all_optional_fields() {
    let config = build_config_json(BuildConfigParams {
        keygen_idx: 0,
        storage_idx: 0,
        s3_bucket: Some("bucket".into()),
        s3_region: Some("ap-northeast-1".into()),
        s3_path_prefix: Some("p/".into()),
        s3_endpoint: Some("http://localhost:9000".into()),
        s3_acl: Some("private".into()),
        notifier_idxs: vec![0, 1],
        slack_webhook: Some("https://hooks.slack.com/x".into()),
        ..params()
    });
    let plugins = get(&config, "plugins").unwrap();
    let s3 = get(plugins, "reg-publish-s3-plugin").unwrap();
    assert_eq!(text(get(s3, "bucketName")), Some("bucket"));
    assert_eq!(text(get(s3, "region")), Some("ap-northeast-1"));
    assert_eq!(text(get(s3, "pathPrefix")), Some("p/"));
    assert_eq!(text(get(s3, "endpoint")), Some("http://localhost:9000"));
    assert_eq!(text(get(s3, "acl")), Some("private"));
    assert!(get(plugins, "reg-notify-github-plugin").is_some());
    assert!(get(plugins, "reg-notify-slack-plugin").is_some());
}

#[test]
fn repeated_notifier_choice_written_once() {
    let config = build_config_json(BuildConfigParams { notifier_idxs: vec![0, 0], ..params() });
    assert_eq!(len(get(&config, "plugins")), 1);
}
