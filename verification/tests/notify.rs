use kaiki::config::GitHubNotifyConfig;
use kaiki::notify::{
    build_comment_body, build_commit_status_payload, build_slack_payload, comment_needs_lookup, comment_target,
    commit_status_for, decide_comment_action, diff_image_url, find_marked_comment, github_repository, slack_color,
    github_next, CommentAction, GitHubAction, GitHubEvent, IssueComment, JsNotifyParams, NotifyError, NotifyParams, COMMENT_MARKER,
};
use kaiki::report::ComparisonResult;

fn v(items: &[&str]) -> Vec<String> {
    items.iter().map(|s| s.to_string()).collect()
}

fn comparison(failed: &[&str], new: &[&str], deleted: &[&str], passed: &[&str]) -> ComparisonResult {
    ComparisonResult {
        failed_items: v(failed),
        new_items: v(new),
        deleted_items: v(deleted),
        passed_items: v(passed),
        expected_items: vec![],
        actual_items: vec![],
        diff_items: vec![],
        actual_dir: "actual".into(),
        expected_dir: "expected".into(),
        diff_dir: "diff".into(),
    }
}

fn sample_params(report_url: Option<String>) -> NotifyParams {
    NotifyParams {
        comparison: comparison(&["a.png"], &["b.png"], &[], &["c.png"]),
        report_url,
        current_sha: "abc123".to_string(),
        pr_number: Some(42),
    }
}

#[test]
fn test_comment_marker() {
    assert!(COMMENT_MARKER.starts_with("<!--"));
    assert!(COMMENT_MARKER.ends_with("-->"));
}

#[test]
fn test_build_comment_body_format() {
    let body = build_comment_body(&sample_params(None));
    assert!(body.contains(COMMENT_MARKER));
    assert!(body.contains("## reg report"));
    assert!(body.contains("Changed | 1"));
    assert!(body.contains("New | 1"));
    assert!(body.contains("Deleted | 0"));
    assert!(body.contains("Passed | 1"));
}

#[test]
fn test_build_comment_body_with_report_url() {
    let body = build_comment_body(&sample_params(Some("https://example.com/report".to_string())));
    assert!(body.contains("[Report](https://example.com/report)"));
}

#[test]
fn comment_body_exact_text() {
    let body = build_comment_body(&sample_params(None));
    assert_eq!(
        body,
        "<!-- reg-suit kaiki -->\n## reg report\n\n| | Count |\n|---|---|\n| Changed | 1 |\n| New | 1 |\n| Deleted | 0 |\n| Passed | 1 |\n\n"
    );
}

#[test]
fn test_commit_status_payload_structure() {
    let payload = build_commit_status_payload("success", "all good", None);
    assert_eq!(payload.state, "success");
    assert_eq!(payload.description, "all good");
    assert_eq!(payload.context, "reg");
    assert!(payload.target_url.is_none());
}

#[test]
fn test_commit_status_payload_with_target_url() {
    let payload = build_commit_status_payload("failure", "changed: 1, new: 0, deleted: 0", Some("https://example.com/report"));
    assert_eq!(payload.state, "failure");
    assert_eq!(payload.target_url.as_deref(), Some("https://example.com/report"));
}

#[test]
fn test_commit_status_payload_without_target_url() {
    let payload = build_commit_status_payload("success", "no changes", None);
    assert!(payload.target_url.is_none());
}

#[test]
fn test_commit_status_failure_when_has_failures() {
    let params = sample_params(Some("https://example.com/report".to_string()));
    assert_eq!(commit_status_for(&params).state, "failure");
}

#[test]
fn test_commit_status_success_when_no_failures() {
    let params = NotifyParams {
        comparison: comparison(&[], &[], &[], &["c.png"]),
        report_url: None,
        current_sha: "abc123".to_string(),
        pr_number: None,
    };
    assert_eq!(commit_status_for(&params).state, "success");
}

#[test]
fn test_commit_status_description_format() {
    let status = commit_status_for(&sample_params(None));
    assert_eq!(status.description, "changed: 1, new: 1, deleted: 0");
}

#[test]
fn commit_status_links_report() {
    let status = commit_status_for(&sample_params(Some("https://r/index.html".into())));
    assert_eq!(status.target_url.as_deref(), Some("https://r/index.html"));
    assert_eq!(status.context, "reg");
}

#[test]
fn test_slack_color_failure() {
    assert_eq!(slack_color(&comparison(&["a.png"], &[], &[], &["c.png"])), "danger");
}

#[test]
fn test_slack_color_warning() {
    assert_eq!(slack_color(&comparison(&[], &["b.png"], &[], &["c.png"])), "warning");
}

#[test]
fn test_slack_color_success() {
    assert_eq!(slack_color(&comparison(&[], &[], &[], &["c.png"])), "good");
}

#[test]
fn test_diff_image_url_basic() {
    let url = diff_image_url("https://bucket.s3.amazonaws.com/key/index.html", "diff", "a.png");
    assert_eq!(url, "https://bucket.s3.amazonaws.com/key/diff/a.png");
}

#[test]
fn test_diff_image_url_with_prefix() {
    let url = diff_image_url("https://bucket.s3.amazonaws.com/prefix/key/index.html", "diff", "sub/b.png");
    assert_eq!(url, "https://bucket.s3.amazonaws.com/prefix/key/diff/sub/b.png");
}

#[test]
fn test_diff_image_url_no_index_html() {
    let url = diff_image_url("https://example.com/report/", "diff", "c.png");
    assert_eq!(url, "https://example.com/report/diff/c.png");
}

#[test]
fn test_slack_payload_has_image_url() {
    let comp = comparison(&["a.png"], &[], &[], &["c.png"]);
    let image_url = diff_image_url("https://bucket.s3.amazonaws.com/key/index.html", &comp.diff_dir, comp.failed_items.first().unwrap());
    assert_eq!(image_url, "https://bucket.s3.amazonaws.com/key/diff/a.png");
}

#[test]
fn test_slack_payload_no_image_url_when_no_failures() {
    let comp = comparison(&[], &[], &[], &["c.png"]);
    assert!(comp.failed_items.is_empty());
}

fn make_params(has_failures: bool, report_url: Option<&str>) -> NotifyParams {
    let comp = if has_failures { comparison(&["a.png"], &[], &[], &["c.png"]) } else { comparison(&[], &[], &[], &["c.png"]) };
    NotifyParams { comparison: comp, report_url: report_url.map(|s| s.to_string()), current_sha: "abc123".to_string(), pr_number: Some(42) }
}

#[test]
fn test_build_slack_payload_attachments_structure() {
    let payload = build_slack_payload(&make_params(true, Some("https://bucket.s3.amazonaws.com/key/index.html")));
    assert_eq!(payload.attachments.len(), 1);
    let attachment = &payload.attachments[0];
    assert_eq!(attachment.color, "danger");
    assert_eq!(attachment.title, "Visual Regression Report");
    assert!(!attachment.fields.is_empty());
}

#[test]
fn test_build_slack_payload_image_url_with_failures_and_report() {
    let payload = build_slack_payload(&make_params(true, Some("https://bucket.s3.amazonaws.com/key/index.html")));
    assert_eq!(payload.attachments[0].image_url.as_deref(), Some("https://bucket.s3.amazonaws.com/key/diff/a.png"));
}

#[test]
fn test_build_slack_payload_no_image_url_without_failures() {
    let payload = build_slack_payload(&make_params(false, Some("https://example.com/index.html")));
    assert!(payload.attachments[0].image_url.is_none());
}

#[test]
fn test_build_slack_payload_no_image_url_without_report() {
    let payload = build_slack_payload(&make_params(true, None));
    assert!(payload.attachments[0].image_url.is_none());
}

#[test]
fn test_build_slack_payload_result_field_always_present() {
    let payload = build_slack_payload(&make_params(false, None));
    let result_field = payload.attachments[0].fields.iter().find(|f| f.title == "Result");
    assert!(result_field.is_some());
    assert_eq!(result_field.unwrap().value, "Changed: 0, New: 0, Deleted: 0, Passed: 1");
}

#[test]
fn test_build_slack_payload_report_field_when_url_present() {
    let payload = build_slack_payload(&make_params(false, Some("https://example.com/index.html")));
    let report_field = payload.attachments[0].fields.iter().find(|f| f.title == "Report");
    assert!(report_field.is_some());
    assert_eq!(report_field.unwrap().value, "https://example.com/index.html");
}

#[test]
fn test_build_slack_payload_no_report_field_when_no_url() {
    let payload = build_slack_payload(&make_params(false, None));
    assert!(payload.attachments[0].fields.iter().all(|f| f.title != "Report"));
}

#[test]
fn marked_comment_is_found() {
    let comments = vec![
        IssueComment { id: 1, body: "hello".into() },
        IssueComment { id: 2, body: build_comment_body(&sample_params(None)) },
        IssueComment { id: 3, body: format!("again {COMMENT_MARKER}") },
    ];
    assert_eq!(find_marked_comment(&comments), Some(2));
    let first = vec![IssueComment { id: 1, body: "hello".into() }];
    assert_eq!(find_marked_comment(&first), None);
}

#[test]
fn comment_behaviours() {
    assert_eq!(decide_comment_action("once", None), CommentAction::Create);
    assert_eq!(decide_comment_action("once", Some(5)), CommentAction::Skip);
    assert_eq!(decide_comment_action("new", Some(5)), CommentAction::Create);
    assert_eq!(decide_comment_action("default", Some(5)), CommentAction::Update(5));
    assert_eq!(decide_comment_action("default", None), CommentAction::Create);
    assert!(!comment_needs_lookup("new"));
    assert!(comment_needs_lookup("once"));
    assert!(comment_needs_lookup("default"));
}

fn gh_config() -> GitHubNotifyConfig {
    GitHubNotifyConfig {
        client_id: None,
        owner: Some("o".into()),
        repository: Some("r".into()),
        pr_comment: true,
        pr_comment_behavior: "default".into(),
        set_commit_status: true,
    }
}

#[test]
fn comment_only_for_changed_pull_requests() {
    assert_eq!(comment_target(&gh_config(), &sample_params(None)), Some(42));
    let unchanged = NotifyParams { comparison: comparison(&[], &[], &[], &["c.png"]), ..sample_params(None) };
    assert_eq!(comment_target(&gh_config(), &unchanged), None);
    let no_pr = NotifyParams { pr_number: None, ..sample_params(None) };
    assert_eq!(comment_target(&gh_config(), &no_pr), None);
    let off = GitHubNotifyConfig { pr_comment: false, ..gh_config() };
    assert_eq!(comment_target(&off, &sample_params(None)), None);
}

#[test]
fn repository_must_be_configured() {
    assert_eq!(github_repository(&gh_config()).unwrap(), ("o".to_string(), "r".to_string()));
    let missing = GitHubNotifyConfig { repository: None, ..gh_config() };
    assert!(matches!(github_repository(&missing), Err(NotifyError::Config(m)) if m == "repository not configured"));
    let missing = GitHubNotifyConfig { owner: None, ..gh_config() };
    assert!(matches!(github_repository(&missing), Err(NotifyError::Config(m)) if m == "owner not configured"));
}

#[test]
fn js_notify_params_copy_the_run() {
    let js = JsNotifyParams::from_notify_params(&sample_params(Some("u".into())));
    assert_eq!(js.failed_items, v(&["a.png"]));
    assert_eq!(js.new_items, v(&["b.png"]));
    assert_eq!(js.passed_items, v(&["c.png"]));
    assert_eq!(js.report_url.as_deref(), Some("u"));
    assert_eq!(js.current_sha, "abc123");
    assert_eq!(js.pr_number, Some(42));
}

#[test]
fn diff_image_beside_published_report() {
    let report = kaiki::storage::s3_report_url("bkt", Some("pre"), "k1");
    assert_eq!(diff_image_url(&report, "diff", "a.png"), "https://bkt.s3.amazonaws.com/pre/k1/diff/a.png");
}

#[test]
fn github_calls_set_the_status_first_then_comment() {
    let params = sample_params(Some("https://r/index.html".into()));
    let config = gh_config();
    match github_next(&config, &params, GitHubEvent::Begin) {
        GitHubAction::SetStatus(sha, p) => {
            assert_eq!(sha, "abc123");
            assert_eq!(p.state, "failure");
            assert_eq!(p.context, "reg");
            assert_eq!(p.target_url.as_deref(), Some("https://r/index.html"));
        }
        other => panic!("unexpected action {:?}", other),
    }
    // A failed status call ends the notifier before any comment.
    assert!(matches!(github_next(&config, &params, GitHubEvent::StatusSet(false)), GitHubAction::Finish(false)));
    // The default behaviour looks for the marked comment first.
    assert!(matches!(github_next(&config, &params, GitHubEvent::StatusSet(true)), GitHubAction::ListComments(42)));
    let listed = vec![
        IssueComment { id: 1, body: "hello".into() },
        IssueComment { id: 9, body: format!("{COMMENT_MARKER}\nold report") },
    ];
    match github_next(&config, &params, GitHubEvent::CommentsListed(Some(listed))) {
        GitHubAction::UpdateComment(id, body) => {
            assert_eq!(id, 9);
            assert_eq!(body, build_comment_body(&params));
        }
        other => panic!("unexpected action {:?}", other),
    }
    // A failed listing counts as no earlier comment.
    assert!(matches!(github_next(&config, &params, GitHubEvent::CommentsListed(None)), GitHubAction::CreateComment(42, _)));
    assert!(matches!(github_next(&config, &params, GitHubEvent::CommentWritten(true)), GitHubAction::Finish(true)));
    let quiet = GitHubNotifyConfig { pr_comment: false, set_commit_status: false, ..gh_config() };
    assert!(matches!(github_next(&quiet, &params, GitHubEvent::Begin), GitHubAction::Finish(true)));
}
