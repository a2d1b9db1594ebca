use kaiki::pipeline::{
    build_comparison, categorize_images, detect_pr_number_from, is_image_file_extension, next_run_step, pipeline_result,
    pr_number_from_ref, RunAction, RunEvent, RunState,
};

fn v(items: &[&str]) -> Vec<String> {
    items.iter().map(|s| s.to_string()).collect()
}

#[test]
fn test_detect_from_reg_suit_env() {
    assert_eq!(detect_pr_number_from(Some("42"), None, None), Some(42));
}

#[test]
fn test_detect_from_github_ref() {
    assert_eq!(detect_pr_number_from(None, None, Some("refs/pull/123/merge")), Some(123));
}

#[test]
fn test_detect_from_github_event_path() {
    assert_eq!(detect_pr_number_from(None, Some(456), None), Some(456));
}

#[test]
fn test_detect_none_when_no_env() {
    assert_eq!(detect_pr_number_from(None, None, None), None);
}

#[test]
fn test_detect_invalid_pr_number_falls_through() {
    assert_eq!(detect_pr_number_from(Some("not_a_number"), None, Some("refs/pull/789/merge")), Some(789));
}

#[test]
fn pr_sources_in_priority_order() {
    assert_eq!(detect_pr_number_from(Some("1"), Some(2), Some("refs/pull/3/merge")), Some(1));
    assert_eq!(detect_pr_number_from(Some("x"), Some(2), Some("refs/pull/3/merge")), Some(2));
    assert_eq!(detect_pr_number_from(Some("+7"), None, None), Some(7));
    assert_eq!(pr_number_from_ref("refs/heads/main"), None);
    assert_eq!(pr_number_from_ref("refs/pull/abc/merge"), None);
    assert_eq!(pr_number_from_ref("refs/pull/18446744073709551616/merge"), None);
    assert_eq!(pr_number_from_ref("refs/pull/18446744073709551615/merge"), Some(u64::MAX));
}

#[test]
fn test_find_images_mixed_extensions() {
    assert!(is_image_file_extension("png"));
    assert!(is_image_file_extension("jpg"));
    assert!(is_image_file_extension("JPEG"));
    assert!(!is_image_file_extension("json"));
    assert!(!is_image_file_extension("txt"));
    assert!(!is_image_file_extension("html"));
}

#[test]
fn categories_follow_set_membership() {
    let actual = v(&["a.png", "b.png", "c.png"]);
    let expected = v(&["a.png", "c.png", "d.png"]);
    let (common, new_items, deleted) = categorize_images(&actual, &expected);
    assert_eq!(common, v(&["a.png", "c.png"]));
    assert_eq!(new_items, v(&["b.png"]));
    assert_eq!(deleted, v(&["d.png"]));
}

#[test]
fn empty_case_no_images() {
    let (common, new_items, deleted) = categorize_images(&vec![], &vec![]);
    assert!(common.is_empty() && new_items.is_empty() && deleted.is_empty());
}

#[test]
fn verdicts_split_into_passed_and_failed() {
    let results = vec![("a.png".to_string(), true), ("b.png".to_string(), false), ("c.png".to_string(), true)];
    let c = build_comparison(&results, v(&["n.png"]), v(&["d.png"]), v(&["a.png"]), v(&["a.png", "n.png"]));
    assert_eq!(c.diff_items, v(&["a.png", "b.png", "c.png"]));
    assert_eq!(c.passed_items, v(&["a.png", "c.png"]));
    assert_eq!(c.failed_items, v(&["b.png"]));
    assert_eq!(c.new_items, v(&["n.png"]));
    assert_eq!(c.deleted_items, v(&["d.png"]));
    assert_eq!((c.actual_dir.as_str(), c.expected_dir.as_str(), c.diff_dir.as_str()), ("actual", "expected", "diff"));
    let r = pipeline_result(c, Some("u".into()));
    assert!(r.has_failures);
    assert_eq!(r.report_url.as_deref(), Some("u"));
}

fn one_failure() -> kaiki::report::ComparisonResult {
    let results = vec![("a.png".to_string(), false)];
    build_comparison(&results, vec![], vec![], v(&["a.png"]), v(&["a.png"]))
}

#[test]
fn run_with_expected_key_syncs_publishes_and_notifies() {
    let (s, a) = next_run_step(RunState::Start, RunEvent::Begin);
    assert!(matches!(a, RunAction::ResolveExpectedKey));
    let (s, a) = next_run_step(s, RunEvent::ExpectedKey(Some("base".into())));
    assert!(matches!(a, RunAction::Sync(ref k) if k == "base"));
    let (s, a) = next_run_step(s, RunEvent::Synced);
    assert!(matches!(a, RunAction::Compare));
    let (s, a) = next_run_step(s, RunEvent::Compared(one_failure()));
    assert!(matches!(a, RunAction::ResolveActualKey));
    let (s, a) = next_run_step(s, RunEvent::ActualKey(Some("head".into())));
    assert!(matches!(a, RunAction::Publish(ref k) if k == "head"));
    let (s, a) = next_run_step(s, RunEvent::Published(Some("https://r/index.html".into())));
    assert!(matches!(a, RunAction::ResolveNoticeFacts));
    let (s, a) = next_run_step(s, RunEvent::NoticeFacts(Some("head".into()), Some(7)));
    match a {
        RunAction::Notify(p) => {
            assert_eq!(p.current_sha, "head");
            assert_eq!(p.pr_number, Some(7));
            assert_eq!(p.report_url.as_deref(), Some("https://r/index.html"));
            assert_eq!(p.comparison.failed_items, v(&["a.png"]));
        }
        other => panic!("unexpected action {:?}", other),
    }
    let (s, a) = next_run_step(s, RunEvent::Notified(1));
    assert!(matches!(s, RunState::Done));
    match a {
        RunAction::Finish(r) => {
            assert!(r.has_failures);
            assert_eq!(r.report_url.as_deref(), Some("https://r/index.html"));
        }
        other => panic!("unexpected action {:?}", other),
    }
}

#[test]
fn run_without_keys_skips_sync_and_publication() {
    let (s, _) = next_run_step(RunState::Start, RunEvent::Begin);
    let (s, a) = next_run_step(s, RunEvent::ExpectedKey(None));
    assert!(matches!(a, RunAction::Compare));
    let (s, _) = next_run_step(s, RunEvent::Compared(one_failure()));
    let (s, a) = next_run_step(s, RunEvent::ActualKey(None));
    assert!(matches!(a, RunAction::ResolveNoticeFacts));
    let (_, a) = next_run_step(s, RunEvent::NoticeFacts(None, None));
    match a {
        RunAction::Notify(p) => {
            assert_eq!(p.current_sha, "");
            assert_eq!(p.report_url, None);
            assert_eq!(p.pr_number, None);
        }
        other => panic!("unexpected action {:?}", other),
    }
}

#[test]
fn run_step_refuses_an_event_out_of_turn() {
    let (s, a) = next_run_step(RunState::Start, RunEvent::Synced);
    assert!(matches!(s, RunState::Done));
    assert!(matches!(a, RunAction::Unexpected));
}
