use kaiki::bindings::{fetch_args, publish_args, publish_result_of, JsComparisonResult, JsPipelineResult, JsPublishResult};
use kaiki::pipeline::PipelineResult;
use kaiki::report::ComparisonResult;

fn comparison() -> ComparisonResult {
    ComparisonResult {
        failed_items: vec!["a.png".into()],
        new_items: vec![],
        deleted_items: vec![],
        passed_items: vec!["b.png".into()],
        expected_items: vec![],
        actual_items: vec![],
        diff_items: vec!["a.png".into(), "b.png".into()],
        actual_dir: "actual".into(),
        expected_dir: "expected".into(),
        diff_dir: "diff".into(),
    }
}

#[test]
fn js_records_carry_the_run() {
    let js = JsComparisonResult::from_comparison(comparison());
    assert_eq!(js.failed_items, vec!["a.png".to_string()]);
    assert_eq!(js.diff_dir, "diff");
    let p = JsPipelineResult::from_pipeline(PipelineResult { comparison: comparison(), report_url: Some("u".into()), has_failures: true });
    assert!(p.has_failures);
    assert_eq!(p.report_url.as_deref(), Some("u"));
    assert_eq!(p.comparison.passed_items, vec!["b.png".to_string()]);
}

#[test]
fn js_callback_arguments() {
    let f = fetch_args("k", "/tmp/expected");
    assert_eq!((f.key.as_str(), f.dest_dir.as_str()), ("k", "/tmp/expected"));
    let p = publish_args("k", "/tmp/work");
    assert_eq!(p.source_dir, "/tmp/work");
    assert_eq!(publish_result_of(JsPublishResult { report_url: Some("r".into()) }).report_url.as_deref(), Some("r"));
}
