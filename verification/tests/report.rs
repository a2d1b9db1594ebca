use kaiki::report::{render_html_report, write_ximgdiff_assets, ComparisonResult, FAVICON_FAILURE, FAVICON_SUCCESS};

fn v(items: &[&str]) -> Vec<String> {
    items.iter().map(|s| s.to_string()).collect()
}

fn sample_result() -> ComparisonResult {
    ComparisonResult {
        failed_items: v(&["a.png"]),
        new_items: v(&["b.png"]),
        deleted_items: vec![],
        passed_items: v(&["c.png"]),
        expected_items: v(&["a.png", "c.png"]),
        actual_items: v(&["a.png", "b.png", "c.png"]),
        diff_items: v(&["a.png", "c.png"]),
        actual_dir: "actual".into(),
        expected_dir: "expected".into(),
        diff_dir: "diff".into(),
    }
}

#[test]
fn test_has_failures() {
    let result = sample_result();
    assert!(result.has_failures());
    let empty = ComparisonResult { failed_items: vec![], ..sample_result() };
    assert!(!empty.has_failures());
}

#[test]
fn test_has_changes() {
    assert!(sample_result().has_changes());
    let result = ComparisonResult { failed_items: vec![], new_items: v(&["x.png"]), deleted_items: vec![], ..sample_result() };
    assert!(result.has_changes());
    let result = ComparisonResult { failed_items: vec![], new_items: vec![], deleted_items: v(&["y.png"]), ..sample_result() };
    assert!(result.has_changes());
    let result = ComparisonResult { failed_items: vec![], new_items: vec![], deleted_items: vec![], ..sample_result() };
    assert!(!result.has_changes());
}

#[test]
fn failures_imply_changes() {
    let only_failed = ComparisonResult { new_items: vec![], deleted_items: vec![], ..sample_result() };
    assert!(only_failed.has_failures());
    assert!(only_failed.has_changes());
}

#[test]
fn test_html_report_contains_data() {
    let json_data = r#"{"failedItems":["a.png"]}"#;
    let html = render_html_report(json_data, true, false).unwrap();
    assert!(html.contains(json_data));
    assert!(html.contains("reg-data"));
}

#[test]
fn test_html_report_favicon() {
    let html_fail = render_html_report("{}", true, false).unwrap();
    assert!(html_fail.contains(FAVICON_FAILURE));
    let html_ok = render_html_report("{}", false, false).unwrap();
    assert!(html_ok.contains(FAVICON_SUCCESS));
}

#[test]
fn test_html_report_includes_css_and_js() {
    let html = render_html_report("{}", false, false).unwrap();
    assert!(html.contains(".header"));
    assert!(html.contains(".slider-container"));
    assert!(html.contains("reg-data"));
    assert!(html.contains("tab-panel"));
}

#[test]
fn test_empty_comparison_result_report() {
    let json = r#"{"failedItems":[],"newItems":[]}"#;
    let html = render_html_report(json, false, false).unwrap();
    assert!(!html.is_empty());
    assert!(!html.contains(FAVICON_FAILURE));
}

#[test]
fn test_html_report_ximgdiff_enabled() {
    let html = render_html_report("{}", false, true).unwrap();
    assert!(html.contains("kaiki_diff_wasm.js"));
    assert!(html.contains("kaiki-wasm-ready"));
}

#[test]
fn test_html_report_ximgdiff_disabled() {
    let html = render_html_report("{}", false, false).unwrap();
    assert!(!html.contains("kaiki_diff_wasm.js"));
}

#[test]
fn html_report_is_one_document() {
    let html = render_html_report("{}", false, true).unwrap();
    assert!(html.starts_with("<!DOCTYPE html>"));
    assert!(html.ends_with("</html>\n"));
    assert_eq!(html.matches("<html").count(), 1);
}

#[test]
fn ximgdiff_assets_without_embedded_module() {
    assert!(write_ximgdiff_assets("/tmp/out").is_ok());
}
