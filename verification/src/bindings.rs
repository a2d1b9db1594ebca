//! The records exchanged with JavaScript callers and callbacks.
use vstd::prelude::*;

use crate::pipeline::PipelineResult;
use crate::report::ComparisonResult;
use crate::storage::PublishResult;

verus! {

broadcast use vstd::string::group_string_axioms;

/// What a JavaScript `fetch` callback receives.
#[derive(Debug, Clone)]
pub struct JsFetchArgs {
    pub key: String,
    pub dest_dir: String,
}

/// What a JavaScript `publish` callback receives.
#[derive(Debug, Clone)]
pub struct JsPublishArgs {
    pub key: String,
    pub source_dir: String,
}

/// What a JavaScript `publish` callback gives back.
#[derive(Debug, Clone)]
pub struct JsPublishResult {
    pub report_url: Option<String>,
}

/// The comparison record as handed to JavaScript.
#[derive(Debug, Clone)]
pub struct JsComparisonResult {
    pub failed_items: Vec<String>,
    pub new_items: Vec<String>,
    pub deleted_items: Vec<String>,
    pub passed_items: Vec<String>,
    pub expected_items: Vec<String>,
    pub actual_items: Vec<String>,
    pub diff_items: Vec<String>,
    pub actual_dir: String,
    pub expected_dir: String,
    pub diff_dir: String,
}

/// A pipeline run's result as handed to JavaScript.
#[derive(Debug, Clone)]
pub struct JsPipelineResult {
    pub comparison: JsComparisonResult,
    pub report_url: Option<String>,
    pub has_failures: bool,
}

impl JsComparisonResult {
    /// The record with the same lists and directories.
    pub fn from_comparison(c: ComparisonResult) -> (r: Self)
        ensures
            r.failed_items == c.failed_items,
            r.new_items == c.new_items,
            r.deleted_items == c.deleted_items,
            r.passed_items == c.passed_items,
            r.expected_items == c.expected_items,
            r.actual_items == c.actual_items,
            r.diff_items == c.diff_items,
            r.actual_dir == c.actual_dir,
            r.expected_dir == c.expected_dir,
            r.diff_dir == c.diff_dir,
    {
        JsComparisonResult {
            failed_items: c.failed_items,
            new_items: c.new_items,
            deleted_items: c.deleted_items,
            passed_items: c.passed_items,
            expected_items: c.expected_items,
            actual_items: c.actual_items,
            diff_items: c.diff_items,
            actual_dir: c.actual_dir,
            expected_dir: c.expected_dir,
            diff_dir: c.diff_dir,
        }
    }
}

impl JsPipelineResult {
    /// The result with the same record, report URL and verdict.
    pub fn from_pipeline(p: PipelineResult) -> (r: Self)
        ensures
            r.comparison.failed_items == p.comparison.failed_items,
            r.comparison.new_items == p.comparison.new_items,
            r.comparison.deleted_items == p.comparison.deleted_items,
            r.comparison.passed_items == p.comparison.passed_items,
            r.comparison.expected_items == p.comparison.expected_items,
            r.comparison.actual_items == p.comparison.actual_items,
            r.comparison.diff_items == p.comparison.diff_items,
            r.comparison.actual_dir == p.comparison.actual_dir,
            r.comparison.expected_dir == p.comparison.expected_dir,
            r.comparison.diff_dir == p.comparison.diff_dir,
            r.report_url == p.report_url,
            r.has_failures == p.has_failures,
    {
        JsPipelineResult {
            comparison: JsComparisonResult::from_comparison(p.comparison),
            report_url: p.report_url,
            has_failures: p.has_failures,
        }
    }
}

/// The arguments of a `fetch` callback for `key` into `dest_dir`.
pub fn fetch_args(key: &str, dest_dir: &str) -> (r: JsFetchArgs)
    ensures
        r.key@ == key@,
        r.dest_dir@ == dest_dir@,
{
    JsFetchArgs { key: key.to_string(), dest_dir: dest_dir.to_string() }
}

/// The arguments of a `publish` callback for `key` from `source_dir`.
pub fn publish_args(key: &str, source_dir: &str) -> (r: JsPublishArgs)
    ensures
        r.key@ == key@,
        r.source_dir@ == source_dir@,
{
    JsPublishArgs { key: key.to_string(), source_dir: source_dir.to_string() }
}

/// A publish callback's answer as a publish result.
pub fn publish_result_of(js: JsPublishResult) -> (r: PublishResult)
    ensures
        r.report_url == js.report_url,
{
    PublishResult { report_url: js.report_url }
}

} // verus!
