//! The decisions of a comparison run: which images are compared, new or
//! deleted, how results are filed, and which pull request a run belongs to.
use vstd::prelude::*;

use crate::config::ConfigError;
use crate::image::DiffError;
use crate::keygen::GitError;
use crate::notify::{NotifyError, NotifyParams};
use crate::report::{failures_of, ComparisonResult, ReportError};
use crate::storage::StorageError;
use crate::text::{
    ascii_lower, chars_of, copy_strings, lemma_split_nonempty, owned, parse_u64, parse_u64_spec, split_chars,
    split_on, strings_view, to_ascii_lower,
};

verus! {

broadcast use vstd::string::group_string_axioms;

/// Errors of a pipeline run, by the stage that raised them.
#[derive(Debug)]
pub enum CoreError {
    Diff(DiffError),
    Config(ConfigError),
    Report(ReportError),
    Git(GitError),
    Storage(StorageError),
    Notify(NotifyError),
    Io(String),
}

/// What a pipeline run produced.
#[derive(Debug)]
pub struct PipelineResult {
    pub comparison: ComparisonResult,
    pub report_url: Option<String>,
    pub has_failures: bool,
}

/// The names of `xs` that are (`keep == true`) or are not in `ys`, in order.
pub open spec fn filter_by_membership(xs: Seq<Seq<char>>, ys: Seq<Seq<char>>, keep: bool) -> Seq<Seq<char>>
    decreases xs.len(),
{
    if xs.len() == 0 {
        Seq::empty()
    } else {
        let rest = filter_by_membership(xs.drop_last(), ys, keep);
        if ys.contains(xs.last()) == keep {
            rest.push(xs.last())
        } else {
            rest
        }
    }
}

fn contains_string(v: &Vec<String>, s: &String) -> (r: bool)
    ensures
        r == strings_view(v@).contains(s@),
{
    let mut i: usize = 0;
    while i < v.len()
        invariant
            i <= v@.len(),
            forall|j: int| 0 <= j < i ==> v@[j]@ != s@,
        decreases v@.len() - i,
    {
        if v[i] == *s {
            proof {
                assert(strings_view(v@)[i as int] == s@);
            }
            return true;
        }
        i = i + 1;
    }
    proof {
        if strings_view(v@).contains(s@) {
            let j = choose|j: int| 0 <= j < strings_view(v@).len() && strings_view(v@)[j] == s@;
            assert(v@[j]@ == s@);
        }
    }
    false
}

fn filter_membership(xs: &Vec<String>, ys: &Vec<String>, keep: bool) -> (r: Vec<String>)
    ensures
        strings_view(r@) == filter_by_membership(strings_view(xs@), strings_view(ys@), keep),
{
    let ghost xv = strings_view(xs@);
    let mut r: Vec<String> = Vec::new();
    let mut i: usize = 0;
    while i < xs.len()
        invariant
            i <= xs@.len(),
            xv == strings_view(xs@),
            strings_view(r@) == filter_by_membership(xv.subrange(0, i as int), strings_view(ys@), keep),
        decreases xs@.len() - i,
    {
        proof {
            assert(xv.subrange(0, i + 1).drop_last() =~= xv.subrange(0, i as int));
            assert(xv.subrange(0, i + 1).last() == xs@[i as int]@);
        }
        if contains_string(ys, &xs[i]) == keep {
            let item = xs[i].clone();
            let ghost before = r@;
            r.push(item);
            proof {
                assert(strings_view(r@) =~= strings_view(before).push(xs@[i as int]@));
            }
        }
        i = i + 1;
    }
    proof {
        assert(xv.subrange(0, xs@.len() as int) =~= xv);
    }
    r
}

/// The images found on both sides, only among the actual images, and only
/// among the expected images, each in the order of its source list.
pub fn categorize_images(actual: &Vec<String>, expected: &Vec<String>) -> (r: (Vec<String>, Vec<String>, Vec<String>))
    ensures
        strings_view(r.0@) == filter_by_membership(strings_view(actual@), strings_view(expected@), true),
        strings_view(r.1@) == filter_by_membership(strings_view(actual@), strings_view(expected@), false),
        strings_view(r.2@) == filter_by_membership(strings_view(expected@), strings_view(actual@), false),
{
    let common = filter_membership(actual, expected, true);
    let new_items = filter_membership(actual, expected, false);
    let deleted = filter_membership(expected, actual, false);
    (common, new_items, deleted)
}

/// The names of the results with the given verdict, in order.
pub open spec fn with_verdict(results: Seq<(Seq<char>, bool)>, passed: bool) -> Seq<Seq<char>>
    decreases results.len(),
{
    if results.len() == 0 {
        Seq::empty()
    } else {
        let rest = with_verdict(results.drop_last(), passed);
        if results.last().1 == passed {
            rest.push(results.last().0)
        } else {
            rest
        }
    }
}

/// The views of a list of named verdicts.
pub open spec fn verdicts_view(v: Seq<(String, bool)>) -> Seq<(Seq<char>, bool)> {
    v.map_values(|p: (String, bool)| (p.0@, p.1))
}

/// The run's record from the compared images' verdicts (name, passed) and
/// the image lists: every compared image is a diff item, and is passed or
/// failed by its verdict; directories are `actual`, `expected`, `diff`.
pub fn build_comparison(
    results: &Vec<(String, bool)>,
    new_items: Vec<String>,
    deleted_items: Vec<String>,
    expected_items: Vec<String>,
    actual_items: Vec<String>,
) -> (r: ComparisonResult)
    ensures
        strings_view(r.diff_items@) == verdict_names(verdicts_view(results@)),
        strings_view(r.passed_items@) == with_verdict(verdicts_view(results@), true),
        strings_view(r.failed_items@) == with_verdict(verdicts_view(results@), false),
        r.new_items@ == new_items@,
        r.deleted_items@ == deleted_items@,
        r.expected_items@ == expected_items@,
        r.actual_items@ == actual_items@,
        r.actual_dir@ == "actual"@,
        r.expected_dir@ == "expected"@,
        r.diff_dir@ == "diff"@,
{
    let ghost rv = verdicts_view(results@);
    let mut diff_items: Vec<String> = Vec::new();
    let mut passed_items: Vec<String> = Vec::new();
    let mut failed_items: Vec<String> = Vec::new();
    let mut i: usize = 0;
    while i < results.len()
        invariant
            i <= results@.len(),
            rv == verdicts_view(results@),
            strings_view(diff_items@) == rv.subrange(0, i as int).map_values(|p: (Seq<char>, bool)| p.0),
            strings_view(passed_items@) == with_verdict(rv.subrange(0, i as int), true),
            strings_view(failed_items@) == with_verdict(rv.subrange(0, i as int), false),
        decreases results@.len() - i,
    {
        proof {
            assert(rv.subrange(0, i + 1).drop_last() =~= rv.subrange(0, i as int));
            assert(rv.subrange(0, i + 1).last() == (results@[i as int].0@, results@[i as int].1));
            assert(rv.subrange(0, i + 1).map_values(|p: (Seq<char>, bool)| p.0) =~= rv.subrange(
                0,
                i as int,
            ).map_values(|p: (Seq<char>, bool)| p.0).push(results@[i as int].0@));
        }
        let name = results[i].0.clone();
        let ghost d0 = diff_items@;
        diff_items.push(results[i].0.clone());
        proof {
            assert(strings_view(diff_items@) =~= strings_view(d0).push(results@[i as int].0@));
        }
        if results[i].1 {
            let ghost p0 = passed_items@;
            passed_items.push(name);
            proof {
                assert(strings_view(passed_items@) =~= strings_view(p0).push(results@[i as int].0@));
            }
        } else {
            let ghost f0 = failed_items@;
            failed_items.push(name);
            proof {
                assert(strings_view(failed_items@) =~= strings_view(f0).push(results@[i as int].0@));
            }
        }
        i = i + 1;
    }
    proof {
        assert(rv.subrange(0, results@.len() as int) =~= rv);
    }
    ComparisonResult {
        failed_items,
        new_items,
        deleted_items,
        passed_items,
        expected_items,
        actual_items,
        diff_items,
        actual_dir: owned("actual"),
        expected_dir: owned("expected"),
        diff_dir: owned("diff"),
    }
}

/// What a run reports, given its record and the published report's URL.
pub fn pipeline_result(comparison: ComparisonResult, report_url: Option<String>) -> (r: PipelineResult)
    ensures
        r.comparison == comparison,
        r.report_url == report_url,
        r.has_failures == failures_of(comparison),
{
    let has_failures = comparison.has_failures();
    PipelineResult { comparison, report_url, has_failures }
}

// ----- image files -----

/// File extensions of the images that are compared (ASCII case ignored).
pub const IMAGE_EXTENSIONS: [&'static str; 6] = ["png", "jpg", "jpeg", "tiff", "bmp", "gif"];

/// Whether a file with extension `ext` is an image to compare.
pub open spec fn is_image_extension(ext: Seq<char>) -> bool {
    exists|i: int| 0 <= i < 6 && IMAGE_EXTENSIONS[i]@ == ext.map_values(|c: char| ascii_lower(c))
}

fn chars_equal(a: &Vec<char>, b: &Vec<char>) -> (r: bool)
    ensures
        r == (a@ == b@),
{
    if a.len() != b.len() {
        return false;
    }
    let mut i: usize = 0;
    while i < a.len()
        invariant
            a@.len() == b@.len(),
            i <= a@.len(),
            forall|j: int| 0 <= j < i ==> a@[j] == b@[j],
        decreases a@.len() - i,
    {
        if a[i] != b[i] {
            return false;
        }
        i = i + 1;
    }
    proof {
        assert(a@ =~= b@);
    }
    true
}

/// Whether a file with extension `ext` is an image to compare.
pub fn is_image_file_extension(ext: &str) -> (r: bool)
    ensures
        r == is_image_extension(ext@),
{
    let raw = chars_of(ext);
    let mut lowered: Vec<char> = Vec::new();
    let mut i: usize = 0;
    while i < raw.len()
        invariant
            raw@ == ext@,
            i <= raw@.len(),
            lowered@ == raw@.subrange(0, i as int).map_values(|c: char| ascii_lower(c)),
        decreases raw@.len() - i,
    {
        lowered.push(to_ascii_lower(raw[i]));
        proof {
            assert(raw@.subrange(0, i + 1).map_values(|c: char| ascii_lower(c)) =~= raw@.subrange(
                0,
                i as int,
            ).map_values(|c: char| ascii_lower(c)).push(ascii_lower(raw@[i as int])));
        }
        i = i + 1;
    }
    proof {
        assert(raw@.subrange(0, raw@.len() as int) =~= raw@);
    }
    let mut k: usize = 0;
    while k < 6
        invariant
            k <= 6,
            lowered@ == ext@.map_values(|c: char| ascii_lower(c)),
            forall|j: int| 0 <= j < k ==> IMAGE_EXTENSIONS[j]@ != lowered@,
        decreases 6 - k,
    {
        let candidate = chars_of(IMAGE_EXTENSIONS[k]);
        if chars_equal(&candidate, &lowered) {
            return true;
        }
        k = k + 1;
    }
    false
}

// ----- pull request of a run -----

/// The pull request named by a `GITHUB_REF` such as `refs/pull/123/merge`:
/// with at least three `/`-separated pieces and `pull` second, the third
/// piece as a number.
pub open spec fn pr_from_ref(r: Seq<char>) -> Option<u64> {
    let parts = split_on(r, '/');
    if parts.len() >= 3 && parts[1] == "pull"@ {
        parse_u64_spec(parts[2])
    } else {
        None
    }
}

fn chars_are(v: &Vec<char>, lit: &str) -> (r: bool)
    ensures
        r == (v@ == lit@),
{
    let w = chars_of(lit);
    chars_equal(v, &w)
}

/// The pull request named by a `GITHUB_REF` value (see `pr_from_ref`).
pub fn pr_number_from_ref(github_ref: &str) -> (r: Option<u64>)
    ensures
        r == pr_from_ref(github_ref@),
{
    let chars = chars_of(github_ref);
    let parts = split_chars(&chars, '/');
    proof {
        lemma_split_nonempty(github_ref@, '/');
    }
    if parts.len() >= 3 && chars_are(&parts[1], "pull") {
        proof {
            assert(parts@.map_values(|p: Vec<char>| p@)[2] == parts@[2]@);
        }
        parse_u64(parts[2].as_slice())
    } else {
        proof {
            if parts@.len() >= 3 {
                assert(parts@.map_values(|p: Vec<char>| p@)[1] == parts@[1]@);
            }
        }
        None
    }
}

/// The pull request of a run, from the first source that names one:
/// `REG_SUIT_PR_NUMBER` when it parses as a number, then the number found in
/// the GitHub event file, then `GITHUB_REF` (which decides even when its
/// number does not parse).
pub open spec fn pr_number_of(
    reg_suit_pr_number: Option<Seq<char>>,
    event_number: Option<u64>,
    github_ref: Option<Seq<char>>,
) -> Option<u64> {
    if reg_suit_pr_number matches Some(v) && parse_u64_spec(v) is Some {
        parse_u64_spec(reg_suit_pr_number->0)
    } else if event_number is Some {
        event_number
    } else {
        match github_ref {
            Some(r) => pr_from_ref(r),
            None => None,
        }
    }
}

/// The pull request of a run from the values of `REG_SUIT_PR_NUMBER`, the
/// event file's `pull_request.number` or `issue.number`, and `GITHUB_REF`
/// (see `pr_number_of`).
pub fn detect_pr_number_from(
    reg_suit_pr_number: Option<&str>,
    event_number: Option<u64>,
    github_ref: Option<&str>,
) -> (r: Option<u64>)
    ensures
        r == pr_number_of(
            match reg_suit_pr_number {
                Some(v) => Some(v@),
                None => None,
            },
            event_number,
            match github_ref {
                Some(g) => Some(g@),
                None => None,
            },
        ),
{
    match reg_suit_pr_number {
        Some(v) => {
            let chars = chars_of(v);
            let parsed = parse_u64(chars.as_slice());
            if parsed.is_some() {
                return parsed;
            }
        },
        None => {},
    }
    if event_number.is_some() {
        return event_number;
    }
    match github_ref {
        Some(g) => pr_number_from_ref(g),
        None => None,
    }
}


// ----- laws -----

proof fn lemma_filter_contains(xs: Seq<Seq<char>>, ys: Seq<Seq<char>>, keep: bool, x: Seq<char>)
    ensures
        filter_by_membership(xs, ys, keep).contains(x) <==> (xs.contains(x) && ys.contains(x) == keep),
    decreases xs.len(),
{
    if xs.len() > 0 {
        let init = xs.drop_last();
        lemma_filter_contains(init, ys, keep, x);
        let rest = filter_by_membership(init, ys, keep);
        if xs.contains(x) && !init.contains(x) {
            let j = choose|j: int| 0 <= j < xs.len() && xs[j] == x;
            if j < xs.len() - 1 {
                assert(init[j] == x);
            }
            assert(xs.last() == x);
        }
        if init.contains(x) {
            let j = choose|j: int| 0 <= j < init.len() && init[j] == x;
            assert(xs[j] == x);
        }
        if ys.contains(xs.last()) == keep {
            assert(rest.push(xs.last()).last() == xs.last());
            if rest.contains(x) {
                let j = choose|j: int| 0 <= j < rest.len() && rest[j] == x;
                assert(rest.push(xs.last())[j] == x);
            }
            if rest.push(xs.last()).contains(x) && !rest.contains(x) {
                let j = choose|j: int| 0 <= j < rest.len() + 1 && rest.push(xs.last())[j] == x;
                if j < rest.len() {
                    assert(rest[j] == x);
                }
            }
        }
    }
}

/// Every actual image is compared or new, never both; every expected image
/// is compared or deleted, never both.
pub proof fn lemma_categories_partition(actual: Seq<Seq<char>>, expected: Seq<Seq<char>>, x: Seq<char>)
    ensures
        actual.contains(x) ==> (filter_by_membership(actual, expected, true).contains(x) != filter_by_membership(
            actual,
            expected,
            false,
        ).contains(x)),
        expected.contains(x) ==> (filter_by_membership(actual, expected, true).contains(x) != filter_by_membership(
            expected,
            actual,
            false,
        ).contains(x)),
{
    lemma_filter_contains(actual, expected, true, x);
    lemma_filter_contains(actual, expected, false, x);
    lemma_filter_contains(expected, actual, false, x);
}

/// Every compared image is either passed or failed.
pub proof fn lemma_verdicts_partition(results: Seq<(Seq<char>, bool)>)
    ensures
        with_verdict(results, true).len() + with_verdict(results, false).len() == results.len(),
    decreases results.len(),
{
    if results.len() > 0 {
        lemma_verdicts_partition(results.drop_last());
    }
}


/// The names of the compared images.
pub open spec fn verdict_names(results: Seq<(Seq<char>, bool)>) -> Seq<Seq<char>> {
    results.map_values(|p: (Seq<char>, bool)| p.0)
}

/// An image is passed or failed exactly when it was compared.
proof fn lemma_verdict_contains(results: Seq<(Seq<char>, bool)>, x: Seq<char>)
    ensures
        (with_verdict(results, true).contains(x) || with_verdict(results, false).contains(x))
            <==> verdict_names(results).contains(x),
    decreases results.len(),
{
    if results.len() > 0 {
        let init = results.drop_last();
        let last = results.last();
        lemma_verdict_contains(init, x);
        assert(verdict_names(results) =~= verdict_names(init).push(last.0));
        assert(verdict_names(init).push(last.0).last() == last.0);
        if verdict_names(init).contains(x) {
            let j = choose|j: int| 0 <= j < verdict_names(init).len() && verdict_names(init)[j] == x;
            assert(verdict_names(init).push(last.0)[j] == x);
        }
        if verdict_names(results).contains(x) && !verdict_names(init).contains(x) {
            let j = choose|j: int| 0 <= j < verdict_names(results).len() && verdict_names(results)[j] == x;
            if j < init.len() {
                assert(verdict_names(init)[j] == x);
            }
            assert(x == last.0);
        }
        let wt = with_verdict(init, true);
        let wf = with_verdict(init, false);
        if wt.contains(x) {
            let j = choose|j: int| 0 <= j < wt.len() && wt[j] == x;
            assert(wt.push(last.0)[j] == x);
        }
        if wf.contains(x) {
            let j = choose|j: int| 0 <= j < wf.len() && wf[j] == x;
            assert(wf.push(last.0)[j] == x);
        }
        assert(wt.push(last.0)[wt.len() as int] == last.0);
        assert(wf.push(last.0)[wf.len() as int] == last.0);
        if last.1 {
            assert(with_verdict(results, true) == wt.push(last.0));
            assert(with_verdict(results, false) == wf);
            if wt.push(last.0).contains(x) && !wt.contains(x) {
                let j = choose|j: int| 0 <= j < wt.len() + 1 && wt.push(last.0)[j] == x;
                if j < wt.len() {
                    assert(wt[j] == x);
                }
            }
        } else {
            assert(with_verdict(results, false) == wf.push(last.0));
            assert(with_verdict(results, true) == wt);
            if wf.push(last.0).contains(x) && !wf.contains(x) {
                let j = choose|j: int| 0 <= j < wf.len() + 1 && wf.push(last.0)[j] == x;
                if j < wf.len() {
                    assert(wf[j] == x);
                }
            }
        }
    }
}

/// A name passed (or failed) comes from a result with that name and verdict.
proof fn lemma_verdict_origin(results: Seq<(Seq<char>, bool)>, passed: bool, x: Seq<char>)
    requires
        with_verdict(results, passed).contains(x),
    ensures
        exists|i: int| 0 <= i < results.len() && results[i].0 == x && results[i].1 == passed,
    decreases results.len(),
{
    let init = results.drop_last();
    let rest = with_verdict(init, passed);
    if rest.contains(x) {
        lemma_verdict_origin(init, passed, x);
        let i = choose|i: int| 0 <= i < init.len() && init[i].0 == x && init[i].1 == passed;
        assert(results[i] == init[i]);
    } else {
        let j = choose|j: int| 0 <= j < with_verdict(results, passed).len() && with_verdict(results, passed)[j] == x;
        assert(results.last().1 == passed);
        assert(with_verdict(results, passed) == rest.push(results.last().0));
        if j < rest.len() {
            assert(rest[j] == x);
        }
        assert(results[results.len() - 1].0 == x);
    }
}

/// Filtering a list without repeats gives a list without repeats.
proof fn lemma_filter_no_duplicates(xs: Seq<Seq<char>>, ys: Seq<Seq<char>>, keep: bool)
    requires
        xs.no_duplicates(),
    ensures
        filter_by_membership(xs, ys, keep).no_duplicates(),
    decreases xs.len(),
{
    if xs.len() > 0 {
        let init = xs.drop_last();
        assert(init.no_duplicates()) by {
            assert forall|a: int, b: int| 0 <= a < init.len() && 0 <= b < init.len() && a != b implies init[a]
                != init[b] by {
                assert(init[a] == xs[a] && init[b] == xs[b]);
            }
        }
        lemma_filter_no_duplicates(init, ys, keep);
        let rest = filter_by_membership(init, ys, keep);
        if ys.contains(xs.last()) == keep {
            lemma_filter_contains(init, ys, keep, xs.last());
            assert(!init.contains(xs.last())) by {
                if init.contains(xs.last()) {
                    let k = choose|k: int| 0 <= k < init.len() && init[k] == xs.last();
                    assert(xs[k] == xs[xs.len() - 1]);
                }
            }
            let out = rest.push(xs.last());
            assert forall|a: int, b: int| 0 <= a < out.len() && 0 <= b < out.len() && a != b implies out[a]
                != out[b] by {
                if a < rest.len() && b < rest.len() {
                    assert(out[a] == rest[a] && out[b] == rest[b]);
                } else if a < rest.len() {
                    assert(out[a] == rest[a]);
                    assert(rest.contains(rest[a]));
                } else {
                    assert(out[b] == rest[b]);
                    assert(rest.contains(rest[b]));
                }
            }
        }
    }
}

/// The categories of a comparison: with the actual images `actual`, the
/// expected images `expected`, and a verdict for each image in both (in the
/// order `categorize_images` lists them), an image is new exactly when it is
/// actual and not expected, deleted exactly when it is expected and not
/// actual, and compared, and so passed or failed, exactly when it is both;
/// when the actual images are listed once each, no image is both passed and
/// failed.
pub proof fn lemma_comparison_categories(
    actual: Seq<Seq<char>>,
    expected: Seq<Seq<char>>,
    results: Seq<(Seq<char>, bool)>,
    x: Seq<char>,
)
    requires
        verdict_names(results) == filter_by_membership(actual, expected, true),
    ensures
        filter_by_membership(actual, expected, false).contains(x) <==> (actual.contains(x) && !expected.contains(x)),
        filter_by_membership(expected, actual, false).contains(x) <==> (expected.contains(x) && !actual.contains(x)),
        verdict_names(results).contains(x) <==> (actual.contains(x) && expected.contains(x)),
        (with_verdict(results, true).contains(x) || with_verdict(results, false).contains(x)) <==> (actual.contains(x)
            && expected.contains(x)),
        actual.no_duplicates() ==> !(with_verdict(results, true).contains(x) && with_verdict(results, false).contains(
            x,
        )),
{
    lemma_filter_contains(actual, expected, true, x);
    lemma_filter_contains(actual, expected, false, x);
    lemma_filter_contains(expected, actual, false, x);
    lemma_verdict_contains(results, x);
    if actual.no_duplicates() && with_verdict(results, true).contains(x) && with_verdict(results, false).contains(x) {
        lemma_filter_no_duplicates(actual, expected, true);
        lemma_verdict_origin(results, true, x);
        lemma_verdict_origin(results, false, x);
        let i = choose|i: int| 0 <= i < results.len() && results[i].0 == x && results[i].1 == true;
        let j = choose|j: int| 0 <= j < results.len() && results[j].0 == x && results[j].1 == false;
        assert(verdict_names(results)[i] == verdict_names(results)[j]);
    }
}

// ----- the course of a run -----

/// Where a run stands.
#[derive(Debug)]
pub enum RunState {
    /// Nothing done yet.
    Start,
    /// Waiting for the expected key.
    ResolvingExpected,
    /// Waiting for the expected images to arrive.
    Syncing,
    /// Waiting for the comparison.
    Comparing,
    /// Compared; waiting for the key to publish under.
    ResolvingActual(ComparisonResult),
    /// Waiting for the publication.
    Publishing(ComparisonResult),
    /// Waiting for the current commit and the pull request.
    ResolvingNotice(ComparisonResult, Option<String>),
    /// Waiting for the notifiers.
    Notifying(ComparisonResult, Option<String>),
    /// The run is over.
    Done,
}

/// What happened since the last step.
#[derive(Debug)]
pub enum RunEvent {
    /// The run begins.
    Begin,
    /// The expected key, if there is one.
    ExpectedKey(Option<String>),
    /// The expected images arrived.
    Synced,
    /// The comparison's record.
    Compared(ComparisonResult),
    /// The actual key, or nothing when it could not be had.
    ActualKey(Option<String>),
    /// The published report's URL, if any.
    Published(Option<String>),
    /// The actual key again (nothing when it could not be had) and the pull
    /// request of the run.
    NoticeFacts(Option<String>, Option<u64>),
    /// The notifiers ran; the number of them that failed. A failed
    /// notifier does not fail the run.
    Notified(u64),
}

/// What to do next.
#[derive(Debug)]
pub enum RunAction {
    ResolveExpectedKey,
    Sync(String),
    Compare,
    ResolveActualKey,
    Publish(String),
    ResolveNoticeFacts,
    Notify(NotifyParams),
    Finish(PipelineResult),
    /// The event does not fit the state.
    Unexpected,
}

/// The next state and action of a run: resolve the expected key; download
/// the expected images when there is one; compare; resolve the actual key
/// and publish under it when it resolves; resolve the current commit (empty
/// when it does not resolve) and the pull request; notify; finish.
pub open spec fn run_step(state: RunState, event: RunEvent) -> (RunState, RunAction) {
    match (state, event) {
        (RunState::Start, RunEvent::Begin) => (RunState::ResolvingExpected, RunAction::ResolveExpectedKey),
        (RunState::ResolvingExpected, RunEvent::ExpectedKey(Some(k))) => (RunState::Syncing, RunAction::Sync(k)),
        (RunState::ResolvingExpected, RunEvent::ExpectedKey(None)) => (RunState::Comparing, RunAction::Compare),
        (RunState::Syncing, RunEvent::Synced) => (RunState::Comparing, RunAction::Compare),
        (RunState::Comparing, RunEvent::Compared(c)) => (RunState::ResolvingActual(c), RunAction::ResolveActualKey),
        (RunState::ResolvingActual(c), RunEvent::ActualKey(Some(k))) => (RunState::Publishing(c), RunAction::Publish(k)),
        (RunState::ResolvingActual(c), RunEvent::ActualKey(None)) => (
            RunState::ResolvingNotice(c, None),
            RunAction::ResolveNoticeFacts,
        ),
        (RunState::Publishing(c), RunEvent::Published(u)) => (RunState::ResolvingNotice(c, u), RunAction::ResolveNoticeFacts),
        (RunState::ResolvingNotice(c, u), RunEvent::NoticeFacts(sha, pr)) => (
            RunState::Notifying(c, u),
            RunAction::Notify(
                NotifyParams {
                    comparison: c,
                    report_url: u,
                    current_sha: match sha {
                        Some(s) => s,
                        None => empty_string(),
                    },
                    pr_number: pr,
                },
            ),
        ),
        (RunState::Notifying(c, u), RunEvent::Notified(_)) => (
            RunState::Done,
            RunAction::Finish(PipelineResult { comparison: c, report_url: u, has_failures: failures_of(c) }),
        ),
        (_, _) => (RunState::Done, RunAction::Unexpected),
    }
}

/// The empty string, as a spec value.
pub closed spec fn empty_string() -> String {
    choose|s: String| s@.len() == 0
}

/// Two records with the same lists and directories, taken by their text.
pub open spec fn same_comparison(a: ComparisonResult, b: ComparisonResult) -> bool {
    &&& strings_view(a.failed_items@) == strings_view(b.failed_items@)
    &&& strings_view(a.new_items@) == strings_view(b.new_items@)
    &&& strings_view(a.deleted_items@) == strings_view(b.deleted_items@)
    &&& strings_view(a.passed_items@) == strings_view(b.passed_items@)
    &&& strings_view(a.expected_items@) == strings_view(b.expected_items@)
    &&& strings_view(a.actual_items@) == strings_view(b.actual_items@)
    &&& strings_view(a.diff_items@) == strings_view(b.diff_items@)
    &&& a.actual_dir@ == b.actual_dir@
    &&& a.expected_dir@ == b.expected_dir@
    &&& a.diff_dir@ == b.diff_dir@
}

/// The view of an optional string.
pub open spec fn opt_view(o: Option<String>) -> Option<Seq<char>> {
    match o {
        Some(s) => Some(s@),
        None => None,
    }
}

/// Whether `out` is `run_step(state, event)`, the notification's copies of
/// the record, the report URL and the commit taken by their text.
pub open spec fn is_run_step(state: RunState, event: RunEvent, out: (RunState, RunAction)) -> bool {
    let expected = run_step(state, event);
    match (expected.1, out.1) {
        (RunAction::Notify(p), RunAction::Notify(q)) => {
            &&& out.0 == expected.0
            &&& same_comparison(q.comparison, p.comparison)
            &&& opt_view(q.report_url) == opt_view(p.report_url)
            &&& q.pr_number == p.pr_number
            &&& q.current_sha@ == match event {
                RunEvent::NoticeFacts(Some(s), _) => s@,
                _ => Seq::<char>::empty(),
            }
        },
        (RunAction::Notify(_), _) => false,
        (_, RunAction::Notify(_)) => false,
        _ => out == expected,
    }
}

/// A copy of a comparison record.
pub fn copy_comparison(c: &ComparisonResult) -> (r: ComparisonResult)
    ensures
        same_comparison(r, *c),
{
    ComparisonResult {
        failed_items: copy_strings(&c.failed_items),
        new_items: copy_strings(&c.new_items),
        deleted_items: copy_strings(&c.deleted_items),
        passed_items: copy_strings(&c.passed_items),
        expected_items: copy_strings(&c.expected_items),
        actual_items: copy_strings(&c.actual_items),
        diff_items: copy_strings(&c.diff_items),
        actual_dir: c.actual_dir.clone(),
        expected_dir: c.expected_dir.clone(),
        diff_dir: c.diff_dir.clone(),
    }
}

/// Advances a run by one event (see `run_step`).
pub fn next_run_step(state: RunState, event: RunEvent) -> (r: (RunState, RunAction))
    ensures
        is_run_step(state, event, r),
{
    match (state, event) {
        (RunState::Start, RunEvent::Begin) => (RunState::ResolvingExpected, RunAction::ResolveExpectedKey),
        (RunState::ResolvingExpected, RunEvent::ExpectedKey(Some(k))) => (RunState::Syncing, RunAction::Sync(k)),
        (RunState::ResolvingExpected, RunEvent::ExpectedKey(None)) => (RunState::Comparing, RunAction::Compare),
        (RunState::Syncing, RunEvent::Synced) => (RunState::Comparing, RunAction::Compare),
        (RunState::Comparing, RunEvent::Compared(c)) => (RunState::ResolvingActual(c), RunAction::ResolveActualKey),
        (RunState::ResolvingActual(c), RunEvent::ActualKey(Some(k))) => (RunState::Publishing(c), RunAction::Publish(k)),
        (RunState::ResolvingActual(c), RunEvent::ActualKey(None)) => (
            RunState::ResolvingNotice(c, None),
            RunAction::ResolveNoticeFacts,
        ),
        (RunState::Publishing(c), RunEvent::Published(u)) => (RunState::ResolvingNotice(c, u), RunAction::ResolveNoticeFacts),
        (RunState::ResolvingNotice(c, u), RunEvent::NoticeFacts(sha, pr)) => {
            let current_sha = match sha {
                Some(s) => s,
                None => String::new(),
            };
            let report_url = match &u {
                Some(url) => Some(url.clone()),
                None => None,
            };
            let params = NotifyParams { comparison: copy_comparison(&c), report_url, current_sha, pr_number: pr };
            (RunState::Notifying(c, u), RunAction::Notify(params))
        },
        (RunState::Notifying(c, u), RunEvent::Notified(_)) => {
            let has_failures = c.has_failures();
            (RunState::Done, RunAction::Finish(PipelineResult { comparison: c, report_url: u, has_failures }))
        },
        (_, _) => (RunState::Done, RunAction::Unexpected),
    }
}

/// The state a run reaches before its notifiers are told: it resolves the
/// expected key (`expected`), syncs when there is one, compares (`c`),
/// resolves the actual key (`actual`) and publishes under it when there is
/// one (`url`).
pub open spec fn state_before_notice(
    expected: Option<String>,
    c: ComparisonResult,
    actual: Option<String>,
    url: Option<String>,
) -> RunState {
    let s1 = run_step(RunState::Start, RunEvent::Begin).0;
    let s2 = run_step(s1, RunEvent::ExpectedKey(expected)).0;
    let s3 = if expected is Some {
        run_step(s2, RunEvent::Synced).0
    } else {
        s2
    };
    let s4 = run_step(s3, RunEvent::Compared(c)).0;
    let s5 = run_step(s4, RunEvent::ActualKey(actual)).0;
    if actual is Some {
        run_step(s5, RunEvent::Published(url)).0
    } else {
        s5
    }
}

/// A run that gets the events it asks for tells its notifiers about the
/// comparison it made and the URL it published (none when there was no key
/// to publish under), and finishes with that comparison, that URL, and a
/// failure verdict exactly when some image differs, however many notifiers
/// failed.
pub proof fn lemma_run_reports_its_comparison(
    expected: Option<String>,
    c: ComparisonResult,
    actual: Option<String>,
    url: Option<String>,
    sha: Option<String>,
    pr: Option<u64>,
    failed: u64,
)
    ensures
        ({
            let s = state_before_notice(expected, c, actual, url);
            let published = if actual is Some {
                url
            } else {
                None
            };
            let (s7, notice) = run_step(s, RunEvent::NoticeFacts(sha, pr));
            &&& notice matches RunAction::Notify(p) && p.comparison == c && p.report_url == published
                && p.pr_number == pr
            &&& run_step(s7, RunEvent::Notified(failed)) == (
                RunState::Done,
                RunAction::Finish(PipelineResult { comparison: c, report_url: published, has_failures: failures_of(c) }),
            )
        }),
{
}

/// A run downloads the expected images exactly when there is an expected
/// key, under that key, and otherwise goes straight to the comparison; it
/// publishes exactly when the actual key resolves, under that key, and
/// otherwise goes straight to the notice.
pub proof fn lemma_run_fetches_and_publishes_under_keys(
    expected: Option<String>,
    c: ComparisonResult,
    actual: Option<String>,
)
    ensures
        ({
            let s1 = run_step(RunState::Start, RunEvent::Begin).0;
            let a2 = run_step(s1, RunEvent::ExpectedKey(expected)).1;
            &&& (a2 is Sync <==> expected is Some)
            &&& (a2 matches RunAction::Sync(k) ==> expected == Some(k))
            &&& expected is None ==> a2 is Compare
        }),
        ({
            let a = run_step(RunState::ResolvingActual(c), RunEvent::ActualKey(actual)).1;
            &&& (a is Publish <==> actual is Some)
            &&& (a matches RunAction::Publish(k) ==> actual == Some(k))
            &&& actual is None ==> a is ResolveNoticeFacts
        }),
{
}

} // verus!
