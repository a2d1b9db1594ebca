//! What the GitHub and Slack notifiers send, and the decisions they make
//! about pull-request comments.
use vstd::prelude::*;

use crate::config::GitHubNotifyConfig;
use crate::report::{changes_of, failures_of, ComparisonResult};
use crate::text::{
    chars_of, contains_chars, contains_seq, copy_strings, decimal, owned, push_decimal, push_str, string_of,
    strings_view,
};

verus! {

broadcast use vstd::string::group_string_axioms;

/// Errors raised by a notifier.
#[derive(Debug)]
pub enum NotifyError {
    /// An HTTP request failed.
    Http(String),
    /// The notification was refused.
    Failed(String),
    /// The notifier is misconfigured.
    Config(String),
}

/// What a notifier is told about a run.
#[derive(Debug, Clone)]
pub struct NotifyParams {
    pub comparison: ComparisonResult,
    pub report_url: Option<String>,
    pub current_sha: String,
    pub pr_number: Option<u64>,
}

/// A comment on a GitHub issue or pull request.
#[derive(Debug)]
pub struct IssueComment {
    pub id: u64,
    pub body: String,
}

/// The hidden marker by which the notifier recognises its own comment.
pub const COMMENT_MARKER: &'static str = "<!-- reg-suit kaiki -->";

/// The view of an optional owned string.
pub open spec fn opt_view(o: Option<String>) -> Option<Seq<char>> {
    match o {
        Some(s) => Some(s@),
        None => None,
    }
}

// ----- pull-request comment -----

/// The count table of a comment.
pub open spec fn count_table(c: ComparisonResult) -> Seq<char> {
    "| | Count |\n|---|---|\n| Changed | "@ + decimal(c.failed_items@.len()) + " |\n| New | "@
        + decimal(c.new_items@.len()) + " |\n| Deleted | "@ + decimal(c.deleted_items@.len())
        + " |\n| Passed | "@ + decimal(c.passed_items@.len()) + " |\n\n"@
}

/// The link to the report, when there is one.
pub open spec fn report_link(url: Option<Seq<char>>) -> Seq<char> {
    match url {
        Some(u) => "[Report]("@ + u + ")\n"@,
        None => Seq::empty(),
    }
}

/// The pull-request comment for a run.
pub open spec fn comment_body(c: ComparisonResult, url: Option<Seq<char>>) -> Seq<char> {
    COMMENT_MARKER@ + "\n## reg report\n\n"@ + count_table(c) + report_link(url)
}

fn push_count(s: &mut String, label: &str, n: usize)
    ensures
        final(s)@ == old(s)@ + label@ + decimal(n as nat),
{
    push_str(s, label);
    push_decimal(s, n as u64);
}

/// The pull-request comment: marker, heading, a table of the changed, new,
/// deleted and passed counts, and a link to the report when there is one.
pub fn build_comment_body(params: &NotifyParams) -> (r: String)
    ensures
        r@ == comment_body(params.comparison, opt_view(params.report_url)),
{
    let c = &params.comparison;
    let mut body = owned(COMMENT_MARKER);
    push_str(&mut body, "\n## reg report\n\n");
    push_count(&mut body, "| | Count |\n|---|---|\n| Changed | ", c.failed_items.len());
    push_count(&mut body, " |\n| New | ", c.new_items.len());
    push_count(&mut body, " |\n| Deleted | ", c.deleted_items.len());
    push_count(&mut body, " |\n| Passed | ", c.passed_items.len());
    push_str(&mut body, " |\n\n");
    let ghost before = body@;
    match &params.report_url {
        Some(url) => {
            push_str(&mut body, "[Report](");
            push_str(&mut body, url.as_str());
            push_str(&mut body, ")\n");
            proof {
                assert(body@ =~= before + ("[Report]("@ + url@ + ")\n"@));
            }
        },
        None => {
            proof {
                assert(body@ =~= before + Seq::<char>::empty());
            }
        },
    }
    proof {
        assert(body@ =~= comment_body(params.comparison, opt_view(params.report_url)));
    }
    body
}

/// The first comment whose body holds the marker.
pub open spec fn marked_comment(bodies: Seq<(u64, Seq<char>)>) -> Option<u64>
    decreases bodies.len(),
{
    if bodies.len() == 0 {
        None
    } else if contains_seq(bodies[0].1, COMMENT_MARKER@) {
        Some(bodies[0].0)
    } else {
        marked_comment(bodies.drop_first())
    }
}

/// The ids and bodies of a list of comments.
pub open spec fn comments_view(v: Seq<IssueComment>) -> Seq<(u64, Seq<char>)> {
    v.map_values(|c: IssueComment| (c.id, c.body@))
}

/// The id of the first comment that carries the marker.
pub fn find_marked_comment(comments: &Vec<IssueComment>) -> (r: Option<u64>)
    ensures
        r == marked_comment(comments_view(comments@)),
{
    let marker = chars_of(COMMENT_MARKER);
    let mut i: usize = 0;
    proof {
        assert(comments_view(comments@).subrange(0, comments@.len() as int) =~= comments_view(comments@));
    }
    while i < comments.len()
        invariant
            marker@ == COMMENT_MARKER@,
            i <= comments@.len(),
            marked_comment(comments_view(comments@)) == marked_comment(
                comments_view(comments@).subrange(i as int, comments@.len() as int),
            ),
        decreases comments@.len() - i,
    {
        let ghost rest = comments_view(comments@).subrange(i as int, comments@.len() as int);
        proof {
            assert(rest.drop_first() =~= comments_view(comments@).subrange(i + 1, comments@.len() as int));
            assert(rest[0] == (comments@[i as int].id, comments@[i as int].body@));
        }
        let body = chars_of(comments[i].body.as_str());
        if contains_chars(body.as_slice(), marker.as_slice()) {
            return Some(comments[i].id);
        }
        i = i + 1;
    }
    None
}

/// How a pull-request comment is to be posted.
#[derive(Debug, Clone, Copy, PartialEq, Eq, Structural)]
pub enum CommentAction {
    /// Post a new comment.
    Create,
    /// Replace the body of this comment.
    Update(u64),
    /// Post nothing.
    Skip,
}

/// The comment behaviours: `once` posts only when no marked comment exists,
/// `new` always posts, anything else updates the marked comment or posts.
pub open spec fn comment_action(behavior: Seq<char>, existing: Option<u64>) -> CommentAction {
    if behavior == "once"@ {
        if existing is None {
            CommentAction::Create
        } else {
            CommentAction::Skip
        }
    } else if behavior == "new"@ {
        CommentAction::Create
    } else {
        match existing {
            Some(id) => CommentAction::Update(id),
            None => CommentAction::Create,
        }
    }
}

/// Whether the behaviour needs the existing comments looked up first.
pub open spec fn needs_lookup(behavior: Seq<char>) -> bool {
    behavior != "new"@
}

fn str_eq(a: &str, b: &str) -> (r: bool)
    ensures
        r == (a@ == b@),
{
    let x = chars_of(a);
    let y = chars_of(b);
    if x.len() != y.len() {
        return false;
    }
    let mut i: usize = 0;
    while i < x.len()
        invariant
            x@ == a@,
            y@ == b@,
            x@.len() == y@.len(),
            i <= x@.len(),
            forall|j: int| 0 <= j < i ==> x@[j] == y@[j],
        decreases x@.len() - i,
    {
        if x[i] != y[i] {
            return false;
        }
        i = i + 1;
    }
    proof {
        assert(x@ =~= y@);
    }
    true
}

/// Whether the comment behaviour looks up the marked comment first.
pub fn comment_needs_lookup(behavior: &str) -> (r: bool)
    ensures
        r == needs_lookup(behavior@),
{
    !str_eq(behavior, "new")
}

/// Decides how to post the comment, given the marked comment found (when
/// the behaviour looks one up).
pub fn decide_comment_action(behavior: &str, existing: Option<u64>) -> (r: CommentAction)
    ensures
        r == comment_action(behavior@, existing),
{
    if str_eq(behavior, "once") {
        if existing.is_none() {
            CommentAction::Create
        } else {
            CommentAction::Skip
        }
    } else if str_eq(behavior, "new") {
        CommentAction::Create
    } else {
        match existing {
            Some(id) => CommentAction::Update(id),
            None => CommentAction::Create,
        }
    }
}

/// Whether a run gets a pull-request comment: comments are on, something
/// changed, and the pull request is known.
pub open spec fn wants_comment(config: GitHubNotifyConfig, params: NotifyParams) -> bool {
    config.pr_comment && changes_of(params.comparison) && params.pr_number is Some
}

/// The pull request to comment on, when the run gets a comment.
pub fn comment_target(config: &GitHubNotifyConfig, params: &NotifyParams) -> (r: Option<u64>)
    ensures
        r is Some <==> wants_comment(*config, *params),
        r matches Some(n) ==> params.pr_number == Some(n),
{
    if config.pr_comment && params.comparison.has_changes() {
        params.pr_number
    } else {
        None
    }
}

/// The repository owner and name, each required by the GitHub notifier.
pub fn github_repository(config: &GitHubNotifyConfig) -> (r: Result<(String, String), NotifyError>)
    ensures
        match (config.owner, config.repository) {
            (Some(o), Some(n)) => r matches Ok(p) && p.0@ == o@ && p.1@ == n@,
            (None, _) => r matches Err(NotifyError::Config(m)) && m@ == "owner not configured"@,
            (Some(_), None) => r matches Err(NotifyError::Config(m)) && m@ == "repository not configured"@,
        },
{
    let owner = match &config.owner {
        Some(o) => o.clone(),
        None => return Err(NotifyError::Config(owned("owner not configured"))),
    };
    let repo = match &config.repository {
        Some(n) => n.clone(),
        None => return Err(NotifyError::Config(owned("repository not configured"))),
    };
    Ok((owner, repo))
}

// ----- commit status -----

/// The body of a commit status request.
#[derive(Debug, Clone)]
pub struct CommitStatusPayload {
    pub state: String,
    pub description: String,
    pub context: String,
    pub target_url: Option<String>,
}

/// A commit status with context `reg`, linking `target_url` when given.
pub fn build_commit_status_payload(state: &str, description: &str, target_url: Option<&str>) -> (r: CommitStatusPayload)
    ensures
        r.state@ == state@,
        r.description@ == description@,
        r.context@ == "reg"@,
        match target_url {
            Some(t) => r.target_url matches Some(u) && u@ == t@,
            None => r.target_url is None,
        },
{
    let target = match target_url {
        Some(t) => Some(owned(t)),
        None => None,
    };
    CommitStatusPayload { state: owned(state), description: owned(description), context: owned("reg"), target_url: target }
}

/// The commit state of a run: `failure` when some image failed, else `success`.
pub open spec fn status_state(c: ComparisonResult) -> Seq<char> {
    if failures_of(c) {
        "failure"@
    } else {
        "success"@
    }
}

/// The commit status description of a run.
pub open spec fn status_description(c: ComparisonResult) -> Seq<char> {
    "changed: "@ + decimal(c.failed_items@.len()) + ", new: "@ + decimal(c.new_items@.len())
        + ", deleted: "@ + decimal(c.deleted_items@.len())
}

/// The commit status fails exactly when some image differs from its
/// expected version; new or deleted images alone leave it a success.
pub proof fn lemma_status_fails_exactly_on_differences(c: ComparisonResult)
    ensures
        status_state(c) == "failure"@ <==> c.failed_items@.len() > 0,
        c.failed_items@.len() == 0 ==> status_state(c) == "success"@,
{
    reveal_strlit("failure");
    reveal_strlit("success");
    assert("failure"@[0] != "success"@[0]);
}

/// The commit status description gives each count beside its own label:
/// differing images after `changed: `, new ones after `new: `, deleted ones
/// after `deleted: `.
pub proof fn lemma_status_description_counts(c: ComparisonResult)
    ensures
        status_description(c) == "changed: "@ + decimal(c.failed_items@.len()) + ", new: "@ + decimal(
            c.new_items@.len(),
        ) + ", deleted: "@ + decimal(c.deleted_items@.len()),
{
}

/// The pull-request comment starts with the marker and the heading, gives
/// each count in its own row of the table (changed, new, deleted, passed),
/// and ends with the report link exactly when the report URL is known.
pub proof fn lemma_comment_body_counts(c: ComparisonResult, url: Option<Seq<char>>)
    ensures
        comment_body(c, url) == COMMENT_MARKER@ + "\n## reg report\n\n"@ + "| | Count |\n|---|---|\n| Changed | "@
            + decimal(c.failed_items@.len()) + " |\n| New | "@ + decimal(c.new_items@.len()) + " |\n| Deleted | "@
            + decimal(c.deleted_items@.len()) + " |\n| Passed | "@ + decimal(c.passed_items@.len()) + " |\n\n"@
            + match url {
            Some(u) => "[Report]("@ + u + ")\n"@,
            None => Seq::empty(),
        },
{
}

/// The comment behaviours: `new` always posts a new comment; `once` posts
/// only when no marked comment exists and otherwise posts nothing; any other
/// behaviour updates the marked comment when there is one and otherwise
/// posts a new one.
pub proof fn lemma_comment_behaviours(behavior: Seq<char>, existing: Option<u64>)
    ensures
        behavior == "new"@ ==> comment_action(behavior, existing) == CommentAction::Create,
        behavior == "once"@ ==> comment_action(behavior, existing) == (if existing is None {
            CommentAction::Create
        } else {
            CommentAction::Skip
        }),
        behavior != "new"@ && behavior != "once"@ ==> comment_action(behavior, existing) == match existing {
            Some(id) => CommentAction::Update(id),
            None => CommentAction::Create,
        },
        needs_lookup(behavior) <==> behavior != "new"@,
{
    reveal_strlit("new");
    reveal_strlit("once");
    assert("new"@ != "once"@) by {
        assert("new"@.len() != "once"@.len());
    }
}

/// The commit status of a run, linking the report when there is one.
pub fn commit_status_for(params: &NotifyParams) -> (r: CommitStatusPayload)
    ensures
        r.state@ == status_state(params.comparison),
        r.state@ == if params.comparison.failed_items@.len() > 0 {
            "failure"@
        } else {
            "success"@
        },
        r.description@ == status_description(params.comparison),
        r.context@ == "reg"@,
        opt_view(r.target_url) == opt_view(params.report_url),
{
    let c = &params.comparison;
    let state = if c.has_failures() {
        "failure"
    } else {
        "success"
    };
    let mut description = String::new();
    push_count(&mut description, "changed: ", c.failed_items.len());
    push_count(&mut description, ", new: ", c.new_items.len());
    push_count(&mut description, ", deleted: ", c.deleted_items.len());
    proof {
        assert(description@ =~= status_description(params.comparison));
    }
    let target = match &params.report_url {
        Some(u) => Some(u.as_str()),
        None => None,
    };
    build_commit_status_payload(state, description.as_str(), target)
}

// ----- the GitHub notifier's calls -----

/// What happened since the GitHub notifier's last call.
#[derive(Debug)]
pub enum GitHubEvent {
    /// The notifier starts.
    Begin,
    /// The commit status was set (`true`) or the call failed (`false`).
    StatusSet(bool),
    /// The pull request's comments, or nothing when they could not be listed.
    CommentsListed(Option<Vec<IssueComment>>),
    /// The report comment was written (`true`) or the call failed (`false`).
    CommentWritten(bool),
}

/// The GitHub notifier's next call.
#[derive(Debug)]
pub enum GitHubAction {
    /// Set the commit status of the commit `sha` to `payload`.
    SetStatus(String, CommitStatusPayload),
    /// List the comments of pull request `n`.
    ListComments(u64),
    /// Post the report comment `body` on pull request `n`.
    CreateComment(u64, String),
    /// Replace the body of comment `id` by the report comment `body`.
    UpdateComment(u64, String),
    /// Stop: successfully (`true`), or after a failed call (`false`).
    Finish(bool),
}

/// `r` carries out the comment decision `a` on pull request `n` with the
/// report comment `body`.
pub open spec fn comment_write(a: CommentAction, n: u64, body: Seq<char>, r: GitHubAction) -> bool {
    match a {
        CommentAction::Create => r matches GitHubAction::CreateComment(m, b) && m == n && b@ == body,
        CommentAction::Update(id) => r matches GitHubAction::UpdateComment(i, b) && i == id && b@ == body,
        CommentAction::Skip => r matches GitHubAction::Finish(ok) && ok,
    }
}

/// `r` starts the comment part: nothing when the run gets no comment;
/// listing the comments when the behaviour looks for an earlier one; else
/// the decision taken with no earlier comment.
pub open spec fn comment_phase(config: GitHubNotifyConfig, params: NotifyParams, r: GitHubAction) -> bool {
    if !wants_comment(config, params) {
        r matches GitHubAction::Finish(ok) && ok
    } else if needs_lookup(config.pr_comment_behavior@) {
        r matches GitHubAction::ListComments(m) && params.pr_number == Some(m)
    } else {
        comment_write(
            comment_action(config.pr_comment_behavior@, None),
            params.pr_number->0,
            comment_body(params.comparison, opt_view(params.report_url)),
            r,
        )
    }
}

/// The GitHub notifier's course: the commit status first, when it is set;
/// a failed status call ends the notifier before any comment; then the
/// report comment, after looking for the marked one when the behaviour asks
/// (a failed listing counts as none found); the comment call's outcome ends
/// the notifier.
pub open spec fn github_step(config: GitHubNotifyConfig, params: NotifyParams, event: GitHubEvent, r: GitHubAction) -> bool {
    match event {
        GitHubEvent::Begin => if config.set_commit_status {
            r matches GitHubAction::SetStatus(sha, p) && {
                &&& sha@ == params.current_sha@
                &&& p.state@ == status_state(params.comparison)
                &&& p.description@ == status_description(params.comparison)
                &&& p.context@ == "reg"@
                &&& opt_view(p.target_url) == opt_view(params.report_url)
            }
        } else {
            comment_phase(config, params, r)
        },
        GitHubEvent::StatusSet(ok) => if ok {
            comment_phase(config, params, r)
        } else {
            r matches GitHubAction::Finish(done) && !done
        },
        GitHubEvent::CommentsListed(list) => if wants_comment(config, params) {
            comment_write(
                comment_action(
                    config.pr_comment_behavior@,
                    match list {
                        Some(l) => marked_comment(comments_view(l@)),
                        None => None,
                    },
                ),
                params.pr_number->0,
                comment_body(params.comparison, opt_view(params.report_url)),
                r,
            )
        } else {
            r matches GitHubAction::Finish(ok) && ok
        },
        GitHubEvent::CommentWritten(ok) => r matches GitHubAction::Finish(done) && done == ok,
    }
}

fn write_comment(a: CommentAction, n: u64, body: String) -> (r: GitHubAction)
    ensures
        comment_write(a, n, body@, r),
{
    match a {
        CommentAction::Create => GitHubAction::CreateComment(n, body),
        CommentAction::Update(id) => GitHubAction::UpdateComment(id, body),
        CommentAction::Skip => GitHubAction::Finish(true),
    }
}

fn start_comment(config: &GitHubNotifyConfig, params: &NotifyParams) -> (r: GitHubAction)
    ensures
        comment_phase(*config, *params, r),
{
    match comment_target(config, params) {
        None => GitHubAction::Finish(true),
        Some(n) => {
            if comment_needs_lookup(config.pr_comment_behavior.as_str()) {
                GitHubAction::ListComments(n)
            } else {
                let a = decide_comment_action(config.pr_comment_behavior.as_str(), None);
                write_comment(a, n, build_comment_body(params))
            }
        },
    }
}

/// The GitHub notifier's next call after `event` (see `github_step`).
pub fn github_next(config: &GitHubNotifyConfig, params: &NotifyParams, event: GitHubEvent) -> (r: GitHubAction)
    ensures
        github_step(*config, *params, event, r),
{
    match event {
        GitHubEvent::Begin => {
            if config.set_commit_status {
                GitHubAction::SetStatus(params.current_sha.clone(), commit_status_for(params))
            } else {
                start_comment(config, params)
            }
        },
        GitHubEvent::StatusSet(ok) => {
            if ok {
                start_comment(config, params)
            } else {
                GitHubAction::Finish(false)
            }
        },
        GitHubEvent::CommentsListed(list) => {
            match comment_target(config, params) {
                None => GitHubAction::Finish(true),
                Some(n) => {
                    let existing = match &list {
                        Some(l) => find_marked_comment(l),
                        None => None,
                    };
                    let a = decide_comment_action(config.pr_comment_behavior.as_str(), existing);
                    write_comment(a, n, build_comment_body(params))
                },
            }
        },
        GitHubEvent::CommentWritten(ok) => GitHubAction::Finish(ok),
    }
}

// ----- Slack -----

/// The URL of an image of the diff directory next to the report page: the
/// report URL without a trailing `index.html`, then the directory and name.
pub open spec fn diff_url(report: Seq<char>, diff_dir: Seq<char>, image: Seq<char>) -> Seq<char> {
    let base = if report.len() >= 10 && report.subrange(report.len() - 10, report.len() as int) == "index.html"@ {
        report.subrange(0, report.len() - 10)
    } else {
        report
    };
    base + diff_dir + seq!['/'] + image
}

/// The URL of `image_name` in `diff_dir` beside the report at `report_url`.
pub fn diff_image_url(report_url: &str, diff_dir: &str, image_name: &str) -> (r: String)
    ensures
        r@ == diff_url(report_url@, diff_dir@, image_name@),
{
    let chars = chars_of(report_url);
    let suffix = chars_of("index.html");
    proof {
        reveal_strlit("index.html");
    }
    let n = chars.len();
    let mut ends = false;
    if n >= 10 {
        ends = true;
        let mut k: usize = 0;
        while k < 10
            invariant
                chars@ == report_url@,
                suffix@ == "index.html"@,
                suffix@.len() == 10,
                n == chars@.len(),
                n >= 10,
                k <= 10,
                ends == forall|j: int| 0 <= j < k ==> chars@[n - 10 + j] == suffix@[j],
            decreases 10 - k,
        {
            if chars[n - 10 + k] != suffix[k] {
                ends = false;
            }
            k = k + 1;
        }
        proof {
            if ends {
                assert(chars@.subrange(n - 10, n as int) =~= suffix@);
            } else {
                let j = choose|j: int| 0 <= j < 10 && chars@[n - 10 + j] != suffix@[j];
                assert(chars@.subrange(n - 10, n as int)[j] != suffix@[j]);
            }
        }
    }
    let base_len = if ends {
        n - 10
    } else {
        n
    };
    let base = take_chars(&chars, base_len);
    let mut r = string_of(base.as_slice());
    push_str(&mut r, diff_dir);
    crate::text::push_char(&mut r, '/');
    push_str(&mut r, image_name);
    proof {
        if !ends {
            assert(chars@.subrange(0, n as int) =~= chars@);
        }
        assert(r@ =~= diff_url(report_url@, diff_dir@, image_name@));
    }
    r
}

fn take_chars(v: &Vec<char>, n: usize) -> (r: Vec<char>)
    requires
        n <= v@.len(),
    ensures
        r@ == v@.subrange(0, n as int),
{
    let mut r: Vec<char> = Vec::new();
    let mut i: usize = 0;
    while i < n
        invariant
            n <= v@.len(),
            i <= n,
            r@ == v@.subrange(0, i as int),
        decreases n - i,
    {
        r.push(v[i]);
        proof {
            assert(v@.subrange(0, i + 1) =~= v@.subrange(0, i as int).push(v@[i as int]));
        }
        i = i + 1;
    }
    r
}

/// The colour of a Slack attachment: `danger` on failures, `warning` on
/// other changes, `good` otherwise.
pub open spec fn slack_color_of(c: ComparisonResult) -> Seq<char> {
    if failures_of(c) {
        "danger"@
    } else if changes_of(c) {
        "warning"@
    } else {
        "good"@
    }
}

/// The Slack colour: `danger` when some image differs, else `warning` when
/// images were added or deleted, else `good`.
pub proof fn lemma_slack_colours(c: ComparisonResult)
    ensures
        c.failed_items@.len() > 0 ==> slack_color_of(c) == "danger"@,
        c.failed_items@.len() == 0 && (c.new_items@.len() > 0 || c.deleted_items@.len() > 0) ==> slack_color_of(c)
            == "warning"@,
        c.failed_items@.len() == 0 && c.new_items@.len() == 0 && c.deleted_items@.len() == 0 ==> slack_color_of(c)
            == "good"@,
{
}

/// The colour of the Slack attachment for a run.
pub fn slack_color(c: &ComparisonResult) -> (r: &'static str)
    ensures
        r@ == slack_color_of(*c),
{
    if c.has_failures() {
        "danger"
    } else if c.has_changes() {
        "warning"
    } else {
        "good"
    }
}

/// A field of a Slack attachment.
#[derive(Debug, Clone)]
pub struct SlackField {
    pub title: String,
    pub value: String,
    pub short: bool,
}

/// The Slack attachment describing a run.
#[derive(Debug, Clone)]
pub struct SlackAttachment {
    pub color: String,
    pub title: String,
    pub fields: Vec<SlackField>,
    pub image_url: Option<String>,
}

/// The body of a Slack webhook request.
#[derive(Debug, Clone)]
pub struct SlackPayload {
    pub attachments: Vec<SlackAttachment>,
}

/// The result line of a Slack message.
pub open spec fn slack_text(c: ComparisonResult) -> Seq<char> {
    "Changed: "@ + decimal(c.failed_items@.len()) + ", New: "@ + decimal(c.new_items@.len())
        + ", Deleted: "@ + decimal(c.deleted_items@.len()) + ", Passed: "@ + decimal(
        c.passed_items@.len(),
    )
}

/// The Slack result line puts each count beside its own label: the number
/// of differing images after `Changed: `, of new ones after `New: `, of
/// deleted ones after `Deleted: ` and of passed ones after `Passed: `.
pub proof fn lemma_slack_counts_beside_labels(c: ComparisonResult)
    ensures
        slack_text(c) == "Changed: "@ + decimal(c.failed_items@.len()) + ", New: "@ + decimal(c.new_items@.len())
            + ", Deleted: "@ + decimal(c.deleted_items@.len()) + ", Passed: "@ + decimal(c.passed_items@.len()),
{
}

/// Adding a new image raises the count after `New: ` by one and leaves the
/// count after `Deleted: ` as it was, and the other way round.
pub proof fn lemma_slack_new_and_deleted_counts_apart(c: ComparisonResult, d: ComparisonResult)
    requires
        d.failed_items@.len() == c.failed_items@.len(),
        d.passed_items@.len() == c.passed_items@.len(),
        d.new_items@.len() == c.new_items@.len() + 1,
        d.deleted_items@.len() == c.deleted_items@.len(),
    ensures
        slack_text(d) == "Changed: "@ + decimal(c.failed_items@.len()) + ", New: "@ + decimal(c.new_items@.len() + 1)
            + ", Deleted: "@ + decimal(c.deleted_items@.len()) + ", Passed: "@ + decimal(c.passed_items@.len()),
{
}

/// The Slack message of a run: one attachment coloured by the outcome, with
/// a result field, a report field when the report URL is known, and the
/// first failed image's diff when both a report URL and a failure exist.
pub fn build_slack_payload(params: &NotifyParams) -> (r: SlackPayload)
    ensures
        r.attachments@.len() == 1,
        ({
            let a = r.attachments@[0];
            let c = params.comparison;
            &&& a.color@ == slack_color_of(c)
            &&& a.title@ == "Visual Regression Report"@
            &&& a.fields@.len() == if params.report_url is Some { 2int } else { 1int }
            &&& a.fields@[0].title@ == "Result"@ && a.fields@[0].value@ == slack_text(c) && !a.fields@[0].short
            &&& params.report_url matches Some(u) ==> a.fields@[1].title@ == "Report"@ && a.fields@[1].value@ == u@
                && !a.fields@[1].short
            &&& match (params.report_url, c.failed_items@.len() > 0) {
                (Some(u), true) => a.image_url matches Some(i) && i@ == diff_url(u@, c.diff_dir@, c.failed_items@[0]@),
                _ => a.image_url is None,
            }
        }),
{
    let c = &params.comparison;
    let mut text = String::new();
    push_count(&mut text, "Changed: ", c.failed_items.len());
    push_count(&mut text, ", New: ", c.new_items.len());
    push_count(&mut text, ", Deleted: ", c.deleted_items.len());
    push_count(&mut text, ", Passed: ", c.passed_items.len());
    proof {
        assert(text@ =~= slack_text(params.comparison));
    }
    let mut fields: Vec<SlackField> = Vec::new();
    fields.push(SlackField { title: owned("Result"), value: text, short: false });
    let mut image_url: Option<String> = None;
    match &params.report_url {
        Some(url) => {
            fields.push(SlackField { title: owned("Report"), value: url.clone(), short: false });
            if c.failed_items.len() > 0 {
                image_url = Some(diff_image_url(url.as_str(), c.diff_dir.as_str(), c.failed_items[0].as_str()));
            }
        },
        None => {},
    }
    let color = slack_color(c);
    let attachment = SlackAttachment {
        color: owned(color),
        title: owned("Visual Regression Report"),
        fields,
        image_url,
    };
    let mut attachments: Vec<SlackAttachment> = Vec::new();
    attachments.push(attachment);
    SlackPayload { attachments }
}

// ----- JavaScript callback parameters -----

/// What a JavaScript notifier callback receives.
#[derive(Debug, Clone)]
pub struct JsNotifyParams {
    pub failed_items: Vec<String>,
    pub new_items: Vec<String>,
    pub deleted_items: Vec<String>,
    pub passed_items: Vec<String>,
    pub report_url: Option<String>,
    pub current_sha: String,
    pub pr_number: Option<i64>,
}

impl JsNotifyParams {
    /// The callback's view of `params`; the pull-request number is carried
    /// as the signed 64-bit integer of the same bits.
    pub fn from_notify_params(params: &NotifyParams) -> (r: Self)
        ensures
            strings_view(r.failed_items@) == strings_view(params.comparison.failed_items@),
            strings_view(r.new_items@) == strings_view(params.comparison.new_items@),
            strings_view(r.deleted_items@) == strings_view(params.comparison.deleted_items@),
            strings_view(r.passed_items@) == strings_view(params.comparison.passed_items@),
            opt_view(r.report_url) == opt_view(params.report_url),
            r.current_sha@ == params.current_sha@,
            match params.pr_number {
                Some(n) => r.pr_number == Some(n as i64),
                None => r.pr_number is None,
            },
    {
        let report_url = match &params.report_url {
            Some(u) => Some(u.clone()),
            None => None,
        };
        let pr_number = match params.pr_number {
            Some(n) => Some(n as i64),
            None => None,
        };
        JsNotifyParams {
            failed_items: copy_strings(&params.comparison.failed_items),
            new_items: copy_strings(&params.comparison.new_items),
            deleted_items: copy_strings(&params.comparison.deleted_items),
            passed_items: copy_strings(&params.comparison.passed_items),
            report_url,
            current_sha: params.current_sha.clone(),
            pr_number,
        }
    }
}


// ----- laws -----

/// The notifier finds its own comment again: a comment whose body is the
/// one it posts carries the marker.
pub proof fn lemma_own_comment_found(id: u64, c: ComparisonResult, url: Option<Seq<char>>)
    ensures
        marked_comment(seq![(id, comment_body(c, url))]) == Some(id),
{
    let body = comment_body(c, url);
    assert(body.subrange(0, COMMENT_MARKER@.len() as int) =~= COMMENT_MARKER@);
    assert(crate::text::occurs_at(body, COMMENT_MARKER@, 0));
    assert(seq![(id, body)][0] == (id, body));
}

/// Comments before the marked one do not matter once it is found: the
/// first marked comment wins.
pub proof fn lemma_first_marked_wins(before: Seq<(u64, Seq<char>)>, id: u64, body: Seq<char>, after: Seq<(u64, Seq<char>)>)
    requires
        forall|i: int| 0 <= i < before.len() ==> !contains_seq(#[trigger] before[i].1, COMMENT_MARKER@),
        contains_seq(body, COMMENT_MARKER@),
    ensures
        marked_comment(before + seq![(id, body)] + after) == Some(id),
    decreases before.len(),
{
    let all = before + seq![(id, body)] + after;
    if before.len() == 0 {
        assert(all[0] == (id, body));
    } else {
        assert(all[0] == before[0]);
        assert(all.drop_first() =~= before.drop_first() + seq![(id, body)] + after);
        assert forall|i: int| 0 <= i < before.drop_first().len() implies !contains_seq(
            #[trigger] before.drop_first()[i].1,
            COMMENT_MARKER@,
        ) by {
            assert(before.drop_first()[i] == before[i + 1]);
        }
        lemma_first_marked_wins(before.drop_first(), id, body, after);
    }
}


/// A diff image linked from a message about an S3-hosted report lies in the
/// report's directory.
pub proof fn lemma_diff_url_beside_s3_report(
    bucket: Seq<char>,
    prefix: Option<Seq<char>>,
    storage_key: Seq<char>,
    diff_dir: Seq<char>,
    image: Seq<char>,
)
    ensures
        diff_url(crate::storage::s3_url(bucket, prefix, storage_key), diff_dir, image) == "https://"@ + bucket
            + ".s3.amazonaws.com/"@ + crate::storage::report_path(prefix, storage_key) + diff_dir + seq!['/']
            + image,
{
    reveal_strlit("index.html");
    let dir = "https://"@ + bucket + ".s3.amazonaws.com/"@ + crate::storage::report_path(prefix, storage_key);
    let url = crate::storage::s3_url(bucket, prefix, storage_key);
    assert(url =~= dir + "index.html"@);
    assert(url.subrange(url.len() - 10, url.len() as int) =~= "index.html"@);
    assert(url.subrange(0, url.len() - 10) =~= dir);
}

} // verus!
