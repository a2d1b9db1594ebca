# kaiki

Visual regression testing: compare the screenshots of a build with those of
a base commit, render a report, publish it to S3 or Google Cloud Storage, and
tell GitHub and Slack about the result.

## Layout

- `src/` — the verified library (Verus):
  - `antialias`, `regions`, `image`, `decode`: pixel comparison after the
    per-pixel colour verdict, anti-aliasing detection, diff rendering,
    bounding boxes of differing regions, loading of encoded images with a
    hash fast path;
  - `config`, `cli`: configuration records, `$VAR` expansion, configuration
    checks, plugin selection, the configuration written by the wizard;
  - `report`, `pipeline`: the comparison record, image categories, the HTML
    report page, the pull request of a CI run, and the course of a run as a
    step function from state and event to next state and action;
  - `storage`: object keys, report URLs, download plans, gzip handling and
    upload headers;
  - `notify`: GitHub comments and commit statuses, Slack messages;
  - `keygen`: storage keys from a fixed key or the git history;
  - `release`: version bumps, changelog merge, package manifests, and the
    publish order of the workspace crates;
  - `json`, `text`, `bindings`: JSON trees, text helpers, JavaScript records.
- `app/` — the command line tool around the library: file and network I/O,
  the floating-point colour metric, and the async loop that performs each
  action of a run and hands its outcome back to the step function.
- `tests/` — tests of the library.

## Dependencies

To keep the dependency tree small, two services are reached without their
client crates:

- Google Cloud Storage through its JSON API over `reqwest`, authorised by an
  OAuth access token in `GOOGLE_OAUTH_ACCESS_TOKEN` (for example the output
  of `gcloud auth print-access-token`), in place of application default
  credentials.
- Release changelogs are rendered by the `git-cliff` command, which must be
  on the `PATH`, and commit messages are read with `git log`.
