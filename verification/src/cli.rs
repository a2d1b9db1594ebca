//! Decisions of the command line tool: configuration checks, the plugins a
//! run uses, and the configuration written by the setup wizard.
use vstd::prelude::*;

use crate::json::{is_empty_object, is_str, keys_of, lookup, member, object_insert, JsonValue};
use crate::pipeline::CoreError;
use crate::text::{
    decimal, owned, push_decimal, push_str, same_text, strings_view,
};

verus! {

broadcast use vstd::string::group_string_axioms;

/// Errors of the command line tool.
#[derive(Debug)]
pub enum CliError {
    /// A pipeline stage failed.
    Core(CoreError),
    /// A plugin's settings could not be read.
    PluginConfig(String),
    /// The configuration breaks a rule.
    Validation(String),
}

/// A failure with `msg` unless `condition` holds.
pub fn ensure(condition: bool, msg: String) -> (r: Result<(), CliError>)
    ensures
        condition ==> r is Ok,
        !condition ==> (r matches Err(CliError::Validation(m)) && m@ == msg@),
{
    if condition {
        Ok(())
    } else {
        Err(CliError::Validation(msg))
    }
}

/// Plugin names.
pub const GIT_HASH_KEYGEN: &'static str = "reg-keygen-git-hash-plugin";
pub const SIMPLE_KEYGEN: &'static str = "reg-simple-keygen-plugin";
pub const S3_PUBLISHER: &'static str = "reg-publish-s3-plugin";
pub const GCS_PUBLISHER: &'static str = "reg-publish-gcs-plugin";
pub const GITHUB_NOTIFIER: &'static str = "reg-notify-github-plugin";
pub const SLACK_NOTIFIER: &'static str = "reg-notify-slack-plugin";

/// The plugin names differ from one another.
pub proof fn lemma_plugin_names_distinct()
    ensures
        GIT_HASH_KEYGEN@ != SIMPLE_KEYGEN@,
        GIT_HASH_KEYGEN@ != S3_PUBLISHER@,
        GIT_HASH_KEYGEN@ != GCS_PUBLISHER@,
        GIT_HASH_KEYGEN@ != GITHUB_NOTIFIER@,
        GIT_HASH_KEYGEN@ != SLACK_NOTIFIER@,
        SIMPLE_KEYGEN@ != S3_PUBLISHER@,
        SIMPLE_KEYGEN@ != GCS_PUBLISHER@,
        SIMPLE_KEYGEN@ != GITHUB_NOTIFIER@,
        SIMPLE_KEYGEN@ != SLACK_NOTIFIER@,
        S3_PUBLISHER@ != GCS_PUBLISHER@,
        S3_PUBLISHER@ != GITHUB_NOTIFIER@,
        S3_PUBLISHER@ != SLACK_NOTIFIER@,
        GCS_PUBLISHER@ != GITHUB_NOTIFIER@,
        GCS_PUBLISHER@ != SLACK_NOTIFIER@,
        GITHUB_NOTIFIER@ != SLACK_NOTIFIER@,
{
    reveal_strlit("reg-keygen-git-hash-plugin");
    reveal_strlit("reg-simple-keygen-plugin");
    reveal_strlit("reg-publish-s3-plugin");
    reveal_strlit("reg-publish-gcs-plugin");
    reveal_strlit("reg-notify-github-plugin");
    reveal_strlit("reg-notify-slack-plugin");
    assert(GIT_HASH_KEYGEN@[4] != SIMPLE_KEYGEN@[4]);
    assert(GIT_HASH_KEYGEN@[4] != S3_PUBLISHER@[4]);
    assert(GIT_HASH_KEYGEN@[4] != GCS_PUBLISHER@[4]);
    assert(GIT_HASH_KEYGEN@[4] != GITHUB_NOTIFIER@[4]);
    assert(GIT_HASH_KEYGEN@[4] != SLACK_NOTIFIER@[4]);
    assert(SIMPLE_KEYGEN@[4] != S3_PUBLISHER@[4]);
    assert(SIMPLE_KEYGEN@[4] != GCS_PUBLISHER@[4]);
    assert(SIMPLE_KEYGEN@[4] != GITHUB_NOTIFIER@[4]);
    assert(SIMPLE_KEYGEN@[4] != SLACK_NOTIFIER@[4]);
    assert(S3_PUBLISHER@[12] != GCS_PUBLISHER@[12]);
    assert(S3_PUBLISHER@[4] != GITHUB_NOTIFIER@[4]);
    assert(S3_PUBLISHER@[4] != SLACK_NOTIFIER@[4]);
    assert(GCS_PUBLISHER@[4] != GITHUB_NOTIFIER@[4]);
    assert(GCS_PUBLISHER@[4] != SLACK_NOTIFIER@[4]);
    assert(GITHUB_NOTIFIER@[11] != SLACK_NOTIFIER@[11]);
}

// ----- configuration checks -----

/// A fractional setting as the configuration gave it: whether it lies in
/// `0.0..=1.0`, and how it prints.
#[derive(Debug, Clone)]
pub struct UnitSetting {
    pub in_range: bool,
    pub text: String,
}

/// The core settings that are checked.
#[derive(Debug, Clone)]
pub struct CoreSettings {
    pub actual_dir: String,
    pub working_dir: String,
    pub matching_threshold: Option<UnitSetting>,
    pub threshold_rate: Option<UnitSetting>,
    pub alpha: Option<UnitSetting>,
}

/// A configured plugin: its name, and the error met reading its settings
/// when the plugin has a settings schema and they do not fit it.
#[derive(Debug, Clone)]
pub struct PluginEntry {
    pub name: String,
    pub settings_error: Option<String>,
}

/// The plugins whose settings have a schema that is checked.
pub open spec fn has_schema(name: Seq<char>) -> bool {
    name == SIMPLE_KEYGEN@ || name == S3_PUBLISHER@ || name == GCS_PUBLISHER@ || name == SLACK_NOTIFIER@
}

/// Key generator plugins.
pub open spec fn is_keygen(name: Seq<char>) -> bool {
    name == GIT_HASH_KEYGEN@ || name == SIMPLE_KEYGEN@
}

/// Storage plugins.
pub open spec fn is_storage(name: Seq<char>) -> bool {
    name == S3_PUBLISHER@ || name == GCS_PUBLISHER@
}

/// The message of the first plugin, in order, whose settings do not fit.
pub open spec fn first_settings_error(plugins: Seq<PluginEntry>) -> Option<Seq<char>>
    decreases plugins.len(),
{
    if plugins.len() == 0 {
        None
    } else if has_schema(plugins[0].name@) && plugins[0].settings_error is Some {
        Some("invalid "@ + plugins[0].name@ + " config: "@ + plugins[0].settings_error->0@)
    } else {
        first_settings_error(plugins.drop_first())
    }
}

/// How many of `plugins` satisfy `kind`.
pub open spec fn count_kind(plugins: Seq<PluginEntry>, storage: bool) -> nat
    decreases plugins.len(),
{
    if plugins.len() == 0 {
        0
    } else {
        count_kind(plugins.drop_first(), storage) + if (if storage {
            is_storage(plugins[0].name@)
        } else {
            is_keygen(plugins[0].name@)
        }) {
            1nat
        } else {
            0nat
        }
    }
}

/// The message of a fractional setting out of range.
pub open spec fn range_message(label: Seq<char>, s: UnitSetting) -> Seq<char> {
    label + " must be between 0.0 and 1.0, got "@ + s.text@
}

/// Whether an optional fractional setting is acceptable.
pub open spec fn unit_ok(s: Option<UnitSetting>) -> bool {
    match s {
        Some(v) => v.in_range,
        None => true,
    }
}

/// The first rule a configuration breaks, as its message; rules are
/// checked in this order: non-empty `actualDir`, non-empty `workingDir`,
/// `matchingThreshold`, `thresholdRate` and `alpha` within `0.0..=1.0`,
/// plugin settings that fit, at most one key generator, at most one storage.
pub open spec fn config_violation(core: CoreSettings, plugins: Seq<PluginEntry>) -> Option<Seq<char>> {
    if core.actual_dir@.len() == 0 {
        Some("actualDir must not be empty"@)
    } else if core.working_dir@.len() == 0 {
        Some("workingDir must not be empty"@)
    } else if !unit_ok(core.matching_threshold) {
        Some(range_message("matchingThreshold"@, core.matching_threshold->0))
    } else if !unit_ok(core.threshold_rate) {
        Some(range_message("thresholdRate"@, core.threshold_rate->0))
    } else if !unit_ok(core.alpha) {
        Some(range_message("alpha"@, core.alpha->0))
    } else if first_settings_error(plugins) is Some {
        first_settings_error(plugins)
    } else if count_kind(plugins, false) > 1 {
        Some("at most one keygen plugin allowed, found "@ + decimal(count_kind(plugins, false)))
    } else if count_kind(plugins, true) > 1 {
        Some("at most one storage plugin allowed, found "@ + decimal(count_kind(plugins, true)))
    } else {
        None
    }
}

fn check_unit(label: &str, s: &Option<UnitSetting>) -> (r: Result<(), CliError>)
    ensures
        unit_ok(*s) ==> r is Ok,
        !unit_ok(*s) ==> (r matches Err(CliError::Validation(m)) && m@ == range_message(label@, s->0)),
{
    match s {
        Some(v) => {
            if v.in_range {
                Ok(())
            } else {
                let mut m = owned(label);
                push_str(&mut m, " must be between 0.0 and 1.0, got ");
                push_str(&mut m, v.text.as_str());
                Err(CliError::Validation(m))
            }
        },
        None => Ok(()),
    }
}

fn plugin_kind(name: &str) -> (r: (bool, bool, bool))
    ensures
        r.0 == has_schema(name@),
        r.1 == is_keygen(name@),
        r.2 == is_storage(name@),
{
    let git = same_text(name, GIT_HASH_KEYGEN);
    let simple = same_text(name, SIMPLE_KEYGEN);
    let s3 = same_text(name, S3_PUBLISHER);
    let gcs = same_text(name, GCS_PUBLISHER);
    let slack = same_text(name, SLACK_NOTIFIER);
    (simple || s3 || gcs || slack, git || simple, s3 || gcs)
}

/// Checks a configuration (see `config_violation`).
pub fn validate_config(core: &CoreSettings, plugins: &Vec<PluginEntry>) -> (r: Result<(), CliError>)
    ensures
        match config_violation(*core, plugins@) {
            None => r is Ok,
            Some(msg) => r matches Err(CliError::Validation(m)) && m@ == msg,
        },
{
    if core.actual_dir.unicode_len() == 0 {
        return Err(CliError::Validation(owned("actualDir must not be empty")));
    }
    if core.working_dir.unicode_len() == 0 {
        return Err(CliError::Validation(owned("workingDir must not be empty")));
    }
    check_unit("matchingThreshold", &core.matching_threshold)?;
    check_unit("thresholdRate", &core.threshold_rate)?;
    check_unit("alpha", &core.alpha)?;
    let mut keygen_count: u64 = 0;
    let mut storage_count: u64 = 0;
    let mut i: usize = 0;
    let ghost ps = plugins@;
    proof {
        assert(ps.subrange(0, ps.len() as int) =~= ps);
    }
    while i < plugins.len()
        invariant
            ps == plugins@,
            i <= ps.len(),
            first_settings_error(ps) == first_settings_error(ps.subrange(i as int, ps.len() as int)),
            count_kind(ps, false) == keygen_count + count_kind(ps.subrange(i as int, ps.len() as int), false),
            count_kind(ps, true) == storage_count + count_kind(ps.subrange(i as int, ps.len() as int), true),
            core.actual_dir@.len() > 0,
            core.working_dir@.len() > 0,
            unit_ok(core.matching_threshold),
            unit_ok(core.threshold_rate),
            unit_ok(core.alpha),
            keygen_count <= i,
            storage_count <= i,
        decreases ps.len() - i,
    {
        let ghost rest = ps.subrange(i as int, ps.len() as int);
        proof {
            assert(rest[0] == ps[i as int]);
            assert(rest.drop_first() =~= ps.subrange(i + 1, ps.len() as int));
        }
        let (schema, keygen, storage) = plugin_kind(plugins[i].name.as_str());
        if keygen {
            keygen_count = keygen_count + 1;
        }
        if storage {
            storage_count = storage_count + 1;
        }
        if schema {
            match &plugins[i].settings_error {
                Some(e) => {
                    let mut m = owned("invalid ");
                    push_str(&mut m, plugins[i].name.as_str());
                    push_str(&mut m, " config: ");
                    push_str(&mut m, e.as_str());
                    return Err(CliError::Validation(m));
                },
                None => {},
            }
        }
        i = i + 1;
    }
    proof {
        assert(ps.subrange(ps.len() as int, ps.len() as int).len() == 0);
    }
    if keygen_count > 1 {
        let mut m = owned("at most one keygen plugin allowed, found ");
        push_decimal(&mut m, keygen_count);
        return Err(CliError::Validation(m));
    }
    if storage_count > 1 {
        let mut m = owned("at most one storage plugin allowed, found ");
        push_decimal(&mut m, storage_count);
        return Err(CliError::Validation(m));
    }
    Ok(())
}

// ----- plugins of a run -----

/// The key generator a run uses.
#[derive(Debug, Clone, Copy, PartialEq, Eq, Structural)]
pub enum KeygenChoice {
    GitHash,
    Simple,
}

/// The storage a run publishes to.
#[derive(Debug, Clone, Copy, PartialEq, Eq, Structural)]
pub enum StorageChoice {
    S3,
    Gcs,
}

/// The backends a run is built with.
#[derive(Debug, Clone, Copy, PartialEq, Eq, Structural)]
pub struct PluginPlan {
    pub keygen: KeygenChoice,
    pub storage: Option<StorageChoice>,
    pub github: bool,
    pub slack: bool,
}

/// Whether a plugin named `name` is configured.
pub open spec fn configured(names: Seq<Seq<char>>, name: Seq<char>) -> bool {
    names.contains(name)
}

/// The backends of a run: the git-hash key generator unless only the simple
/// one is configured; in a dry run no storage and no notifier, else S3 before
/// GCS, and each configured notifier.
pub open spec fn plan_of(names: Seq<Seq<char>>, dry_run: bool) -> PluginPlan {
    PluginPlan {
        keygen: if !configured(names, GIT_HASH_KEYGEN@) && configured(names, SIMPLE_KEYGEN@) {
            KeygenChoice::Simple
        } else {
            KeygenChoice::GitHash
        },
        storage: if dry_run {
            None
        } else if configured(names, S3_PUBLISHER@) {
            Some(StorageChoice::S3)
        } else if configured(names, GCS_PUBLISHER@) {
            Some(StorageChoice::Gcs)
        } else {
            None
        },
        github: !dry_run && configured(names, GITHUB_NOTIFIER@),
        slack: !dry_run && configured(names, SLACK_NOTIFIER@),
    }
}

/// A dry run builds no storage and no notifier, whatever plugins are
/// configured; outside a dry run each configured notifier is built.
pub proof fn lemma_dry_run_builds_no_backend(names: Seq<Seq<char>>)
    ensures
        plan_of(names, true).storage is None,
        !plan_of(names, true).github,
        !plan_of(names, true).slack,
        plan_of(names, false).github == names.contains(GITHUB_NOTIFIER@),
        plan_of(names, false).slack == names.contains(SLACK_NOTIFIER@),
        plan_of(names, false).storage is Some <==> (names.contains(S3_PUBLISHER@) || names.contains(GCS_PUBLISHER@)),
        names.contains(S3_PUBLISHER@) ==> plan_of(names, false).storage == Some(StorageChoice::S3),
        forall|d: bool| (#[trigger] plan_of(names, d)).keygen == (if names.contains(SIMPLE_KEYGEN@) && !names.contains(
            GIT_HASH_KEYGEN@,
        ) {
            KeygenChoice::Simple
        } else {
            KeygenChoice::GitHash
        }),
{
}

fn has_plugin(names: &Vec<String>, name: &str) -> (r: bool)
    ensures
        r == configured(strings_view(names@), name@),
{
    let mut i: usize = 0;
    while i < names.len()
        invariant
            i <= names@.len(),
            forall|j: int| 0 <= j < i ==> names@[j]@ != name@,
        decreases names@.len() - i,
    {
        if same_text(names[i].as_str(), name) {
            proof {
                assert(strings_view(names@)[i as int] == name@);
            }
            return true;
        }
        i = i + 1;
    }
    proof {
        if strings_view(names@).contains(name@) {
            let j = choose|j: int| 0 <= j < strings_view(names@).len() && strings_view(names@)[j] == name@;
            assert(names@[j]@ == name@);
        }
    }
    false
}

/// The backends of a run with the configured plugin names (see `plan_of`).
pub fn plugin_plan(names: &Vec<String>, dry_run: bool) -> (r: PluginPlan)
    ensures
        r == plan_of(strings_view(names@), dry_run),
        dry_run ==> r.storage is None && !r.github && !r.slack,
{
    let git = has_plugin(names, GIT_HASH_KEYGEN);
    let simple = has_plugin(names, SIMPLE_KEYGEN);
    let keygen = if !git && simple {
        KeygenChoice::Simple
    } else {
        KeygenChoice::GitHash
    };
    let storage = if dry_run {
        None
    } else if has_plugin(names, S3_PUBLISHER) {
        Some(StorageChoice::S3)
    } else if has_plugin(names, GCS_PUBLISHER) {
        Some(StorageChoice::Gcs)
    } else {
        None
    };
    let github = !dry_run && has_plugin(names, GITHUB_NOTIFIER);
    let slack = !dry_run && has_plugin(names, SLACK_NOTIFIER);
    PluginPlan { keygen, storage, github, slack }
}

// ----- configuration written by the wizard -----

/// The wizard's answers.
#[derive(Debug, Clone)]
pub struct BuildConfigParams {
    pub actual_dir: String,
    pub working_dir: String,
    pub keygen_idx: usize,
    pub expected_key: Option<String>,
    pub storage_idx: usize,
    pub s3_bucket: Option<String>,
    pub s3_region: Option<String>,
    pub s3_path_prefix: Option<String>,
    pub s3_endpoint: Option<String>,
    pub s3_acl: Option<String>,
    pub gcs_bucket: Option<String>,
    pub gcs_path_prefix: Option<String>,
    pub notifier_idxs: Vec<usize>,
    pub slack_webhook: Option<String>,
}

/// The entry `key` of an object holds the string `o`, or is absent when `o` is.
pub open spec fn optional_str(entries: Seq<(String, JsonValue)>, key: Seq<char>, o: Option<String>) -> bool {
    match o {
        Some(s) => lookup(entries, key) matches Some(v) && is_str(v, s@),
        None => lookup(entries, key) is None,
    }
}

/// The entry `key` holds the string `s`.
pub open spec fn str_entry(entries: Seq<(String, JsonValue)>, key: Seq<char>, s: Seq<char>) -> bool {
    lookup(entries, key) matches Some(v) && is_str(v, s)
}

/// The settings written for the S3 publisher.
pub open spec fn s3_settings(v: JsonValue, p: BuildConfigParams) -> bool {
    v matches JsonValue::Object(e) && {
        &&& str_entry(e@, "bucketName"@, p.s3_bucket->0@)
        &&& optional_str(e@, "region"@, p.s3_region)
        &&& optional_str(e@, "pathPrefix"@, p.s3_path_prefix)
        &&& optional_str(e@, "endpoint"@, p.s3_endpoint)
        &&& optional_str(e@, "acl"@, p.s3_acl)
        &&& forall|k: Seq<char>|
            #[trigger] keys_of(e@).contains(k) ==> k == "bucketName"@ || k == "region"@ || k == "pathPrefix"@
                || k == "endpoint"@ || k == "acl"@
    }
}

/// The settings written for the Google Cloud Storage publisher.
pub open spec fn gcs_settings(v: JsonValue, p: BuildConfigParams) -> bool {
    v matches JsonValue::Object(e) && {
        &&& str_entry(e@, "bucketName"@, p.gcs_bucket->0@)
        &&& optional_str(e@, "pathPrefix"@, p.gcs_path_prefix)
        &&& forall|k: Seq<char>| #[trigger] keys_of(e@).contains(k) ==> k == "bucketName"@ || k == "pathPrefix"@
    }
}

/// Whether the wizard's answers select the plugin `name`.
pub open spec fn selects(p: BuildConfigParams, name: Seq<char>) -> bool {
    if name == GIT_HASH_KEYGEN@ {
        p.keygen_idx == 0
    } else if name == SIMPLE_KEYGEN@ {
        p.keygen_idx == 1 && p.expected_key is Some
    } else if name == S3_PUBLISHER@ {
        p.storage_idx == 0 && p.s3_bucket is Some
    } else if name == GCS_PUBLISHER@ {
        p.storage_idx == 1 && p.gcs_bucket is Some
    } else if name == GITHUB_NOTIFIER@ {
        p.notifier_idxs@.contains(0)
    } else if name == SLACK_NOTIFIER@ {
        p.notifier_idxs@.contains(1) && p.slack_webhook is Some
    } else {
        false
    }
}

/// The plugin settings written for the wizard's answers: each selected
/// plugin (see `selects`) with its settings, and nothing else.
pub open spec fn plugins_written(entries: Seq<(String, JsonValue)>, p: BuildConfigParams) -> bool {
    &&& forall|k: Seq<char>| #[trigger] keys_of(entries).contains(k) ==> selects(p, k)
    &&& forall|k: Seq<char>| selects(p, k) ==> #[trigger] lookup(entries, k) is Some
    &&& selects(p, GIT_HASH_KEYGEN@) ==> is_empty_object(lookup(entries, GIT_HASH_KEYGEN@)->0)
    &&& selects(p, SIMPLE_KEYGEN@) ==> only_entry(lookup(entries, SIMPLE_KEYGEN@)->0, "expectedKey"@, p.expected_key->0@)
    &&& selects(p, S3_PUBLISHER@) ==> s3_settings(lookup(entries, S3_PUBLISHER@)->0, p)
    &&& selects(p, GCS_PUBLISHER@) ==> gcs_settings(lookup(entries, GCS_PUBLISHER@)->0, p)
    &&& selects(p, GITHUB_NOTIFIER@) ==> is_empty_object(lookup(entries, GITHUB_NOTIFIER@)->0)
    &&& selects(p, SLACK_NOTIFIER@) ==> only_entry(lookup(entries, SLACK_NOTIFIER@)->0, "webhookUrl"@, p.slack_webhook->0@)
}

/// An object holding only `key`, set to the string `value`.
pub open spec fn only_entry(v: JsonValue, key: Seq<char>, value: Seq<char>) -> bool {
    v matches JsonValue::Object(e) && str_entry(e@, key, value) && forall|k: Seq<char>|
        #[trigger] keys_of(e@).contains(k) ==> k == key
}

fn single_entry(key: &str, value: &String) -> (r: JsonValue)
    ensures
        only_entry(r, key@, value@),
{
    let mut e: Vec<(String, JsonValue)> = Vec::new();
    proof {
        assert(keys_of(e@) =~= Seq::<Seq<char>>::empty());
    }
    object_insert(&mut e, key, JsonValue::Str(value.clone()));
    JsonValue::Object(e)
}

fn empty_object() -> (r: JsonValue)
    ensures
        is_empty_object(r),
{
    JsonValue::Object(Vec::new())
}

/// The S3 publisher's settings from the wizard's answers.
fn s3_settings_value(p: &BuildConfigParams, bucket: &String) -> (r: JsonValue)
    requires
        p.s3_bucket == Some(*bucket),
    ensures
        s3_settings(r, *p),
{
    proof {
        reveal_strlit("bucketName");
        reveal_strlit("region");
        reveal_strlit("pathPrefix");
        reveal_strlit("endpoint");
        reveal_strlit("acl");
        assert("bucketName"@[0] == 'b' && "region"@[0] == 'r' && "pathPrefix"@[0] == 'p' && "endpoint"@[0] == 'e'
            && "acl"@[0] == 'a');
    }
    let mut e: Vec<(String, JsonValue)> = Vec::new();
    proof {
        assert(keys_of(e@) =~= Seq::<Seq<char>>::empty());
    }
    object_insert(&mut e, "bucketName", JsonValue::Str(bucket.clone()));
    match &p.s3_region {
        Some(r) => object_insert(&mut e, "region", JsonValue::Str(r.clone())),
        None => {},
    }
    match &p.s3_path_prefix {
        Some(v) => object_insert(&mut e, "pathPrefix", JsonValue::Str(v.clone())),
        None => {},
    }
    match &p.s3_endpoint {
        Some(v) => object_insert(&mut e, "endpoint", JsonValue::Str(v.clone())),
        None => {},
    }
    match &p.s3_acl {
        Some(v) => object_insert(&mut e, "acl", JsonValue::Str(v.clone())),
        None => {},
    }
    JsonValue::Object(e)
}

/// The Google Cloud Storage publisher's settings from the wizard's answers.
fn gcs_settings_value(p: &BuildConfigParams, bucket: &String) -> (r: JsonValue)
    requires
        p.gcs_bucket == Some(*bucket),
    ensures
        gcs_settings(r, *p),
{
    proof {
        reveal_strlit("bucketName");
        reveal_strlit("pathPrefix");
        assert("bucketName"@[0] == 'b' && "pathPrefix"@[0] == 'p');
    }
    let mut e: Vec<(String, JsonValue)> = Vec::new();
    proof {
        assert(keys_of(e@) =~= Seq::<Seq<char>>::empty());
    }
    object_insert(&mut e, "bucketName", JsonValue::Str(bucket.clone()));
    match &p.gcs_path_prefix {
        Some(v) => object_insert(&mut e, "pathPrefix", JsonValue::Str(v.clone())),
        None => {},
    }
    JsonValue::Object(e)
}

fn contains_index(v: &Vec<usize>, x: usize) -> (r: bool)
    ensures
        r == v@.contains(x),
{
    let mut i: usize = 0;
    while i < v.len()
        invariant
            i <= v@.len(),
            forall|j: int| 0 <= j < i ==> v@[j] != x,
        decreases v@.len() - i,
    {
        if v[i] == x {
            return true;
        }
        i = i + 1;
    }
    false
}

/// The configuration the wizard writes: the core directories, and the
/// plugins its answers select (see `plugins_written`).
pub fn build_config_json(p: BuildConfigParams) -> (r: JsonValue)
    ensures
        member(r, "core"@) matches Some(core) && (core matches JsonValue::Object(c) && str_entry(
            c@,
            "actualDir"@,
            p.actual_dir@,
        ) && str_entry(c@, "workingDir"@, p.working_dir@)),
        member(r, "plugins"@) matches Some(pl) && (pl matches JsonValue::Object(e) && plugins_written(e@, p)),
        r matches JsonValue::Object(t) && keys_of(t@).no_duplicates() && forall|k: Seq<char>|
            #[trigger] keys_of(t@).contains(k) ==> k == "core"@ || k == "plugins"@,
        member(r, "core"@) matches Some(core) && (core matches JsonValue::Object(c) && keys_of(c@).no_duplicates()
            && forall|k: Seq<char>| #[trigger] keys_of(c@).contains(k) ==> k == "actualDir"@ || k == "workingDir"@),
        member(r, "plugins"@) matches Some(pl) && (pl matches JsonValue::Object(e) && keys_of(e@).no_duplicates()),
{
    proof {
        lemma_plugin_names_distinct();
    }
    let mut plugins: Vec<(String, JsonValue)> = Vec::new();
    proof {
        assert(keys_of(plugins@) =~= Seq::<Seq<char>>::empty());
    }
    if p.keygen_idx == 0 {
        object_insert(&mut plugins, GIT_HASH_KEYGEN, empty_object());
    } else if p.keygen_idx == 1 {
        match &p.expected_key {
            Some(key) => object_insert(&mut plugins, SIMPLE_KEYGEN, single_entry("expectedKey", key)),
            None => {},
        }
    }
    if p.storage_idx == 0 {
        match &p.s3_bucket {
            Some(bucket) => object_insert(&mut plugins, S3_PUBLISHER, s3_settings_value(&p, bucket)),
            None => {},
        }
    } else if p.storage_idx == 1 {
        match &p.gcs_bucket {
            Some(bucket) => object_insert(&mut plugins, GCS_PUBLISHER, gcs_settings_value(&p, bucket)),
            None => {},
        }
    }
    if contains_index(&p.notifier_idxs, 0) {
        object_insert(&mut plugins, GITHUB_NOTIFIER, empty_object());
    }
    if contains_index(&p.notifier_idxs, 1) {
        match &p.slack_webhook {
            Some(url) => object_insert(&mut plugins, SLACK_NOTIFIER, single_entry("webhookUrl", url)),
            None => {},
        }
    }
    let mut core: Vec<(String, JsonValue)> = Vec::new();
    proof {
        assert(keys_of(core@) =~= Seq::<Seq<char>>::empty());
    }
    object_insert(&mut core, "actualDir", JsonValue::Str(p.actual_dir.clone()));
    object_insert(&mut core, "workingDir", JsonValue::Str(p.working_dir.clone()));
    proof {
        reveal_strlit("actualDir");
        reveal_strlit("workingDir");
        assert("actualDir"@[0] != "workingDir"@[0]);
    }
    let mut top: Vec<(String, JsonValue)> = Vec::new();
    proof {
        assert(keys_of(top@) =~= Seq::<Seq<char>>::empty());
    }
    object_insert(&mut top, "core", JsonValue::Object(core));
    object_insert(&mut top, "plugins", JsonValue::Object(plugins));
    proof {
        reveal_strlit("core");
        reveal_strlit("plugins");
        assert("core"@[0] != "plugins"@[0]);
    }
    JsonValue::Object(top)
}

} // verus!
