//! Configuration records, their defaults, and `$VAR` expansion in
//! configuration text.
use vstd::prelude::*;

use crate::text::{
    chars_of, owned, push_char, push_str, string_of,
};

verus! {

broadcast use vstd::string::group_string_axioms;

/// Errors raised while loading a configuration.
#[derive(Debug)]
pub enum ConfigError {
    /// The configuration file could not be read.
    Io(String),
    /// The configuration text is not valid JSON for the expected shape.
    Parse(String),
    /// A referenced environment variable is not set.
    EnvVar(String),
}

/// Settings of the in-browser image diff of the HTML report.
#[derive(Debug, Clone)]
pub struct XimgdiffConfig {
    pub enabled: Option<bool>,
}

/// Settings of the S3 publisher.
#[derive(Debug, Clone)]
pub struct S3PluginConfig {
    pub bucket_name: String,
    pub acl: Option<String>,
    pub sse: Option<bool>,
    pub sse_kms_key_id: Option<String>,
    pub path_prefix: Option<String>,
    pub endpoint: Option<String>,
    pub region: Option<String>,
}

/// Settings of the Google Cloud Storage publisher.
#[derive(Debug, Clone)]
pub struct GcsPluginConfig {
    pub bucket_name: String,
    pub path_prefix: Option<String>,
}

/// Settings of the GitHub notifier.
#[derive(Debug, Clone)]
pub struct GitHubNotifyConfig {
    pub client_id: Option<String>,
    pub owner: Option<String>,
    pub repository: Option<String>,
    pub pr_comment: bool,
    pub pr_comment_behavior: String,
    pub set_commit_status: bool,
}

/// Settings of the Slack notifier.
#[derive(Debug, Clone)]
pub struct SlackNotifyConfig {
    pub webhook_url: String,
}

/// Settings of the fixed-key generator.
#[derive(Debug, Clone)]
pub struct SimpleKeygenConfig {
    pub expected_key: String,
}

/// Default directory of the actual images.
pub fn default_actual_dir() -> (s: String)
    ensures
        s@ == "directory_contains_actual_images"@,
{
    owned("directory_contains_actual_images")
}

/// Default working directory.
pub fn default_working_dir() -> (s: String)
    ensures
        s@ == ".reg"@,
{
    owned(".reg")
}

/// Pull-request comments are on by default.
pub fn default_pr_comment() -> (b: bool)
    ensures
        b,
{
    true
}

/// Default pull-request comment behaviour: update the existing comment.
pub fn default_pr_comment_behavior() -> (s: String)
    ensures
        s@ == "default"@,
{
    owned("default")
}

/// Commit statuses are on by default.
pub fn default_set_commit_status() -> (b: bool)
    ensures
        b,
{
    true
}

impl Default for GitHubNotifyConfig {
    fn default() -> (r: Self)
        ensures
            r.client_id is None,
            r.owner is None,
            r.repository is None,
            r.pr_comment,
            r.pr_comment_behavior@ == "default"@,
            r.set_commit_status,
    {
        GitHubNotifyConfig {
            client_id: None,
            owner: None,
            repository: None,
            pr_comment: default_pr_comment(),
            pr_comment_behavior: default_pr_comment_behavior(),
            set_commit_status: default_set_commit_status(),
        }
    }
}

/// The number of images compared at once: the configured value, else 4.
pub fn effective_concurrency(concurrency: Option<u32>) -> (r: u32)
    ensures
        r == match concurrency {
            Some(c) => c,
            None => 4u32,
        },
{
    match concurrency {
        Some(c) => c,
        None => 4,
    }
}

// ----- environment expansion -----

/// Whether `c` may appear in an unbraced variable name.
pub open spec fn is_name_char(c: char) -> bool {
    ('a' <= c && c <= 'z') || ('A' <= c && c <= 'Z') || ('0' <= c && c <= '9') || c == '_'
}

/// The value of `name` in an environment listing, first match wins.
pub open spec fn env_lookup(env: Seq<(Seq<char>, Seq<char>)>, name: Seq<char>) -> Option<Seq<char>>
    decreases env.len(),
{
    if env.len() == 0 {
        None
    } else if env[0].0 == name {
        Some(env[0].1)
    } else {
        env_lookup(env.drop_first(), name)
    }
}

/// Length of the longest prefix of `s` made of name characters.
pub open spec fn name_len(s: Seq<char>) -> nat
    decreases s.len(),
{
    if s.len() > 0 && is_name_char(s[0]) {
        1 + name_len(s.drop_first())
    } else {
        0
    }
}

/// Index of the first `}` in `s`, if any.
pub open spec fn first_brace(s: Seq<char>) -> Option<nat>
    decreases s.len(),
{
    if s.len() == 0 {
        None
    } else if s[0] == '}' {
        Some(0)
    } else {
        match first_brace(s.drop_first()) {
            Some(k) => Some(k + 1),
            None => None,
        }
    }
}

/// Expansion of `s`: `$$` is a literal `$`; `${NAME}` (up to the first `}`)
/// and `$NAME` (a maximal run of ASCII letters, digits and `_`) become the
/// variable's value, and an unset variable is an error naming it; any other
/// character, including a `$` that starts none of these, is kept.
pub open spec fn expand_spec(s: Seq<char>, env: Seq<(Seq<char>, Seq<char>)>) -> Result<Seq<char>, Seq<char>>
    decreases s.len(),
{
    if s.len() == 0 {
        Ok(Seq::empty())
    } else if s[0] == '$' && s.len() > 1 && s[1] == '$' {
        match expand_spec(s.subrange(2, s.len() as int), env) {
            Ok(rest) => Ok(seq!['$'] + rest),
            Err(e) => Err(e),
        }
    } else if s[0] == '$' && s.len() > 1 && s[1] == '{' && first_brace(s.subrange(2, s.len() as int)) is Some {
        let end = first_brace(s.subrange(2, s.len() as int))->0 as int;
        let name = s.subrange(2, 2 + end);
        proof {
            lemma_first_brace(s.subrange(2, s.len() as int));
        }
        match env_lookup(env, name) {
            None => Err(name),
            Some(v) => match expand_spec(s.subrange(3 + end, s.len() as int), env) {
                Ok(rest) => Ok(v + rest),
                Err(e) => Err(e),
            },
        }
    } else if s[0] == '$' && s.len() > 1 && is_name_char(s[1]) {
        let n = name_len(s.drop_first()) as int;
        let name = s.subrange(1, 1 + n);
        proof {
            lemma_name_len_bound(s.drop_first());
        }
        match env_lookup(env, name) {
            None => Err(name),
            Some(v) => match expand_spec(s.subrange(1 + n, s.len() as int), env) {
                Ok(rest) => Ok(v + rest),
                Err(e) => Err(e),
            },
        }
    } else {
        match expand_spec(s.drop_first(), env) {
            Ok(rest) => Ok(seq![s[0]] + rest),
            Err(e) => Err(e),
        }
    }
}

/// The views of an environment listing.
pub open spec fn env_view(env: Seq<(String, String)>) -> Seq<(Seq<char>, Seq<char>)> {
    env.map_values(|p: (String, String)| (p.0@, p.1@))
}

/// `name_len(s)` counts the name characters that open `s`.
pub proof fn lemma_name_len_bound(s: Seq<char>)
    ensures
        name_len(s) <= s.len(),
        forall|i: int| 0 <= i < name_len(s) ==> is_name_char(#[trigger] s[i]),
        name_len(s) < s.len() ==> !is_name_char(s[name_len(s) as int]),
    decreases s.len(),
{
    if s.len() > 0 && is_name_char(s[0]) {
        lemma_name_len_bound(s.drop_first());
        assert forall|i: int| 0 <= i < name_len(s) implies is_name_char(#[trigger] s[i]) by {
            if i > 0 {
                assert(s[i] == s.drop_first()[i - 1]);
            }
        }
        if name_len(s) < s.len() {
            assert(s[name_len(s) as int] == s.drop_first()[name_len(s.drop_first()) as int]);
        }
    }
}

/// `first_brace(s)` is the place of the first `}` of `s`, if any.
pub proof fn lemma_first_brace(s: Seq<char>)
    ensures
        match first_brace(s) {
            Some(k) => k < s.len() && s[k as int] == '}' && forall|i: int| 0 <= i < k ==> s[i] != '}',
            None => forall|i: int| 0 <= i < s.len() ==> s[i] != '}',
        },
    decreases s.len(),
{
    if s.len() > 0 && s[0] != '}' {
        lemma_first_brace(s.drop_first());
        match first_brace(s.drop_first()) {
            Some(k) => {
                assert forall|i: int| 0 <= i < k + 1 implies s[i] != '}' by {
                    if i > 0 {
                        assert(s[i] == s.drop_first()[i - 1]);
                    }
                }
            },
            None => {
                assert forall|i: int| 0 <= i < s.len() implies s[i] != '}' by {
                    if i > 0 {
                        assert(s[i] == s.drop_first()[i - 1]);
                    }
                }
            },
        }
    }
}

/// Looks up `name` in an environment listing.
fn lookup_env(env: &Vec<(String, String)>, name: &String) -> (r: Option<String>)
    ensures
        match r {
            Some(v) => env_lookup(env_view(env@), name@) == Some(v@),
            None => env_lookup(env_view(env@), name@) is None,
        },
{
    let mut i: usize = 0;
    proof {
        assert(env_view(env@).subrange(0, env@.len() as int) =~= env_view(env@));
    }
    while i < env.len()
        invariant
            i <= env@.len(),
            env_lookup(env_view(env@), name@) == env_lookup(env_view(env@).subrange(i as int, env@.len() as int), name@),
        decreases env@.len() - i,
    {
        let ghost rest = env_view(env@).subrange(i as int, env@.len() as int);
        proof {
            assert(rest.drop_first() =~= env_view(env@).subrange(i + 1, env@.len() as int));
            assert(rest[0] == (env@[i as int].0@, env@[i as int].1@));
        }
        if env[i].0 == *name {
            return Some(env[i].1.clone());
        }
        i = i + 1;
    }
    proof {
        assert(env_view(env@).subrange(i as int, env@.len() as int).len() == 0);
    }
    None
}

/// Whether `c` may appear in an unbraced variable name.
fn name_char(c: char) -> (r: bool)
    ensures
        r == is_name_char(c),
{
    ('a' <= c && c <= 'z') || ('A' <= c && c <= 'Z') || ('0' <= c && c <= '9') || c == '_'
}

/// Length of the name that starts at `start`.
fn scan_name(chars: &Vec<char>, start: usize) -> (end: usize)
    requires
        start <= chars@.len(),
    ensures
        end == start + name_len(chars@.subrange(start as int, chars@.len() as int)),
        start <= end <= chars@.len(),
{
    let mut end = start;
    proof {
        lemma_name_len_bound(chars@.subrange(start as int, chars@.len() as int));
    }
    while end < chars.len() && name_char(chars[end])
        invariant
            start <= end <= chars@.len(),
            forall|i: int| start <= i < end ==> is_name_char(#[trigger] chars@[i]),
        decreases chars@.len() - end,
    {
        end = end + 1;
    }
    proof {
        lemma_name_run(chars@.subrange(start as int, chars@.len() as int), (end - start) as nat);
    }
    end
}

proof fn lemma_name_run(s: Seq<char>, n: nat)
    requires
        n <= s.len(),
        forall|i: int| 0 <= i < n ==> is_name_char(#[trigger] s[i]),
        n < s.len() ==> !is_name_char(s[n as int]),
    ensures
        name_len(s) == n,
    decreases n,
{
    if n > 0 {
        assert(is_name_char(s[0]));
        assert forall|i: int| 0 <= i < n - 1 implies is_name_char(#[trigger] s.drop_first()[i]) by {
            assert(s.drop_first()[i] == s[i + 1]);
        }
        if n - 1 < s.drop_first().len() {
            assert(s.drop_first()[n - 1] == s[n as int]);
        }
        lemma_name_run(s.drop_first(), (n - 1) as nat);
    }
}

/// Position of the first `}` at or after `start`.
fn scan_brace(chars: &Vec<char>, start: usize) -> (r: Option<usize>)
    requires
        start <= chars@.len(),
    ensures
        match first_brace(chars@.subrange(start as int, chars@.len() as int)) {
            Some(k) => r matches Some(j) && j == start + k,
            None => r is None,
        },
        r matches Some(j) ==> start <= j < chars@.len(),
{
    let ghost s = chars@.subrange(start as int, chars@.len() as int);
    proof {
        lemma_first_brace(s);
    }
    let mut i = start;
    while i < chars.len()
        invariant
            start <= i <= chars@.len(),
            s == chars@.subrange(start as int, chars@.len() as int),
            forall|j: int| start <= j < i ==> chars@[j] != '}',
            match first_brace(s) {
                Some(k) => k < s.len() && s[k as int] == '}' && forall|j: int| 0 <= j < k ==> s[j] != '}',
                None => forall|j: int| 0 <= j < s.len() ==> s[j] != '}',
            },
        decreases chars@.len() - i,
    {
        if chars[i] == '}' {
            proof {
                match first_brace(s) {
                    Some(k) => {
                        if k < i - start {
                            assert(s[k as int] == chars@[start + k]);
                        } else if k > i - start {
                            assert(s[i - start] == chars@[i as int]);
                        }
                    },
                    None => {
                        assert(s[i - start] == chars@[i as int]);
                    },
                }
            }
            return Some(i);
        }
        i = i + 1;
    }
    proof {
        match first_brace(s) {
            Some(k) => {
                assert(s[k as int] == chars@[start + k]);
            },
            None => {},
        }
    }
    None
}

/// What remains to be expanded from position `i` of `full`, given the
/// expansion `result` of what precedes it.
spec fn expansion_progress(
    full: Seq<char>,
    env: Seq<(Seq<char>, Seq<char>)>,
    i: int,
    result: Seq<char>,
) -> bool {
    match expand_spec(full, env) {
        Ok(s) => match expand_spec(full.subrange(i, full.len() as int), env) {
            Ok(rest) => s == result + rest,
            Err(_) => false,
        },
        Err(name) => expand_spec(full.subrange(i, full.len() as int), env) == Err::<Seq<char>, Seq<char>>(name),
    }
}

proof fn lemma_progress_step(
    full: Seq<char>,
    env: Seq<(Seq<char>, Seq<char>)>,
    i: int,
    j: int,
    result: Seq<char>,
    piece: Seq<char>,
)
    requires
        0 <= i <= j <= full.len(),
        expansion_progress(full, env, i, result),
        expand_spec(full.subrange(i, full.len() as int), env) == match expand_spec(
            full.subrange(j, full.len() as int),
            env,
        ) {
            Ok(r) => Ok(piece + r),
            Err(e) => Err::<Seq<char>, Seq<char>>(e),
        },
    ensures
        expansion_progress(full, env, j, result + piece),
{
    match expand_spec(full.subrange(j, full.len() as int), env) {
        Ok(r) => {
            assert(result + (piece + r) =~= (result + piece) + r);
        },
        Err(_) => {},
    }
}

proof fn lemma_progress_error(
    full: Seq<char>,
    env: Seq<(Seq<char>, Seq<char>)>,
    i: int,
    result: Seq<char>,
    name: Seq<char>,
)
    requires
        0 <= i <= full.len(),
        expansion_progress(full, env, i, result),
        expand_spec(full.subrange(i, full.len() as int), env) == Err::<Seq<char>, Seq<char>>(name),
    ensures
        expand_spec(full, env) == Err::<Seq<char>, Seq<char>>(name),
{
}

proof fn lemma_expand_braced(s: Seq<char>, env: Seq<(Seq<char>, Seq<char>)>, k: nat)
    requires
        s.len() > 1,
        s[0] == '$',
        s[1] == '{',
        first_brace(s.subrange(2, s.len() as int)) == Some(k),
    ensures
        expand_spec(s, env) == match env_lookup(env, s.subrange(2, 2 + k as int)) {
            None => Err(s.subrange(2, 2 + k as int)),
            Some(v) => match expand_spec(s.subrange(3 + k as int, s.len() as int), env) {
                Ok(rest) => Ok(v + rest),
                Err(e) => Err::<Seq<char>, Seq<char>>(e),
            },
        },
{
}

proof fn lemma_expand_named(s: Seq<char>, env: Seq<(Seq<char>, Seq<char>)>)
    requires
        s.len() > 1,
        s[0] == '$',
        is_name_char(s[1]),
    ensures
        expand_spec(s, env) == match env_lookup(env, s.subrange(1, 1 + name_len(s.drop_first()) as int)) {
            None => Err(s.subrange(1, 1 + name_len(s.drop_first()) as int)),
            Some(v) => match expand_spec(s.subrange(1 + name_len(s.drop_first()) as int, s.len() as int), env) {
                Ok(rest) => Ok(v + rest),
                Err(e) => Err::<Seq<char>, Seq<char>>(e),
            },
        },
{
    assert(s[1] != '$' && s[1] != '{');
}

/// Expands `${VAR}`, `$VAR` and `$$` in `input`, looking variables up in
/// `env` (name and value pairs, first match wins).
pub fn expand_env_vars(input: &str, env: &Vec<(String, String)>) -> (r: Result<String, ConfigError>)
    ensures
        match expand_spec(input@, env_view(env@)) {
            Ok(s) => r matches Ok(out) && out@ == s,
            Err(name) => r matches Err(ConfigError::EnvVar(n)) && n@ == name,
        },
{
    let chars = chars_of(input);
    let mut result = String::new();
    let mut i: usize = 0;
    let ghost full = input@;
    let ghost ev = env_view(env@);
    proof {
        assert(full.subrange(0, full.len() as int) =~= full);
        assert(result@ =~= Seq::<char>::empty());
        match expand_spec(full, ev) {
            Ok(s) => {
                assert(result@ + s =~= s);
            },
            Err(_) => {},
        }
    }
    while i < chars.len()
        invariant
            chars@ == full,
            full == input@,
            ev == env_view(env@),
            i <= chars@.len(),
            expansion_progress(full, ev, i as int, result@),
        decreases chars@.len() - i,
    {
        let ghost rest = full.subrange(i as int, full.len() as int);
        let ghost before = result@;
        let c = chars[i];
        if c == '$' && i + 1 < chars.len() && chars[i + 1] == '$' {
            push_char(&mut result, '$');
            proof {
                assert(rest.subrange(2, rest.len() as int) =~= full.subrange(i + 2, full.len() as int));
                assert(rest[0] == '$' && rest[1] == '$');
                lemma_progress_step(full, ev, i as int, i + 2, before, seq!['$']);
                assert(result@ == before + seq!['$']);
            }
            i = i + 2;
        } else if c == '$' && i + 1 < chars.len() && chars[i + 1] == '{' && scan_brace(&chars, i + 2).is_some() {
            let found = scan_brace(&chars, i + 2);
            let close = found.unwrap();
            let name_chars = slice_chars(&chars, i + 2, close);
            let name = string_of(name_chars.as_slice());
            let ghost k = (close - i - 2) as nat;
            proof {
                assert(rest.subrange(2, rest.len() as int) =~= full.subrange(i + 2, full.len() as int));
                assert(rest[0] == '$' && rest[1] == '{');
                assert(rest.subrange(2, 2 + k as int) =~= full.subrange(i + 2, close as int));
                assert(rest.subrange(3 + k as int, rest.len() as int) =~= full.subrange(close + 1, full.len() as int));
                assert(first_brace(full.subrange(i + 2, full.len() as int)) == Some(k));
                lemma_expand_braced(rest, ev, k);
            }
            match lookup_env(env, &name) {
                None => {
                    proof {
                        lemma_progress_error(full, ev, i as int, before, name@);
                    }
                    return Err(ConfigError::EnvVar(name));
                },
                Some(value) => {
                    push_str(&mut result, value.as_str());
                    proof {
                        lemma_progress_step(full, ev, i as int, close + 1, before, value@);
                    }
                    i = close + 1;
                },
            }
        } else if c == '$' && i + 1 < chars.len() && name_char(chars[i + 1]) {
            let end = scan_name(&chars, i + 1);
            let name_chars = slice_chars(&chars, i + 1, end);
            let name = string_of(name_chars.as_slice());
            proof {
                assert(rest.drop_first() =~= full.subrange(i + 1, full.len() as int));
                assert(rest[0] == '$');
                assert(rest[1] == chars@[i + 1]);
                assert(rest.subrange(1, 1 + (end - i - 1)) =~= full.subrange(i + 1, end as int));
                assert(rest.subrange(1 + (end - i - 1), rest.len() as int) =~= full.subrange(end as int, full.len() as int));
                lemma_expand_named(rest, ev);
            }
            match lookup_env(env, &name) {
                None => {
                    proof {
                        lemma_progress_error(full, ev, i as int, before, name@);
                    }
                    return Err(ConfigError::EnvVar(name));
                },
                Some(value) => {
                    push_str(&mut result, value.as_str());
                    proof {
                        lemma_progress_step(full, ev, i as int, end as int, before, value@);
                    }
                    i = end;
                },
            }
        } else {
            push_char(&mut result, c);
            proof {
                assert(rest.drop_first() =~= full.subrange(i + 1, full.len() as int));
                assert(rest[0] == c);
                if c == '$' && i + 1 < chars@.len() {
                    assert(rest[1] == chars@[i + 1]);
                    assert(rest.subrange(2, rest.len() as int) =~= full.subrange(i + 2, full.len() as int));
                }
                lemma_progress_step(full, ev, i as int, i + 1, before, seq![c]);
                assert(result@ == before + seq![c]);
            }
            i = i + 1;
        }
    }
    proof {
        assert(full.subrange(i as int, full.len() as int) =~= Seq::<char>::empty());
        assert(result@ + Seq::<char>::empty() =~= result@);
    }
    Ok(result)
}

/// The characters `chars[from..to]`.
fn slice_chars(chars: &Vec<char>, from: usize, to: usize) -> (v: Vec<char>)
    requires
        from <= to <= chars@.len(),
    ensures
        v@ == chars@.subrange(from as int, to as int),
{
    let mut v: Vec<char> = Vec::new();
    let mut i = from;
    while i < to
        invariant
            from <= i <= to <= chars@.len(),
            v@ == chars@.subrange(from as int, i as int),
        decreases to - i,
    {
        v.push(chars[i]);
        proof {
            assert(chars@.subrange(from as int, i + 1) =~= chars@.subrange(from as int, i as int).push(chars@[i as int]));
        }
        i = i + 1;
    }
    v
}


// ----- laws -----

/// Text without `$` expands to itself, whatever the environment.
pub proof fn lemma_expand_without_dollar(s: Seq<char>, env: Seq<(Seq<char>, Seq<char>)>)
    requires
        !s.contains('$'),
    ensures
        expand_spec(s, env) == Ok::<Seq<char>, Seq<char>>(s),
    decreases s.len(),
{
    if s.len() > 0 {
        assert(s[0] != '$');
        assert(!s.drop_first().contains('$')) by {
            assert forall|i: int| 0 <= i < s.drop_first().len() implies s.drop_first()[i] != '$' by {
                assert(s.drop_first()[i] == s[i + 1]);
            }
        }
        lemma_expand_without_dollar(s.drop_first(), env);
        assert(seq![s[0]] + s.drop_first() =~= s);
        assert(expand_spec(s, env) == Ok::<Seq<char>, Seq<char>>(seq![s[0]] + s.drop_first()));
    } else {
        assert(s =~= Seq::<char>::empty());
    }
}

/// `$$` stands for a literal `$`: it expands to `$` followed by the
/// expansion of the rest.
pub proof fn lemma_expand_escaped_dollar(s: Seq<char>, env: Seq<(Seq<char>, Seq<char>)>)
    ensures
        expand_spec(seq!['$', '$'] + s, env) == match expand_spec(s, env) {
            Ok(r) => Ok(seq!['$'] + r),
            Err(e) => Err::<Seq<char>, Seq<char>>(e),
        },
{
    let t = seq!['$', '$'] + s;
    assert(t.subrange(2, t.len() as int) =~= s);
}

/// A set variable written as `${NAME}` expands to its value.
pub proof fn lemma_expand_braced_variable(name: Seq<char>, value: Seq<char>, env: Seq<(Seq<char>, Seq<char>)>)
    requires
        !name.contains('}'),
        env_lookup(env, name) == Some(value),
    ensures
        expand_spec(seq!['$', '{'] + name + seq!['}'], env) == Ok::<Seq<char>, Seq<char>>(value),
{
    let t = seq!['$', '{'] + name + seq!['}'];
    let inner = t.subrange(2, t.len() as int);
    assert(inner =~= name + seq!['}']);
    lemma_first_brace(inner);
    assert(inner[name.len() as int] == '}');
    match first_brace(inner) {
        Some(k) => {
            if k < name.len() {
                assert(inner[k as int] == name[k as int]);
            }
            assert(k == name.len());
        },
        None => {},
    }
    assert(t.subrange(2, 2 + name.len() as int) =~= name);
    assert(t.subrange(3 + name.len() as int, t.len() as int) =~= Seq::<char>::empty());
    assert(expand_spec(Seq::<char>::empty(), env) == Ok::<Seq<char>, Seq<char>>(Seq::empty()));
    assert(value + Seq::<char>::empty() =~= value);
    assert(t[0] == '$' && t[1] == '{' && t.len() > 1);
    assert(t[1] != '$');
}

} // verus!
