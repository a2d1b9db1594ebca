//! Release preparation: the next version number, the bump implied by the
//! commit messages, the changelog merge, the package manifests, and the
//! order in which workspace crates are published.
use vstd::prelude::*;

use crate::json::{is_str, keys_of, lookup, member, object_insert, JsonValue};
use crate::text::{
    chars_of, contains_chars, contains_seq, decimal, find_seq, lemma_decimal_has_no, lemma_parse_decimal,
    lemma_split_join, lemma_split_nonempty, lemma_split_single, occurs_at, owned, parse_u64, parse_u64_spec,
    push_decimal, push_str, same_text, split_chars, split_on, string_of, strings_view,
};

verus! {

broadcast use vstd::string::group_string_axioms;

/// Which part of a version number goes up.
#[derive(Debug, Clone, Copy, PartialEq, Eq, Structural)]
pub enum BumpType {
    Major,
    Minor,
    Patch,
}

// ----- version numbers -----

/// The three numbers of a version `x.y.z`, if it is one.
pub open spec fn semver_parts(v: Seq<char>) -> Option<(u64, u64, u64)> {
    let parts = split_on(v, '.');
    if parts.len() == 3 && parse_u64_spec(parts[0]) is Some && parse_u64_spec(parts[1]) is Some
        && parse_u64_spec(parts[2]) is Some {
        Some((parse_u64_spec(parts[0])->0, parse_u64_spec(parts[1])->0, parse_u64_spec(parts[2])->0))
    } else {
        None
    }
}

/// The version after `(major, minor, patch)` for a bump.
pub open spec fn bumped(major: u64, minor: u64, patch: u64, bump: BumpType) -> Seq<char> {
    match bump {
        BumpType::Major => decimal((major + 1) as nat) + ".0.0"@,
        BumpType::Minor => decimal(major as nat) + seq!['.'] + decimal((minor + 1) as nat) + ".0"@,
        BumpType::Patch => decimal(major as nat) + seq!['.'] + decimal(minor as nat) + seq!['.'] + decimal(
            (patch + 1) as nat,
        ),
    }
}

/// Whether the bumped number of `v` still fits in 64 bits.
pub open spec fn bump_fits(v: Seq<char>, bump: BumpType) -> bool {
    match semver_parts(v) {
        Some((a, b, c)) => match bump {
            BumpType::Major => a < u64::MAX,
            BumpType::Minor => b < u64::MAX,
            BumpType::Patch => c < u64::MAX,
        },
        None => false,
    }
}

/// The version after `current` (`x.y.z`, each part a decimal number): a
/// major bump gives `x+1.0.0`, a minor one `x.y+1.0`, a patch `x.y.z+1`.
pub fn bump_version(current: &str, bump: BumpType) -> (r: String)
    requires
        semver_parts(current@) is Some,
        bump_fits(current@, bump),
    ensures
        ({
            let (a, b, c) = semver_parts(current@)->0;
            r@ == bumped(a, b, c, bump)
        }),
{
    let chars = chars_of(current);
    let parts = split_chars(&chars, '.');
    proof {
        lemma_split_nonempty(current@, '.');
        assert(parts@.map_values(|p: Vec<char>| p@)[0] == parts@[0]@);
        assert(parts@.map_values(|p: Vec<char>| p@)[1] == parts@[1]@);
        assert(parts@.map_values(|p: Vec<char>| p@)[2] == parts@[2]@);
    }
    let major = parse_u64(parts[0].as_slice()).unwrap();
    let minor = parse_u64(parts[1].as_slice()).unwrap();
    let patch = parse_u64(parts[2].as_slice()).unwrap();
    let mut r = String::new();
    match bump {
        BumpType::Major => {
            push_decimal(&mut r, major + 1);
            push_str(&mut r, ".0.0");
        },
        BumpType::Minor => {
            push_decimal(&mut r, major);
            push_str(&mut r, ".");
            push_decimal(&mut r, minor + 1);
            push_str(&mut r, ".0");
        },
        BumpType::Patch => {
            push_decimal(&mut r, major);
            push_str(&mut r, ".");
            push_decimal(&mut r, minor);
            push_str(&mut r, ".");
            push_decimal(&mut r, patch + 1);
        },
    }
    proof {
        reveal_strlit(".");
        assert(r@ =~= bumped(major, minor, patch, bump));
    }
    r
}

// ----- bump from commit messages -----

/// Index of the first `c` in `s`.
pub open spec fn first_index_of(s: Seq<char>, c: char) -> Option<int>
    decreases s.len(),
{
    if s.len() == 0 {
        None
    } else if s[0] == c {
        Some(0)
    } else {
        match first_index_of(s.drop_first(), c) {
            Some(i) => Some(i + 1),
            None => None,
        }
    }
}

/// A commit message that announces a breaking change: it mentions
/// `BREAKING CHANGE` or `BREAKING-CHANGE`, or its type (the text before its
/// first `:`) carries a `!`.
pub open spec fn is_breaking(m: Seq<char>) -> bool {
    contains_seq(m, "BREAKING CHANGE"@) || contains_seq(m, "BREAKING-CHANGE"@) || match first_index_of(
        m,
        ':',
    ) {
        Some(i) => m.subrange(0, i).contains('!'),
        None => false,
    }
}

/// A commit message of a feature: it starts with `feat`.
pub open spec fn is_feature(m: Seq<char>) -> bool {
    m.len() >= 4 && m.subrange(0, 4) == "feat"@
}

/// The bump implied by commit messages: major on any breaking change, else
/// minor on any feature, else patch.
pub open spec fn bump_of(msgs: Seq<Seq<char>>) -> BumpType {
    if exists|i: int| 0 <= i < msgs.len() && is_breaking(#[trigger] msgs[i]) {
        BumpType::Major
    } else if exists|i: int| 0 <= i < msgs.len() && is_feature(#[trigger] msgs[i]) {
        BumpType::Minor
    } else {
        BumpType::Patch
    }
}

proof fn lemma_first_index(s: Seq<char>, c: char)
    ensures
        match first_index_of(s, c) {
            Some(i) => 0 <= i < s.len() && s[i] == c && forall|j: int| 0 <= j < i ==> s[j] != c,
            None => forall|j: int| 0 <= j < s.len() ==> s[j] != c,
        },
    decreases s.len(),
{
    if s.len() > 0 && s[0] != c {
        lemma_first_index(s.drop_first(), c);
        assert forall|j: int| 1 <= j < s.len() implies s[j] == s.drop_first()[j - 1] by {}
    }
}

fn first_colon(m: &Vec<char>) -> (r: Option<usize>)
    ensures
        match first_index_of(m@, ':') {
            Some(i) => r == Some(i as usize),
            None => r is None,
        },
{
    proof {
        lemma_first_index(m@, ':');
    }
    let mut i: usize = 0;
    while i < m.len()
        invariant
            i <= m@.len(),
            forall|j: int| 0 <= j < i ==> m@[j] != ':',
            match first_index_of(m@, ':') {
                Some(k) => 0 <= k < m@.len() && m@[k] == ':' && forall|j: int| 0 <= j < k ==> m@[j] != ':',
                None => forall|j: int| 0 <= j < m@.len() ==> m@[j] != ':',
            },
        decreases m@.len() - i,
    {
        if m[i] == ':' {
            return Some(i);
        }
        i = i + 1;
    }
    None
}

fn breaking_message(m: &str) -> (r: bool)
    ensures
        r == is_breaking(m@),
{
    let chars = chars_of(m);
    let p1 = chars_of("BREAKING CHANGE");
    let p2 = chars_of("BREAKING-CHANGE");
    if contains_chars(chars.as_slice(), p1.as_slice()) || contains_chars(chars.as_slice(), p2.as_slice()) {
        return true;
    }
    proof {
        lemma_first_index(m@, ':');
    }
    match first_colon(&chars) {
        Some(c) => {
            let mut k: usize = 0;
            while k < c
                invariant
                    chars@ == m@,
                    c < chars@.len(),
                    first_index_of(m@, ':') == Some(c as int),
                    k <= c,
                    forall|j: int| 0 <= j < k ==> chars@[j] != '!',
                decreases c - k,
            {
                if chars[k] == '!' {
                    proof {
                        assert(chars@.subrange(0, c as int)[k as int] == '!');
                    }
                    return true;
                }
                k = k + 1;
            }
            proof {
                assert(!chars@.subrange(0, c as int).contains('!')) by {
                    assert forall|j: int| 0 <= j < c implies chars@.subrange(0, c as int)[j] != '!' by {}
                }
            }
            false
        },
        None => false,
    }
}

fn feature_message(m: &str) -> (r: bool)
    ensures
        r == is_feature(m@),
{
    let chars = chars_of(m);
    let pat = chars_of("feat");
    proof {
        reveal_strlit("feat");
    }
    let r = crate::text::matches_at(chars.as_slice(), pat.as_slice(), 0);
    proof {
        if r {
            assert(chars@.subrange(0, 4) == pat@);
        } else if chars@.len() >= 4 {
            assert(chars@.subrange(0, pat@.len() as int) != pat@);
        }
    }
    r
}

/// The bump implied by the commit messages since the last release.
pub fn detect_bump_from_commits(messages: &Vec<String>) -> (r: BumpType)
    ensures
        r == bump_of(strings_view(messages@)),
{
    let ghost msgs = strings_view(messages@);
    let mut has_feat = false;
    let mut i: usize = 0;
    while i < messages.len()
        invariant
            msgs == strings_view(messages@),
            i <= messages@.len(),
            forall|j: int| 0 <= j < i ==> !is_breaking(#[trigger] msgs[j]),
            has_feat == exists|j: int| 0 <= j < i && is_feature(#[trigger] msgs[j]),
        decreases messages@.len() - i,
    {
        proof {
            assert(msgs[i as int] == messages@[i as int]@);
        }
        if breaking_message(messages[i].as_str()) {
            return BumpType::Major;
        }
        if feature_message(messages[i].as_str()) {
            has_feat = true;
        }
        i = i + 1;
    }
    if has_feat {
        BumpType::Minor
    } else {
        BumpType::Patch
    }
}

// ----- changelog -----

/// The heading of a new changelog.
pub const CHANGELOG_HEADER: &'static str = "# Changelog\n\nAll notable changes to this project will be documented in this file.\n\n";

/// The changelog with `entry` added: after the header of a new changelog;
/// before the first `## ` section (right after the line break that starts
/// it) of an existing one; else appended after a line break.
pub open spec fn merged_changelog(existing: Seq<char>, entry: Seq<char>) -> Seq<char> {
    if existing.len() == 0 {
        CHANGELOG_HEADER@ + entry
    } else if contains_seq(existing, "\n## "@) {
        let pos = choose|p: int| occurs_at(existing, "\n## "@, p) && forall|q: int| 0 <= q < p ==> !occurs_at(existing, "\n## "@, q);
        existing.subrange(0, pos + 1) + entry + seq!['\n'] + existing.subrange(pos + 1, existing.len() as int)
    } else {
        existing + seq!['\n'] + entry
    }
}

fn chars_between(v: &Vec<char>, from: usize, to: usize) -> (r: Vec<char>)
    requires
        from <= to <= v@.len(),
    ensures
        r@ == v@.subrange(from as int, to as int),
{
    let mut r: Vec<char> = Vec::new();
    let mut i = from;
    while i < to
        invariant
            from <= i <= to <= v@.len(),
            r@ == v@.subrange(from as int, i as int),
        decreases to - i,
    {
        r.push(v[i]);
        proof {
            assert(v@.subrange(from as int, i + 1) =~= v@.subrange(from as int, i as int).push(v@[i as int]));
        }
        i = i + 1;
    }
    r
}

/// The new changelog text (see `merged_changelog`).
pub fn merge_changelog(existing: &str, entry: &str) -> (r: String)
    ensures
        r@ == merged_changelog(existing@, entry@),
{
    let chars = chars_of(existing);
    if chars.len() == 0 {
        let mut r = owned(CHANGELOG_HEADER);
        push_str(&mut r, entry);
        return r;
    }
    let pat = chars_of("\n## ");
    match find_seq(chars.as_slice(), pat.as_slice()) {
        Some(pos) => {
            proof {
                reveal_strlit("\n## ");
                assert(occurs_at(existing@, "\n## "@, pos as int));
                assert(contains_seq(existing@, "\n## "@));
                let p = choose|p: int| occurs_at(existing@, "\n## "@, p) && forall|q: int| 0 <= q < p ==> !occurs_at(existing@, "\n## "@, q);
                assert(p == pos as int) by {
                    if p < pos {
                    } else if p > pos {
                    }
                }
            }
            let before = chars_between(&chars, 0, pos + 1);
            let after = chars_between(&chars, pos + 1, chars.len());
            let mut r = string_of(before.as_slice());
            push_str(&mut r, entry);
            crate::text::push_char(&mut r, '\n');
            let tail = string_of(after.as_slice());
            push_str(&mut r, tail.as_str());
            r
        },
        None => {
            let mut r = owned(existing);
            crate::text::push_char(&mut r, '\n');
            push_str(&mut r, entry);
            r
        },
    }
}


// ----- publish order -----

/// Every dependency names one of the `n` packages.
pub open spec fn valid_graph(n: nat, deps: Seq<Seq<usize>>) -> bool {
    deps.len() == n && forall|i: int, k: int| 0 <= i < n && 0 <= k < deps[i].len() ==> deps[i][k] < n
}

/// The dependency lists as sequences.
pub open spec fn deps_view(deps: Seq<Vec<usize>>) -> Seq<Seq<usize>> {
    deps.map_values(|d: Vec<usize>| d@)
}

/// Package `p` occurs in `order`.
pub open spec fn appears(order: Seq<usize>, p: int) -> bool {
    exists|i: int| 0 <= i < order.len() && order[i] == p
}

/// `order` lists each of the `n` packages exactly once, each after all of
/// its dependencies.
pub open spec fn is_publish_order(n: nat, deps: Seq<Seq<usize>>, order: Seq<usize>) -> bool {
    &&& forall|i: int| 0 <= i < order.len() ==> order[i] < n
    &&& forall|i: int, j: int| 0 <= i < j < order.len() ==> order[i] != order[j]
    &&& forall|p: int| 0 <= p < n ==> #[trigger] appears(order, p)
    &&& forall|i: int, k: int|
        0 <= i < order.len() && 0 <= k < deps[order[i] as int].len() ==> #[trigger] published_before(
            deps,
            order,
            i,
            k,
        )
}

/// The `k`-th dependency of the `i`-th package of `order` comes before it.
pub open spec fn published_before(deps: Seq<Seq<usize>>, order: Seq<usize>, i: int, k: int) -> bool {
    exists|j: int| 0 <= j < i && order[j] == deps[order[i] as int][k]
}

/// A non-empty set of packages each of which depends on one in the set: a
/// dependency cycle, or packages that wait on one.
pub open spec fn is_stuck_set(n: nat, deps: Seq<Seq<usize>>, s: Seq<bool>) -> bool {
    &&& s.len() == n
    &&& exists|p: int| 0 <= p < n && s[p]
    &&& forall|p: int|
        0 <= p < n && s[p] ==> exists|k: int| 0 <= k < deps[p].len() && s[deps[p][k] as int]
}

/// Every package of a publish order is outside any stuck set.
proof fn lemma_order_prefix_free(n: nat, deps: Seq<Seq<usize>>, order: Seq<usize>, s: Seq<bool>, i: int)
    requires
        valid_graph(n, deps),
        is_publish_order(n, deps, order),
        s.len() == n,
        forall|p: int|
            0 <= p < n && s[p] ==> exists|k: int| 0 <= k < deps[p].len() && s[deps[p][k] as int],
        0 <= i < order.len(),
    ensures
        !s[order[i] as int],
    decreases i,
{
    let p = order[i] as int;
    if s[p] {
        let k = choose|k: int| 0 <= k < deps[p].len() && s[deps[p][k] as int];
        assert(published_before(deps, order, i, k));
        let j = choose|j: int| 0 <= j < i && order[j] == deps[order[i] as int][k];
        lemma_order_prefix_free(n, deps, order, s, j);
    }
}

/// A publish order exists only when no stuck set does: the packages can be
/// ordered exactly when there is no circular dependency.
pub proof fn lemma_publish_order_excludes_stuck_set(n: nat, deps: Seq<Seq<usize>>, order: Seq<usize>, s: Seq<bool>)
    requires
        valid_graph(n, deps),
        is_publish_order(n, deps, order),
    ensures
        !is_stuck_set(n, deps, s),
{
    if is_stuck_set(n, deps, s) {
        let p = choose|p: int| 0 <= p < n && s[p];
        assert(appears(order, p));
        let i = choose|i: int| 0 <= i < order.len() && order[i] == p;
        lemma_order_prefix_free(n, deps, order, s, i);
    }
}

/// Strict lexicographic order of names, by character.
pub open spec fn name_before(a: Seq<char>, b: Seq<char>) -> bool
    decreases a.len(),
{
    if b.len() == 0 {
        false
    } else if a.len() == 0 {
        true
    } else if a[0] != b[0] {
        (a[0] as u32) < (b[0] as u32)
    } else {
        name_before(a.drop_first(), b.drop_first())
    }
}

/// No name comes before itself.
proof fn lemma_name_before_irreflexive(a: Seq<char>)
    ensures
        !name_before(a, a),
    decreases a.len(),
{
    if a.len() > 0 {
        lemma_name_before_irreflexive(a.drop_first());
    }
}

/// Name order is transitive.
proof fn lemma_name_before_transitive(a: Seq<char>, b: Seq<char>, c: Seq<char>)
    requires
        name_before(a, b),
        name_before(b, c),
    ensures
        name_before(a, c),
    decreases a.len(),
{
    if a.len() > 0 && b.len() > 0 && c.len() > 0 && a[0] == b[0] && b[0] == c[0] {
        lemma_name_before_transitive(a.drop_first(), b.drop_first(), c.drop_first());
    }
}

/// The place in `order` of the last package of `ds` to appear there, or -1
/// when none of them does.
pub open spec fn last_place(order: Seq<usize>, ds: Seq<usize>) -> int
    decreases order.len(),
{
    if order.len() == 0 {
        -1
    } else if ds.contains(order.last()) {
        order.len() - 1
    } else {
        last_place(order.drop_last(), ds)
    }
}

/// The place in `order` of the last dependency of the package at place `i`.
pub open spec fn rank_at(deps: Seq<Seq<usize>>, order: Seq<usize>, i: int) -> int {
    last_place(order, deps[order[i] as int])
}

/// The packages at places `i` and `j` of `order`, `i` first, come in the
/// order in which their last dependencies were published, and in name order
/// when that is the same package, or when neither has a dependency.
pub open spec fn ranked_pair(names: Seq<Seq<char>>, deps: Seq<Seq<usize>>, order: Seq<usize>, i: int, j: int) -> bool {
    ||| rank_at(deps, order, i) < rank_at(deps, order, j)
    ||| rank_at(deps, order, i) == rank_at(deps, order, j) && !name_before(
        names[order[j] as int],
        names[order[i] as int],
    )
}

/// Every pair of packages of `order` is ranked (see `ranked_pair`): packages
/// without dependencies come first, in name order; then, as each package is
/// published, those it was the last dependency of, in name order.
pub open spec fn publish_ranked(names: Seq<Seq<char>>, deps: Seq<Seq<usize>>, order: Seq<usize>) -> bool {
    forall|i: int, j: int| 0 <= i < j < order.len() ==> #[trigger] ranked_pair(names, deps, order, i, j)
}

/// Appending a package outside `ds` leaves the place of the last of `ds`.
proof fn lemma_last_place_push(order: Seq<usize>, ds: Seq<usize>, x: usize)
    requires
        !ds.contains(x),
    ensures
        last_place(order.push(x), ds) == last_place(order, ds),
{
    assert(order.push(x).drop_last() =~= order);
}

/// In a list without repetitions, when every package of `ds` sits among the
/// first `h` places and `ds` holds the one at place `h - 1` (or `h` is 0 and
/// `ds` is empty), the last of `ds` sits at `h - 1`.
proof fn lemma_last_place_at(order: Seq<usize>, ds: Seq<usize>, h: int)
    requires
        0 <= h <= order.len(),
        forall|i: int, j: int| 0 <= i < j < order.len() ==> order[i] != order[j],
        forall|k: int|
            #![trigger ds[k]]
            0 <= k < ds.len() ==> exists|i: int| #![trigger order[i]] 0 <= i < h && order[i] == ds[k],
        h > 0 ==> ds.contains(order[h - 1]),
        h == 0 ==> ds.len() == 0,
    ensures
        last_place(order, ds) == h - 1,
    decreases order.len(),
{
    if order.len() > h {
        let last = order.len() - 1;
        if ds.contains(order[last]) {
            let k = choose|k: int| 0 <= k < ds.len() && ds[k] == order[last];
            let i = choose|i: int| 0 <= i < h && order[i] == ds[k];
            assert(order[i] != order[last]);
        }
        let o2 = order.drop_last();
        assert forall|k: int| #![trigger ds[k]] 0 <= k < ds.len() implies exists|i: int|
            #![trigger o2[i]]
            0 <= i < h && o2[i] == ds[k] by {
            let i = choose|i: int| 0 <= i < h && order[i] == ds[k];
            assert(o2[i] == ds[k]);
        }
        lemma_last_place_at(o2, ds, h);
    }
}

fn name_less(a: &Vec<char>, b: &Vec<char>) -> (r: bool)
    ensures
        r == name_before(a@, b@),
{
    let mut i: usize = 0;
    proof {
        assert(a@.subrange(0, a@.len() as int) =~= a@);
        assert(b@.subrange(0, b@.len() as int) =~= b@);
        assert(a@.subrange(0, 0) =~= b@.subrange(0, 0));
    }
    while i < a.len() && i < b.len()
        invariant
            i <= a@.len(),
            i <= b@.len(),
            a@.subrange(0, i as int) == b@.subrange(0, i as int),
            name_before(a@, b@) == name_before(a@.subrange(i as int, a@.len() as int), b@.subrange(i as int, b@.len() as int)),
        decreases a@.len() - i,
    {
        let ghost sa = a@.subrange(i as int, a@.len() as int);
        let ghost sb = b@.subrange(i as int, b@.len() as int);
        proof {
            assert(sa[0] == a@[i as int]);
            assert(sb[0] == b@[i as int]);
            assert(sa.drop_first() =~= a@.subrange(i + 1, a@.len() as int));
            assert(sb.drop_first() =~= b@.subrange(i + 1, b@.len() as int));
        }
        if a[i] != b[i] {
            return (a[i] as u32) < (b[i] as u32);
        }
        proof {
            assert(a@.subrange(0, i + 1) =~= a@.subrange(0, i as int).push(a@[i as int]));
            assert(b@.subrange(0, i + 1) =~= b@.subrange(0, i as int).push(b@[i as int]));
        }
        i = i + 1;
    }
    i < b.len()
}

/// How many packages are not yet queued.
spec fn unqueued(q: Seq<bool>) -> nat
    decreases q.len(),
{
    if q.len() == 0 {
        0
    } else {
        unqueued(q.drop_last()) + if q.last() {
            0nat
        } else {
            1nat
        }
    }
}

proof fn lemma_unqueued_mark(q: Seq<bool>, p: int)
    requires
        0 <= p < q.len(),
        !q[p],
    ensures
        unqueued(q.update(p, true)) + 1 == unqueued(q),
    decreases q.len(),
{
    if p < q.len() - 1 {
        assert(q.update(p, true).drop_last() =~= q.drop_last().update(p, true));
        lemma_unqueued_mark(q.drop_last(), p);
    } else {
        assert(q.update(p, true).drop_last() =~= q.drop_last());
    }
}

/// All dependencies of `p` are published.
spec fn deps_done(deps: Seq<Seq<usize>>, done: Seq<bool>, p: int) -> bool {
    forall|k: int| 0 <= k < deps[p].len() ==> done[deps[p][k] as int]
}

/// `p` may join the queue: not queued, all its dependencies published, and,
/// after the first round, depending on the package just published.
spec fn eligible(deps: Seq<Seq<usize>>, done: Seq<bool>, queued: Seq<bool>, trigger: Option<usize>, p: int) -> bool {
    &&& !queued[p]
    &&& deps_done(deps, done, p)
    &&& match trigger {
        Some(x) => deps[p].contains(x),
        None => true,
    }
}

/// The queue's state: `order[..head]` is published, the rest waits; `pos`
/// gives each queued package's place.
spec fn queue_ok(
    n: nat,
    deps: Seq<Seq<usize>>,
    order: Seq<usize>,
    head: int,
    queued: Seq<bool>,
    done: Seq<bool>,
    pos: Seq<usize>,
) -> bool {
    &&& valid_graph(n, deps)
    &&& queued.len() == n && done.len() == n && pos.len() == n
    &&& 0 <= head <= order.len()
    &&& forall|i: int| 0 <= i < order.len() ==> order[i] < n && queued[order[i] as int] && pos[order[i] as int] == i
    &&& forall|p: int| 0 <= p < n && queued[p] ==> pos[p] < order.len() && order[pos[p] as int] == p
    &&& forall|p: int| 0 <= p < n ==> (done[p] <==> (queued[p] && pos[p] < head))
    &&& forall|i: int, k: int|
        0 <= i < order.len() && 0 <= k < deps[order[i] as int].len() ==> done[deps[order[i] as int][k] as int]
            && pos[deps[order[i] as int][k] as int] < i
}

fn all_deps_done(deps: &Vec<Vec<usize>>, done: &Vec<bool>, p: usize) -> (r: bool)
    requires
        valid_graph(done@.len(), deps_view(deps@)),
        p < deps@.len(),
    ensures
        r == deps_done(deps_view(deps@), done@, p as int),
{
    let ghost dv = deps_view(deps@);
    let mut k: usize = 0;
    proof {
        assert(dv[p as int] == deps@[p as int]@);
    }
    while k < deps[p].len()
        invariant
            dv == deps_view(deps@),
            valid_graph(done@.len(), dv),
            p < deps@.len(),
            dv[p as int] == deps@[p as int]@,
            k <= deps@[p as int]@.len(),
            forall|j: int| 0 <= j < k ==> done@[dv[p as int][j] as int],
        decreases deps@[p as int]@.len() - k,
    {
        let d = deps[p][k];
        if !done[d] {
            return false;
        }
        k = k + 1;
    }
    true
}

fn depends_on(deps: &Vec<Vec<usize>>, p: usize, x: usize) -> (r: bool)
    requires
        p < deps@.len(),
    ensures
        r == deps_view(deps@)[p as int].contains(x),
{
    let ghost dv = deps_view(deps@);
    proof {
        assert(dv[p as int] == deps@[p as int]@);
    }
    let mut k: usize = 0;
    while k < deps[p].len()
        invariant
            dv == deps_view(deps@),
            p < deps@.len(),
            dv[p as int] == deps@[p as int]@,
            k <= deps@[p as int]@.len(),
            forall|j: int| 0 <= j < k ==> dv[p as int][j] != x,
        decreases deps@[p as int]@.len() - k,
    {
        if deps[p][k] == x {
            return true;
        }
        k = k + 1;
    }
    false
}

fn is_eligible(
    deps: &Vec<Vec<usize>>,
    done: &Vec<bool>,
    queued: &Vec<bool>,
    trigger: Option<usize>,
    p: usize,
) -> (r: bool)
    requires
        valid_graph(done@.len(), deps_view(deps@)),
        queued@.len() == done@.len(),
        p < deps@.len(),
    ensures
        r == eligible(deps_view(deps@), done@, queued@, trigger, p as int),
{
    if queued[p] {
        return false;
    }
    let ready = all_deps_done(deps, done, p);
    if !ready {
        return false;
    }
    match trigger {
        Some(x) => depends_on(deps, p, x),
        None => true,
    }
}

/// Queues, in name order, every package that is eligible (see `eligible`).
/// What is queued is ranked (see `publish_ranked`): its last dependency is
/// at place `head - 1`, after that of everything queued before.
fn enqueue_ready(
    names: &Vec<String>,
    name_chars: &Vec<Vec<char>>,
    deps: &Vec<Vec<usize>>,
    order: &mut Vec<usize>,
    head: usize,
    queued: &mut Vec<bool>,
    done: &Vec<bool>,
    pos: &mut Vec<usize>,
    trigger: Option<usize>,
)
    requires
        names@.len() == name_chars@.len(),
        forall|i: int| 0 <= i < names@.len() ==> #[trigger] name_chars@[i]@ == names@[i]@,
        queue_ok(names@.len() as nat, deps_view(deps@), old(order)@, head as int, old(queued)@, done@, old(pos)@),
        forall|p: int| 0 <= p < names@.len() && done@[p] ==> deps_done(deps_view(deps@), done@, p),
        trigger matches Some(t) ==> 0 < head && old(order)@[head - 1] == t,
        trigger is None ==> head == 0 && old(order)@.len() == 0,
        forall|i: int| 0 <= i < old(order)@.len() ==> #[trigger] rank_at(deps_view(deps@), old(order)@, i) < head - 1,
        publish_ranked(strings_view(names@), deps_view(deps@), old(order)@),
    ensures
        queue_ok(names@.len() as nat, deps_view(deps@), final(order)@, head as int, final(queued)@, done@, final(pos)@),
        final(order)@.len() >= old(order)@.len(),
        final(order)@.subrange(0, old(order)@.len() as int) == old(order)@,
        forall|p: int| 0 <= p < names@.len() && old(queued)@[p] ==> final(queued)@[p],
        forall|p: int| 0 <= p < names@.len() && eligible(deps_view(deps@), done@, old(queued)@, trigger, p) ==> final(queued)@[p],
        forall|p: int| 0 <= p < names@.len() && final(queued)@[p] && !old(queued)@[p] ==> eligible(deps_view(deps@), done@, old(queued)@, trigger, p),
        unqueued(final(queued)@) + (final(order)@.len() - old(order)@.len()) == unqueued(old(queued)@),
        forall|i: int| 0 <= i < final(order)@.len() ==> #[trigger] rank_at(deps_view(deps@), final(order)@, i) < head,
        publish_ranked(strings_view(names@), deps_view(deps@), final(order)@),
{
    let n = names.len();
    let ghost dv = deps_view(deps@);
    let ghost nv = strings_view(names@);
    let ghost q0 = queued@;
    let ghost o0 = order@;
    loop
        invariant
            n == names@.len(),
            n == name_chars@.len(),
            dv == deps_view(deps@),
            nv == strings_view(names@),
            forall|i: int| 0 <= i < n ==> #[trigger] name_chars@[i]@ == nv[i],
            queue_ok(n as nat, dv, order@, head as int, queued@, done@, pos@),
            forall|p: int| 0 <= p < n && done@[p] ==> deps_done(dv, done@, p),
            trigger matches Some(t) ==> 0 < head && order@[head - 1] == t,
            trigger is None ==> head == 0,
            order@.len() >= o0.len(),
            order@.subrange(0, o0.len() as int) == o0,
            forall|p: int| 0 <= p < n && q0[p] ==> queued@[p],
            forall|p: int| 0 <= p < n && queued@[p] && !q0[p] ==> eligible(dv, done@, q0, trigger, p),
            forall|p: int| 0 <= p < n && !queued@[p] ==> (eligible(dv, done@, q0, trigger, p) == eligible(dv, done@, queued@, trigger, p)),
            unqueued(queued@) + (order@.len() - o0.len()) == unqueued(q0),
            q0.len() == n,
            forall|i: int|
                0 <= i < order@.len() ==> #[trigger] rank_at(dv, order@, i) <= head - 1 && (i < o0.len() ==> rank_at(
                    dv,
                    order@,
                    i,
                ) < head - 1),
            publish_ranked(nv, dv, order@),
            forall|i: int, p: int|
                #![trigger eligible(dv, done@, queued@, trigger, p), order@[i]]
                o0.len() <= i < order@.len() && 0 <= p < n && eligible(dv, done@, queued@, trigger, p) ==> !name_before(
                    nv[p],
                    nv[order@[i] as int],
                ),
        ensures
            queue_ok(n as nat, dv, order@, head as int, queued@, done@, pos@),
            order@.len() >= o0.len(),
            order@.subrange(0, o0.len() as int) == o0,
            forall|p: int| 0 <= p < n && q0[p] ==> queued@[p],
            forall|p: int| 0 <= p < n && eligible(dv, done@, q0, trigger, p) ==> queued@[p],
            forall|p: int| 0 <= p < n && queued@[p] && !q0[p] ==> eligible(dv, done@, q0, trigger, p),
            unqueued(queued@) + (order@.len() - o0.len()) == unqueued(q0),
            forall|i: int| 0 <= i < order@.len() ==> #[trigger] rank_at(dv, order@, i) < head,
            publish_ranked(nv, dv, order@),
        decreases unqueued(queued@),
    {
        let mut best: Option<usize> = None;
        let mut p: usize = 0;
        while p < n
            invariant
                n == names@.len(),
                n == name_chars@.len(),
                dv == deps_view(deps@),
                nv == strings_view(names@),
                forall|i: int| 0 <= i < n ==> #[trigger] name_chars@[i]@ == nv[i],
                queue_ok(n as nat, dv, order@, head as int, queued@, done@, pos@),
                p <= n,
                match best {
                    Some(b) => b < n && eligible(dv, done@, queued@, trigger, b as int) && forall|j: int|
                        0 <= j < p && #[trigger] eligible(dv, done@, queued@, trigger, j) ==> !name_before(
                            nv[j],
                            nv[b as int],
                        ),
                    None => forall|j: int| 0 <= j < p ==> !eligible(dv, done@, queued@, trigger, j),
                },
            decreases n - p,
        {
            if is_eligible(deps, done, queued, trigger, p) {
                let better = match best {
                    Some(b) => name_less(&name_chars[p], &name_chars[b]),
                    None => true,
                };
                proof {
                    lemma_name_before_irreflexive(nv[p as int]);
                    if better {
                        if let Some(b) = best {
                            assert forall|j: int|
                                0 <= j < p && #[trigger] eligible(dv, done@, queued@, trigger, j) implies !name_before(
                                nv[j],
                                nv[p as int],
                            ) by {
                                if name_before(nv[j], nv[p as int]) {
                                    lemma_name_before_transitive(nv[j], nv[p as int], nv[b as int]);
                                }
                            }
                        }
                    }
                }
                if better {
                    best = Some(p);
                }
            }
            p = p + 1;
        }
        match best {
            None => {
                proof {
                    assert forall|i: int| 0 <= i < order@.len() implies #[trigger] rank_at(dv, order@, i) < head by {
                        assert(rank_at(dv, order@, i) <= head - 1);
                    }
                }
                break;
            },
            Some(b) => {
                let ghost qb = queued@;
                let ghost ob = order@;
                let ghost pb = pos@;
                proof {
                    lemma_unqueued_mark(queued@, b as int);
                    assert forall|i: int| 0 <= i < ob.len() implies !dv[ob[i] as int].contains(b) by {
                        if dv[ob[i] as int].contains(b) {
                            let k = choose|k: int| 0 <= k < dv[ob[i] as int].len() && dv[ob[i] as int][k] == b;
                            assert(done@[dv[ob[i] as int][k] as int]);
                        }
                    }
                }
                order.push(b);
                queued.set(b, true);
                pos.set(b, order.len() - 1);
                proof {
                    assert(order@.subrange(0, o0.len() as int) =~= ob.subrange(0, o0.len() as int));
                    assert forall|i: int, k: int|
                        0 <= i < order@.len() && 0 <= k < dv[order@[i] as int].len() implies done@[dv[order@[i] as int][k] as int]
                            && pos@[dv[order@[i] as int][k] as int] < i by {
                        let d = dv[order@[i] as int][k] as int;
                        if i == order@.len() - 1 {
                            assert(done@[d]);
                        } else {
                            assert(d != b as int);
                        }
                    }
                    assert forall|p: int| 0 <= p < n && !queued@[p] implies (eligible(dv, done@, q0, trigger, p) == eligible(dv, done@, queued@, trigger, p)) by {
                        assert(p != b);
                        assert(queued@[p] == qb[p]);
                    }
                    // The ranks of what was queued before stay; the new one's is head - 1.
                    assert forall|i: int| 0 <= i < ob.len() implies #[trigger] rank_at(dv, order@, i) == rank_at(dv, ob, i) by {
                        assert(order@[i] == ob[i]);
                        lemma_last_place_push(ob, dv[ob[i] as int], b);
                    }
                    assert forall|i: int, j: int| 0 <= i < j < order@.len() implies order@[i] != order@[j] by {
                        assert(pos@[order@[i] as int] == i);
                        assert(pos@[order@[j] as int] == j);
                    }
                    let ds = dv[b as int];
                    assert forall|k: int| #![trigger ds[k]] 0 <= k < ds.len() implies exists|i: int|
                        #![trigger order@[i]]
                        0 <= i < head && order@[i] == ds[k] by {
                        assert(done@[ds[k] as int]);
                        assert(order@[pos@[ds[k] as int] as int] == ds[k]);
                    }
                    if head == 0 && ds.len() > 0 {
                        assert(done@[ds[0] as int]);
                    }
                    lemma_last_place_at(order@, ds, head as int);
                    let last = order@.len() - 1;
                    assert(rank_at(dv, order@, last) == head - 1);
                    assert forall|i: int|
                        0 <= i < order@.len() implies #[trigger] rank_at(dv, order@, i) <= head - 1 && (i < o0.len()
                            ==> rank_at(dv, order@, i) < head - 1) by {
                        if i < ob.len() {
                            assert(rank_at(dv, order@, i) == rank_at(dv, ob, i));
                        }
                    }
                    assert forall|i: int, j: int| 0 <= i < j < order@.len() implies #[trigger] ranked_pair(nv, dv, order@, i, j) by {
                        assert(rank_at(dv, order@, i) == rank_at(dv, ob, i));
                        if j < ob.len() {
                            assert(rank_at(dv, order@, j) == rank_at(dv, ob, j));
                            assert(ranked_pair(nv, dv, ob, i, j));
                        } else {
                            if rank_at(dv, order@, i) == head - 1 {
                                assert(eligible(dv, done@, qb, trigger, b as int));
                                assert(ob[i] == order@[i]);
                            }
                        }
                    }
                    assert forall|i: int, p: int|
                        #![trigger eligible(dv, done@, queued@, trigger, p), order@[i]]
                        o0.len() <= i < order@.len() && 0 <= p < n && eligible(dv, done@, queued@, trigger, p) implies !name_before(
                            nv[p],
                            nv[order@[i] as int],
                        ) by {
                        assert(p != b);
                        assert(queued@[p] == qb[p]);
                        assert(eligible(dv, done@, qb, trigger, p));
                        if i < ob.len() {
                            assert(order@[i] == ob[i]);
                        }
                    }
                }
            },
        }
    }
}

fn chars_of_names(names: &Vec<String>) -> (r: Vec<Vec<char>>)
    ensures
        r@.len() == names@.len(),
        forall|i: int| 0 <= i < names@.len() ==> r@[i]@ == names@[i]@,
{
    let mut r: Vec<Vec<char>> = Vec::new();
    let mut i: usize = 0;
    while i < names.len()
        invariant
            i <= names@.len(),
            r@.len() == i,
            forall|j: int| 0 <= j < i ==> r@[j]@ == names@[j]@,
        decreases names@.len() - i,
    {
        r.push(chars_of(names[i].as_str()));
        i = i + 1;
    }
    r
}

/// An order in which to publish the packages `names`, where `deps[i]` lists
/// the packages that package `i` depends on: packages are published after
/// their dependencies, those without any first, then each package once its
/// last dependency is published, and packages that become publishable
/// together in name order (see `publish_ranked`). When the dependencies
/// contain a cycle no order exists; the result is then `None`, the error
/// value that the caller reports as a circular dependency.
pub fn topological_sort(names: &Vec<String>, deps: &Vec<Vec<usize>>) -> (r: Option<Vec<usize>>)
    requires
        valid_graph(names@.len() as nat, deps_view(deps@)),
    ensures
        match r {
            Some(order) => is_publish_order(names@.len() as nat, deps_view(deps@), order@) && publish_ranked(
                strings_view(names@),
                deps_view(deps@),
                order@,
            ),
            None => exists|s: Seq<bool>| is_stuck_set(names@.len() as nat, deps_view(deps@), s),
        },
{
    let n = names.len();
    let ghost dv = deps_view(deps@);
    let name_chars = chars_of_names(names);
    let mut order: Vec<usize> = Vec::new();
    let mut queued: Vec<bool> = Vec::new();
    let mut done: Vec<bool> = Vec::new();
    let mut pos: Vec<usize> = Vec::new();
    let mut i: usize = 0;
    while i < n
        invariant
            i <= n,
            n == names@.len(),
            queued@.len() == i && done@.len() == i && pos@.len() == i,
            forall|j: int| 0 <= j < i ==> !queued@[j] && !done@[j],
        decreases n - i,
    {
        queued.push(false);
        done.push(false);
        pos.push(0);
        i = i + 1;
    }
    proof {
        assert forall|i: int, j: int| 0 <= i < j < order@.len() implies #[trigger] ranked_pair(
            strings_view(names@),
            dv,
            order@,
            i,
            j,
        ) by {}
    }
    enqueue_ready(names, &name_chars, deps, &mut order, 0, &mut queued, &done, &mut pos, None);
    let mut head: usize = 0;
    while head < order.len()
        invariant
            n == names@.len(),
            n == name_chars@.len(),
            dv == deps_view(deps@),
            queue_ok(n as nat, dv, order@, head as int, queued@, done@, pos@),
            forall|p: int| 0 <= p < n && done@[p] ==> deps_done(dv, done@, p),
            forall|p: int| 0 <= p < n && deps_done(dv, done@, p) ==> queued@[p],
            forall|i: int| 0 <= i < n ==> #[trigger] name_chars@[i]@ == names@[i]@,
            forall|i: int| 0 <= i < order@.len() ==> #[trigger] rank_at(dv, order@, i) < head,
            publish_ranked(strings_view(names@), dv, order@),
        decreases unqueued(queued@) + (order@.len() - head),
    {
        let x = order[head];
        let ghost d0 = done@;
        done.set(x, true);
        head = head + 1;
        proof {
            assert forall|p: int| 0 <= p < n && done@[p] implies deps_done(dv, done@, p) by {
                if p == x as int {
                    assert forall|k: int| 0 <= k < dv[p].len() implies done@[dv[p][k] as int] by {
                        assert(dv[order@[head - 1] as int][k] == dv[p][k]);
                    }
                } else {
                    assert(deps_done(dv, d0, p));
                }
            }
        }
        let ghost q1 = queued@;
        enqueue_ready(names, &name_chars, deps, &mut order, head, &mut queued, &done, &mut pos, Some(x));
        proof {
            assert forall|p: int| 0 <= p < n && deps_done(dv, done@, p) implies queued@[p] by {
                if !deps_done(dv, d0, p) {
                    let k = choose|k: int| 0 <= k < dv[p].len() && !d0[dv[p][k] as int];
                    assert(dv[p][k] == x);
                    if !q1[p] {
                        assert(eligible(dv, done@, q1, Some(x), p));
                    }
                }
            }
        }
    }
    let mut all = true;
    let mut p: usize = 0;
    while p < n
        invariant
            n == names@.len(),
            queued@.len() == n,
            p <= n,
            all == forall|j: int| 0 <= j < p ==> queued@[j],
        decreases n - p,
    {
        if !queued[p] {
            all = false;
        }
        p = p + 1;
    }
    if all {
        proof {
            assert forall|q: int| 0 <= q < n implies appears(order@, q) by {
                assert(queued@[q]);
                assert(order@[pos@[q] as int] == q);
            }
            assert forall|i: int, j: int| 0 <= i < j < order@.len() implies order@[i] != order@[j] by {
                assert(pos@[order@[i] as int] == i);
                assert(pos@[order@[j] as int] == j);
            }
            assert forall|i: int, k: int|
                0 <= i < order@.len() && 0 <= k < dv[order@[i] as int].len() implies published_before(
                    dv,
                    order@,
                    i,
                    k,
                ) by {
                let d = dv[order@[i] as int][k] as int;
                assert(order@[pos@[d] as int] == d);
            }
            assert forall|i: int| 0 <= i < order@.len() implies order@[i] < n by {}
            assert(is_publish_order(n as nat, dv, order@));
        }
        Some(order)
    } else {
        proof {
            let s = Seq::new(n as nat, |q: int| !queued@[q]);
            let w = choose|j: int| 0 <= j < n && !queued@[j];
            assert(s[w]);
            assert forall|q: int| 0 <= q < n && s[q] implies exists|k: int| 0 <= k < dv[q].len() && s[dv[q][k] as int] by {
                assert(!deps_done(dv, done@, q));
                let k = choose|k: int| 0 <= k < dv[q].len() && !done@[dv[q][k] as int];
                assert(!queued@[dv[q][k] as int]);
            }
            assert(is_stuck_set(n as nat, dv, s));
        }
        None
    }
}


// ----- package manifests -----

/// The package manifests whose versions follow the workspace version.
pub const PACKAGE_JSON_FILES: [&'static str; 3] = [
    "npm/kaiki/package.json",
    "napi/kaiki/package.json",
    "wasm/kaiki_diff_wasm/package.json",
];

/// The workspace crates whose dependency entries follow the workspace version.
pub const WORKSPACE_CRATE_NAMES: [&'static str; 7] = [
    "kaiki_config",
    "kaiki_core",
    "kaiki_diff",
    "kaiki_git",
    "kaiki_notify",
    "kaiki_report",
    "kaiki_storage",
];

/// The entries of `pkg` when it is an object; none otherwise.
pub open spec fn entries_or_empty(pkg: JsonValue) -> Seq<(String, JsonValue)> {
    match pkg {
        JsonValue::Object(e) => e@,
        _ => Seq::empty(),
    }
}

/// The keys of a manifest after its version is set: the same keys in the
/// same order, with `version` added at the end when it was not there.
pub open spec fn updated_keys(keys: Seq<Seq<char>>) -> Seq<Seq<char>> {
    if keys.contains("version"@) {
        keys
    } else {
        keys.push("version"@)
    }
}

/// `out` is the manifest `pkg` at version `version`: `version` is set in
/// place (or added last), every entry of an `optionalDependencies` object is
/// set to the version in place, and all else is kept; keys stay in order and,
/// when they were distinct, stay distinct.
pub open spec fn package_updated(pkg: JsonValue, out: JsonValue, version: Seq<char>) -> bool {
    out matches JsonValue::Object(entries) && {
        &&& keys_of(entries@) == updated_keys(keys_of(entries_or_empty(pkg)))
        &&& keys_of(entries_or_empty(pkg)).no_duplicates() ==> keys_of(entries@).no_duplicates()
        &&& lookup(entries@, "version"@) matches Some(v) && is_str(v, version)
        &&& forall|k: Seq<char>|
            k != "version"@ && k != "optionalDependencies"@ ==> lookup(entries@, k) == member(pkg, k)
        &&& match member(pkg, "optionalDependencies"@) {
            Some(JsonValue::Object(deps)) => lookup(entries@, "optionalDependencies"@) matches Some(
                JsonValue::Object(nd),
            ) && keys_of(nd@) == keys_of(deps@) && forall|j: int|
                0 <= j < nd@.len() ==> is_str(#[trigger] nd@[j].1, version),
            other => lookup(entries@, "optionalDependencies"@) == other,
        }
    }
}

fn all_set_to(entries: &Vec<(String, JsonValue)>, version: &str) -> (r: Vec<(String, JsonValue)>)
    ensures
        keys_of(r@) == keys_of(entries@),
        forall|j: int| 0 <= j < r@.len() ==> is_str(#[trigger] r@[j].1, version@),
{
    let mut r: Vec<(String, JsonValue)> = Vec::new();
    let mut i: usize = 0;
    while i < entries.len()
        invariant
            i <= entries@.len(),
            keys_of(r@) == keys_of(entries@.subrange(0, i as int)),
            forall|j: int| 0 <= j < r@.len() ==> is_str(#[trigger] r@[j].1, version@),
        decreases entries@.len() - i,
    {
        let key = entries[i].0.clone();
        let ghost before = r@;
        r.push((key, JsonValue::Str(owned(version))));
        proof {
            assert(keys_of(r@) =~= keys_of(before).push(entries@[i as int].0@));
            assert(keys_of(entries@.subrange(0, i + 1)) =~= keys_of(entries@.subrange(0, i as int)).push(
                entries@[i as int].0@,
            ));
        }
        i = i + 1;
    }
    proof {
        assert(entries@.subrange(0, entries@.len() as int) =~= entries@);
    }
    r
}

fn first_key_index(entries: &Vec<(String, JsonValue)>, key: &str) -> (r: Option<usize>)
    ensures
        match r {
            Some(i) => i < entries@.len() && entries@[i as int].0@ == key@ && forall|j: int|
                0 <= j < i ==> entries@[j].0@ != key@,
            None => forall|j: int| 0 <= j < entries@.len() ==> entries@[j].0@ != key@,
        },
{
    let mut i: usize = 0;
    while i < entries.len()
        invariant
            i <= entries@.len(),
            forall|j: int| 0 <= j < i ==> entries@[j].0@ != key@,
        decreases entries@.len() - i,
    {
        if same_text(entries[i].0.as_str(), key) {
            return Some(i);
        }
        i = i + 1;
    }
    None
}

proof fn lemma_lookup_found(e: Seq<(String, JsonValue)>, i: int, key: Seq<char>)
    requires
        0 <= i < e.len(),
        e[i].0@ == key,
        forall|j: int| 0 <= j < i ==> e[j].0@ != key,
    ensures
        lookup(e, key) == Some(e[i].1),
    decreases i,
{
    if i > 0 {
        let t = e.drop_first();
        assert forall|j: int| 0 <= j < i - 1 implies t[j].0@ != key by {
            assert(t[j] == e[j + 1]);
        }
        lemma_lookup_found(t, i - 1, key);
    }
}

proof fn lemma_lookup_absent(e: Seq<(String, JsonValue)>, key: Seq<char>)
    requires
        forall|j: int| 0 <= j < e.len() ==> e[j].0@ != key,
    ensures
        lookup(e, key) is None,
    decreases e.len(),
{
    if e.len() > 0 {
        let t = e.drop_first();
        assert forall|j: int| 0 <= j < t.len() implies t[j].0@ != key by {
            assert(t[j] == e[j + 1]);
        }
        lemma_lookup_absent(t, key);
    }
}

proof fn lemma_lookup_replaced(e: Seq<(String, JsonValue)>, i: int, entry: (String, JsonValue), k: Seq<char>)
    requires
        0 <= i < e.len(),
        entry.0@ == e[i].0@,
        forall|j: int| 0 <= j < i ==> e[j].0@ != e[i].0@,
    ensures
        lookup(e.update(i, entry), k) == if k == e[i].0@ {
            Some(entry.1)
        } else {
            lookup(e, k)
        },
    decreases i,
{
    let u = e.update(i, entry);
    assert(u[0] == (if i == 0 { entry } else { e[0] }));
    if i > 0 {
        let t = e.drop_first();
        assert(t[i - 1] == e[i]);
        assert(u.drop_first() =~= t.update(i - 1, entry));
        assert forall|j: int| 0 <= j < i - 1 implies #[trigger] t[j].0@ != t[i - 1].0@ by {
            assert(t[j] == e[j + 1]);
        }
        lemma_lookup_replaced(t, i - 1, entry, k);
    } else {
        assert(u.drop_first() =~= e.drop_first());
    }
}

/// The manifest `pkg` at version `new_version` (see `package_updated`); a
/// missing document (`null`) becomes an object.
pub fn update_package_json(pkg: JsonValue, new_version: &str) -> (r: JsonValue)
    requires
        pkg is Object || pkg is Null,
    ensures
        package_updated(pkg, r, new_version@),
{
    let ghost input_doc = pkg;
    proof {
        reveal_strlit("version");
        reveal_strlit("optionalDependencies");
        assert("version"@ != "optionalDependencies"@) by {
            assert("version"@[0] != "optionalDependencies"@[0]);
        }
    }
    let mut entries: Vec<(String, JsonValue)> = match pkg {
        JsonValue::Object(e) => e,
        _ => Vec::new(),
    };
    let ghost e0 = entries@;
    proof {
        assert forall|k: Seq<char>| lookup(e0, k) == member(input_doc, k) by {
            if !(input_doc is Object) {
                assert(e0.len() == 0);
            }
        }
    }
    object_insert(&mut entries, "version", JsonValue::Str(owned(new_version)));
    let ghost e1 = entries@;
    match first_key_index(&entries, "optionalDependencies") {
        Some(i) => {
            proof {
                lemma_lookup_found(e1, i as int, "optionalDependencies"@);
            }
            let (key, value) = entries.remove(i);
            let ghost old_value = value;
            proof {
                assert(old_value == e1[i as int].1);
                assert(member(input_doc, "optionalDependencies"@) == Some(old_value));
            }
            let replacement = match value {
                JsonValue::Object(deps) => JsonValue::Object(all_set_to(&deps, new_version)),
                other => other,
            };
            let ghost entry = (key, replacement);
            entries.insert(i, (key, replacement));
            proof {
                assert(entries@ =~= e1.update(i as int, entry));
                assert(keys_of(entries@) =~= keys_of(e1));
                assert forall|k: Seq<char>| #[trigger] lookup(entries@, k) == (if k == "optionalDependencies"@ {
                    Some(entry.1)
                } else {
                    lookup(e1, k)
                }) by {
                    lemma_lookup_replaced(e1, i as int, entry, k);
                }
            }
        },
        None => {
            proof {
                lemma_lookup_absent(e1, "optionalDependencies"@);
            }
        },
    }
    JsonValue::Object(entries)
}

/// Brings every present manifest (`None` for a missing file) to
/// `new_version` (see `update_package_json`).
pub fn update_package_json_files(packages: Vec<Option<JsonValue>>, new_version: &str) -> (r: Vec<Option<JsonValue>>)
    requires
        forall|i: int| 0 <= i < packages@.len() ==> (#[trigger] packages@[i] matches Some(p) ==> (p is Object || p is Null)),
    ensures
        r@.len() == packages@.len(),
        forall|i: int|
            0 <= i < packages@.len() ==> match packages@[i] {
                Some(p) => #[trigger] r@[i] matches Some(q) && package_updated(p, q, new_version@),
                None => r@[i] is None,
            },
{
    let ghost p0 = packages@;
    let mut rest = packages;
    let mut r: Vec<Option<JsonValue>> = Vec::new();
    while rest.len() > 0
        invariant
            r@.len() + rest@.len() == p0.len(),
            rest@ == p0.subrange(r@.len() as int, p0.len() as int),
            forall|i: int| 0 <= i < p0.len() ==> (#[trigger] p0[i] matches Some(p) ==> (p is Object || p is Null)),
            forall|i: int|
                0 <= i < r@.len() ==> match p0[i] {
                    Some(p) => #[trigger] r@[i] matches Some(q) && package_updated(p, q, new_version@),
                    None => r@[i] is None,
                },
        decreases rest@.len(),
    {
        let ghost k = r@.len() as int;
        let item = rest.remove(0);
        proof {
            assert(item == p0[k]);
            assert(rest@ =~= p0.subrange(k + 1, p0.len() as int));
        }
        let updated = match item {
            Some(p) => Some(update_package_json(p, new_version)),
            None => None,
        };
        r.push(updated);
    }
    r
}


// ----- dependencies between workspace crates -----

/// The index of the first package named `name`.
pub open spec fn index_of_name(names: Seq<Seq<char>>, name: Seq<char>) -> Option<int>
    decreases names.len(),
{
    if names.len() == 0 {
        None
    } else if names[0] == name {
        Some(0)
    } else {
        match index_of_name(names.drop_first(), name) {
            Some(i) => Some(i + 1),
            None => None,
        }
    }
}

/// The packages among `names` that a package depending on `dep_names`
/// depends on, in the order listed; names of other crates are left out.
pub open spec fn internal_deps(names: Seq<Seq<char>>, dep_names: Seq<Seq<char>>) -> Seq<usize>
    decreases dep_names.len(),
{
    if dep_names.len() == 0 {
        Seq::empty()
    } else {
        let rest = internal_deps(names, dep_names.drop_last());
        match index_of_name(names, dep_names.last()) {
            Some(i) => rest.push(i as usize),
            None => rest,
        }
    }
}

proof fn lemma_index_of_name(names: Seq<Seq<char>>, name: Seq<char>)
    ensures
        match index_of_name(names, name) {
            Some(i) => 0 <= i < names.len() && names[i] == name && forall|j: int| 0 <= j < i ==> names[j] != name,
            None => forall|j: int| 0 <= j < names.len() ==> names[j] != name,
        },
    decreases names.len(),
{
    if names.len() > 0 && names[0] != name {
        lemma_index_of_name(names.drop_first(), name);
        assert forall|j: int| 1 <= j < names.len() implies names[j] == names.drop_first()[j - 1] by {}
    }
}

fn find_name(names: &Vec<String>, name: &String) -> (r: Option<usize>)
    ensures
        match index_of_name(strings_view(names@), name@) {
            Some(i) => r == Some(i as usize),
            None => r is None,
        },
{
    let ghost nv = strings_view(names@);
    proof {
        lemma_index_of_name(nv, name@);
    }
    let mut i: usize = 0;
    while i < names.len()
        invariant
            nv == strings_view(names@),
            i <= names@.len(),
            forall|j: int| 0 <= j < i ==> nv[j] != name@,
            match index_of_name(nv, name@) {
                Some(k) => 0 <= k < nv.len() && nv[k] == name@ && forall|j: int| 0 <= j < k ==> nv[j] != name@,
                None => forall|j: int| 0 <= j < nv.len() ==> nv[j] != name@,
            },
        decreases names@.len() - i,
    {
        if same_text(names[i].as_str(), name.as_str()) {
            proof {
                assert(nv[i as int] == name@);
            }
            return Some(i);
        }
        i = i + 1;
    }
    None
}

/// For each package, the packages of the workspace it depends on, given the
/// names of all its dependencies (see `internal_deps`).
pub fn internal_dependencies(names: &Vec<String>, dep_names: &Vec<Vec<String>>) -> (r: Vec<Vec<usize>>)
    ensures
        r@.len() == dep_names@.len(),
        forall|i: int| 0 <= i < dep_names@.len() ==> #[trigger] r@[i]@ == internal_deps(strings_view(names@), strings_view(dep_names@[i]@)),
        valid_graph(names@.len() as nat, deps_view(r@)) || dep_names@.len() != names@.len(),
{
    let ghost nv = strings_view(names@);
    let mut r: Vec<Vec<usize>> = Vec::new();
    let mut i: usize = 0;
    while i < dep_names.len()
        invariant
            nv == strings_view(names@),
            i <= dep_names@.len(),
            r@.len() == i,
            forall|j: int| 0 <= j < i ==> #[trigger] r@[j]@ == internal_deps(nv, strings_view(dep_names@[j]@)),
            forall|j: int, k: int| 0 <= j < i && 0 <= k < r@[j]@.len() ==> r@[j]@[k] < names@.len(),
        decreases dep_names@.len() - i,
    {
        let ds = &dep_names[i];
        let ghost dv = strings_view(ds@);
        let mut list: Vec<usize> = Vec::new();
        let mut k: usize = 0;
        while k < ds.len()
            invariant
                nv == strings_view(names@),
                dv == strings_view(ds@),
                k <= ds@.len(),
                list@ == internal_deps(nv, dv.subrange(0, k as int)),
                forall|m: int| 0 <= m < list@.len() ==> list@[m] < names@.len(),
            decreases ds@.len() - k,
        {
            proof {
                assert(dv.subrange(0, k + 1).drop_last() =~= dv.subrange(0, k as int));
                assert(dv.subrange(0, k + 1).last() == ds@[k as int]@);
                lemma_index_of_name(nv, ds@[k as int]@);
            }
            match find_name(names, &ds[k]) {
                Some(idx) => {
                    list.push(idx);
                },
                None => {},
            }
            k = k + 1;
        }
        proof {
            assert(dv.subrange(0, ds@.len() as int) =~= dv);
        }
        r.push(list);
        i = i + 1;
    }
    proof {
        if dep_names@.len() == names@.len() {
            assert forall|a: int, b: int| 0 <= a < names@.len() && 0 <= b < deps_view(r@)[a].len() implies deps_view(r@)[a][b] < names@.len() by {
                assert(deps_view(r@)[a] == r@[a]@);
            }
        }
    }
    r
}

// ----- release commands -----

/// What `cargo xtask release` was asked to do.
#[derive(Debug, Clone, PartialEq, Eq)]
pub enum ReleaseCommand {
    /// Bump the version and update manifests and changelog.
    Update { dry_run: bool },
    /// Publish the crates.
    Publish { dry_run: bool },
    /// Print the changelog of unreleased commits.
    Changelog,
    /// Print the usage text.
    Usage,
    /// An unknown command, with the usage text.
    Unknown(String),
}

/// The command selected by the arguments: the first argument names it, and
/// `--dry-run` anywhere makes it a dry run.
pub open spec fn release_command_of(c: ReleaseCommand, args: Seq<Seq<char>>, dry_run: bool) -> bool {
    if args.len() == 0 {
        c == ReleaseCommand::Usage
    } else if args[0] == "update"@ {
        c == ReleaseCommand::Update { dry_run }
    } else if args[0] == "publish"@ {
        c == ReleaseCommand::Publish { dry_run }
    } else if args[0] == "changelog"@ {
        c == ReleaseCommand::Changelog
    } else if args[0] == "--dry-run"@ || args[0] == "--help"@ {
        c == ReleaseCommand::Usage
    } else {
        c matches ReleaseCommand::Unknown(s) && s@ == args[0]
    }
}

/// Reads the release command from its arguments (see `release_command_of`).
pub fn parse_release_args(args: &Vec<String>) -> (r: ReleaseCommand)
    ensures
        release_command_of(r, strings_view(args@), strings_view(args@).contains("--dry-run"@)),
{
    let ghost av = strings_view(args@);
    let mut dry_run = false;
    let mut i: usize = 0;
    while i < args.len()
        invariant
            av == strings_view(args@),
            i <= args@.len(),
            dry_run == exists|j: int| 0 <= j < i && av[j] == "--dry-run"@,
        decreases args@.len() - i,
    {
        if same_text(args[i].as_str(), "--dry-run") {
            dry_run = true;
        }
        proof {
            assert(av[i as int] == args@[i as int]@);
        }
        i = i + 1;
    }
    proof {
        if dry_run {
            let j = choose|j: int| 0 <= j < args@.len() && av[j] == "--dry-run"@;
            assert(av.contains("--dry-run"@));
        } else {
            assert(!av.contains("--dry-run"@));
        }
    }
    if args.len() == 0 {
        return ReleaseCommand::Usage;
    }
    proof {
        assert(av[0] == args@[0]@);
    }
    let first = args[0].as_str();
    if same_text(first, "update") {
        ReleaseCommand::Update { dry_run }
    } else if same_text(first, "publish") {
        ReleaseCommand::Publish { dry_run }
    } else if same_text(first, "changelog") {
        ReleaseCommand::Changelog
    } else if same_text(first, "--dry-run") || same_text(first, "--help") {
        ReleaseCommand::Usage
    } else {
        ReleaseCommand::Unknown(args[0].clone())
    }
}

/// Whether a crate's published versions (each listing's `num`, when it has
/// one) include `version`.
pub fn version_listed(nums: &Vec<Option<String>>, version: &str) -> (r: bool)
    ensures
        r == exists|i: int| 0 <= i < nums@.len() && (#[trigger] nums@[i] matches Some(n) && n@ == version@),
{
    let mut i: usize = 0;
    while i < nums.len()
        invariant
            i <= nums@.len(),
            forall|j: int| 0 <= j < i ==> !(#[trigger] nums@[j] matches Some(n) && n@ == version@),
        decreases nums@.len() - i,
    {
        match &nums[i] {
            Some(n) => {
                if same_text(n.as_str(), version) {
                    return true;
                }
            },
            None => {},
        }
        i = i + 1;
    }
    false
}


// ----- laws -----

proof fn lemma_three_parts(x: u64, y: u64, z: u64)
    ensures
        semver_parts(decimal(x as nat) + seq!['.'] + decimal(y as nat) + seq!['.'] + decimal(z as nat)) == Some((x, y, z)),
{
    let (dx, dy, dz) = (decimal(x as nat), decimal(y as nat), decimal(z as nat));
    lemma_decimal_has_no(x as nat, '.');
    lemma_decimal_has_no(y as nat, '.');
    lemma_decimal_has_no(z as nat, '.');
    lemma_split_single(dx, '.');
    lemma_split_single(dy, '.');
    lemma_split_single(dz, '.');
    lemma_split_join(dy, dz, '.');
    lemma_split_join(dx, dy + seq!['.'] + dz, '.');
    assert(dx + seq!['.'] + dy + seq!['.'] + dz =~= dx + seq!['.'] + (dy + seq!['.'] + dz));
    let parts = split_on(dx + seq!['.'] + dy + seq!['.'] + dz, '.');
    assert(parts =~= seq![dx, dy, dz]);
    lemma_parse_decimal(x);
    lemma_parse_decimal(y);
    lemma_parse_decimal(z);
}

/// A bumped version is again a version `x.y.z`: the bumped part is one
/// more, the parts after it are zero, the parts before it are kept.
pub proof fn lemma_bumped_is_version(major: u64, minor: u64, patch: u64, bump: BumpType)
    requires
        match bump {
            BumpType::Major => major < u64::MAX,
            BumpType::Minor => minor < u64::MAX,
            BumpType::Patch => patch < u64::MAX,
        },
    ensures
        semver_parts(bumped(major, minor, patch, bump)) == Some(
            match bump {
                BumpType::Major => ((major + 1) as u64, 0u64, 0u64),
                BumpType::Minor => (major, (minor + 1) as u64, 0u64),
                BumpType::Patch => (major, minor, (patch + 1) as u64),
            },
        ),
{
    reveal_strlit(".0.0");
    reveal_strlit(".0");
    let zero = decimal(0);
    assert(zero =~= seq!['0']);
    match bump {
        BumpType::Major => {
            let n = (major + 1) as u64;
            lemma_three_parts(n, 0, 0);
            assert(bumped(major, minor, patch, bump) =~= decimal(n as nat) + seq!['.'] + zero + seq!['.'] + zero);
        },
        BumpType::Minor => {
            let n = (minor + 1) as u64;
            lemma_three_parts(major, n, 0);
            assert(bumped(major, minor, patch, bump) =~= decimal(major as nat) + seq!['.'] + decimal(n as nat) + seq!['.']
                + zero);
        },
        BumpType::Patch => {
            let n = (patch + 1) as u64;
            lemma_three_parts(major, minor, n);
        },
    }
}

} // verus!
