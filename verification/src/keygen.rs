//! Keys under which expected and actual images are stored: a fixed key, or
//! commit hashes chosen from the repository's history.
use vstd::prelude::*;

use crate::text::strings_view;

verus! {

broadcast use vstd::string::group_string_axioms;

/// Errors raised while choosing keys.
#[derive(Debug)]
pub enum GitError {
    /// The repository could not be read.
    Git(String),
    /// No repository was found at the path.
    RepoNotFound(String),
    /// No commit fit as the comparison base.
    NoBaseCommit,
}

/// A source of storage keys.
pub trait KeyGenerator {
    /// The key of the expected (baseline) images, if there is one.
    fn get_expected_key(&self) -> Result<Option<String>, GitError>;

    /// The key of the actual (current) images.
    fn get_actual_key(&self) -> Result<String, GitError>;
}

/// A key generator with one fixed key.
#[derive(Debug, Clone)]
pub struct SimpleKeygen {
    pub expected_key: String,
}

impl KeyGenerator for SimpleKeygen {
    /// The fixed key, or none when it is empty.
    fn get_expected_key(&self) -> (r: Result<Option<String>, GitError>)
        ensures
            r matches Ok(k) && (if self.expected_key@.len() == 0 {
                k is None
            } else {
                k matches Some(s) && s@ == self.expected_key@
            }),
    {
        if self.expected_key.unicode_len() == 0 {
            Ok(None)
        } else {
            Ok(Some(self.expected_key.clone()))
        }
    }

    /// The fixed key.
    fn get_actual_key(&self) -> (r: Result<String, GitError>)
        ensures
            r matches Ok(s) && s@ == self.expected_key@,
    {
        Ok(self.expected_key.clone())
    }
}

/// How many first-parent ancestors of the head are searched for a fork point.
pub const MAX_COMMITS: usize = 300;

/// A key generator that uses commit hashes of a git repository.
#[derive(Debug)]
pub struct GitHashKeygen {
    repo_path: String,
}

impl GitHashKeygen {
    /// The repository path.
    pub closed spec fn spec_repo_path(&self) -> Seq<char> {
        self.repo_path@
    }

    /// A key generator for the repository at `repo_path`, refused only when
    /// the path has no `.git` entry and is not a directory (the repository
    /// itself is opened lazily).
    pub fn new(repo_path: &str, has_git_entry: bool, is_dir: bool) -> (r: Result<Self, GitError>)
        ensures
            !has_git_entry && !is_dir ==> (r matches Err(GitError::RepoNotFound(p)) && p@ == repo_path@),
            has_git_entry || is_dir ==> (r matches Ok(k) && k.spec_repo_path() == repo_path@),
    {
        if !has_git_entry && !is_dir {
            return Err(GitError::RepoNotFound(repo_path.to_string()));
        }
        Ok(GitHashKeygen { repo_path: repo_path.to_string() })
    }

    /// The repository path.
    pub fn repo_path(&self) -> (r: &str)
        ensures
            r@ == self.spec_repo_path(),
    {
        self.repo_path.as_str()
    }
}

/// The tips of the branches other than the current one, in listing order.
pub open spec fn other_tips(branches: Seq<(Seq<char>, Seq<char>)>, current: Option<Seq<char>>) -> Seq<Seq<char>>
    decreases branches.len(),
{
    if branches.len() == 0 {
        Seq::empty()
    } else {
        let rest = other_tips(branches.drop_last(), current);
        if current == Some(branches.last().0) {
            rest
        } else {
            rest.push(branches.last().1)
        }
    }
}

/// The base commit: the first of the first `MAX_COMMITS` first-parent
/// ancestors of the head (the head first) that is the tip of another branch.
pub open spec fn base_commit(walk: Seq<Seq<char>>, tips: Seq<Seq<char>>) -> Option<Seq<char>>
    decreases walk.len(),
{
    base_commit_within(walk, tips, MAX_COMMITS as nat)
}

/// The first of at most `limit` commits of `walk` that is one of `tips`.
pub open spec fn base_commit_within(walk: Seq<Seq<char>>, tips: Seq<Seq<char>>, limit: nat) -> Option<Seq<char>>
    decreases walk.len(),
{
    if walk.len() == 0 || limit == 0 {
        None
    } else if tips.contains(walk[0]) {
        Some(walk[0])
    } else {
        base_commit_within(walk.drop_first(), tips, (limit - 1) as nat)
    }
}

/// The base commit is the first commit, among the first `limit` of `walk`,
/// that is a tip: it is the commit at some place `i < limit` of `walk` that
/// is a tip while no earlier one is; and there is none exactly when none of
/// the first `limit` commits is a tip.
pub proof fn lemma_base_commit_first_tip(walk: Seq<Seq<char>>, tips: Seq<Seq<char>>, limit: nat)
    ensures
        match base_commit_within(walk, tips, limit) {
            Some(c) => exists|i: int|
                0 <= i < walk.len() && i < limit && walk[i] == c && tips.contains(walk[i]) && forall|j: int|
                    0 <= j < i ==> !tips.contains(#[trigger] walk[j]),
            None => forall|i: int| 0 <= i < walk.len() && i < limit ==> !tips.contains(#[trigger] walk[i]),
        },
    decreases walk.len(),
{
    if walk.len() > 0 && limit > 0 && !tips.contains(walk[0]) {
        let rest = walk.drop_first();
        lemma_base_commit_first_tip(rest, tips, (limit - 1) as nat);
        match base_commit_within(rest, tips, (limit - 1) as nat) {
            Some(c) => {
                let i = choose|i: int|
                    0 <= i < rest.len() && i < limit - 1 && rest[i] == c && tips.contains(rest[i]) && forall|j: int|
                        0 <= j < i ==> !tips.contains(#[trigger] rest[j]);
                assert(walk[i + 1] == rest[i]);
                assert forall|j: int| 0 <= j < i + 1 implies !tips.contains(#[trigger] walk[j]) by {
                    if j > 0 {
                        assert(walk[j] == rest[j - 1]);
                    }
                }
            },
            None => {
                assert forall|i: int| 0 <= i < walk.len() && i < limit implies !tips.contains(#[trigger] walk[i]) by {
                    if i > 0 {
                        assert(walk[i] == rest[i - 1]);
                    }
                }
            },
        }
    } else if walk.len() > 0 && limit > 0 {
        assert(forall|j: int| 0 <= j < 0 ==> !tips.contains(#[trigger] walk[j]));
    }
}

fn same_string(a: &String, b: &String) -> (r: bool)
    ensures
        r == (a@ == b@),
{
    *a == *b
}

/// The tips of the local branches other than `current`, given each branch
/// as its full reference name and tip commit.
pub fn other_branch_tips(branches: &Vec<(String, String)>, current: Option<&String>) -> (r: Vec<String>)
    ensures
        strings_view(r@) == other_tips(
            branches@.map_values(|b: (String, String)| (b.0@, b.1@)),
            match current {
                Some(c) => Some(c@),
                None => None,
            },
        ),
{
    let ghost bv = branches@.map_values(|b: (String, String)| (b.0@, b.1@));
    let ghost cur = match current {
        Some(c) => Some(c@),
        None => None::<Seq<char>>,
    };
    let mut r: Vec<String> = Vec::new();
    let mut i: usize = 0;
    while i < branches.len()
        invariant
            i <= branches@.len(),
            bv == branches@.map_values(|b: (String, String)| (b.0@, b.1@)),
            cur == match current {
                Some(c) => Some(c@),
                None => None::<Seq<char>>,
            },
            strings_view(r@) == other_tips(bv.subrange(0, i as int), cur),
        decreases branches@.len() - i,
    {
        proof {
            assert(bv.subrange(0, i + 1).drop_last() =~= bv.subrange(0, i as int));
            assert(bv.subrange(0, i + 1).last() == (branches@[i as int].0@, branches@[i as int].1@));
        }
        let is_current = match current {
            Some(c) => same_string(&branches[i].0, c),
            None => false,
        };
        if !is_current {
            let tip = branches[i].1.clone();
            let ghost before = r@;
            r.push(tip);
            proof {
                assert(strings_view(r@) =~= strings_view(before).push(branches@[i as int].1@));
            }
        }
        i = i + 1;
    }
    proof {
        assert(bv.subrange(0, branches@.len() as int) =~= bv);
    }
    r
}

fn is_tip(tips: &Vec<String>, id: &String) -> (r: bool)
    ensures
        r == strings_view(tips@).contains(id@),
{
    let mut i: usize = 0;
    while i < tips.len()
        invariant
            i <= tips@.len(),
            forall|j: int| 0 <= j < i ==> tips@[j]@ != id@,
        decreases tips@.len() - i,
    {
        if same_string(&tips[i], id) {
            proof {
                assert(strings_view(tips@)[i as int] == id@);
            }
            return true;
        }
        i = i + 1;
    }
    proof {
        if strings_view(tips@).contains(id@) {
            let j = choose|j: int| 0 <= j < strings_view(tips@).len() && strings_view(tips@)[j] == id@;
            assert(tips@[j]@ == id@);
        }
    }
    false
}

/// The base commit among the first-parent ancestors `walk` of the head
/// (see `base_commit`).
pub fn select_base_commit(walk: &Vec<String>, tips: &Vec<String>) -> (r: Option<String>)
    ensures
        match r {
            Some(s) => base_commit(strings_view(walk@), strings_view(tips@)) == Some(s@),
            None => base_commit(strings_view(walk@), strings_view(tips@)) is None,
        },
{
    let ghost w = strings_view(walk@);
    let ghost t = strings_view(tips@);
    let mut i: usize = 0;
    proof {
        assert(w.subrange(0, w.len() as int) =~= w);
    }
    while i < walk.len() && i < MAX_COMMITS
        invariant
            w == strings_view(walk@),
            t == strings_view(tips@),
            i <= walk@.len(),
            i <= MAX_COMMITS,
            base_commit(w, t) == base_commit_within(w.subrange(i as int, w.len() as int), t, (MAX_COMMITS - i) as nat),
        decreases walk@.len() - i,
    {
        let ghost rest = w.subrange(i as int, w.len() as int);
        proof {
            assert(rest[0] == walk@[i as int]@);
            assert(rest.drop_first() =~= w.subrange(i + 1, w.len() as int));
        }
        if is_tip(tips, &walk[i]) {
            return Some(walk[i].clone());
        }
        i = i + 1;
    }
    None
}

} // verus!
