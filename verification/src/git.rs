//! Parsing and assembly of repository facts from inspector output.
//!
//! The inspector itself is a separate program; what stands here is the
//! grammar of its output: ref lines, remote lines, root listings, the
//! bare-repository answer, and the description file, together with the
//! assembly of a whole `Repo` from those pieces.

use vstd::prelude::*;

use crate::data::{Branch, BranchV, Link, Outcome, Repo, RepoV, distinct_keys, distinct_strings,
    pairs_to_map};
use crate::text::{contains_string, fields_spec, fields_of, lemma_contains_push, lines_spec,
    lines_of, starts_with_spec, str_starts_with, strip_prefix_of, trim_spec, trim_of};
use crate::data::upsert;

verus! {

/// Everything that can go wrong while reading inspector output.
#[derive(Debug, Clone, Copy, PartialEq, Eq, Structural)]
pub enum Error {
    /// A ref line held no field at all.
    RefLineEmpty,
    /// A ref line held a hash but no ref name.
    RefLineMissingName,
    /// A ref line held more than its two fields.
    RefLineExtraField,
    /// A remote line held no field at all.
    RemoteLineEmpty,
    /// A remote line held a name but no address.
    RemoteLineMissingAddr,
    /// A branch leaf resolved to no root commit at all.
    NoRoots,
    /// The repository's description file could not be read.
    NoDescription,
    /// The root listings do not line up with the branch leaves.
    RootsMismatch,
    /// The bare-repository answer was neither `true` nor `false`.
    BadBool,
}

/// One line of ref output: a commit hash and a ref name.
#[derive(Debug, Clone)]
pub struct TreeRef {
    pub name: String,
    pub hash: String,
}

/// What a ref line means: exactly two fields, hash first.
pub open spec fn tree_ref_spec(s: Seq<char>) -> Result<(Seq<char>, Seq<char>), Error> {
    let fs = fields_spec(s);
    if fs.len() == 0 {
        Err(Error::RefLineEmpty)
    } else if fs.len() == 1 {
        Err(Error::RefLineMissingName)
    } else if fs.len() > 2 {
        Err(Error::RefLineExtraField)
    } else {
        Ok((fs[0], fs[1]))
    }
}

impl TreeRef {
    /// Parses one ref line into its hash and name.
    pub fn from_line(s: &str) -> (r: Result<TreeRef, Error>)
        ensures
            match r {
                Ok(t) => tree_ref_spec(s@) == Ok::<(Seq<char>, Seq<char>), Error>((t.hash@, t.name@)),
                Err(e) => tree_ref_spec(s@) == Err::<(Seq<char>, Seq<char>), Error>(e),
            },
    {
        let fs = fields_of(s);
        if fs.len() == 0 {
            Err(Error::RefLineEmpty)
        } else if fs.len() == 1 {
            Err(Error::RefLineMissingName)
        } else if fs.len() > 2 {
            Err(Error::RefLineExtraField)
        } else {
            let hash = fs[0].clone();
            let name = fs[1].clone();
            Ok(TreeRef { name, hash })
        }
    }
}

/// One line of remote output: a remote name and its address.
#[derive(Debug, Clone)]
pub struct RemoteRef {
    pub name: String,
    pub addr: String,
}

/// What a remote line means: name then address; anything further,
/// such as a direction tag, is ignored.
pub open spec fn remote_ref_spec(s: Seq<char>) -> Result<(Seq<char>, Seq<char>), Error> {
    let fs = fields_spec(s);
    if fs.len() == 0 {
        Err(Error::RemoteLineEmpty)
    } else if fs.len() == 1 {
        Err(Error::RemoteLineMissingAddr)
    } else {
        Ok((fs[0], fs[1]))
    }
}

impl RemoteRef {
    /// Parses one remote line into its name and address.
    pub fn from_line(s: &str) -> (r: Result<RemoteRef, Error>)
        ensures
            match r {
                Ok(t) => remote_ref_spec(s@) == Ok::<(Seq<char>, Seq<char>), Error>((t.name@, t.addr@)),
                Err(e) => remote_ref_spec(s@) == Err::<(Seq<char>, Seq<char>), Error>(e),
            },
    {
        let fs = fields_of(s);
        if fs.len() == 0 {
            Err(Error::RemoteLineEmpty)
        } else if fs.len() == 1 {
            Err(Error::RemoteLineMissingAddr)
        } else {
            let name = fs[0].clone();
            let addr = fs[1].clone();
            Ok(RemoteRef { name, addr })
        }
    }
}

/// The branch listing that ref lines stand for: each line parsed as a
/// ref, kept under its bare name when it lies under `refs/heads/`,
/// later lines winning; the first bad line is the result.
pub open spec fn branch_leaves_from(lines: Seq<Seq<char>>) -> Result<Map<Seq<char>, Seq<char>>, Error>
    decreases lines.len(),
{
    if lines.len() == 0 {
        Ok(Map::empty())
    } else {
        match branch_leaves_from(lines.drop_last()) {
            Err(e) => Err(e),
            Ok(m) => match tree_ref_spec(lines.last()) {
                Err(e) => Err(e),
                Ok(hn) => if starts_with_spec(hn.1, "refs/heads/"@) {
                    Ok(m.insert(hn.1.subrange("refs/heads/"@.len() as int, hn.1.len() as int), hn.0))
                } else {
                    Ok(m)
                },
            },
        }
    }
}

proof fn lemma_branch_leaves_err(lines: Seq<Seq<char>>, j: int, e: Error)
    requires
        0 <= j <= lines.len(),
        branch_leaves_from(lines.subrange(0, j)) == Err::<Map<Seq<char>, Seq<char>>, Error>(e),
    ensures
        branch_leaves_from(lines) == Err::<Map<Seq<char>, Seq<char>>, Error>(e),
    decreases lines.len() - j,
{
    if j == lines.len() {
        assert(lines.subrange(0, j) =~= lines);
    } else {
        assert(lines.subrange(0, j + 1).drop_last() =~= lines.subrange(0, j));
        lemma_branch_leaves_err(lines, j + 1, e);
    }
}

/// Reads the branch listing out of ref output, one branch per bare
/// name under `refs/heads/`.
pub fn branch_leaves(out: &str) -> (r: Result<Vec<(String, String)>, Error>)
    ensures
        match r {
            Ok(v) => {
                &&& distinct_keys(v.deep_view())
                &&& branch_leaves_from(lines_spec(out@))
                    == Ok::<Map<Seq<char>, Seq<char>>, Error>(pairs_to_map(v.deep_view()))
            },
            Err(e) => branch_leaves_from(lines_spec(out@))
                == Err::<Map<Seq<char>, Seq<char>>, Error>(e),
        },
{
    let lines = lines_of(out);
    let n = lines.len();
    let mut refs: Vec<(String, String)> = Vec::new();
    let mut i: usize = 0;
    while i < n
        invariant
            0 <= i <= n == lines@.len(),
            lines.deep_view() == lines_spec(out@),
            distinct_keys(refs.deep_view()),
            branch_leaves_from(lines.deep_view().subrange(0, i as int))
                == Ok::<Map<Seq<char>, Seq<char>>, Error>(pairs_to_map(refs.deep_view())),
        decreases n - i,
    {
        proof {
            assert(lines.deep_view().subrange(0, i + 1).drop_last()
                =~= lines.deep_view().subrange(0, i as int));
            assert(lines.deep_view().subrange(0, i + 1).last() == lines.deep_view()[i as int]);
        }
        match TreeRef::from_line(lines[i].as_str()) {
            Err(e) => {
                proof {
                    lemma_branch_leaves_err(lines.deep_view(), i + 1, e);
                }
                return Err(e);
            },
            Ok(tr) => {
                match strip_prefix_of(tr.name.as_str(), "refs/heads/") {
                    Some(bare) => {
                        upsert(&mut refs, bare, tr.hash);
                    },
                    None => {},
                }
            },
        }
        i = i + 1;
    }
    proof {
        assert(lines.deep_view().subrange(0, n as int) =~= lines.deep_view());
    }
    Ok(refs)
}

/// The remote listing that remote lines stand for: each line parsed,
/// kept under its remote name, later lines winning; the first bad line
/// is the result.
pub open spec fn remote_refs_from(lines: Seq<Seq<char>>) -> Result<Map<Seq<char>, Seq<char>>, Error>
    decreases lines.len(),
{
    if lines.len() == 0 {
        Ok(Map::empty())
    } else {
        match remote_refs_from(lines.drop_last()) {
            Err(e) => Err(e),
            Ok(m) => match remote_ref_spec(lines.last()) {
                Err(e) => Err(e),
                Ok(na) => Ok(m.insert(na.0, na.1)),
            },
        }
    }
}

proof fn lemma_remote_refs_err(lines: Seq<Seq<char>>, j: int, e: Error)
    requires
        0 <= j <= lines.len(),
        remote_refs_from(lines.subrange(0, j)) == Err::<Map<Seq<char>, Seq<char>>, Error>(e),
    ensures
        remote_refs_from(lines) == Err::<Map<Seq<char>, Seq<char>>, Error>(e),
    decreases lines.len() - j,
{
    if j == lines.len() {
        assert(lines.subrange(0, j) =~= lines);
    } else {
        assert(lines.subrange(0, j + 1).drop_last() =~= lines.subrange(0, j));
        lemma_remote_refs_err(lines, j + 1, e);
    }
}

/// Reads the remote listing out of remote output, one address per
/// remote name.
pub fn remote_refs(out: &str) -> (r: Result<Vec<(String, String)>, Error>)
    ensures
        match r {
            Ok(v) => {
                &&& distinct_keys(v.deep_view())
                &&& remote_refs_from(lines_spec(out@))
                    == Ok::<Map<Seq<char>, Seq<char>>, Error>(pairs_to_map(v.deep_view()))
            },
            Err(e) => remote_refs_from(lines_spec(out@))
                == Err::<Map<Seq<char>, Seq<char>>, Error>(e),
        },
{
    let lines = lines_of(out);
    let n = lines.len();
    let mut remotes: Vec<(String, String)> = Vec::new();
    let mut i: usize = 0;
    while i < n
        invariant
            0 <= i <= n == lines@.len(),
            lines.deep_view() == lines_spec(out@),
            distinct_keys(remotes.deep_view()),
            remote_refs_from(lines.deep_view().subrange(0, i as int))
                == Ok::<Map<Seq<char>, Seq<char>>, Error>(pairs_to_map(remotes.deep_view())),
        decreases n - i,
    {
        proof {
            assert(lines.deep_view().subrange(0, i + 1).drop_last()
                =~= lines.deep_view().subrange(0, i as int));
            assert(lines.deep_view().subrange(0, i + 1).last() == lines.deep_view()[i as int]);
        }
        match RemoteRef::from_line(lines[i].as_str()) {
            Err(e) => {
                proof {
                    lemma_remote_refs_err(lines.deep_view(), i + 1, e);
                }
                return Err(e);
            },
            Ok(rr) => {
                upsert(&mut remotes, rr.name, rr.addr);
            },
        }
        i = i + 1;
    }
    proof {
        assert(lines.deep_view().subrange(0, n as int) =~= lines.deep_view());
    }
    Ok(remotes)
}

/// The set of root commits that a root listing stands for: its lines,
/// as a set; a listing with no line at all is a failure, not an empty
/// branch.
pub open spec fn roots_spec(out: Seq<char>) -> Result<Set<Seq<char>>, Error> {
    if lines_spec(out).len() == 0 {
        Err(Error::NoRoots)
    } else {
        Ok(lines_spec(out).to_set())
    }
}

/// Reads the root commits of one branch out of a root listing,
/// without repeats.
pub fn branch_roots(out: &str) -> (r: Result<Vec<String>, Error>)
    ensures
        match r {
            Ok(v) => {
                &&& v@.len() > 0
                &&& distinct_strings(v.deep_view())
                &&& roots_spec(out@) == Ok::<Set<Seq<char>>, Error>(v.deep_view().to_set())
            },
            Err(e) => roots_spec(out@) == Err::<Set<Seq<char>>, Error>(e),
        },
{
    let lines = lines_of(out);
    let n = lines.len();
    if n == 0 {
        return Err(Error::NoRoots);
    }
    let mut roots: Vec<String> = Vec::new();
    let mut i: usize = 0;
    while i < n
        invariant
            0 <= i <= n == lines@.len(),
            lines.deep_view() == lines_spec(out@),
            distinct_strings(roots.deep_view()),
            i > 0 ==> roots@.len() > 0,
            forall|x: Seq<char>| roots.deep_view().contains(x)
                <==> lines.deep_view().subrange(0, i as int).contains(x),
        decreases n - i,
    {
        let ghost prefix = lines.deep_view().subrange(0, i as int);
        proof {
            assert(lines.deep_view().subrange(0, i + 1) =~= prefix.push(lines.deep_view()[i as int]));
        }
        if !contains_string(&roots, &lines[i]) {
            let ghost prev = roots.deep_view();
            roots.push(lines[i].clone());
            proof {
                assert(roots.deep_view() =~= prev.push(lines.deep_view()[i as int]));
                assert forall|x: Seq<char>| roots.deep_view().contains(x)
                    <==> lines.deep_view().subrange(0, i + 1).contains(x) by {
                    lemma_contains_push(prev, lines.deep_view()[i as int], x);
                    lemma_contains_push(prefix, lines.deep_view()[i as int], x);
                }
            }
        } else {
            proof {
                assert forall|x: Seq<char>| roots.deep_view().contains(x)
                    <==> lines.deep_view().subrange(0, i + 1).contains(x) by {
                    lemma_contains_push(prefix, lines.deep_view()[i as int], x);
                }
            }
        }
        i = i + 1;
    }
    proof {
        assert(lines.deep_view().subrange(0, n as int) =~= lines.deep_view());
        assert(roots.deep_view().to_set() =~= lines_spec(out@).to_set());
        assert(lines.deep_view().contains(lines.deep_view()[0]));
        assert(roots.deep_view().len() > 0);
    }
    Ok(roots)
}

/// What the bare-repository answer means: `true` or `false` around
/// whitespace, and nothing else.
pub open spec fn is_bare_spec(out: Seq<char>) -> Result<bool, Error> {
    if trim_spec(out) == "true"@ {
        Ok(true)
    } else if trim_spec(out) == "false"@ {
        Ok(false)
    } else {
        Err(Error::BadBool)
    }
}

/// Reads the bare-repository answer.
pub fn is_bare(out: &str) -> (r: Result<bool, Error>)
    ensures
        r == is_bare_spec(out@),
{
    let t = trim_of(out);
    let true_s: String = "true".to_owned();
    let false_s: String = "false".to_owned();
    if t == true_s {
        Ok(true)
    } else if t == false_s {
        Ok(false)
    } else {
        Err(Error::BadBool)
    }
}

/// What the description file means: its text, unless it is the
/// placeholder an unnamed repository carries.
pub open spec fn description_spec(contents: Seq<char>) -> Option<Seq<char>> {
    if starts_with_spec(contents, "Unnamed repository;"@) {
        None
    } else {
        Some(contents)
    }
}

/// Reads the free-text description, dropping the unnamed placeholder.
pub fn description_of(contents: &str) -> (r: Option<String>)
    ensures
        match r {
            Some(d) => description_spec(contents@) == Some(d@),
            None => description_spec(contents@) is None,
        },
{
    if str_starts_with(contents, "Unnamed repository;") {
        None
    } else {
        Some(contents.to_owned())
    }
}

/// The branch mapping assembled from leaves and their root listings,
/// one listing per leaf, in order; the first bad listing is the result.
pub open spec fn branches_spec(
    leaves: Seq<(Seq<char>, Seq<char>)>,
    roots_outs: Seq<Seq<char>>,
) -> Result<Map<Seq<char>, BranchV>, Error>
    decreases leaves.len(),
{
    if leaves.len() == 0 {
        Ok(Map::empty())
    } else {
        match branches_spec(leaves.drop_last(), roots_outs.drop_last()) {
            Err(e) => Err(e),
            Ok(m) => match roots_spec(roots_outs.last()) {
                Err(e) => Err(e),
                Ok(roots) => Ok(
                    m.insert(leaves.last().0, BranchV { roots, leaf: leaves.last().1 }),
                ),
            },
        }
    }
}

proof fn lemma_branches_err(
    leaves: Seq<(Seq<char>, Seq<char>)>,
    roots_outs: Seq<Seq<char>>,
    j: int,
    e: Error,
)
    requires
        0 <= j <= leaves.len() == roots_outs.len(),
        branches_spec(leaves.subrange(0, j), roots_outs.subrange(0, j))
            == Err::<Map<Seq<char>, BranchV>, Error>(e),
    ensures
        branches_spec(leaves, roots_outs) == Err::<Map<Seq<char>, BranchV>, Error>(e),
    decreases leaves.len() - j,
{
    if j == leaves.len() {
        assert(leaves.subrange(0, j) =~= leaves);
        assert(roots_outs.subrange(0, j) =~= roots_outs);
    } else {
        assert(leaves.subrange(0, j + 1).drop_last() =~= leaves.subrange(0, j));
        assert(roots_outs.subrange(0, j + 1).drop_last() =~= roots_outs.subrange(0, j));
        lemma_branches_err(leaves, roots_outs, j + 1, e);
    }
}

/// What assembling a whole repository record means, from the pieces
/// the inspector hands over: the description file (or its absence),
/// the branch leaves, one root listing per leaf, and the remote
/// output. The description is read first, then the branches, then the
/// remotes, and the first failure is the failure of the whole.
pub open spec fn read_from_fs_spec(
    desc: Option<Seq<char>>,
    leaves: Seq<(Seq<char>, Seq<char>)>,
    roots_outs: Seq<Seq<char>>,
    remotes_out: Seq<char>,
) -> Result<RepoV, Error> {
    match desc {
        None => Err(Error::NoDescription),
        Some(d) => if leaves.len() != roots_outs.len() {
            Err(Error::RootsMismatch)
        } else {
            match branches_spec(leaves, roots_outs) {
                Err(e) => Err(e),
                Ok(branches) => match remote_refs_from(lines_spec(remotes_out)) {
                    Err(e) => Err(e),
                    Ok(remotes) => Ok(
                        RepoV { description: description_spec(d), remotes, branches },
                    ),
                },
            }
        },
    }
}

impl Repo {
    /// Assembles a repository record from the inspector's pieces: the
    /// description file's contents (or its absence), the branch leaves
    /// as `branch_leaves` returned them, one root listing per leaf in
    /// the same order, and the remote output.
    #[verifier::loop_isolation(false)]
    pub fn read_from_fs(
        description_file: Option<String>,
        leaves: &Vec<(String, String)>,
        roots_outs: &Vec<String>,
        remotes_out: &str,
    ) -> (r: Result<Repo, Error>)
        ensures
            match r {
                Ok(repo) => {
                    &&& repo.wf()
                    &&& read_from_fs_spec(
                        match description_file { Some(ref d) => Some(d@), None => None },
                        leaves.deep_view(),
                        roots_outs.deep_view(),
                        remotes_out@,
                    ) == Ok::<RepoV, Error>(repo@)
                },
                Err(e) => read_from_fs_spec(
                    match description_file { Some(ref d) => Some(d@), None => None },
                    leaves.deep_view(),
                    roots_outs.deep_view(),
                    remotes_out@,
                ) == Err::<RepoV, Error>(e),
            },
    {
        let desc: &String = match &description_file {
            None => {
                return Err(Error::NoDescription);
            },
            Some(d) => d,
        };
        let n = leaves.len();
        if n != roots_outs.len() {
            return Err(Error::RootsMismatch);
        }
        let mut branches: Vec<(String, Branch)> = Vec::new();
        let mut i: usize = 0;
        while i < n
            invariant
                0 <= i <= n == leaves@.len(),
                n == roots_outs@.len(),
                distinct_keys(branches.deep_view()),
                forall|t: int| 0 <= t < branches@.len() ==> (#[trigger] branches@[t].1).wf(),
                branches_spec(
                    leaves.deep_view().subrange(0, i as int),
                    roots_outs.deep_view().subrange(0, i as int),
                ) == Ok::<Map<Seq<char>, BranchV>, Error>(pairs_to_map(branches.deep_view())),
            decreases n - i,
        {
            proof {
                assert(leaves.deep_view().subrange(0, i + 1).drop_last()
                    =~= leaves.deep_view().subrange(0, i as int));
                assert(roots_outs.deep_view().subrange(0, i + 1).drop_last()
                    =~= roots_outs.deep_view().subrange(0, i as int));
                assert(leaves.deep_view().subrange(0, i + 1).last()
                    == leaves.deep_view()[i as int]);
                assert(roots_outs.deep_view().subrange(0, i + 1).last()
                    == roots_outs.deep_view()[i as int]);
            }
            match branch_roots(roots_outs[i].as_str()) {
                Err(e) => {
                    proof {
                        lemma_branches_err(leaves.deep_view(), roots_outs.deep_view(), i + 1, e);
                    }
                    return Err(e);
                },
                Ok(roots) => {
                    let name = leaves[i].0.clone();
                    let leaf = leaves[i].1.clone();
                    let branch = Branch { roots, leaf };
                    proof {
                        assert(branch.wf());
                        assert(branch@ == BranchV {
                            roots: branch.roots.deep_view().to_set(),
                            leaf: leaves.deep_view()[i as int].1,
                        });
                    }
                    upsert(&mut branches, name, branch);
                },
            }
            i = i + 1;
        }
        proof {
            assert(leaves.deep_view().subrange(0, n as int) =~= leaves.deep_view());
            assert(roots_outs.deep_view().subrange(0, n as int) =~= roots_outs.deep_view());
        }
        let remotes = match remote_refs(remotes_out) {
            Err(e) => {
                return Err(e);
            },
            Ok(v) => v,
        };
        let description = description_of(desc.as_str());
        let repo = Repo { description, remotes, branches };
        proof {
            assert(repo.wf());
        }
        Ok(repo)
    }
}

/// Copies a link; the copy stands for the same location.
pub fn clone_link(l: &Link) -> (r: Link)
    ensures
        r@ == l@,
{
    match l {
        Link::Fs { dir } => Link::Fs { dir: dir.clone() },
        Link::Net { url } => Link::Net { url: url.clone() },
    }
}

/// Builds the record of one inspection attempt: the inspecting host,
/// the location, and the facts found there, if any. The record exists
/// whether or not inspection succeeded.
pub fn outcome(host: &str, link: &Link, repo: Option<Repo>) -> (v: Outcome)
    ensures
        v.host@ == host@,
        v.link@ == link@,
        v@.repo == match repo {
            Some(ref r) => Some(r@),
            None => None::<RepoV>,
        },
        v.repo is Some <==> repo is Some,
        v.wf() == match repo {
            Some(ref r) => r.wf(),
            None => true,
        },
{
    Outcome { host: host.to_owned(), link: clone_link(link), repo }
}

} // verus!
