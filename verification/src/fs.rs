//! The filesystem walker's decision logic.
//!
//! The walker keeps an explicit last-in-first-out frontier of paths.
//! Reading the filesystem itself is the caller's part: the caller pops
//! the next candidate, looks at it, and hands back what it saw as a
//! `Node`; the walker decides what the observation means. Paths are
//! plain strings with `/` between components.

use vstd::prelude::*;

use crate::text::{clone_strings, contains_string};

verus! {

/// What the caller saw when it looked at a popped path.
pub enum Node {
    /// The path no longer exists, or its metadata could not be read.
    Missing,
    /// The path is a symbolic link; `target` is where it points, or
    /// nothing when the link could not be read.
    Symlink { target: Option<String> },
    /// The path is a directory; `children` are the full paths of its
    /// entries, or nothing when the directory could not be read.
    Dir { children: Option<Vec<String>> },
    /// Any other kind of file.
    Other,
}

/// The walker's state: the marker name that identifies a match, the
/// symlink-follow switch, the paths to ignore (exact matches only),
/// and the frontier still to visit.
pub struct Dirs {
    pub target_name: String,
    pub follow: bool,
    pub ignore: Vec<String>,
    pub frontier: Vec<String>,
}

/// What popping the frontier means: drop ignored paths from the top,
/// then hand over the first path that is not ignored, with the
/// frontier that remains.
pub open spec fn pop_spec(frontier: Seq<Seq<char>>, ignore: Seq<Seq<char>>) -> (Seq<Seq<char>>, Option<Seq<char>>)
    decreases frontier.len(),
{
    if frontier.len() == 0 {
        (frontier, None)
    } else if ignore.contains(frontier.last()) {
        pop_spec(frontier.drop_last(), ignore)
    } else {
        (frontier.drop_last(), Some(frontier.last()))
    }
}

/// Ignoring is exact. A path in the ignore set is never handed over —
/// its subtree dies with it, since only handed-over candidates ever
/// push children. And membership is whole-path equality: a path not
/// itself in the set is handed over even when an ignored path is a
/// proper prefix of it.
pub proof fn lemma_ignore_exact(frontier: Seq<Seq<char>>, ignore: Seq<Seq<char>>, p: Seq<char>)
    ensures
        pop_spec(frontier, ignore).1 == Some(p) ==> !ignore.contains(p),
        !ignore.contains(p) ==> pop_spec(seq![p], ignore).1 == Some(p),
        ignore.contains(p) ==> pop_spec(seq![p], ignore).1 is None,
    decreases frontier.len(),
{
    if frontier.len() > 0 && ignore.contains(frontier.last()) {
        lemma_ignore_exact(frontier.drop_last(), ignore, p);
    }
    let single = seq![p];
    assert(single.len() == 1 && single.last() == p);
    assert(single.drop_last() =~= Seq::<Seq<char>>::empty());
    assert(pop_spec(Seq::<Seq<char>>::empty(), ignore).1 is None);
    if ignore.contains(p) {
        assert(pop_spec(single, ignore) == pop_spec(single.drop_last(), ignore));
    }
}

/// The index where the final path component begins, scanning down
/// from `i`: right after the last separator before `i`.
pub open spec fn base_start(p: Seq<char>, i: int) -> int
    decreases i,
{
    if i <= 0 {
        0
    } else if p[i - 1] == '/' {
        i
    } else {
        base_start(p, i - 1)
    }
}

/// The final component of a path: everything after its last separator.
pub open spec fn base_name_spec(p: Seq<char>) -> Seq<char> {
    p.subrange(base_start(p, p.len() as int), p.len() as int)
}

proof fn lemma_base_start_unique(p: Seq<char>, i: int, j: int)
    requires
        0 <= j <= i <= p.len(),
        forall|k: int| j <= k < i ==> p[k] != '/',
        j == 0 || p[j - 1] == '/',
    ensures
        base_start(p, i) == j,
    decreases i - j,
{
    if i > j {
        lemma_base_start_unique(p, i - 1, j);
    }
}

/// The final component of `p`: everything after the last `/`, or all
/// of `p` when it has none.
pub fn base_name(p: &str) -> (r: String)
    ensures
        r@ == base_name_spec(p@),
{
    let n = p.unicode_len();
    let mut j: usize = n;
    while j > 0 && p.get_char(j - 1) != '/'
        invariant
            0 <= j <= n == p@.len(),
            forall|k: int| j <= k < n ==> p@[k] != '/',
        decreases j,
    {
        j = j - 1;
    }
    proof {
        lemma_base_start_unique(p@, p@.len() as int, j as int);
    }
    let r = p.substring_char(j, n);
    r.to_owned()
}

/// Builds a walker over one root.
pub fn find_dirs(root: &String, target_name: &str, follow: bool, ignore: &Vec<String>) -> (d: Dirs)
    ensures
        d.target_name@ == target_name@,
        d.follow == follow,
        d.ignore.deep_view() == ignore.deep_view(),
        d.frontier.deep_view() =~= seq![root@],
{
    Dirs::init(root, target_name, follow, ignore)
}

impl Dirs {
    /// Builds a walker whose frontier holds just the root.
    pub fn init(root: &String, target_name: &str, follow: bool, ignore: &Vec<String>) -> (d: Dirs)
        ensures
            d.target_name@ == target_name@,
            d.follow == follow,
            d.ignore.deep_view() == ignore.deep_view(),
            d.frontier.deep_view() =~= seq![root@],
    {
        let mut frontier: Vec<String> = Vec::new();
        frontier.push(root.clone());
        let d = Dirs {
            target_name: target_name.to_owned(),
            follow,
            ignore: clone_strings(ignore),
            frontier,
        };
        proof {
            assert(d.frontier.deep_view() =~= seq![root@]);
        }
        d
    }

    /// Pops the next candidate to look at. Paths in the ignore set are
    /// dropped outright, whole subtree and all; a path merely prefixed
    /// by an ignored path is not ignored.
    pub fn pop_candidate(&mut self) -> (r: Option<String>)
        ensures
            final(self).target_name == old(self).target_name,
            final(self).follow == old(self).follow,
            final(self).ignore == old(self).ignore,
            final(self).frontier.deep_view()
                == pop_spec(old(self).frontier.deep_view(), old(self).ignore.deep_view()).0,
            match r {
                Some(p) => pop_spec(old(self).frontier.deep_view(), old(self).ignore.deep_view()).1
                    == Some(p@),
                None => pop_spec(old(self).frontier.deep_view(), old(self).ignore.deep_view()).1
                    is None,
            },
    {
        loop
            invariant
                self.target_name == old(self).target_name,
                self.follow == old(self).follow,
                self.ignore == old(self).ignore,
                pop_spec(self.frontier.deep_view(), self.ignore.deep_view())
                    == pop_spec(old(self).frontier.deep_view(), old(self).ignore.deep_view()),
            decreases self.frontier@.len(),
        {
            let ghost before = self.frontier.deep_view();
            match self.frontier.pop() {
                None => {
                    return None;
                },
                Some(p) => {
                    proof {
                        assert(self.frontier.deep_view() =~= before.drop_last());
                        assert(before.last() == p@);
                    }
                    if !contains_string(&self.ignore, &p) {
                        return Some(p);
                    }
                },
            }
        }
    }

    /// Consumes one observation. The walker never descends into a
    /// match: a directory whose final component equals the marker is
    /// reported and its children are left alone. A directory that
    /// could not be read contributes nothing further; a symbolic link
    /// is followed, onto the frontier, only when following is on.
    pub fn step(&mut self, path: &String, node: Node) -> (matched: bool)
        ensures
            final(self).target_name == old(self).target_name,
            final(self).follow == old(self).follow,
            final(self).ignore == old(self).ignore,
            matched == (node is Dir && base_name_spec(path@) == old(self).target_name@),
            final(self).frontier.deep_view() == match node {
                Node::Missing => old(self).frontier.deep_view(),
                Node::Other => old(self).frontier.deep_view(),
                Node::Symlink { target } => if old(self).follow {
                    match target {
                        Some(t) => old(self).frontier.deep_view().push(t@),
                        None => old(self).frontier.deep_view(),
                    }
                } else {
                    old(self).frontier.deep_view()
                },
                Node::Dir { children } => if base_name_spec(path@) == old(self).target_name@ {
                    old(self).frontier.deep_view()
                } else {
                    match children {
                        Some(cs) => old(self).frontier.deep_view() + cs.deep_view(),
                        None => old(self).frontier.deep_view(),
                    }
                },
            },
    {
        match node {
            Node::Missing => false,
            Node::Other => false,
            Node::Symlink { target } => {
                if self.follow {
                    match target {
                        Some(t) => {
                            let ghost before = self.frontier.deep_view();
                            let ghost tv = t@;
                            self.frontier.push(t);
                            proof {
                                assert(self.frontier.deep_view() =~= before.push(tv));
                            }
                        },
                        None => {},
                    }
                }
                false
            },
            Node::Dir { children } => {
                let name = base_name(path.as_str());
                if name == self.target_name {
                    true
                } else {
                    match children {
                        Some(mut cs) => {
                            let ghost before = self.frontier.deep_view();
                            let ghost csv = cs.deep_view();
                            self.frontier.append(&mut cs);
                            proof {
                                assert(self.frontier.deep_view() =~= before + csv);
                            }
                        },
                        None => {},
                    }
                    false
                }
            },
        }
    }
}

} // verus!
