//! In-memory picture of the directories below one root.
//!
//! The engine never touches the filesystem: callers walk a directory tree and
//! hand in a `Snapshot`, the list of directories they saw, each as a path
//! relative to the root that was walked (the root itself is the empty path).
//! The checkout probe and the hidden-name test are decided on that picture.

use vstd::prelude::*;

use crate::paths::RepoPath;

verus! {

/// The directories below one root, as relative paths. The root itself is the
/// empty path; a caller that walked the root includes it.
#[derive(Debug, Clone)]
pub struct Snapshot {
    pub dirs: Vec<RepoPath>,
}

impl View for Snapshot {
    type V = Seq<Seq<Seq<char>>>;

    open spec fn view(&self) -> Seq<Seq<Seq<char>>> {
        self.dirs.deep_view()
    }
}

/// The name of the metadata directory that marks a checkout root.
pub open spec fn git_dir_name() -> Seq<char> {
    ".git"@
}

/// A name that begins with a dot: such directories are never scanned.
pub open spec fn hidden_name(s: Seq<char>) -> bool {
    s.len() > 0 && s[0] == '.'
}

/// The snapshot lists this directory.
pub open spec fn dir_listed(dirs: Seq<Seq<Seq<char>>>, p: Seq<Seq<char>>) -> bool {
    dirs.contains(p)
}

/// The directory at `p` is a checkout root: it has the metadata directory
/// directly beneath it.
pub open spec fn checkout_at(dirs: Seq<Seq<Seq<char>>>, p: Seq<Seq<char>>) -> bool {
    dirs.contains(p.push(git_dir_name()))
}

/// Whether a single name begins with a dot.
pub fn name_is_hidden(s: &str) -> (r: bool)
    ensures
        r == hidden_name(s@),
{
    if s.is_empty() {
        return false;
    }
    let c = s.get_char(0);
    c == '.'
}

/// Whether the directory the path names is hidden: its own name begins with
/// a dot.
pub fn is_hidden(path: &RepoPath) -> (r: bool)
    requires
        path@.len() > 0,
    ensures
        r == hidden_name(path@.last()),
{
    let n = path.segments.len();
    name_is_hidden(path.segments[n - 1].as_str())
}

impl Snapshot {
    /// Whether this snapshot lists the directory `p`.
    pub fn lists(&self, p: &RepoPath) -> (r: bool)
        ensures
            r == dir_listed(self@, p@),
    {
        let mut i: usize = 0;
        while i < self.dirs.len()
            invariant
                i <= self.dirs.len(),
                forall|j: int| 0 <= j < i ==> self@[j] != p@,
            decreases self.dirs.len() - i,
        {
            if self.dirs[i].same_as(p) {
                assert(self@[i as int] == p@);
                return true;
            }
            i = i + 1;
        }
        assert(!self@.contains(p@));
        false
    }
}

/// The checkout probe: the path names a directory with the version-control
/// metadata directory directly beneath it. `path` is relative to the root the
/// snapshot was taken from; the empty path asks about that root itself.
pub fn is_git_repository(snapshot: &Snapshot, path: &RepoPath) -> (r: bool)
    ensures
        r == checkout_at(snapshot@, path@),
{
    let child = git_child(path);
    snapshot.lists(&child)
}

/// The path of the metadata directory directly beneath `path`.
pub fn git_child(path: &RepoPath) -> (r: RepoPath)
    ensures
        r@ == path@.push(git_dir_name()),
{
    let mut out = path.duplicate();
    let name: String = ".git".to_owned();
    out.segments.push(name);
    proof {
        assert(out@ =~= path@.push(git_dir_name()));
    }
    out
}

} // verus!
