//! The registry: which paths the operator has registered, each classified at
//! registration time as a single checkout or as a container to scan.
//!
//! Loading and saving the registry are the caller's business; the library
//! holds the registered entries and the rules for adding and removing them.
//! A path is registered under its normalized form, and each list never holds
//! the same path twice.

use vstd::prelude::*;

use crate::fstree::{checkout_at, is_git_repository, Snapshot};
use crate::paths::{lemma_deep_view_after_push, RepoPath};

verus! {

/// A registered single checkout root.
#[derive(Debug, Clone)]
pub struct RepositoryEntry {
    /// The path of the checkout root.
    pub path: RepoPath,
}

impl View for RepositoryEntry {
    type V = Seq<Seq<char>>;

    open spec fn view(&self) -> Seq<Seq<char>> {
        self.path@
    }
}

impl DeepView for RepositoryEntry {
    type V = Seq<Seq<char>>;

    open spec fn deep_view(&self) -> Seq<Seq<char>> {
        self.path@
    }
}

/// A registered container: a directory scanned for checkouts beneath it.
#[derive(Debug, Clone)]
pub struct DirectoryEntry {
    /// The path of the container directory.
    pub path: RepoPath,
}

impl View for DirectoryEntry {
    type V = Seq<Seq<char>>;

    open spec fn view(&self) -> Seq<Seq<char>> {
        self.path@
    }
}

impl DeepView for DirectoryEntry {
    type V = Seq<Seq<char>>;

    open spec fn deep_view(&self) -> Seq<Seq<char>> {
        self.path@
    }
}

/// The registered working-set sources: single checkouts and containers.
#[derive(Debug)]
pub struct Config {
    /// Registered single checkouts.
    pub repositories: Vec<RepositoryEntry>,
    /// Registered container directories.
    pub directories: Vec<DirectoryEntry>,
}

/// What registration sees of a path: it is classified as a checkout when the
/// snapshot of its own directory shows the metadata directory directly
/// beneath it, and as a container otherwise — also when the snapshot is
/// absent because the path does not name a directory.
pub open spec fn probe_is_checkout(snapshot: Option<&Snapshot>) -> bool {
    match snapshot {
        Some(s) => checkout_at(s@, Seq::<Seq<char>>::empty()),
        None => false,
    }
}

impl Config {
    /// Each list holds a path at most once.
    pub open spec fn wf(self) -> bool {
        &&& forall|i: int, j: int|
            0 <= i < j < self.repositories@.len() ==> #[trigger] self.repositories.deep_view()[i]
                != #[trigger] self.repositories.deep_view()[j]
        &&& forall|i: int, j: int|
            0 <= i < j < self.directories@.len() ==> #[trigger] self.directories.deep_view()[i]
                != #[trigger] self.directories.deep_view()[j]
    }

    /// An empty registry.
    pub fn new() -> (r: Config)
        ensures
            r.wf(),
            r.repositories@.len() == 0,
            r.directories@.len() == 0,
    {
        Config { repositories: Vec::new(), directories: Vec::new() }
    }

    /// Whether a checkout is registered under this path.
    pub fn has_repository(&self, path: &RepoPath) -> (r: bool)
        ensures
            r == self.repositories.deep_view().contains(path@),
    {
        let mut i: usize = 0;
        while i < self.repositories.len()
            invariant
                i <= self.repositories.len(),
                forall|j: int| 0 <= j < i ==> #[trigger] self.repositories.deep_view()[j] != path@,
            decreases self.repositories.len() - i,
        {
            if self.repositories[i].path.same_as(path) {
                proof {
                    assert(self.repositories.deep_view()[i as int] == path@);
                }
                return true;
            }
            i = i + 1;
        }
        proof {
            assert(!self.repositories.deep_view().contains(path@));
        }
        false
    }

    /// Whether a container is registered under this path.
    pub fn has_directory(&self, path: &RepoPath) -> (r: bool)
        ensures
            r == self.directories.deep_view().contains(path@),
    {
        let mut i: usize = 0;
        while i < self.directories.len()
            invariant
                i <= self.directories.len(),
                forall|j: int| 0 <= j < i ==> #[trigger] self.directories.deep_view()[j] != path@,
            decreases self.directories.len() - i,
        {
            if self.directories[i].path.same_as(path) {
                proof {
                    assert(self.directories.deep_view()[i as int] == path@);
                }
                return true;
            }
            i = i + 1;
        }
        proof {
            assert(!self.directories.deep_view().contains(path@));
        }
        false
    }

    /// Register a path. The snapshot of the directory the path names decides
    /// the classification, once, now: a checkout root goes into the
    /// repository list, anything else into the container list. Registering a
    /// path again under the same classification changes nothing.
    pub fn register(&mut self, path: &RepoPath, snapshot: Option<&Snapshot>)
        requires
            old(self).wf(),
        ensures
            final(self).wf(),
            probe_is_checkout(snapshot) ==> {
                &&& final(self).directories == old(self).directories
                &&& final(self).repositories.deep_view() == if old(
                    self,
                ).repositories.deep_view().contains(path@) {
                    old(self).repositories.deep_view()
                } else {
                    old(self).repositories.deep_view().push(path@)
                }
            },
            !probe_is_checkout(snapshot) ==> {
                &&& final(self).repositories == old(self).repositories
                &&& final(self).directories.deep_view() == if old(
                    self,
                ).directories.deep_view().contains(path@) {
                    old(self).directories.deep_view()
                } else {
                    old(self).directories.deep_view().push(path@)
                }
            },
    {
        let is_repo = match snapshot {
            Some(s) => {
                let here = RepoPath::empty();
                is_git_repository(s, &here)
            },
            None => false,
        };
        if is_repo {
            if !self.has_repository(path) {
                let ghost prev = self.repositories@;
                self.repositories.push(RepositoryEntry { path: path.duplicate() });
                proof {
                    lemma_deep_view_after_push(prev, self.repositories@);
                    broadcast use vstd::seq_lib::lemma_seq_contains_after_push;

                }
            }
        } else {
            if !self.has_directory(path) {
                let ghost prev = self.directories@;
                self.directories.push(DirectoryEntry { path: path.duplicate() });
                proof {
                    lemma_deep_view_after_push(prev, self.directories@);
                    broadcast use vstd::seq_lib::lemma_seq_contains_after_push;

                }
            }
        }
    }

    /// Unregister a path: whatever was registered under it, checkout or
    /// container, is removed. The other entries keep their order.
    pub fn unregister(&mut self, path: &RepoPath)
        requires
            old(self).wf(),
        ensures
            final(self).wf(),
            final(self).repositories.deep_view() == old(self).repositories.deep_view().filter(
                |q: Seq<Seq<char>>| q != path@,
            ),
            final(self).directories.deep_view() == old(self).directories.deep_view().filter(
                |q: Seq<Seq<char>>| q != path@,
            ),
    {
        let mut kept_repos: Vec<RepositoryEntry> = Vec::new();
        let ghost rdv = self.repositories.deep_view();
        let ghost keep = |q: Seq<Seq<char>>| q != path@;
        let mut i: usize = 0;
        proof {
            lemma_filter_empty(rdv.take(0), keep);
        }
        while i < self.repositories.len()
            invariant
                i <= self.repositories.len(),
                rdv == self.repositories.deep_view(),
                rdv.len() == self.repositories@.len(),
                keep == (|q: Seq<Seq<char>>| q != path@),
                kept_repos.deep_view() == rdv.take(i as int).filter(keep),
            decreases self.repositories.len() - i,
        {
            proof {
                lemma_filter_take_step(rdv, i as int, keep);
            }
            if !self.repositories[i].path.same_as(path) {
                let ghost prev = kept_repos@;
                kept_repos.push(RepositoryEntry { path: self.repositories[i].path.duplicate() });
                proof {
                    lemma_deep_view_after_push(prev, kept_repos@);
                    assert(self.repositories.deep_view()[i as int] == self.repositories@[i as int].path@);
                }
            }
            i = i + 1;
        }
        proof {
            assert(rdv.take(rdv.len() as int) =~= rdv);
        }
        self.repositories = kept_repos;

        let mut kept_dirs: Vec<DirectoryEntry> = Vec::new();
        let ghost ddv = self.directories.deep_view();
        let mut k: usize = 0;
        proof {
            lemma_filter_empty(ddv.take(0), keep);
        }
        while k < self.directories.len()
            invariant
                k <= self.directories.len(),
                ddv == self.directories.deep_view(),
                ddv.len() == self.directories@.len(),
                keep == (|q: Seq<Seq<char>>| q != path@),
                kept_dirs.deep_view() == ddv.take(k as int).filter(keep),
            decreases self.directories.len() - k,
        {
            proof {
                lemma_filter_take_step(ddv, k as int, keep);
            }
            if !self.directories[k].path.same_as(path) {
                let ghost prev = kept_dirs@;
                kept_dirs.push(DirectoryEntry { path: self.directories[k].path.duplicate() });
                proof {
                    lemma_deep_view_after_push(prev, kept_dirs@);
                    assert(self.directories.deep_view()[k as int] == self.directories@[k as int].path@);
                }
            }
            k = k + 1;
        }
        proof {
            assert(ddv.take(ddv.len() as int) =~= ddv);
        }
        self.directories = kept_dirs;
        proof {
            lemma_filter_keeps_distinct(rdv, keep);
            lemma_filter_keeps_distinct(ddv, keep);
        }
    }
}

proof fn lemma_filter_empty(s: Seq<Seq<Seq<char>>>, pred: spec_fn(Seq<Seq<char>>) -> bool)
    requires
        s.len() == 0,
    ensures
        s.filter(pred) == Seq::<Seq<Seq<char>>>::empty(),
{
    reveal(Seq::filter);
    assert(s.filter(pred) =~= Seq::<Seq<Seq<char>>>::empty());
}

/// Filtering a sequence keeps one more element exactly when the predicate
/// admits the next element.
proof fn lemma_filter_take_step(s: Seq<Seq<Seq<char>>>, i: int, pred: spec_fn(Seq<Seq<char>>) -> bool)
    requires
        0 <= i < s.len(),
    ensures
        s.take(i + 1).filter(pred) == if pred(s[i]) {
            s.take(i).filter(pred).push(s[i])
        } else {
            s.take(i).filter(pred)
        },
{
    reveal(Seq::filter);
    assert(s.take(i + 1).drop_last() =~= s.take(i));
    assert(s.take(i + 1).last() == s[i]);
}

/// A filtered sequence of pairwise-distinct elements is itself pairwise
/// distinct.
proof fn lemma_filter_keeps_distinct(s: Seq<Seq<Seq<char>>>, pred: spec_fn(Seq<Seq<char>>) -> bool)
    requires
        forall|i: int, j: int| 0 <= i < j < s.len() ==> s[i] != s[j],
    ensures
        forall|i: int, j: int|
            0 <= i < j < s.filter(pred).len() ==> s.filter(pred)[i] != s.filter(pred)[j],
    decreases s.len(),
{
    reveal(Seq::filter);
    if s.len() > 0 {
        let head = s.drop_last();
        assert(forall|i: int, j: int| 0 <= i < j < head.len() ==> head[i] != head[j]);
        lemma_filter_keeps_distinct(head, pred);
        let hf = head.filter(pred);
        if pred(s.last()) {
            assert(s.filter(pred) == hf.push(s.last()));
            assert forall|i: int, j: int|
                0 <= i < j < s.filter(pred).len() implies s.filter(pred)[i] != s.filter(
                pred,
            )[j] by {
                if j == s.filter(pred).len() - 1 {
                    assert(s.filter(pred)[j] == s.last());
                    assert(s.filter(pred)[i] == hf[i]);
                    lemma_filter_member_of(head, pred, i);
                    let w = choose|w: int| 0 <= w < head.len() && head[w] == hf[i];
                    assert(s[w] == head[w]);
                    assert(s[w] != s.last());
                } else {
                    assert(s.filter(pred)[i] == hf[i]);
                    assert(s.filter(pred)[j] == hf[j]);
                }
            }
        }
    }
}

/// Every element a filter keeps stands somewhere in the base sequence.
proof fn lemma_filter_member_of(s: Seq<Seq<Seq<char>>>, pred: spec_fn(Seq<Seq<char>>) -> bool, i: int)
    requires
        0 <= i < s.filter(pred).len(),
    ensures
        exists|w: int| 0 <= w < s.len() && s[w] == s.filter(pred)[i],
    decreases s.len(),
{
    reveal(Seq::filter);
    if s.len() > 0 {
        let head = s.drop_last();
        let hf = head.filter(pred);
        if i < hf.len() {
            lemma_filter_member_of(head, pred, i);
            let w = choose|w: int| 0 <= w < head.len() && head[w] == hf[i];
            assert(s[w] == head[w]);
            assert(s[w] == s.filter(pred)[i]);
        } else {
            assert(s.filter(pred)[i] == s.last());
            assert(s[s.len() - 1] == s.filter(pred)[i]);
        }
    }
}

} // verus!
