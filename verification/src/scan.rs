//! The tree scanner: which directories of a snapshot are reported as
//! checkout roots.
//!
//! A directory is reported when it is a checkout, every name on the way down
//! from the root is visible (no hidden directory is entered), and no
//! directory above it is itself a checkout — the scan never descends into a
//! checkout looking for nested ones. The result is the sorted, deduplicated
//! list of full paths.

use vstd::prelude::*;

use crate::fstree::{checkout_at, dir_listed, hidden_name, is_git_repository, name_is_hidden,
    Snapshot};
use crate::paths::{sort_dedup, sorted_strict, strict_prefix_of, RepoPath};

verus! {

/// Every name on the way from the root down to this directory is visible.
pub open spec fn all_visible(rel: Seq<Seq<char>>) -> bool {
    forall|i: int| 0 <= i < rel.len() ==> !hidden_name(#[trigger] rel[i])
}

/// No directory strictly above `rel` (the root included) is a checkout.
pub open spec fn no_enclosing_checkout(dirs: Seq<Seq<Seq<char>>>, rel: Seq<Seq<char>>) -> bool {
    forall|n: int| 0 <= n < rel.len() ==> !checkout_at(dirs, #[trigger] rel.take(n))
}

/// The scan of a snapshot reports the directory `rel`, a path relative to the
/// scanned root.
pub open spec fn scan_reports(dirs: Seq<Seq<Seq<char>>>, rel: Seq<Seq<char>>) -> bool {
    &&& dir_listed(dirs, rel)
    &&& checkout_at(dirs, rel)
    &&& all_visible(rel)
    &&& no_enclosing_checkout(dirs, rel)
}

/// The full path `p` is a member of the scan of `root` over `dirs`: it lies
/// under the root and its relative part is reported.
pub open spec fn scan_member(
    root: Seq<Seq<char>>,
    dirs: Seq<Seq<Seq<char>>>,
    p: Seq<Seq<char>>,
) -> bool {
    &&& p.len() >= root.len()
    &&& p.take(root.len() as int) == root
    &&& scan_reports(dirs, p.skip(root.len() as int))
}

/// Whether the scan reports the snapshot entry `rel`: it is a checkout, all
/// its names are visible, and nothing above it is a checkout.
fn rel_qualifies(snapshot: &Snapshot, rel: &RepoPath) -> (r: bool)
    ensures
        r == (checkout_at(snapshot@, rel@) && all_visible(rel@) && no_enclosing_checkout(
            snapshot@,
            rel@,
        )),
{
    let mut i: usize = 0;
    while i < rel.segments.len()
        invariant
            i <= rel.segments.len(),
            rel@.len() == rel.segments.len(),
            forall|j: int| 0 <= j < i ==> !hidden_name(#[trigger] rel@[j]),
        decreases rel.segments.len() - i,
    {
        if name_is_hidden(rel.segments[i].as_str()) {
            proof {
                assert(hidden_name(rel@[i as int]));
            }
            return false;
        }
        i = i + 1;
    }
    let mut prefix = RepoPath::empty();
    let mut n: usize = 0;
    proof {
        assert(prefix@ =~= rel@.take(0));
    }
    while n < rel.segments.len()
        invariant
            n <= rel.segments.len(),
            rel@.len() == rel.segments.len(),
            all_visible(rel@),
            prefix@ == rel@.take(n as int),
            forall|m: int| 0 <= m < n ==> !checkout_at(snapshot@, #[trigger] rel@.take(m)),
        decreases rel.segments.len() - n,
    {
        if is_git_repository(snapshot, &prefix) {
            return false;
        }
        let ghost prevp = prefix@;
        prefix.segments.push(rel.segments[n].clone());
        proof {
            assert forall|j: int| 0 <= j < prevp.len() implies #[trigger] prefix@[j] == prevp[j] by {
                assert(prefix.segments@[j] == prefix.segments@.drop_last()[j]);
            }
            assert(prefix@[n as int] == rel@[n as int]);
            assert(prefix@ =~= rel@.take(n as int + 1));
        }
        n = n + 1;
    }
    is_git_repository(snapshot, rel)
}

/// Scan for checkout roots below `root`. `snapshot` is the picture of the
/// directories below `root`, or `None` where the root does not exist or is
/// not a directory: such a root yields the empty result, not an error. The
/// result lists full paths, strictly sorted.
pub fn find_repositories(root: &RepoPath, snapshot: Option<&Snapshot>) -> (r: Vec<RepoPath>)
    ensures
        sorted_strict(r.deep_view()),
        match snapshot {
            None => r@.len() == 0,
            Some(s) => forall|p: Seq<Seq<char>>|
                #[trigger] r.deep_view().contains(p) <==> scan_member(root@, s@, p),
        },
{
    let snap = match snapshot {
        None => {
            let r: Vec<RepoPath> = Vec::new();
            proof {
                assert(r.deep_view().len() == 0);
            }
            return r;
        },
        Some(s) => s,
    };
    let mut found: Vec<RepoPath> = Vec::new();
    let mut i: usize = 0;
    proof {
        assert(snap@.take(0) =~= Seq::<Seq<Seq<char>>>::empty());
    }
    while i < snap.dirs.len()
        invariant
            i <= snap.dirs.len(),
            snap@.len() == snap.dirs.len(),
            forall|p: Seq<Seq<char>>|
                #[trigger] found.deep_view().contains(p) <==> {
                    &&& p.len() >= root@.len()
                    &&& p.take(root@.len() as int) == root@
                    &&& snap@.take(i as int).contains(p.skip(root@.len() as int))
                    &&& checkout_at(snap@, p.skip(root@.len() as int))
                    &&& all_visible(p.skip(root@.len() as int))
                    &&& no_enclosing_checkout(snap@, p.skip(root@.len() as int))
                },
        decreases snap.dirs.len() - i,
    {
        let ghost prev = found.deep_view();
        let ghost prevvec = found@;
        let rel = &snap.dirs[i];
        if rel_qualifies(snap, rel) {
            let full = root.join(rel);
            let ghost fullview = full@;
            proof {
                assert(fullview.take(root@.len() as int) =~= root@);
                assert(fullview.skip(root@.len() as int) =~= rel@);
            }
            found.push(full);
            proof {
                assert forall|p: Seq<Seq<char>>| #[trigger] found.deep_view().contains(p) <==> (
                prev.contains(p) || p == fullview) by {
                    lemma_deep_view_push(prevvec, found@, p);
                }
            }
        }
        proof {
            broadcast use vstd::seq_lib::lemma_seq_contains_after_push;

            assert(snap@.take(i as int + 1) =~= snap@.take(i as int).push(snap@[i as int]));
            assert(snap@[i as int] == rel@);
            assert forall|p: Seq<Seq<char>>| #[trigger] found.deep_view().contains(p) <==> {
                &&& p.len() >= root@.len()
                &&& p.take(root@.len() as int) == root@
                &&& snap@.take(i as int + 1).contains(p.skip(root@.len() as int))
                &&& checkout_at(snap@, p.skip(root@.len() as int))
                &&& all_visible(p.skip(root@.len() as int))
                &&& no_enclosing_checkout(snap@, p.skip(root@.len() as int))
            } by {
                if p.len() >= root@.len() && p.take(root@.len() as int) == root@ && p.skip(
                    root@.len() as int,
                ) == rel@ {
                    assert(p =~= root@ + rel@);
                }
            }
        }
        i = i + 1;
    }
    proof {
        assert(snap@.take(snap.dirs.len() as int) =~= snap@);
    }
    sort_dedup(&found)
}

proof fn lemma_deep_view_push(old_v: Seq<RepoPath>, new_v: Seq<RepoPath>, p: Seq<Seq<char>>)
    requires
        new_v.len() == old_v.len() + 1,
        forall|i: int| 0 <= i < old_v.len() ==> new_v[i] == old_v[i],
    ensures
        Seq::new(new_v.len(), |i: int| new_v[i].deep_view()).contains(p) <==> (Seq::new(
            old_v.len(),
            |i: int| old_v[i].deep_view(),
        ).contains(p) || p == new_v.last().deep_view()),
{
    let ndv = Seq::new(new_v.len(), |i: int| new_v[i].deep_view());
    let odv = Seq::new(old_v.len(), |i: int| old_v[i].deep_view());
    if ndv.contains(p) {
        let i = choose|i: int| 0 <= i < ndv.len() && ndv[i] == p;
        if i < old_v.len() {
            assert(odv[i] == p);
        }
    }
    if odv.contains(p) {
        let i = choose|i: int| 0 <= i < odv.len() && odv[i] == p;
        assert(ndv[i] == p);
    }
    if p == new_v.last().deep_view() {
        assert(ndv[new_v.len() - 1] == p);
    }
}

/// The scan never reports a directory strictly inside another reported one:
/// of two distinct reported paths, neither lies in the other's subtree.
pub proof fn lemma_scan_no_nesting(
    dirs: Seq<Seq<Seq<char>>>,
    r1: Seq<Seq<char>>,
    r2: Seq<Seq<char>>,
)
    requires
        scan_reports(dirs, r1),
        scan_reports(dirs, r2),
        r1 != r2,
    ensures
        !strict_prefix_of(r1, r2),
{
    if strict_prefix_of(r1, r2) {
        assert(r2.take(r1.len() as int) == r1);
        assert(!checkout_at(dirs, r2.take(r1.len() as int)));
    }
}

/// Nothing under a hidden directory is reported: every name of a reported
/// path, from the scanned root down, is visible.
pub proof fn lemma_scan_nothing_hidden(dirs: Seq<Seq<Seq<char>>>, rel: Seq<Seq<char>>, i: int)
    requires
        scan_reports(dirs, rel),
        0 <= i < rel.len(),
    ensures
        !hidden_name(rel[i]),
{
}

/// The same, of the scan's results as full paths: no member of the scan of
/// `root` lies strictly inside another member's subtree.
pub proof fn lemma_scan_members_no_nesting(
    root: Seq<Seq<char>>,
    dirs: Seq<Seq<Seq<char>>>,
    p1: Seq<Seq<char>>,
    p2: Seq<Seq<char>>,
)
    requires
        scan_member(root, dirs, p1),
        scan_member(root, dirs, p2),
        p1 != p2,
    ensures
        !strict_prefix_of(p1, p2),
{
    let n = root.len() as int;
    let r1 = p1.skip(n);
    let r2 = p2.skip(n);
    if strict_prefix_of(p1, p2) {
        assert(r1.len() < r2.len());
        assert forall|k: int| 0 <= k < r1.len() implies r2.take(r1.len() as int)[k] == r1[k] by {
            assert(r1[k] == p1[n + k]);
            assert(r2.take(r1.len() as int)[k] == p2[n + k]);
            assert(p2.take(p1.len() as int)[n + k] == p2[n + k]);
        }
        assert(r2.take(r1.len() as int) =~= r1);
        if r1 == r2 {
            assert(r1.len() == r2.len());
        }
        lemma_scan_no_nesting(dirs, r1, r2);
    }
}

/// The same, of the scan's results as full paths: every name of a member
/// below the scanned root is visible, so nothing under a hidden directory
/// appears among the results.
pub proof fn lemma_scan_members_nothing_hidden(
    root: Seq<Seq<char>>,
    dirs: Seq<Seq<Seq<char>>>,
    p: Seq<Seq<char>>,
    j: int,
)
    requires
        scan_member(root, dirs, p),
        root.len() <= j < p.len(),
    ensures
        !hidden_name(p[j]),
{
    let n = root.len() as int;
    assert(p.skip(n)[j - n] == p[j]);
    lemma_scan_nothing_hidden(dirs, p.skip(n), j - n);
}

} // verus!
