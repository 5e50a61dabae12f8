//! The working-set resolver: from registered entries and scans to one
//! sorted, deduplicated list of checkout roots.
//!
//! With a scope directory given, the registry is ignored and the scan of
//! that one directory is the working set. Otherwise the registered checkouts
//! are taken as they stand — without re-probing them — and united with the
//! scans of all registered containers. Either way the result is strictly
//! sorted by path, so the same registry and the same snapshots always yield
//! the same working set in the same order.

use vstd::prelude::*;

use crate::fstree::Snapshot;
use crate::paths::{lemma_sorted_same_members_equal, sort_dedup, sorted_strict, RepoPath};
use crate::registry::{Config, RepositoryEntry};
use crate::scan::{find_repositories, scan_member};

verus! {

/// Membership in the scan of one root whose snapshot may be absent: an
/// absent snapshot contributes nothing.
pub open spec fn scan_contribution(
    root: Seq<Seq<char>>,
    snapshot: Option<Snapshot>,
    p: Seq<Seq<char>>,
) -> bool {
    match snapshot {
        Some(s) => scan_member(root, s@, p),
        None => false,
    }
}

/// Membership in the resolved working set when no scope override is given:
/// the path is a registered checkout, or some registered container's scan
/// reports it.
pub open spec fn resolve_member(
    config: Config,
    snapshots: Seq<Option<Snapshot>>,
    p: Seq<Seq<char>>,
) -> bool {
    ||| config.repositories.deep_view().contains(p)
    ||| exists|i: int|
        0 <= i < snapshots.len() && scan_contribution(
            #[trigger] config.directories.deep_view()[i],
            snapshots[i],
            p,
        )
}

/// Resolving is deterministic: any two working sets that satisfy the
/// resolver's contract for the same registry and the same snapshots are the
/// same sequence, members and order both.
pub proof fn lemma_resolve_deterministic(
    r1: Seq<Seq<Seq<char>>>,
    r2: Seq<Seq<Seq<char>>>,
    config: Config,
    snapshots: Seq<Option<Snapshot>>,
)
    requires
        sorted_strict(r1),
        sorted_strict(r2),
        forall|p: Seq<Seq<char>>| r1.contains(p) <==> resolve_member(config, snapshots, p),
        forall|p: Seq<Seq<char>>| r2.contains(p) <==> resolve_member(config, snapshots, p),
    ensures
        r1 == r2,
{
    lemma_sorted_same_members_equal(r1, r2);
}

/// Wrap sorted paths as working-set entries.
fn wrap_entries(paths: &Vec<RepoPath>) -> (r: Vec<RepositoryEntry>)
    ensures
        r.deep_view() == paths.deep_view(),
{
    let mut out: Vec<RepositoryEntry> = Vec::new();
    let mut i: usize = 0;
    while i < paths.len()
        invariant
            i <= paths.len(),
            out@.len() == i as int,
            forall|j: int| 0 <= j < i ==> #[trigger] out.deep_view()[j] == paths.deep_view()[j],
        decreases paths.len() - i,
    {
        let ghost prev = out@;
        let ghost pdv = out.deep_view();
        out.push(RepositoryEntry { path: paths[i].duplicate() });
        proof {
            crate::paths::lemma_deep_view_after_push(prev, out@);
            assert(out.deep_view() == pdv.push(out@.last().deep_view()));
            assert forall|j: int| 0 <= j < i + 1 implies #[trigger] out.deep_view()[j]
                == paths.deep_view()[j] by {
                if j < i {
                    assert(out.deep_view()[j] == pdv[j]);
                } else {
                    assert(out.deep_view()[j] == out@.last().deep_view());
                    assert(paths.deep_view()[i as int] == paths@[i as int].deep_view());
                }
            }
        }
        i = i + 1;
    }
    proof {
        assert(out.deep_view() =~= paths.deep_view());
    }
    out
}

/// Resolve the working set.
///
/// `container_snapshots[i]` is the snapshot of the directories below
/// `config.directories[i]`, or `None` where that container cannot be read —
/// a container that resolves to nothing is valid, not an error. With
/// `scope` given, the registry is bypassed and `scope_snapshot` — the
/// snapshot below the scope directory — is scanned instead. The result is
/// strictly sorted by path and free of duplicates.
pub fn resolve(
    config: &Config,
    container_snapshots: &Vec<Option<Snapshot>>,
    scope: Option<&RepoPath>,
    scope_snapshot: Option<&Snapshot>,
) -> (r: Vec<RepositoryEntry>)
    requires
        container_snapshots@.len() == config.directories@.len(),
    ensures
        sorted_strict(r.deep_view()),
        match scope {
            Some(sp) => forall|p: Seq<Seq<char>>|
                #[trigger] r.deep_view().contains(p) <==> (match scope_snapshot {
                    Some(s) => scan_member(sp@, s@, p),
                    None => false,
                }),
            None => forall|p: Seq<Seq<char>>|
                #[trigger] r.deep_view().contains(p) <==> resolve_member(
                    *config,
                    container_snapshots@,
                    p,
                ),
        },
{
    match scope {
        Some(sp) => {
            let paths = find_repositories(sp, scope_snapshot);
            proof {
                if scope_snapshot is None {
                    assert forall|p: Seq<Seq<char>>| !paths.deep_view().contains(p) by {
                        assert(paths.deep_view().len() == 0);
                    }
                }
            }
            wrap_entries(&paths)
        },
        None => {
            let mut all: Vec<RepoPath> = Vec::new();
            let mut i: usize = 0;
            while i < config.repositories.len()
                invariant
                    i <= config.repositories.len(),
                    all@.len() == i as int,
                    forall|j: int|
                        0 <= j < i ==> #[trigger] all.deep_view()[j]
                            == config.repositories.deep_view()[j],
                decreases config.repositories.len() - i,
            {
                let ghost prev = all@;
                let ghost pdv = all.deep_view();
                all.push(config.repositories[i].path.duplicate());
                proof {
                    crate::paths::lemma_deep_view_after_push(prev, all@);
                    assert(all.deep_view() == pdv.push(all@.last().deep_view()));
                    assert forall|j: int| 0 <= j < i + 1 implies #[trigger] all.deep_view()[j]
                        == config.repositories.deep_view()[j] by {
                        if j < i {
                            assert(all.deep_view()[j] == pdv[j]);
                        } else {
                            assert(all.deep_view()[j] == all@.last().deep_view());
                            assert(config.repositories.deep_view()[i as int]
                                == config.repositories@[i as int].deep_view());
                        }
                    }
                }
                i = i + 1;
            }
            proof {
                assert(all.deep_view() =~= config.repositories.deep_view());
                assert forall|p: Seq<Seq<char>>| #[trigger] all.deep_view().contains(p)
                    <==> (config.repositories.deep_view().contains(p) || exists|j: int|
                    0 <= j < 0 && scan_contribution(
                        config.directories.deep_view()[j],
                        container_snapshots@[j],
                        p,
                    )) by {}
            }
            let mut d: usize = 0;
            while d < config.directories.len()
                invariant
                    d <= config.directories.len(),
                    container_snapshots@.len() == config.directories@.len(),
                    config.directories.deep_view().len() == config.directories@.len(),
                    forall|p: Seq<Seq<char>>|
                        #[trigger] all.deep_view().contains(p)
                            <==> (config.repositories.deep_view().contains(p) || exists|j: int|
                        0 <= j < d && scan_contribution(
                            #[trigger] config.directories.deep_view()[j],
                            container_snapshots@[j],
                            p,
                        )),
                decreases config.directories.len() - d,
            {
                let scanned = find_repositories(
                    &config.directories[d].path,
                    container_snapshots[d].as_ref(),
                );
                proof {
                    assert(config.directories.deep_view()[d as int]
                        == config.directories@[d as int].deep_view());
                    assert forall|p: Seq<Seq<char>>| #[trigger] scanned.deep_view().contains(p)
                        <==> scan_contribution(
                        config.directories.deep_view()[d as int],
                        container_snapshots@[d as int],
                        p,
                    ) by {
                        match container_snapshots@[d as int] {
                            Some(s) => {},
                            None => {
                                assert(scanned.deep_view().len() == 0);
                            },
                        }
                    }
                }
                let ghost before = all.deep_view();
                let mut k: usize = 0;
                while k < scanned.len()
                    invariant
                        k <= scanned.len(),
                        scanned.deep_view().len() == scanned@.len(),
                        forall|p: Seq<Seq<char>>|
                            #[trigger] all.deep_view().contains(p) <==> (before.contains(p)
                                || scanned.deep_view().take(k as int).contains(p)),
                    decreases scanned.len() - k,
                {
                    let ghost prev = all@;
                    let ghost pdv = all.deep_view();
                    all.push(scanned[k].duplicate());
                    proof {
                        broadcast use vstd::seq_lib::lemma_seq_contains_after_push;

                        crate::paths::lemma_deep_view_after_push(prev, all@);
                        assert(all.deep_view() == pdv.push(all@.last().deep_view()));
                        assert(all@.last().deep_view() == scanned.deep_view()[k as int]);
                        assert(scanned.deep_view().take(k as int + 1) =~= scanned.deep_view().take(
                            k as int,
                        ).push(scanned.deep_view()[k as int]));
                    }
                    k = k + 1;
                }
                proof {
                    assert(scanned.deep_view().take(scanned@.len() as int)
                        =~= scanned.deep_view());
                    assert forall|p: Seq<Seq<char>>| #[trigger] all.deep_view().contains(p)
                        <==> (config.repositories.deep_view().contains(p) || exists|j: int|
                        0 <= j < d + 1 && scan_contribution(
                            #[trigger] config.directories.deep_view()[j],
                            container_snapshots@[j],
                            p,
                        )) by {
                        if all.deep_view().contains(p) {
                            if !before.contains(p) {
                                assert(scan_contribution(
                                    config.directories.deep_view()[d as int],
                                    container_snapshots@[d as int],
                                    p,
                                ));
                            }
                        }
                        if exists|j: int|
                            0 <= j < d + 1 && scan_contribution(
                                #[trigger] config.directories.deep_view()[j],
                                container_snapshots@[j],
                                p,
                            ) {
                            let j = choose|j: int|
                                0 <= j < d + 1 && scan_contribution(
                                    #[trigger] config.directories.deep_view()[j],
                                    container_snapshots@[j],
                                    p,
                                );
                            if j < d {
                                assert(all.deep_view().contains(p));
                            } else {
                                assert(scanned.deep_view().contains(p));
                            }
                        }
                    }
                }
                d = d + 1;
            }
            let sorted = sort_dedup(&all);
            wrap_entries(&sorted)
        },
    }
}

} // verus!
