//! Observed repository state, as plain values.
//!
//! The version-control engine is asked about each checkout outside this
//! library; what it reported — the per-entry status kinds, whether the
//! current branch tracks a remote — is handed in, and the classification of
//! those observations is decided here.

use vstd::prelude::*;

use crate::registry::RepositoryEntry;

verus! {

/// One condition a repository can be in. The set of conditions is closed:
/// a new condition means a new variant.
#[derive(Clone, Copy, Debug, PartialEq, Eq, Structural)]
pub enum EntryState {
    /// The repository has uncommitted or staged changes.
    Dirty,
}

/// The observed state of one repository: which conditions hold. No condition
/// is listed twice; no condition listed means the repository is clean.
#[derive(Debug, Clone)]
pub struct RepositoryState {
    /// The conditions that hold.
    pub entries: Vec<EntryState>,
}

/// One status kind the version-control engine can report for one entry of a
/// checkout's working tree or index.
#[derive(Clone, Copy, Debug, PartialEq, Eq, Structural)]
pub enum StatusKind {
    /// A file added to the index.
    IndexNew,
    /// A file modified in the index.
    IndexModified,
    /// A file deleted from the index.
    IndexDeleted,
    /// A file renamed in the index.
    IndexRenamed,
    /// A file whose type changed in the index.
    IndexTypechange,
    /// A new file in the working tree.
    WorktreeNew,
    /// A file modified in the working tree.
    WorktreeModified,
    /// A file deleted from the working tree.
    WorktreeDeleted,
    /// A file whose type changed in the working tree.
    WorktreeTypechange,
    /// A file renamed in the working tree.
    WorktreeRenamed,
    /// An ignored file.
    Ignored,
    /// A file with merge conflicts.
    Conflicted,
    /// Any status kind the engine reports beyond these.
    Other,
}

/// Whether a reported status kind makes the repository dirty. Ignored files
/// and unrecognized kinds do not.
pub open spec fn dirty_kind(k: StatusKind) -> bool {
    !(k == StatusKind::Ignored || k == StatusKind::Other)
}

/// Whether any reported status kind makes the repository dirty.
pub open spec fn any_dirty(observed: Seq<StatusKind>) -> bool {
    exists|i: int| 0 <= i < observed.len() && dirty_kind(#[trigger] observed[i])
}

/// Exec mirror of `dirty_kind`.
pub fn kind_is_dirty(k: StatusKind) -> (r: bool)
    ensures
        r == dirty_kind(k),
{
    match k {
        StatusKind::Ignored => false,
        StatusKind::Other => false,
        _ => true,
    }
}

impl RepositoryState {
    /// No condition is listed twice.
    pub open spec fn wf(self) -> bool {
        forall|i: int, j: int| 0 <= i < j < self.entries@.len() ==> self.entries@[i] != self.entries@[j]
    }

    /// The repository has the dirty condition.
    pub open spec fn is_dirty_spec(self) -> bool {
        self.entries@.contains(EntryState::Dirty)
    }

    /// The clean state: no condition holds.
    pub fn clean() -> (r: RepositoryState)
        ensures
            r.wf(),
            r.entries@ == Seq::<EntryState>::empty(),
    {
        let r = RepositoryState { entries: Vec::new() };
        proof {
            assert(r.entries@ =~= Seq::<EntryState>::empty());
        }
        r
    }

    /// The state with exactly the dirty condition, or the clean state.
    pub fn from_dirty(dirty: bool) -> (r: RepositoryState)
        ensures
            r.wf(),
            r.entries@ == if dirty {
                seq![EntryState::Dirty]
            } else {
                Seq::<EntryState>::empty()
            },
            r.is_dirty_spec() == dirty,
    {
        let mut entries: Vec<EntryState> = Vec::new();
        if dirty {
            entries.push(EntryState::Dirty);
            proof {
                assert(entries@ =~= seq![EntryState::Dirty]);
            }
        } else {
            proof {
                assert(entries@ =~= Seq::<EntryState>::empty());
            }
        }
        let r = RepositoryState { entries };
        proof {
            if dirty {
                assert(r.entries@[0] == EntryState::Dirty);
            }
        }
        r
    }

    /// Whether the given condition holds in this state.
    pub fn contains_state(&self, s: EntryState) -> (r: bool)
        ensures
            r == self.entries@.contains(s),
    {
        let mut i: usize = 0;
        while i < self.entries.len()
            invariant
                i <= self.entries.len(),
                forall|j: int| 0 <= j < i ==> self.entries@[j] != s,
            decreases self.entries.len() - i,
        {
            if self.entries[i] == s {
                return true;
            }
            i = i + 1;
        }
        false
    }

    /// A one-word description: `Clean` where no condition holds, the
    /// condition's name otherwise.
    pub fn label(&self) -> (r: String)
        ensures
            self.entries@.len() == 0 ==> r@ == "Clean"@,
            self.is_dirty_spec() ==> r@ == "Dirty"@,
    {
        if self.entries.len() == 0 {
            proof {
                assert(!self.entries@.contains(EntryState::Dirty));
            }
            "Clean".to_owned()
        } else {
            proof {
                let e = self.entries@[0];
                assert(e == EntryState::Dirty);
            }
            "Dirty".to_owned()
        }
    }
}

impl RepositoryEntry {
    /// Classify what the engine reported for this checkout: the repository
    /// is dirty exactly when some reported kind is a dirtying one.
    pub fn state(&self, observed: &Vec<StatusKind>) -> (r: RepositoryState)
        ensures
            r.wf(),
            r.entries@ == if any_dirty(observed@) {
                seq![EntryState::Dirty]
            } else {
                Seq::<EntryState>::empty()
            },
            r.is_dirty_spec() == any_dirty(observed@),
    {
        let mut dirty = false;
        let mut i: usize = 0;
        while i < observed.len()
            invariant
                i <= observed.len(),
                dirty == any_dirty(observed@.take(i as int)),
            decreases observed.len() - i,
        {
            let ghost before = observed@.take(i as int);
            if kind_is_dirty(observed[i]) {
                proof {
                    assert(observed@.take(i as int + 1)[i as int] == observed@[i as int]);
                }
                dirty = true;
            }
            proof {
                let after = observed@.take(i as int + 1);
                assert forall|j: int| 0 <= j < after.len() implies after[j] == observed@[j] by {}
                if !dirty {
                    assert(!any_dirty(after)) by {
                        if exists|j: int| 0 <= j < after.len() && dirty_kind(after[j]) {
                            let j = choose|j: int| 0 <= j < after.len() && dirty_kind(after[j]);
                            if j < i {
                                assert(before[j] == after[j]);
                            }
                        }
                    }
                } else {
                    assert(any_dirty(after)) by {
                        if any_dirty(before) {
                            let j = choose|j: int|
                                0 <= j < before.len() && dirty_kind(before[j]);
                            assert(after[j] == before[j]);
                            assert(dirty_kind(after[j]));
                        } else {
                            assert(dirty_kind(after[i as int]));
                        }
                    }
                }
            }
            i = i + 1;
        }
        proof {
            assert(observed@.take(observed.len() as int) =~= observed@);
        }
        RepositoryState::from_dirty(dirty)
    }

    /// Whether the observed state has the dirty condition.
    pub fn is_dirty(&self, state: &RepositoryState) -> (r: bool)
        ensures
            r == state.is_dirty_spec(),
    {
        state.contains_state(EntryState::Dirty)
    }
}

/// Which status kinds the engine reported for a checkout, one flag per
/// kind of interest.
#[derive(Clone, Copy, Debug, PartialEq, Eq, Structural)]
pub struct StatusFlags {
    /// A file added to the index was reported.
    pub index_new: bool,
    /// A file modified in the index was reported.
    pub index_modified: bool,
    /// A file deleted from the index was reported.
    pub index_deleted: bool,
    /// A file renamed in the index was reported.
    pub index_renamed: bool,
    /// A type change in the index was reported.
    pub index_typechange: bool,
    /// A new working-tree file was reported.
    pub wt_new: bool,
    /// A modified working-tree file was reported.
    pub wt_modified: bool,
    /// A deleted working-tree file was reported.
    pub wt_deleted: bool,
    /// A type change in the working tree was reported.
    pub wt_typechange: bool,
    /// A renamed working-tree file was reported.
    pub wt_renamed: bool,
    /// An ignored file was reported.
    pub ignored: bool,
    /// A conflicted file was reported.
    pub conflicted: bool,
}

/// Whether a kind is among those the engine reported.
pub fn has_kind(observed: &Vec<StatusKind>, k: StatusKind) -> (r: bool)
    ensures
        r == observed@.contains(k),
{
    let mut i: usize = 0;
    while i < observed.len()
        invariant
            i <= observed.len(),
            forall|j: int| 0 <= j < i ==> observed@[j] != k,
        decreases observed.len() - i,
    {
        if observed[i] == k {
            return true;
        }
        i = i + 1;
    }
    false
}

/// The text of the status line's suffix: one bracketed word per reported
/// kind, in a fixed order.
pub open spec fn status_text(f: StatusFlags) -> Seq<char> {
    seg_if(f.index_new, " [new]"@) + seg_if(f.index_modified, " [modified]"@) + seg_if(
        f.index_deleted,
        " [deleted]"@,
    ) + seg_if(f.index_renamed, " [renamed]"@) + seg_if(f.index_typechange, " [typechange]"@)
        + seg_if(f.wt_new, " [wt-new]"@) + seg_if(f.wt_modified, " [wt-modified]"@) + seg_if(
        f.wt_deleted,
        " [wt-deleted]"@,
    ) + seg_if(f.wt_typechange, " [wt-typechange]"@) + seg_if(f.wt_renamed, " [wt-renamed]"@)
        + seg_if(f.ignored, " [ignored]"@) + seg_if(f.conflicted, " [conflicted]"@)
}

/// The given text where the flag holds, nothing otherwise.
pub open spec fn seg_if(flag: bool, text: Seq<char>) -> Seq<char> {
    if flag {
        text
    } else {
        Seq::empty()
    }
}

impl StatusFlags {
    /// Which kinds of interest the engine reported.
    pub fn from_statuses(observed: &Vec<StatusKind>) -> (f: StatusFlags)
        ensures
            f.index_new == observed@.contains(StatusKind::IndexNew),
            f.index_modified == observed@.contains(StatusKind::IndexModified),
            f.index_deleted == observed@.contains(StatusKind::IndexDeleted),
            f.index_renamed == observed@.contains(StatusKind::IndexRenamed),
            f.index_typechange == observed@.contains(StatusKind::IndexTypechange),
            f.wt_new == observed@.contains(StatusKind::WorktreeNew),
            f.wt_modified == observed@.contains(StatusKind::WorktreeModified),
            f.wt_deleted == observed@.contains(StatusKind::WorktreeDeleted),
            f.wt_typechange == observed@.contains(StatusKind::WorktreeTypechange),
            f.wt_renamed == observed@.contains(StatusKind::WorktreeRenamed),
            f.ignored == observed@.contains(StatusKind::Ignored),
            f.conflicted == observed@.contains(StatusKind::Conflicted),
    {
        StatusFlags {
            index_new: has_kind(observed, StatusKind::IndexNew),
            index_modified: has_kind(observed, StatusKind::IndexModified),
            index_deleted: has_kind(observed, StatusKind::IndexDeleted),
            index_renamed: has_kind(observed, StatusKind::IndexRenamed),
            index_typechange: has_kind(observed, StatusKind::IndexTypechange),
            wt_new: has_kind(observed, StatusKind::WorktreeNew),
            wt_modified: has_kind(observed, StatusKind::WorktreeModified),
            wt_deleted: has_kind(observed, StatusKind::WorktreeDeleted),
            wt_typechange: has_kind(observed, StatusKind::WorktreeTypechange),
            wt_renamed: has_kind(observed, StatusKind::WorktreeRenamed),
            ignored: has_kind(observed, StatusKind::Ignored),
            conflicted: has_kind(observed, StatusKind::Conflicted),
        }
    }

    /// The status line's suffix, exactly as specified by `status_text`.
    #[verifier::rlimit(60)]
    pub fn suffix(&self) -> (r: String)
        ensures
            r@ == status_text(*self),
    {
        let mut s = String::new();
        proof {
            assert(s@ =~= Seq::<char>::empty());
        }
        if self.index_new {
            s.append(" [new]");
        }
        proof {
            assert(s@ =~= seg_if(self.index_new, " [new]"@));
        }
        if self.index_modified {
            s.append(" [modified]");
        }
        proof {
            assert(s@ =~= seg_if(self.index_new, " [new]"@) + seg_if(
                self.index_modified,
                " [modified]"@,
            ));
        }
        if self.index_deleted {
            s.append(" [deleted]");
        }
        let ghost p3 = seg_if(self.index_new, " [new]"@) + seg_if(
            self.index_modified,
            " [modified]"@,
        ) + seg_if(self.index_deleted, " [deleted]"@);
        proof {
            assert(s@ =~= p3);
        }
        if self.index_renamed {
            s.append(" [renamed]");
        }
        let ghost p4 = p3 + seg_if(self.index_renamed, " [renamed]"@);
        proof {
            assert(s@ =~= p4);
        }
        if self.index_typechange {
            s.append(" [typechange]");
        }
        let ghost p5 = p4 + seg_if(self.index_typechange, " [typechange]"@);
        proof {
            assert(s@ =~= p5);
        }
        if self.wt_new {
            s.append(" [wt-new]");
        }
        let ghost p6 = p5 + seg_if(self.wt_new, " [wt-new]"@);
        proof {
            assert(s@ =~= p6);
        }
        if self.wt_modified {
            s.append(" [wt-modified]");
        }
        let ghost p7 = p6 + seg_if(self.wt_modified, " [wt-modified]"@);
        proof {
            assert(s@ =~= p7);
        }
        if self.wt_deleted {
            s.append(" [wt-deleted]");
        }
        let ghost p8 = p7 + seg_if(self.wt_deleted, " [wt-deleted]"@);
        proof {
            assert(s@ =~= p8);
        }
        if self.wt_typechange {
            s.append(" [wt-typechange]");
        }
        let ghost p9 = p8 + seg_if(self.wt_typechange, " [wt-typechange]"@);
        proof {
            assert(s@ =~= p9);
        }
        if self.wt_renamed {
            s.append(" [wt-renamed]");
        }
        let ghost p10 = p9 + seg_if(self.wt_renamed, " [wt-renamed]"@);
        proof {
            assert(s@ =~= p10);
        }
        if self.ignored {
            s.append(" [ignored]");
        }
        let ghost p11 = p10 + seg_if(self.ignored, " [ignored]"@);
        proof {
            assert(s@ =~= p11);
        }
        if self.conflicted {
            s.append(" [conflicted]");
        }
        proof {
            assert(s@ =~= p11 + seg_if(self.conflicted, " [conflicted]"@));
            assert(status_text(*self) == p11 + seg_if(self.conflicted, " [conflicted]"@));
        }
        s
    }
}

/// What inspecting one checkout yielded. Each query can fail on its own —
/// a corrupt or vanished checkout — and a failed query is `None`.
#[derive(Debug, Clone)]
pub struct Inspection {
    /// The observed repository state, or `None` where inspection failed.
    pub state: Option<RepositoryState>,
    /// Whether the current branch has a tracking branch, or `None` where
    /// inspection failed.
    pub tracking: Option<bool>,
}

} // verus!
