use multigit::fstree::{is_git_repository, is_hidden, name_is_hidden, Snapshot};
use multigit::paths::RepoPath;
use multigit::registry::RepositoryEntry;
use multigit::state::{EntryState, RepositoryState, StatusFlags, StatusKind};
use multigit::util::{display_option, noneify};

fn rp(parts: &[&str]) -> RepoPath {
    RepoPath { segments: parts.iter().map(|s| s.to_string()).collect() }
}

fn entry(parts: &[&str]) -> RepositoryEntry {
    RepositoryEntry { path: rp(parts) }
}

#[test]
fn state_clean_when_nothing_reported() {
    let e = entry(&["r"]);
    let st = e.state(&vec![]);
    assert!(st.entries.is_empty());
    assert!(!e.is_dirty(&st));
    assert_eq!(st.label(), "Clean");
}

#[test]
fn state_dirty_on_worktree_modification() {
    let e = entry(&["r"]);
    let st = e.state(&vec![StatusKind::WorktreeModified]);
    assert_eq!(st.entries, vec![EntryState::Dirty]);
    assert!(e.is_dirty(&st));
    assert_eq!(st.label(), "Dirty");
}

#[test]
fn every_dirtying_kind_marks_dirty() {
    let e = entry(&["r"]);
    let dirtying = vec![
        StatusKind::IndexNew,
        StatusKind::IndexModified,
        StatusKind::IndexDeleted,
        StatusKind::IndexRenamed,
        StatusKind::IndexTypechange,
        StatusKind::WorktreeNew,
        StatusKind::WorktreeModified,
        StatusKind::WorktreeDeleted,
        StatusKind::WorktreeTypechange,
        StatusKind::WorktreeRenamed,
        StatusKind::Conflicted,
    ];
    for k in dirtying {
        let st = e.state(&vec![k]);
        assert!(e.is_dirty(&st));
    }
}

#[test]
fn ignored_and_unrecognized_kinds_stay_clean() {
    let e = entry(&["r"]);
    let st = e.state(&vec![StatusKind::Ignored, StatusKind::Other]);
    assert!(!e.is_dirty(&st));
    assert_eq!(st.label(), "Clean");
}

#[test]
fn from_dirty_builds_both_states() {
    let dirty = RepositoryState::from_dirty(true);
    assert!(dirty.contains_state(EntryState::Dirty));
    let clean = RepositoryState::from_dirty(false);
    assert!(!clean.contains_state(EntryState::Dirty));
}

#[test]
fn status_suffix_lists_reported_kinds_in_order() {
    let flags = StatusFlags::from_statuses(&vec![
        StatusKind::WorktreeModified,
        StatusKind::IndexNew,
        StatusKind::Conflicted,
    ]);
    assert_eq!(flags.suffix(), " [new] [wt-modified] [conflicted]");
}

#[test]
fn status_suffix_empty_for_no_reports() {
    let flags = StatusFlags::from_statuses(&vec![]);
    assert_eq!(flags.suffix(), "");
}

#[test]
fn status_suffix_full_set() {
    let flags = StatusFlags::from_statuses(&vec![
        StatusKind::IndexNew,
        StatusKind::IndexModified,
        StatusKind::IndexDeleted,
        StatusKind::IndexRenamed,
        StatusKind::IndexTypechange,
        StatusKind::WorktreeNew,
        StatusKind::WorktreeModified,
        StatusKind::WorktreeDeleted,
        StatusKind::WorktreeTypechange,
        StatusKind::WorktreeRenamed,
        StatusKind::Ignored,
        StatusKind::Conflicted,
    ]);
    assert_eq!(
        flags.suffix(),
        " [new] [modified] [deleted] [renamed] [typechange] [wt-new] [wt-modified] \
         [wt-deleted] [wt-typechange] [wt-renamed] [ignored] [conflicted]"
    );
}

#[test]
fn probe_sees_metadata_directory() {
    let s = Snapshot { dirs: vec![rp(&[]), rp(&[".git"])] };
    assert!(is_git_repository(&s, &rp(&[])));
    let plain = Snapshot { dirs: vec![rp(&[]), rp(&["src"])] };
    assert!(!is_git_repository(&plain, &rp(&[])));
}

#[test]
fn probe_checks_direct_children_only() {
    let s = Snapshot { dirs: vec![rp(&[]), rp(&["sub"]), rp(&["sub", ".git"])] };
    assert!(!is_git_repository(&s, &rp(&[])));
    assert!(is_git_repository(&s, &rp(&["sub"])));
}

#[test]
fn hidden_names_start_with_a_dot() {
    assert!(name_is_hidden(".git"));
    assert!(name_is_hidden("."));
    assert!(!name_is_hidden("repo"));
    assert!(!name_is_hidden(""));
    assert!(is_hidden(&rp(&["work", ".cache"])));
    assert!(!is_hidden(&rp(&["work", "cache"])));
}

#[test]
fn noneify_empty_and_nonempty() {
    let none: Vec<u32> = vec![];
    assert!(noneify(&none).is_none());
    let some = vec![1u32, 2];
    assert_eq!(noneify(&some), Some(&some));
}

#[test]
fn display_option_tri_state() {
    assert_eq!(display_option(&Some(true)), "true");
    assert_eq!(display_option(&Some(false)), "false");
    assert_eq!(display_option(&None), "");
}
