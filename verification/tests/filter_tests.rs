use multigit::filter::{apply, Filter};
use multigit::fstree::Snapshot;
use multigit::paths::RepoPath;
use multigit::registry::{Config, DirectoryEntry, RepositoryEntry};
use multigit::state::{Inspection, RepositoryState};
use multigit::workset::resolve;

fn rp(parts: &[&str]) -> RepoPath {
    RepoPath { segments: parts.iter().map(|s| s.to_string()).collect() }
}

fn entry(parts: &[&str]) -> RepositoryEntry {
    RepositoryEntry { path: rp(parts) }
}

fn paths_of(ws: &[RepositoryEntry]) -> Vec<Vec<String>> {
    ws.iter().map(|e| e.path.segments.clone()).collect()
}

fn inspected(dirty: bool, tracking: bool) -> Inspection {
    Inspection { state: Some(RepositoryState::from_dirty(dirty)), tracking: Some(tracking) }
}

fn failed_inspection() -> Inspection {
    Inspection { state: None, tracking: None }
}

#[test]
fn apply_none_is_identity() {
    let ws = vec![entry(&["a"]), entry(&["b"])];
    let insps = vec![inspected(false, false), inspected(true, true)];
    let kept = apply(&ws, None, &insps);
    assert_eq!(paths_of(&kept), paths_of(&ws));
}

#[test]
fn apply_empty_list_is_identity() {
    let ws = vec![entry(&["a"]), entry(&["b"])];
    let insps = vec![inspected(false, false), inspected(true, true)];
    let filters: Vec<Filter> = vec![];
    let kept = apply(&ws, Some(&filters), &insps);
    assert_eq!(paths_of(&kept), paths_of(&ws));
}

#[test]
fn apply_keeps_subset_in_input_order() {
    let ws = vec![entry(&["a"]), entry(&["b"]), entry(&["c"]), entry(&["d"])];
    let insps = vec![
        inspected(true, false),
        inspected(false, false),
        inspected(true, false),
        inspected(false, false),
    ];
    let filters = vec![Filter::Dirty];
    let kept = apply(&ws, Some(&filters), &insps);
    assert_eq!(paths_of(&kept), vec![vec!["a".to_string()], vec!["c".to_string()]]);
}

#[test]
fn apply_or_combines_predicates() {
    let ws = vec![entry(&["a"]), entry(&["b"]), entry(&["c"])];
    let insps = vec![
        inspected(true, false),
        inspected(false, true),
        inspected(false, false),
    ];
    let filters = vec![Filter::Dirty, Filter::Tracking];
    let kept = apply(&ws, Some(&filters), &insps);
    assert_eq!(paths_of(&kept), vec![vec!["a".to_string()], vec!["b".to_string()]]);
}

#[test]
fn apply_drops_checkout_whose_inspection_failed() {
    let ws = vec![entry(&["ok"]), entry(&["broken"])];
    let insps = vec![inspected(true, false), failed_inspection()];
    let filters = vec![Filter::Dirty, Filter::Tracking];
    let kept = apply(&ws, Some(&filters), &insps);
    assert_eq!(paths_of(&kept), vec![vec!["ok".to_string()]]);
}

#[test]
fn apply_matching_nothing_is_empty_not_identity() {
    let ws = vec![entry(&["a"])];
    let insps = vec![inspected(false, false)];
    let filters = vec![Filter::Dirty];
    let kept = apply(&ws, Some(&filters), &insps);
    assert!(kept.is_empty());
}

#[test]
fn container_scan_then_dirty_filter_keeps_dirty_only() {
    // Registry: container /repos holding checkouts /repos/a (clean) and
    // /repos/b (dirty); filtering on Dirty leaves exactly /repos/b.
    let config = Config {
        repositories: vec![],
        directories: vec![DirectoryEntry { path: rp(&["repos"]) }],
    };
    let snaps = vec![Some(Snapshot {
        dirs: vec![
            rp(&[]),
            rp(&["a"]),
            rp(&["a", ".git"]),
            rp(&["b"]),
            rp(&["b", ".git"]),
        ],
    })];
    let ws = resolve(&config, &snaps, None, None);
    assert_eq!(
        paths_of(&ws),
        vec![
            vec!["repos".to_string(), "a".to_string()],
            vec!["repos".to_string(), "b".to_string()],
        ]
    );
    let insps = vec![inspected(false, true), inspected(true, true)];
    let filters = vec![Filter::Dirty];
    let kept = apply(&ws, Some(&filters), &insps);
    assert_eq!(paths_of(&kept), vec![vec!["repos".to_string(), "b".to_string()]]);
}
