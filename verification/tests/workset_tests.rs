use multigit::fstree::Snapshot;
use multigit::paths::RepoPath;
use multigit::registry::{Config, DirectoryEntry, RepositoryEntry};
use multigit::workset::resolve;

fn rp(parts: &[&str]) -> RepoPath {
    RepoPath { segments: parts.iter().map(|s| s.to_string()).collect() }
}

fn snap(dirs: &[&[&str]]) -> Snapshot {
    Snapshot { dirs: dirs.iter().map(|d| rp(d)).collect() }
}

fn paths_of(ws: &[RepositoryEntry]) -> Vec<Vec<String>> {
    ws.iter().map(|e| e.path.segments.clone()).collect()
}

fn sample_config() -> Config {
    Config {
        repositories: vec![
            RepositoryEntry { path: rp(&["home", "zoo"]) },
            RepositoryEntry { path: rp(&["home", "app"]) },
        ],
        directories: vec![DirectoryEntry { path: rp(&["repos"]) }],
    }
}

fn sample_snapshots() -> Vec<Option<Snapshot>> {
    vec![Some(snap(&[
        &[],
        &["b"],
        &["b", ".git"],
        &["a"],
        &["a", ".git"],
    ]))]
}

#[test]
fn resolve_unites_registered_and_scanned_sorted() {
    let config = sample_config();
    let snaps = sample_snapshots();
    let ws = resolve(&config, &snaps, None, None);
    assert_eq!(
        paths_of(&ws),
        vec![
            vec!["home".to_string(), "app".to_string()],
            vec!["home".to_string(), "zoo".to_string()],
            vec!["repos".to_string(), "a".to_string()],
            vec!["repos".to_string(), "b".to_string()],
        ]
    );
}

#[test]
fn resolve_twice_yields_identical_ordering() {
    let config = sample_config();
    let snaps = sample_snapshots();
    let first = resolve(&config, &snaps, None, None);
    let second = resolve(&config, &snaps, None, None);
    assert_eq!(paths_of(&first), paths_of(&second));
}

#[test]
fn resolve_deduplicates_registered_and_scanned() {
    let config = Config {
        repositories: vec![RepositoryEntry { path: rp(&["repos", "a"]) }],
        directories: vec![DirectoryEntry { path: rp(&["repos"]) }],
    };
    let snaps = vec![Some(snap(&[&[], &["a"], &["a", ".git"]]))];
    let ws = resolve(&config, &snaps, None, None);
    assert_eq!(paths_of(&ws), vec![vec!["repos".to_string(), "a".to_string()]]);
}

#[test]
fn resolve_keeps_registered_checkout_without_reprobing() {
    // A registered checkout that no longer exists on disk is passed through.
    let config = Config {
        repositories: vec![RepositoryEntry { path: rp(&["gone"]) }],
        directories: vec![],
    };
    let snaps: Vec<Option<Snapshot>> = vec![];
    let ws = resolve(&config, &snaps, None, None);
    assert_eq!(paths_of(&ws), vec![vec!["gone".to_string()]]);
}

#[test]
fn resolve_unreadable_container_contributes_nothing() {
    let config = Config {
        repositories: vec![RepositoryEntry { path: rp(&["kept"]) }],
        directories: vec![DirectoryEntry { path: rp(&["missing"]) }],
    };
    let snaps: Vec<Option<Snapshot>> = vec![None];
    let ws = resolve(&config, &snaps, None, None);
    assert_eq!(paths_of(&ws), vec![vec!["kept".to_string()]]);
}

#[test]
fn resolve_scope_override_bypasses_registry() {
    let config = sample_config();
    let snaps = sample_snapshots();
    let scope = rp(&["elsewhere"]);
    let scope_snap = snap(&[&[], &["only"], &["only", ".git"]]);
    let ws = resolve(&config, &snaps, Some(&scope), Some(&scope_snap));
    assert_eq!(paths_of(&ws), vec![vec!["elsewhere".to_string(), "only".to_string()]]);
}

#[test]
fn resolve_scope_override_missing_directory_is_empty() {
    let config = sample_config();
    let snaps = sample_snapshots();
    let scope = rp(&["elsewhere"]);
    let ws = resolve(&config, &snaps, Some(&scope), None);
    assert!(ws.is_empty());
}
