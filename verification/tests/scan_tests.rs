use multigit::fstree::Snapshot;
use multigit::paths::RepoPath;
use multigit::scan::find_repositories;

fn rp(parts: &[&str]) -> RepoPath {
    RepoPath { segments: parts.iter().map(|s| s.to_string()).collect() }
}

fn snap(dirs: &[&[&str]]) -> Snapshot {
    Snapshot { dirs: dirs.iter().map(|d| rp(d)).collect() }
}

fn paths_of(found: &[RepoPath]) -> Vec<Vec<String>> {
    found.iter().map(|p| p.segments.clone()).collect()
}

#[test]
fn scan_missing_root_is_empty() {
    let root = rp(&["no", "such", "dir"]);
    let found = find_repositories(&root, None);
    assert!(found.is_empty());
}

#[test]
fn scan_reports_checkouts_sorted() {
    let root = rp(&["repos"]);
    let s = snap(&[
        &[],
        &["b"],
        &["b", ".git"],
        &["a"],
        &["a", ".git"],
        &["plain"],
    ]);
    let found = find_repositories(&root, Some(&s));
    assert_eq!(
        paths_of(&found),
        vec![
            vec!["repos".to_string(), "a".to_string()],
            vec!["repos".to_string(), "b".to_string()],
        ]
    );
}

#[test]
fn scan_root_itself_a_checkout_yields_one_element() {
    let root = rp(&["work", "single"]);
    let s = snap(&[&[], &[".git"], &["src"]]);
    let found = find_repositories(&root, Some(&s));
    assert_eq!(paths_of(&found), vec![vec!["work".to_string(), "single".to_string()]]);
}

#[test]
fn scan_does_not_report_nested_checkouts() {
    let root = rp(&["repos"]);
    let s = snap(&[
        &[],
        &["outer"],
        &["outer", ".git"],
        &["outer", "vendor"],
        &["outer", "vendor", "inner"],
        &["outer", "vendor", "inner", ".git"],
    ]);
    let found = find_repositories(&root, Some(&s));
    assert_eq!(paths_of(&found), vec![vec!["repos".to_string(), "outer".to_string()]]);
}

#[test]
fn scan_skips_hidden_directories() {
    let root = rp(&["repos"]);
    let s = snap(&[
        &[],
        &[".cache"],
        &[".cache", "r"],
        &[".cache", "r", ".git"],
        &["seen"],
        &["seen", ".git"],
    ]);
    let found = find_repositories(&root, Some(&s));
    assert_eq!(paths_of(&found), vec![vec!["repos".to_string(), "seen".to_string()]]);
}

#[test]
fn scan_hidden_checkout_itself_not_reported() {
    let root = rp(&["repos"]);
    let s = snap(&[&[], &[".hiddenrepo"], &[".hiddenrepo", ".git"]]);
    let found = find_repositories(&root, Some(&s));
    assert!(found.is_empty());
}

#[test]
fn scan_empty_snapshot_is_empty() {
    let root = rp(&["repos"]);
    let s = snap(&[]);
    let found = find_repositories(&root, Some(&s));
    assert!(found.is_empty());
}

#[test]
fn scan_plain_tree_without_checkouts_is_empty() {
    let root = rp(&["repos"]);
    let s = snap(&[&[], &["a"], &["a", "b"], &["c"]]);
    let found = find_repositories(&root, Some(&s));
    assert!(found.is_empty());
}

#[test]
fn scan_duplicate_snapshot_entries_reported_once() {
    let root = rp(&["repos"]);
    let s = snap(&[&[], &["a"], &["a", ".git"], &["a"], &["a", ".git"]]);
    let found = find_repositories(&root, Some(&s));
    assert_eq!(paths_of(&found), vec![vec!["repos".to_string(), "a".to_string()]]);
}

#[test]
fn scan_sorts_by_segments_not_joined_text() {
    // "a-b" sorts after the directory "a", so "a/c" comes before "a-b",
    // even though the joined strings would order the other way around.
    let root = rp(&[]);
    let s = snap(&[
        &[],
        &["a-b"],
        &["a-b", ".git"],
        &["a"],
        &["a", "c"],
        &["a", "c", ".git"],
    ]);
    let found = find_repositories(&root, Some(&s));
    assert_eq!(
        paths_of(&found),
        vec![
            vec!["a".to_string(), "c".to_string()],
            vec!["a-b".to_string()],
        ]
    );
}
