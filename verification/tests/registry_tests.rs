use multigit::fstree::Snapshot;
use multigit::paths::RepoPath;
use multigit::registry::Config;

fn rp(parts: &[&str]) -> RepoPath {
    RepoPath { segments: parts.iter().map(|s| s.to_string()).collect() }
}

fn checkout_snapshot() -> Snapshot {
    // The directory itself, with the metadata directory directly beneath.
    Snapshot { dirs: vec![rp(&[]), rp(&[".git"]), rp(&["src"])] }
}

fn plain_snapshot() -> Snapshot {
    Snapshot { dirs: vec![rp(&[]), rp(&["a"]), rp(&["b"])] }
}

#[test]
fn registering_checkout_root_classifies_as_repository() {
    let mut config = Config::new();
    let p = rp(&["work", "proj"]);
    let s = checkout_snapshot();
    config.register(&p, Some(&s));
    assert!(config.has_repository(&p));
    assert!(!config.has_directory(&p));
    assert_eq!(config.repositories.len(), 1);
    assert_eq!(config.directories.len(), 0);
}

#[test]
fn registering_plain_directory_classifies_as_container() {
    let mut config = Config::new();
    let p = rp(&["work"]);
    let s = plain_snapshot();
    config.register(&p, Some(&s));
    assert!(config.has_directory(&p));
    assert!(!config.has_repository(&p));
    assert_eq!(config.directories.len(), 1);
    assert_eq!(config.repositories.len(), 0);
}

#[test]
fn registering_missing_path_classifies_as_container() {
    let mut config = Config::new();
    let p = rp(&["nowhere"]);
    config.register(&p, None);
    assert!(config.has_directory(&p));
    assert!(!config.has_repository(&p));
}

#[test]
fn registering_twice_keeps_one_entry() {
    let mut config = Config::new();
    let p = rp(&["work", "proj"]);
    let s = checkout_snapshot();
    config.register(&p, Some(&s));
    config.register(&p, Some(&s));
    assert_eq!(config.repositories.len(), 1);
}

#[test]
fn unregister_removes_from_both_classifications() {
    let mut config = Config::new();
    let repo = rp(&["work", "proj"]);
    let dir = rp(&["work"]);
    config.register(&repo, Some(&checkout_snapshot()));
    config.register(&dir, Some(&plain_snapshot()));
    config.unregister(&repo);
    assert!(!config.has_repository(&repo));
    assert!(config.has_directory(&dir));
    config.unregister(&dir);
    assert!(!config.has_directory(&dir));
    assert_eq!(config.repositories.len(), 0);
    assert_eq!(config.directories.len(), 0);
}

#[test]
fn unregister_unknown_path_changes_nothing() {
    let mut config = Config::new();
    let p = rp(&["work", "proj"]);
    config.register(&p, Some(&checkout_snapshot()));
    config.unregister(&rp(&["other"]));
    assert!(config.has_repository(&p));
    assert_eq!(config.repositories.len(), 1);
}

#[test]
fn unregister_keeps_order_of_the_rest() {
    let mut config = Config::new();
    let a = rp(&["a"]);
    let b = rp(&["b"]);
    let c = rp(&["c"]);
    let s = checkout_snapshot();
    config.register(&a, Some(&s));
    config.register(&b, Some(&s));
    config.register(&c, Some(&s));
    config.unregister(&b);
    let names: Vec<Vec<String>> =
        config.repositories.iter().map(|e| e.path.segments.clone()).collect();
    assert_eq!(names, vec![vec!["a".to_string()], vec!["c".to_string()]]);
}
