use multigit::paths::{sort_dedup, str_before, RepoPath};

fn rp(parts: &[&str]) -> RepoPath {
    RepoPath { segments: parts.iter().map(|s| s.to_string()).collect() }
}

fn segs(paths: &[RepoPath]) -> Vec<Vec<String>> {
    paths.iter().map(|p| p.segments.clone()).collect()
}

#[test]
fn segment_order_is_lexicographic() {
    assert!(str_before("a", "b"));
    assert!(!str_before("b", "a"));
    assert!(str_before("a", "ab"));
    assert!(!str_before("ab", "a"));
    assert!(!str_before("same", "same"));
    assert!(str_before("", "x"));
    assert!(str_before("Zoo", "apple"));
}

#[test]
fn path_order_compares_segment_by_segment() {
    assert!(rp(&["a"]).before(&rp(&["a", "c"])));
    assert!(rp(&["a", "c"]).before(&rp(&["a-b"])));
    assert!(!rp(&["a-b"]).before(&rp(&["a", "c"])));
    assert!(!rp(&["a"]).before(&rp(&["a"])));
}

#[test]
fn same_as_compares_whole_paths() {
    assert!(rp(&["x", "y"]).same_as(&rp(&["x", "y"])));
    assert!(!rp(&["x", "y"]).same_as(&rp(&["x"])));
    assert!(!rp(&["x", "y"]).same_as(&rp(&["x", "z"])));
}

#[test]
fn join_appends_segments() {
    let joined = rp(&["a", "b"]).join(&rp(&["c"]));
    assert_eq!(joined.segments, vec!["a".to_string(), "b".to_string(), "c".to_string()]);
    let same = rp(&["a"]).join(&rp(&[]));
    assert_eq!(same.segments, vec!["a".to_string()]);
}

#[test]
fn sort_dedup_sorts_and_removes_duplicates() {
    let input = vec![rp(&["b"]), rp(&["a", "x"]), rp(&["b"]), rp(&["a"])];
    let sorted = sort_dedup(&input);
    assert_eq!(
        segs(&sorted),
        vec![
            vec!["a".to_string()],
            vec!["a".to_string(), "x".to_string()],
            vec!["b".to_string()],
        ]
    );
}

#[test]
fn sort_dedup_of_empty_is_empty() {
    let sorted = sort_dedup(&vec![]);
    assert!(sorted.is_empty());
}
