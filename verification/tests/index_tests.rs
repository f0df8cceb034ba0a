use school_desk::index::{indexed_file, stale_paths};
use school_desk::reindex::{answer_reindex, ReindexReply};

fn strings(v: &[&str]) -> Vec<String> {
    v.iter().map(|s| s.to_string()).collect()
}

#[test]
fn stale_paths_are_those_not_walked_each_once() {
    let existing = strings(&["a", "b", "a", "c", "c"]);
    let walked = strings(&["b", "d"]);
    let mut stale = stale_paths(&existing, &walked);
    stale.sort();
    assert_eq!(stale, strings(&["a", "c"]));
}

#[test]
fn nothing_is_stale_when_everything_was_walked() {
    assert!(stale_paths(&strings(&["x", "y"]), &strings(&["y", "x", "z"])).is_empty());
    assert!(stale_paths(&Vec::new(), &strings(&["x"])).is_empty());
    assert_eq!(stale_paths(&strings(&["x"]), &Vec::new()), strings(&["x"]));
}

#[test]
fn indexed_file_uses_forward_slashes_and_flag() {
    let f = indexed_file("a.jpg".to_string(), "2026\\School_A\\a.jpg", false);
    assert_eq!(f.name, "a.jpg");
    assert_eq!(f.path, "2026/School_A/a.jpg");
    assert_eq!(f.is_dir, 0);
    assert_eq!(indexed_file("2026".to_string(), "2026", true).is_dir, 1);
}

#[test]
fn reindex_runs_one_walk_at_a_time() {
    let started = answer_reindex(false);
    assert!(started == ReindexReply::Started);
    assert!(started.starts_walk());
    assert_eq!(started.message(), "Reindex started");
    let refused = answer_reindex(true);
    assert!(refused == ReindexReply::AlreadyIndexing);
    assert!(!refused.starts_walk());
    assert_eq!(refused.message(), "Already indexing...");
}
