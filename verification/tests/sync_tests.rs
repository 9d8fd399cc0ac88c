use file_sync::config::Config;
use file_sync::noise::is_noise_name;
use file_sync::plan::{compute_actions, Action};
use file_sync::snapshot::{component_eq, path_eq, FileMeta, Snapshot};

fn pv(s: &str) -> Vec<Vec<u8>> {
    s.split('/').map(|c| c.as_bytes().to_vec()).collect()
}

fn file(size: u64) -> FileMeta {
    FileMeta { is_dir: false, size, modified: 7 }
}

fn dir() -> FileMeta {
    FileMeta { is_dir: true, size: 0, modified: 7 }
}

fn snap(entries: &[(&str, FileMeta)]) -> Snapshot {
    let mut s = Snapshot::new();
    for (path, meta) in entries {
        let p = pv(path);
        if !s.contains(&p) {
            s.insert(p, *meta);
        }
    }
    s
}

#[test]
fn empty_trees_need_no_actions() {
    let src = snap(&[]);
    let dst = snap(&[]);
    assert_eq!(compute_actions(&src, &dst), vec![]);
}

#[test]
fn matching_trees_need_no_actions() {
    // Idempotence: after a successful run the destination holds the same
    // paths as the source, so a second run plans no mutation at all, even
    // where size or kind metadata differs between the two captures.
    let src = snap(&[("a", dir()), ("a/f.txt", file(10)), ("b.txt", file(3))]);
    let dst = snap(&[("a", dir()), ("a/f.txt", file(999)), ("b.txt", dir())]);
    assert_eq!(compute_actions(&src, &dst), vec![]);
}

#[test]
fn missing_paths_are_created_with_matching_kind() {
    let src = snap(&[("a", dir()), ("a/f.txt", file(10))]);
    let dst = snap(&[]);
    let actions = compute_actions(&src, &dst);
    assert_eq!(
        actions,
        vec![
            Action::CreateDir(pv("a")),
            Action::CopyFile(pv("a/f.txt")),
        ]
    );
}

#[test]
fn extraneous_paths_are_pruned() {
    let src = snap(&[]);
    let dst = snap(&[("x.txt", file(4)), ("d", dir())]);
    let actions = compute_actions(&src, &dst);
    assert_eq!(
        actions,
        vec![Action::DeleteFile(pv("x.txt")), Action::DeleteDir(pv("d"))]
    );
}

#[test]
fn directories_are_deleted_deepest_first() {
    let src = snap(&[]);
    let dst = snap(&[
        ("old", dir()),
        ("old/deep", dir()),
        ("old/deep/deeper", dir()),
    ]);
    let actions = compute_actions(&src, &dst);
    assert_eq!(
        actions,
        vec![
            Action::DeleteDir(pv("old/deep/deeper")),
            Action::DeleteDir(pv("old/deep")),
            Action::DeleteDir(pv("old")),
        ]
    );
}

#[test]
fn depth_ties_allow_either_order() {
    let src = snap(&[]);
    let dst = snap(&[("a", dir()), ("a/b", dir()), ("a/c", dir())]);
    let actions = compute_actions(&src, &dst);
    assert_eq!(actions.len(), 3);
    // the two depth-2 siblings come first, in either order
    assert!(
        actions[..2] == [Action::DeleteDir(pv("a/b")), Action::DeleteDir(pv("a/c"))]
            || actions[..2] == [Action::DeleteDir(pv("a/c")), Action::DeleteDir(pv("a/b"))]
    );
    assert_eq!(actions[2], Action::DeleteDir(pv("a")));
}

#[test]
fn shared_paths_are_untouched() {
    // Non-interference: a path present in both trees is never acted on,
    // even when the destination's copy has a different size.
    let src = snap(&[("keep", dir()), ("keep/f.txt", file(10)), ("new.txt", file(1))]);
    let dst = snap(&[("keep", dir()), ("keep/f.txt", file(12345))]);
    let actions = compute_actions(&src, &dst);
    assert_eq!(actions, vec![Action::CopyFile(pv("new.txt"))]);
}

#[test]
fn creates_come_before_deletions() {
    let src = snap(&[("n.txt", file(2))]);
    let dst = snap(&[("gone.txt", file(9)), ("olddir", dir())]);
    let actions = compute_actions(&src, &dst);
    assert_eq!(
        actions,
        vec![
            Action::CopyFile(pv("n.txt")),
            Action::DeleteFile(pv("gone.txt")),
            Action::DeleteDir(pv("olddir")),
        ]
    );
}

#[test]
fn scenario_source_tree_into_empty_destination() {
    // source: a/b/file.txt (10 bytes) and empty directory a/empty
    let src = snap(&[
        ("a", dir()),
        ("a/b", dir()),
        ("a/b/file.txt", file(10)),
        ("a/empty", dir()),
    ]);
    let dst = snap(&[]);
    let actions = compute_actions(&src, &dst);
    assert_eq!(
        actions,
        vec![
            Action::CreateDir(pv("a")),
            Action::CreateDir(pv("a/b")),
            Action::CopyFile(pv("a/b/file.txt")),
            Action::CreateDir(pv("a/empty")),
        ]
    );
}

#[test]
fn scenario_destination_tree_fully_pruned() {
    // destination: old/deep/leaf.txt under old/deep under old; source empty
    let src = snap(&[]);
    let dst = snap(&[
        ("old", dir()),
        ("old/deep", dir()),
        ("old/deep/leaf.txt", file(5)),
    ]);
    let actions = compute_actions(&src, &dst);
    assert_eq!(
        actions,
        vec![
            Action::DeleteFile(pv("old/deep/leaf.txt")),
            Action::DeleteDir(pv("old/deep")),
            Action::DeleteDir(pv("old")),
        ]
    );
}

#[test]
fn noise_names_are_recognised() {
    assert!(is_noise_name(b"._foo"));
    assert!(is_noise_name(b"._"));
    assert!(is_noise_name(b".DS_Store"));
    assert!(!is_noise_name(b".ds_store"));
    assert!(!is_noise_name(b"DS_Store"));
    assert!(!is_noise_name(b".D"));
    assert!(!is_noise_name(b"file.txt"));
    assert!(!is_noise_name(b""));
    assert!(!is_noise_name(b"a._b"));
}

#[test]
fn noise_entries_skipped_on_either_side_cause_no_actions() {
    // A walker applying the skip rule never records noise entries, so a
    // noise entry existing on one side only leads to no action: both
    // snapshots simply lack it.
    let noise_names: Vec<&[u8]> = vec![b"._resource", b".DS_Store"];
    for name in noise_names {
        assert!(is_noise_name(name));
    }
    let src = snap(&[("a", dir())]);
    let dst = snap(&[("a", dir())]);
    assert_eq!(compute_actions(&src, &dst), vec![]);
}

#[test]
fn snapshot_contains_inserted_paths() {
    let mut s = Snapshot::new();
    assert_eq!(s.len(), 0);
    assert!(!s.contains(&pv("a")));
    s.insert(pv("a"), dir());
    s.insert(pv("a/b.txt"), file(1));
    assert_eq!(s.len(), 2);
    assert!(s.contains(&pv("a")));
    assert!(s.contains(&pv("a/b.txt")));
    assert!(!s.contains(&pv("b.txt")));
    assert!(!s.contains(&pv("a/b")));
}

#[test]
fn path_and_component_equality() {
    assert!(path_eq(&pv("a/b"), &pv("a/b")));
    assert!(!path_eq(&pv("a/b"), &pv("a/c")));
    assert!(!path_eq(&pv("a"), &pv("a/b")));
    assert!(component_eq(&b"abc".to_vec(), &b"abc".to_vec()));
    assert!(!component_eq(&b"abc".to_vec(), &b"abd".to_vec()));
    assert!(!component_eq(&b"abc".to_vec(), &b"ab".to_vec()));
}

#[test]
fn config_build_takes_two_paths() {
    let args: Vec<String> = vec!["prog".to_string(), "srcdir".to_string(), "dstdir".to_string()];
    let c = Config::Build(&args).unwrap();
    assert_eq!(c.source, "srcdir");
    assert_eq!(c.destination, "dstdir");
}

#[test]
fn config_build_rejects_missing_args() {
    let args: Vec<String> = vec!["prog".to_string(), "only_one".to_string()];
    assert_eq!(Config::Build(&args), Err("Less args provided"));
}
