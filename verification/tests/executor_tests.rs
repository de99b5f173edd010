use quiren::executor::{apply_changes, decide_rename, dest_in_changes, ModelFs, Redirects, RenameDecision};
use quiren::extract::extract_renames;
use quiren::model::{Change, DirectoryEntry, QuirenError};
use quiren::namegen::{fresh_aux_names, tmpfile};
use quiren::snapshot::build_snapshot;

fn fs_with(files: &[(&str, u64)]) -> ModelFs {
    let mut fs = ModelFs::new();
    for (p, id) in files {
        fs.insert_path(p, *id);
    }
    fs
}

fn rename(from: &str, to: &str) -> Change {
    Change::Rename { from: from.to_string(), to: to.to_string() }
}

fn snapshot(names: &[&str]) -> Vec<DirectoryEntry> {
    build_snapshot("d", names.iter().map(|n| n.to_string()).collect())
}

#[test]
fn plain_rename_moves_the_file() {
    let mut fs = fs_with(&[("d/a.txt", 1)]);
    let changes = vec![rename("d/a.txt", "d/b.txt")];
    let auxs: Vec<String> = Vec::new();
    apply_changes(&mut fs, &changes, &auxs).unwrap();
    assert_eq!(fs.get_path("d/b.txt"), Some(1));
    assert_eq!(fs.get_path("d/a.txt"), None);
    assert_eq!(fs.file_count(), 1);
}

#[test]
fn swap_resolves_without_loss() {
    // The two files trade places; the occupant of each destination is itself
    // renamed away, so no overwrite is reported and no content is lost.
    let mut fs = fs_with(&[("d/a.txt", 1), ("d/b.txt", 2)]);
    let entries = snapshot(&["a.txt", "b.txt"]);
    let changes = extract_renames("b.txt\na.txt", "d", &entries).unwrap();
    assert_eq!(changes.len(), 2);
    let auxs = fresh_aux_names(&fs, &changes, "d", changes.len()).unwrap();
    apply_changes(&mut fs, &changes, &auxs).unwrap();
    assert_eq!(fs.get_path("d/b.txt"), Some(1));
    assert_eq!(fs.get_path("d/a.txt"), Some(2));
    assert_eq!(fs.file_count(), 2);
}

#[test]
fn three_way_rotation_leaves_no_auxiliary_file() {
    // a -> b -> c -> a: two files are displaced, so two auxiliary paths
    // suffice, and afterwards exactly the three rotated files remain.
    let mut fs = fs_with(&[("d/a.txt", 1), ("d/b.txt", 2), ("d/c.txt", 3)]);
    let entries = snapshot(&["a.txt", "b.txt", "c.txt"]);
    let changes = extract_renames("b.txt\nc.txt\na.txt", "d", &entries).unwrap();
    assert_eq!(changes.len(), 3);
    let auxs = fresh_aux_names(&fs, &changes, "d", 2).unwrap();
    apply_changes(&mut fs, &changes, &auxs).unwrap();
    assert_eq!(fs.get_path("d/b.txt"), Some(1));
    assert_eq!(fs.get_path("d/c.txt"), Some(2));
    assert_eq!(fs.get_path("d/a.txt"), Some(3));
    assert_eq!(fs.file_count(), 3);
}

#[test]
fn overwrite_without_cycle_fails_and_touches_nothing() {
    // The file at the destination is not itself renamed away or deleted, so
    // the rename stops with Overwrite and both files stay where they were.
    let mut fs = fs_with(&[("d/a.txt", 1), ("d/b.txt", 2)]);
    let changes = vec![rename("d/a.txt", "d/b.txt")];
    let auxs: Vec<String> = Vec::new();
    let err = apply_changes(&mut fs, &changes, &auxs).unwrap_err();
    assert!(matches!(err, QuirenError::Overwrite(a, b) if a == "d/a.txt" && b == "d/b.txt"));
    assert_eq!(fs.get_path("d/a.txt"), Some(1));
    assert_eq!(fs.get_path("d/b.txt"), Some(2));
    assert_eq!(fs.file_count(), 2);
}

#[test]
fn chain_rename_vacates_before_reuse() {
    // b -> c frees b only after a -> b displaced its occupant: the listing
    // order still applies cleanly.
    let mut fs = fs_with(&[("d/a.txt", 1), ("d/b.txt", 2)]);
    let entries = snapshot(&["a.txt", "b.txt"]);
    let changes = extract_renames("b.txt\nc.txt", "d", &entries).unwrap();
    let auxs = fresh_aux_names(&fs, &changes, "d", changes.len()).unwrap();
    apply_changes(&mut fs, &changes, &auxs).unwrap();
    assert_eq!(fs.get_path("d/b.txt"), Some(1));
    assert_eq!(fs.get_path("d/c.txt"), Some(2));
    assert_eq!(fs.file_count(), 2);
}

#[test]
fn delete_removes_the_file() {
    let mut fs = fs_with(&[("d/x", 7), ("d/y", 8)]);
    let changes = vec![Change::Delete { path: "d/y".to_string() }];
    let auxs: Vec<String> = Vec::new();
    apply_changes(&mut fs, &changes, &auxs).unwrap();
    assert_eq!(fs.get_path("d/y"), None);
    assert_eq!(fs.get_path("d/x"), Some(7));
    assert_eq!(fs.file_count(), 1);
}

#[test]
fn deleting_a_missing_file_is_an_io_error() {
    let mut fs = fs_with(&[("d/x", 7)]);
    let changes = vec![Change::Delete { path: "d/gone".to_string() }];
    let auxs: Vec<String> = Vec::new();
    let err = apply_changes(&mut fs, &changes, &auxs).unwrap_err();
    assert!(matches!(err, QuirenError::IoError));
    assert_eq!(fs.file_count(), 1);
}

#[test]
fn renaming_a_missing_source_is_an_io_error() {
    let mut fs = ModelFs::new();
    let changes = vec![rename("d/gone", "d/b")];
    let auxs: Vec<String> = Vec::new();
    let err = apply_changes(&mut fs, &changes, &auxs).unwrap_err();
    assert!(matches!(err, QuirenError::IoError));
}

#[test]
fn displacement_without_auxiliary_names_fails_allocation() {
    let mut fs = fs_with(&[("d/a.txt", 1), ("d/b.txt", 2)]);
    let entries = snapshot(&["a.txt", "b.txt"]);
    let changes = extract_renames("b.txt\na.txt", "d", &entries).unwrap();
    let auxs: Vec<String> = Vec::new();
    let err = apply_changes(&mut fs, &changes, &auxs).unwrap_err();
    assert!(matches!(err, QuirenError::Tempfile));
}

#[test]
fn dest_in_changes_sees_sources_only() {
    let changes = vec![
        rename("d/a", "d/b"),
        Change::Delete { path: "d/c".to_string() },
    ];
    assert!(dest_in_changes(&changes, "d/a"));
    assert!(dest_in_changes(&changes, "d/c"));
    assert!(!dest_in_changes(&changes, "d/b"));
    assert!(!dest_in_changes(&changes, "d/z"));
}

#[test]
fn decide_rename_follows_occupancy_and_sources() {
    let changes = vec![rename("d/a", "d/b"), rename("d/b", "d/a")];
    // Free destination: go ahead.
    assert_eq!(decide_rename(&changes, "d/b", false), RenameDecision::Proceed);
    // Occupied by a file the batch renames away: displace it first.
    assert_eq!(decide_rename(&changes, "d/b", true), RenameDecision::Displace);
    // Occupied by a file the batch leaves alone: stop.
    assert_eq!(decide_rename(&changes, "d/c", true), RenameDecision::Overwrite);
}

#[test]
fn redirects_resolve_recorded_and_unrecorded_paths() {
    let mut red = Redirects::new();
    red.record("d/b", "d/tmp1");
    assert_eq!(red.resolve("d/b"), "d/tmp1");
    assert_eq!(red.resolve("d/a"), "d/a");
}

#[test]
fn tmpfile_returns_a_free_alphanumeric_path() {
    let fs = fs_with(&[("d/a.txt", 1)]);
    let p = tmpfile(&fs, "d").unwrap();
    assert!(p.starts_with("d/"));
    let name = &p["d/".len()..];
    assert_eq!(name.chars().count(), 8);
    assert!(name.chars().all(|c| c.is_ascii_alphanumeric()));
    assert!(!fs.contains_path(&p));
}

#[test]
fn tmpfile_does_not_repeat_names_on_successive_calls() {
    let fs = ModelFs::new();
    let p1 = tmpfile(&fs, "d").unwrap();
    let p2 = tmpfile(&fs, "d").unwrap();
    assert_ne!(p1, p2);
}

#[test]
fn fresh_aux_names_avoid_everything_in_play() {
    let fs = fs_with(&[("d/a.txt", 1), ("d/b.txt", 2)]);
    let changes = vec![rename("d/a.txt", "d/b.txt"), rename("d/b.txt", "d/a.txt")];
    let auxs = fresh_aux_names(&fs, &changes, "d", 2).unwrap();
    assert_eq!(auxs.len(), 2);
    assert_ne!(auxs[0], auxs[1]);
    for a in &auxs {
        assert!(!fs.contains_path(a));
        assert_ne!(a, "d/a.txt");
        assert_ne!(a, "d/b.txt");
    }
}

#[test]
fn model_fs_insert_replaces_and_counts() {
    let mut fs = ModelFs::new();
    fs.insert_path("d/a", 1);
    fs.insert_path("d/a", 2);
    assert_eq!(fs.file_count(), 1);
    assert_eq!(fs.get_path("d/a"), Some(2));
    fs.remove_path("d/a");
    assert_eq!(fs.file_count(), 0);
    assert_eq!(fs.get_path("d/a"), None);
}
