use quiren::codec::serialize_listing;
use quiren::extract::{extract_changes, extract_deletions, extract_renames};
use quiren::model::{Args, Change, DirectoryEntry, Mode, QuirenError};
use quiren::snapshot::build_snapshot;

fn snapshot(names: &[&str]) -> Vec<DirectoryEntry> {
    build_snapshot("d", names.iter().map(|n| n.to_string()).collect())
}

#[test]
fn identity_yields_no_changes() {
    let entries = snapshot(&["a.txt", "b.txt", "c.txt"]);
    let text = serialize_listing(&entries);
    let changes = extract_renames(&text, "d", &entries).unwrap();
    assert_eq!(changes.len(), 0);
}

#[test]
fn changed_lines_yield_exactly_their_renames() {
    let entries = snapshot(&["a.txt", "b.txt", "c.txt"]);
    let changes = extract_renames("a.txt\nnew.txt\nc.txt", "d", &entries).unwrap();
    assert_eq!(changes.len(), 1);
    assert!(matches!(
        &changes[0],
        Change::Rename { from, to } if from.as_str() == "d/b.txt" && to.as_str() == "d/new.txt"
    ));
}

#[test]
fn every_changed_line_appears_in_order() {
    let entries = snapshot(&["a", "b"]);
    let changes = extract_renames("x\ny", "d", &entries).unwrap();
    assert_eq!(changes.len(), 2);
    assert!(matches!(&changes[0], Change::Rename { from, to } if from.as_str() == "d/a" && to.as_str() == "d/x"));
    assert!(matches!(&changes[1], Change::Rename { from, to } if from.as_str() == "d/b" && to.as_str() == "d/y"));
}

#[test]
fn count_mismatch_reports_expected_then_actual() {
    let entries = snapshot(&["a", "b", "c"]);
    let err = extract_renames("a\nb", "d", &entries).unwrap_err();
    assert!(matches!(err, QuirenError::EntryCountMismatch(3, 2)));
}

#[test]
fn count_mismatch_wins_over_duplicates() {
    // Both a duplicated name and a wrong line count: the count check decides.
    let entries = snapshot(&["a", "b", "c"]);
    let err = extract_renames("dup\ndup", "d", &entries).unwrap_err();
    assert!(matches!(err, QuirenError::EntryCountMismatch(3, 2)));
}

#[test]
fn empty_line_reports_the_entry_name() {
    let entries = snapshot(&["a", "b"]);
    let err = extract_renames("a\n\n", "d", &entries).unwrap_err();
    assert!(matches!(err, QuirenError::EmptyName(n) if n == "b"));
}

#[test]
fn empty_line_wins_over_duplicate_at_later_line() {
    // Line 0 is empty and lines 1 and 2 are duplicated: the empty-name rule
    // is applied in full before the duplicate rule.
    let entries = snapshot(&["a", "b", "c"]);
    let err = extract_renames("\ndup\ndup", "d", &entries).unwrap_err();
    assert!(matches!(err, QuirenError::EmptyName(n) if n == "a"));
}

#[test]
fn empty_line_wins_over_earlier_duplicate() {
    // Lines 0 and 1 are duplicated and only line 2 is empty: the empty-name
    // rule is still applied in full before the duplicate rule, so the third
    // entry's name is reported.
    let entries = snapshot(&["a", "b", "c"]);
    let err = extract_renames("dup\ndup\n\n", "d", &entries).unwrap_err();
    assert!(matches!(err, QuirenError::EmptyName(n) if n == "c"));
}

#[test]
fn duplicate_lines_report_the_name() {
    let entries = snapshot(&["a", "b"]);
    let err = extract_renames("same\nsame", "d", &entries).unwrap_err();
    assert!(matches!(err, QuirenError::DuplicateName(n) if n == "same"));
}

#[test]
fn renaming_onto_an_unchanged_line_is_a_duplicate() {
    // Assigning one entry the name another entry keeps is caught by
    // validation before anything touches the directory.
    let entries = snapshot(&["a.txt", "b.txt"]);
    let err = extract_renames("b.txt\nb.txt", "d", &entries).unwrap_err();
    assert!(matches!(err, QuirenError::DuplicateName(n) if n == "b.txt"));
}

#[test]
fn delete_mode_deletes_only_missing_names() {
    let entries = snapshot(&["x", "y", "z"]);
    let changes = extract_deletions("x\nz", &entries).unwrap();
    assert_eq!(changes.len(), 1);
    assert!(matches!(&changes[0], Change::Delete { path } if path.as_str() == "d/y"));
}

#[test]
fn delete_mode_ignores_line_order() {
    let entries = snapshot(&["x", "y", "z"]);
    let changes = extract_deletions("z\nx", &entries).unwrap();
    assert_eq!(changes.len(), 1);
    assert!(matches!(&changes[0], Change::Delete { path } if path.as_str() == "d/y"));
}

#[test]
fn delete_mode_never_renames() {
    // An edited line in delete mode is only a name that no longer matches:
    // it deletes its entry and renames nothing.
    let entries = snapshot(&["x", "y"]);
    let changes = extract_deletions("x-edited\ny", &entries).unwrap();
    assert_eq!(changes.len(), 1);
    assert!(matches!(&changes[0], Change::Delete { path } if path.as_str() == "d/x"));
}

#[test]
fn delete_mode_with_all_names_present_deletes_nothing() {
    let entries = snapshot(&["x", "y"]);
    let changes = extract_deletions("y\nx\nnoise", &entries).unwrap();
    assert_eq!(changes.len(), 0);
}

#[test]
fn extract_changes_dispatches_on_mode() {
    let entries = snapshot(&["a", "b"]);
    let renames = extract_changes("a\nc", "d", &entries, Mode::Rename).unwrap();
    assert_eq!(renames.len(), 1);
    assert!(matches!(&renames[0], Change::Rename { from, to } if from.as_str() == "d/b" && to.as_str() == "d/c"));
    let deletions = extract_changes("a", "d", &entries, Mode::Delete).unwrap();
    assert_eq!(deletions.len(), 1);
    assert!(matches!(&deletions[0], Change::Delete { path } if path.as_str() == "d/b"));
}

#[test]
fn mode_and_args_compare_by_value() {
    let a = Args { mode: Mode::Rename, dryrun: false, trash: true };
    let b = Args { mode: Mode::Rename, dryrun: false, trash: true };
    assert_eq!(a, b);
    assert!(Mode::Rename != Mode::Delete);
}
