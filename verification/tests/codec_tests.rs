use quiren::codec::{parse_listing, serialize_listing};
use quiren::model::DirectoryEntry;
use quiren::snapshot::{build_snapshot, sort_names, str_le};

fn entry(name: &str, path: &str) -> DirectoryEntry {
    DirectoryEntry { original_name: name.to_string(), original_path: path.to_string() }
}

#[test]
fn parse_empty_text_has_no_lines() {
    let lines = parse_listing("");
    assert_eq!(lines.len(), 0);
}

#[test]
fn parse_drops_final_line_terminator() {
    let lines = parse_listing("a.txt\nb.txt\n");
    assert_eq!(lines, vec!["a.txt".to_string(), "b.txt".to_string()]);
}

#[test]
fn parse_without_final_terminator() {
    let lines = parse_listing("a.txt\nb.txt");
    assert_eq!(lines, vec!["a.txt".to_string(), "b.txt".to_string()]);
}

#[test]
fn parse_keeps_inner_empty_lines() {
    let lines = parse_listing("a\n\nb");
    assert_eq!(lines, vec!["a".to_string(), "".to_string(), "b".to_string()]);
}

#[test]
fn parse_lone_newline_is_one_empty_line() {
    let lines = parse_listing("\n");
    assert_eq!(lines, vec!["".to_string()]);
}

#[test]
fn parse_preserves_whitespace() {
    let lines = parse_listing("  a \n b");
    assert_eq!(lines, vec!["  a ".to_string(), " b".to_string()]);
}

#[test]
fn serialize_joins_names_with_newlines() {
    let entries = vec![entry("a.txt", "d/a.txt"), entry("b.txt", "d/b.txt")];
    assert_eq!(serialize_listing(&entries), "a.txt\nb.txt");
}

#[test]
fn serialize_of_empty_snapshot_is_empty() {
    let entries: Vec<DirectoryEntry> = Vec::new();
    assert_eq!(serialize_listing(&entries), "");
}

#[test]
fn round_trip_serialize_then_parse() {
    let entries = vec![entry("a.txt", "d/a.txt"), entry("b c", "d/b c"), entry("z", "d/z")];
    let text = serialize_listing(&entries);
    let lines = parse_listing(&text);
    assert_eq!(lines, vec!["a.txt".to_string(), "b c".to_string(), "z".to_string()]);
}

#[test]
fn str_le_orders_by_codepoint() {
    assert!(str_le("a", "b"));
    assert!(!str_le("b", "a"));
    assert!(str_le("a", "ab"));
    assert!(!str_le("ab", "a"));
    assert!(str_le("abc", "abc"));
    assert!(str_le("", "a"));
    assert!(str_le("A", "a"));
}

#[test]
fn sort_names_gives_codepoint_order() {
    let sorted = sort_names(vec!["b".to_string(), "a".to_string(), "ab".to_string()]);
    assert_eq!(sorted, vec!["a".to_string(), "ab".to_string(), "b".to_string()]);
}

#[test]
fn build_snapshot_sorts_and_joins_paths() {
    let entries = build_snapshot("d", vec!["b.txt".to_string(), "a.txt".to_string()]);
    assert_eq!(entries.len(), 2);
    assert_eq!(entries[0].original_name, "a.txt");
    assert_eq!(entries[0].original_path, "d/a.txt");
    assert_eq!(entries[1].original_name, "b.txt");
    assert_eq!(entries[1].original_path, "d/b.txt");
}
