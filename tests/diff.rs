use chakra_checksum::diff::{affected_entries, affected_paths, changed_path_of, diff_lines, split_diff_line};

#[test]
fn split_three_fields() {
    let r = split_diff_line("src/a.tsx, 120, abc123");
    assert_eq!(r, ["src/a.tsx".to_string(), "120".to_string(), "abc123".to_string()]);
}

#[test]
fn split_missing_fields_are_empty() {
    assert_eq!(split_diff_line("only"), ["only".to_string(), String::new(), String::new()]);
    assert_eq!(split_diff_line(""), [String::new(), String::new(), String::new()]);
    assert_eq!(split_diff_line("a, b"), ["a".to_string(), "b".to_string(), String::new()]);
}

#[test]
fn split_drops_extra_fields() {
    assert_eq!(split_diff_line("a, b, c, d"), ["a".to_string(), "b".to_string(), "c".to_string()]);
    assert_eq!(split_diff_line("a,b, c"), ["a,b".to_string(), "c".to_string(), String::new()]);
    assert_eq!(split_diff_line("a, "), ["a".to_string(), String::new(), String::new()]);
}

#[test]
fn lines_of_text() {
    assert_eq!(diff_lines("a\nb\r\n\nc"), vec!["a", "b", "", "c"]);
    assert_eq!(diff_lines("a\n"), vec!["a"]);
    assert!(diff_lines("").is_empty());
    assert_eq!(diff_lines("a\r"), vec!["a\r"]);
    assert_eq!(diff_lines("\n"), vec![""]);
}

#[test]
fn changed_path_of_lines() {
    assert_eq!(changed_path_of("-src/a.tsx, 1, x"), Some("src/a.tsx".to_string()));
    assert_eq!(changed_path_of("+src/b.tsx, 2, y"), Some("src/b.tsx".to_string()));
    assert_eq!(changed_path_of("--- a/chakra_checksum.txt"), None);
    assert_eq!(changed_path_of("+++ b/chakra_checksum.txt"), None);
    assert_eq!(changed_path_of("@@ -1 +1 @@"), None);
    assert_eq!(changed_path_of(" context, 1, z"), None);
    assert_eq!(changed_path_of("-"), Some(String::new()));
}

#[test]
fn diff_extraction_deduplicates_modified_entry() {
    let text = "--- a/chakra_checksum.txt\n+++ b/chakra_checksum.txt\n@@ -1,2 +1,2 @@\n-src/components/chakra/Button.tsx, 120, abc123\n+src/components/chakra/Button.tsx, 130, def456\n";
    let r = affected_entries(text);
    assert_eq!(r, vec!["src/components/chakra/Button.tsx".to_string()]);
}

#[test]
fn empty_diff_has_no_drift() {
    let text = "--- a/chakra_checksum.txt\n+++ b/chakra_checksum.txt\n@@ -1,2 +1,2 @@\n";
    assert!(affected_entries(text).is_empty());
    assert!(affected_entries("").is_empty());
}

#[test]
fn affected_paths_sorted_and_distinct() {
    let lines = vec![
        "-src/b.tsx, 1, x".to_string(),
        "+src/a.tsx, 1, x".to_string(),
        " src/c.tsx, 1, x".to_string(),
        "+src/b.tsx, 2, y".to_string(),
        "-src/B.tsx, 2, y".to_string(),
    ];
    assert_eq!(affected_paths(&lines), vec!["src/B.tsx", "src/a.tsx", "src/b.tsx"]);
}
