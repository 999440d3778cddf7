use chakra_checksum::cli::{is_component_file, select_mode, Mode};
use chakra_checksum::compare::{compare_manifests, unified_line_endings, ChecksumMismatch};

#[test]
fn identical_manifests_match() {
    let t = "src/a.tsx, 3, 900150983cd24fb0d6963f7d28e17f72\n";
    assert_eq!(compare_manifests(t, t), Ok(()));
    assert_eq!(compare_manifests("", ""), Ok(()));
}

#[test]
fn single_byte_difference_is_a_mismatch() {
    let a = "src/a.tsx, 3, 900150983cd24fb0d6963f7d28e17f72\n";
    let b = "src/a.tsx, 3, 900150983cd24fb0d6963f7d28e17f73\n";
    assert_eq!(compare_manifests(a, b), Err(ChecksumMismatch));
}

#[test]
fn line_endings_are_unified() {
    assert_eq!(unified_line_endings("a\r\nb\r\n"), "a\nb\n");
    assert_eq!(unified_line_endings("a\rb\r"), "a\rb\r");
    assert_eq!(compare_manifests("a, 1, x\r\n", "a, 1, x\n"), Ok(()));
}

#[test]
fn mode_selection() {
    assert_eq!(select_mode(true, false), Mode::Generate);
    assert_eq!(select_mode(true, true), Mode::Generate);
    assert_eq!(select_mode(false, true), Mode::Check);
    assert_eq!(select_mode(false, false), Mode::Usage);
}

#[test]
fn component_files_are_tsx() {
    assert!(is_component_file("Button.tsx"));
    assert!(is_component_file(".tsx"));
    assert!(!is_component_file("Button.ts"));
    assert!(!is_component_file("tsx"));
    assert!(!is_component_file("Button.tsx.bak"));
}
