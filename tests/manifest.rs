use chakra_checksum::manifest::{
    build_manifest, content_digest, files_to_digest, ListedEntry, manifest_entry, manifest_line, serialize_manifest,
    sort_by_raw_path, ManifestEntry, SourceFile,
};

fn file(raw: &str, content: &[u8]) -> SourceFile {
    SourceFile { raw_path: raw.to_string(), content: content.to_vec() }
}

#[test]
fn digest_of_empty_content() {
    assert_eq!(content_digest(b""), "d41d8cd98f00b204e9800998ecf8427e");
}

#[test]
fn digest_of_known_content() {
    assert_eq!(content_digest(b"abc"), "900150983cd24fb0d6963f7d28e17f72");
}

#[test]
fn digest_is_stable_and_sensitive_to_one_byte() {
    let a = content_digest(b"export const Button = 1;\n");
    let b = content_digest(b"export const Button = 1;\n");
    let c = content_digest(b"export const Button = 2;\n");
    assert_eq!(a, b);
    assert_ne!(a, c);
    assert_eq!(a.len(), 32);
    assert!(a.chars().all(|ch| ch.is_ascii_hexdigit() && !ch.is_ascii_uppercase()));
}

#[test]
fn entry_normalizes_path_and_measures_content() {
    let e = manifest_entry(&file("..\\src\\components\\chakra\\Button.tsx", b"abc"));
    assert_eq!(e.display_path, "src/components/chakra/Button.tsx");
    assert_eq!(e.size_bytes, 3);
    assert_eq!(e.digest_hex, "900150983cd24fb0d6963f7d28e17f72");
}

#[test]
fn line_format() {
    let e = ManifestEntry {
        display_path: "src/components/chakra/Button.tsx".to_string(),
        size_bytes: 120,
        digest_hex: "abc123".to_string(),
    };
    assert_eq!(manifest_line(&e), "src/components/chakra/Button.tsx, 120, abc123\n");
}

#[test]
fn line_format_zero_and_largest_size() {
    let zero = ManifestEntry { display_path: "a".to_string(), size_bytes: 0, digest_hex: "d".to_string() };
    assert_eq!(manifest_line(&zero), "a, 0, d\n");
    let max = ManifestEntry {
        display_path: "a".to_string(),
        size_bytes: u64::MAX,
        digest_hex: "d".to_string(),
    };
    assert_eq!(manifest_line(&max), "a, 18446744073709551615, d\n");
}

#[test]
fn sort_orders_by_raw_code_points() {
    let sorted = sort_by_raw_path(vec![
        file("../src/a.tsx", b"1"),
        file("../src/B.tsx", b"2"),
        file("../src/C.tsx", b"3"),
        file("../src/", b"4"),
    ]);
    let names: Vec<&str> = sorted.iter().map(|f| f.raw_path.as_str()).collect();
    assert_eq!(names, vec!["../src/", "../src/B.tsx", "../src/C.tsx", "../src/a.tsx"]);
}

#[test]
fn manifest_orders_uppercase_before_lowercase() {
    let m = build_manifest(vec![file("../src/a.tsx", b"lower"), file("../src/B.tsx", b"upper")]);
    assert_eq!(m.len(), 2);
    assert_eq!(m[0].display_path, "src/B.tsx");
    assert_eq!(m[1].display_path, "src/a.tsx");
}

#[test]
fn manifest_text_exact() {
    let m = build_manifest(vec![file("../x/b.tsx", b""), file("../x/a.tsx", b"abc")]);
    let text = serialize_manifest(&m);
    assert_eq!(
        text,
        "x/a.tsx, 3, 900150983cd24fb0d6963f7d28e17f72\nx/b.tsx, 0, d41d8cd98f00b204e9800998ecf8427e\n"
    );
}

#[test]
fn manifest_of_empty_listing_is_empty_text() {
    let m = build_manifest(Vec::new());
    assert!(m.is_empty());
    assert_eq!(serialize_manifest(&m), "");
}

#[test]
fn build_twice_in_any_listing_order_gives_same_text() {
    let first = build_manifest(vec![
        file("../c/Z.tsx", b"z"),
        file("../c/b.tsx", b"b"),
        file("../c/A.tsx", b"a"),
    ]);
    let second = build_manifest(vec![
        file("../c/A.tsx", b"a"),
        file("../c/Z.tsx", b"z"),
        file("../c/b.tsx", b"b"),
    ]);
    assert_eq!(serialize_manifest(&first), serialize_manifest(&second));
}

#[test]
fn serialized_lines_split_back_into_fields() {
    let m = build_manifest(vec![file("../src/components/chakra/Button.tsx", b"abc")]);
    let text = serialize_manifest(&m);
    let line = text.strip_suffix('\n').unwrap();
    let fields: Vec<&str> = line.split(", ").collect();
    assert_eq!(fields, vec!["src/components/chakra/Button.tsx", "3", "900150983cd24fb0d6963f7d28e17f72"]);
    let parts = chakra_checksum::diff::split_diff_line(line);
    assert_eq!(parts[0], m[0].display_path);
    assert_eq!(parts[1].parse::<u64>().unwrap(), m[0].size_bytes);
    assert_eq!(parts[2], m[0].digest_hex);
}

#[test]
fn subdirectories_are_not_digested() {
    let entries = vec![
        ListedEntry { raw_path: "../c/Button.tsx".to_string(), is_dir: false },
        ListedEntry { raw_path: "../c/nested".to_string(), is_dir: true },
        ListedEntry { raw_path: "../c/Alert.tsx".to_string(), is_dir: false },
    ];
    assert_eq!(files_to_digest(&entries), vec!["../c/Button.tsx", "../c/Alert.tsx"]);
    let only_dir = vec![ListedEntry { raw_path: "../c/nested".to_string(), is_dir: true }];
    assert!(files_to_digest(&only_dir).is_empty());
}
