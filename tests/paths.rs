use chakra_checksum::path::{
    concat_path_parts, detect_src_component_location, fix_path_prefix_for_linux, fix_path_string,
    join_with,
};

#[test]
fn normalizes_windows_path() {
    assert_eq!(
        fix_path_string("..\\src\\components\\chakra\\Button.tsx"),
        "src/components/chakra/Button.tsx"
    );
}

#[test]
fn normalizes_unix_path() {
    assert_eq!(fix_path_string("../src/components/chakra/Button.tsx"), "src/components/chakra/Button.tsx");
}

#[test]
fn normalization_keeps_everything_else() {
    assert_eq!(fix_path_string("src//Dir/"), "src//Dir/");
    assert_eq!(fix_path_string("./a"), "./a");
    assert_eq!(fix_path_string(""), "");
    assert_eq!(fix_path_string(".."), "..");
    assert_eq!(fix_path_string("../"), "");
}

#[test]
fn normalization_strips_one_parent_prefix() {
    assert_eq!(fix_path_string("../../a"), "../a");
    assert_eq!(fix_path_string("..\\..\\a"), "../a");
}

#[test]
fn join_with_separator() {
    assert_eq!(join_with(&["..", "src", "x"], "/"), "../src/x");
    assert_eq!(join_with(&["a"], "/"), "a");
    assert_eq!(join_with(&[], "/"), "");
    assert_eq!(join_with(&["a", "b"], "\\"), "a\\b");
}

#[test]
fn concat_uses_platform_separator() {
    let sep = std::path::MAIN_SEPARATOR.to_string();
    assert_eq!(concat_path_parts(&["a", "b", "c"]), format!("a{}b{}c", sep, sep));
}

#[test]
fn component_location() {
    let sep = std::path::MAIN_SEPARATOR.to_string();
    assert_eq!(
        detect_src_component_location(),
        ["..", "src", "components", "chakra"].join(&sep)
    );
}

#[test]
fn explicit_relative_prefix() {
    assert_eq!(fix_path_prefix_for_linux("chakra_checksum.txt"), "./chakra_checksum.txt");
    assert_eq!(fix_path_prefix_for_linux("./x"), "./x");
    assert_eq!(fix_path_prefix_for_linux("/abs"), "/abs");
    assert_eq!(fix_path_prefix_for_linux(""), "./");
}
