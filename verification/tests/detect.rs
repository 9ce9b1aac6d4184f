use process_bridge::detect::{
    detect_project_type, language_of_dir, manifest_rules, DetectError, DirProbe,
};
use process_bridge::language::LspLanguage;

fn probe(dir: &str, cargo_toml: bool, go_mod: bool) -> DirProbe {
    DirProbe { dir: dir.to_string(), found: vec![cargo_toml, go_mod] }
}

#[test]
fn manifest_table_lines() {
    let rules = manifest_rules();
    assert_eq!(rules.len(), 2);
    assert_eq!(rules[0].file_name, "Cargo.toml");
    assert_eq!(rules[0].language, LspLanguage::Rust);
    assert_eq!(rules[1].file_name, "go.mod");
    assert_eq!(rules[1].language, LspLanguage::Go);
}

#[test]
fn go_project_above_a_source_file() {
    // The path is /proj/src/main.go, and /proj/go.mod is there.
    let ancestors = vec![probe("/proj/src", false, false), probe("/proj", false, true), probe("/", false, false)];
    let info = detect_project_type(true, &ancestors).unwrap();
    assert_eq!(info.root_path, "/proj");
    assert_eq!(info.project_type, "go");
}

#[test]
fn no_manifest_above_the_path() {
    let ancestors = vec![probe("/tmp/x", false, false), probe("/tmp", false, false), probe("/", false, false)];
    let error = detect_project_type(true, &ancestors).unwrap_err();
    assert_eq!(error, DetectError::Unknown);
    assert_eq!(error.to_string(), "unknown");
    assert_eq!(detect_project_type(true, &vec![]).unwrap_err(), DetectError::Unknown);
}

#[test]
fn path_that_does_not_exist() {
    let ancestors = vec![probe("/proj", true, true)];
    let error = detect_project_type(false, &ancestors).unwrap_err();
    assert_eq!(error, DetectError::PathMissing);
    assert_eq!(error.to_string(), "Path does not exist");
}

#[test]
fn nearest_directory_wins() {
    let ancestors = vec![
        probe("/ws/go/pkg", false, false),
        probe("/ws/go", false, true),
        probe("/ws", true, false),
        probe("/", false, true),
    ];
    let info = detect_project_type(true, &ancestors).unwrap();
    assert_eq!(info.root_path, "/ws/go");
    assert_eq!(info.project_type, "go");
    let ancestors = vec![probe("/ws/rs", true, false), probe("/ws", false, true)];
    let info = detect_project_type(true, &ancestors).unwrap();
    assert_eq!(info.root_path, "/ws/rs");
    assert_eq!(info.project_type, "rust");
}

#[test]
fn earlier_line_of_the_table_wins_in_one_directory() {
    let info = detect_project_type(true, &vec![probe("/both", true, true)]).unwrap();
    assert_eq!(info.project_type, "rust");
    assert_eq!(info.root_path, "/both");
}

#[test]
fn notes_that_are_missing_count_as_not_found() {
    assert_eq!(language_of_dir(&vec![]), None);
    assert_eq!(language_of_dir(&vec![false]), None);
    assert_eq!(language_of_dir(&vec![true]), Some(LspLanguage::Rust));
    assert_eq!(language_of_dir(&vec![false, true]), Some(LspLanguage::Go));
    assert_eq!(language_of_dir(&vec![false, false, true]), None);
    assert_eq!(language_of_dir(&vec![true, true, true]), Some(LspLanguage::Rust));
}
