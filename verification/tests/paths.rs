use rds::paths::{lexical_normalize_abs, read_path_for, storage_form};

#[test]
fn normalize_inside_workdir_returns_relative() {
    let s = storage_form("/work/src/lib.rs", "/work");
    assert!(!s.is_empty());
    assert!(!s.starts_with('/'));
    assert_eq!(s, "src/lib.rs");
}

#[test]
fn storage_form_outside_workdir_keeps_path() {
    assert_eq!(storage_form("/other/x.js", "/work"), "/other/x.js");
}

#[test]
fn storage_form_drops_device_prefix_and_backslashes() {
    assert_eq!(storage_form("\\\\?\\C:\\work\\a\\b.js", "C:\\work"), "a/b.js");
    assert_eq!(storage_form("//?/C:/work/b.js", "\\\\?/C:/work"), "b.js");
}

#[test]
fn storage_form_projects_marker() {
    assert_eq!(storage_form("/mnt/C:/Projects//app/x.js", "/work"), "../../app/x.js");
}

#[test]
fn read_path_climbs_for_leading_parents() {
    assert_eq!(read_path_for("/abs/a.js", "/ctx", "/cwd", '/'), "/abs/a.js");
    assert_eq!(read_path_for("src/a.js", "/ctx/app", "/cwd", '/'), "/ctx/app/src/a.js");
    assert_eq!(read_path_for("../../lib/b.js", "/ctx/app/x", "/cwd", '/'), "/ctx/lib/b.js");
    assert_eq!(read_path_for("./a.js", ".", "/cwd", '/'), "/cwd/a.js");
    assert_eq!(read_path_for("a.js", "rel", "/cwd", '/'), "/cwd/rel/a.js");
    assert_eq!(read_path_for("..", "/ctx/app", "/cwd", '/'), "/ctx");
}

#[test]
fn test_lexical_normalize_handles_curdir() {
    let normalized = lexical_normalize_abs("a/./b", "/work", std::path::MAIN_SEPARATOR);
    assert!(normalized.ends_with("a/b") || normalized.ends_with("a\\b"));
    assert_eq!(lexical_normalize_abs("./a/./b/../c.js", "/cwd", '/'), "/cwd/a/c.js");
    assert_eq!(lexical_normalize_abs("/x/../y", "/cwd", '/'), "/y");
    assert_eq!(lexical_normalize_abs("../../../z", "/cwd", '/'), "/z");
}
