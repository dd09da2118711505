use rds::filesystem::{is_supported_file_type, normalize_path_string, FileSystem};

fn check_should_include_file_with_filter() {
    let filter_extensions = Some(vec![".js".to_string(), ".ts".to_string()]);

    assert!(FileSystem::should_include_file("test.js", &filter_extensions));
    assert!(FileSystem::should_include_file("test.ts", &filter_extensions));
    assert!(!FileSystem::should_include_file("test.vue", &filter_extensions));
}

fn check_should_include_file_default() {
    assert!(FileSystem::should_include_file("test.js", &None));
    assert!(FileSystem::should_include_file("test.vue", &None));
    assert!(!FileSystem::should_include_file("test.txt", &None));
}

#[test]
fn filesystem_test_should_include_file_with_filter() {
    check_should_include_file_with_filter();
}

#[test]
fn filesystem_test_should_include_file_default() {
    check_should_include_file_default();
}

#[test]
fn tests_test_should_include_file_with_filter() {
    check_should_include_file_with_filter();
}

#[test]
fn tests_test_should_include_file_default() {
    check_should_include_file_default();
}

#[test]
fn test_normalize_path_string() {
    assert_eq!(normalize_path_string("src\\main.rs"), "src/main.rs");
    assert_eq!(normalize_path_string("src/main.rs"), "src/main.rs");
}

#[test]
fn test_get_watch_directories_returns_parents() {
    let files = vec!["a/b/c.js".to_string(), "d/e.js".to_string(), "f.js".to_string()];
    let mut dirs = FileSystem::get_watch_directories(&files);
    dirs.sort();
    assert!(dirs.iter().any(|d| d.ends_with("a/b")));
    assert!(dirs.iter().any(|d| d.ends_with("d")));
    assert!(dirs.iter().any(|d| d.ends_with(".")) || dirs.iter().any(|d| d.ends_with("")));
}

#[test]
fn watch_directories_are_listed_once() {
    let files = vec!["a/x.js".to_string(), "a/y.js".to_string(), "b/z.js".to_string()];
    let mut dirs = FileSystem::get_watch_directories(&files);
    dirs.sort();
    assert_eq!(dirs, vec!["a".to_string(), "b".to_string()]);
}

#[test]
fn file_without_extension_is_not_taken() {
    assert!(!FileSystem::should_include_file("Makefile", &None));
    assert!(!FileSystem::should_include_file("Makefile", &Some(vec![".js".to_string()])));
    assert!(FileSystem::should_include_file("Makefile", &Some(vec!["".to_string()])));
}

#[test]
fn supported_types_are_the_source_extensions() {
    assert!(is_supported_file_type("a/b.tsx"));
    assert!(is_supported_file_type("a/b.mjs"));
    assert!(!is_supported_file_type("a/b.css"));
    assert!(!is_supported_file_type("a/.js"));
}

#[test]
fn filter_entries_are_trimmed_and_dotted() {
    let parsed = FileSystem::parse_filter_extensions(&Some(" js, .ts ,vue".to_string()));
    assert_eq!(parsed, Some(vec![".js".to_string(), ".ts".to_string(), ".vue".to_string()]));
    assert_eq!(FileSystem::parse_filter_extensions(&None), None);
}
