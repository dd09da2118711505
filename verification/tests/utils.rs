use rds::utils::{extract_relevant_file_changes, handle_exit_codes, is_relevant_file_change, parse_i32, ExitCodeError, FileEventKind};

fn check_is_relevant_file_change() {
    assert!(is_relevant_file_change("test.js"));
    assert!(is_relevant_file_change("test.ts"));
    assert!(is_relevant_file_change("test.vue"));
    assert!(!is_relevant_file_change("test.txt"));
    assert!(!is_relevant_file_change("README.md"));
}

#[test]
fn utils_test_is_relevant_file_change() {
    check_is_relevant_file_change();
}

#[test]
fn tests_test_is_relevant_file_change() {
    check_is_relevant_file_change();
}

#[test]
fn test_is_relevant_file_change_no_extension() {
    assert!(!is_relevant_file_change("LICENSE"));
}

#[test]
fn test_extract_relevant_file_changes_event() {
    let changes = extract_relevant_file_changes(FileEventKind::Modify, &vec![Some("a.js".to_string())], &vec![]);
    assert_eq!(changes, vec!["a.js".to_string()]);
}

#[test]
fn test_extract_relevant_file_changes_other_kind() {
    let changes = extract_relevant_file_changes(FileEventKind::Other, &vec![Some("a.js".to_string())], &vec![]);
    assert!(changes.is_empty());
}

#[test]
fn event_paths_keep_order_and_drop_others() {
    let paths = vec![Some("b.ts".to_string()), None, Some("c.css".to_string()), Some("a.vue".to_string())];
    let changes = extract_relevant_file_changes(FileEventKind::Create, &paths, &vec![]);
    assert_eq!(changes, vec!["b.ts".to_string(), "a.vue".to_string()]);
}

#[test]
fn tests_test_handle_exit_codes_no_circulars() {
    let result = handle_exit_codes("circular:1", &vec![]);
    assert!(result.is_ok());
}

#[test]
fn utils_test_handle_exit_codes_no_circulars() {
    let result = handle_exit_codes("circular:1", &vec![]);
    assert_eq!(result.map_err(|e| e.message()), Ok(0));
}

#[test]
fn tests_test_handle_exit_codes_invalid_format() {
    let result = handle_exit_codes("invalid_format", &vec![]);
    assert!(result.is_err());
}

#[test]
fn utils_test_handle_exit_codes_invalid_format() {
    let result = handle_exit_codes("invalid_format", &vec![]);
    assert!(result.is_err());
}

#[test]
fn test_handle_exit_codes_invalid_number_and_unknown_case() {
    let res = handle_exit_codes("circular:xyz", &vec![]);
    assert!(res.is_err());

    let res2 = handle_exit_codes("other:1", &vec![]);
    assert!(res2.is_err());
}

#[test]
fn exit_code_applies_when_cycles_were_found() {
    let cycles = vec![vec!["a".to_string(), "b".to_string()]];
    assert_eq!(handle_exit_codes("circular:3", &cycles).map_err(|e| e.message()), Ok(3));
    assert_eq!(handle_exit_codes("circular:3,circular:-2", &cycles).map_err(|e| e.message()), Ok(-2));
}

#[test]
fn exit_code_errors_name_the_offending_text() {
    let none: Vec<Vec<String>> = vec![];
    match handle_exit_codes("circular:1,a:b:c", &none) {
        Err(e @ ExitCodeError::InvalidFormat(_)) => assert_eq!(e.message(), "Invalid exit code format: a:b:c"),
        other => panic!("unexpected {:?}", other),
    }
    match handle_exit_codes("circular:1x", &none) {
        Err(e @ ExitCodeError::InvalidNumber(_)) => assert_eq!(e.message(), "Invalid exit code number: 1x"),
        other => panic!("unexpected {:?}", other),
    }
    match handle_exit_codes("cycle:1", &none) {
        Err(e @ ExitCodeError::UnknownCase(_)) => assert_eq!(e.message(), "Unknown exit code case: cycle"),
        other => panic!("unexpected {:?}", other),
    }
}

#[test]
fn i32_reading_follows_std() {
    for s in ["0", "42", "-7", "+9", "2147483647", "-2147483648", "", "-", "+", "2147483648", "-2147483649", "1 ", "0x1", "007"] {
        assert_eq!(parse_i32(s), s.parse::<i32>().ok(), "input {:?}", s);
    }
}
