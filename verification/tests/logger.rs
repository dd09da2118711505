use rds::logger::{Level, Logger};

#[test]
fn test_init_disabled() {
    let mut l = Logger::new();
    l.init(false, None);
    assert!(!l.enabled());
    assert_eq!(l.level(), None);
}

#[test]
fn test_init_enabled_info_by_default() {
    let mut l = Logger::new();
    l.init(true, None);
    assert!(l.enabled());
    assert_eq!(l.level(), Some(Level::Info));
    l.init(false, None);
    assert!(!l.enabled());
}

#[test]
fn test_init_enabled_debug_from_env() {
    let mut l = Logger::new();
    l.init(true, Some("debug"));
    assert!(l.enabled());
    assert_eq!(l.level(), Some(Level::Debug));
    l.init(true, Some("DeBuG"));
    assert_eq!(l.level(), Some(Level::Debug));
    l.init(true, Some("trace"));
    assert_eq!(l.level(), Some(Level::Info));
}

#[test]
fn test_logging_output_format_info() {
    let mut l = Logger::new();
    l.init(true, None);
    let line = l.info("hello world");
    assert_eq!(line, Some("[rds::INFO] hello world".to_string()));
    let last = l.test_last_log();
    assert!(last.is_some());
    let s = last.unwrap();
    assert!(s.contains("[rds::INFO]"));
    assert!(s.contains("hello world"));
    assert_eq!(l.debug("hidden"), None);
}

#[test]
fn test_logging_output_format_debug() {
    let mut l = Logger::new();
    l.init(true, Some("debug"));
    l.debug("dbg-msg");
    let s = l.test_last_log().unwrap();
    assert!(s.contains("[rds::DEBUG]"));
    assert!(s.contains("dbg-msg"));
    assert!(l.info("also").is_some());
}

#[test]
fn disabled_logger_writes_nothing() {
    let mut l = Logger::new();
    assert_eq!(l.info("x"), None);
    assert_eq!(l.test_last_log(), None);
}
