use rds::cli::Cli;

fn base_cli() -> Cli {
    let mut cli = Cli::default();
    cli.files = vec!["test".to_string()];
    cli
}

#[test]
fn cli_test_cli_validation_conflicting_cache_flags() {
    let mut cli = base_cli();
    cli.cache = true;
    cli.no_cache = true;

    assert!(cli.validate().is_err());
}

#[test]
fn cli_test_cli_validation_zero_threads() {
    let mut cli = base_cli();
    cli.threads = Some(0);

    assert!(cli.validate().is_err());
}

#[test]
fn cli_test_effective_cache_setting() {
    let mut cli = base_cli();

    assert!(!cli.effective_cache_setting());

    cli.watch = true;
    assert!(cli.effective_cache_setting());

    cli.no_cache = true;
    assert!(!cli.effective_cache_setting());

    cli.cache = true;
    cli.no_cache = false;
    assert!(cli.effective_cache_setting());
}

#[test]
fn tests_test_cli_validation_conflicting_cache_flags() {
    let mut cli = base_cli();
    cli.cache = true;
    cli.no_cache = true;

    assert!(cli.validate().is_err());
}

#[test]
fn tests_test_cli_validation_zero_threads() {
    let mut cli = base_cli();
    cli.threads = Some(0);

    assert!(cli.validate().is_err());
}

#[test]
fn tests_test_effective_cache_setting() {
    let mut cli = base_cli();

    assert!(!cli.effective_cache_setting());

    cli.watch = true;
    assert!(cli.effective_cache_setting());

    cli.no_cache = true;
    assert!(!cli.effective_cache_setting());

    cli.cache = true;
    cli.no_cache = false;
    assert!(cli.effective_cache_setting());
}

#[test]
fn validation_messages_follow_the_order_of_the_checks() {
    let mut cli = base_cli();
    assert_eq!(cli.validate(), Ok(()));

    cli.take = Some(0);
    assert_eq!(cli.validate(), Err("Take value must be greater than 0".to_string()));

    cli.threads = Some(0);
    assert_eq!(cli.validate(), Err("Number of threads must be greater than 0".to_string()));

    cli.cache = true;
    cli.no_cache = true;
    assert_eq!(cli.validate(), Err("Cannot specify both --cache and --no-cache".to_string()));
}

#[test]
fn defaults_match_the_command_line_defaults() {
    let cli = Cli::default();
    assert_eq!(cli.extensions, ".ts,.tsx,.mjs,.js,.jsx,.json,.vue");
    assert_eq!(cli.include_pattern, ".*");
    assert!(cli.exclude.starts_with("node_modules|"));
    assert!(!cli.watch && !cli.cache && !cli.no_cache);
}

#[test]
fn throw_is_dropped_in_watch_mode() {
    let mut c = rds::cli::Cli::default();
    c.watch = true;
    c.throw = true;
    assert!(c.drop_throw_in_watch_mode());
    assert!(!c.throw);
    assert!(c.watch);
    let mut d = rds::cli::Cli::default();
    d.throw = true;
    assert!(!d.drop_throw_in_watch_mode());
    assert!(d.throw);
}

#[test]
fn harness_arguments_are_sanitized() {
    let s = |v: &[&str]| v.iter().map(|x| x.to_string()).collect::<Vec<String>>();
    assert_eq!(rds::cli::harness_args(&s(&["bin"]), "/m"), Some(s(&["rds", "/m/test"])));
    assert_eq!(rds::cli::harness_args(&s(&["bin", "--nocapture", "src", "-x"]), "/m"), Some(s(&["rds", "src"])));
    assert_eq!(rds::cli::harness_args(&s(&["bin", "src", "--tree"]), "/m"), None);
}
