use rds::cli::Cli;
use rds::config::{create_parse_options_from_cli, resolution_concurrency, FileConfig, ParseOptions};
use rds::types::SkipDynamicImports;

fn cli() -> Cli {
    let mut c = Cli::default();
    c.files = vec!["x".to_string()];
    c.extensions = ".js".to_string();
    c.exclude = "node_modules".to_string();
    c
}

#[test]
fn parse_options_defaults() {
    let opts = ParseOptions::default_in("/work".to_string());
    assert!(opts.extensions.contains(&".js".to_string()));
    assert!(opts.cache_enabled);
    assert_eq!(opts.context, "/work");
}

#[test]
fn test_create_parse_options_from_cli_basic() {
    let opts = create_parse_options_from_cli(&cli(), None, "/work".to_string()).unwrap();
    assert!(opts.extensions.contains(&".js".to_string()));
    assert_eq!(opts.extensions, vec![".js".to_string()]);
    assert_eq!(opts.exclude, "node_modules");
    assert_eq!(opts.skip_dynamic_imports, SkipDynamicImports::Never);
    assert!(!opts.cache_enabled);
}

#[test]
fn test_create_parse_options_from_cli_skip_dynamic_variants() {
    let mut c = cli();
    c.skip_dynamic_imports = true;
    let opts = create_parse_options_from_cli(&c, None, "/work".to_string()).unwrap();
    assert_eq!(opts.skip_dynamic_imports, SkipDynamicImports::Circular);
}

#[test]
fn file_settings_apply_under_the_command_line() {
    let mut c = cli();
    c.extensions = "  ".to_string();
    c.context = Some("/proj".to_string());
    let fc = FileConfig {
        extensions: Some(vec![".vue".to_string()]),
        include_pattern: Some("src".to_string()),
        exclude: None,
        dependency_exclude: None,
        cache_enabled: Some(true),
        take: Some(5),
        tsconfig: Some("ts.json".to_string()),
    };
    let opts = create_parse_options_from_cli(&c, Some(fc), "/work".to_string()).unwrap();
    assert_eq!(opts.extensions, vec![".vue".to_string()]);
    assert_eq!(opts.context, "/proj");
    assert_eq!(opts.take, None);
    assert_eq!(opts.tsconfig, None);
    assert!(!opts.cache_enabled);
}

#[test]
fn invalid_patterns_are_refused() {
    let mut c = cli();
    c.include_pattern = "(".to_string();
    assert!(create_parse_options_from_cli(&c, None, "/w".to_string()).is_err());
    let fc = FileConfig {
        extensions: None,
        include_pattern: None,
        exclude: Some("[".to_string()),
        dependency_exclude: None,
        cache_enabled: None,
        take: None,
        tsconfig: None,
    };
    assert!(create_parse_options_from_cli(&cli(), Some(fc), "/w".to_string()).is_err());
}

#[test]
fn resolve_concurrency_from_command_line() {
    let mut c = cli();
    c.resolve_concurrency = Some(8);
    let o = create_parse_options_from_cli(&c, None, "/cwd".to_string()).unwrap();
    assert_eq!(o.resolve_concurrency, Some(8));
    assert_eq!(resolution_concurrency(Some(8), 4), 8);
    assert_eq!(resolution_concurrency(Some(1000), 4), 256);
    assert_eq!(resolution_concurrency(None, 4), 4);
    assert_eq!(resolution_concurrency(None, 128), 64);
}
