use rds::resolver::{
    is_scoped_package_request, json_member, json_text, main_entry, match_ts_path_pattern, memo_key, normalize_path,
    package_entry_fields, pick_by_kinds, pick_from_listing, tsconfig_path_rules, JsonValue, KindPick, ModuleResolver,
    RequestRoute,
};

fn s(x: &str) -> String {
    x.to_string()
}

#[test]
fn test_normalize_path_and_pathbuf() {
    let normalized = normalize_path("/a/b/../c");
    assert!(normalized.ends_with("/a/c") || normalized.ends_with("\\a\\c"));

    let pb = std::path::Path::new("/a/b/../c");
    let normalized2 = normalize_path(&pb.to_string_lossy());
    assert!(normalized2.ends_with("/a/c") || normalized2.ends_with("\\a\\c"));
}

#[test]
fn normalize_path_folds_components() {
    assert_eq!(normalize_path("/a/b/../c"), "/a/c");
    assert_eq!(normalize_path("a/./b//c/"), "a/b/c");
    assert_eq!(normalize_path("../../x"), "../../x");
    assert_eq!(normalize_path("a/../../x"), "../x");
    assert_eq!(normalize_path("a\\b\\..\\c"), "a/c");
    assert_eq!(normalize_path("/"), "/");
    assert_eq!(normalize_path(""), "");
}

#[test]
fn scoped_packages_skip_aliases() {
    assert!(is_scoped_package_request("@scope/pkg"));
    assert!(is_scoped_package_request("@scope/pkg/deep"));
    assert!(!is_scoped_package_request("@/utils/foo"));
    assert!(!is_scoped_package_request("@scope"));
    assert!(!is_scoped_package_request("@scope/"));
    assert!(!is_scoped_package_request("lodash"));
}

#[test]
fn wildcard_alias_maps_rest_onto_targets() {
    let targets = vec![Some(s("./src/*")), Some(s("lib/*")), Some(s("exact")), None, Some(s("/abs/*"))];
    let got = match_ts_path_pattern("/proj", "@/utils/foo", "@/*", &targets);
    assert_eq!(got, vec![s("/proj/src/utils/foo"), s("/proj/lib/utils/foo"), s("/abs/utils/foo")]);
}

#[test]
fn wildcard_alias_needs_prefix() {
    let targets = vec![Some(s("./src/*"))];
    assert!(match_ts_path_pattern("/proj", "other/x", "@/*", &targets).is_empty());
}

#[test]
fn exact_alias_maps_whole_request() {
    let targets = vec![Some(s("./lib/alias.js")), Some(s("/abs/alias.js"))];
    let got = match_ts_path_pattern("/proj", "plain-alias", "plain-alias", &targets);
    assert_eq!(got, vec![s("/proj/lib/alias.js"), s("/abs/alias.js")]);
    assert!(match_ts_path_pattern("/proj", "plain-aliasx", "plain-alias", &targets).is_empty());
}

#[test]
fn listing_prefers_exact_then_extensions_in_order() {
    let listing = vec![(s("foo.ts"), 1u8), (s("foo.js"), 1u8), (s("dir"), 2u8)];
    let exts = vec![s(".js"), s(".ts")];
    assert_eq!(pick_from_listing("/p/foo", &listing, &exts), Some(s("/p/foo.js")));
    let listing2 = vec![(s("foo"), 1u8), (s("foo.js"), 1u8)];
    assert_eq!(pick_from_listing("/p/./foo", &listing2, &exts), Some(s("/p/foo")));
    assert_eq!(pick_from_listing("/p/dir", &listing, &exts), None);
}

#[test]
fn kinds_pick_file_extension_or_directory() {
    let exts = vec![s(".ts"), s(".js")];
    assert!(matches!(pick_by_kinds("/p/a", 1, &vec![0, 1], &exts), KindPick::File(f) if f == "/p/a"));
    assert!(matches!(pick_by_kinds("/p/a", 0, &vec![0, 1], &exts), KindPick::File(f) if f == "/p/a.js"));
    assert!(matches!(pick_by_kinds("/p/a", 2, &vec![0, 0], &exts), KindPick::Directory));
    assert!(matches!(pick_by_kinds("/p/a", 0, &vec![0, 0], &exts), KindPick::Missing));
}

#[test]
fn manifest_entry_prefers_module_field() {
    assert_eq!(main_entry(Some(Some(s("lib/index.mjs"))), Some(Some(s("lib/index.js")))), "lib/index.mjs");
    assert_eq!(main_entry(None, Some(Some(s("lib/index.js")))), "lib/index.js");
    assert_eq!(main_entry(Some(None), Some(Some(s("lib/index.js")))), "index.js");
    assert_eq!(main_entry(None, Some(None)), "index.js");
    assert_eq!(main_entry(None, None), "index.js");
}

#[test]
fn routes_of_requests() {
    let r: ModuleResolver<()> = ModuleResolver::new();
    assert_eq!(r.route("fs"), RequestRoute::Builtin);
    assert_eq!(r.route("/abs/x"), RequestRoute::Absolute);
    assert_eq!(r.route("./x"), RequestRoute::Relative);
    assert_eq!(r.route("lodash"), RequestRoute::Package);
    assert!(r.is_builtin("zlib"));
    assert!(!r.is_builtin("lodash"));
    assert_eq!(memo_key("/ctx", "./a"), "/ctx|./a");
}

#[test]
fn invalidation_forgets_paths_and_their_resolutions() {
    let mut r: ModuleResolver<()> = ModuleResolver::new();
    r.remember(s("/p|pkg"), Some(s("/p/node_modules/pkg/lib/index.js")));
    r.remember(s("/p|other"), Some(s("/p/other.js")));
    r.remember(s("/p|missing"), None);
    r.file_cache.insert(s("/p/node_modules/pkg/lib/index.js"), Some(s("x")));
    r.path_kind_cache.insert(s("/p/node_modules/pkg/lib/index.js"), 1);
    r.path_kind_cache.insert(s("/p/other.js"), 1);
    r.dir_listing_cache.insert(s("/p/node_modules/pkg/lib"), (1, vec![(s("index.js"), 1)]));
    r.invalidate_paths(&vec![s("/p/node_modules/pkg/lib/./index.js")]);
    assert!(r.cache.get("/p|pkg").is_none());
    assert!(r.cache.get("/p|other").is_some());
    assert!(r.cache.get("/p|missing").is_none());
    assert!(r.file_cache.get("/p/node_modules/pkg/lib/index.js").is_none());
    assert!(r.path_kind_cache.get("/p/node_modules/pkg/lib/index.js").is_none());
    assert!(r.path_kind_cache.get("/p/other.js").is_some());
    assert!(r.dir_listing_cache.get("/p/node_modules/pkg/lib").is_none());
}

#[test]
fn listings_expire() {
    let mut r: ModuleResolver<()> = ModuleResolver::new();
    r.dir_listing_cache.insert(s("/d"), (1000, vec![(s("a.js"), 1)]));
    r.dir_listing_cache.insert(s("/e"), (0, vec![]));
    assert!(r.fresh_listing("/d", 6000).is_some());
    assert!(r.fresh_listing("/d", 6001).is_none());
    assert!(r.fresh_listing("/e", 0).is_none());
    assert!(r.fresh_listing("/f", 0).is_none());
    r.clear_all_caches();
    assert!(r.fresh_listing("/d", 1000).is_none());
}

fn parsed(text: Option<&str>) -> ModuleResolver<JsonValue> {
    let mut r: ModuleResolver<JsonValue> = ModuleResolver::new();
    r.cache_parsed_json(s("/p/package.json"), text.map(s));
    r
}

#[test]
fn manifest_fields_come_from_the_parsed_text() {
    let r = parsed(Some(r#"{"name": "x", "module": "esm/index.mjs", "main": 7}"#));
    let manifest = r.parsed_json_cache.get("/p/package.json").unwrap().as_ref().unwrap();
    let (module, main) = package_entry_fields(manifest);
    assert_eq!(module, Some(Some(s("esm/index.mjs"))));
    assert_eq!(main, Some(None));
    assert_eq!(main_entry(module, main), "esm/index.mjs");
}

#[test]
fn manifest_without_entry_fields_falls_back_to_index() {
    let r = parsed(Some(r#"{"name": "x"}"#));
    let manifest = r.parsed_json_cache.get("/p/package.json").unwrap().as_ref().unwrap();
    let (module, main) = package_entry_fields(manifest);
    assert_eq!((module.clone(), main.clone()), (None, None));
    assert_eq!(main_entry(module, main), "index.js");
}

#[test]
fn unreadable_or_invalid_manifest_is_cached_as_none() {
    let r = parsed(Some("{not json"));
    assert!(matches!(r.parsed_json_cache.get("/p/package.json"), Some(None)));
    let r = parsed(None);
    assert!(matches!(r.parsed_json_cache.get("/p/package.json"), Some(None)));
}

#[test]
fn tsconfig_paths_are_read_with_their_targets() {
    let mut r: ModuleResolver<JsonValue> = ModuleResolver::new();
    r.cache_parsed_json(
        s("/p/tsconfig.json"),
        Some(s(r#"{"compilerOptions": {"baseUrl": ".", "paths": {"@app/*": ["src/app/*", 3], "lib": "x"}}}"#)),
    );
    let tsconfig = r.parsed_json_cache.get("/p/tsconfig.json").unwrap().as_ref().unwrap();
    let rules = tsconfig_path_rules(tsconfig);
    assert_eq!(rules, vec![(s("@app/*"), vec![Some(s("src/app/*")), None]), (s("lib"), vec![])]);
    let candidates = match_ts_path_pattern("/p", "@app/main", &rules[0].0, &rules[0].1);
    assert_eq!(candidates, vec![s("/p/src/app/main")]);
}

#[test]
fn tsconfig_without_paths_object_has_no_rules() {
    let no_paths = JsonValue::Object(vec![(s("compilerOptions"), JsonValue::Object(vec![]))]);
    assert!(tsconfig_path_rules(&no_paths).is_empty());
    let paths_not_object = JsonValue::Object(vec![(
        s("compilerOptions"),
        JsonValue::Object(vec![(s("paths"), JsonValue::Array(vec![JsonValue::Null]))]),
    )]);
    assert!(tsconfig_path_rules(&paths_not_object).is_empty());
    assert!(tsconfig_path_rules(&JsonValue::Null).is_empty());
}

#[test]
fn json_member_takes_the_first_member_of_an_object() {
    let v = JsonValue::Object(vec![(s("a"), JsonValue::String(s("one"))), (s("a"), JsonValue::Bool(true))]);
    assert_eq!(json_text(json_member(&v, "a").unwrap()), Some(s("one")));
    assert!(json_member(&v, "b").is_none());
    assert!(json_member(&JsonValue::Number(s("1")), "a").is_none());
}
