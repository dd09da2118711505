//! The options of an analysis: their defaults, the project's configuration
//! file, and the command line, which overrides both.
use vstd::prelude::*;
use crate::cli::Cli;
use crate::parser::regex_captures_spec;
use crate::text::{owned, split_char, split_on, trim, trim_ws};
use crate::types::{strs_view, SkipDynamicImports};

verus! {

/// The settings of the configuration file (`rds.config.toml`); each may be
/// absent.
#[derive(Debug)]
pub struct FileConfig {
    pub extensions: Option<Vec<String>>,
    pub include_pattern: Option<String>,
    pub exclude: Option<String>,
    pub dependency_exclude: Option<String>,
    pub cache_enabled: Option<bool>,
    pub take: Option<usize>,
    pub tsconfig: Option<String>,
}

/// The options an analysis runs with.
#[derive(Debug)]
pub struct ParseOptions {
    /// The directory paths are resolved from.
    pub context: String,
    /// The extensions tried when resolving, with their dot.
    pub extensions: Vec<String>,
    /// Pattern of the files taken in.
    pub include_pattern: String,
    /// Pattern of the files and directories left out.
    pub exclude: String,
    /// Pattern of the dependencies left out.
    pub dependency_exclude: String,
    /// The tsconfig file for path aliases.
    pub tsconfig: Option<String>,
    /// Which dynamic imports are left out.
    pub skip_dynamic_imports: SkipDynamicImports,
    /// Stop after this many circular dependencies.
    pub take: Option<usize>,
    /// Whether the file cache is used.
    pub cache_enabled: bool,
    /// The limit on concurrent resolutions, when one is set.
    pub resolve_concurrency: Option<usize>,
}

/// The pattern of the directories left out by default.
pub open spec fn default_exclude() -> Seq<char> {
    r"node_modules|\.git|\.svn|\.hg|coverage|dist|build|out|\.next|\.nuxt"@
}

/// The pattern of the dependencies left out by default.
pub open spec fn default_dependency_exclude() -> Seq<char> {
    r"node_modules|\.git|\.svn|\.hg"@
}

/// The pattern of the dependencies left out once the command line is read
/// (its backslashes doubled, as written).
pub open spec fn cli_dependency_exclude() -> Seq<char> {
    r"node_modules|\\.git|\\.svn|\\.hg"@
}

/// The extensions tried by default.
pub open spec fn default_extensions() -> Seq<Seq<char>> {
    seq![""@, ".ts"@, ".tsx"@, ".mjs"@, ".js"@, ".jsx"@, ".json"@, ".vue"@]
}

/// A pattern compiles with the `regex` crate.
pub open spec fn regex_valid(p: Seq<char>) -> bool {
    regex_captures_spec(p, Seq::empty()) is Some
}

/// Whether a pattern compiles with the `regex` crate.
fn check_regex(p: &str) -> (b: bool)
    ensures
        b == regex_valid(p@),
{
    let e = String::new();
    assert(e@ =~= Seq::<char>::empty());
    crate::parser::regex_compiles(p, e.as_str())
}

impl ParseOptions {
    /// The defaults, with `cwd` as the context.
    pub fn default_in(cwd: String) -> (o: Self)
        ensures
            o.context@ == cwd@,
            strs_view(o.extensions@) == default_extensions(),
            o.include_pattern@ == ".*"@,
            o.exclude@ == default_exclude(),
            o.dependency_exclude@ == default_dependency_exclude(),
            o.tsconfig is None,
            o.skip_dynamic_imports == SkipDynamicImports::Never,
            o.take is None,
            o.cache_enabled,
            o.resolve_concurrency is None,
    {
        let mut exts: Vec<String> = Vec::new();
        exts.push(owned(""));
        exts.push(owned(".ts"));
        exts.push(owned(".tsx"));
        exts.push(owned(".mjs"));
        exts.push(owned(".js"));
        exts.push(owned(".jsx"));
        exts.push(owned(".json"));
        exts.push(owned(".vue"));
        assert(strs_view(exts@) =~= default_extensions());
        ParseOptions {
            context: cwd,
            extensions: exts,
            include_pattern: owned(".*"),
            exclude: owned(r"node_modules|\.git|\.svn|\.hg|coverage|dist|build|out|\.next|\.nuxt"),
            dependency_exclude: owned(r"node_modules|\.git|\.svn|\.hg"),
            tsconfig: None,
            skip_dynamic_imports: SkipDynamicImports::Never,
            take: None,
            cache_enabled: true,
            resolve_concurrency: None,
        }
    }
}

/// The extensions the configuration file sets, else the defaults.
pub open spec fn file_extensions(f: Option<FileConfig>) -> Seq<Seq<char>> {
    match f {
        Some(c) => match c.extensions {
            Some(e) => strs_view(e@),
            None => default_extensions(),
        },
        None => default_extensions(),
    }
}

/// A pattern of the configuration file that does not compile, if any (the
/// include, the exclude, then the dependency exclude).
pub open spec fn file_config_error(f: Option<FileConfig>) -> bool {
    match f {
        Some(c) => (c.include_pattern matches Some(p) && !regex_valid(p@))
            || (c.exclude matches Some(p) && !regex_valid(p@))
            || (c.dependency_exclude matches Some(p) && !regex_valid(p@)),
        None => false,
    }
}

/// The options for a run: the defaults (context `cwd`), then what the
/// configuration file sets, then the command line: its context when given,
/// its extensions split at commas unless blank, its include and exclude
/// patterns, a fixed dependency exclude, its tsconfig and take, dynamic
/// imports left out of cycle detection when asked, its cache setting and
/// its limit on concurrent resolutions.
/// Fails when a pattern does not compile.
pub fn create_parse_options_from_cli(cli: &Cli, file_cfg: Option<FileConfig>, cwd: String) -> (r: Result<ParseOptions, String>)
    ensures
        match r {
            Ok(o) => {
                &&& !file_config_error(file_cfg)
                &&& regex_valid(cli.include_pattern@) && regex_valid(cli.exclude@) && regex_valid(cli_dependency_exclude())
                &&& o.context@ == match cli.context {
                    Some(c) => c@,
                    None => cwd@,
                }
                &&& strs_view(o.extensions@) == if trim_ws(cli.extensions@).len() > 0 {
                    split_on(cli.extensions@, ',')
                } else {
                    file_extensions(file_cfg)
                }
                &&& o.include_pattern@ == cli.include_pattern@
                &&& o.exclude@ == cli.exclude@
                &&& o.dependency_exclude@ == cli_dependency_exclude()
                &&& crate::types::opt_str_view(o.tsconfig) == crate::types::opt_str_view(cli.tsconfig)
                &&& o.take == cli.take
                &&& o.skip_dynamic_imports == if cli.skip_dynamic_imports {
                    SkipDynamicImports::Circular
                } else {
                    SkipDynamicImports::Never
                }
                &&& o.cache_enabled == if cli.no_cache { false } else if cli.cache { true } else { cli.watch }
                &&& o.resolve_concurrency == cli.resolve_concurrency
            },
            Err(_) => file_config_error(file_cfg) || !regex_valid(cli.include_pattern@) || !regex_valid(cli.exclude@)
                || !regex_valid(cli_dependency_exclude()),
        },
{
    let mut options = ParseOptions::default_in(cwd);
    let ghost fc_extensions = file_extensions(file_cfg);
    let ghost fc_err = file_config_error(file_cfg);
    match &file_cfg {
        Some(fc) => {
            match &fc.extensions {
                Some(exts) => {
                    options.extensions = crate::types::clone_strings(exts);
                },
                None => {},
            }
            match &fc.include_pattern {
                Some(inc) => {
                    if !check_regex(inc.as_str()) {
                        return Err(owned("invalid include pattern in the configuration file"));
                    }
                    options.include_pattern = inc.clone();
                },
                None => {},
            }
            match &fc.exclude {
                Some(exc) => {
                    if !check_regex(exc.as_str()) {
                        return Err(owned("invalid exclude pattern in the configuration file"));
                    }
                    options.exclude = exc.clone();
                },
                None => {},
            }
            match &fc.dependency_exclude {
                Some(dep) => {
                    if !check_regex(dep.as_str()) {
                        return Err(owned("invalid dependency exclude pattern in the configuration file"));
                    }
                    options.dependency_exclude = dep.clone();
                },
                None => {},
            }
            match &fc.tsconfig {
                Some(ts) => {
                    options.tsconfig = Some(ts.clone());
                },
                None => {},
            }
            match fc.take {
                Some(t) => {
                    options.take = Some(t);
                },
                None => {},
            }
            match fc.cache_enabled {
                Some(c) => {
                    options.cache_enabled = c;
                },
                None => {},
            }
        },
        None => {},
    }
    assert(strs_view(options.extensions@) == fc_extensions);
    assert(!fc_err);
    match &cli.context {
        Some(c) => {
            options.context = c.clone();
        },
        None => {},
    }
    let trimmed = trim(cli.extensions.as_str());
    let tc = crate::text::chars_of(trimmed.as_str());
    if tc.len() > 0 {
        options.extensions = split_char(cli.extensions.as_str(), ',');
    }
    if !check_regex(cli.include_pattern.as_str()) {
        return Err(owned("invalid include pattern"));
    }
    options.include_pattern = cli.include_pattern.clone();
    if !check_regex(cli.exclude.as_str()) {
        return Err(owned("invalid exclude pattern"));
    }
    options.exclude = cli.exclude.clone();
    let dep = owned(r"node_modules|\\.git|\\.svn|\\.hg");
    if !check_regex(dep.as_str()) {
        return Err(owned("invalid dependency exclude pattern"));
    }
    options.dependency_exclude = dep;
    options.tsconfig = crate::types::clone_opt_string(&cli.tsconfig);
    options.take = cli.take;
    options.skip_dynamic_imports = if cli.skip_dynamic_imports {
        SkipDynamicImports::Circular
    } else {
        SkipDynamicImports::Never
    };
    options.cache_enabled = cli.effective_cache_setting();
    options.resolve_concurrency = cli.resolve_concurrency;
    Ok(options)
}

/// The most resolutions run at once when a limit is set.
pub const MAX_RESOLVE_CONCURRENCY: usize = 256;

/// The most resolutions run at once by default, at most one per thread.
pub const DEFAULT_RESOLVE_CONCURRENCY: usize = 64;

/// How many resolutions run at once: the configured limit, capped at
/// [`MAX_RESOLVE_CONCURRENCY`]; else one per thread, at most
/// [`DEFAULT_RESOLVE_CONCURRENCY`].
pub fn resolution_concurrency(configured: Option<usize>, threads: usize) -> (n: usize)
    ensures
        n == match configured {
            Some(c) => if c < MAX_RESOLVE_CONCURRENCY { c } else { MAX_RESOLVE_CONCURRENCY },
            None => if threads < DEFAULT_RESOLVE_CONCURRENCY { threads } else { DEFAULT_RESOLVE_CONCURRENCY },
        },
{
    match configured {
        Some(c) => if c < MAX_RESOLVE_CONCURRENCY { c } else { MAX_RESOLVE_CONCURRENCY },
        None => if threads < DEFAULT_RESOLVE_CONCURRENCY { threads } else { DEFAULT_RESOLVE_CONCURRENCY },
    }
}

} // verus!
