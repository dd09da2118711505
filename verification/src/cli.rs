//! The command-line options of the analyzer and the rules they obey.
use vstd::prelude::*;
use crate::text::{chars_of, extend_chars, owned, str_eq, string_from_chars};
use crate::types::strs_view;

verus! {

/// Which part of an analysis leaves dynamic imports out.
#[derive(Clone, Copy, Debug, PartialEq, Eq, Structural)]
pub enum SkipDynamicImportsArg {
    Tree,
    Circular,
}

/// The options of one run of the analyzer, as given on the command line.
#[derive(Clone, Debug)]
pub struct Cli {
    /// Input files or directories to analyze.
    pub files: Vec<String>,
    /// Base directory for resolving relative paths.
    pub context: Option<String>,
    /// File extensions to analyze (comma-separated).
    pub extensions: String,
    /// Filter for files by extension when scanning directories.
    pub filter: Option<String>,
    /// Pattern of the files to take in (`--include`).
    pub include_pattern: String,
    /// Pattern of files and directories to exclude.
    pub exclude: String,
    /// Output file for JSON results.
    pub output: Option<String>,
    /// Show the dependency tree.
    pub tree: bool,
    /// Detect and show circular dependencies.
    pub circular: bool,
    /// Verbose logging.
    pub log: bool,
    /// Exit with code 1 if circular dependencies are found.
    pub throw: bool,
    /// Path to tsconfig.json for path aliases.
    pub tsconfig: Option<String>,
    /// Custom exit codes (`case:code,case:code`).
    pub exit_code: Option<String>,
    /// Show a progress bar.
    pub progress: bool,
    /// Skip dynamic imports when detecting circular dependencies.
    pub skip_dynamic_imports: bool,
    /// Stop after this many circular dependencies.
    pub take: Option<usize>,
    /// Watch files and analyze again on change.
    pub watch: bool,
    /// In watch mode, run a full scan first.
    pub pre_scan: bool,
    /// Turn the file cache on.
    pub cache: bool,
    /// Turn the file cache off.
    pub no_cache: bool,
    /// Threads for parallel work.
    pub threads: Option<usize>,
    /// Concurrency limit for module resolution.
    pub resolve_concurrency: Option<usize>,
}

/// Why a set of options is refused.
pub open spec fn validation_error(cli: Cli) -> Option<Seq<char>> {
    if cli.cache && cli.no_cache {
        Some("Cannot specify both --cache and --no-cache"@)
    } else if cli.threads == Some(0usize) {
        Some("Number of threads must be greater than 0"@)
    } else if cli.take == Some(0usize) {
        Some("Take value must be greater than 0"@)
    } else {
        None
    }
}

impl Cli {
    /// Refuses `--cache` with `--no-cache`, zero threads and a zero take,
    /// in that order, with a message for each.
    pub fn validate(&self) -> (r: Result<(), String>)
        ensures
            match r {
                Ok(()) => validation_error(*self) is None,
                Err(m) => validation_error(*self) == Some(m@),
            },
    {
        if self.cache && self.no_cache {
            return Err(owned("Cannot specify both --cache and --no-cache"));
        }
        match self.threads {
            Some(threads) => {
                if threads == 0 {
                    return Err(owned("Number of threads must be greater than 0"));
                }
            },
            None => {},
        }
        match self.take {
            Some(take) => {
                if take == 0 {
                    return Err(owned("Take value must be greater than 0"));
                }
            },
            None => {},
        }
        Ok(())
    }

    /// Whether the file cache is used: `--no-cache` turns it off, else
    /// `--cache` turns it on, else it is on in watch mode only.
    pub fn effective_cache_setting(&self) -> (b: bool)
        ensures
            b == if self.no_cache {
                false
            } else if self.cache {
                true
            } else {
                self.watch
            },
    {
        if self.no_cache {
            false
        } else if self.cache {
            true
        } else {
            self.watch
        }
    }
}

/// The options with `--throw` set to `throw` and all else unchanged.
pub open spec fn with_throw(cli: Cli, throw: bool) -> Cli {
    Cli { throw, ..cli }
}

impl Cli {
    /// Watch mode keeps running whatever it finds, so `--throw` is dropped
    /// there; says whether it was given (and a warning is due).
    pub fn drop_throw_in_watch_mode(&mut self) -> (dropped: bool)
        ensures
            dropped == (old(self).watch && old(self).throw),
            *final(self) == with_throw(*old(self), old(self).throw && !old(self).watch),
    {
        if self.watch && self.throw {
            self.throw = false;
            true
        } else {
            false
        }
    }
}

impl Default for Cli {
    /// The options with every flag off and every default value of the
    /// command line: extensions `.ts,.tsx,.mjs,.js,.jsx,.json,.vue`, include
    /// `.*` for the files taken in, and the usual build and VCS directories excluded.
    fn default() -> (c: Self)
        ensures
            c.files@.len() == 0,
            c.context is None,
            c.extensions@ == ".ts,.tsx,.mjs,.js,.jsx,.json,.vue"@,
            c.filter is None,
            c.include_pattern@ == ".*"@,
            c.exclude@ == "node_modules|\\.git|\\.svn|\\.hg|coverage|dist|build|out|\\.next|\\.nuxt"@,
            c.output is None,
            !c.tree && !c.circular && !c.log && !c.throw && !c.progress && !c.skip_dynamic_imports,
            !c.watch && !c.pre_scan && !c.cache && !c.no_cache,
            c.tsconfig is None,
            c.exit_code is None,
            c.take is None,
            c.threads is None,
            c.resolve_concurrency is None,
    {
        Cli {
            files: Vec::new(),
            context: None,
            extensions: owned(".ts,.tsx,.mjs,.js,.jsx,.json,.vue"),
            filter: None,
            include_pattern: owned(".*"),
            exclude: owned("node_modules|\\.git|\\.svn|\\.hg|coverage|dist|build|out|\\.next|\\.nuxt"),
            output: None,
            tree: false,
            circular: false,
            log: false,
            throw: false,
            tsconfig: None,
            exit_code: None,
            progress: false,
            skip_dynamic_imports: false,
            take: None,
            watch: false,
            pre_scan: false,
            cache: false,
            no_cache: false,
            threads: None,
            resolve_concurrency: None,
        }
    }
}

/// A flag of the test harness that the command line leaves out.
pub open spec fn is_harness_flag(a: Seq<char>) -> bool {
    a == "--nocapture"@ || a == "--test-threads"@ || a == "--quiet"@
}

/// The arguments of `args` that are not flags (do not start with `-`),
/// in order.
pub open spec fn non_flag_args(args: Seq<Seq<char>>) -> Seq<Seq<char>>
    decreases args.len(),
{
    if args.len() == 0 {
        Seq::empty()
    } else {
        let kept = non_flag_args(args.drop_last());
        let a = args.last();
        if a.len() > 0 && a[0] == '-' {
            kept
        } else {
            kept.push(a)
        }
    }
}

/// The arguments after the program's name.
pub open spec fn after_program(args: Seq<Seq<char>>) -> Seq<Seq<char>> {
    if args.len() == 0 {
        Seq::empty()
    } else {
        args.subrange(1, args.len() as int)
    }
}

/// The arguments handed to the parser under a test harness (a harness
/// flag given, or no argument after the program's name): `rds`, then the
/// non-flag arguments, or `<manifest_dir>/test` where there are none.
/// `None` otherwise: the arguments are parsed as they are.
pub open spec fn harness_args_spec(args: Seq<Seq<char>>, manifest_dir: Seq<char>) -> Option<Seq<Seq<char>>> {
    if (exists|i: int| 0 <= i < args.len() && is_harness_flag(#[trigger] args[i])) || args.len() <= 1 {
        let nf = non_flag_args(after_program(args));
        if nf.len() == 0 {
            Some(seq!["rds"@, manifest_dir + "/test"@])
        } else {
            Some(seq!["rds"@] + nf)
        }
    } else {
        None
    }
}

/// The arguments to parse under a test harness (see
/// [`harness_args_spec`]).
pub fn harness_args(args: &Vec<String>, manifest_dir: &str) -> (r: Option<Vec<String>>)
    ensures
        match r {
            Some(v) => harness_args_spec(strs_view(args@), manifest_dir@) == Some(strs_view(v@)),
            None => harness_args_spec(strs_view(args@), manifest_dir@) is None,
        },
{
    let ghost av = strs_view(args@);
    let mut has_flag = false;
    let mut i: usize = 0;
    while i < args.len()
        invariant
            i <= args@.len(),
            av == strs_view(args@),
            has_flag == exists|k: int| 0 <= k < i && is_harness_flag(#[trigger] av[k]),
        decreases args@.len() - i,
    {
        let a = args[i].as_str();
        if str_eq(a, "--nocapture") || str_eq(a, "--test-threads") || str_eq(a, "--quiet") {
            assert(is_harness_flag(av[i as int]));
            has_flag = true;
        }
        i = i + 1;
    }
    if !has_flag && args.len() > 1 {
        return None;
    }
    let ghost rest = after_program(av);
    let mut nf: Vec<String> = Vec::new();
    let mut j: usize = 1;
    proof {
        if av.len() >= 1 {
            assert(rest.subrange(0, 0) =~= Seq::<Seq<char>>::empty());
        }
        assert(strs_view(nf@) =~= Seq::<Seq<char>>::empty());
    }
    while j < args.len()
        invariant
            1 <= j,
            av == strs_view(args@),
            rest == after_program(av),
            j <= args@.len() || args@.len() == 0,
            args@.len() >= 1 ==> strs_view(nf@) == non_flag_args(rest.subrange(0, j - 1)),
            args@.len() == 0 ==> nf@.len() == 0,
        decreases args@.len() - j,
    {
        let ghost n0 = strs_view(nf@);
        let ghost pre = rest.subrange(0, j - 1);
        let ghost next = rest.subrange(0, j as int);
        proof {
            assert(next.drop_last() =~= pre);
            assert(next.last() == av[j as int]);
        }
        let cs = chars_of(args[j].as_str());
        if !(cs.len() > 0 && cs[0] == '-') {
            nf.push(owned(args[j].as_str()));
            assert(strs_view(nf@) =~= n0.push(av[j as int]));
        }
        j = j + 1;
    }
    proof {
        if av.len() >= 1 {
            assert(rest.subrange(0, rest.len() as int) =~= rest);
        } else {
            assert(rest =~= Seq::<Seq<char>>::empty());
            assert(strs_view(nf@) =~= non_flag_args(rest));
        }
    }
    let mut out: Vec<String> = Vec::new();
    out.push(owned("rds"));
    if nf.len() == 0 {
        let mut d = chars_of(manifest_dir);
        let t = chars_of("/test");
        extend_chars(&mut d, &t);
        out.push(string_from_chars(&d));
        assert(strs_view(out@) =~= seq!["rds"@, manifest_dir@ + "/test"@]);
    } else {
        let ghost o0 = strs_view(out@);
        let mut k: usize = 0;
        while k < nf.len()
            invariant
                k <= nf@.len(),
                o0 == seq!["rds"@],
                strs_view(out@) == o0 + strs_view(nf@).subrange(0, k as int),
            decreases nf@.len() - k,
        {
            let ghost ob = strs_view(out@);
            out.push(owned(nf[k].as_str()));
            assert(strs_view(out@) =~= ob.push(nf@[k as int]@));
            assert(strs_view(nf@).subrange(0, k + 1) =~= strs_view(nf@).subrange(0, k as int).push(nf@[k as int]@));
            k = k + 1;
        }
        assert(strs_view(nf@).subrange(0, nf@.len() as int) =~= strs_view(nf@));
    }
    Some(out)
}

} // verus!
