//! Dependency analysis for JavaScript, TypeScript and Vue projects: the
//! dependency graph, its cycles, the reverse index used for incremental
//! runs, the file cache, and the text processing around them.
pub mod text;
pub mod types;
pub mod circular;
pub mod setmap;
pub mod paths;
pub mod reverse_index;
pub mod resolve;
pub mod strmap;
pub mod cache;
pub mod filesystem;
pub mod cli;
pub mod utils;
pub mod console;
pub mod incremental;
pub mod runner;
pub mod watch;
pub mod jsparse;
pub mod parser;
pub mod logger;
pub mod config;
pub mod resolver;
pub mod builder;
