//! The cache of parsed dependencies per file, kept while a file's
//! modification time and size stay the same, with hit and miss counts.
use vstd::prelude::*;
use std::hash::BuildHasher;
use crate::strmap::StrMap;
use crate::types::{clone_deps, deps_view, Dependency, DependencyView};

verus! {

/// What std's default hasher gives for a string's contents.
pub uninterp spec fn std_default_hash(content: Seq<char>) -> u64;

/// Hashes a string with std's `DefaultHasher` (`BuildHasher::hash_one` on
/// `BuildHasherDefault<DefaultHasher>`, which starts from
/// `DefaultHasher::new()`, hashes the value and finishes).
/// Trusted: the result is the name [`std_default_hash`] of the string's
/// text; `DefaultHasher::new()` is not seeded per process, so one build of
/// the program gives one hash per text.
#[verifier::external_body]
fn default_hash(content: &str) -> (h: u64)
    ensures
        h == std_default_hash(content@),
{
    std::hash::BuildHasherDefault::<std::collections::hash_map::DefaultHasher>::default().hash_one(content)
}

/// The 64-bit hash of a file's contents, by std's default hasher.
pub fn calculate_hash(content: &str) -> (h: u64)
    ensures
        h == std_default_hash(content@),
{
    default_hash(content)
}

/// A file's modification time, as seconds and nanoseconds from the Unix
/// epoch (negative seconds before it).
#[derive(Clone, Copy, Debug, PartialEq, Eq, Structural)]
pub struct ModifiedTime {
    pub secs: i64,
    pub nanos: u32,
}

/// What the file system says of a file: when it was last modified and how
/// many bytes it has.
#[derive(Clone, Copy, Debug, PartialEq, Eq, Structural)]
pub struct FileStamp {
    pub modified_time: ModifiedTime,
    pub file_size: u64,
}

/// The dependencies of one file as parsed, with what the file looked like.
#[derive(Debug)]
pub struct CacheEntry {
    pub file_path: String,
    pub modified_time: ModifiedTime,
    pub content_hash: u64,
    pub dependencies: Vec<Dependency>,
    pub file_size: u64,
}

/// The mathematical value of a [`CacheEntry`].
pub struct CacheEntryView {
    pub file_path: Seq<char>,
    pub modified_time: ModifiedTime,
    pub content_hash: u64,
    pub dependencies: Seq<DependencyView>,
    pub file_size: u64,
}

impl View for CacheEntry {
    type V = CacheEntryView;

    open spec fn view(&self) -> CacheEntryView {
        CacheEntryView {
            file_path: self.file_path@,
            modified_time: self.modified_time,
            content_hash: self.content_hash,
            dependencies: deps_view(self.dependencies@),
            file_size: self.file_size,
        }
    }
}

/// The counts of a cache: lookups that found an entry, lookups that did
/// not, cached files, and reuses of a whole cached tree.
#[derive(Clone, Copy, Debug, PartialEq, Eq, Structural)]
pub struct CacheStats {
    pub hits: usize,
    pub misses: usize,
    pub cached_files: usize,
    pub cached_tree_reuses: usize,
}

/// The dependencies of files keyed by a cache key, with the counts of
/// lookups. A disabled cache stores nothing and finds nothing.
#[derive(Debug)]
pub struct FileCache {
    cache: StrMap<CacheEntry>,
    enabled: bool,
    hits: usize,
    misses: usize,
    cached_tree_reuses: usize,
}

impl FileCache {
    /// Each cache key with its entry.
    pub closed spec fn entries(self) -> Map<Seq<char>, CacheEntryView> {
        self.cache@.map_values(|e: CacheEntry| e@)
    }

    /// Whether the cache is on.
    pub closed spec fn is_on(self) -> bool {
        self.enabled
    }

    /// Lookups that found an entry since the last reset.
    pub closed spec fn hit_count(self) -> nat {
        self.hits as nat
    }

    /// Lookups that found none since the last reset.
    pub closed spec fn miss_count(self) -> nat {
        self.misses as nat
    }

    /// Reuses of a whole cached tree since the last reset.
    pub closed spec fn reuse_count(self) -> nat {
        self.cached_tree_reuses as nat
    }

    /// An empty cache, on or off.
    pub fn new(enabled: bool) -> (c: Self)
        ensures
            c.entries() == Map::<Seq<char>, CacheEntryView>::empty(),
            c.is_on() == enabled,
            c.hit_count() == 0,
            c.miss_count() == 0,
            c.reuse_count() == 0,
    {
        let c = FileCache { cache: StrMap::new(), enabled, hits: 0, misses: 0, cached_tree_reuses: 0 };
        assert(c.entries() =~= Map::<Seq<char>, CacheEntryView>::empty());
        c
    }

    /// Whether the cache is on.
    pub fn is_enabled(&self) -> (b: bool)
        ensures
            b == self.is_on(),
    {
        self.enabled
    }

    /// Whether `cache_key` has an entry that is still valid for the file as
    /// it is now (`stamp`; `None` when the file does not exist): its
    /// modification time and size are unchanged. A stale entry is dropped.
    /// A disabled cache answers `false`.
    pub fn is_cached(&mut self, cache_key: &str, stamp: Option<FileStamp>) -> (r: bool)
        ensures
            r == (old(self).is_on() && entry_valid(old(self).entries(), cache_key@, stamp)),
            final(self).entries() == if old(self).is_on() && stamp is Some && old(self).entries().contains_key(cache_key@) && !r {
                old(self).entries().remove(cache_key@)
            } else {
                old(self).entries()
            },
            final(self).is_on() == old(self).is_on(),
            final(self).hit_count() == old(self).hit_count(),
            final(self).miss_count() == old(self).miss_count(),
            final(self).reuse_count() == old(self).reuse_count(),
    {
        if !self.enabled {
            return false;
        }
        let st = match stamp {
            Some(st) => st,
            None => {
                return false;
            },
        };
        let fresh = match self.cache.get(cache_key) {
            Some(entry) => Some(entry.modified_time == st.modified_time && entry.file_size == st.file_size),
            None => None,
        };
        match fresh {
            Some(true) => true,
            Some(false) => {
                self.cache.remove(cache_key);
                assert(self.entries() =~= old(self).entries().remove(cache_key@));
                false
            },
            None => false,
        }
    }

    /// The cached dependencies of `cache_key`, counting a hit when there
    /// are some and a miss when there are none. A disabled cache answers
    /// `None` and counts nothing.
    pub fn get_cached_dependencies(&mut self, cache_key: &str) -> (r: Option<Vec<Dependency>>)
        requires
            old(self).is_on() && old(self).entries().contains_key(cache_key@) ==> old(self).hit_count() < usize::MAX,
            old(self).is_on() && !old(self).entries().contains_key(cache_key@) ==> old(self).miss_count() < usize::MAX,
        ensures
            match r {
                Some(ds) => cached_deps(old(self).entries(), old(self).is_on(), cache_key@) == Some(deps_view(ds@)),
                None => cached_deps(old(self).entries(), old(self).is_on(), cache_key@) is None,
            },
            final(self).entries() == old(self).entries(),
            final(self).is_on() == old(self).is_on(),
            final(self).hit_count() == old(self).hit_count() + if r is Some { 1nat } else { 0nat },
            final(self).miss_count() == old(self).miss_count() + if old(self).is_on() && r is None { 1nat } else { 0nat },
            final(self).reuse_count() == old(self).reuse_count(),
    {
        if !self.enabled {
            return None;
        }
        let found = match self.cache.get(cache_key) {
            Some(entry) => Some(clone_deps(&entry.dependencies)),
            None => None,
        };
        match found {
            Some(ds) => {
                self.hits = self.hits + 1;
                Some(ds)
            },
            None => {
                self.misses = self.misses + 1;
                None
            },
        }
    }

    /// Stores `dependencies` for `cache_key`, with the file's path, its
    /// stamp and the hash of its contents. A disabled cache stores nothing.
    pub fn cache_dependencies(
        &mut self,
        fs_path: &str,
        cache_key: &str,
        dependencies: Vec<Dependency>,
        stamp: FileStamp,
        content: &str,
    )
        ensures
            final(self).entries() == if old(self).is_on() {
                stored_entries(old(self).entries(), cache_key@, fs_path@, stamp, content@, deps_view(dependencies@))
            } else {
                old(self).entries()
            },
            final(self).is_on() == old(self).is_on(),
            final(self).hit_count() == old(self).hit_count(),
            final(self).miss_count() == old(self).miss_count(),
            final(self).reuse_count() == old(self).reuse_count(),
    {
        if !self.enabled {
            return;
        }
        let content_hash = calculate_hash(content);
        let entry = CacheEntry {
            file_path: crate::text::owned(fs_path),
            modified_time: stamp.modified_time,
            content_hash,
            dependencies,
            file_size: stamp.file_size,
        };
        let ghost ev = entry@;
        self.cache.insert(crate::text::owned(cache_key), entry);
        assert(self.entries() =~= old(self).entries().insert(cache_key@, ev));
    }

    /// Drops every entry and resets the hit and miss counts.
    pub fn clear(&mut self)
        ensures
            final(self).entries() == Map::<Seq<char>, CacheEntryView>::empty(),
            final(self).is_on() == old(self).is_on(),
            final(self).hit_count() == 0,
            final(self).miss_count() == 0,
            final(self).reuse_count() == old(self).reuse_count(),
    {
        self.cache.clear();
        self.hits = 0;
        self.misses = 0;
        assert(self.entries() =~= Map::<Seq<char>, CacheEntryView>::empty());
    }

    /// The counts of the cache.
    pub fn get_stats(&self) -> (s: CacheStats)
        ensures
            s.hits == self.hit_count(),
            s.misses == self.miss_count(),
            s.cached_files == self.entries().dom().len(),
            s.cached_tree_reuses == self.reuse_count(),
    {
        assert(self.entries().dom() =~= self.cache@.dom());
        CacheStats {
            hits: self.hits,
            misses: self.misses,
            cached_files: self.cache.len(),
            cached_tree_reuses: self.cached_tree_reuses,
        }
    }

    /// The counts of the cache since the last call, which then start again
    /// from zero.
    pub fn get_incremental_stats(&mut self) -> (s: CacheStats)
        ensures
            s.hits == old(self).hit_count(),
            s.misses == old(self).miss_count(),
            s.cached_files == old(self).entries().dom().len(),
            s.cached_tree_reuses == old(self).reuse_count(),
            final(self).entries() == old(self).entries(),
            final(self).is_on() == old(self).is_on(),
            final(self).hit_count() == 0,
            final(self).miss_count() == 0,
            final(self).reuse_count() == 0,
    {
        let s = self.get_stats();
        self.hits = 0;
        self.misses = 0;
        self.cached_tree_reuses = 0;
        s
    }

    /// Turns the cache on or off; turning it off clears it.
    pub fn set_enabled(&mut self, enabled: bool)
        ensures
            final(self).is_on() == enabled,
            final(self).entries() == if enabled { old(self).entries() } else { Map::<Seq<char>, CacheEntryView>::empty() },
            final(self).hit_count() == if enabled { old(self).hit_count() } else { 0 },
            final(self).miss_count() == if enabled { old(self).miss_count() } else { 0 },
            final(self).reuse_count() == old(self).reuse_count(),
    {
        self.enabled = enabled;
        if !enabled {
            self.clear();
        }
    }

    /// Counts one reuse of a whole cached tree.
    pub fn incr_cached_tree_reuse(&mut self)
        requires
            old(self).reuse_count() < usize::MAX,
        ensures
            final(self).reuse_count() == old(self).reuse_count() + 1,
            final(self).entries() == old(self).entries(),
            final(self).is_on() == old(self).is_on(),
            final(self).hit_count() == old(self).hit_count(),
            final(self).miss_count() == old(self).miss_count(),
    {
        self.cached_tree_reuses = self.cached_tree_reuses + 1;
    }
}

} // verus!

verus! {

/// What storing leaves in an enabled cache's entries.
pub open spec fn stored_entries(
    entries: Map<Seq<char>, CacheEntryView>,
    key: Seq<char>,
    path: Seq<char>,
    stamp: FileStamp,
    content: Seq<char>,
    deps: Seq<DependencyView>,
) -> Map<Seq<char>, CacheEntryView> {
    entries.insert(key, CacheEntryView {
        file_path: path,
        modified_time: stamp.modified_time,
        content_hash: std_default_hash(content),
        dependencies: deps,
        file_size: stamp.file_size,
    })
}

/// Whether the entry of `key` is valid for a file with `stamp` (`None`
/// when the file does not exist): its modification time and size are
/// the file's.
pub open spec fn entry_valid(entries: Map<Seq<char>, CacheEntryView>, key: Seq<char>, stamp: Option<FileStamp>) -> bool {
    &&& stamp is Some
    &&& entries.contains_key(key)
    &&& entries[key].modified_time == stamp->0.modified_time
    &&& entries[key].file_size == stamp->0.file_size
}

/// What a lookup of `key` gives: the stored dependencies when the cache is
/// on and has the key.
pub open spec fn cached_deps(entries: Map<Seq<char>, CacheEntryView>, on: bool, key: Seq<char>) -> Option<Seq<DependencyView>> {
    if on && entries.contains_key(key) {
        Some(entries[key].dependencies)
    } else {
        None
    }
}

/// After `cache_dependencies` stores dependencies for a key in an enabled
/// cache, `is_cached` with the same stamp answers `true`, and
/// `get_cached_dependencies` gives those dependencies back; the other keys
/// keep their entries.
pub proof fn lemma_store_then_lookup(
    entries: Map<Seq<char>, CacheEntryView>,
    key: Seq<char>,
    path: Seq<char>,
    stamp: FileStamp,
    content: Seq<char>,
    deps: Seq<DependencyView>,
    other: Seq<char>,
)
    ensures
        ({
            let e2 = stored_entries(entries, key, path, stamp, content, deps);
            &&& entry_valid(e2, key, Some(stamp))
            &&& cached_deps(e2, true, key) == Some(deps)
            &&& other != key ==> (e2.contains_key(other) == entries.contains_key(other)
                && (entries.contains_key(other) ==> e2[other] == entries[other]))
        }),
{
}

} // verus!
