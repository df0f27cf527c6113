//! The engine: an archive, what is known of it, and what is to be copied into it.

use crate::archive;
use crate::archive::{Archive, ArchiveError};
use crate::cache;
use crate::cache::{Cache, CacheError, Entry};
use crate::path;
use crate::path::FilePath;
use crate::sqlite;
pub use crate::stats::Stats;
use vstd::prelude::*;

verus! {

/// Why something could not be done.
#[derive(Debug)]
pub enum EngineError {
    Cache(CacheError),
    Archive(ArchiveError),
    Io(std::io::Error),
}

/// An [`EngineError`] with its paths as bytes.
pub enum EngineErrorView {
    Cache(CacheError),
    Archive(archive::ArchiveErrorView),
    Io(std::io::Error),
}

impl View for EngineError {
    type V = EngineErrorView;

    open spec fn view(&self) -> EngineErrorView {
        match *self {
            EngineError::Cache(e) => EngineErrorView::Cache(e),
            EngineError::Archive(e) => EngineErrorView::Archive(e@),
            EngineError::Io(e) => EngineErrorView::Io(e),
        }
    }
}

/// Did a statement fail?
pub open spec fn is_sqlite(e: EngineErrorView) -> bool {
    e matches EngineErrorView::Cache(CacheError::Sqlite(_))
}

/// An archive, what is known of it, and what is to be copied into it.
pub struct Engine {
    archive: Archive,
    cache: Cache,
    sources: Vec<FilePath>,
}

/// An [`Engine`] with its paths as bytes.
pub struct EngineView {
    pub archive: archive::ArchiveView,
    pub cache: sqlite::Database,
    pub sources: Seq<Seq<u8>>,
}

impl View for Engine {
    type V = EngineView;

    closed spec fn view(&self) -> EngineView {
        EngineView {
            archive: self.archive@,
            cache: self.cache@,
            sources: path::bytes_of(self.sources@),
        }
    }
}

impl EngineView {
    /// With another cache.
    pub open spec fn with(self, cache: sqlite::Database) -> EngineView {
        EngineView { cache, ..self }
    }
}

/// Nothing but the cache has changed, and that has become `to` if nothing failed. What failed was
/// undone.
pub open spec fn cache_moved(
    was: EngineView,
    is: EngineView,
    failed: bool,
    to: sqlite::Database,
) -> bool {
    &&& is == was.with(is.cache)
    &&& is.cache.exclusive == was.cache.exclusive
    &&& !failed ==> sqlite::becomes(was.cache, is.cache, to)
    &&& failed ==> sqlite::undone(was.cache, is.cache)
}

/// The cache was read, and nothing else has changed.
pub open spec fn cache_read(was: EngineView, is: EngineView, failed: bool) -> bool {
    &&& is == was.with(is.cache)
    &&& sqlite::was_read(was.cache, is.cache, failed)
}

/// The row that describes a file: the text that stands for its path, and its size, modification time
/// and hash.
pub open spec fn entry_of(
    path: Seq<u8>,
    size: u64,
    mtime: i64,
    digest: Seq<u8>,
) -> sqlite::EntryView {
    sqlite::EntryView {
        path: path::key(path),
        row: sqlite::Row { size: size as i64, mtime, hash: digest },
    }
}

fn entry_for(path: &FilePath, size: u64, mtime: i64, digest: &[u8; 32]) -> (entry: Entry)
    ensures
        entry@ == entry_of(path@, size, mtime, digest@),
{
    Entry {
        path: path.key(),
        size: size as i64,
        mtime,
        hash: vstd::slice::slice_to_vec(digest.as_slice()),
    }
}

fn checked<T>(result: Result<T, CacheError>) -> (mapped: Result<T, EngineError>)
    ensures
        match result {
            Ok(v) => mapped == Ok::<T, EngineError>(v),
            Err(e) => mapped == Err::<T, EngineError>(EngineError::Cache(e)),
        },
{
    match result {
        Ok(v) => Ok(v),
        Err(e) => Err(EngineError::Cache(e)),
    }
}

/// Was anything found?
pub fn is_found(found: Result<Option<String>, CacheError>) -> (yes: Result<bool, EngineError>)
    ensures
        match found {
            Ok(f) => yes == Ok::<bool, EngineError>(f is Some),
            Err(e) => yes == Err::<bool, EngineError>(EngineError::Cache(e)),
        },
{
    match found {
        Ok(f) => Ok(f.is_some()),
        Err(e) => Err(EngineError::Cache(e)),
    }
}

/// Was nothing counted?
pub fn is_none(count: Result<i64, CacheError>) -> (yes: Result<bool, EngineError>)
    ensures
        match count {
            Ok(n) => yes == Ok::<bool, EngineError>(n == 0),
            Err(e) => yes == Err::<bool, EngineError>(EngineError::Cache(e)),
        },
{
    match count {
        Ok(n) => Ok(n == 0),
        Err(e) => Err(EngineError::Cache(e)),
    }
}

impl Engine {
    pub fn new(archive: Archive, cache: Cache, sources: Vec<FilePath>) -> (engine: Engine)
        ensures
            engine@ == (EngineView {
                archive: archive@,
                cache: cache@,
                sources: path::bytes_of(sources@),
            }),
    {
        Engine { archive, cache, sources }
    }

    pub fn archive(&self) -> (archive: &Archive)
        ensures
            archive@ == self@.archive,
    {
        &self.archive
    }

    /// What is known of the source files and of the archive.
    pub fn cache(&mut self) -> (cache: &mut Cache)
        ensures
            cache@ == old(self)@.cache,
            final(self)@ == old(self)@.with(final(cache)@),
    {
        &mut self.cache
    }

    /// The source tree at this position, if there are so many.
    pub fn source(&self, i: usize) -> (root: Option<&FilePath>)
        ensures
            match root {
                Some(r) => i < self@.sources.len() && r@ == self@.sources[i as int],
                None => i >= self@.sources.len(),
            },
            root is Some ==> i < usize::MAX,
    {
        if i < self.sources.len() {
            Some(&self.sources[i])
        } else {
            None
        }
    }

    pub(crate) fn begin(&mut self) -> (done: Result<(), EngineError>)
        ensures
            cache_moved(old(self)@, final(self)@, done is Err, old(self)@.cache.begun()),
            done matches Err(e) ==> is_sqlite(e@),
    {
        checked(self.cache.transaction())
    }

    pub(crate) fn commit(&mut self) -> (done: Result<(), EngineError>)
        ensures
            cache_moved(old(self)@, final(self)@, done is Err, old(self)@.cache.committed()),
            done matches Err(e) ==> is_sqlite(e@),
    {
        checked(self.cache.commit())
    }

    pub(crate) fn rollback(&mut self) -> (done: Result<(), EngineError>)
        ensures
            cache_moved(old(self)@, final(self)@, done is Err, old(self)@.cache.rolled_back()),
            done is Ok && old(self)@.cache.exclusive ==> old(self)@.cache.session.begun is Some,
            done matches Err(e) ==> is_sqlite(e@),
    {
        checked(self.cache.rollback())
    }

    pub(crate) fn clear_archived(&mut self) -> (done: Result<(), EngineError>)
        ensures
            cache_moved(
                old(self)@,
                final(self)@,
                done is Err,
                old(self)@.cache.with(
                    sqlite::Tables { archived: Map::empty(), ..old(self)@.cache.tables },
                ),
            ),
            done matches Err(e) ==> is_sqlite(e@),
    {
        checked(self.cache.clear_archived())
    }

    /// Record what a file in the archive holds.
    pub(crate) fn record_archived(
        &mut self,
        path: &FilePath,
        size: u64,
        mtime: i64,
        digest: &[u8; 32],
    ) -> (done: Result<(), EngineError>)
        ensures
            cache_moved(
                old(self)@,
                final(self)@,
                done is Err,
                old(self)@.cache.with(
                    cache::with_archived(
                        old(self)@.cache.tables,
                        entry_of(path@, size, mtime, digest@),
                    ),
                ),
            ),
            done matches Err(e) ==> is_sqlite(e@),
    {
        checked(self.cache.record_archived(&entry_for(path, size, mtime, digest)))
    }

    /// Record what a source file looks like.
    pub(crate) fn record_source(
        &mut self,
        path: &FilePath,
        size: u64,
        mtime: i64,
        digest: &[u8; 32],
    ) -> (done: Result<(), EngineError>)
        ensures
            cache_moved(
                old(self)@,
                final(self)@,
                done is Err,
                old(self)@.cache.with(
                    cache::with_source(
                        old(self)@.cache.tables,
                        entry_of(path@, size, mtime, digest@),
                    ),
                ),
            ),
            done matches Err(e) ==> is_sqlite(e@),
    {
        checked(self.cache.upsert_source(&entry_for(path, size, mtime, digest)))
    }

    /// What a source file looked like the last time.
    pub(crate) fn known_source(&mut self, path: &FilePath) -> (found: Result<
        Option<Entry>,
        EngineError,
    >)
        ensures
            cache_read(old(self)@, final(self)@, found is Err),
            match found {
                Ok(f) => old(self)@.cache.exclusive ==> sqlite::maybe(f) == sqlite::entry_at(
                    old(self)@.cache.tables.sources,
                    path::key(path@),
                ),
                Err(e) => is_sqlite(e@),
            },
    {
        let key = path.key();
        checked(self.cache.lookup_source(key.as_str()))
    }

    /// Does the archive hold this content, anywhere and under any name?
    pub(crate) fn holds(&mut self, digest: &[u8; 32]) -> (held: Result<bool, EngineError>)
        ensures
            cache_read(old(self)@, final(self)@, held is Err),
            match held {
                Ok(h) => old(self)@.cache.exclusive ==> h == cache::holds(
                    old(self)@.cache.tables,
                    digest@,
                ),
                Err(e) => is_sqlite(e@),
            },
    {
        is_found(self.cache.find_by_hash(digest.as_slice()))
    }

    /// Is nothing known of the archive's contents?
    pub(crate) fn knows_nothing(&mut self) -> (empty: Result<bool, EngineError>)
        ensures
            cache_read(old(self)@, final(self)@, empty is Err),
            match empty {
                Ok(e) => old(self)@.cache.exclusive ==> e == (
                old(self)@.cache.tables.archived.dom() =~= Set::empty()),
                Err(e) => is_sqlite(e@),
            },
    {
        let ghost rows = self@.cache.tables.archived.dom();
        let count = self.cache.archived_count();
        proof {
            if old(self)@.cache.exclusive && count == Ok::<i64, CacheError>(0) {
                assert(rows.len() == 0);
            }
        }
        is_none(count)
    }
}

// ---------------------------------------------------------------------------------------------
// Laws.
// ---------------------------------------------------------------------------------------------

/// An engine is about the archive, the cache and the sources that it was made of, in their order.
pub proof fn law_an_engine_keeps_what_it_was_made_of(
    archive: Archive,
    cache: Cache,
    sources: Vec<FilePath>,
    engine: &Engine,
    kept: &Archive,
    i: usize,
    source: Option<&FilePath>,
)
    requires
        call_ensures(Engine::new, (archive, cache, sources), *engine),
        call_ensures(Engine::archive, (engine,), kept),
        call_ensures(Engine::source, (engine, i), source),
    ensures
        kept@ == archive@,
        engine@.cache == cache@,
        i < sources@.len() ==> (source matches Some(s) && s@ == sources@[i as int]@),
        i >= sources@.len() ==> source is None,
{
}

/// A source file that was recorded is known: with its size, its modification time and its hash. What is
/// known of any other file stays, and so does what is known of the archive.
pub(crate) proof fn law_a_recorded_source_is_known(
    writing: &mut Engine,
    file: &FilePath,
    size: u64,
    mtime: i64,
    digest: &[u8; 32],
    reading: &mut Engine,
    asked: &FilePath,
    found: Option<Entry>,
)
    requires
        old(writing)@.cache.exclusive,
        call_ensures(Engine::record_source, (writing, file, size, mtime, digest), Ok(())),
        old(reading)@ == final(writing)@,
        call_ensures(Engine::known_source, (reading, asked), Ok(found)),
    ensures
        asked@ == file@ ==> (found matches Some(e) && e.size == size as i64 && e.mtime == mtime
            && e.hash@ == digest@),
        asked@ != file@ ==> (found is Some <==> old(
            writing,
        )@.cache.tables.sources.contains_key(path::key(asked@))),
        final(writing)@.cache.tables.archived == old(writing)@.cache.tables.archived,
        final(writing)@.archive == old(writing)@.archive,
        final(writing)@.sources == old(writing)@.sources,
{
    if asked@ != file@ && path::key(asked@) == path::key(file@) {
        path::law_keys_tell_paths_apart(asked@, file@);
    }
    if let Some(e) = found {
        assert(e@ == sqlite::maybe(found)->0);
    }
}

/// Content that was recorded in the archive is held from then on, and an archive of which something was
/// recorded is no longer unknown.
pub(crate) proof fn law_recorded_content_is_held(
    writing: &mut Engine,
    file: &FilePath,
    size: u64,
    mtime: i64,
    digest: &[u8; 32],
    reading: &mut Engine,
    held: bool,
    counting: &mut Engine,
    unknown: bool,
)
    requires
        old(writing)@.cache.exclusive,
        call_ensures(Engine::record_archived, (writing, file, size, mtime, digest), Ok(())),
        old(reading)@ == final(writing)@,
        call_ensures(Engine::holds, (reading, digest), Ok(held)),
        old(counting)@ == final(writing)@,
        call_ensures(Engine::knows_nothing, (counting,), Ok(unknown)),
    ensures
        held,
        !unknown,
        final(writing)@.cache.tables.sources == old(writing)@.cache.tables.sources,
{
    let rows = final(writing)@.cache.tables.archived;
    let key = path::key(file@);
    assert(rows.contains_key(key));
    assert(rows[key].hash == digest@);
    assert(rows.dom().contains(key));
}

/// Nothing is held of an archive whose index was cleared, and it is unknown then.
pub(crate) proof fn law_a_cleared_index_holds_nothing(
    clearing: &mut Engine,
    reading: &mut Engine,
    digest: &[u8; 32],
    held: bool,
    counting: &mut Engine,
    unknown: bool,
)
    requires
        old(clearing)@.cache.exclusive,
        call_ensures(Engine::clear_archived, (clearing,), Ok(())),
        old(reading)@ == final(clearing)@,
        call_ensures(Engine::holds, (reading, digest), Ok(held)),
        old(counting)@ == final(clearing)@,
        call_ensures(Engine::knows_nothing, (counting,), Ok(unknown)),
    ensures
        !held,
        unknown,
        final(clearing)@.cache.tables.sources == old(clearing)@.cache.tables.sources,
{
}

} // verus!
