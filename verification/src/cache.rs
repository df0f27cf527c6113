//! What is known of the source files and of the archive, so that little has to be read again.
//!
//! Two tables, both disposable:
//!
//! * `sources`: what each source path looked like last run, so unchanged files can be skipped
//!   without reading them.
//! * `archived`: what is currently in the archive, so a file that already exists there (under any
//!   name, in any directory) is not copied again.
//!
//! Neither holds anything irreplaceable. Delete this database and the next run rebuilds it by
//! re-hashing; the archive itself is untouched. That is why it lives under `$XDG_CACHE_HOME` and
//! not in the archive.

use crate::path;
use crate::path::FilePath;
use crate::sqlite;
use crate::sqlite::{
    commit_or_give_up, execute_batch, execute_row, execute_text, query_count, query_path_of,
    query_paths, query_row_at, query_text, query_value,
};
use crate::text::same_text;
use rusqlite::Connection;
use vstd::prelude::*;
use vstd::utf8::*;

verus! {

/// Why the cache could not answer.
#[derive(Debug)]
pub enum CacheError {
    /// A statement failed.
    Sqlite(rusqlite::Error),
}

/// What is known of one file.
#[derive(Debug)]
pub struct Entry {
    pub path: String,
    pub size: i64,
    pub mtime: i64,
    pub hash: Vec<u8>,
}

impl View for Entry {
    type V = sqlite::EntryView;

    open spec fn view(&self) -> sqlite::EntryView {
        sqlite::EntryView {
            path: self.path@,
            row: sqlite::Row { size: self.size, mtime: self.mtime, hash: self.hash@ },
        }
    }
}

impl Entry {
    /// Heuristic: matching size and mtime means we may skip re-hashing. Deliberate archive
    /// extraction or `touch` can defeat this, which is what a future `verify --deep` is for.
    pub fn metadata_matches(&self, size: i64, mtime: i64) -> (matches: bool)
        ensures
            matches == self@.metadata_matches(size, mtime),
    {
        self.size == size && self.mtime == mtime
    }
}

/// What is known of the source files and of the archive.
pub struct Cache {
    conn: Connection,
}

impl View for Cache {
    type V = sqlite::Database;

    closed spec fn view(&self) -> sqlite::Database {
        sqlite::database(self.conn)
    }
}

/// With the id of an archive.
pub open spec fn with_id(t: sqlite::Tables, archive_id: Seq<char>) -> sqlite::Tables {
    sqlite::Tables { repo_id: Some(archive_id), ..t }
}

/// What a cache holds that is bound to an archive, where this id was found in it. One with the same id is
/// kept, one without an id gets it, and one with another id is emptied first.
pub open spec fn bound_from(
    t: sqlite::Tables,
    found: Option<Seq<char>>,
    archive_id: Seq<char>,
) -> sqlite::Tables {
    match found {
        Some(id) => if id == archive_id {
            t
        } else {
            with_id(
                sqlite::Tables { sources: Map::empty(), archived: Map::empty(), ..t },
                archive_id,
            )
        },
        None => with_id(t, archive_id),
    }
}

/// The cache of one archive holds what it held if it was the cache of that archive, and nothing if
/// it was that of another.
pub open spec fn bound(t: sqlite::Tables, archive_id: Seq<char>) -> sqlite::Tables {
    bound_from(t, t.repo_id, archive_id)
}

/// What is to be done about the archive that a cache describes.
#[derive(Debug, Clone, Copy, PartialEq, Eq)]
pub enum Binding {
    /// Nothing: it is the one.
    Keep,
    /// Record it: none is known.
    Record,
    /// Discard what is known of another one, and record it.
    ClearAndRecord,
}

/// What is to be done about the id of a cache, if one was found.
pub fn binding(stored: Option<String>, archive_id: &str) -> (b: Binding)
    ensures
        b == match stored {
            None => Binding::Record,
            Some(id) => if id@ == archive_id@ {
                Binding::Keep
            } else {
                Binding::ClearAndRecord
            },
        },
{
    match stored {
        None => Binding::Record,
        Some(id) => {
            if same_text(id.as_str(), archive_id) {
                Binding::Keep
            } else {
                Binding::ClearAndRecord
            }
        },
    }
}

/// The entry that was read, if there was one.
pub fn entry_read(found: Result<Option<sqlite::Fetched>, rusqlite::Error>) -> (entry: Result<
    Option<Entry>,
    CacheError,
>)
    ensures
        match found {
            Ok(Some(f)) => entry matches Ok(Some(e)) && e@ == sqlite::row_entry(f),
            Ok(None) => entry matches Ok(None),
            Err(e) => entry == Err::<Option<Entry>, CacheError>(CacheError::Sqlite(e)),
        },
{
    match found {
        Ok(Some((path, size, mtime, hash))) => Ok(Some(Entry { path, size, mtime, hash })),
        Ok(None) => Ok(None),
        Err(e) => Err(CacheError::Sqlite(e)),
    }
}

/// The tables after a source file was looked at.
pub open spec fn with_source(t: sqlite::Tables, e: sqlite::EntryView) -> sqlite::Tables {
    sqlite::Tables { sources: t.sources.insert(e.path, e.row), ..t }
}

/// The tables after a file was found in the archive.
pub open spec fn with_archived(t: sqlite::Tables, e: sqlite::EntryView) -> sqlite::Tables {
    sqlite::Tables { archived: t.archived.insert(e.path, e.row), ..t }
}

/// Does the archive hold this content under some name?
pub open spec fn holds(t: sqlite::Tables, hash: Seq<u8>) -> bool {
    exists|p: Seq<char>| #[trigger] t.archived.contains_key(p) && t.archived[p].hash == hash
}

/// What a statement gave, with an error of the cache's own.
pub fn checked<T>(result: Result<T, rusqlite::Error>) -> (mapped: Result<T, CacheError>)
    ensures
        match result {
            Ok(v) => mapped == Ok::<T, CacheError>(v),
            Err(e) => mapped == Err::<T, CacheError>(CacheError::Sqlite(e)),
        },
{
    match result {
        Ok(v) => Ok(v),
        Err(e) => Err(CacheError::Sqlite(e)),
    }
}

impl Cache {
    /// The cache behind a connection, for one archive.
    pub fn at_path(conn: Connection, archive_id: &str) -> (cache: Result<Cache, CacheError>)
        ensures
            match cache {
                Ok(c) => {
                    &&& c@.exclusive == sqlite::exclusive(conn)
                    &&& c@.exclusive ==> {
                        let prepared = sqlite::database(conn).with(
                            sqlite::with_cache_tables(sqlite::tables(conn)),
                        );
                        c@ == prepared.with(bound(prepared.tables, archive_id@))
                    }
                },
                Err(e) => e is Sqlite,
            },
    {
        let mut conn = conn;
        match execute_batch(&mut conn, sqlite::TUNE) {
            Ok(_) => {},
            Err(e) => {
                return Err(CacheError::Sqlite(e));
            },
        }
        Cache::prepared(conn, archive_id)
    }

    /// A cache that is forgotten when it is dropped.
    pub fn in_memory(archive_id: &str) -> (cache: Result<Cache, CacheError>)
        ensures
            match cache {
                Ok(c) => {
                    &&& c@.exclusive
                    &&& c@.tables == (sqlite::Tables {
                        repo_id: Some(archive_id@),
                        ..sqlite::with_cache_tables(sqlite::no_rows())
                    })
                    &&& c@.session.begun is None
                },
                Err(e) => e is Sqlite,
            },
    {
        match sqlite::open_in_memory() {
            Ok(conn) => Cache::prepared(conn, archive_id),
            Err(e) => Err(CacheError::Sqlite(e)),
        }
    }

    fn prepared(conn: Connection, archive_id: &str) -> (cache: Result<Cache, CacheError>)
        ensures
            match cache {
                Ok(c) => {
                    &&& c@.exclusive == sqlite::exclusive(conn)
                    &&& c@.exclusive ==> {
                        let prepared = sqlite::database(conn).with(
                            sqlite::with_cache_tables(sqlite::tables(conn)),
                        );
                        c@ == prepared.with(bound(prepared.tables, archive_id@))
                    }
                },
                Err(e) => e is Sqlite,
            },
    {
        let mut cache = Cache { conn };
        match cache.migrate() {
            Ok(_) => {},
            Err(e) => {
                return Err(e);
            },
        }
        match cache.bind_to_archive(archive_id) {
            Ok(_) => Ok(cache),
            Err(e) => Err(e),
        }
    }

    /// Create the tables that are missing.
    fn migrate(&mut self) -> (done: Result<(), CacheError>)
        ensures
            final(self)@.exclusive == old(self)@.exclusive,
            done is Ok && old(self)@.exclusive ==> final(self)@ == old(self)@.with(
                sqlite::with_cache_tables(old(self)@.tables),
            ),
            done matches Err(e) ==> e is Sqlite,
    {
        checked(execute_batch(&mut self.conn, sqlite::CREATE_CACHE))
    }

    /// Record which archive this cache describes, and discard it wholesale if it turns out to
    /// describe a different one. Being wrong here would mean skipping files the archive does not
    /// actually hold, so an id that cannot be read is an error.
    fn bind_to_archive(&mut self, archive_id: &str) -> (done: Result<(), CacheError>)
        ensures
            final(self)@.exclusive == old(self)@.exclusive,
            done is Ok && old(self)@.exclusive ==> final(self)@ == old(self)@.with(
                bound(old(self)@.tables, archive_id@),
            ),
            done matches Err(e) ==> e is Sqlite,
    {
        match query_value(&mut self.conn, sqlite::GET_REPO_ID) {
            Ok(found) => self.bind_found(found, archive_id),
            Err(e) => Err(CacheError::Sqlite(e)),
        }
    }

    /// Bind the cache to an archive, given the id that was found in it: keep it, record the id, or
    /// discard what it holds and record the id.
    pub fn bind_found(&mut self, found: Option<String>, archive_id: &str) -> (done: Result<
        (),
        CacheError,
    >)
        ensures
            final(self)@.exclusive == old(self)@.exclusive,
            done is Ok && old(self)@.exclusive ==> final(self)@ == old(self)@.with(
                bound_from(old(self)@.tables, sqlite::maybe(found), archive_id@),
            ),
            found matches Some(id) && id@ == archive_id@ ==> done is Ok && final(self)@ == old(
                self,
            )@,
            done matches Err(e) ==> e is Sqlite,
    {
        match binding(found, archive_id) {
            Binding::Keep => Ok(()),
            Binding::Record => self.set_archive_id(archive_id),
            Binding::ClearAndRecord => match execute_batch(&mut self.conn, sqlite::CLEAR_CACHE) {
                Ok(_) => self.set_archive_id(archive_id),
                Err(e) => Err(CacheError::Sqlite(e)),
            },
        }
    }

    fn set_archive_id(&mut self, archive_id: &str) -> (done: Result<(), CacheError>)
        ensures
            final(self)@.exclusive == old(self)@.exclusive,
            done is Ok && old(self)@.exclusive ==> final(self)@ == old(self)@.with(
                with_id(old(self)@.tables, archive_id@),
            ),
            done matches Err(e) ==> e is Sqlite,
    {
        checked(execute_text(&mut self.conn, sqlite::SET_REPO_ID, archive_id))
    }

    /// Begin a transaction. Without one, SQLite commits per statement, paying a durability
    /// round-trip for every file. It fails where one is open.
    pub fn transaction(&mut self) -> (done: Result<(), CacheError>)
        ensures
            final(self)@.exclusive == old(self)@.exclusive,
            done is Ok && old(self)@.exclusive ==> old(self)@.session.begun is None && final(self)@
                == old(self)@.begun(),
            done matches Err(e) ==> e is Sqlite && sqlite::undone(old(self)@, final(self)@),
    {
        checked(execute_batch(&mut self.conn, sqlite::BEGIN))
    }

    /// Keep what the transaction has done. If that fails, what it has done is given up, as far as
    /// that can be done. It fails where no transaction is open.
    pub fn commit(&mut self) -> (done: Result<(), CacheError>)
        ensures
            final(self)@.exclusive == old(self)@.exclusive,
            done is Ok && old(self)@.exclusive ==> old(self)@.session.begun is Some && final(self)@
                == old(self)@.committed(),
            done matches Err(e) ==> e is Sqlite && sqlite::undone(old(self)@, final(self)@),
    {
        checked(commit_or_give_up(&mut self.conn).0)
    }

    /// Give up what the transaction has done. It fails where none is open.
    pub fn rollback(&mut self) -> (done: Result<(), CacheError>)
        ensures
            final(self)@.exclusive == old(self)@.exclusive,
            done is Ok && old(self)@.exclusive ==> old(self)@.session.begun is Some && final(self)@
                == old(self)@.rolled_back(),
            done matches Err(e) ==> e is Sqlite && sqlite::undone(old(self)@, final(self)@),
    {
        checked(execute_batch(&mut self.conn, sqlite::ROLLBACK))
    }

    /// What a source file looked like the last time.
    pub fn lookup_source(&mut self, path: &str) -> (found: Result<Option<Entry>, CacheError>)
        ensures
            sqlite::was_read(old(self)@, final(self)@, found is Err),
            match found {
                Ok(f) => old(self)@.exclusive ==> old(self)@.tables.created.contains(
                    sqlite::Table::Sources,
                ) && sqlite::maybe(f) == sqlite::entry_at(old(self)@.tables.sources, path@),
                Err(e) => e is Sqlite,
            },
    {
        entry_read(query_row_at(&mut self.conn, sqlite::GET_SOURCE, path))
    }

    pub fn upsert_source(&mut self, entry: &Entry) -> (done: Result<(), CacheError>)
        ensures
            final(self)@.exclusive == old(self)@.exclusive,
            done is Ok && old(self)@.exclusive ==> old(self)@.tables.created.contains(
                sqlite::Table::Sources,
            ) && final(self)@ == old(self)@.with(with_source(old(self)@.tables, entry@)),
            done matches Err(e) ==> e is Sqlite && sqlite::undone(old(self)@, final(self)@),
    {
        checked(
            execute_row(
                &mut self.conn,
                sqlite::SET_SOURCE,
                entry.path.as_str(),
                entry.size,
                entry.mtime,
                entry.hash.as_slice(),
            ),
        )
    }

    pub fn remove_source(&mut self, path: &str) -> (done: Result<(), CacheError>)
        ensures
            final(self)@.exclusive == old(self)@.exclusive,
            done is Ok && old(self)@.exclusive ==> old(self)@.tables.created.contains(
                sqlite::Table::Sources,
            ) && final(self)@ == old(self)@.with(
                sqlite::Tables {
                    sources: old(self)@.tables.sources.remove(path@),
                    ..old(self)@.tables
                },
            ),
            done matches Err(e) ==> e is Sqlite && sqlite::undone(old(self)@, final(self)@),
    {
        checked(execute_text(&mut self.conn, sqlite::DELETE_SOURCE, path))
    }

    /// Every source path, in order.
    pub fn source_paths(&mut self) -> (paths: Result<Vec<String>, CacheError>)
        ensures
            sqlite::was_read(old(self)@, final(self)@, paths is Err),
            match paths {
                Ok(p) => old(self)@.exclusive ==> sqlite::paths_listed(
                    sqlite::texts(p@),
                    old(self)@.tables,
                    sqlite::Table::Sources,
                ),
                Err(e) => e is Sqlite,
            },
    {
        checked(query_paths(&mut self.conn, sqlite::LIST_SOURCES))
    }

    /// The archive that the cache describes. It fails where the cache was never bound to one.
    pub fn archive_id(&mut self) -> (id: Result<String, CacheError>)
        ensures
            sqlite::was_read(old(self)@, final(self)@, id is Err),
            match id {
                Ok(i) => old(self)@.exclusive ==> old(self)@.tables.created.contains(
                    sqlite::Table::Meta,
                ) && old(self)@.tables.repo_id == Some(i@),
                Err(e) => e is Sqlite,
            },
    {
        checked(query_text(&mut self.conn, sqlite::GET_REPO_ID))
    }

    /// Where in the archive this content already lives, if anywhere.
    ///
    /// Looked up by hash rather than by path, which is what makes manual reorganisation safe:
    /// rename `pics/2023` to `pics/2023-hawaii` by hand and the next run still recognises every
    /// file in it.
    pub fn find_by_hash(&mut self, hash: &[u8]) -> (found: Result<Option<String>, CacheError>)
        ensures
            sqlite::was_read(old(self)@, final(self)@, found is Err),
            match found {
                Ok(Some(p)) => old(self)@.exclusive ==> old(self)@.tables.archived.contains_key(p@)
                    && old(self)@.tables.archived[p@].hash == hash@,
                Ok(None) => old(self)@.exclusive ==> !holds(old(self)@.tables, hash@),
                Err(e) => e is Sqlite,
            },
            found matches Ok(f) ==> old(self)@.exclusive ==> old(self)@.tables.created.contains(
                sqlite::Table::Archived,
            ) && (f is Some <==> holds(old(self)@.tables, hash@)),
    {
        checked(query_path_of(&mut self.conn, sqlite::FIND_ARCHIVED, hash))
    }

    pub fn record_archived(&mut self, entry: &Entry) -> (done: Result<(), CacheError>)
        ensures
            final(self)@.exclusive == old(self)@.exclusive,
            done is Ok && old(self)@.exclusive ==> old(self)@.tables.created.contains(
                sqlite::Table::Archived,
            ) && final(self)@ == old(self)@.with(with_archived(old(self)@.tables, entry@)),
            done matches Err(e) ==> e is Sqlite && sqlite::undone(old(self)@, final(self)@),
    {
        checked(
            execute_row(
                &mut self.conn,
                sqlite::SET_ARCHIVED,
                entry.path.as_str(),
                entry.size,
                entry.mtime,
                entry.hash.as_slice(),
            ),
        )
    }

    /// Full row for one archived path, for verification and tests.
    pub fn archived_entry(&mut self, path: &str) -> (found: Result<Option<Entry>, CacheError>)
        ensures
            sqlite::was_read(old(self)@, final(self)@, found is Err),
            match found {
                Ok(f) => old(self)@.exclusive ==> old(self)@.tables.created.contains(
                    sqlite::Table::Archived,
                ) && sqlite::maybe(f) == sqlite::entry_at(old(self)@.tables.archived, path@),
                Err(e) => e is Sqlite,
            },
    {
        entry_read(query_row_at(&mut self.conn, sqlite::GET_ARCHIVED, path))
    }

    pub fn archived_count(&mut self) -> (count: Result<i64, CacheError>)
        ensures
            sqlite::was_read(old(self)@, final(self)@, count is Err),
            match count {
                Ok(n) => old(self)@.exclusive ==> old(self)@.tables.created.contains(
                    sqlite::Table::Archived,
                ) && old(self)@.tables.archived.dom().finite() && n
                    == old(self)@.tables.archived.len(),
                Err(e) => e is Sqlite,
            },
    {
        checked(query_count(&mut self.conn, sqlite::COUNT_ARCHIVED))
    }

    /// Every archived path, in order.
    pub fn archived_paths(&mut self) -> (paths: Result<Vec<String>, CacheError>)
        ensures
            sqlite::was_read(old(self)@, final(self)@, paths is Err),
            match paths {
                Ok(p) => old(self)@.exclusive ==> sqlite::paths_listed(
                    sqlite::texts(p@),
                    old(self)@.tables,
                    sqlite::Table::Archived,
                ),
                Err(e) => e is Sqlite,
            },
    {
        checked(query_paths(&mut self.conn, sqlite::LIST_ARCHIVED))
    }

    /// Drop every archived row, for a full reindex.
    pub fn clear_archived(&mut self) -> (done: Result<(), CacheError>)
        ensures
            final(self)@.exclusive == old(self)@.exclusive,
            done is Ok && old(self)@.exclusive ==> old(self)@.tables.created.contains(
                sqlite::Table::Archived,
            ) && final(self)@ == old(self)@.with(
                sqlite::Tables { archived: Map::empty(), ..old(self)@.tables },
            ),
            done matches Err(e) ==> e is Sqlite && sqlite::undone(old(self)@, final(self)@),
    {
        checked(execute_batch(&mut self.conn, sqlite::CLEAR_ARCHIVED))
    }
}

// ---------------------------------------------------------------------------------------------
// Where the cache lives.
// ---------------------------------------------------------------------------------------------

/// The directory of all caches, given `$XDG_CACHE_HOME` and `$HOME`.
pub open spec fn root_of(xdg_cache_home: Option<Seq<u8>>, home: Option<Seq<u8>>) -> Seq<u8> {
    let base = match xdg_cache_home {
        Some(dir) if dir.len() > 0 => dir,
        _ => match home {
            Some(h) => path::join(h, encode_utf8(".cache"@)),
            None => encode_utf8("/tmp"@),
        },
    };
    path::join(base, encode_utf8("thylacine"@))
}

/// A path that may be missing, as bytes.
pub open spec fn path_view(p: Option<FilePath>) -> Option<Seq<u8>> {
    match p {
        Some(f) => Some(f@),
        None => None,
    }
}

/// `$XDG_CACHE_HOME/thylacine`, falling back to `$HOME/.cache/thylacine`.
pub fn cache_root(xdg_cache_home: Option<FilePath>, home: Option<FilePath>) -> (root: FilePath)
    ensures
        root@ == root_of(path_view(xdg_cache_home), path_view(home)),
{
    let base = match xdg_cache_home {
        Some(dir) if dir.as_bytes().len() > 0 => dir,
        _ => match home {
            Some(h) => h.join(&FilePath::from_text(".cache")),
            None => FilePath::from_text("/tmp"),
        },
    };
    base.join(&FilePath::from_text("thylacine"))
}

/// The directory that holds the cache of one archive.
///
/// Keyed on the archive's stable id rather than its path, so an external drive mounted at a
/// different point keeps its cache.
pub fn cache_dir(root: &FilePath, archive_id: &str) -> (dir: FilePath)
    ensures
        dir@ == path::join(root@, encode_utf8(archive_id@)),
{
    root.join(&FilePath::from_text(archive_id))
}

/// The database file in the directory of a cache.
pub fn index_path(dir: &FilePath) -> (index: FilePath)
    ensures
        index@ == path::join(dir@, encode_utf8("index.db"@)),
{
    dir.join(&FilePath::from_text("index.db"))
}

// ---------------------------------------------------------------------------------------------
// Laws.
// ---------------------------------------------------------------------------------------------

/// What was recorded of a source file is what is found of it, and nothing else is changed.
pub proof fn law_lookup_after_upsert(t: sqlite::Tables, e: sqlite::EntryView, other: Seq<char>)
    ensures
        sqlite::entry_at(with_source(t, e).sources, e.path) == Some(e),
        other != e.path ==> sqlite::entry_at(with_source(t, e).sources, other) == sqlite::entry_at(
            t.sources,
            other,
        ),
        with_source(t, e).archived == t.archived,
        with_source(t, e).repo_id == t.repo_id,
{
}

/// Recording a source file again replaces what was recorded of it.
pub proof fn law_upsert_replaces(t: sqlite::Tables, e: sqlite::EntryView, f: sqlite::EntryView)
    requires
        e.path == f.path,
    ensures
        with_source(with_source(t, e), f) == with_source(t, f),
        with_archived(with_archived(t, e), f) == with_archived(t, f),
{
    assert(with_source(with_source(t, e), f) =~= with_source(t, f));
    assert(with_archived(with_archived(t, e), f) =~= with_archived(t, f));
}

/// Removing a source path forgets it, and no other.
pub proof fn law_removed_is_forgotten(t: sqlite::Tables, p: Seq<char>, other: Seq<char>)
    ensures
        sqlite::entry_at(t.sources.remove(p), p) is None,
        other != p ==> sqlite::entry_at(t.sources.remove(p), other) == sqlite::entry_at(
            t.sources,
            other,
        ),
{
}

/// Archived content is found by its hash, whatever it is called, and stays found as more is
/// recorded under other names.
pub proof fn law_found_by_hash_not_path(
    t: sqlite::Tables,
    e: sqlite::EntryView,
    f: sqlite::EntryView,
)
    ensures
        holds(with_archived(t, e), e.row.hash),
        f.path != e.path ==> holds(with_archived(with_archived(t, e), f), e.row.hash),
{
    assert(with_archived(t, e).archived.contains_key(e.path));
    assert(with_archived(with_archived(t, e), f).archived.contains_key(e.path));
}

/// The cache of a different archive is discarded wholesale; that of the same archive is kept. A cache that
/// was bound to `a` and then got any rows, of source files and of archived ones, still holds them when it
/// is bound to `a` again, and holds none when it is bound to another archive.
pub proof fn law_a_cache_describes_one_archive(t: sqlite::Tables, a: Seq<char>, b: Seq<char>)
    requires
        t.repo_id == Some(a),
    ensures
        bound(t, a) == t,
        bound(t, b).repo_id == Some(b),
        a != b ==> bound(t, b).sources == Map::<Seq<char>, sqlite::Row>::empty()
            && bound(t, b).archived == Map::<Seq<char>, sqlite::Row>::empty(),
{
}

/// Binding gives a cache the id of the archive, and what is recorded then does not change it.
pub proof fn law_a_cache_stays_bound(t: sqlite::Tables, a: Seq<char>, e: sqlite::EntryView)
    ensures
        bound(t, a).repo_id == Some(a),
        with_source(bound(t, a), e).repo_id == Some(a),
        with_archived(bound(t, a), e).repo_id == Some(a),
{
}

/// What a transaction has done is given up as a whole, or kept as a whole.
pub proof fn law_a_transaction_is_all_or_nothing(db: sqlite::Database, t: sqlite::Tables)
    ensures
        db.begun().with(t).rolled_back().tables == db.tables,
        db.begun().with(t).committed().tables == t,
        db.begun().with(t).rolled_back().session.begun is None,
        db.begun().with(t).committed().session.begun is None,
{
}

/// The order of texts is a strict one: no text comes before itself.
proof fn lemma_before_irreflexive(a: Seq<char>)
    ensures
        !sqlite::before(a, a),
    decreases a.len(),
{
    if a.len() > 0 {
        lemma_before_irreflexive(a.drop_first());
    }
}

/// A list of keys names no path twice.
pub proof fn law_paths_are_listed_once(listed: Seq<Seq<char>>, rows: Map<Seq<char>, sqlite::Row>)
    requires
        sqlite::lists_keys(listed, rows),
    ensures
        listed.no_duplicates(),
        listed.to_set() =~= rows.dom(),
{
    assert forall|i: int, j: int| 0 <= i < listed.len() && 0 <= j < listed.len() && i != j implies
        listed[i] != listed[j] by {
        lemma_before_irreflexive(listed[i]);
        if i < j {
            assert(sqlite::before(listed[i], listed[j]));
        } else {
            assert(sqlite::before(listed[j], listed[i]));
        }
    }
}

// ---------------------------------------------------------------------------------------------
// What one call makes of another.
// ---------------------------------------------------------------------------------------------

/// What is recorded of a source file is what is found of it, field by field, and what is found of any
/// other source file, and of the archive, is what was found before.
pub proof fn law_a_source_is_found_as_it_was_recorded(
    writing: &mut Cache,
    entry: &Entry,
    reading: &mut Cache,
    before: &mut Cache,
    path: &str,
    found: Option<Entry>,
    known: Option<Entry>,
)
    requires
        old(writing)@.exclusive,
        call_ensures(Cache::upsert_source, (writing, entry), Ok(())),
        old(reading)@ == final(writing)@,
        call_ensures(Cache::lookup_source, (reading, path), Ok(found)),
        old(before)@ == old(writing)@,
        call_ensures(Cache::lookup_source, (before, path), Ok(known)),
    ensures
        path@ == entry.path@ ==> (found matches Some(e) && e.path@ == entry.path@ && e.size
            == entry.size && e.mtime == entry.mtime && e.hash@ == entry.hash@),
        path@ != entry.path@ ==> (found is Some <==> known is Some) && (found matches Some(e)
            ==> e.path@ == path@ && e.path@ == known->0.path@ && e.size == known->0.size && e.mtime
            == known->0.mtime && e.hash@ == known->0.hash@),
        final(writing)@.tables.archived == old(writing)@.tables.archived,
        final(writing)@.tables.repo_id == old(writing)@.tables.repo_id,
{
    if let Some(e) = found {
        assert(e@ == sqlite::maybe(found)->0);
    }
    if let Some(e) = known {
        assert(e@ == sqlite::maybe(known)->0);
    }
}

/// The same of archived files. Besides, the content of a recorded file is found by its hash, whatever the
/// file is called, and a content that was found before and is not on the replaced row is found still.
pub proof fn law_an_archived_file_is_found_as_it_was_recorded(
    writing: &mut Cache,
    entry: &Entry,
    reading: &mut Cache,
    before: &mut Cache,
    path: &str,
    found: Option<Entry>,
    known: Option<Entry>,
    asking: &mut Cache,
    hash: &[u8],
    place: Option<String>,
)
    requires
        old(writing)@.exclusive,
        call_ensures(Cache::record_archived, (writing, entry), Ok(())),
        old(reading)@ == final(writing)@,
        call_ensures(Cache::archived_entry, (reading, path), Ok(found)),
        old(before)@ == old(writing)@,
        call_ensures(Cache::archived_entry, (before, path), Ok(known)),
        old(asking)@ == final(writing)@,
        call_ensures(Cache::find_by_hash, (asking, hash), Ok(place)),
    ensures
        path@ == entry.path@ ==> (found matches Some(e) && e.path@ == entry.path@ && e.size
            == entry.size && e.mtime == entry.mtime && e.hash@ == entry.hash@),
        path@ != entry.path@ ==> (found is Some <==> known is Some) && (found matches Some(e)
            ==> e.path@ == path@ && e.path@ == known->0.path@ && e.size == known->0.size && e.mtime
            == known->0.mtime && e.hash@ == known->0.hash@),
        final(writing)@.tables.sources == old(writing)@.tables.sources,
        hash@ == entry.hash@ ==> place is Some,
        known matches Some(k) ==> path@ != entry.path@ && hash@ == k.hash@ ==> place is Some,
        place matches Some(p) ==> p@ == path@ ==> (found matches Some(e) && e.hash@ == hash@),
{
    let t = final(writing)@.tables;
    if let Some(e) = found {
        assert(e@ == sqlite::maybe(found)->0);
    }
    if let Some(e) = known {
        assert(e@ == sqlite::maybe(known)->0);
        assert(old(writing)@.tables.archived.contains_key(path@));
        assert(path@ != entry.path@ ==> t.archived.contains_key(path@));
    }
    assert(t.archived.contains_key(entry@.path));
}

/// A source file that was removed is not found, and any other one is found as before.
pub proof fn law_a_removed_source_is_not_found(
    writing: &mut Cache,
    removed: &str,
    reading: &mut Cache,
    before: &mut Cache,
    path: &str,
    found: Option<Entry>,
    known: Option<Entry>,
)
    requires
        old(writing)@.exclusive,
        call_ensures(Cache::remove_source, (writing, removed), Ok(())),
        old(reading)@ == final(writing)@,
        call_ensures(Cache::lookup_source, (reading, path), Ok(found)),
        old(before)@ == old(writing)@,
        call_ensures(Cache::lookup_source, (before, path), Ok(known)),
    ensures
        path@ == removed@ ==> found is None,
        path@ != removed@ ==> (found is Some <==> known is Some) && (found matches Some(e)
            ==> e.size == known->0.size && e.mtime == known->0.mtime && e.hash@
            == known->0.hash@),
        final(writing)@.tables.archived == old(writing)@.tables.archived,
{
    if let Some(e) = found {
        assert(e@ == sqlite::maybe(found)->0);
    }
    if let Some(e) = known {
        assert(e@ == sqlite::maybe(known)->0);
    }
}

/// When the index was cleared, no archived file and no content is found, none is listed or counted, and
/// what is known of the source files is what it was.
pub proof fn law_a_cleared_index_is_empty(
    writing: &mut Cache,
    reading: &mut Cache,
    path: &str,
    found: Option<Entry>,
    asking: &mut Cache,
    hash: &[u8],
    place: Option<String>,
    counting: &mut Cache,
    count: i64,
    listing: &mut Cache,
    paths: Vec<String>,
)
    requires
        old(writing)@.exclusive,
        call_ensures(Cache::clear_archived, (writing,), Ok(())),
        old(reading)@ == final(writing)@,
        call_ensures(Cache::archived_entry, (reading, path), Ok(found)),
        old(asking)@ == final(writing)@,
        call_ensures(Cache::find_by_hash, (asking, hash), Ok(place)),
        old(counting)@ == final(writing)@,
        call_ensures(Cache::archived_count, (counting,), Ok(count)),
        old(listing)@ == final(writing)@,
        call_ensures(Cache::archived_paths, (listing,), Ok(paths)),
    ensures
        found is None,
        place is None,
        count == 0,
        paths@.len() == 0,
        final(writing)@.tables.sources == old(writing)@.tables.sources,
{
    let t = final(writing)@.tables;
    assert(t.archived.dom() =~= Set::<Seq<char>>::empty());
    if paths@.len() > 0 {
        assert(sqlite::texts(paths@).contains(sqlite::texts(paths@)[0]));
        assert(t.archived.contains_key(sqlite::texts(paths@)[0]));
    }
}

/// The paths that are listed are those that are found, each once.
pub proof fn law_what_is_listed_is_found(
    listing: &mut Cache,
    paths: Vec<String>,
    reading: &mut Cache,
    path: &str,
    found: Option<Entry>,
)
    requires
        old(listing)@.exclusive,
        old(reading)@ == old(listing)@,
        call_ensures(Cache::source_paths, (listing,), Ok(paths)) && call_ensures(
            Cache::lookup_source,
            (reading, path),
            Ok(found),
        ) || call_ensures(Cache::archived_paths, (listing,), Ok(paths)) && call_ensures(
            Cache::archived_entry,
            (reading, path),
            Ok(found),
        ),
    ensures
        found is Some <==> exists|i: int| 0 <= i < paths@.len() && (#[trigger] paths@[i])@ == path@,
        forall|i: int, j: int|
            0 <= i < j < paths@.len() ==> (#[trigger] paths@[i])@ != (#[trigger] paths@[j])@,
{
    let listed = sqlite::texts(paths@);
    let rows = if call_ensures(Cache::source_paths, (listing,), Ok(paths)) && call_ensures(
        Cache::lookup_source,
        (reading, path),
        Ok(found),
    ) {
        old(listing)@.tables.sources
    } else {
        old(listing)@.tables.archived
    };
    law_paths_are_listed_once(listed, rows);
    assert(listed.contains(path@) <==> rows.contains_key(path@));
    if rows.contains_key(path@) {
        let i = choose|i: int| 0 <= i < listed.len() && listed[i] == path@;
        assert(paths@[i]@ == path@);
    }
    assert forall|i: int, j: int| 0 <= i < j < paths@.len() implies (#[trigger] paths@[i])@ != (
    #[trigger] paths@[j])@ by {
        assert(listed[i] != listed[j]);
    }
    if exists|i: int| 0 <= i < paths@.len() && (#[trigger] paths@[i])@ == path@ {
        let i = choose|i: int| 0 <= i < paths@.len() && (#[trigger] paths@[i])@ == path@;
        assert(listed[i] == path@);
    }
}

/// A transaction that is given up has not been: everything is as it was when it began. One that is
/// committed stays.
pub proof fn law_giving_up_restores_what_was(
    beginning: &mut Cache,
    ending: &mut Cache,
)
    requires
        old(beginning)@.exclusive,
        call_ensures(Cache::transaction, (beginning,), Ok(())),
        old(ending)@.exclusive,
        old(ending)@.session.begun == final(beginning)@.session.begun,
    ensures
        final(beginning)@.tables == old(beginning)@.tables,
        call_ensures(Cache::rollback, (ending,), Ok(())) ==> final(ending)@.tables
            == old(beginning)@.tables && final(ending)@.session.begun is None,
        call_ensures(Cache::commit, (ending,), Ok(())) ==> final(ending)@.tables == old(
            ending,
        )@.tables && final(ending)@.session.begun is None,
{
}

/// A cache that is opened for the archive that it describes, or that describes none, holds what it held.
/// Opened for another one it holds nothing, of source files or of archived ones. Either way it
/// describes that archive then.
pub proof fn law_a_cache_of_another_archive_is_empty(
    conn: Connection,
    archive_id: &str,
    cache: Cache,
    reading: &mut Cache,
    id: String,
)
    requires
        sqlite::exclusive(conn),
        call_ensures(Cache::at_path, (conn, archive_id), Ok(cache)),
    ensures
        sqlite::tables(conn).repo_id is None || sqlite::tables(conn).repo_id == Some(
            archive_id@,
        ) ==> cache@.tables.sources
            == sqlite::tables(conn).sources && cache@.tables.archived == sqlite::tables(
            conn,
        ).archived,
        sqlite::tables(conn).repo_id is Some && sqlite::tables(conn).repo_id != Some(
            archive_id@,
        ) ==> forall|k: Seq<char>|
            !cache@.tables.sources.contains_key(k) && !cache@.tables.archived.contains_key(k),
        old(reading)@ == cache@ && call_ensures(Cache::archive_id, (reading,), Ok(id)) ==> id@
            == archive_id@,
{
}

/// Whatever id was found in a cache, it describes the archive afterwards that it is bound to. Its rows
/// stay, unless the id was that of another archive: then none is left.
pub proof fn law_only_a_foreign_cache_is_emptied(
    cache: &mut Cache,
    found: Option<String>,
    archive_id: &str,
)
    requires
        old(cache)@.exclusive,
        old(cache)@.tables.repo_id == sqlite::maybe(found),
        call_ensures(Cache::bind_found, (cache, found, archive_id), Ok(())),
    ensures
        final(cache)@.tables.repo_id == Some(archive_id@),
        (found matches Some(id) ==> id@ == archive_id@) ==> final(cache)@.tables.sources == old(
            cache,
        )@.tables.sources && final(cache)@.tables.archived == old(cache)@.tables.archived,
        (found matches Some(id) && id@ != archive_id@) ==> final(cache)@.tables.sources
            == Map::<Seq<char>, sqlite::Row>::empty() && final(cache)@.tables.archived == Map::<
            Seq<char>,
            sqlite::Row,
        >::empty(),
        final(cache)@.session == old(cache)@.session,
{
}

/// A new cache holds nothing, and describes the archive that it was made for.
pub proof fn law_a_new_cache_is_empty(archive_id: &str, cache: Cache)
    requires
        call_ensures(Cache::in_memory, (archive_id,), Ok(cache)),
    ensures
        cache@.tables.repo_id == Some(archive_id@),
        forall|k: Seq<char>|
            !cache@.tables.sources.contains_key(k) && !cache@.tables.archived.contains_key(k),
{
}

/// Size and time match exactly if both are equal to what is known.
pub proof fn law_metadata_matches_in_both(entry: &Entry, size: i64, mtime: i64, same: bool)
    requires
        call_ensures(Entry::metadata_matches, (entry, size, mtime), same),
    ensures
        same <==> entry.size == size && entry.mtime == mtime,
{
}

/// The caches live in `thylacine` beneath `$XDG_CACHE_HOME`, if that is set and not empty; else in
/// `.cache/thylacine` beneath `$HOME`, if that is set; else beneath `/tmp`. The database of an archive is
/// `index.db` in the directory there that bears the id of the archive.
pub proof fn law_the_cache_lives_in_the_cache_directory(
    xdg: Option<FilePath>,
    home: Option<FilePath>,
    root: FilePath,
    id: &str,
    dir: FilePath,
    index: FilePath,
)
    requires
        call_ensures(cache_root, (xdg, home), root),
        call_ensures(cache_dir, (&root, id), dir),
        call_ensures(index_path, (&dir,), index),
        forall|i: int| 0 <= i < id@.len() ==> '0' <= #[trigger] id@[i] <= 'f' && id@[i] != '/',
        id@.len() > 2,
    ensures
        ({
            let base = match (xdg, home) {
                (Some(x), _) if x@.len() > 0 => path::components(x@),
                (_, Some(h)) => if h@.len() > 0 {
                    path::components(h@).push(encode_utf8(".cache"@))
                } else {
                    seq![encode_utf8(".cache"@)]
                },
                _ => seq![seq![path::SLASH], encode_utf8("tmp"@)],
            };
            &&& path::components(root@) == base.push(encode_utf8("thylacine"@))
            &&& path::components(dir@) == path::components(root@).push(encode_utf8(id@))
            &&& path::components(index@) == path::components(dir@).push(encode_utf8("index.db"@))
        }),
{
    reveal_strlit(".cache");
    reveal_strlit("/tmp");
    reveal_strlit("tmp");
    reveal_strlit("thylacine");
    reveal_strlit("index.db");
    lemma_plain_name(".cache"@);
    lemma_plain_name("tmp"@);
    lemma_plain_name("thylacine"@);
    lemma_plain_name("index.db"@);
    lemma_plain_name(id@);
    let name = encode_utf8("thylacine"@);
    let base = match (xdg, home) {
        (Some(x), _) if x@.len() > 0 => x@,
        (_, Some(h)) => path::join(h@, encode_utf8(".cache"@)),
        _ => encode_utf8("/tmp"@),
    };
    let tmp = encode_utf8("tmp"@);
    let slash = seq![path::SLASH];
    is_ascii_chars_encode_utf8("/tmp"@);
    is_ascii_chars_encode_utf8("tmp"@);
    assert(encode_utf8("/tmp"@) =~= path::join(slash, tmp));
    assert(path::components(slash) =~= seq![slash]) by {
        assert(path::spans_from(slash, 1, false) =~= Seq::<(int, int)>::empty());
        assert(slash.subrange(0, 1) =~= slash);
    }
    lemma_named_below(slash, tmp);
    assert(seq![slash].push(tmp) =~= seq![slash, tmp]);
    if let Some(h) = home {
        lemma_named_below(h@, encode_utf8(".cache"@));
    }
    assert(base.len() > 0);
    lemma_named_below(base, name);
    assert(root@.len() > 0);
    lemma_named_below(root@, encode_utf8(id@));
    lemma_named_below(dir@, encode_utf8("index.db"@));
}

/// A word without `/` that is longer than two characters is a name.
proof fn lemma_plain_name(t: Seq<char>)
    requires
        t.len() > 2,
        forall|i: int| 0 <= i < t.len() ==> '.' <= #[trigger] t[i] <= 'z' && t[i] != '/',
    ensures
        encode_utf8(t).len() == t.len(),
        path::components(encode_utf8(t)) == seq![encode_utf8(t)],
        !path::is_absolute(encode_utf8(t)),
        encode_utf8(t) != path::cur_dir(),
{
    let b = encode_utf8(t);
    assert(is_ascii_chars(t));
    is_ascii_chars_encode_utf8(t);
    assert forall|i: int| 0 <= i < b.len() implies b[i] != path::SLASH by {
        assert(t[i] as u8 == b[i]);
    }
    path::lemma_single_component(b);
}

proof fn lemma_named_below(dir: Seq<u8>, name: Seq<u8>)
    requires
        path::components(name) == seq![name],
        !path::is_absolute(name),
        name != path::cur_dir(),
    ensures
        dir.len() > 0 ==> path::components(path::join(dir, name)) == path::components(dir).push(
            name,
        ),
        dir.len() == 0 ==> path::components(path::join(dir, name)) == seq![name],
        path::join(dir, name).len() >= name.len(),
{
    if dir.len() > 0 {
        path::lemma_join_components(dir, name);
        assert(path::components(dir) + seq![name] =~= path::components(dir).push(name));
    } else {
        assert(path::join(dir, name) =~= name);
    }
}

} // verus!
