//! The SQLite statements that the cache and the catalog are made of, and what they do.
//!
//! A connection is opaque. What its database holds is [`tables`], and [`session`] is the state of
//! the connection itself. Both mean something only of a connection that is [`exclusive`]: where
//! another program can write to the same file, a statement can find anything. Any statement may
//! also fail, for want of memory or of disk space. A single statement that fails is [`undone`], also one
//! that only reads; of several statements in one text some may have been run by then, and nothing is
//! claimed of the tables. A statement about a table that there is not always fails, so where one succeeds
//! its table is there.

use rusqlite::Connection;
use vstd::prelude::*;

verus! {

/// `rusqlite::Connection`, a connection to an SQLite database.
#[verifier::external_type_specification]
#[verifier::external_body]
pub struct ExConnection(rusqlite::Connection);

/// `rusqlite::Error`, the reason why a statement failed.
#[verifier::external_type_specification]
#[verifier::external_body]
pub struct ExError(rusqlite::Error);

/// What a row says of the file that it is kept under.
pub struct Row {
    pub size: i64,
    pub mtime: i64,
    pub hash: Seq<u8>,
}

/// The tables that a database may have.
pub enum Table {
    Meta,
    Sources,
    Archived,
    Contents,
    Files,
}

/// What is known of one file: the path, as a text, and the row that is kept under it.
pub struct EntryView {
    pub path: Seq<char>,
    pub row: Row,
}

impl EntryView {
    /// Do size and modification time match?
    pub open spec fn metadata_matches(self, size: i64, mtime: i64) -> bool {
        self.row.size == size && self.row.mtime == mtime
    }
}

/// What the rows say of a path.
pub open spec fn entry_at(rows: Map<Seq<char>, Row>, path: Seq<char>) -> Option<EntryView> {
    if rows.contains_key(path) {
        Some(EntryView { path, row: rows[path] })
    } else {
        None
    }
}

/// A value that may be missing, by its view.
pub open spec fn maybe<T: View>(found: Option<T>) -> Option<T::V> {
    match found {
        Some(v) => Some(v@),
        None => None,
    }
}

/// What a database holds: the tables that were created, and the rows of each by their primary keys.
/// A table that was not created yet counts as empty; a statement about it fails.
#[verifier::ext_equal]
pub struct Tables {
    /// The tables that there are.
    pub created: Set<Table>,
    /// The value of the row `repo_id` of `meta`.
    pub repo_id: Option<Seq<char>>,
    pub sources: Map<Seq<char>, Row>,
    pub archived: Map<Seq<char>, Row>,
    pub contents: Map<Seq<u8>, i64>,
    pub files: Map<Seq<char>, Row>,
}

/// What a connection has set or begun.
pub struct Session {
    /// What the database held when the open transaction began, if one is open.
    pub begun: Option<Tables>,
    /// Are foreign keys enforced?
    pub foreign_keys: bool,
}

/// What the database of a connection holds.
pub uninterp spec fn tables(conn: rusqlite::Connection) -> Tables;

/// The state of a connection.
pub uninterp spec fn session(conn: rusqlite::Connection) -> Session;

/// Is this connection the only access to its database, and has the database been written by no
/// statements but those of this module?
pub uninterp spec fn exclusive(conn: rusqlite::Connection) -> bool;

/// A connection with all that is known of it. The tables and the session mean something only where
/// nothing else can write to the database.
pub struct Database {
    pub exclusive: bool,
    pub tables: Tables,
    pub session: Session,
}

/// What is known of a connection.
pub open spec fn database(conn: rusqlite::Connection) -> Database {
    Database { exclusive: exclusive(conn), tables: tables(conn), session: session(conn) }
}

impl Database {
    /// With other rows.
    pub open spec fn with(self, tables: Tables) -> Database {
        Database { tables, ..self }
    }

    /// With a transaction open.
    pub open spec fn begun(self) -> Database {
        Database { session: Session { begun: Some(self.tables), ..self.session }, ..self }
    }

    /// With the transaction closed, and its changes kept.
    pub open spec fn committed(self) -> Database {
        Database { session: Session { begun: None, ..self.session }, ..self }
    }

    /// With the transaction closed, and its changes given up.
    pub open spec fn rolled_back(self) -> Database {
        Database {
            tables: match self.session.begun {
                Some(saved) => saved,
                None => self.tables,
            },
            session: Session { begun: None, ..self.session },
            ..self
        }
    }
}

/// A statement that fails is undone. Some failures undo the whole transaction with it.
pub open spec fn undone(was: Database, is: Database) -> bool {
    &&& is.exclusive == was.exclusive
    &&& was.exclusive ==> is == was || is == was.rolled_back()
}

/// Reading leaves a database as it is. A read that fails may undo the whole transaction.
pub open spec fn was_read(was: Database, is: Database, failed: bool) -> bool {
    if failed {
        undone(was, is)
    } else {
        becomes(was, is, was)
    }
}

/// A database becomes another one, as far as anything can be said of it.
pub open spec fn becomes(was: Database, is: Database, to: Database) -> bool {
    &&& is.exclusive == was.exclusive
    &&& was.exclusive ==> is == to
}

/// A database that holds nothing.
pub open spec fn no_rows() -> Tables {
    Tables {
        created: Set::empty(),
        repo_id: None,
        sources: Map::empty(),
        archived: Map::empty(),
        contents: Map::empty(),
        files: Map::empty(),
    }
}

/// With the tables of the cache, which hold what they held.
pub open spec fn with_cache_tables(t: Tables) -> Tables {
    Tables {
        created: t.created.insert(Table::Meta).insert(Table::Sources).insert(Table::Archived),
        ..t
    }
}

/// With the tables of the catalog, which hold what they held.
pub open spec fn with_catalog_tables(t: Tables) -> Tables {
    Tables { created: t.created.insert(Table::Contents).insert(Table::Files), ..t }
}

/// Is this the order of the two texts by their characters?
pub open spec fn before(a: Seq<char>, b: Seq<char>) -> bool
    decreases a.len(),
{
    if b.len() == 0 {
        false
    } else if a.len() == 0 {
        true
    } else {
        a[0] < b[0] || (a[0] == b[0] && before(a.drop_first(), b.drop_first()))
    }
}

/// Are these all the keys, each once, in the order of their characters?
pub open spec fn lists_keys(listed: Seq<Seq<char>>, rows: Map<Seq<char>, Row>) -> bool {
    &&& forall|i: int| 0 <= i < listed.len() ==> rows.contains_key(#[trigger] listed[i])
    &&& forall|k: Seq<char>| #[trigger] rows.contains_key(k) ==> listed.contains(k)
    &&& forall|i: int, j: int|
        0 <= i < j < listed.len() ==> before(#[trigger] listed[i], #[trigger] listed[j])
}

/// What a list of strings says.
pub open spec fn texts(list: Seq<String>) -> Seq<Seq<char>> {
    list.map_values(|s: String| s@)
}

/// A row as it is read: path, size, modification time, hash.
pub type Fetched = (String, i64, i64, Vec<u8>);

/// What a row that was read says of its file.
pub open spec fn row_entry(f: Fetched) -> EntryView {
    EntryView { path: f.0@, row: row_of(f) }
}

/// What a row that was read says.
pub open spec fn row_of(f: Fetched) -> Row {
    Row { size: f.1, mtime: f.2, hash: f.3@ }
}

pub const BEGIN: &'static str = "BEGIN DEFERRED";

pub const COMMIT: &'static str = "COMMIT";

pub const ROLLBACK: &'static str = "ROLLBACK";

pub const TUNE: &'static str = "PRAGMA journal_mode = WAL;
PRAGMA synchronous = NORMAL;";

pub const ENFORCE_FOREIGN_KEYS: &'static str = "PRAGMA foreign_keys = ON;";

pub const CREATE_CACHE: &'static str = "CREATE TABLE IF NOT EXISTS meta (
    key   TEXT PRIMARY KEY,
    value TEXT NOT NULL
);

-- One row per source file, from the last time we looked at it.
CREATE TABLE IF NOT EXISTS sources (
    path  TEXT PRIMARY KEY,
    size  INTEGER NOT NULL,
    mtime INTEGER NOT NULL,
    hash  BLOB NOT NULL
);

-- One row per file living in the archive, path relative to its root. The hash index is what
-- answers 'do I already have this content somewhere?' regardless of where it was filed.
CREATE TABLE IF NOT EXISTS archived (
    path  TEXT PRIMARY KEY,
    size  INTEGER NOT NULL,
    mtime INTEGER NOT NULL,
    hash  BLOB NOT NULL
);

CREATE INDEX IF NOT EXISTS sources_hash  ON sources(hash);
CREATE INDEX IF NOT EXISTS archived_hash ON archived(hash);";

pub const CREATE_CATALOG: &'static str = "CREATE TABLE IF NOT EXISTS contents (
    hash BLOB PRIMARY KEY,
    size INTEGER NOT NULL
);

CREATE TABLE IF NOT EXISTS files (
    path  TEXT PRIMARY KEY,
    size  INTEGER NOT NULL,
    mtime INTEGER NOT NULL,
    hash  BLOB NOT NULL REFERENCES contents (hash)
);

CREATE INDEX IF NOT EXISTS files_hash ON files(hash);";

pub const CLEAR_CACHE: &'static str = "DELETE FROM sources; DELETE FROM archived;";

pub const CLEAR_ARCHIVED: &'static str = "DELETE FROM archived;";

pub const GET_REPO_ID: &'static str = "SELECT value FROM meta WHERE key = 'repo_id'";

pub const SET_REPO_ID: &'static str = "INSERT INTO meta (key, value) VALUES ('repo_id', ?1)
ON CONFLICT(key) DO UPDATE SET value = excluded.value";

pub const GET_SOURCE: &'static str = "SELECT path, size, mtime, hash FROM sources WHERE path = ?1";

pub const SET_SOURCE: &'static str = "INSERT INTO sources (path, size, mtime, hash)
VALUES (?1, ?2, ?3, ?4)
ON CONFLICT(path) DO UPDATE SET
    size  = excluded.size,
    mtime = excluded.mtime,
    hash  = excluded.hash";

pub const DELETE_SOURCE: &'static str = "DELETE FROM sources WHERE path = ?1";

pub const LIST_SOURCES: &'static str = "SELECT path FROM sources ORDER BY path";

pub const GET_ARCHIVED: &'static str = "SELECT path, size, mtime, hash FROM archived WHERE path = ?1";

pub const SET_ARCHIVED: &'static str = "INSERT INTO archived (path, size, mtime, hash)
VALUES (?1, ?2, ?3, ?4)
ON CONFLICT(path) DO UPDATE SET
    size  = excluded.size,
    mtime = excluded.mtime,
    hash  = excluded.hash";

pub const FIND_ARCHIVED: &'static str = "SELECT path FROM archived WHERE hash = ?1 LIMIT 1";

pub const COUNT_ARCHIVED: &'static str = "SELECT count(*) FROM archived";

pub const LIST_ARCHIVED: &'static str = "SELECT path FROM archived ORDER BY path";

pub const GET_FILE: &'static str = "SELECT path, size, mtime, hash FROM files WHERE path = ?1";

pub const SET_FILE: &'static str = "INSERT INTO files (path, size, mtime, hash)
VALUES (?1, ?2, ?3, ?4)
ON CONFLICT(path) DO UPDATE SET
    size  = excluded.size,
    mtime = excluded.mtime,
    hash  = excluded.hash";

pub const DELETE_FILE: &'static str = "DELETE FROM files WHERE path = ?1";

pub const LIST_FILES: &'static str = "SELECT path FROM files ORDER BY path";

pub const ALL_FILES: &'static str = "SELECT path, size, mtime, hash FROM files ORDER BY path";

pub const HAS_CONTENTS: &'static str = "SELECT 1 FROM contents WHERE hash = ?1";

pub const ADD_CONTENTS: &'static str = "INSERT OR IGNORE INTO contents (hash, size) VALUES (?1, ?2)";

pub const UNREFERENCED: &'static str = "SELECT c.hash
FROM contents c
LEFT JOIN files f ON f.hash = c.hash
WHERE f.path IS NULL";

// ---------------------------------------------------------------------------------------------
// Opening a database, and statements without parameters.
// ---------------------------------------------------------------------------------------------

/// `rusqlite::Connection::open_in_memory` makes a database of its own, which is empty, and in
/// which no transaction is open.
#[verifier::external_body]
pub(crate) fn open_in_memory() -> (conn: Result<Connection, rusqlite::Error>)
    ensures
        conn matches Ok(c) ==> exclusive(c) && tables(c) == no_rows() && session(c).begun is None,
{
    Connection::open_in_memory()
}

/// `rusqlite::Connection::execute_batch` runs the statements one after the other. If all of them
/// succeed, `BEGIN` has opened a transaction, `COMMIT` has closed it, and `ROLLBACK` has closed it
/// and brought back what the database held when it began. `BEGIN` fails where a transaction is open,
/// the other two where none is. Outside a transaction, the one pragma has turned foreign keys on;
/// the others change no table. `CREATE .. IF NOT EXISTS` has made the tables that were missing, and
/// leaves all rows as they are. A `DELETE` without condition has removed the rows of its table, and
/// fails where there is no such table. Where a single statement fails, SQLite has undone it: the
/// database is what it was (a `COMMIT` that is refused leaves the transaction open), or the whole
/// transaction was rolled back.
#[verifier::external_body]
pub(crate) fn execute_batch(conn: &mut Connection, sql: &str) -> (done: Result<
    (),
    rusqlite::Error,
>)
    requires
        sql@ == BEGIN@ || sql@ == COMMIT@ || sql@ == ROLLBACK@ || sql@ == TUNE@ || sql@
            == ENFORCE_FOREIGN_KEYS@ || sql@ == CREATE_CACHE@ || sql@ == CREATE_CATALOG@ || sql@
            == CLEAR_CACHE@ || sql@ == CLEAR_ARCHIVED@,
    ensures
        exclusive(*final(conn)) == exclusive(*old(conn)),
        done is Ok && exclusive(*old(conn)) ==> batch_ran(
            sql@,
            (tables(*old(conn)), session(*old(conn))),
            (tables(*final(conn)), session(*final(conn))),
        ),
        done is Err && is_single(sql@) ==> undone(database(*old(conn)), database(*final(conn))),
{
    conn.execute_batch(sql)
}

/// Is this the text of one statement on tables or transactions?
pub open spec fn is_single(sql: Seq<char>) -> bool {
    sql == BEGIN@ || sql == COMMIT@ || sql == ROLLBACK@ || sql == CLEAR_ARCHIVED@
}

/// How tables and session before and after are related where statements without parameters have
/// succeeded.
pub open spec fn batch_ran(
    sql: Seq<char>,
    was: (Tables, Session),
    is: (Tables, Session),
) -> bool {
    &&& sql == BEGIN@ ==> was.1.begun is None && is == (
        was.0,
        Session { begun: Some(was.0), ..was.1 },
    )
    &&& sql == COMMIT@ ==> was.1.begun is Some && is == (
        was.0,
        Session { begun: None, ..was.1 },
    )
    &&& sql == ROLLBACK@ ==> was.1.begun is Some && is == (
        match was.1.begun {
            Some(saved) => saved,
            None => was.0,
        },
        Session { begun: None, ..was.1 },
    )
    &&& sql == ENFORCE_FOREIGN_KEYS@ ==> is == (
        was.0,
        Session { foreign_keys: was.1.foreign_keys || was.1.begun is None, ..was.1 },
    )
    &&& sql == CLEAR_CACHE@ ==> was.0.created.contains(Table::Sources) && was.0.created.contains(
        Table::Archived,
    ) && is == (
        Tables { sources: Map::empty(), archived: Map::empty(), ..was.0 },
        was.1,
    )
    &&& sql == CLEAR_ARCHIVED@ ==> was.0.created.contains(Table::Archived) && is == (
        Tables { archived: Map::empty(), ..was.0 },
        was.1,
    )
    &&& sql == CREATE_CACHE@ ==> is == (with_cache_tables(was.0), was.1)
    &&& sql == CREATE_CATALOG@ ==> is == (with_catalog_tables(was.0), was.1)
    &&& sql == TUNE@ ==> is == was
}

/// Keep what the transaction has done; where that fails, give it up. This is what became of keeping
/// it, and of giving it up where that was tried.
pub(crate) fn commit_or_give_up(conn: &mut Connection) -> (done: (
    Result<(), rusqlite::Error>,
    Option<Result<(), rusqlite::Error>>,
))
    ensures
        ({
            let (was, is) = (database(*old(conn)), database(*final(conn)));
            match done {
                (Ok(_), None) => becomes(was, is, was.committed()) && (was.exclusive
                    ==> was.session.begun is Some),
                (Err(_), Some(Ok(_))) => becomes(was, is, was.rolled_back()),
                (Err(_), Some(Err(_))) => undone(was, is),
                _ => false,
            }
        }),
{
    match execute_batch(conn, COMMIT) {
        Ok(_) => (Ok(()), None),
        Err(e) => {
            let given_up = execute_batch(conn, ROLLBACK);
            (Err(e), Some(given_up))
        },
    }
}

// ---------------------------------------------------------------------------------------------
// Statements that change rows.
// ---------------------------------------------------------------------------------------------

/// `rusqlite::Statement::execute`, with a row as the parameters: the row is inserted, or replaces
/// the one with the same path. Where foreign keys are enforced, a row of `files` is only accepted
/// if `contents` has its hash. It fails where there is no such table. Where it fails, SQLite has undone
/// it, or rolled back the whole transaction.
#[verifier::external_body]
pub(crate) fn execute_row(
    conn: &mut Connection,
    sql: &str,
    path: &str,
    size: i64,
    mtime: i64,
    hash: &[u8],
) -> (done: Result<(), rusqlite::Error>)
    requires
        sql@ == SET_SOURCE@ || sql@ == SET_ARCHIVED@ || sql@ == SET_FILE@,
    ensures
        exclusive(*final(conn)) == exclusive(*old(conn)),
        done is Ok && exclusive(*old(conn)) ==> session(*final(conn)) == session(*old(conn))
            && row_set(
            sql@,
            path@,
            Row { size, mtime, hash: hash@ },
            tables(*old(conn)),
            tables(*final(conn)),
        ),
        done is Ok && exclusive(*old(conn)) && sql@ == SET_FILE@ && session(
            *old(conn),
        ).foreign_keys ==> tables(*final(conn)).contents.contains_key(hash@),
        done is Err ==> undone(database(*old(conn)), database(*final(conn))),
{
    conn.prepare_cached(sql)?.execute((path, size, mtime, hash))?;
    Ok(())
}

/// The table of the statement has this row under this path, and nothing else has changed.
pub open spec fn row_set(
    sql: Seq<char>,
    path: Seq<char>,
    row: Row,
    was: Tables,
    is: Tables,
) -> bool {
    &&& sql == SET_SOURCE@ ==> was.created.contains(Table::Sources) && is == (Tables {
        sources: was.sources.insert(path, row),
        ..was
    })
    &&& sql == SET_ARCHIVED@ ==> was.created.contains(Table::Archived) && is == (Tables {
        archived: was.archived.insert(path, row),
        ..was
    })
    &&& sql == SET_FILE@ ==> was.created.contains(Table::Files) && is == (Tables {
        files: was.files.insert(path, row),
        ..was
    })
}

/// `rusqlite::Statement::execute`, with one text as the parameter: the archive id is set, or the
/// row with this path is removed if there is one. It fails where there is no such table. Where it
/// fails, SQLite has undone it, or rolled back the whole transaction.
#[verifier::external_body]
pub(crate) fn execute_text(conn: &mut Connection, sql: &str, value: &str) -> (done: Result<
    (),
    rusqlite::Error,
>)
    requires
        sql@ == SET_REPO_ID@ || sql@ == DELETE_SOURCE@ || sql@ == DELETE_FILE@,
    ensures
        exclusive(*final(conn)) == exclusive(*old(conn)),
        done is Ok && exclusive(*old(conn)) ==> session(*final(conn)) == session(*old(conn))
            && text_executed(sql@, value@, tables(*old(conn)), tables(*final(conn))),
        done is Err ==> undone(database(*old(conn)), database(*final(conn))),
{
    conn.prepare_cached(sql)?.execute((value,))?;
    Ok(())
}

/// How tables before and after are related where a statement with one text has succeeded.
pub open spec fn text_executed(sql: Seq<char>, value: Seq<char>, was: Tables, is: Tables) -> bool {
    &&& sql == SET_REPO_ID@ ==> was.created.contains(Table::Meta) && is == (Tables {
        repo_id: Some(value),
        ..was
    })
    &&& sql == DELETE_SOURCE@ ==> was.created.contains(Table::Sources) && is == (Tables {
        sources: was.sources.remove(value),
        ..was
    })
    &&& sql == DELETE_FILE@ ==> was.created.contains(Table::Files) && is == (Tables {
        files: was.files.remove(value),
        ..was
    })
}

/// `rusqlite::Statement::execute`, with a hash and a size as the parameters: `contents` has the
/// hash. A hash that was there keeps its size. It fails where there is no such table. Where it fails,
/// SQLite has undone it, or rolled back the whole transaction.
#[verifier::external_body]
pub(crate) fn execute_hash(conn: &mut Connection, sql: &str, hash: &[u8], size: i64) -> (done:
    Result<(), rusqlite::Error>)
    requires
        sql@ == ADD_CONTENTS@,
    ensures
        exclusive(*final(conn)) == exclusive(*old(conn)),
        done is Ok && exclusive(*old(conn)) ==> session(*final(conn)) == session(*old(conn))
            && tables(*old(conn)).created.contains(Table::Contents) && tables(*final(conn))
            == with_contents(tables(*old(conn)), hash@, size),
        done is Err ==> undone(database(*old(conn)), database(*final(conn))),
{
    conn.prepare_cached(sql)?.execute((hash, size))?;
    Ok(())
}

/// The tables with this hash among the contents.
pub open spec fn with_contents(t: Tables, hash: Seq<u8>, size: i64) -> Tables {
    if t.contents.contains_key(hash) {
        t
    } else {
        Tables { contents: t.contents.insert(hash, size), ..t }
    }
}

// ---------------------------------------------------------------------------------------------
// Statements that read rows.
// ---------------------------------------------------------------------------------------------

/// The rows of a table that is kept by paths.
pub open spec fn rows_of(t: Tables, table: Table) -> Map<Seq<char>, Row> {
    match table {
        Table::Sources => t.sources,
        Table::Archived => t.archived,
        Table::Files => t.files,
        _ => Map::empty(),
    }
}

/// Is there such a table, and is this the row that it has under the path, or nothing where it has
/// none?
pub open spec fn row_found(
    found: Option<Fetched>,
    path: Seq<char>,
    t: Tables,
    table: Table,
) -> bool {
    let rows = rows_of(t, table);
    &&& t.created.contains(table)
    &&& match found {
        Some(f) => rows.contains_key(path) && f.0@ == path && row_of(f) == rows[path],
        None => !rows.contains_key(path),
    }
}

/// `rusqlite::Statement::query`, with a path as the parameter, and `rusqlite::Row::get` of the
/// columns: the row that is kept under the path, if there is one. It fails where there is no such
/// table. Reading changes nothing, but a read that fails may have rolled back the whole transaction.
#[verifier::external_body]
pub(crate) fn query_row_at(conn: &mut Connection, sql: &str, path: &str) -> (found: Result<
    Option<Fetched>,
    rusqlite::Error,
>)
    requires
        sql@ == GET_SOURCE@ || sql@ == GET_ARCHIVED@ || sql@ == GET_FILE@,
    ensures
        was_read(database(*old(conn)), database(*final(conn)), found is Err),
        found matches Ok(f) ==> exclusive(*old(conn)) ==> {
            let t = tables(*old(conn));
            &&& sql@ == GET_SOURCE@ ==> row_found(f, path@, t, Table::Sources)
            &&& sql@ == GET_ARCHIVED@ ==> row_found(f, path@, t, Table::Archived)
            &&& sql@ == GET_FILE@ ==> row_found(f, path@, t, Table::Files)
        },
{
    let mut stmt = conn.prepare_cached(sql)?;
    let mut rows = stmt.query((path,))?;
    match rows.next()? {
        Some(row) => Ok(Some((row.get("path")?, row.get("size")?, row.get("mtime")?, row.get("hash")?))),
        None => Ok(None),
    }
}

/// Is there such a table, and are these all its paths, in order?
pub open spec fn paths_listed(listed: Seq<Seq<char>>, t: Tables, table: Table) -> bool {
    t.created.contains(table) && lists_keys(listed, rows_of(t, table))
}

/// `rusqlite::Statement::query_map` over all rows: every path, each once, in the order of their
/// characters. (SQLite compares text by its UTF-8 bytes, which is that order.) It fails where there
/// is no such table. Reading changes nothing, but a read that fails may have rolled back the whole
/// transaction.
#[verifier::external_body]
pub(crate) fn query_paths(conn: &mut Connection, sql: &str) -> (paths: Result<
    Vec<String>,
    rusqlite::Error,
>)
    requires
        sql@ == LIST_SOURCES@ || sql@ == LIST_ARCHIVED@ || sql@ == LIST_FILES@,
    ensures
        was_read(database(*old(conn)), database(*final(conn)), paths is Err),
        paths matches Ok(p) ==> exclusive(*old(conn)) ==> {
            let t = tables(*old(conn));
            &&& sql@ == LIST_SOURCES@ ==> paths_listed(texts(p@), t, Table::Sources)
            &&& sql@ == LIST_ARCHIVED@ ==> paths_listed(texts(p@), t, Table::Archived)
            &&& sql@ == LIST_FILES@ ==> paths_listed(texts(p@), t, Table::Files)
        },
{
    let mut stmt = conn.prepare_cached(sql)?;
    let rows = stmt.query_map([], |row| row.get(0))?;
    rows.collect()
}

/// `rusqlite::Statement::query_map` over all rows of `files`: every row, in the order of their
/// paths. It fails where there is no such table. Reading changes nothing, but a read that fails may
/// have rolled back the whole transaction.
#[verifier::external_body]
pub(crate) fn query_rows(conn: &mut Connection, sql: &str) -> (found: Result<
    Vec<Fetched>,
    rusqlite::Error,
>)
    requires
        sql@ == ALL_FILES@,
    ensures
        was_read(database(*old(conn)), database(*final(conn)), found is Err),
        found matches Ok(f) ==> exclusive(*old(conn)) ==> paths_listed(
            f@.map_values(|r: Fetched| r.0@),
            tables(*old(conn)),
            Table::Files,
        ) && forall|i: int|
            0 <= i < f@.len() ==> row_of(#[trigger] f@[i]) == tables(*old(conn)).files[f@[i].0@],
{
    let mut stmt = conn.prepare_cached(sql)?;
    let rows = stmt.query_map([], |row| {
        Ok((row.get("path")?, row.get("size")?, row.get("mtime")?, row.get("hash")?))
    })?;
    rows.collect()
}

/// `rusqlite::Statement::query`, with a hash as the parameter, and `rusqlite::Row::get` of the
/// first row: the path of one of the rows that have this hash. Which one is left open. It fails where
/// there is no such table. Reading changes nothing, but a read that fails may have rolled back the
/// whole transaction.
#[verifier::external_body]
pub(crate) fn query_path_of(conn: &mut Connection, sql: &str, hash: &[u8]) -> (found: Result<
    Option<String>,
    rusqlite::Error,
>)
    requires
        sql@ == FIND_ARCHIVED@,
    ensures
        was_read(database(*old(conn)), database(*final(conn)), found is Err),
        found matches Ok(f) ==> exclusive(*old(conn)) ==> {
            let t = tables(*old(conn));
            &&& t.created.contains(Table::Archived)
            &&& match f {
                Some(p) => t.archived.contains_key(p@) && t.archived[p@].hash == hash@,
                None => forall|k: Seq<char>| #[trigger]
                    t.archived.contains_key(k) ==> t.archived[k].hash != hash@,
            }
        },
{
    let mut stmt = conn.prepare_cached(sql)?;
    let mut rows = stmt.query((hash,))?;
    match rows.next()? {
        Some(row) => Ok(Some(row.get(0)?)),
        None => Ok(None),
    }
}

/// `rusqlite::Statement::query_row` of a `count(*)`: the number of rows. It fails where there is no
/// such table. Reading changes nothing, but a read that fails may have rolled back the whole
/// transaction.
#[verifier::external_body]
pub(crate) fn query_count(conn: &mut Connection, sql: &str) -> (count: Result<i64, rusqlite::Error>)
    requires
        sql@ == COUNT_ARCHIVED@,
    ensures
        was_read(database(*old(conn)), database(*final(conn)), count is Err),
        count matches Ok(n) ==> exclusive(*old(conn)) ==> {
            let t = tables(*old(conn));
            &&& t.created.contains(Table::Archived)
            &&& t.archived.dom().finite()
            &&& n == t.archived.len()
        },
{
    conn.prepare_cached(sql)?.query_row([], |row| row.get(0))
}

/// `rusqlite::Statement::query`, and `rusqlite::Row::get` of the first row: the value that is kept, if
/// there is one. It fails where there is no such table, and where the value is no text. Reading changes
/// nothing, but a read that fails may have rolled back the whole transaction.
#[verifier::external_body]
pub(crate) fn query_value(conn: &mut Connection, sql: &str) -> (found: Result<
    Option<String>,
    rusqlite::Error,
>)
    requires
        sql@ == GET_REPO_ID@,
    ensures
        was_read(database(*old(conn)), database(*final(conn)), found is Err),
        found matches Ok(f) ==> exclusive(*old(conn)) ==> {
            let t = tables(*old(conn));
            &&& t.created.contains(Table::Meta)
            &&& match f {
                Some(v) => t.repo_id == Some(v@),
                None => t.repo_id is None,
            }
        },
{
    let mut stmt = conn.prepare_cached(sql)?;
    let mut rows = stmt.query([])?;
    match rows.next()? {
        Some(row) => Ok(Some(row.get(0)?)),
        None => Ok(None),
    }
}

/// `rusqlite::Statement::query_row`: the value that is kept. It fails where there is no such table, and
/// where there is no such row. Reading changes nothing, but a read that fails may have rolled back the
/// whole transaction.
#[verifier::external_body]
pub(crate) fn query_text(conn: &mut Connection, sql: &str) -> (found: Result<
    String,
    rusqlite::Error,
>)
    requires
        sql@ == GET_REPO_ID@,
    ensures
        was_read(database(*old(conn)), database(*final(conn)), found is Err),
        found matches Ok(v) ==> exclusive(*old(conn)) ==> {
            let t = tables(*old(conn));
            &&& t.created.contains(Table::Meta)
            &&& t.repo_id == Some(v@)
        },
{
    conn.prepare_cached(sql)?.query_row([], |row| row.get(0))
}

/// `rusqlite::Statement::exists`, with a hash as the parameter: is there such a row? It fails where
/// there is no such table. Reading changes nothing, but a read that fails may have rolled back the
/// whole transaction.
#[verifier::external_body]
pub(crate) fn query_exists(conn: &mut Connection, sql: &str, hash: &[u8]) -> (found: Result<
    bool,
    rusqlite::Error,
>)
    requires
        sql@ == HAS_CONTENTS@,
    ensures
        was_read(database(*old(conn)), database(*final(conn)), found is Err),
        found matches Ok(f) ==> exclusive(*old(conn)) ==> {
            let t = tables(*old(conn));
            &&& t.created.contains(Table::Contents)
            &&& f == t.contents.contains_key(hash@)
        },
{
    conn.prepare_cached(sql)?.exists((hash,))
}

/// Does a file have this content?
pub open spec fn is_referenced(t: Tables, hash: Seq<u8>) -> bool {
    exists|p: Seq<char>| #[trigger] t.files.contains_key(p) && t.files[p].hash == hash
}

/// Are these all contents that no file has, each once?
pub open spec fn lists_unreferenced(listed: Seq<Seq<u8>>, t: Tables) -> bool {
    &&& listed.no_duplicates()
    &&& forall|hash: Seq<u8>| #[trigger]
        listed.contains(hash) <==> t.contents.contains_key(hash) && !is_referenced(t, hash)
}

/// `rusqlite::Statement::query_map` over a `LEFT JOIN`: the hashes of `contents` that no row of
/// `files` has, each once. Their order is left open. It fails where one of the tables is not there.
/// Reading changes nothing, but a read that fails may have rolled back the whole transaction.
#[verifier::external_body]
pub(crate) fn query_hashes(conn: &mut Connection, sql: &str) -> (found: Result<
    Vec<Vec<u8>>,
    rusqlite::Error,
>)
    requires
        sql@ == UNREFERENCED@,
    ensures
        was_read(database(*old(conn)), database(*final(conn)), found is Err),
        found matches Ok(f) ==> exclusive(*old(conn)) ==> {
            let t = tables(*old(conn));
            &&& t.created.contains(Table::Contents)
            &&& t.created.contains(Table::Files)
            &&& lists_unreferenced(f@.map_values(|h: Vec<u8>| h@), t)
        },
{
    let mut stmt = conn.prepare_cached(sql)?;
    let rows = stmt.query_map([], |row| row.get(0))?;
    rows.collect()
}

} // verus!
