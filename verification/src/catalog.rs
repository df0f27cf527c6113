//! Which files hold which contents.
//!
//! Contents are known by their hash, and a file refers to its contents by that hash: there is no
//! file whose contents are unknown.

use crate::sqlite;
use crate::sqlite::{
    commit_or_give_up, execute_batch, execute_hash, execute_row, execute_text, query_hashes,
    query_exists, query_paths, query_row_at, query_rows,
};
use rusqlite::Connection;
use vstd::prelude::*;

verus! {

/// Why the catalog could not answer.
#[derive(Debug)]
pub enum CatalogError {
    /// A statement failed.
    Sqlite(rusqlite::Error),
}

/// What is known of one file.
#[derive(Debug)]
pub struct Entry {
    pub path: String,
    pub size: i64,
    pub mtime: i64,
    pub hash: Vec<u8>,
}

impl View for Entry {
    type V = sqlite::EntryView;

    open spec fn view(&self) -> sqlite::EntryView {
        sqlite::EntryView {
            path: self.path@,
            row: sqlite::Row { size: self.size, mtime: self.mtime, hash: self.hash@ },
        }
    }
}

impl Entry {
    /// Do the entry's file size and modification time match these?
    pub fn metadata_matches(&self, size: i64, mtime: i64) -> (matches: bool)
        ensures
            matches == self@.metadata_matches(size, mtime),
    {
        self.size == size && self.mtime == mtime
    }
}

/// Which files hold which contents.
pub struct Catalog {
    conn: Connection,
}

impl View for Catalog {
    type V = sqlite::Database;

    closed spec fn view(&self) -> sqlite::Database {
        sqlite::database(self.conn)
    }
}

/// The tables after a file was recorded.
pub open spec fn with_file(t: sqlite::Tables, e: sqlite::EntryView) -> sqlite::Tables {
    sqlite::Tables { files: t.files.insert(e.path, e.row), ..t }
}

/// The tables after a file was forgotten.
pub open spec fn without_file(t: sqlite::Tables, path: Seq<char>) -> sqlite::Tables {
    sqlite::Tables { files: t.files.remove(path), ..t }
}

/// Are the contents of every file known?
pub open spec fn all_contents_known(t: sqlite::Tables) -> bool {
    forall|p: Seq<char>| #[trigger]
        t.files.contains_key(p) ==> t.contents.contains_key(t.files[p].hash)
}

/// What a statement gave, with an error of the catalog's own.
pub fn checked<T>(result: Result<T, rusqlite::Error>) -> (mapped: Result<T, CatalogError>)
    ensures
        match result {
            Ok(v) => mapped == Ok::<T, CatalogError>(v),
            Err(e) => mapped == Err::<T, CatalogError>(CatalogError::Sqlite(e)),
        },
{
    match result {
        Ok(v) => Ok(v),
        Err(e) => Err(CatalogError::Sqlite(e)),
    }
}

/// The entry that was read, if there was one.
pub fn entry_read(found: Result<Option<sqlite::Fetched>, rusqlite::Error>) -> (entry: Result<
    Option<Entry>,
    CatalogError,
>)
    ensures
        match found {
            Ok(Some(f)) => entry matches Ok(Some(e)) && e@ == sqlite::row_entry(f),
            Ok(None) => entry matches Ok(None),
            Err(e) => entry == Err::<Option<Entry>, CatalogError>(CatalogError::Sqlite(e)),
        },
{
    match found {
        Ok(Some((path, size, mtime, hash))) => Ok(Some(Entry { path, size, mtime, hash })),
        Ok(None) => Ok(None),
        Err(e) => Err(CatalogError::Sqlite(e)),
    }
}

/// The entries that were read, in the order in which they were.
pub fn entries_read(found: Result<Vec<sqlite::Fetched>, rusqlite::Error>) -> (entries: Result<
    Vec<Entry>,
    CatalogError,
>)
    ensures
        match found {
            Ok(f) => entries matches Ok(a) && a@.map_values(|e: Entry| e@) == f@.map_values(
                |r: sqlite::Fetched| sqlite::row_entry(r),
            ),
            Err(e) => entries == Err::<Vec<Entry>, CatalogError>(CatalogError::Sqlite(e)),
        },
{
    let rows = match found {
        Ok(r) => r,
        Err(e) => {
            return Err(CatalogError::Sqlite(e));
        },
    };
    let mut entries: Vec<Entry> = Vec::new();
    let ghost fetched = rows@;
    for row in it: rows
        invariant
            it.seq() == fetched,
            entries@.len() == it.index(),
            forall|i: int|
                0 <= i < entries@.len() ==> (#[trigger] entries@[i])@ == sqlite::row_entry(
                    fetched[i],
                ),
    {
        let (path, size, mtime, hash) = row;
        entries.push(Entry { path, size, mtime, hash });
    }
    assert(entries@.map_values(|e: Entry| e@) =~= fetched.map_values(
        |r: sqlite::Fetched| sqlite::row_entry(r),
    ));
    Ok(entries)
}

impl Catalog {
    /// The catalog behind a connection.
    pub fn open(conn: Connection) -> (catalog: Result<Catalog, CatalogError>)
        ensures
            catalog matches Ok(c) ==> {
                &&& c@.exclusive == sqlite::exclusive(conn)
                &&& c@.exclusive ==> c@.tables == sqlite::with_catalog_tables(
                    sqlite::tables(conn),
                )
                &&& c@.exclusive ==> c@.session == (sqlite::Session {
                    begun: sqlite::session(conn).begun,
                    foreign_keys: sqlite::session(conn).foreign_keys || sqlite::session(
                        conn,
                    ).begun is None,
                })
            },
    {
        let mut conn = conn;
        match execute_batch(&mut conn, sqlite::TUNE) {
            Ok(_) => Catalog::prepared(conn),
            Err(e) => Err(CatalogError::Sqlite(e)),
        }
    }

    /// A catalog that is forgotten when it is dropped.
    pub fn in_memory() -> (catalog: Result<Catalog, CatalogError>)
        ensures
            catalog matches Ok(c) ==> {
                &&& c@.exclusive
                &&& c@.tables == sqlite::with_catalog_tables(sqlite::no_rows())
                &&& c@.session == (sqlite::Session { begun: None, foreign_keys: true })
            },
    {
        match sqlite::open_in_memory() {
            Ok(conn) => Catalog::prepared(conn),
            Err(e) => Err(CatalogError::Sqlite(e)),
        }
    }

    fn prepared(conn: Connection) -> (catalog: Result<Catalog, CatalogError>)
        ensures
            catalog matches Ok(c) ==> {
                &&& c@.exclusive == sqlite::exclusive(conn)
                &&& c@.exclusive ==> c@.tables == sqlite::with_catalog_tables(
                    sqlite::tables(conn),
                )
                &&& c@.exclusive ==> c@.session == (sqlite::Session {
                    begun: sqlite::session(conn).begun,
                    foreign_keys: sqlite::session(conn).foreign_keys || sqlite::session(
                        conn,
                    ).begun is None,
                })
            },
    {
        let mut catalog = Catalog { conn };
        match execute_batch(&mut catalog.conn, sqlite::ENFORCE_FOREIGN_KEYS) {
            Ok(_) => {},
            Err(e) => {
                return Err(CatalogError::Sqlite(e));
            },
        }
        match catalog.migrate() {
            Ok(_) => Ok(catalog),
            Err(e) => Err(e),
        }
    }

    /// Create the tables that are missing.
    fn migrate(&mut self) -> (done: Result<(), CatalogError>)
        ensures
            final(self)@.exclusive == old(self)@.exclusive,
            done is Ok && old(self)@.exclusive ==> final(self)@ == old(self)@.with(
                sqlite::with_catalog_tables(old(self)@.tables),
            ),
    {
        checked(execute_batch(&mut self.conn, sqlite::CREATE_CATALOG))
    }

    /// Begin a transaction. That fails where one is open.
    pub fn transaction(&mut self) -> (done: Result<(), CatalogError>)
        ensures
            final(self)@.exclusive == old(self)@.exclusive,
            done is Ok && old(self)@.exclusive ==> old(self)@.session.begun is None && final(self)@
                == old(self)@.begun(),
            done is Err ==> sqlite::undone(old(self)@, final(self)@),
    {
        checked(execute_batch(&mut self.conn, sqlite::BEGIN))
    }

    /// Keep what the transaction has done. If that fails, what it has done is given up, as far as
    /// that can be done. It fails where no transaction is open.
    pub fn commit(&mut self) -> (done: Result<(), CatalogError>)
        ensures
            final(self)@.exclusive == old(self)@.exclusive,
            done is Ok && old(self)@.exclusive ==> old(self)@.session.begun is Some && final(self)@
                == old(self)@.committed(),
            done is Err ==> sqlite::undone(old(self)@, final(self)@),
    {
        checked(commit_or_give_up(&mut self.conn).0)
    }

    /// Give up what the transaction has done. That fails where none is open.
    pub fn rollback(&mut self) -> (done: Result<(), CatalogError>)
        ensures
            final(self)@.exclusive == old(self)@.exclusive,
            done is Ok && old(self)@.exclusive ==> old(self)@.session.begun is Some && final(self)@
                == old(self)@.rolled_back(),
            done is Err ==> sqlite::undone(old(self)@, final(self)@),
    {
        checked(execute_batch(&mut self.conn, sqlite::ROLLBACK))
    }

    /// What is known of the file at this path.
    pub fn lookup(&mut self, path: &str) -> (found: Result<Option<Entry>, CatalogError>)
        ensures
            sqlite::was_read(old(self)@, final(self)@, found is Err),
            found matches Ok(f) ==> old(self)@.exclusive ==> old(self)@.tables.created.contains(
                sqlite::Table::Files,
            ) && sqlite::maybe(f) == sqlite::entry_at(old(self)@.tables.files, path@),
    {
        entry_read(query_row_at(&mut self.conn, sqlite::GET_FILE, path))
    }

    /// Are the contents with this hash known?
    pub fn has_blob(&mut self, hash: &[u8]) -> (has: Result<bool, CatalogError>)
        ensures
            sqlite::was_read(old(self)@, final(self)@, has is Err),
            has matches Ok(h) ==> old(self)@.exclusive ==> old(self)@.tables.created.contains(
                sqlite::Table::Contents,
            ) && h == old(self)@.tables.contents.contains_key(hash@),
    {
        checked(query_exists(&mut self.conn, sqlite::HAS_CONTENTS, hash))
    }

    /// All files, in the order of their paths.
    pub fn all(&mut self) -> (entries: Result<Vec<Entry>, CatalogError>)
        ensures
            sqlite::was_read(old(self)@, final(self)@, entries is Err),
            entries matches Ok(a) ==> old(self)@.exclusive ==> {
                &&& sqlite::paths_listed(
                    a@.map_values(|e: Entry| e.path@),
                    old(self)@.tables,
                    sqlite::Table::Files,
                )
                &&& forall|i: int|
                    0 <= i < a@.len() ==> (#[trigger] a@[i])@.row
                        == old(self)@.tables.files[a@[i].path@]
            },
    {
        let found = query_rows(&mut self.conn, sqlite::ALL_FILES);
        let ghost fetched = found->Ok_0@;
        let entries = entries_read(found);
        proof {
            if entries is Ok {
                let a = entries->Ok_0;
                let views = a@.map_values(|e: Entry| e@);
                let rows = fetched.map_values(|r: sqlite::Fetched| sqlite::row_entry(r));
                assert(views == rows);
                assert forall|i: int| 0 <= i < a@.len() implies (#[trigger] a@[i])@
                    == sqlite::row_entry(fetched[i]) by {
                    assert(views[i] == a@[i]@ && rows[i] == sqlite::row_entry(fetched[i]));
                }
                assert(views.len() == fetched.len());
                assert(a@.map_values(|e: Entry| e.path@) =~= fetched.map_values(
                    |r: sqlite::Fetched| r.0@,
                ));
            }
        }
        entries
    }

    /// All paths, in order.
    pub fn all_paths(&mut self) -> (paths: Result<Vec<String>, CatalogError>)
        ensures
            sqlite::was_read(old(self)@, final(self)@, paths is Err),
            paths matches Ok(p) ==> old(self)@.exclusive ==> sqlite::paths_listed(
                sqlite::texts(p@),
                old(self)@.tables,
                sqlite::Table::Files,
            ),
    {
        checked(query_paths(&mut self.conn, sqlite::LIST_FILES))
    }

    /// The contents with this hash are known. If they were, they keep their size.
    pub fn insert_contents(&mut self, hash: &[u8], size: i64) -> (done: Result<(), CatalogError>)
        ensures
            final(self)@.exclusive == old(self)@.exclusive,
            done is Ok && old(self)@.exclusive ==> old(self)@.tables.created.contains(
                sqlite::Table::Contents,
            ) && final(self)@ == old(self)@.with(
                sqlite::with_contents(old(self)@.tables, hash@, size),
            ),
            done is Err ==> sqlite::undone(old(self)@, final(self)@),
    {
        checked(execute_hash(&mut self.conn, sqlite::ADD_CONTENTS, hash, size))
    }

    /// Record what a file holds. A file whose contents are not known is refused.
    pub fn upsert_file(&mut self, entry: &Entry) -> (done: Result<(), CatalogError>)
        ensures
            final(self)@.exclusive == old(self)@.exclusive,
            done is Ok && old(self)@.exclusive ==> old(self)@.tables.created.contains(
                sqlite::Table::Files,
            ) && final(self)@ == old(self)@.with(with_file(old(self)@.tables, entry@)),
            done is Ok && old(self)@.exclusive && old(self)@.session.foreign_keys ==> old(
                self,
            )@.tables.contents.contains_key(entry@.row.hash),
            done is Err ==> sqlite::undone(old(self)@, final(self)@),
    {
        checked(
            execute_row(
                &mut self.conn,
                sqlite::SET_FILE,
                entry.path.as_str(),
                entry.size,
                entry.mtime,
                entry.hash.as_slice(),
            ),
        )
    }

    /// Forget a file.
    pub fn remove_file(&mut self, path: &str) -> (done: Result<(), CatalogError>)
        ensures
            final(self)@.exclusive == old(self)@.exclusive,
            done is Ok && old(self)@.exclusive ==> old(self)@.tables.created.contains(
                sqlite::Table::Files,
            ) && final(self)@ == old(self)@.with(without_file(old(self)@.tables, path@)),
            done is Err ==> sqlite::undone(old(self)@, final(self)@),
    {
        checked(execute_text(&mut self.conn, sqlite::DELETE_FILE, path))
    }

    /// The hashes of the contents that no file refers to.
    pub fn unreferenced_blobs(&mut self) -> (hashes: Result<Vec<Vec<u8>>, CatalogError>)
        ensures
            sqlite::was_read(old(self)@, final(self)@, hashes is Err),
            hashes matches Ok(h) ==> old(self)@.exclusive ==> {
                let t = old(self)@.tables;
                &&& t.created.contains(sqlite::Table::Contents)
                &&& t.created.contains(sqlite::Table::Files)
                &&& sqlite::lists_unreferenced(h@.map_values(|v: Vec<u8>| v@), t)
            },
    {
        checked(query_hashes(&mut self.conn, sqlite::UNREFERENCED))
    }
}

/// What was recorded of a file is what is found of it, and nothing else is changed.
pub proof fn law_lookup_after_upsert(t: sqlite::Tables, e: sqlite::EntryView, other: Seq<char>)
    ensures
        sqlite::entry_at(with_file(t, e).files, e.path) == Some(e),
        other != e.path ==> sqlite::entry_at(with_file(t, e).files, other) == sqlite::entry_at(
            t.files,
            other,
        ),
        with_file(t, e).contents == t.contents,
{
}

/// A removed file is forgotten, and no other is; its contents stay known.
pub proof fn law_removed_is_forgotten(t: sqlite::Tables, p: Seq<char>, other: Seq<char>)
    ensures
        sqlite::entry_at(without_file(t, p).files, p) is None,
        other != p ==> sqlite::entry_at(without_file(t, p).files, other) == sqlite::entry_at(
            t.files,
            other,
        ),
        without_file(t, p).contents == t.contents,
{
}

/// Contents are inserted once: a second time changes nothing.
pub proof fn law_contents_are_inserted_once(t: sqlite::Tables, hash: Seq<u8>, a: i64, b: i64)
    ensures
        sqlite::with_contents(t, hash, a).contents.contains_key(hash),
        sqlite::with_contents(sqlite::with_contents(t, hash, a), hash, b)
            == sqlite::with_contents(t, hash, a),
{
}

/// There is never a file whose contents are unknown: none at first, and every change keeps it so.
pub proof fn law_contents_stay_known(
    t: sqlite::Tables,
    e: sqlite::EntryView,
    p: Seq<char>,
    hash: Seq<u8>,
    size: i64,
)
    ensures
        all_contents_known(sqlite::no_rows()),
        all_contents_known(t) ==> all_contents_known(sqlite::with_contents(t, hash, size)),
        all_contents_known(t) ==> all_contents_known(without_file(t, p)),
        all_contents_known(t) && t.contents.contains_key(e.row.hash) ==> all_contents_known(
            with_file(t, e),
        ),
{
    if all_contents_known(t) {
        let u = sqlite::with_contents(t, hash, size);
        assert forall|q: Seq<char>| #[trigger]
            u.files.contains_key(q) implies u.contents.contains_key(u.files[q].hash) by {
            assert(t.files.contains_key(q));
        }
        let v = without_file(t, p);
        assert forall|q: Seq<char>| #[trigger]
            v.files.contains_key(q) implies v.contents.contains_key(v.files[q].hash) by {
            assert(t.files.contains_key(q));
        }
        if t.contents.contains_key(e.row.hash) {
            let w = with_file(t, e);
            assert forall|q: Seq<char>| #[trigger]
                w.files.contains_key(q) implies w.contents.contains_key(w.files[q].hash) by {
                if q != e.path {
                    assert(t.files.contains_key(q));
                }
            }
        }
    }
}

/// Contents that were inserted are listed as unreferenced until a file refers to them, and again when
/// that file is removed.
pub proof fn law_contents_without_a_file_are_listed(
    t: sqlite::Tables,
    e: sqlite::EntryView,
    size: i64,
    listed: Seq<Seq<u8>>,
)
    requires
        !sqlite::is_referenced(t, e.row.hash),
    ensures
        ({
            let known = sqlite::with_contents(t, e.row.hash, size);
            &&& sqlite::lists_unreferenced(listed, known) ==> listed.contains(e.row.hash)
            &&& sqlite::lists_unreferenced(listed, with_file(known, e)) ==> !listed.contains(
                e.row.hash,
            )
            &&& sqlite::lists_unreferenced(listed, without_file(with_file(known, e), e.path))
                ==> listed.contains(e.row.hash)
        }),
{
    let known = sqlite::with_contents(t, e.row.hash, size);
    assert(with_file(known, e).files.contains_key(e.path));
    if sqlite::is_referenced(known, e.row.hash) {
        let p = choose|p: Seq<char>| #[trigger]
            known.files.contains_key(p) && known.files[p].hash == e.row.hash;
        assert(t.files.contains_key(p));
    }
    let gone = without_file(with_file(known, e), e.path);
    if sqlite::is_referenced(gone, e.row.hash) {
        let p = choose|p: Seq<char>| #[trigger]
            gone.files.contains_key(p) && gone.files[p].hash == e.row.hash;
        assert(t.files.contains_key(p));
    }
}

/// What is recorded of a file is what is found of it, field by field, and what is found of any other file
/// is what was found before. With the foreign keys in force, the contents of the file were known.
pub proof fn law_a_file_is_found_as_it_was_recorded(
    writing: &mut Catalog,
    entry: &Entry,
    reading: &mut Catalog,
    before: &mut Catalog,
    path: &str,
    found: Option<Entry>,
    known: Option<Entry>,
)
    requires
        old(writing)@.exclusive,
        call_ensures(Catalog::upsert_file, (writing, entry), Ok(())),
        old(reading)@ == final(writing)@,
        call_ensures(Catalog::lookup, (reading, path), Ok(found)),
        old(before)@ == old(writing)@,
        call_ensures(Catalog::lookup, (before, path), Ok(known)),
    ensures
        path@ == entry.path@ ==> (found matches Some(e) && e.path@ == entry.path@ && e.size
            == entry.size && e.mtime == entry.mtime && e.hash@ == entry.hash@),
        path@ != entry.path@ ==> (found is Some <==> known is Some) && (found matches Some(e)
            ==> e.path@ == known->0.path@ && e.size == known->0.size && e.mtime == known->0.mtime
            && e.hash@ == known->0.hash@),
        final(writing)@.tables.contents == old(writing)@.tables.contents,
        old(writing)@.session.foreign_keys ==> old(writing)@.tables.contents.contains_key(
            entry.hash@,
        ),
{
    if let Some(e) = found {
        assert(e@ == sqlite::maybe(found)->0);
    }
    if let Some(e) = known {
        assert(e@ == sqlite::maybe(known)->0);
    }
}

/// A file that was removed is not found, any other one is found as before, and no contents are forgotten.
pub proof fn law_a_removed_file_is_not_found(
    writing: &mut Catalog,
    removed: &str,
    reading: &mut Catalog,
    before: &mut Catalog,
    path: &str,
    found: Option<Entry>,
    known: Option<Entry>,
)
    requires
        old(writing)@.exclusive,
        call_ensures(Catalog::remove_file, (writing, removed), Ok(())),
        old(reading)@ == final(writing)@,
        call_ensures(Catalog::lookup, (reading, path), Ok(found)),
        old(before)@ == old(writing)@,
        call_ensures(Catalog::lookup, (before, path), Ok(known)),
    ensures
        path@ == removed@ ==> found is None,
        path@ != removed@ ==> (found is Some <==> known is Some) && (found matches Some(e)
            ==> e.size == known->0.size && e.mtime == known->0.mtime && e.hash@
            == known->0.hash@),
        final(writing)@.tables.contents == old(writing)@.tables.contents,
{
    if let Some(e) = found {
        assert(e@ == sqlite::maybe(found)->0);
    }
    if let Some(e) = known {
        assert(e@ == sqlite::maybe(known)->0);
    }
}

/// Contents that were inserted are known, and so are those that were known before, and no others.
pub proof fn law_inserted_contents_are_known(
    writing: &mut Catalog,
    hash: &[u8],
    size: i64,
    reading: &mut Catalog,
    before: &mut Catalog,
    asked: &[u8],
    is: bool,
    was: bool,
)
    requires
        old(writing)@.exclusive,
        call_ensures(Catalog::insert_contents, (writing, hash, size), Ok(())),
        old(reading)@ == final(writing)@,
        call_ensures(Catalog::has_blob, (reading, asked), Ok(is)),
        old(before)@ == old(writing)@,
        call_ensures(Catalog::has_blob, (before, asked), Ok(was)),
    ensures
        is <==> was || asked@ == hash@,
        final(writing)@.tables.files == old(writing)@.tables.files,
{
}

/// All files are those that are found, each once, as they are found.
pub proof fn law_all_files_are_found(
    listing: &mut Catalog,
    all: Vec<Entry>,
    naming: &mut Catalog,
    paths: Vec<String>,
    reading: &mut Catalog,
    path: &str,
    found: Option<Entry>,
)
    requires
        old(listing)@.exclusive,
        call_ensures(Catalog::all, (listing,), Ok(all)),
        old(naming)@ == old(listing)@,
        call_ensures(Catalog::all_paths, (naming,), Ok(paths)),
        old(reading)@ == old(listing)@,
        call_ensures(Catalog::lookup, (reading, path), Ok(found)),
    ensures
        forall|i: int|
            0 <= i < all@.len() && (#[trigger] all@[i]).path@ == path@ ==> (found matches Some(e)
                && e.size == all@[i].size && e.mtime == all@[i].mtime && e.hash@ == all@[i].hash@),
        found is Some ==> exists|i: int| 0 <= i < all@.len() && (#[trigger] all@[i]).path@ == path@,
        found is Some <==> exists|i: int| 0 <= i < paths@.len() && (#[trigger] paths@[i])@ == path@,
{
    let rows = old(listing)@.tables.files;
    let names = all@.map_values(|e: Entry| e.path@);
    let texts = sqlite::texts(paths@);
    if let Some(e) = found {
        assert(e@ == sqlite::maybe(found)->0);
        let i = choose|i: int| 0 <= i < names.len() && names[i] == path@;
        assert(all@[i].path@ == path@);
        let j = choose|j: int| 0 <= j < texts.len() && texts[j] == path@;
        assert(paths@[j]@ == path@);
    }
    assert forall|i: int| 0 <= i < all@.len() && (#[trigger] all@[i]).path@ == path@ implies (
    found matches Some(e) && e.size == all@[i].size && e.mtime == all@[i].mtime && e.hash@
        == all@[i].hash@) by {
        assert(names[i] == path@);
        assert(names.contains(path@));
        assert(rows.contains_key(path@));
        assert(found is Some);
        assert(all@[i]@.row == rows[path@]);
        assert(found->0@ == sqlite::maybe(found)->0);
    }
    if exists|i: int| 0 <= i < paths@.len() && (#[trigger] paths@[i])@ == path@ {
        let i = choose|i: int| 0 <= i < paths@.len() && (#[trigger] paths@[i])@ == path@;
        assert(texts[i] == path@);
        assert(texts.contains(path@));
        assert(rows.contains_key(path@));
    }
}

/// Contents are unreferenced exactly if they are known and no file has their hash.
pub proof fn law_unreferenced_contents_have_no_file(
    listing: &mut Catalog,
    hashes: Vec<Vec<u8>>,
    hash: Seq<u8>,
)
    requires
        old(listing)@.exclusive,
        call_ensures(Catalog::unreferenced_blobs, (listing,), Ok(hashes)),
    ensures
        (exists|i: int| 0 <= i < hashes@.len() && (#[trigger] hashes@[i])@ == hash) <==> {
            let t = old(listing)@.tables;
            t.contents.contains_key(hash) && forall|p: Seq<char>| #[trigger]
                t.files.contains_key(p) ==> t.files[p].hash != hash
        },
        final(listing)@ == old(listing)@,
{
    let listed = hashes@.map_values(|v: Vec<u8>| v@);
    if listed.contains(hash) {
        let i = choose|i: int| 0 <= i < listed.len() && listed[i] == hash;
        assert(hashes@[i]@ == hash);
    }
    if exists|i: int| 0 <= i < hashes@.len() && (#[trigger] hashes@[i])@ == hash {
        let i = choose|i: int| 0 <= i < hashes@.len() && (#[trigger] hashes@[i])@ == hash;
        assert(listed[i] == hash);
    }
}

/// A transaction that is given up has not been: everything is as it was when it began. One that is
/// committed stays.
pub proof fn law_giving_up_restores_what_was(beginning: &mut Catalog, ending: &mut Catalog)
    requires
        old(beginning)@.exclusive,
        call_ensures(Catalog::transaction, (beginning,), Ok(())),
        old(ending)@.exclusive,
        old(ending)@.session.begun == final(beginning)@.session.begun,
    ensures
        final(beginning)@.tables == old(beginning)@.tables,
        call_ensures(Catalog::rollback, (ending,), Ok(())) ==> final(ending)@.tables
            == old(beginning)@.tables && final(ending)@.session.begun is None,
        call_ensures(Catalog::commit, (ending,), Ok(())) ==> final(ending)@.tables == old(
            ending,
        )@.tables && final(ending)@.session.begun is None,
{
}

/// A new catalog is empty, and refuses files whose contents are not known.
pub proof fn law_a_new_catalog_is_empty(catalog: Catalog)
    requires
        call_ensures(Catalog::in_memory, (), Ok(catalog)),
    ensures
        catalog@.exclusive,
        catalog@.session.foreign_keys,
        forall|p: Seq<char>| !catalog@.tables.files.contains_key(p),
        forall|h: Seq<u8>| !catalog@.tables.contents.contains_key(h),
{
}

/// Size and time match exactly if both are equal to what is known.
pub proof fn law_metadata_matches_in_both(entry: &Entry, size: i64, mtime: i64, same: bool)
    requires
        call_ensures(Entry::metadata_matches, (entry, size, mtime), same),
    ensures
        same <==> entry.size == size && entry.mtime == mtime,
{
}

} // verus!
