//! The cache and the catalog.

use rusqlite::Connection;
use thylacine::cache;
use thylacine::cache::{
    binding, cache_dir, cache_root, index_path, Binding, Cache, CacheError, Entry,
};
use thylacine::catalog;
use thylacine::catalog::{checked, entries_read, entry_read, Catalog, CatalogError};
use thylacine::path::FilePath;

const ARCHIVE_A: &str = "aaaa1111";
const ARCHIVE_B: &str = "bbbb2222";

fn entry(path: &str, hash: &[u8]) -> Entry {
    Entry {
        path: path.to_string(),
        size: 10,
        mtime: 100,
        hash: hash.to_vec(),
    }
}

/// A database in memory that can be opened more than once, and lives as long as it is open.
fn shared(name: &str) -> Connection {
    Connection::open(format!("file:{name}?mode=memory&cache=shared")).unwrap()
}

#[test]
fn roundtrips_an_entry() {
    let mut cache = Cache::in_memory(ARCHIVE_A).unwrap();
    cache.upsert_source(&entry("/a.txt", b"deadbeef")).unwrap();

    let found = cache.lookup_source("/a.txt").unwrap().unwrap();
    assert_eq!(found.hash, b"deadbeef");
    assert!(found.metadata_matches(10, 100));
    assert!(!found.metadata_matches(10, 101));
    assert!(!found.metadata_matches(11, 100));
    assert_eq!(found.path, "/a.txt");
}

#[test]
fn finds_archived_content_by_hash_not_path() {
    let mut cache = Cache::in_memory(ARCHIVE_A).unwrap();
    cache
        .record_archived(&Entry {
            path: "pics/2023/sunset.jpg".into(),
            size: 10,
            mtime: 100,
            hash: b"deadbeef".to_vec(),
        })
        .unwrap();

    // Same content arriving from a different machine under a different name must still be
    // recognised.
    assert_eq!(
        cache.find_by_hash(b"deadbeef").unwrap(),
        Some("pics/2023/sunset.jpg".to_string())
    );
    assert_eq!(cache.find_by_hash(b"unseen").unwrap(), None);
    assert_eq!(cache.archived_count().unwrap(), 1);
}

#[test]
fn reindex_clears_archived_rows() {
    let mut cache = Cache::in_memory(ARCHIVE_A).unwrap();
    cache.record_archived(&entry("pics/a.jpg", b"deadbeef")).unwrap();
    cache.clear_archived().unwrap();
    assert_eq!(cache.archived_count().unwrap(), 0);
}

#[test]
fn switching_archives_clears_both_tables() {
    let _open = shared("both");
    {
        let mut cache = Cache::at_path(shared("both"), ARCHIVE_A).unwrap();
        cache.upsert_source(&entry("/a.txt", b"deadbeef")).unwrap();
        cache.record_archived(&entry("pics/a.jpg", b"deadbeef")).unwrap();
    }

    let mut cache = Cache::at_path(shared("both"), ARCHIVE_B).unwrap();
    assert!(cache.source_paths().unwrap().is_empty());
    assert_eq!(cache.archived_count().unwrap(), 0);
}

#[test]
fn upsert_replaces_on_conflict() {
    let mut cache = Cache::in_memory(ARCHIVE_A).unwrap();
    cache.upsert_source(&entry("/a.txt", b"old")).unwrap();

    let mut changed = entry("/a.txt", b"new");
    changed.mtime = 200;
    cache.upsert_source(&changed).unwrap();

    assert_eq!(cache.source_paths().unwrap().len(), 1);
    let found = cache.lookup_source("/a.txt").unwrap().unwrap();
    assert_eq!(found.hash, b"new");
    assert_eq!(found.mtime, 200);
}

#[test]
fn cache_survives_reopen_for_the_same_repository() {
    let _open = shared("same");
    {
        let mut cache = Cache::at_path(shared("same"), ARCHIVE_A).unwrap();
        cache.upsert_source(&entry("/a.txt", b"deadbeef")).unwrap();
    }

    let mut cache = Cache::at_path(shared("same"), ARCHIVE_A).unwrap();
    assert_eq!(cache.source_paths().unwrap(), vec!["/a.txt"]);
}

#[test]
fn cache_is_discarded_for_a_different_repository() {
    let _open = shared("diff");
    {
        let mut cache = Cache::at_path(shared("diff"), ARCHIVE_A).unwrap();
        cache.upsert_source(&entry("/a.txt", b"deadbeef")).unwrap();
    }

    // Same file, different repository: trusting these rows would mean skipping files repo B has
    // never seen.
    let mut cache = Cache::at_path(shared("diff"), ARCHIVE_B).unwrap();
    assert!(cache.source_paths().unwrap().is_empty());
    assert_eq!(cache.archive_id().unwrap(), ARCHIVE_B);
}

#[test]
fn two_caches_are_independent() {
    let mut a = Cache::in_memory(ARCHIVE_A).unwrap();
    let mut b = Cache::in_memory(ARCHIVE_B).unwrap();

    a.upsert_source(&entry("/a.txt", b"deadbeef")).unwrap();

    assert_eq!(a.source_paths().unwrap().len(), 1);
    assert!(b.lookup_source("/a.txt").unwrap().is_none());
}

#[test]
fn removing_a_path_forgets_it() {
    let mut cache = Cache::in_memory(ARCHIVE_A).unwrap();
    cache.upsert_source(&entry("/a.txt", b"deadbeef")).unwrap();
    cache.remove_source("/a.txt").unwrap();
    assert!(cache.source_paths().unwrap().is_empty());
}

#[test]
fn paths_come_in_the_order_of_their_characters() {
    let mut cache = Cache::in_memory(ARCHIVE_A).unwrap();
    let names = ["b", "a/b", "a", "\u{10000}", "\u{FFFD}", "Z", "a.b", ""];
    for name in names {
        cache.upsert_source(&entry(name, b"x")).unwrap();
        cache.record_archived(&entry(name, b"x")).unwrap();
    }
    let mut sorted: Vec<String> = names.iter().map(|n| n.to_string()).collect();
    sorted.sort();
    assert_eq!(cache.source_paths().unwrap(), sorted);
    assert_eq!(cache.archived_paths().unwrap(), sorted);
    assert_eq!(cache.archived_count().unwrap(), 8);
}

#[test]
fn odd_values_are_kept_as_they_are() {
    let mut cache = Cache::in_memory(ARCHIVE_A).unwrap();
    let odd = Entry { path: "a\0b".into(), size: -1, mtime: i64::MIN, hash: Vec::new() };
    cache.record_archived(&odd).unwrap();
    let found = cache.archived_entry("a\0b").unwrap().unwrap();
    assert_eq!(found.path, "a\0b");
    assert_eq!((found.size, found.mtime), (-1, i64::MIN));
    assert!(found.hash.is_empty());
    assert!(cache.archived_entry("a").unwrap().is_none());
    assert_eq!(cache.find_by_hash(b"").unwrap(), Some("a\0b".to_string()));
}

#[test]
fn a_transaction_is_kept_or_given_up() {
    let mut cache = Cache::in_memory(ARCHIVE_A).unwrap();
    cache.upsert_source(&entry("/before", b"x")).unwrap();

    cache.transaction().unwrap();
    cache.upsert_source(&entry("/a", b"x")).unwrap();
    cache.remove_source("/before").unwrap();
    cache.rollback().unwrap();
    assert_eq!(cache.source_paths().unwrap(), vec!["/before"]);

    cache.transaction().unwrap();
    cache.upsert_source(&entry("/a", b"x")).unwrap();
    cache.commit().unwrap();
    assert_eq!(cache.source_paths().unwrap(), vec!["/a", "/before"]);

    // Nothing is open any more.
    assert!(matches!(cache.commit(), Err(CacheError::Sqlite(_))));
    assert!(matches!(cache.rollback(), Err(CacheError::Sqlite(_))));
    // And transactions do not nest.
    cache.transaction().unwrap();
    assert!(matches!(cache.transaction(), Err(CacheError::Sqlite(_))));
}

#[test]
fn what_fails_is_undone_and_no_more() {
    let mut cache = Cache::in_memory(ARCHIVE_A).unwrap();
    cache.transaction().unwrap();
    cache.upsert_source(&entry("/a", b"x")).unwrap();
    assert!(cache.transaction().is_err());
    cache.upsert_source(&entry("/b", b"x")).unwrap();
    cache.commit().unwrap();
    assert_eq!(cache.source_paths().unwrap(), vec!["/a", "/b"]);
    assert!(cache.commit().is_err());
    assert!(cache.rollback().is_err());
    assert_eq!(cache.source_paths().unwrap(), vec!["/a", "/b"]);
}

#[test]
fn a_cache_without_an_archive_says_so() {
    let _open = shared("unbound");
    let mut cache = Cache::at_path(shared("unbound"), ARCHIVE_A).unwrap();
    shared("unbound").execute_batch("DELETE FROM meta").unwrap();
    assert!(matches!(
        cache.archive_id(),
        Err(CacheError::Sqlite(rusqlite::Error::QueryReturnedNoRows))
    ));
}

#[test]
fn the_cache_lives_where_caches_live() {
    let p = |t: &str| Some(FilePath::from_text(t));
    let root = |xdg, home| cache_root(xdg, home).into_bytes();
    assert_eq!(root(p("/x"), p("/home/tom")), b"/x/thylacine");
    assert_eq!(root(None, p("/home/tom")), b"/home/tom/.cache/thylacine");
    assert_eq!(root(p(""), p("/home/tom")), b"/home/tom/.cache/thylacine");
    assert_eq!(root(None, None), b"/tmp/thylacine");
    let dir = cache_dir(&FilePath::from_text("/x/thylacine"), ARCHIVE_A);
    assert_eq!(dir.as_bytes(), b"/x/thylacine/aaaa1111");
    assert_eq!(index_path(&dir).as_bytes(), b"/x/thylacine/aaaa1111/index.db");
}

// --- the catalog ---

fn file(path: &str, hash: &[u8]) -> catalog::Entry {
    catalog::Entry { path: path.to_string(), size: 3, mtime: 7, hash: hash.to_vec() }
}

#[test]
fn the_catalog_finds_what_was_recorded() {
    let mut catalog = Catalog::in_memory().unwrap();
    assert!(!catalog.has_blob(b"h1").unwrap());
    catalog.insert_contents(b"h1", 3).unwrap();
    assert!(catalog.has_blob(b"h1").unwrap());
    catalog.insert_contents(b"h1", 4).unwrap();
    catalog.upsert_file(&file("/b", b"h1")).unwrap();
    catalog.upsert_file(&file("/a", b"h1")).unwrap();

    let found = catalog.lookup("/a").unwrap().unwrap();
    assert_eq!((found.path.as_str(), found.hash.as_slice()), ("/a", &b"h1"[..]));
    assert!(found.metadata_matches(3, 7));
    assert!(!found.metadata_matches(3, 8));
    assert!(catalog.lookup("/c").unwrap().is_none());
    assert_eq!(catalog.all_paths().unwrap(), vec!["/a", "/b"]);
    let all = catalog.all().unwrap();
    assert_eq!(all.len(), 2);
    assert_eq!((all[1].path.as_str(), all[1].size, all[1].mtime), ("/b", 3, 7));

    catalog.remove_file("/a").unwrap();
    assert_eq!(catalog.all_paths().unwrap(), vec!["/b"]);
    assert!(catalog.has_blob(b"h1").unwrap());
}

#[test]
fn a_file_needs_known_contents() {
    let mut catalog = Catalog::in_memory().unwrap();
    assert!(catalog.upsert_file(&file("/a", b"unknown")).is_err());
    assert!(catalog.lookup("/a").unwrap().is_none());
    catalog.insert_contents(b"unknown", 3).unwrap();
    assert!(catalog.upsert_file(&file("/a", b"unknown")).is_ok());
}

#[test]
fn a_refused_file_does_not_end_the_transaction() {
    let mut catalog = Catalog::in_memory().unwrap();
    catalog.transaction().unwrap();
    catalog.insert_contents(b"h", 1).unwrap();
    catalog.upsert_file(&file("/a", b"h")).unwrap();
    assert!(catalog.upsert_file(&file("/b", b"unknown")).is_err());
    assert_eq!(catalog.all_paths().unwrap(), vec!["/a"]);
    catalog.commit().unwrap();
    assert_eq!(catalog.all_paths().unwrap(), vec!["/a"]);
}

#[test]
fn a_catalog_transaction_is_kept_or_given_up() {
    let _open = shared("catalog");
    let mut catalog = Catalog::open(shared("catalog")).unwrap();
    catalog.insert_contents(b"h", 1).unwrap();
    catalog.transaction().unwrap();
    catalog.upsert_file(&file("/a", b"h")).unwrap();
    catalog.rollback().unwrap();
    assert!(catalog.all().unwrap().is_empty());
    catalog.transaction().unwrap();
    catalog.upsert_file(&file("/a", b"h")).unwrap();
    catalog.commit().unwrap();
    drop(catalog);
    let mut catalog = Catalog::open(shared("catalog")).unwrap();
    assert_eq!(catalog.all_paths().unwrap(), vec!["/a"]);
}

#[test]
fn a_catalog_has_one_transaction_at_a_time() {
    let mut catalog = Catalog::in_memory().unwrap();
    assert!(catalog.commit().is_err());
    assert!(catalog.rollback().is_err());
    catalog.transaction().unwrap();
    assert!(catalog.transaction().is_err());
    catalog.commit().unwrap();
    assert!(catalog.commit().is_err());
}

#[test]
fn without_its_tables_a_catalog_fails() {
    let open = shared("tables");
    let mut catalog = Catalog::open(shared("tables")).unwrap();
    assert!(catalog.all().unwrap().is_empty());
    open.execute_batch("DROP TABLE files; DROP TABLE contents;").unwrap();
    assert!(catalog.all().is_err());
    assert!(catalog.all_paths().is_err());
    assert!(catalog.lookup("/a").is_err());
    assert!(catalog.has_blob(b"h").is_err());
    assert!(catalog.insert_contents(b"h", 1).is_err());
    assert!(catalog.upsert_file(&file("/a", b"h")).is_err());
    assert!(catalog.remove_file("/a").is_err());
    // Opening it again creates them.
    let mut catalog = Catalog::open(shared("tables")).unwrap();
    catalog.insert_contents(b"h", 1).unwrap();
    catalog.upsert_file(&file("/a", b"h")).unwrap();
    assert_eq!(catalog.all_paths().unwrap(), vec!["/a"]);
}

#[test]
fn what_a_statement_gave_is_handed_on() {
    let error = || rusqlite::Error::QueryReturnedNoRows;
    let row = |path: &str| (path.to_string(), 3i64, 7i64, b"h".to_vec());

    assert_eq!(checked(Ok(5)).unwrap(), 5);
    let CatalogError::Sqlite(e) = checked::<()>(Err(error())).unwrap_err();
    assert_eq!(e, error());

    let found = entry_read(Ok(Some(row("/a")))).unwrap().unwrap();
    assert_eq!((found.path.as_str(), found.size, found.mtime), ("/a", 3, 7));
    assert_eq!(found.hash, b"h");
    assert!(entry_read(Ok(None)).unwrap().is_none());
    assert!(entry_read(Err(error())).is_err());

    let all = entries_read(Ok(vec![row("/b"), row("/a")])).unwrap();
    assert_eq!(all.len(), 2);
    assert_eq!((all[0].path.as_str(), all[1].path.as_str()), ("/b", "/a"));
    assert!(entries_read(Err(error())).is_err());
}

#[test]
fn contents_without_a_file_are_unreferenced() {
    let mut catalog = Catalog::in_memory().unwrap();
    assert!(catalog.unreferenced_blobs().unwrap().is_empty());
    catalog.insert_contents(b"h1", 3).unwrap();
    catalog.insert_contents(b"h2", 4).unwrap();
    catalog.insert_contents(b"h3", 5).unwrap();
    catalog.upsert_file(&file("/a", b"h2")).unwrap();
    catalog.upsert_file(&file("/b", b"h2")).unwrap();
    let mut listed = catalog.unreferenced_blobs().unwrap();
    listed.sort();
    assert_eq!(listed, vec![b"h1".to_vec(), b"h3".to_vec()]);

    // One file less, and still one that has these contents.
    catalog.remove_file("/a").unwrap();
    assert_eq!(catalog.unreferenced_blobs().unwrap().len(), 2);
    catalog.remove_file("/b").unwrap();
    assert_eq!(catalog.unreferenced_blobs().unwrap().len(), 3);
    catalog.upsert_file(&file("/c", b"h1")).unwrap();
    let mut listed = catalog.unreferenced_blobs().unwrap();
    listed.sort();
    assert_eq!(listed, vec![b"h2".to_vec(), b"h3".to_vec()]);
}

#[test]
fn a_read_leaves_the_transaction_open() {
    let mut catalog = Catalog::in_memory().unwrap();
    catalog.transaction().unwrap();
    catalog.insert_contents(b"h", 1).unwrap();
    assert!(catalog.lookup("/a").unwrap().is_none());
    assert!(catalog.has_blob(b"h").unwrap());
    catalog.rollback().unwrap();
    assert!(!catalog.has_blob(b"h").unwrap());
}

// --- the archive that a cache describes ---

#[test]
fn a_cache_is_kept_recorded_or_cleared() {
    assert_eq!(binding(None, ARCHIVE_A), Binding::Record);
    assert_eq!(binding(Some(ARCHIVE_A.to_string()), ARCHIVE_A), Binding::Keep);
    assert_eq!(binding(Some(ARCHIVE_B.to_string()), ARCHIVE_A), Binding::ClearAndRecord);
    assert_eq!(binding(Some(String::new()), ARCHIVE_A), Binding::ClearAndRecord);
}

#[test]
fn what_was_found_decides_what_is_kept() {
    let filled = || {
        let mut cache = Cache::in_memory(ARCHIVE_A).unwrap();
        cache.upsert_source(&entry("/a.txt", b"deadbeef")).unwrap();
        cache.record_archived(&entry("pics/a.jpg", b"deadbeef")).unwrap();
        cache
    };
    let mut cache = filled();
    cache.bind_found(Some(ARCHIVE_A.to_string()), ARCHIVE_A).unwrap();
    assert_eq!((cache.source_paths().unwrap().len(), cache.archived_count().unwrap()), (1, 1));
    assert_eq!(cache.archive_id().unwrap(), ARCHIVE_A);

    let mut cache = filled();
    cache.bind_found(Some(ARCHIVE_A.to_string()), ARCHIVE_B).unwrap();
    assert_eq!((cache.source_paths().unwrap().len(), cache.archived_count().unwrap()), (0, 0));
    assert_eq!(cache.archive_id().unwrap(), ARCHIVE_B);

    let mut cache = filled();
    cache.bind_found(None, ARCHIVE_B).unwrap();
    assert_eq!((cache.source_paths().unwrap().len(), cache.archived_count().unwrap()), (1, 1));
    assert_eq!(cache.archive_id().unwrap(), ARCHIVE_B);
}

#[test]
fn what_the_cache_was_asked_is_handed_on() {
    let error = || rusqlite::Error::InvalidQuery;
    assert_eq!(cache::checked(Ok(5)).unwrap(), 5);
    assert!(matches!(
        cache::checked::<u8>(Err(error())),
        Err(CacheError::Sqlite(rusqlite::Error::InvalidQuery))
    ));
    let row = ("/a".to_string(), 3i64, 7i64, b"h".to_vec());
    let found = cache::entry_read(Ok(Some(row))).unwrap().unwrap();
    assert_eq!((found.path.as_str(), found.size, found.mtime), ("/a", 3, 7));
    assert_eq!(found.hash, b"h");
    assert!(cache::entry_read(Ok(None)).unwrap().is_none());
    assert!(cache::entry_read(Err(error())).is_err());
}

#[test]
fn an_id_that_cannot_be_read_is_an_error() {
    let open = shared("unreadable");
    {
        let mut cache = Cache::at_path(shared("unreadable"), ARCHIVE_A).unwrap();
        cache.upsert_source(&entry("/a.txt", b"deadbeef")).unwrap();
        open.execute_batch("UPDATE meta SET value = x'00ff'").unwrap();
        assert!(matches!(cache.archive_id(), Err(CacheError::Sqlite(_))));
    }

    // The rows of one archive are not taken for those of another.
    assert!(matches!(
        Cache::at_path(shared("unreadable"), ARCHIVE_B),
        Err(CacheError::Sqlite(_))
    ));
    open.execute_batch(&format!("UPDATE meta SET value = '{ARCHIVE_A}'")).unwrap();
    let mut cache = Cache::at_path(shared("unreadable"), ARCHIVE_A).unwrap();
    assert_eq!(cache.source_paths().unwrap(), vec!["/a.txt"]);
}

#[test]
fn a_cache_without_an_id_gets_one() {
    let open = shared("nameless");
    {
        let mut cache = Cache::at_path(shared("nameless"), ARCHIVE_A).unwrap();
        cache.upsert_source(&entry("/a.txt", b"deadbeef")).unwrap();
    }
    open.execute_batch("DELETE FROM meta").unwrap();
    let mut cache = Cache::at_path(shared("nameless"), ARCHIVE_B).unwrap();
    assert_eq!(cache.archive_id().unwrap(), ARCHIVE_B);
    assert_eq!(cache.source_paths().unwrap(), vec!["/a.txt"]);
}
