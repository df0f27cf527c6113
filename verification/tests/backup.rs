//! Walks, archives and whole runs, on a file system that is simulated in memory.

use rusqlite::Connection;
use std::collections::BTreeMap;
use std::io::{Error, ErrorKind};
use thylacine::archive::{
    config_path, name_of_copy, names_a_copy, Archive, ArchiveError, Stored, CONFIG_FILE, TMP_PREFIX,
};
use thylacine::cache::{Cache, CacheError, Entry};
use thylacine::engine::{is_found, is_none, Engine, EngineError, Stats};
use thylacine::hash::{hash_bytes, to_hex};
use thylacine::path::{split_name, FilePath};
use thylacine::reindex::ReindexStep;
use thylacine::run::{indexed, is_unchanged, stored, RunStep};
use thylacine::scan::{
    mtime_secs, walk, FileEntry, Metadata, Modified, ScanError, WalkStep, Walker,
};
use thylacine::stats::Outcome;
use thylacine::store::{with_suffix, StoreStep};

// --- the simulated file system ---

#[derive(Clone, Debug)]
enum Node {
    File { bytes: Vec<u8>, mtime: u64, readable: bool },
    Dir { readable: bool },
    Link,
}

struct Fs {
    nodes: BTreeMap<Vec<u8>, Node>,
    clock: u64,
    hashed: Vec<Vec<u8>>,
}

fn path(text: &str) -> FilePath {
    FilePath::from_text(text)
}

fn missing() -> Error {
    Error::new(ErrorKind::NotFound, "no such file")
}

fn denied() -> Error {
    Error::new(ErrorKind::PermissionDenied, "permission denied")
}

impl Fs {
    fn new() -> Fs {
        let mut nodes = BTreeMap::new();
        nodes.insert(b"/".to_vec(), Node::Dir { readable: true });
        Fs { nodes, clock: 1_700_000_000, hashed: Vec::new() }
    }

    /// Paths are normalised by their parents, so `a/./b//c` and `a/b/c` are one file.
    fn key(p: &FilePath) -> Vec<u8> {
        match (p.parent(), p.file_name()) {
            (Some(dir), Some(name)) => {
                let mut key = Fs::key(&dir);
                if key != b"/" {
                    key.push(b'/');
                }
                key.extend(name);
                key
            }
            _ => b"/".to_vec(),
        }
    }

    fn mkdir(&mut self, p: &FilePath) {
        if let Some(dir) = p.parent() {
            self.mkdir(&dir);
        }
        self.nodes.entry(Fs::key(p)).or_insert(Node::Dir { readable: true });
    }

    fn write(&mut self, p: &FilePath, bytes: &[u8]) -> [u8; 32] {
        self.mkdir(&p.parent().unwrap());
        self.clock += 1;
        let node = Node::File { bytes: bytes.to_vec(), mtime: self.clock, readable: true };
        self.nodes.insert(Fs::key(p), node);
        hash_bytes(bytes)
    }

    fn put(&mut self, root: &FilePath, rel: &str, bytes: &[u8]) {
        self.write(&root.join(&path(rel)), bytes);
    }

    fn remove(&mut self, p: &FilePath) -> bool {
        self.nodes.remove(&Fs::key(p)).is_some()
    }

    fn lock(&mut self, p: &FilePath) {
        match self.nodes.get_mut(&Fs::key(p)).unwrap() {
            Node::File { readable, .. } | Node::Dir { readable } => *readable = false,
            Node::Link => {}
        }
    }

    fn is_there(&self, p: &FilePath) -> bool {
        self.nodes.contains_key(&Fs::key(p))
    }

    fn read(&self, p: &FilePath) -> Result<Vec<u8>, Error> {
        match self.nodes.get(&Fs::key(p)) {
            Some(Node::File { bytes, readable: true, .. }) => Ok(bytes.clone()),
            Some(_) => Err(denied()),
            None => Err(missing()),
        }
    }

    fn hash(&mut self, p: &FilePath) -> Result<[u8; 32], Error> {
        self.hashed.push(Fs::key(p));
        Ok(hash_bytes(&self.read(p)?))
    }

    fn metadata(&self, p: &FilePath) -> Result<Metadata, Error> {
        match self.nodes.get(&Fs::key(p)) {
            Some(Node::File { bytes, mtime, .. }) => Ok(Metadata {
                is_dir: false,
                is_file: true,
                size: bytes.len() as u64,
                modified: Some(Modified::After(*mtime)),
            }),
            Some(Node::Dir { .. }) => Ok(Metadata {
                is_dir: true,
                is_file: false,
                size: 0,
                modified: None,
            }),
            Some(Node::Link) => Ok(Metadata {
                is_dir: false,
                is_file: false,
                size: 0,
                modified: None,
            }),
            None => Err(missing()),
        }
    }

    /// The names of the entries of a directory.
    fn list(&self, p: &FilePath) -> Result<Vec<Vec<u8>>, Error> {
        let key = Fs::key(p);
        match self.nodes.get(&key) {
            Some(Node::Dir { readable: true }) => {}
            Some(_) => return Err(denied()),
            None => return Err(missing()),
        }
        let mut prefix = key.clone();
        if prefix != b"/" {
            prefix.push(b'/');
        }
        Ok(self
            .nodes
            .keys()
            .filter(|k| k.len() > prefix.len() && k.starts_with(&prefix))
            .map(|k| k[prefix.len()..].to_vec())
            .filter(|rest| !rest.contains(&b'/'))
            .collect())
    }
}

// --- driving a walk ---

struct Walk {
    walker: Option<Walker>,
    handles: Vec<Vec<FilePath>>,
    questions: usize,
}

impl Walk {
    fn new(root: &FilePath) -> Walk {
        Walk { walker: Some(walk(root.clone())), handles: Vec::new(), questions: 0 }
    }

    fn next(&mut self, fs: &Fs) -> Option<Result<FileEntry, ScanError>> {
        let mut step = self.walker.take()?.advance();
        loop {
            self.questions += 1;
            step = match step {
                WalkStep::Open(q) => match fs.list(q.path()) {
                    Ok(names) => {
                        let dir = q.path().clone();
                        let entries =
                            names.into_iter().rev().map(|n| dir.join(&FilePath::from_bytes(n)));
                        self.handles.push(entries.collect());
                        q.answer(Ok(()))
                    }
                    Err(e) => q.answer(Err(e)),
                },
                WalkStep::Read(q) => match self.handles.last_mut().unwrap().pop() {
                    Some(entry) => q.answer(Some(Ok(entry))),
                    None => {
                        self.handles.pop();
                        q.answer(None)
                    }
                },
                WalkStep::Stat(q) => {
                    let meta = fs.metadata(q.path());
                    q.answer(meta)
                }
                WalkStep::Found(entry, walker) => {
                    self.walker = Some(walker);
                    return Some(Ok(entry));
                }
                WalkStep::Failed(error, walker) => {
                    self.walker = Some(walker);
                    return Some(Err(error));
                }
                WalkStep::Done => return None,
            };
        }
    }
}

fn walk_all(fs: &Fs, root: &FilePath) -> Vec<Result<FileEntry, ScanError>> {
    let mut walk = Walk::new(root);
    let mut found = Vec::new();
    while let Some(item) = walk.next(fs) {
        found.push(item);
    }
    found
}

fn collect_ok(fs: &Fs, root: &FilePath) -> Vec<String> {
    let mut names: Vec<String> = walk_all(fs, root)
        .into_iter()
        .filter_map(Result::ok)
        .map(|e| {
            let rel = e.path.strip_prefix(root).unwrap();
            String::from_utf8_lossy(rel.as_bytes()).into_owned()
        })
        .collect();
    names.sort();
    names
}

// --- driving the archive ---

fn init(fs: &mut Fs, root: &FilePath) -> Result<Archive, ArchiveError> {
    let new = Archive::init(root, fs.is_there(&config_path(root)))?;
    fs.mkdir(root);
    fs.clock += 1;
    let entropy = hash_bytes(&fs.clock.to_le_bytes());
    let (archive, config) = new.finish(&entropy);
    fs.write(&config_path(root), config.as_bytes());
    Ok(archive)
}

fn open(fs: &Fs, root: &FilePath) -> Result<Archive, ArchiveError> {
    let config = config_path(root);
    if !fs.is_there(&config) {
        return Archive::open(root, None);
    }
    let text = fs.read(&config).map(|bytes| String::from_utf8(bytes).unwrap());
    Archive::open(root, Some(text))
}

fn copy_into_place(fs: &mut Fs, source: &FilePath, temp: &FilePath, dest: &FilePath) -> Result<(), Error> {
    let bytes = fs.read(source)?;
    fs.write(temp, &bytes);
    let node = fs.nodes.remove(&Fs::key(temp)).unwrap();
    fs.nodes.insert(Fs::key(dest), node);
    Ok(())
}

fn store_step<C>(fs: &mut Fs, step: StoreStep<C>) -> StoreStep<C> {
    match step {
        StoreStep::SourceSize(q) => {
            let size = fs.metadata(q.path()).map(|m| m.size);
            q.answer(size)
        }
        StoreStep::Exists(q) => {
            let exists = fs.is_there(&q.path());
            q.answer(exists)
        }
        StoreStep::Size(q) => {
            let size = fs.metadata(&q.path()).map(|m| m.size);
            q.answer(size)
        }
        StoreStep::Hash(q) => {
            let digest = fs.hash(&q.path());
            q.answer(digest)
        }
        StoreStep::Copy(q) => {
            fs.mkdir(q.dir());
            let copied = copy_into_place(fs, q.source(), &q.temp(4242), &q.dest());
            q.answer(copied)
        }
        StoreStep::Done(d) => StoreStep::Done(d),
    }
}

fn store(
    fs: &mut Fs,
    archive: &Archive,
    file: &FilePath,
    root: &FilePath,
    digest: &[u8; 32],
) -> Result<Stored, ArchiveError> {
    let mut step = archive.store(file, root, digest);
    loop {
        step = match step {
            StoreStep::Done(d) => return d.into_parts().1,
            other => store_step(fs, other),
        };
    }
}

// --- driving the engine ---

fn reindex_step<C>(fs: &mut Fs, step: ReindexStep<C>) -> ReindexStep<C> {
    match step {
        ReindexStep::List(q) => {
            let found = walk_all(fs, q.root());
            q.answer(found)
        }
        ReindexStep::Stat(q) => {
            let meta = fs.metadata(&q.path());
            q.answer(meta)
        }
        ReindexStep::Hash(q) => {
            let digest = fs.hash(&q.path());
            q.answer(digest)
        }
        ReindexStep::Done(d) => ReindexStep::Done(d),
    }
}

fn reindex(fs: &mut Fs, engine: Engine) -> (Engine, Result<u64, EngineError>) {
    let mut step = engine.reindex();
    loop {
        step = match step {
            ReindexStep::Done(d) => {
                let (_, engine, count) = d.into_parts();
                return (engine, count);
            }
            other => reindex_step(fs, other),
        };
    }
}

fn run(fs: &mut Fs, engine: Engine) -> (Engine, Result<Stats, EngineError>) {
    let mut step = engine.run();
    let mut source: Option<Walk> = None;
    loop {
        step = match step {
            RunStep::Sweep(q) => {
                let found = walk_all(fs, q.root());
                q.answer(&found)
            }
            RunStep::Remove(q) => {
                for p in q.paths() {
                    assert!(fs.remove(p));
                }
                q.answer()
            }
            RunStep::List(q) => {
                let found = walk_all(fs, q.root());
                let first: Vec<_> = found.into_iter().find(|f| q.is_settled(f)).into_iter().collect();
                q.answer(&first)
            }
            RunStep::Index(ReindexStep::Done(d)) => indexed(d),
            RunStep::Index(s) => RunStep::Index(reindex_step(fs, s)),
            RunStep::Walk(q) => {
                let walk = source.get_or_insert_with(|| Walk::new(q.root()));
                let item = walk.next(fs);
                if item.is_none() {
                    source = None;
                }
                assert!(q.has_room());
                q.answer(item)
            }
            RunStep::Hash(q) => {
                let digest = fs.hash(q.path());
                q.answer(digest)
            }
            RunStep::Store(StoreStep::Done(d)) => stored(d),
            RunStep::Store(s) => RunStep::Store(store_step(fs, s)),
            RunStep::Stat(q) => {
                let meta = fs.metadata(&q.path());
                q.answer(meta)
            }
            RunStep::Handled(h) => {
                assert!(h.has_room());
                h.record()
            }
            RunStep::Done(d) => return d.into_parts(),
        };
    }
}

struct Fixture {
    fs: Fs,
    source_a: FilePath,
    source_b: FilePath,
    dest: FilePath,
}

fn fixture() -> Fixture {
    let mut fs = Fs::new();
    // Source roots are named so their final component is meaningful: that name becomes the
    // archive's top-level directory.
    let (source_a, source_b, dest) =
        (path("/machine-a/Pictures"), path("/machine-b/Pictures"), path("/archive"));
    for p in [&source_a, &source_b, &dest] {
        fs.mkdir(p);
    }
    Fixture { fs, source_a, source_b, dest }
}

fn engine(f: &mut Fixture, sources: Vec<FilePath>) -> Engine {
    let archive = match open(&f.fs, &f.dest) {
        Ok(a) => a,
        Err(_) => init(&mut f.fs, &f.dest).unwrap(),
    };
    let cache = Cache::in_memory(archive.id()).unwrap();
    Engine::new(archive, cache, sources)
}

impl Fixture {
    fn archived(&self, rel: &str) -> bool {
        self.fs.is_there(&self.dest.join(&path(rel)))
    }

    fn names(&self, rel: &str) -> Vec<Vec<u8>> {
        self.fs.list(&self.dest.join(&path(rel))).unwrap()
    }
}

// --- walks ---

#[test]
fn finds_files_at_every_depth() {
    let mut fs = Fs::new();
    let tree = path("/tree");
    fs.put(&tree, "top.jpg", b"a");
    fs.put(&tree, "2023/summer/beach.jpg", b"b");
    fs.put(&tree, "2023/winter/snow.jpg", b"c");

    assert_eq!(
        collect_ok(&fs, &tree),
        vec!["2023/summer/beach.jpg", "2023/winter/snow.jpg", "top.jpg"]
    );
}

#[test]
fn reports_size_and_mtime() {
    let mut fs = Fs::new();
    let tree = path("/tree");
    fs.put(&tree, "photo.jpg", b"twelve bytes");

    let entries: Vec<FileEntry> = walk_all(&fs, &tree).into_iter().filter_map(Result::ok).collect();
    assert_eq!(entries.len(), 1);
    assert_eq!(entries[0].size, 12);
    // Just written, so within a wide sanity window of now.
    assert!(entries[0].mtime > 1_600_000_000);
}

#[test]
fn empty_directories_yield_nothing() {
    let mut fs = Fs::new();
    fs.mkdir(&path("/tree/no-photos-here"));
    assert!(collect_ok(&fs, &path("/tree")).is_empty());
}

#[test]
fn missing_root_yields_one_error_not_a_panic() {
    let results = walk_all(&Fs::new(), &path("/definitely/not/here"));
    assert_eq!(results.len(), 1);
    assert!(results[0].is_err());
}

#[test]
fn symlinks_are_skipped_by_default() {
    let mut fs = Fs::new();
    let tree = path("/tree");
    fs.put(&tree, "real.jpg", b"a");
    fs.nodes.insert(b"/tree/link.jpg".to_vec(), Node::Link);

    assert_eq!(collect_ok(&fs, &tree), vec!["real.jpg"]);
}

#[test]
fn a_symlink_loop_does_not_hang() {
    let mut fs = Fs::new();
    let tree = path("/tree");
    fs.put(&tree, "photos/a.jpg", b"a");
    // Classic trap: a link pointing back at its own ancestor.
    fs.nodes.insert(b"/tree/photos/back".to_vec(), Node::Link);

    assert_eq!(collect_ok(&fs, &tree), vec!["photos/a.jpg"]);
}

#[test]
fn an_unreadable_directory_does_not_abort_the_walk() {
    let mut fs = Fs::new();
    let tree = path("/tree");
    fs.put(&tree, "readable/a.jpg", b"a");
    fs.put(&tree, "readable/b.jpg", b"b");
    fs.put(&tree, "locked/secret.jpg", b"c");
    fs.lock(&path("/tree/locked"));

    let (ok, errs): (Vec<_>, Vec<_>) = walk_all(&fs, &tree).into_iter().partition(Result::is_ok);

    assert_eq!(errs.len(), 1);
    assert_eq!(ok.len(), 2, "the readable files still came through");
    let error = errs.into_iter().next().unwrap().unwrap_err();
    assert_eq!(error.path.as_bytes(), b"/tree/locked");
    assert_eq!(error.source.kind(), ErrorKind::PermissionDenied);
    assert_eq!(error.message("permission denied"), "/tree/locked: permission denied");
}

#[test]
fn non_utf8_filenames_survive() {
    let mut fs = Fs::new();
    let weird = vec![b'p', b'i', b'c', 0xFF, b'.', b'j', b'p', b'g'];
    fs.write(&path("/tree").join(&FilePath::from_bytes(weird.clone())), b"bytes");

    let entries: Vec<FileEntry> =
        walk_all(&fs, &path("/tree")).into_iter().filter_map(Result::ok).collect();
    assert_eq!(entries.len(), 1);
    assert_eq!(entries[0].path.file_name().unwrap(), weird);
}

#[test]
fn iteration_is_lazy() {
    let mut fs = Fs::new();
    let tree = path("/tree");
    for i in 0..50 {
        fs.put(&tree, &format!("dir{}/f{}.jpg", i % 5, i), b"x");
    }

    // Taking three must not require discovering all fifty.
    let mut walk = Walk::new(&tree);
    for _ in 0..3 {
        assert!(walk.next(&fs).unwrap().is_ok());
    }
    assert!(walk.questions < 20, "asked {} questions", walk.questions);
}

#[test]
fn a_file_as_root_yields_an_error() {
    let mut fs = Fs::new();
    fs.put(&path("/tree"), "single.jpg", b"a");

    let results = walk_all(&fs, &path("/tree/single.jpg"));
    assert_eq!(results.len(), 1);
    assert!(results[0].is_err());
}

#[test]
fn an_entry_that_cannot_be_read_is_reported_and_the_walk_goes_on() {
    let step = walk(path("/tree")).advance();
    let WalkStep::Open(q) = step else { panic!("a walk opens its root first") };
    assert_eq!(q.path().as_bytes(), b"/tree");
    let WalkStep::Read(q) = q.answer(Ok(())) else { panic!("then it reads") };
    assert_eq!(q.dir().as_bytes(), b"/tree");
    let WalkStep::Failed(e, walker) = q.answer(Some(Err(denied()))) else {
        panic!("an error is handed out")
    };
    assert_eq!(e.path.as_bytes(), b"/tree");
    let WalkStep::Read(q) = walker.advance() else { panic!("and the walk goes on") };
    let WalkStep::Stat(q) = q.answer(Some(Ok(path("/tree/gone")))) else { panic!("a look") };
    assert_eq!(q.path().as_bytes(), b"/tree/gone");
    assert!(!q.follows());
    let WalkStep::Failed(e, walker) = q.answer(Err(missing())) else { panic!("an error") };
    assert_eq!(e.path.as_bytes(), b"/tree/gone");
    let WalkStep::Read(q) = walker.advance() else { panic!("and the walk goes on") };
    assert!(matches!(q.answer(None), WalkStep::Done));
}

#[test]
fn a_walk_may_follow_symlinks() {
    let step = walk(path("/tree")).follow_symlinks(true).advance();
    let WalkStep::Open(q) = step else { panic!("a walk opens its root first") };
    let WalkStep::Read(q) = q.answer(Ok(())) else { panic!("then it reads") };
    let WalkStep::Stat(q) = q.answer(Some(Ok(path("/tree/link")))) else { panic!("a look") };
    assert!(q.follows());
}

#[test]
fn times_before_the_epoch_are_negative() {
    assert_eq!(mtime_secs(Some(Modified::After(1_000_000_000))), 1_000_000_000);
    assert_eq!(mtime_secs(Some(Modified::Before(86_400))), -86_400);
    // Less than a second before it is before it.
    assert_eq!(mtime_secs(Some(Modified::Before(0))), -1);
    assert_eq!(mtime_secs(Some(Modified::After(0))), 0);
    assert_eq!(mtime_secs(None), 0);
}

// --- archives ---

#[test]
fn init_leaves_existing_contents_alone() {
    let mut fs = Fs::new();
    let dir = path("/archive");
    fs.put(&dir, "Pictures/2019/old.jpg", b"already here");

    let archive = init(&mut fs, &dir).unwrap();

    assert_eq!(archive.id().len(), 64);
    assert_eq!(fs.read(&path("/archive/Pictures/2019/old.jpg")).unwrap(), b"already here");
    assert!(archive.has_contents(&walk_all(&fs, archive.root())));
}

#[test]
fn a_fresh_archive_has_no_contents() {
    let mut fs = Fs::new();
    let archive = init(&mut fs, &path("/archive")).unwrap();
    assert!(
        !archive.has_contents(&walk_all(&fs, archive.root())),
        "config file must not count"
    );
}

#[test]
fn open_refuses_a_plain_directory() {
    let mut fs = Fs::new();
    fs.mkdir(&path("/plain"));
    assert!(matches!(open(&fs, &path("/plain")), Err(ArchiveError::NotAnArchive(_))));
}

#[test]
fn open_recovers_the_id() {
    let mut fs = Fs::new();
    let id = init(&mut fs, &path("/archive")).unwrap().id().to_string();
    assert_eq!(open(&fs, &path("/archive")).unwrap().id(), id);
}

#[test]
fn an_archive_is_not_initialised_twice() {
    let mut fs = Fs::new();
    init(&mut fs, &path("/archive")).unwrap();
    match init(&mut fs, &path("/archive")) {
        Err(e) => {
            assert!(matches!(e, ArchiveError::AlreadyInitialised(_)));
            assert_eq!(e.message(), "/archive is already a thylacine archive");
            assert!(e.source().is_none());
        }
        Ok(_) => panic!("it was initialised before"),
    }
}

#[test]
fn the_config_is_checked() {
    let opened = |text: &str| Archive::open(&path("/a"), Some(Ok(text.to_string())));
    assert_eq!(opened("version = 1\nid = abc\n").unwrap().id(), "abc");
    assert_eq!(opened("# a comment\n\n  id=abc  \nversion =0").unwrap().id(), "abc");
    assert_eq!(opened("version = 1\nid = a=b\nid = c").unwrap().id(), "a=b");
    assert_eq!(opened("version = +1\nid = abc").unwrap().id(), "abc");
    assert_eq!(opened("version = 001\nid =\n").unwrap().id(), "");
    let words = |text: &str| match opened(text) {
        Ok(_) => panic!("this config is malformed"),
        Err(e) => e.message(),
    };
    assert_eq!(words(""), "malformed archive config: missing `version`");
    assert_eq!(words("version = x\nid = a"), "malformed archive config: version is not a number");
    assert_eq!(words("version = -1\nid = a"), "malformed archive config: version is not a number");
    for version in ["", "+", "1.0", "0x1", "4294967296", "1 1"] {
        assert_eq!(
            words(&format!("version = {version}\nid = a")),
            "malformed archive config: version is not a number"
        );
    }
    assert_eq!(
        words("version = 4294967295\nid = a"),
        "archive format version 4294967295 is newer than this build supports"
    );
    assert_eq!(words("version = 1"), "malformed archive config: missing `id`");
    assert_eq!(
        words("version = 2\nid = a"),
        "archive format version 2 is newer than this build supports"
    );
    match Archive::open(&path("/a"), Some(Err(denied()))) {
        Err(e) => {
            assert_eq!(e.message(), "filesystem error");
            assert_eq!(e.source().unwrap().kind(), ErrorKind::PermissionDenied);
        }
        Ok(_) => panic!("the config cannot be read"),
    }
    match Archive::open(&path("/a"), None) {
        Err(e) => assert_eq!(
            e.message(),
            "/a is not a thylacine archive (run `init --dest` first)"
        ),
        Ok(_) => panic!("there is no config"),
    }
}

#[test]
fn the_source_tree_is_replicated_under_its_own_name() {
    let archive = init(&mut Fs::new(), &path("/archive")).unwrap();

    let target = archive
        .target_path(
            &path("/home/tom/Pictures"),
            &path("/home/tom/Pictures/2023/hawaii/sunset.jpg"),
        )
        .unwrap();

    assert_eq!(target, path("Pictures/2023/hawaii/sunset.jpg"));
}

#[test]
fn matching_folder_names_on_two_machines_merge() {
    let archive = init(&mut Fs::new(), &path("/archive")).unwrap();

    let mine = archive
        .target_path(&path("/home/tom/Pictures"), &path("/home/tom/Pictures/2023/beach.jpg"))
        .unwrap();
    let hers = archive
        .target_path(
            &path("/mnt/jane-laptop/Pictures"),
            &path("/mnt/jane-laptop/Pictures/2023/picnic.jpg"),
        )
        .unwrap();

    assert_eq!(mine.parent().unwrap(), path("Pictures/2023"));
    assert_eq!(hers.parent().unwrap(), path("Pictures/2023"));
}

#[test]
fn a_scanned_document_stays_with_documents() {
    let archive = init(&mut Fs::new(), &path("/archive")).unwrap();

    // A rule by extension would have filed this under pics/.
    let scan = archive
        .target_path(
            &path("/home/tom/Documents"),
            &path("/home/tom/Documents/deeds/house-deed.jpg"),
        )
        .unwrap();
    let photo = archive
        .target_path(&path("/home/tom/Pictures"), &path("/home/tom/Pictures/2023/house.jpg"))
        .unwrap();

    assert_eq!(scan, path("Documents/deeds/house-deed.jpg"));
    assert_eq!(photo, path("Pictures/2023/house.jpg"));
}

#[test]
fn trailing_slashes_do_not_change_the_target() {
    let archive = init(&mut Fs::new(), &path("/archive")).unwrap();

    let with = archive
        .target_path(&path("/home/tom/Pictures/"), &path("/home/tom/Pictures/a.jpg"))
        .unwrap();
    let without = archive
        .target_path(&path("/home/tom/Pictures"), &path("/home/tom/Pictures/a.jpg"))
        .unwrap();

    assert_eq!(with, without);
    assert_eq!(with, path("Pictures/a.jpg"));
}

#[test]
fn parent_dir_components_are_rejected() {
    let archive = init(&mut Fs::new(), &path("/archive")).unwrap();
    let result = archive.target_path(&path("/src"), &path("/src/../../../etc/passwd"));
    assert!(matches!(result, Err(ArchiveError::OutsideSourceRoot(_))));
}

#[test]
fn a_root_without_a_name_adds_none() {
    let archive = init(&mut Fs::new(), &path("/archive")).unwrap();
    let target = archive.target_path(&path("/"), &path("/etc/hosts")).unwrap();
    assert_eq!(target.as_bytes(), b"etc/hosts");
    match archive.target_path(&path("/home"), &path("/etc/hosts")) {
        Err(e) => assert_eq!(e.message(), "/etc/hosts is not beneath its source root"),
        Ok(_) => panic!("the file is elsewhere"),
    }
}

#[test]
fn an_absolute_file_is_not_beneath_an_empty_root() {
    let archive = init(&mut Fs::new(), &path("/archive")).unwrap();
    match archive.target_path(&path(""), &path("/etc/passwd")) {
        Err(e) => assert_eq!(e.message(), "/etc/passwd is not beneath its source root"),
        Ok(p) => panic!("{p:?} lies outside the archive"),
    }
    assert_eq!(archive.target_path(&path(""), &path("a/b")).unwrap().as_bytes(), b"a/b");
    assert!(archive.target_path(&path(""), &path("a/../../b")).is_err());
}

#[test]
fn like_named_roots_send_like_files_to_one_place() {
    let archive = init(&mut Fs::new(), &path("/archive")).unwrap();
    for root in ["/home/tom/Pictures", "/mnt/jane/Pictures/", "Pictures", "/x/../Pictures"] {
        for rel in ["a.jpg", "2023//a.jpg", "./2023/a.jpg", "a/", ""] {
            let (root, rel) = (path(root), path(rel));
            assert_eq!(
                archive.target_path(&root, &root.join(&rel)).unwrap(),
                path("Pictures").join(&rel)
            );
        }
    }
}

#[test]
fn stores_a_file_preserving_its_structure() {
    let mut fs = Fs::new();
    let src = path("/src/Pictures");
    let archive = init(&mut fs, &path("/archive")).unwrap();
    let file = src.join(&path("2023/sunset.jpg"));
    let hash = fs.write(&file, b"sunset bytes");

    let stored = store(&mut fs, &archive, &file, &src, &hash).unwrap();

    assert_eq!(stored, Stored::Written(path("Pictures/2023/sunset.jpg")));
    assert_eq!(
        fs.read(&archive.root().join(&path("Pictures/2023/sunset.jpg"))).unwrap(),
        b"sunset bytes"
    );
}

#[test]
fn storing_the_same_file_twice_is_a_no_op() {
    let mut fs = Fs::new();
    let src = path("/src/Pictures");
    let archive = init(&mut fs, &path("/archive")).unwrap();
    let file = src.join(&path("a.jpg"));
    let hash = fs.write(&file, b"bytes");

    assert!(matches!(
        store(&mut fs, &archive, &file, &src, &hash).unwrap(),
        Stored::Written(_)
    ));
    assert!(matches!(
        store(&mut fs, &archive, &file, &src, &hash).unwrap(),
        Stored::AlreadyThere(_)
    ));
}

#[test]
fn colliding_names_with_different_content_are_disambiguated() {
    let mut fs = Fs::new();
    let a_root = path("/a/Pictures");
    let b_root = path("/b/Pictures");
    let archive = init(&mut fs, &path("/archive")).unwrap();

    let a = a_root.join(&path("2023/IMG_1234.jpg"));
    let b = b_root.join(&path("2023/IMG_1234.jpg"));
    let ha = fs.write(&a, b"tom's photo");
    let hb = fs.write(&b, b"jane's different photo");

    let first = store(&mut fs, &archive, &a, &a_root, &ha).unwrap();
    let second = store(&mut fs, &archive, &b, &b_root, &hb).unwrap();

    assert_eq!(first.path(), &path("Pictures/2023/IMG_1234.jpg"));
    assert_ne!(second.path(), first.path());

    let name = second.path().file_name().unwrap();
    assert!(name.starts_with(b"IMG_1234-"), "got {name:?}");
    assert!(name.ends_with(b".jpg"), "got {name:?}");

    assert_eq!(fs.read(&archive.root().join(first.path())).unwrap(), b"tom's photo");
    assert_eq!(
        fs.read(&archive.root().join(second.path())).unwrap(),
        b"jane's different photo"
    );
}

#[test]
fn disambiguation_is_deterministic() {
    let mut fs = Fs::new();
    let a_root = path("/a/Pictures");
    let b_root = path("/b/Pictures");
    let a = a_root.join(&path("x.jpg"));
    let b = b_root.join(&path("x.jpg"));
    let ha = fs.write(&a, b"first");
    let hb = fs.write(&b, b"second");

    let mut names = Vec::new();
    for run in 0..2 {
        let archive = init(&mut fs, &path(&format!("/dst-{run}"))).unwrap();
        store(&mut fs, &archive, &a, &a_root, &ha).unwrap();
        names.push(store(&mut fs, &archive, &b, &b_root, &hb).unwrap().path().clone());
    }
    assert_eq!(names[0], names[1], "same inputs must give the same name");
}

#[test]
fn differently_sized_files_are_distinguished_without_hashing() {
    let mut fs = Fs::new();
    let archive = init(&mut fs, &path("/archive")).unwrap();
    let file = path("/archive/src/a.jpg");
    fs.write(&file, b"some bytes");
    let hash = hash_bytes(b"some bytes");

    let taken = |size: u64| {
        let step = archive.store(&path("/src/a.jpg"), &path("/src"), &hash);
        let StoreStep::SourceSize(q) = step else { panic!("the source is measured first") };
        let StoreStep::Exists(q) = q.answer(Ok(size)) else { panic!("then a name is tried") };
        assert_eq!(q.path(), file);
        let StoreStep::Size(q) = q.answer(true) else { panic!("which is taken") };
        q.answer(Ok(10))
    };

    match taken(10) {
        StoreStep::Hash(q) => {
            let digest = fs.hash(&q.path());
            match q.answer(digest) {
                StoreStep::Done(d) => assert!(matches!(d.into_parts().1, Ok(Stored::AlreadyThere(_)))),
                _ => panic!("the content is there"),
            }
        }
        _ => panic!("only the hash can tell"),
    }
    // Another length settles it: the next name is tried.
    match taken(999) {
        StoreStep::Exists(q) => assert_ne!(q.path(), file),
        _ => panic!("no need to hash"),
    }
}

#[test]
fn suffix_goes_before_the_extension() {
    assert_eq!(
        with_suffix(&path("Pictures/2023/IMG_1234.jpg"), "a19d4c7e"),
        path("Pictures/2023/IMG_1234-a19d4c7e.jpg")
    );
    assert_eq!(
        with_suffix(&path("Documents/README"), "a19d4c7e"),
        path("Documents/README-a19d4c7e")
    );
}

#[test]
fn a_suffix_spells_odd_names_as_well_as_can_be() {
    let marked = |name: &[u8]| with_suffix(&FilePath::from_bytes(name.to_vec()), "0a").into_bytes();
    assert_eq!(marked(b".hidden"), b".hidden-0a");
    assert_eq!(marked(b"a.tar.gz"), b"a.tar-0a.gz");
    assert_eq!(marked(b"x/b\xFF.jpg"), "x/b\u{FFFD}-0a.jpg".as_bytes());
    assert_eq!(marked(b"x/b.j\xFF"), b"x/b-0a");
    assert_eq!(marked(b""), b"-0a");
}

#[test]
fn a_marked_file_keeps_directory_and_extension() {
    for text in ["a/b/IMG.tar.gz", "/IMG_1234.jpg", "README", "a/.hidden", "x/y.", "./z.png"] {
        let plain = path(text);
        let (stem, extension) = split_name(&plain.file_name().unwrap());
        let mut seen = vec![plain.clone()];
        for suffix in ["0", "a19d4c7e", "a19d4c7f", "a19d4c7e00"] {
            let marked = with_suffix(&plain, suffix);
            assert_eq!(marked.parent(), plain.parent());
            let (marked_stem, marked_extension) = split_name(&marked.file_name().unwrap());
            assert_eq!(marked_extension, extension);
            assert_eq!(marked_stem, [&stem[..], b"-", suffix.as_bytes()].concat());
            assert!(!seen.contains(&marked));
            seen.push(marked);
        }
    }
}

#[test]
fn no_temp_files_are_left_behind() {
    let mut fs = Fs::new();
    let src = path("/src/Pictures");
    let archive = init(&mut fs, &path("/archive")).unwrap();
    let file = src.join(&path("a.jpg"));
    let hash = fs.write(&file, b"bytes");
    store(&mut fs, &archive, &file, &src, &hash).unwrap();

    let leftovers: Vec<_> = walk_all(&fs, archive.root())
        .into_iter()
        .filter_map(Result::ok)
        .filter(|e| e.path.file_name().unwrap().starts_with(TMP_PREFIX.as_bytes()))
        .collect();
    assert!(leftovers.is_empty());
}

#[test]
fn entries_lists_archived_files_without_the_config() {
    let mut fs = Fs::new();
    let src = path("/src/Pictures");
    let archive = init(&mut fs, &path("/archive")).unwrap();
    let file = src.join(&path("2023/a.jpg"));
    let hash = fs.write(&file, b"bytes");
    store(&mut fs, &archive, &file, &src, &hash).unwrap();

    let found: Vec<FilePath> = archive
        .get_archived_filepaths(walk_all(&fs, archive.root()))
        .into_iter()
        .filter_map(Result::ok)
        .collect();
    assert_eq!(found, vec![path("Pictures/2023/a.jpg")]);
}

#[test]
fn sweep_removes_interrupted_writes() {
    let mut fs = Fs::new();
    let archive = init(&mut fs, &path("/archive")).unwrap();
    let stray = archive.root().join(&path(&format!("{TMP_PREFIX}9999")));
    fs.write(&stray, b"half a photo");

    let strays = archive.sweep_temp_files(&walk_all(&fs, archive.root()));
    assert_eq!(strays.iter().filter(|p| fs.remove(p)).count(), 1);
    assert!(!fs.is_there(&stray));
}

#[test]
fn only_the_copies_of_some_process_are_swept() {
    let mut fs = Fs::new();
    let archive = init(&mut fs, &path("/archive")).unwrap();
    let others = ["notes", "", "12x", "+12", "012", "4294967296", "1-a19d4c7e", "1.jpg"];
    for other in others {
        fs.put(archive.root(), &format!("Pictures/{TMP_PREFIX}{other}"), b"kept");
    }
    fs.put(archive.root(), &format!("Pictures/x{TMP_PREFIX}12"), b"kept");
    for pid in [0, 7, 4242, u32::MAX] {
        fs.put(archive.root(), &format!("Pictures/{}", name_of_copy(pid)), b"half");
        assert!(names_a_copy(name_of_copy(pid).as_bytes()));
    }
    assert_eq!(name_of_copy(4242), ".thylacine-tmp-4242");
    assert!(!names_a_copy(b".thylacine-tmp-1\xFF"));

    let strays = archive.sweep_temp_files(&walk_all(&fs, archive.root()));
    assert_eq!(strays.iter().filter(|p| fs.remove(p)).count(), 4);
    let left = fs.list(&path("/archive/Pictures")).unwrap();
    assert_eq!(left.len(), others.len() + 1);
    let listed = archive.get_archived_filepaths(walk_all(&fs, archive.root()));
    assert_eq!(listed.len(), others.len() + 1, "what is not swept is listed");
}

#[test]
fn a_config_in_a_folder_is_a_file_like_others() {
    let mut fs = Fs::new();
    let archive = init(&mut fs, &path("/archive")).unwrap();
    fs.put(archive.root(), "Documents/thylacine.conf", b"somebody's notes");

    let found = walk_all(&fs, archive.root());
    assert!(archive.has_contents(&found));
    let listed: Vec<FilePath> =
        archive.get_archived_filepaths(found).into_iter().map(|r| r.unwrap()).collect();
    assert_eq!(listed, vec![path("Documents/thylacine.conf")]);
}

#[test]
fn a_listing_hands_on_errors_which_are_no_contents() {
    let mut fs = Fs::new();
    let archive = init(&mut fs, &path("/archive")).unwrap();
    fs.mkdir(&path("/archive/locked"));
    fs.lock(&path("/archive/locked"));
    fs.write(&path(&format!("/archive/{TMP_PREFIX}1")), b"half");

    assert!(!archive.has_contents(&walk_all(&fs, archive.root())), "an error is no file");

    fs.write(&path("/archive/thylacine.config"), b"not the config");
    let found = walk_all(&fs, archive.root());
    assert!(archive.has_contents(&found));
    assert_eq!(found.iter().filter(|f| archive.is_content(f)).count(), 1);
    let listed = archive.get_archived_filepaths(found);
    let errors = listed.iter().filter(|r| r.is_err()).count();
    let files: Vec<&FilePath> = listed.iter().filter_map(|r| r.as_ref().ok()).collect();
    assert_eq!(errors, 1);
    assert_eq!(files, vec![&path("thylacine.config")]);
    assert_eq!(CONFIG_FILE, "thylacine.conf");
}

/// The names that are tried for one file, one after the other, each taken by other content.
#[test]
fn names_are_widened_until_none_is_left() {
    let archive = init(&mut Fs::new(), &path("/archive")).unwrap();
    let digest = hash_bytes(b"content");
    let hex = to_hex(&digest);
    let mut step = archive.store(&path("/src/2023/a.jpg"), &path("/src"), &digest);
    let mut tried = Vec::new();
    loop {
        step = match step {
            StoreStep::SourceSize(q) => q.answer(Ok(7)),
            StoreStep::Exists(q) => {
                tried.push(q.path());
                q.answer(true)
            }
            StoreStep::Size(q) => q.answer(Ok(7)),
            StoreStep::Hash(q) => q.answer(Ok(hash_bytes(b"other"))),
            StoreStep::Copy(_) => panic!("nothing is free"),
            StoreStep::Done(d) => {
                let e = d.into_parts().1.unwrap_err();
                assert_eq!(e.message(), "could not find a free name for src/2023/a.jpg");
                assert!(matches!(e, ArchiveError::HashSuffixesExhausted(_)));
                break;
            }
        };
    }
    let expected: Vec<FilePath> = [
        "/archive/src/2023/a.jpg".to_string(),
        format!("/archive/src/2023/a-{}.jpg", &hex[..8]),
        format!("/archive/src/2023/a-{}.jpg", &hex[..16]),
        format!("/archive/src/2023/a-{hex}.jpg"),
    ]
    .iter()
    .map(|t| path(t))
    .collect();
    assert_eq!(tried, expected);
}

#[test]
fn a_copy_is_written_under_a_temporary_name_beside_its_place() {
    let archive = init(&mut Fs::new(), &path("/archive")).unwrap();
    let step = archive.store(&path("/src/2023/a.jpg"), &path("/src"), &hash_bytes(b"x"));
    let StoreStep::SourceSize(q) = step else { panic!("the source is measured first") };
    let StoreStep::Exists(q) = q.answer(Ok(1)) else { panic!("then a name is tried") };
    let StoreStep::Copy(q) = q.answer(false) else { panic!("which is free") };
    assert_eq!(q.source().as_bytes(), b"/src/2023/a.jpg");
    assert_eq!(q.dir().as_bytes(), b"/archive/src/2023");
    assert_eq!(q.dest().as_bytes(), b"/archive/src/2023/a.jpg");
    assert_eq!(q.temp(4242).as_bytes(), b"/archive/src/2023/.thylacine-tmp-4242");
    match q.answer(Err(denied())) {
        StoreStep::Done(d) => assert!(matches!(d.into_parts().1, Err(ArchiveError::Io(_)))),
        _ => panic!("the copy failed"),
    }
}

#[test]
fn a_file_that_cannot_be_measured_is_not_stored() {
    let archive = init(&mut Fs::new(), &path("/archive")).unwrap();
    let digest = hash_bytes(b"x");
    let begin = || archive.store(&path("/src/a"), &path("/src"), &digest);
    let StoreStep::SourceSize(q) = begin() else { panic!("the source is measured first") };
    match q.answer(Err(missing())) {
        StoreStep::Done(d) => assert!(matches!(d.into_parts().1, Err(ArchiveError::Io(_)))),
        _ => panic!("the source is gone"),
    }
    let StoreStep::SourceSize(q) = begin() else { panic!("the source is measured first") };
    let StoreStep::Exists(q) = q.answer(Ok(1)) else { panic!("then a name is tried") };
    let StoreStep::Size(q) = q.answer(true) else { panic!("which is taken") };
    match q.answer(Err(denied())) {
        StoreStep::Done(d) => assert!(matches!(d.into_parts().1, Err(ArchiveError::Io(_)))),
        _ => panic!("what has taken it cannot be measured"),
    }
    match archive.store(&path("/elsewhere/a"), &path("/src"), &digest) {
        StoreStep::Done(d) => {
            assert!(matches!(d.into_parts().1, Err(ArchiveError::OutsideSourceRoot(_))))
        }
        _ => panic!("the file is elsewhere"),
    }
}

// --- runs ---

#[test]
fn the_source_tree_is_replicated_verbatim() {
    let mut f = fixture();
    let a = f.source_a.clone();
    f.fs.put(&a, "2023/sunset.jpg", b"photo");
    f.fs.put(&a, "clips/trip.mp4", b"video");
    f.fs.put(&a, "scans/deed.jpg", b"a scanned document");
    f.fs.put(&a, "misc/notes.xyz", b"unknown");

    let engine = engine(&mut f, vec![a]);
    let stats = run(&mut f.fs, engine).1.unwrap();

    assert_eq!(stats.copied, 4);
    assert!(f.archived("Pictures/2023/sunset.jpg"));
    assert!(f.archived("Pictures/clips/trip.mp4"));
    // The scan keeps its folder; no extension rule moves it elsewhere.
    assert!(f.archived("Pictures/scans/deed.jpg"));
    assert!(f.archived("Pictures/misc/notes.xyz"));
}

#[test]
fn different_source_folders_stay_separate() {
    let mut f = fixture();
    let (a, docs) = (f.source_a.clone(), path("/machine-a/Documents"));
    f.fs.put(&a, "2023/house.jpg", b"a photo of the house");
    f.fs.put(&docs, "deeds/house.jpg", b"a scan of the deed");

    let engine = engine(&mut f, vec![a, docs]);
    let stats = run(&mut f.fs, engine).1.unwrap();

    assert_eq!(stats.copied, 2);
    assert!(f.archived("Pictures/2023/house.jpg"));
    assert!(f.archived("Documents/deeds/house.jpg"));
}

#[test]
fn an_existing_archive_is_adopted_not_duplicated() {
    let mut f = fixture();
    let a = f.source_a.clone();
    f.fs.put(&a, "2023/sunset.jpg", b"sunset bytes");

    // The archive already holds this photo, filed by hand somewhere else.
    let archive = init(&mut f.fs, &f.dest.clone()).unwrap();
    f.fs.put(&f.dest.clone(), "Pictures/hawaii-trip/sunset.jpg", b"sunset bytes");

    let cache = Cache::in_memory(archive.id()).unwrap();
    let stats = run(&mut f.fs, Engine::new(archive, cache, vec![a])).1.unwrap();

    assert_eq!(stats.copied, 0, "already present, under a hand-made name");
    assert_eq!(stats.duplicates, 1);
    assert!(!f.archived("Pictures/2023/sunset.jpg"));
}

#[test]
fn two_machines_merge_into_one_year_directory() {
    let mut f = fixture();
    let (a, b) = (f.source_a.clone(), f.source_b.clone());
    f.fs.put(&a, "2023/beach.jpg", b"tom at the beach");
    f.fs.put(&b, "2023/picnic.jpg", b"jane at the picnic");

    let engine = engine(&mut f, vec![a, b]);
    let stats = run(&mut f.fs, engine).1.unwrap();

    assert_eq!(stats.copied, 2);
    assert!(f.archived("Pictures/2023/beach.jpg"));
    assert!(f.archived("Pictures/2023/picnic.jpg"));
}

#[test]
fn identical_content_on_two_machines_is_stored_once() {
    let mut f = fixture();
    let (a, b) = (f.source_a.clone(), f.source_b.clone());
    f.fs.put(&a, "2023/shared.jpg", b"the same photo");
    // Different name, different directory, same bytes.
    f.fs.put(&b, "backup/copy-of-shared.jpg", b"the same photo");

    let engine = engine(&mut f, vec![a, b]);
    let stats = run(&mut f.fs, engine).1.unwrap();

    assert_eq!(stats.copied, 1);
    assert_eq!(stats.duplicates, 1);
    assert!(!f.archived("Pictures/backup/copy-of-shared.jpg"));
}

#[test]
fn same_name_different_photos_both_survive() {
    let mut f = fixture();
    let (a, b) = (f.source_a.clone(), f.source_b.clone());
    f.fs.put(&a, "2023/IMG_1234.jpg", b"tom's photo");
    f.fs.put(&b, "2023/IMG_1234.jpg", b"jane's photo");

    let engine = engine(&mut f, vec![a, b]);
    let stats = run(&mut f.fs, engine).1.unwrap();

    assert_eq!(stats.copied, 2);
    let names = f.names("Pictures/2023");
    assert_eq!(names.len(), 2, "both photos kept: {names:?}");
}

#[test]
fn a_second_run_copies_nothing() {
    let mut f = fixture();
    let a = f.source_a.clone();
    f.fs.put(&a, "2023/a.jpg", b"photo one");
    f.fs.put(&a, "2023/b.jpg", b"photo two");

    let engine = engine(&mut f, vec![a]);
    let (engine, first) = run(&mut f.fs, engine);
    assert_eq!(first.unwrap().copied, 2);
    let hashed = f.fs.hashed.len();

    let second = run(&mut f.fs, engine).1.unwrap();
    assert_eq!(second.copied, 0);
    assert_eq!(second.skipped_unchanged, 2, "metadata cache should hit");
    assert_eq!(f.fs.hashed.len(), hashed, "nothing was opened");
}

#[test]
fn a_changed_document_is_archived_alongside_the_old_one() {
    let mut f = fixture();
    let a = f.source_a.clone();
    f.fs.put(&a, "budget.xlsx", b"version one");

    let engine = engine(&mut f, vec![a.clone()]);
    let (engine, first) = run(&mut f.fs, engine);
    first.unwrap();

    // Edit it. New bytes, new mtime.
    f.fs.put(&a, "budget.xlsx", b"version two, edited");

    let stats = run(&mut f.fs, engine).1.unwrap();
    assert_eq!(stats.copied, 1, "the edit should be archived");

    let names = f.names("Pictures");
    assert_eq!(names.len(), 2, "both versions kept: {names:?}");
}

#[test]
fn a_moved_source_file_is_not_recopied() {
    let mut f = fixture();
    let a = f.source_a.clone();
    f.fs.put(&a, "2023/vacation.jpg", b"beach photo");

    let engine = engine(&mut f, vec![a.clone()]);
    let (engine, first) = run(&mut f.fs, engine);
    first.unwrap();

    // User reorganises: same photo, new folder and name.
    f.fs.remove(&a.join(&path("2023/vacation.jpg")));
    f.fs.put(&a, "2023-hawaii/day-one.jpg", b"beach photo");

    let stats = run(&mut f.fs, engine).1.unwrap();
    assert_eq!(stats.copied, 0);
    assert_eq!(stats.duplicates, 1, "recognised by hash, not path");
}

#[test]
fn reindex_rebuilds_the_archive_index_from_disk() {
    let mut f = fixture();
    let a = f.source_a.clone();
    f.fs.put(&a, "2023/a.jpg", b"photo");

    let first = engine(&mut f, vec![a.clone()]);
    run(&mut f.fs, first).1.unwrap();

    // Simulate losing the cache entirely.
    let fresh = engine(&mut f, vec![a]);
    let (fresh, count) = reindex(&mut f.fs, fresh);
    assert_eq!(count.unwrap(), 1);

    // With the index rebuilt, the source file is recognised as a duplicate rather than copied a
    // second time.
    let stats = run(&mut f.fs, fresh).1.unwrap();
    assert_eq!(stats.copied, 0);
    assert_eq!(stats.duplicates, 1);
}

#[test]
fn archived_rows_describe_the_archived_file_not_the_source() {
    let mut f = fixture();
    let a = f.source_a.clone();
    f.fs.put(&a, "2023/a.jpg", b"photo");

    // Backdate the source so its mtime cannot coincide with the copy's.
    let source = a.join(&path("2023/a.jpg"));
    match f.fs.nodes.get_mut(&Fs::key(&source)).unwrap() {
        Node::File { mtime, .. } => *mtime = 1_000_000_000,
        _ => panic!("a file"),
    }

    let engine = engine(&mut f, vec![a]);
    let (mut engine, stats) = run(&mut f.fs, engine);
    stats.unwrap();

    let on_disk = f.fs.metadata(&f.dest.join(&path("Pictures/2023/a.jpg"))).unwrap();
    let recorded = engine.cache().archived_entry("Pictures/2023/a.jpg").unwrap().unwrap();

    assert_eq!(recorded.mtime, mtime_secs(on_disk.modified));
    assert_ne!(recorded.mtime, 1_000_000_000, "source mtime must not leak in");
    let known = engine.cache().lookup_source("/machine-a/Pictures/2023/a.jpg").unwrap().unwrap();
    assert_eq!(known.mtime, 1_000_000_000);
}

#[test]
fn reindex_records_the_same_metadata_as_a_backup() {
    let mut f = fixture();
    let a = f.source_a.clone();
    f.fs.put(&a, "2023/a.jpg", b"photo");

    let engine = engine(&mut f, vec![a]);
    let (mut engine, stats) = run(&mut f.fs, engine);
    stats.unwrap();

    let from_backup = engine.cache().archived_entry("Pictures/2023/a.jpg").unwrap().unwrap();
    let (mut engine, count) = reindex(&mut f.fs, engine);
    count.unwrap();
    let from_reindex = engine.cache().archived_entry("Pictures/2023/a.jpg").unwrap().unwrap();

    assert_eq!(from_backup.size, from_reindex.size);
    assert_eq!(from_backup.mtime, from_reindex.mtime);
    assert_eq!(from_backup.hash, from_reindex.hash);
}

#[test]
fn an_unreadable_file_does_not_stop_the_run() {
    let mut f = fixture();
    let a = f.source_a.clone();
    f.fs.put(&a, "good.jpg", b"fine");
    f.fs.put(&a, "bad.jpg", b"also fine");
    f.fs.lock(&a.join(&path("bad.jpg")));

    let engine = engine(&mut f, vec![a]);
    let stats = run(&mut f.fs, engine).1.unwrap();

    assert_eq!(stats.errors, 1);
    assert_eq!(stats.copied, 1, "the readable file still got through");
    assert_eq!(stats.bytes_copied, 4);
}

#[test]
fn an_unreadable_directory_counts_as_one_error() {
    let mut f = fixture();
    let a = f.source_a.clone();
    f.fs.put(&a, "locked/a.jpg", b"never seen");
    f.fs.put(&a, "open/b.jpg", b"seen");
    f.fs.lock(&a.join(&path("locked")));

    let engine = engine(&mut f, vec![a]);
    let stats = run(&mut f.fs, engine).1.unwrap();
    assert_eq!((stats.errors, stats.copied), (1, 1));
}

#[test]
fn a_run_sweeps_what_an_interrupted_one_left() {
    let mut f = fixture();
    let a = f.source_a.clone();
    f.fs.put(&a, "a.jpg", b"photo");
    let engine = engine(&mut f, vec![a]);
    f.fs.put(&f.dest.clone(), "Pictures/.thylacine-tmp-77", b"half a photo");

    let (mut engine, stats) = run(&mut f.fs, engine);
    assert_eq!(stats.unwrap().copied, 1);
    assert!(!f.archived("Pictures/.thylacine-tmp-77"));
    assert_eq!(engine.cache().archived_paths().unwrap(), vec!["Pictures/a.jpg"]);
    assert_eq!(engine.archive().root(), &f.dest);
}

#[test]
fn a_file_that_is_there_already_is_recorded_as_a_duplicate() {
    let mut f = fixture();
    let a = f.source_a.clone();
    f.fs.put(&a, "a.jpg", b"photo");
    f.fs.put(&a, "b.jpg", b"other photo");
    let first = engine(&mut f, vec![a.clone()]);
    let (first, stats) = run(&mut f.fs, first);
    stats.unwrap();
    drop(first);

    // The cache knows one file only, so the archive is not indexed.
    let archive = open(&f.fs, &f.dest).unwrap();
    let mut cache = Cache::in_memory(archive.id()).unwrap();
    cache
        .record_archived(&thylacine::cache::Entry {
            path: "Pictures/b.jpg".into(),
            size: 11,
            mtime: 1,
            hash: hash_bytes(b"other photo").to_vec(),
        })
        .unwrap();
    let (mut engine, stats) = run(&mut f.fs, Engine::new(archive, cache, vec![a]));
    let stats = stats.unwrap();
    assert_eq!((stats.copied, stats.duplicates), (0, 2));
    assert!(engine.cache().archived_entry("Pictures/a.jpg").unwrap().is_some());
}

#[test]
fn a_failed_reindex_leaves_the_index_alone() {
    let mut f = fixture();
    let a = f.source_a.clone();
    f.fs.put(&a, "a.jpg", b"photo");
    f.fs.put(&a, "b.jpg", b"other photo");
    let engine = engine(&mut f, vec![a]);
    let (engine, stats) = run(&mut f.fs, engine);
    stats.unwrap();

    f.fs.lock(&f.dest.join(&path("Pictures/b.jpg")));
    let (mut engine, count) = reindex(&mut f.fs, engine);
    assert!(matches!(count, Err(EngineError::Io(_))));
    assert_eq!(
        engine.cache().archived_paths().unwrap(),
        vec!["Pictures/a.jpg", "Pictures/b.jpg"]
    );

    // The connection is usable: the transaction is over.
    let (_, stats) = run(&mut f.fs, engine);
    assert_eq!(stats.unwrap().skipped_unchanged, 2);
}

/// A cache that can be opened more than once, and lives as long as it is open.
fn shared(name: &str) -> Connection {
    Connection::open(format!("file:{name}?mode=memory&cache=shared")).unwrap()
}

/// From now on no row can be inserted into this table, and what is tried is undone in this way.
fn refuse(db: &Connection, table: &str, how: &str) {
    db.execute_batch(&format!(
        "CREATE TRIGGER refuse_{table} BEFORE INSERT ON {table}
         BEGIN SELECT RAISE({how}, 'refused'); END;"
    ))
    .unwrap();
}

#[test]
fn a_file_that_cannot_be_recorded_is_tried_again() {
    let mut f = fixture();
    let a = f.source_a.clone();
    f.fs.put(&a, "a.jpg", b"photo");
    let archive = init(&mut f.fs, &f.dest.clone()).unwrap();
    let db = shared("unrecorded");
    let cache = Cache::at_path(shared("unrecorded"), archive.id()).unwrap();
    refuse(&db, "sources", "ABORT");

    let (mut engine, stats) = run(&mut f.fs, Engine::new(archive, cache, vec![a]));
    let stats = stats.unwrap();
    assert_eq!((stats.copied, stats.errors), (0, 1));
    assert!(f.archived("Pictures/a.jpg"));
    assert!(engine.cache().source_paths().unwrap().is_empty());
    assert_eq!(engine.cache().archived_paths().unwrap(), vec!["Pictures/a.jpg"]);

    db.execute_batch("DROP TRIGGER refuse_sources").unwrap();
    let (mut engine, stats) = run(&mut f.fs, engine);
    let stats = stats.unwrap();
    assert_eq!((stats.copied, stats.duplicates, stats.errors), (0, 1, 0));
    assert_eq!(engine.cache().source_paths().unwrap(), vec!["/machine-a/Pictures/a.jpg"]);
}

#[test]
fn an_index_that_cannot_be_written_stays_as_it_was() {
    for how in ["ABORT", "ROLLBACK"] {
        let mut f = fixture();
        let a = f.source_a.clone();
        f.fs.put(&a, "a.jpg", b"photo");
        let archive = init(&mut f.fs, &f.dest.clone()).unwrap();
        let name = format!("unwritten-{how}");
        let db = shared(&name);
        let cache = Cache::at_path(shared(&name), archive.id()).unwrap();
        let (engine, stats) = run(&mut f.fs, Engine::new(archive, cache, vec![a]));
        assert_eq!(stats.unwrap().copied, 1);
        refuse(&db, "archived", how);

        let mut step = engine.reindex();
        let done = loop {
            step = match step {
                ReindexStep::Done(d) => break d,
                other => reindex_step(&mut f.fs, other),
            };
        };
        // Where the failure has rolled back the transaction, there is nothing left to roll back.
        assert_eq!(done.undone(), how == "ABORT");
        assert_eq!(done.count(), None);
        let (_, mut engine, count) = done.into_parts();
        assert!(matches!(count, Err(EngineError::Cache(_))));
        assert_eq!(engine.cache().archived_paths().unwrap(), vec!["Pictures/a.jpg"]);
        db.execute_batch("DROP TRIGGER refuse_archived").unwrap();
        assert_eq!(reindex(&mut f.fs, engine).1.unwrap(), 1);
    }
}

#[test]
fn without_a_transaction_the_index_is_not_touched() {
    let mut f = fixture();
    let archive = init(&mut f.fs, &f.dest.clone()).unwrap();
    let mut cache = Cache::in_memory(archive.id()).unwrap();
    cache.transaction().unwrap();
    match Engine::new(archive, cache, Vec::new()).reindex() {
        ReindexStep::Done(d) => {
            assert!(!d.undone());
            assert!(matches!(d.into_parts().2, Err(EngineError::Cache(_))));
        }
        _ => panic!("transactions do not nest"),
    }
}

#[test]
fn a_file_that_fails_is_named_with_its_error() {
    let mut f = fixture();
    let a = f.source_a.clone();
    f.fs.put(&a, "bad.jpg", b"unreadable");
    f.fs.lock(&a.join(&path("bad.jpg")));
    let engine = engine(&mut f, vec![a.clone()]);

    let RunStep::Sweep(q) = engine.run() else { panic!("a run sweeps first") };
    let RunStep::Remove(q) = q.answer(&[]) else { panic!("then it removes") };
    assert!(q.paths().is_empty());
    let RunStep::List(q) = q.answer() else { panic!("nothing is known of the archive") };
    let RunStep::Walk(q) = q.answer(&[]) else { panic!("there is nothing to know") };
    assert_eq!(q.root(), &a);
    let file = walk_all(&f.fs, &a).into_iter().next().unwrap();
    let RunStep::Hash(q) = q.answer(Some(file)) else { panic!("a new file is hashed") };
    assert_eq!(q.path().as_bytes(), b"/machine-a/Pictures/bad.jpg");
    let RunStep::Handled(h) = q.answer(Err(denied())) else { panic!("it cannot be read") };
    assert_eq!(h.path().as_bytes(), b"/machine-a/Pictures/bad.jpg");
    assert!(matches!(h.result(), Err(EngineError::Io(_))));
    let RunStep::Walk(q) = h.record() else { panic!("the walk goes on") };
    let RunStep::Done(d) = q.answer(None) else { panic!("that was all") };
    let stats = d.into_parts().1.unwrap();
    assert_eq!(stats.errors, 1);
    assert_eq!(stats.total_seen(), 0);
}

#[test]
fn names_that_are_not_text_are_archived_byte_for_byte() {
    let mut f = fixture();
    let a = f.source_a.clone();
    let name = FilePath::from_bytes(b"pic\xFF.jpg".to_vec());
    f.fs.write(&a.join(&name), b"photo");
    let engine = engine(&mut f, vec![a]);
    let (mut engine, stats) = run(&mut f.fs, engine);
    assert_eq!(stats.unwrap().copied, 1);
    assert!(f.fs.is_there(&f.dest.join(&path("Pictures")).join(&name)));
    // The row is kept under a spelling that no other path has.
    let key = "\0".to_string() + "50696374757265732f706963ff2e6a7067";
    assert_eq!(path("Pictures").join(&name).key(), key);
    assert_eq!(engine.cache().archived_paths().unwrap(), vec![key]);
}

#[test]
fn names_that_differ_in_bytes_that_are_no_text_are_told_apart() {
    let mut f = fixture();
    let a = f.source_a.clone();
    let names = [b"pic\xFE.jpg".to_vec(), b"pic\xFF.jpg".to_vec(), b"pic\xEF\xBF\xBD.jpg".to_vec()];
    for (i, name) in names.iter().enumerate() {
        let file = a.join(&FilePath::from_bytes(name.clone()));
        f.fs.write(&file, format!("photo {i}").as_bytes());
        match f.fs.nodes.get_mut(&Fs::key(&file)).unwrap() {
            Node::File { mtime, .. } => *mtime = 1_000_000_000,
            _ => panic!("a file"),
        }
    }
    let engine = engine(&mut f, vec![a]);
    let (mut engine, stats) = run(&mut f.fs, engine);
    assert_eq!(stats.unwrap().copied, 3, "equal size and time, but different files");
    assert_eq!(engine.cache().archived_count().unwrap(), 3);

    let (engine, stats) = run(&mut f.fs, engine);
    assert_eq!(stats.unwrap().skipped_unchanged, 3);
    let (mut engine, count) = reindex(&mut f.fs, engine);
    assert_eq!(count.unwrap(), 3);
    assert_eq!(engine.cache().archived_count().unwrap(), 3);
    for i in 0..3 {
        let digest = hash_bytes(format!("photo {i}").as_bytes());
        assert!(engine.cache().find_by_hash(&digest).unwrap().is_some());
    }
}

#[test]
fn a_file_that_is_named_like_a_copy_is_archived_and_kept() {
    let mut f = fixture();
    let a = f.source_a.clone();
    f.fs.put(&a, ".thylacine-tmp-notes", b"notes");
    f.fs.put(&a, ".thylacine-tmp-123", b"a number");
    let engine = engine(&mut f, vec![a]);
    let (engine, stats) = run(&mut f.fs, engine);
    assert_eq!(stats.unwrap().copied, 2);

    // A name that copies have would be swept, so the file gets another one.
    let marked = format!("Pictures/.thylacine-tmp-123-{}", &to_hex(&hash_bytes(b"a number"))[..8]);
    assert!(f.archived("Pictures/.thylacine-tmp-notes"));
    assert!(f.archived(&marked));
    assert!(!f.archived("Pictures/.thylacine-tmp-123"));

    let (engine, stats) = run(&mut f.fs, engine);
    assert_eq!(stats.unwrap().skipped_unchanged, 2);
    assert!(f.archived("Pictures/.thylacine-tmp-notes"));
    assert!(f.archived(&marked));

    // It is listed like any other file, so its content is known when the index is rebuilt.
    let (mut engine, count) = reindex(&mut f.fs, engine);
    assert_eq!(count.unwrap(), 2);
    let digest = hash_bytes(b"notes");
    assert_eq!(
        engine.cache().find_by_hash(&digest).unwrap(),
        Some("Pictures/.thylacine-tmp-notes".to_string())
    );
}

#[test]
fn a_run_counts_every_item_once_and_adds_no_duplicates() {
    let mut f = fixture();
    let (a, b) = (f.source_a.clone(), f.source_b.clone());
    for i in 0..6 {
        f.fs.put(&a, &format!("{i}.jpg"), format!("photo {}", i % 4).as_bytes());
        f.fs.put(&b, &format!("b/{i}.jpg"), format!("photo {}", i % 5).as_bytes());
    }
    f.fs.put(&a, "locked/x.jpg", b"never seen");
    f.fs.lock(&a.join(&path("locked")));
    f.fs.lock(&a.join(&path("0.jpg")));
    let engine = engine(&mut f, vec![a.clone(), b.clone()]);
    f.fs.put(&f.dest.clone(), "by-hand/two.jpg", b"photo 2");
    let before = walk_all(&f.fs, &f.dest).len();

    let (_, stats) = run(&mut f.fs, engine);
    let stats = stats.unwrap();
    let items = walk_all(&f.fs, &a).len() + walk_all(&f.fs, &b).len();
    assert_eq!(stats.total_seen() + stats.errors, items as u64);
    assert_eq!((stats.copied, stats.errors), (4, 2));
    assert_eq!(f.fs.read(&f.dest.join(&path("by-hand/two.jpg"))).unwrap(), b"photo 2");

    let files = walk_all(&f.fs, &f.dest);
    assert_eq!(files.len(), before + 4);
    let mut contents: Vec<Vec<u8>> =
        files.into_iter().map(|e| f.fs.read(&e.unwrap().path).unwrap()).collect();
    contents.sort();
    contents.dedup();
    assert_eq!(contents.len(), before + 4, "no two files hold the same");
}

#[test]
fn every_handled_file_is_in_the_archive_and_nothing_there_is_lost() {
    let mut f = fixture();
    let (a, b) = (f.source_a.clone(), f.source_b.clone());
    f.fs.put(&a, "x.jpg", b"one");
    f.fs.put(&a, "y/x.jpg", b"two");
    f.fs.put(&b, "x.jpg", b"six");
    f.fs.put(&b, "z.jpg", b"two");
    let engine = engine(&mut f, vec![a, b]);
    f.fs.put(&f.dest.clone(), "Pictures/x.jpg", b"ten");

    let (mut engine, stats) = run(&mut f.fs, engine);
    let stats = stats.unwrap();
    assert_eq!((stats.copied, stats.duplicates, stats.errors), (3, 1, 0));
    let mut contents: Vec<Vec<u8>> = walk_all(&f.fs, &f.dest)
        .into_iter()
        .map(|e| f.fs.read(&e.unwrap().path).unwrap())
        .filter(|bytes| !bytes.starts_with(b"version"))
        .collect();
    contents.sort();
    assert_eq!(contents, vec![b"one".to_vec(), b"six".to_vec(), b"ten".to_vec(), b"two".to_vec()]);
    for source in engine.cache().source_paths().unwrap() {
        let known = engine.cache().lookup_source(&source).unwrap().unwrap();
        assert!(engine.cache().find_by_hash(&known.hash).unwrap().is_some());
    }
}

/// An answer that the cache may give.
fn refusal() -> CacheError {
    CacheError::Sqlite(rusqlite::Error::InvalidQuery)
}

#[test]
fn what_the_cache_knows_decides_if_the_archive_is_listed() {
    let swept = || {
        let mut f = fixture();
        let a = f.source_a.clone();
        let RunStep::Sweep(q) = engine(&mut f, vec![a]).run() else { panic!("a run sweeps first") };
        let RunStep::Remove(q) = q.answer(&[]) else { panic!("then it removes") };
        q
    };
    assert!(matches!(swept().after_count(Ok(true)), RunStep::List(_)));
    match swept().after_count(Ok(false)) {
        RunStep::Walk(q) => assert_eq!(q.root(), &path("/machine-a/Pictures")),
        _ => panic!("the archive is known"),
    }
    match swept().after_count(Err(EngineError::Cache(refusal()))) {
        RunStep::Done(d) => assert!(matches!(
            d.into_parts().1,
            Err(EngineError::Cache(CacheError::Sqlite(rusqlite::Error::InvalidQuery)))
        )),
        _ => panic!("the cache did not answer"),
    }
}

#[test]
fn what_the_cache_knows_of_a_file_decides_if_it_is_read() {
    let walking = || {
        let mut f = fixture();
        let a = f.source_a.clone();
        let RunStep::Sweep(q) = engine(&mut f, vec![a]).run() else { panic!("a run sweeps first") };
        let RunStep::Remove(q) = q.answer(&[]) else { panic!("then it removes") };
        let RunStep::List(q) = q.answer() else { panic!("nothing is known of the archive") };
        let RunStep::Walk(q) = q.answer(&[]) else { panic!("there is nothing to know") };
        q
    };
    let file = || FileEntry { path: path("/machine-a/Pictures/a.jpg"), size: 5, mtime: 7 };
    let known = |size, mtime| Entry {
        path: "/machine-a/Pictures/a.jpg".to_string(),
        size,
        mtime,
        hash: b"h".to_vec(),
    };
    match walking().after_known(file(), Ok(Some(known(5, 7)))) {
        RunStep::Handled(h) => assert!(matches!(h.result(), Ok(Outcome::Unchanged))),
        _ => panic!("it has not changed"),
    }
    for other in [Some(known(6, 7)), Some(known(5, 8)), None] {
        match walking().after_known(file(), Ok(other)) {
            RunStep::Hash(q) => assert_eq!(q.path(), &path("/machine-a/Pictures/a.jpg")),
            _ => panic!("it is new, or has changed"),
        }
    }
    match walking().after_known(file(), Err(EngineError::Cache(refusal()))) {
        RunStep::Handled(h) => assert!(matches!(
            h.result(),
            Err(EngineError::Cache(CacheError::Sqlite(rusqlite::Error::InvalidQuery)))
        )),
        _ => panic!("the cache did not answer"),
    }
    assert!(is_unchanged(Some(known(5, 7)), 5, 7));
    assert!(!is_unchanged(Some(known(5, 7)), 5, 6));
    assert!(!is_unchanged(None, 5, 7));
}

#[test]
fn what_the_archive_holds_decides_if_a_file_is_stored() {
    let digest = hash_bytes(b"photo");
    let hashed = || {
        let mut f = fixture();
        let a = f.source_a.clone();
        f.fs.put(&a, "a.jpg", b"photo");
        let engine = engine(&mut f, vec![a.clone()]);
        let RunStep::Sweep(q) = engine.run() else { panic!("a run sweeps first") };
        let RunStep::Remove(q) = q.answer(&[]) else { panic!("then it removes") };
        let RunStep::List(q) = q.answer() else { panic!("nothing is known of the archive") };
        let RunStep::Walk(q) = q.answer(&[]) else { panic!("there is nothing to know") };
        let file = walk_all(&f.fs, &a).into_iter().next().unwrap();
        let RunStep::Hash(q) = q.answer(Some(file)) else { panic!("a new file is hashed") };
        q
    };
    match hashed().after_lookup(digest, Ok(true)) {
        RunStep::Handled(h) => {
            assert!(matches!(h.result(), Ok(Outcome::Duplicate)));
            let RunStep::Walk(q) = h.record() else { panic!("the walk goes on") };
            let RunStep::Done(d) = q.answer(None) else { panic!("that was all") };
            let (mut engine, stats) = d.into_parts();
            assert_eq!(stats.unwrap().duplicates, 1);
            let known = engine.cache().lookup_source("/machine-a/Pictures/a.jpg").unwrap().unwrap();
            assert_eq!((known.size, known.hash), (5, digest.to_vec()));
        }
        _ => panic!("the archive holds it"),
    }
    assert!(matches!(hashed().after_lookup(digest, Ok(false)), RunStep::Store(_)));
    match hashed().after_lookup(digest, Err(EngineError::Cache(refusal()))) {
        RunStep::Handled(h) => assert!(matches!(
            h.result(),
            Err(EngineError::Cache(CacheError::Sqlite(rusqlite::Error::InvalidQuery)))
        )),
        _ => panic!("the cache did not answer"),
    }
}

#[test]
fn the_answers_of_the_cache_are_understood() {
    assert!(is_found(Ok(Some("a".to_string()))).unwrap());
    assert!(!is_found(Ok(None)).unwrap());
    assert!(matches!(is_found(Err(refusal())), Err(EngineError::Cache(CacheError::Sqlite(_)))));
    assert!(is_none(Ok(0)).unwrap());
    assert!(!is_none(Ok(1)).unwrap());
    assert!(matches!(is_none(Err(refusal())), Err(EngineError::Cache(CacheError::Sqlite(_)))));
}

#[test]
fn a_lost_cache_loses_nothing_and_adds_no_duplicates() {
    let mut f = fixture();
    let (a, b) = (f.source_a.clone(), f.source_b.clone());
    for i in 0..5 {
        f.fs.put(&a, &format!("{i}.jpg"), format!("photo {i}").as_bytes());
        f.fs.put(&b, &format!("{i}.jpg"), format!("photo {}", i + 3).as_bytes());
    }
    let first = engine(&mut f, vec![a.clone(), b.clone()]);
    assert_eq!(run(&mut f.fs, first).1.unwrap().copied, 8);
    let before = walk_all(&f.fs, &f.dest).len();

    // The cache is gone, one file was moved by hand, and there is a new one.
    let moved = f.dest.join(&path("Pictures/0.jpg"));
    f.fs.remove(&moved);
    f.fs.put(&f.dest.clone(), "by-hand/zero.jpg", b"photo 0");
    f.fs.put(&f.dest.clone(), ".thylacine-tmp-ten", b"photo 10");
    f.fs.put(&b, "new.jpg", b"photo 9");
    f.fs.put(&b, "ten.jpg", b"photo 10");
    let fresh = engine(&mut f, vec![a.clone(), b.clone()]);
    let (mut fresh, stats) = run(&mut f.fs, fresh);
    let stats = stats.unwrap();
    assert_eq!((stats.copied, stats.duplicates, stats.errors), (1, 11, 0));
    assert_eq!(stats.bytes_copied, 7);
    assert_eq!(walk_all(&f.fs, &f.dest).len(), before + 2);
    assert!(!f.archived("Pictures/0.jpg"));

    // What every source file holds is in the archive, and recorded.
    let files = walk_all(&f.fs, &f.dest);
    let kept: Vec<Vec<u8>> =
        files.into_iter().map(|e| f.fs.read(&e.unwrap().path).unwrap()).collect();
    for source in [a, b] {
        for entry in walk_all(&f.fs, &source) {
            let source = entry.unwrap().path;
            let bytes = f.fs.read(&source).unwrap();
            assert!(kept.contains(&bytes));
            let known = fresh.cache().lookup_source(&source.key()).unwrap().unwrap();
            assert_eq!(known.hash, hash_bytes(&bytes));
        }
    }
}

#[test]
fn a_reorganised_archive_gets_no_duplicates() {
    let mut f = fixture();
    let (a, b) = (f.source_a.clone(), f.source_b.clone());
    f.fs.put(&a, "2023/one.jpg", b"photo one");
    f.fs.put(&a, "2023/two.jpg", b"photo two");
    let engine = engine(&mut f, vec![a.clone(), b.clone()]);
    let (engine, stats) = run(&mut f.fs, engine);
    assert_eq!(stats.unwrap().copied, 2);

    // The folder is renamed by hand. The same photos come from another machine, and a new one.
    for (name, bytes) in [("one.jpg", b"photo one"), ("two.jpg", b"photo two")] {
        f.fs.remove(&f.dest.join(&path("Pictures/2023")).join(&path(name)));
        f.fs.put(&f.dest.clone(), &format!("Pictures/2023-hawaii/{name}"), bytes);
    }
    f.fs.put(&b, "x/copy-of-one.jpg", b"photo one");
    f.fs.put(&b, "y/two.jpg", b"photo two");
    f.fs.put(&b, "z/three.jpg", b"photo three");
    let (_, stats) = run(&mut f.fs, engine);
    let stats = stats.unwrap();
    assert_eq!((stats.copied, stats.duplicates, stats.skipped_unchanged), (1, 2, 2));
    assert!(f.archived("Pictures/z/three.jpg"));
    assert!(!f.archived("Pictures/x/copy-of-one.jpg"));
    assert!(!f.archived("Pictures/y/two.jpg"));
}

#[test]
fn stats_say_what_was_done() {
    let mut stats = Stats::default();
    stats.record(Outcome::Copied, 10);
    stats.record(Outcome::Copied, 5);
    stats.record(Outcome::Duplicate, 7);
    stats.record(Outcome::Unchanged, 9);
    stats.record_error();
    assert!(stats.total_fits());
    assert_eq!(stats.total_seen(), 4);
    assert_eq!(
        stats.message(),
        "4 files seen: 2 copied (15 bytes), 1 already archived, 1 unchanged, 1 errors"
    );
    assert!(stats.has_room(Some(Outcome::Copied), u64::MAX - 15));
    assert!(!stats.has_room(Some(Outcome::Copied), u64::MAX - 14));
}
