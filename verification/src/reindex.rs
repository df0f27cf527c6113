//! Rebuilding the index of an archive, one question at a time.
//!
//! This is the recovery path after a lost cache, and also how files that were dragged into the
//! archive by hand become known. It is all or nothing: where a file cannot be read, the index
//! stays as it was.

use crate::archive;
use crate::cache;
use crate::engine;
use crate::engine::{Engine, EngineError};
use crate::path;
use crate::path::FilePath;
use crate::scan;
use crate::scan::{mtime_secs, FileEntry, Metadata, ScanError};
use crate::sqlite;
use crate::store;
use vstd::prelude::*;

verus! {

/// The question what a walk of the archive finds. The caller's `context` travels along.
pub struct ListArchive<C> {
    context: C,
    engine: Engine,
}

/// The question what the file system says of an archived file.
pub struct StatListed<C> {
    context: C,
    engine: Engine,
    listed: Vec<FilePath>,
    next: usize,
}

/// The question what the hash of an archived file is.
pub struct HashListed<C> {
    context: C,
    engine: Engine,
    listed: Vec<FilePath>,
    next: usize,
    size: u64,
    mtime: i64,
}

/// What became of the index.
pub struct ReindexDone<C> {
    context: C,
    engine: Engine,
    result: Result<u64, EngineError>,
    /// What became of rolling the transaction back, where that was tried.
    rollback: Option<Result<(), EngineError>>,
}

/// An index that is being rebuilt: the files that are listed, and how many of them were recorded.
pub struct IndexingView {
    pub engine: engine::EngineView,
    pub listed: Seq<Seq<u8>>,
    pub next: int,
}

impl IndexingView {
    /// The file that comes next, relative to the archive root.
    pub open spec fn file(self) -> Seq<u8> {
        self.listed[self.next]
    }

    /// Where that is.
    pub open spec fn place(self) -> Seq<u8> {
        path::join(self.engine.archive.root, self.file())
    }
}

/// What there is to do next for an index that is rebuilt.
pub enum ReindexStep<C> {
    /// Walk the archive.
    List(ListArchive<C>),
    /// Ask for the metadata of a file.
    Stat(StatListed<C>),
    /// Hash a file.
    Hash(HashListed<C>),
    /// Nothing.
    Done(ReindexDone<C>),
}

/// A [`ReindexStep`] with its paths as bytes.
pub enum ReindexView {
    List(engine::EngineView),
    Stat(IndexingView),
    Hash(IndexingView, u64, i64),
    /// The number of files, or what failed; and what became of rolling the transaction back, where
    /// that was tried.
    Done(
        engine::EngineView,
        Result<u64, engine::EngineErrorView>,
        Option<Result<(), engine::EngineErrorView>>,
    ),
}

impl<C> View for ListArchive<C> {
    type V = engine::EngineView;

    closed spec fn view(&self) -> engine::EngineView {
        self.engine@
    }
}

impl<C> View for StatListed<C> {
    type V = IndexingView;

    closed spec fn view(&self) -> IndexingView {
        IndexingView {
            engine: self.engine@,
            listed: path::bytes_of(self.listed@),
            next: self.next as int,
        }
    }
}

impl<C> View for HashListed<C> {
    type V = (IndexingView, u64, i64);

    closed spec fn view(&self) -> (IndexingView, u64, i64) {
        (
            IndexingView {
                engine: self.engine@,
                listed: path::bytes_of(self.listed@),
                next: self.next as int,
            },
            self.size,
            self.mtime,
        )
    }
}

/// A number, or an error with its paths as bytes.
pub open spec fn count_view(r: Result<u64, EngineError>) -> Result<u64, engine::EngineErrorView> {
    match r {
        Ok(n) => Ok(n),
        Err(e) => Err(e@),
    }
}

/// What became of a statement, with its paths as bytes.
pub open spec fn done_view(r: Result<(), EngineError>) -> Result<(), engine::EngineErrorView> {
    match r {
        Ok(_) => Ok(()),
        Err(e) => Err(e@),
    }
}

/// What became of rolling a transaction back, with its paths as bytes.
pub open spec fn rollback_view(r: Option<Result<(), EngineError>>) -> Option<
    Result<(), engine::EngineErrorView>,
> {
    match r {
        Some(done) => Some(done_view(done)),
        None => None,
    }
}

impl<C> View for ReindexDone<C> {
    type V = (
        engine::EngineView,
        Result<u64, engine::EngineErrorView>,
        Option<Result<(), engine::EngineErrorView>>,
    );

    closed spec fn view(&self) -> (
        engine::EngineView,
        Result<u64, engine::EngineErrorView>,
        Option<Result<(), engine::EngineErrorView>>,
    ) {
        (self.engine@, count_view(self.result), rollback_view(self.rollback))
    }
}

impl<C> View for ReindexStep<C> {
    type V = ReindexView;

    open spec fn view(&self) -> ReindexView {
        match *self {
            ReindexStep::List(q) => ReindexView::List(q@),
            ReindexStep::Stat(q) => ReindexView::Stat(q@),
            ReindexStep::Hash(q) => ReindexView::Hash(q@.0, q@.1, q@.2),
            ReindexStep::Done(d) => ReindexView::Done(d@.0, d@.1, d@.2),
        }
    }
}

impl<C> ReindexStep<C> {
    /// What the caller sent along.
    pub closed spec fn context(self) -> C {
        match self {
            ReindexStep::List(q) => q.context,
            ReindexStep::Stat(q) => q.context,
            ReindexStep::Hash(q) => q.context,
            ReindexStep::Done(d) => d.context,
        }
    }
}

/// The files among what a listing says; its errors are passed over.
pub open spec fn files_of(listed: Seq<Result<Seq<u8>, scan::ErrorView>>) -> Seq<Seq<u8>>
    decreases listed.len(),
{
    if listed.len() == 0 {
        Seq::empty()
    } else {
        match listed.last() {
            Ok(p) => files_of(listed.drop_last()).push(p),
            Err(_) => files_of(listed.drop_last()),
        }
    }
}

/// The archived files that a walk has found.
pub open spec fn found_files(
    root: Seq<u8>,
    found: Seq<Result<scan::FileView, scan::ErrorView>>,
) -> Seq<Seq<u8>> {
    files_of(archive::listed_all(root, found))
}

// ---------------------------------------------------------------------------------------------
// What follows upon what.
// ---------------------------------------------------------------------------------------------

/// A transaction was rolled back.
pub open spec fn rolled_back(rollback: Option<Result<(), engine::EngineErrorView>>) -> bool {
    rollback matches Some(Ok(_))
}

/// A transaction was rolled back, or that was tried and has failed.
pub open spec fn tried_rollback(rollback: Option<Result<(), engine::EngineErrorView>>) -> bool {
    match rollback {
        Some(Ok(_)) => true,
        Some(Err(e)) => engine::is_sqlite(e),
        None => false,
    }
}

/// A statement within the transaction has failed, and rolling the transaction back was tried. Either
/// of them has left the cache as it was, or rolled it back.
pub open spec fn fails_within(was: engine::EngineView, step: ReindexView) -> bool {
    match step {
        ReindexView::Done(e, Err(error), rollback) => {
            &&& engine::is_sqlite(error)
            &&& tried_rollback(rollback)
            &&& engine::cache_moved(was, e, !rolled_back(rollback), was.cache.rolled_back())
        },
        _ => false,
    }
}

/// What follows when a transaction was to be begun: the index is emptied. Where no transaction could
/// be begun, there is nothing to roll back.
pub open spec fn after_begin(
    was: engine::EngineView,
    begun: Result<(), engine::EngineErrorView>,
    step: ReindexView,
) -> bool {
    match begun {
        Err(e) => step == ReindexView::Done(was, Err(e), None),
        Ok(_) => {
            ||| fails_within(was, step)
            ||| step matches ReindexView::List(e) && engine::cache_moved(
                was,
                e,
                false,
                was.cache.with(sqlite::Tables { archived: Map::empty(), ..was.cache.tables }),
            )
        },
    }
}

/// Rebuilding the index begins with a transaction.
pub open spec fn begins(was: engine::EngineView, step: ReindexView) -> bool {
    exists|e: engine::EngineView, begun: Result<(), engine::EngineErrorView>|
        {
            &&& engine::cache_moved(was, e, begun is Err, was.cache.begun())
            &&& begun matches Err(error) ==> engine::is_sqlite(error)
            &&& #[trigger] after_begin(e, begun, step)
        }
}

/// The next file is looked at. When there is none, the new index is kept.
pub open spec fn continues(was: IndexingView, step: ReindexView) -> bool {
    if was.next < was.listed.len() {
        step == ReindexView::Stat(was)
    } else {
        step matches ReindexView::Done(e, r, rollback) && rollback is None && engine::cache_moved(
            was.engine,
            e,
            r is Err,
            was.engine.cache.committed(),
        ) && match r {
            Ok(n) => n == was.listed.len() as u64,
            Err(error) => engine::is_sqlite(error),
        }
    }
}

/// A file that cannot be read ends it, and the index is what it was before.
pub open spec fn gives_up(
    was: engine::EngineView,
    error: engine::EngineErrorView,
    step: ReindexView,
) -> bool {
    step matches ReindexView::Done(e, r, rollback) && tried_rollback(rollback) && r == Err::<
        u64,
        engine::EngineErrorView,
    >(error) && engine::cache_moved(
        was,
        e,
        !rolled_back(rollback),
        was.cache.rolled_back(),
    )
}

/// What follows when the file system was asked for the metadata of a file.
pub open spec fn after_stat(
    was: IndexingView,
    meta: Result<Metadata, std::io::Error>,
    step: ReindexView,
) -> bool {
    match meta {
        Ok(m) => step == ReindexView::Hash(was, m.size, scan::spec_mtime_secs(m.modified)),
        Err(e) => gives_up(was.engine, engine::EngineErrorView::Io(e), step),
    }
}

/// The file that comes next was recorded.
pub open spec fn recorded(was: IndexingView, size: u64, mtime: i64, digest: Seq<u8>) -> IndexingView {
    IndexingView {
        engine: was.engine.with(
            was.engine.cache.with(
                cache::with_archived(
                    was.engine.cache.tables,
                    engine::entry_of(was.file(), size, mtime, digest),
                ),
            ),
        ),
        next: was.next + 1,
        ..was
    }
}

/// What follows when a file was hashed: it is recorded.
pub open spec fn after_hash(
    was: IndexingView,
    size: u64,
    mtime: i64,
    digest: Result<Seq<u8>, std::io::Error>,
    step: ReindexView,
) -> bool {
    match digest {
        Err(e) => gives_up(was.engine, engine::EngineErrorView::Io(e), step),
        Ok(d) => {
            ||| fails_within(was.engine, step)
            ||| exists|e: engine::EngineView|
                {
                    &&& engine::cache_moved(
                        was.engine,
                        e,
                        false,
                        recorded(was, size, mtime, d).engine.cache,
                    )
                    &&& #[trigger] continues(
                        IndexingView { engine: e, next: was.next + 1, ..was },
                        step,
                    )
                }
        },
    }
}

// ---------------------------------------------------------------------------------------------
// The steps.
// ---------------------------------------------------------------------------------------------

/// The index cannot be rebuilt: whatever was written to it is given up.
fn give_up<C>(context: C, engine: Engine, error: EngineError) -> (step: ReindexStep<C>)
    ensures
        gives_up(engine@, error@, step@),
        step.context() == context,
{
    let mut engine = engine;
    let rollback = Some(engine.rollback());
    ReindexStep::Done(ReindexDone { context, engine, result: Err(error), rollback })
}

/// Empty the index, if a transaction could be begun.
fn empty_index<C>(context: C, engine: Engine, begun: Result<(), EngineError>) -> (step: ReindexStep<
    C,
>)
    ensures
        after_begin(engine@, done_view(begun), step@),
        step.context() == context,
{
    let mut engine = engine;
    match begun {
        Ok(_) => {},
        Err(e) => {
            return ReindexStep::Done(
                ReindexDone { context, engine, result: Err(e), rollback: None },
            );
        },
    }
    match engine.clear_archived() {
        Ok(_) => ReindexStep::List(ListArchive { context, engine }),
        Err(e) => give_up(context, engine, e),
    }
}

/// Go on with the file at position `next`.
fn go_on<C>(context: C, engine: Engine, listed: Vec<FilePath>, next: usize) -> (step: ReindexStep<C>)
    requires
        next <= listed@.len(),
    ensures
        continues(
            IndexingView { engine: engine@, listed: path::bytes_of(listed@), next: next as int },
            step@,
        ),
        step.context() == context,
{
    if next < listed.len() {
        return ReindexStep::Stat(StatListed { context, engine, listed, next });
    }
    let mut engine = engine;
    let result = match engine.commit() {
        Ok(_) => Ok(next as u64),
        Err(e) => Err(e),
    };
    ReindexStep::Done(ReindexDone { context, engine, result, rollback: None })
}

impl Engine {
    /// Rebuild the archive index by walking the archive and re-hashing.
    pub fn reindex(self) -> (step: ReindexStep<()>)
        ensures
            begins(self@, step@),
    {
        self.reindex_for(())
    }

    /// [`Engine::reindex`], with something of the caller's that travels along.
    pub fn reindex_for<C>(self, context: C) -> (step: ReindexStep<C>)
        ensures
            begins(self@, step@),
            step.context() == context,
    {
        let mut engine = self;
        let begun = engine.begin();
        let ghost e = engine@;
        let ghost result = done_view(begun);
        let step = empty_index(context, engine, begun);
        assert(after_begin(e, result, step@));
        step
    }
}

impl<C> ListArchive<C> {
    /// The directory to walk.
    pub fn root(&self) -> (root: &FilePath)
        ensures
            root@ == self@.archive.root,
    {
        self.engine.archive().root()
    }

    pub fn answer(self, found: Vec<Result<FileEntry, ScanError>>) -> (step: ReindexStep<C>)
        ensures
            continues(
                IndexingView {
                    engine: self@,
                    listed: found_files(self@.archive.root, archive::walked_all(found@)),
                    next: 0,
                },
                step@,
            ),
            step.context() == ReindexStep::List(self).context(),
    {
        let paths = self.engine.archive().get_archived_filepaths(found);
        let mut listed: Vec<FilePath> = Vec::new();
        let ghost all = archive::paths_view(paths@);
        assert(path::bytes_of(listed@) =~= files_of(all.take(0)));
        for r in it: paths
            invariant
                all == archive::paths_view(it.seq()),
                path::bytes_of(listed@) == files_of(all.take(it.index() as int)),
        {
            let ghost before = listed@;
            let ghost seen = all.take(it.index() + 1);
            assert(seen.drop_last() =~= all.take(it.index() as int));
            match r {
                Ok(p) => {
                    assert(seen.last() == Ok::<Seq<u8>, scan::ErrorView>(p@));
                    listed.push(p);
                    assert(path::bytes_of(listed@) =~= path::bytes_of(before).push(p@));
                },
                Err(e) => {
                    assert(seen.last() == Err::<Seq<u8>, scan::ErrorView>(e@));
                },
            }
        }
        assert(all.take(all.len() as int) =~= all);
        go_on(self.context, self.engine, listed, 0)
    }
}

impl<C> StatListed<C> {
    #[verifier::type_invariant]
    spec fn in_list(self) -> bool {
        self.next < self.listed@.len()
    }

    /// The file to ask for.
    pub fn path(&self) -> (p: FilePath)
        ensures
            self@.next < self@.listed.len(),
            p@ == self@.place(),
    {
        proof {
            use_type_invariant(self);
        }
        self.engine.archive().root().join(&self.listed[self.next])
    }

    pub fn answer(self, meta: Result<Metadata, std::io::Error>) -> (step: ReindexStep<C>)
        ensures
            after_stat(self@, meta, step@),
            step.context() == ReindexStep::Stat(self).context(),
    {
        proof {
            use_type_invariant(&self);
        }
        match meta {
            Ok(m) => ReindexStep::Hash(
                HashListed {
                    context: self.context,
                    engine: self.engine,
                    listed: self.listed,
                    next: self.next,
                    size: m.size,
                    mtime: mtime_secs(m.modified),
                },
            ),
            Err(e) => give_up(self.context, self.engine, EngineError::Io(e)),
        }
    }
}

impl<C> HashListed<C> {
    #[verifier::type_invariant]
    spec fn in_list(self) -> bool {
        self.next < self.listed@.len()
    }

    /// The file to hash.
    pub fn path(&self) -> (p: FilePath)
        ensures
            self@.0.next < self@.0.listed.len(),
            p@ == self@.0.place(),
    {
        proof {
            use_type_invariant(self);
        }
        self.engine.archive().root().join(&self.listed[self.next])
    }

    pub fn answer(self, digest: Result<[u8; 32], std::io::Error>) -> (step: ReindexStep<C>)
        ensures
            after_hash(self@.0, self@.1, self@.2, store::digest_read(digest), step@),
            step.context() == ReindexStep::Hash(self).context(),
    {
        proof {
            use_type_invariant(&self);
        }
        let ghost was = self@.0;
        let context = self.context;
        let listed = self.listed;
        let next = self.next;
        let mut engine = self.engine;
        assert(next < listed.len());
        let d = match digest {
            Ok(d) => d,
            Err(e) => {
                return give_up(context, engine, EngineError::Io(e));
            },
        };
        match engine.record_archived(&listed[next], self.size, self.mtime, &d) {
            Ok(_) => {
                let ghost e = engine@;
                let step = go_on(context, engine, listed, next + 1);
                assert(continues(IndexingView { engine: e, next: was.next + 1, ..was }, step@));
                step
            },
            Err(e) => give_up(context, engine, e),
        }
    }
}

impl<C> ReindexDone<C> {
    /// Was the transaction rolled back, so that the index is what it was before?
    pub fn undone(&self) -> (undone: bool)
        ensures
            undone == rolled_back(self@.2),
    {
        match &self.rollback {
            Some(Ok(_)) => true,
            _ => false,
        }
    }

    /// The number of files that were recorded, if the index was rebuilt.
    pub fn count(&self) -> (count: Option<u64>)
        ensures
            match count {
                Some(n) => self@.1 == Ok::<u64, engine::EngineErrorView>(n),
                None => self@.1 is Err,
            },
    {
        match &self.result {
            Ok(n) => Some(*n),
            Err(_) => None,
        }
    }

    /// What the caller sent along, the engine, and the number of files that were recorded.
    pub fn into_parts(self) -> (parts: (C, Engine, Result<u64, EngineError>))
        ensures
            parts.0 == ReindexStep::Done(self).context(),
            parts.1@ == self@.0,
            count_view(parts.2) == self@.1,
    {
        (self.context, self.engine, self.result)
    }
}

// ---------------------------------------------------------------------------------------------
// Laws.
// ---------------------------------------------------------------------------------------------

/// What the file system says of an archived file.
pub struct ArchivedFile {
    pub size: u64,
    pub mtime: i64,
    pub digest: Seq<u8>,
}

/// The archived files by their places.
pub type Disk = Map<Seq<u8>, ArchivedFile>;

/// The row of an archived file.
pub open spec fn row_on_disk(root: Seq<u8>, file: Seq<u8>, disk: Disk) -> sqlite::EntryView {
    let f = disk[path::join(root, file)];
    engine::entry_of(file, f.size, f.mtime, f.digest)
}

/// The index of the first `n` of the listed files.
pub open spec fn index_of(root: Seq<u8>, listed: Seq<Seq<u8>>, disk: Disk, n: int) -> Map<
    Seq<char>,
    sqlite::Row,
>
    decreases n,
{
    if n <= 0 {
        Map::empty()
    } else {
        let entry = row_on_disk(root, listed[n - 1], disk);
        index_of(root, listed, disk, n - 1).insert(entry.path, entry.row)
    }
}

/// The engine with the index of the first `n` listed files, within the transaction.
pub open spec fn indexing(
    start: engine::EngineView,
    listed: Seq<Seq<u8>>,
    disk: Disk,
    n: int,
) -> engine::EngineView {
    start.with(
        start.cache.begun().with(
            sqlite::Tables {
                archived: index_of(start.archive.root, listed, disk, n),
                ..start.cache.tables
            },
        ),
    )
}

/// One step leads to the next where the answers are true: a walk of the archive finds `found`, and
/// each file is what it is on disk, or cannot be read.
pub open spec fn truly_leads_to(
    found: Seq<Result<scan::FileView, scan::ErrorView>>,
    disk: Disk,
    step: ReindexView,
    next: ReindexView,
) -> bool {
    match step {
        ReindexView::List(e) => continues(
            IndexingView { engine: e, listed: found_files(e.archive.root, found), next: 0 },
            next,
        ),
        ReindexView::Stat(v) => {
            ||| next == ReindexView::Hash(v, disk[v.place()].size, disk[v.place()].mtime)
            ||| exists|e: std::io::Error| #[trigger]
                gives_up(v.engine, engine::EngineErrorView::Io(e), next)
        },
        ReindexView::Hash(v, size, mtime) => {
            ||| after_hash(v, size, mtime, Ok(disk[v.place()].digest), next)
            ||| exists|e: std::io::Error| #[trigger]
                gives_up(v.engine, engine::EngineErrorView::Io(e), next)
        },
        ReindexView::Done(..) => false,
    }
}

/// A whole rebuilding, from its beginning to its end.
pub open spec fn is_rebuilding(
    start: engine::EngineView,
    found: Seq<Result<scan::FileView, scan::ErrorView>>,
    disk: Disk,
    steps: Seq<ReindexView>,
) -> bool {
    &&& steps.len() > 0
    &&& begins(start, steps[0])
    &&& forall|i: int|
        0 <= i < steps.len() - 1 ==> truly_leads_to(found, disk, #[trigger] steps[i], steps[i + 1])
    &&& steps.last() is Done
}

/// Nothing was kept of what was done: the tables are what they were, or they will be as soon as the
/// transaction, which is open still, is given up. Where a transaction was open before, it may have been
/// given up.
pub open spec fn given_up(was: sqlite::Database, is: sqlite::Database) -> bool {
    is.tables == was.tables || is.session.begun == Some(was.tables) || is == was.rolled_back()
}

/// What holds at every step of rebuilding.
pub open spec fn on_track(
    start: engine::EngineView,
    found: Seq<Result<scan::FileView, scan::ErrorView>>,
    disk: Disk,
    step: ReindexView,
) -> bool {
    let listed = found_files(start.archive.root, found);
    match step {
        ReindexView::List(e) => e == indexing(start, listed, disk, 0),
        ReindexView::Stat(v) => {
            &&& v.listed == listed
            &&& 0 <= v.next < listed.len()
            &&& v.engine == indexing(start, listed, disk, v.next)
        },
        ReindexView::Hash(v, size, mtime) => {
            &&& v.listed == listed
            &&& 0 <= v.next < listed.len()
            &&& v.engine == indexing(start, listed, disk, v.next)
            &&& size == disk[v.place()].size
            &&& mtime == disk[v.place()].mtime
        },
        ReindexView::Done(e, Ok(n), _) => {
            &&& n == listed.len() as u64
            &&& e == start.with(
                indexing(start, listed, disk, listed.len() as int).cache.committed(),
            )
        },
        ReindexView::Done(e, Err(_), rollback) => {
            &&& e == start.with(e.cache)
            &&& given_up(start.cache, e.cache)
            &&& rolled_back(rollback) ==> e.cache == start.cache.begun().rolled_back()
        },
    }
}

proof fn lemma_continues_on_track(
    start: engine::EngineView,
    found: Seq<Result<scan::FileView, scan::ErrorView>>,
    disk: Disk,
    v: IndexingView,
    step: ReindexView,
)
    requires
        start.cache.exclusive,
        v.listed == found_files(start.archive.root, found),
        0 <= v.next <= v.listed.len(),
        v.engine == indexing(start, v.listed, disk, v.next),
        continues(v, step),
    ensures
        on_track(start, found, disk, step),
{
}

/// The first step of rebuilding is on track.
pub proof fn lemma_begins_on_track(
    start: engine::EngineView,
    found: Seq<Result<scan::FileView, scan::ErrorView>>,
    disk: Disk,
    step: ReindexView,
)
    requires
        start.cache.exclusive,
        begins(start, step),
    ensures
        on_track(start, found, disk, step),
        step is List || step matches ReindexView::Done(_, Err(_), _),
{
}

/// What follows upon a step that is on track is on track.
pub proof fn lemma_steps_on_track(
    start: engine::EngineView,
    found: Seq<Result<scan::FileView, scan::ErrorView>>,
    disk: Disk,
    step: ReindexView,
    next: ReindexView,
)
    requires
        start.cache.exclusive,
        on_track(start, found, disk, step),
        truly_leads_to(found, disk, step, next),
    ensures
        on_track(start, found, disk, next),
{
    let listed = found_files(start.archive.root, found);
    match step {
        ReindexView::List(e) => {
            let v = IndexingView { engine: e, listed, next: 0 };
            lemma_continues_on_track(start, found, disk, v, next);
        },
        ReindexView::Hash(v, size, mtime) => {
            let d = disk[v.place()].digest;
            if after_hash(v, size, mtime, Ok(d), next) && !fails_within(v.engine, next) {
                let to = recorded(v, size, mtime, d).engine.cache;
                let e = choose|e: engine::EngineView|
                    {
                        &&& engine::cache_moved(v.engine, e, false, to)
                        &&& #[trigger] continues(
                            IndexingView { engine: e, next: v.next + 1, ..v },
                            next,
                        )
                    };
                assert(to.tables.archived == index_of(
                    start.archive.root,
                    listed,
                    disk,
                    v.next + 1,
                ));
                assert(e == indexing(start, listed, disk, v.next + 1));
                let w = IndexingView { engine: e, next: v.next + 1, ..v };
                lemma_continues_on_track(start, found, disk, w, next);
            }
        },
        _ => {},
    }
}

proof fn lemma_rebuilding_on_track(
    start: engine::EngineView,
    found: Seq<Result<scan::FileView, scan::ErrorView>>,
    disk: Disk,
    steps: Seq<ReindexView>,
    i: int,
)
    requires
        start.cache.exclusive,
        is_rebuilding(start, found, disk, steps),
        0 <= i < steps.len(),
    ensures
        on_track(start, found, disk, steps[i]),
    decreases i,
{
    if i == 0 {
        lemma_begins_on_track(start, found, disk, steps[0]);
    } else {
        lemma_rebuilding_on_track(start, found, disk, steps, i - 1);
        assert(truly_leads_to(found, disk, steps[i - 1], steps[i - 1 + 1]));
        lemma_steps_on_track(start, found, disk, steps[i - 1], steps[i]);
    }
}

/// The index can be rebuilt from the archive alone: when all is done, it holds a row for each file
/// that a walk of the archive finds, the row says what the file is on disk, and nothing else of
/// the cache has changed.
pub proof fn law_the_index_is_rebuilt_from_disk(
    start: engine::EngineView,
    found: Seq<Result<scan::FileView, scan::ErrorView>>,
    disk: Disk,
    steps: Seq<ReindexView>,
)
    requires
        start.cache.exclusive,
        is_rebuilding(start, found, disk, steps),
    ensures
        steps.last() matches ReindexView::Done(e, Ok(n), _) ==> {
            let listed = found_files(start.archive.root, found);
            &&& n == listed.len() as u64
            &&& e.cache.tables == (sqlite::Tables {
                archived: index_of(start.archive.root, listed, disk, listed.len() as int),
                ..start.cache.tables
            })
            &&& e.cache.session.begun is None
        },
{
    lemma_rebuilding_on_track(start, found, disk, steps, steps.len() - 1);
}

/// Where rebuilding fails, nothing of it is kept: the index stays as it was. Where rolling back has
/// failed as well, the transaction is open still, and was not committed.
pub proof fn law_a_failed_rebuilding_changes_nothing(
    start: engine::EngineView,
    found: Seq<Result<scan::FileView, scan::ErrorView>>,
    disk: Disk,
    steps: Seq<ReindexView>,
)
    requires
        start.cache.exclusive,
        is_rebuilding(start, found, disk, steps),
    ensures
        steps.last() matches ReindexView::Done(e, Err(_), rollback) ==> {
            &&& given_up(start.cache, e.cache)
            &&& rolled_back(rollback) ==> e.cache.tables == start.cache.tables
                && e.cache.session.begun is None
        },
{
    lemma_rebuilding_on_track(start, found, disk, steps, steps.len() - 1);
}

/// The files of an archive are those that its listing names.
pub proof fn lemma_found_files(
    root: Seq<u8>,
    found: Seq<Result<scan::FileView, scan::ErrorView>>,
)
    ensures
        forall|i: int|
            0 <= i < found_files(root, found).len() ==> exists|k: int|
                0 <= k < found.len() && archive::listed(root, #[trigger] found[k]) == Some(
                    Ok::<Seq<u8>, scan::ErrorView>(#[trigger] found_files(root, found)[i]),
                ),
        forall|k: int|
            0 <= k < found.len() ==> (archive::listed(root, #[trigger] found[k]) matches Some(Ok(p))
                ==> found_files(root, found).contains(p)),
    decreases found.len(),
{
    if found.len() > 0 {
        let n = found.len() - 1;
        let (front, last) = (found.drop_last(), found.last());
        let (before, now) = (found_files(root, front), found_files(root, found));
        lemma_found_files(root, front);
        let item = archive::listed(root, last);
        if let Some(x) = item {
            let listed = archive::listed_all(root, front);
            assert(listed.push(x).drop_last() =~= listed);
        }
        assert(now == match item {
            Some(Ok(p)) => before.push(p),
            _ => before,
        });
        assert forall|i: int| 0 <= i < now.len() implies exists|k: int|
            0 <= k < found.len() && archive::listed(root, #[trigger] found[k]) == Some(
                Ok::<Seq<u8>, scan::ErrorView>(#[trigger] now[i]),
            ) by {
            if i < before.len() {
                assert(now[i] == before[i]);
                let k = choose|k: int|
                    0 <= k < front.len() && archive::listed(root, #[trigger] front[k]) == Some(
                        Ok::<Seq<u8>, scan::ErrorView>(before[i]),
                    );
                assert(found[k] == front[k]);
            } else {
                assert(found[n] == last);
            }
        }
        assert forall|k: int| 0 <= k < found.len() implies (archive::listed(
            root,
            #[trigger] found[k],
        ) matches Some(Ok(p)) ==> now.contains(p)) by {
            if let Some(Ok(p)) = archive::listed(root, found[k]) {
                if k < n {
                    assert(front[k] == found[k]);
                    let i = choose|i: int| 0 <= i < before.len() && before[i] == p;
                    assert(now[i] == p);
                } else {
                    assert(now[before.len() as int] == p);
                }
            }
        }
    }
}

/// A rebuilt index knows every file of the archive, and the archive holds exactly the contents of
/// these files.
pub proof fn law_a_rebuilt_index_knows_every_file(
    root: Seq<u8>,
    listed: Seq<Seq<u8>>,
    disk: Disk,
    t: sqlite::Tables,
    i: int,
)
    requires
        t.archived == index_of(root, listed, disk, listed.len() as int),
        0 <= i < listed.len(),
    ensures
        sqlite::entry_at(t.archived, path::key(listed[i])) == Some(
            row_on_disk(root, listed[i], disk),
        ),
        cache::holds(t, disk[path::join(root, listed[i])].digest),
        forall|d: Seq<u8>| #[trigger]
            cache::holds(t, d) ==> exists|j: int|
                0 <= j < listed.len() && disk[path::join(root, #[trigger] listed[j])].digest == d,
{
    let n = listed.len() as int;
    lemma_index_rows(root, listed, disk, n);
    assert(t.archived.contains_key(path::key(listed[i])));
    assert forall|d: Seq<u8>| #[trigger] cache::holds(t, d) implies exists|j: int|
        0 <= j < listed.len() && disk[path::join(root, #[trigger] listed[j])].digest == d by {
        let k = choose|k: Seq<char>| #[trigger]
            t.archived.contains_key(k) && t.archived[k].hash == d;
        assert(index_of(root, listed, disk, n).contains_key(k));
        let j = choose|j: int| 0 <= j < n && path::key(#[trigger] listed[j]) == k;
        assert(disk[path::join(root, listed[j])].digest == d);
    }
}

/// The rows of an index are those of the listed files, and there are no others.
pub proof fn lemma_index_rows(root: Seq<u8>, listed: Seq<Seq<u8>>, disk: Disk, n: int)
    requires
        0 <= n <= listed.len(),
    ensures
        forall|i: int|
            0 <= i < n ==> {
                let e = row_on_disk(root, #[trigger] listed[i], disk);
                &&& index_of(root, listed, disk, n).contains_key(e.path)
                &&& index_of(root, listed, disk, n)[e.path] == e.row
            },
        forall|k: Seq<char>| #[trigger]
            index_of(root, listed, disk, n).contains_key(k) ==> exists|j: int|
                0 <= j < n && path::key(#[trigger] listed[j]) == k,
    decreases n,
{
    if n > 0 {
        lemma_index_rows(root, listed, disk, n - 1);
        let before = index_of(root, listed, disk, n - 1);
        let now = index_of(root, listed, disk, n);
        let last = row_on_disk(root, listed[n - 1], disk);
        assert forall|i: int| 0 <= i < n implies {
            let e = row_on_disk(root, #[trigger] listed[i], disk);
            &&& now.contains_key(e.path)
            &&& now[e.path] == e.row
        } by {
            if path::key(listed[i]) == last.path {
                path::law_keys_tell_paths_apart(listed[i], listed[n - 1]);
            }
        }
        assert forall|k: Seq<char>| #[trigger] now.contains_key(k) implies exists|j: int|
            0 <= j < n && path::key(#[trigger] listed[j]) == k by {
            if k == last.path {
                assert(path::key(listed[n - 1]) == k);
            } else {
                assert(before.contains_key(k));
            }
        }
    }
}

// ---------------------------------------------------------------------------------------------
// What the steps promise.
// ---------------------------------------------------------------------------------------------

/// Rebuilding the index looks at every file that the archive holds: each of them that the walk has found is
/// among those that are asked for, one after the other.
pub proof fn law_every_archived_file_is_asked_for(
    q: ListArchive<()>,
    found: Vec<Result<FileEntry, ScanError>>,
    step: ReindexStep<()>,
    k: int,
    relative: Seq<u8>,
)
    requires
        call_ensures(ListArchive::answer, (q, found), step),
        0 <= k < found@.len(),
        archive::is_held_at(q@.archive.root, found@[k], relative),
    ensures
        step@ matches ReindexView::Stat(v) && v.next == 0 && v.engine == q@ && v.listed.contains(
            relative,
        ),
{
    let root = q@.archive.root;
    let all = archive::walked_all(found@);
    let f = found@[k]->Ok_0;
    archive::lemma_unfinished(path::file_name(f.path@)->0);
    assert(all[k] == Ok::<scan::FileView, scan::ErrorView>(f@));
    lemma_found_files(root, all);
    assert(archive::listed(root, all[k]) == Some(Ok::<Seq<u8>, scan::ErrorView>(relative)));
}

/// Nothing is asked for that the walk has not found, and that the archive does not hold.
pub proof fn law_only_archived_files_are_asked_for(
    q: ListArchive<()>,
    found: Vec<Result<FileEntry, ScanError>>,
    step: ReindexStep<()>,
    v: IndexingView,
    i: int,
)
    requires
        call_ensures(ListArchive::answer, (q, found), step),
        step@ == ReindexView::Stat(v),
        0 <= i < v.listed.len(),
    ensures
        exists|k: int|
            0 <= k < found@.len() && archive::is_held_at(
                q@.archive.root,
                #[trigger] found@[k],
                v.listed[i],
            ),
{
    let root = q@.archive.root;
    let all = archive::walked_all(found@);
    lemma_found_files(root, all);
    assert(v.listed == found_files(root, all));
    let k = choose|k: int|
        0 <= k < all.len() && archive::listed(root, #[trigger] all[k]) == Some(
            Ok::<Seq<u8>, scan::ErrorView>(v.listed[i]),
        );
    assert(all[k] == scan::walked(found@[k]));
    let f = found@[k]->Ok_0;
    archive::lemma_unfinished(path::file_name(f.path@)->0);
    assert(archive::is_held_at(root, found@[k], v.listed[i]));
}

/// A file of the archive that cannot be looked at or read ends the rebuilding with that very error, and
/// what was done is rolled back.
pub proof fn law_an_unreadable_file_ends_the_rebuilding(
    looking: StatListed<()>,
    hashing: HashListed<()>,
    e: std::io::Error,
    step: ReindexStep<()>,
)
    ensures
        call_ensures(StatListed::answer, (looking, Err(e)), step) ==> (
        step@ matches ReindexView::Done(end, Err(x), rollback) && x
            == engine::EngineErrorView::Io(e) && rollback is Some && (rollback matches Some(Ok(_))
            && looking@.engine.cache.exclusive ==> end.cache
            == looking@.engine.cache.rolled_back())),
        call_ensures(HashListed::answer, (hashing, Err(e)), step) ==> (
        step@ matches ReindexView::Done(end, Err(x), rollback) && x
            == engine::EngineErrorView::Io(e) && rollback is Some && (rollback matches Some(Ok(_))
            && hashing@.0.engine.cache.exclusive ==> end.cache
            == hashing@.0.engine.cache.rolled_back())),
{
}

/// A file of the archive is looked at and hashed at its own place, and its size and time are those that
/// the file system gives.
pub proof fn law_a_listed_file_is_looked_at_and_hashed(
    looking: StatListed<()>,
    meta: Metadata,
    step: ReindexStep<()>,
    hashing: HashListed<()>,
    looked: FilePath,
    hashed: FilePath,
)
    requires
        call_ensures(StatListed::answer, (looking, Ok(meta)), step),
    ensures
        step@ matches ReindexView::Hash(v, size, mtime) && v == looking@ && size == meta.size
            && scan::is_time(meta.modified, mtime),
        step == ReindexStep::Hash(hashing) && call_ensures(StatListed::path, (&looking,), looked)
            && call_ensures(HashListed::path, (&hashing,), hashed) ==> hashed@ == looked@
            && looked@ == path::join(
            looking@.engine.archive.root,
            looking@.listed[looking@.next],
        ),
{
}

/// A file of the archive that was hashed is recorded with the size and time that it has there and with its
/// hash; nothing else that is known changes; and the next file follows. Behind the last one the new
/// index is kept, and the number of files is told. Only a failure of the cache keeps that from happening.
pub proof fn law_a_hashed_file_is_recorded(q: HashListed<()>, digest: [u8; 32], step: ReindexStep<()>)
    requires
        q@.0.engine.cache.exclusive,
        0 <= q@.0.next < q@.0.listed.len(),
        call_ensures(HashListed::answer, (q, Ok(digest)), step),
    ensures
        ({
            let t = q@.0.engine.cache.tables;
            let key = path::key(q@.0.listed[q@.0.next]);
            match step@ {
                ReindexView::Stat(v) => {
                    &&& v.next == q@.0.next + 1
                    &&& v.next < v.listed.len()
                    &&& v.listed == q@.0.listed
                    &&& is_added(t, v.engine.cache.tables, key, q@.1, q@.2, digest@)
                    &&& v.engine.cache.session == q@.0.engine.cache.session
                },
                ReindexView::Done(e, Ok(n), _) => {
                    &&& q@.0.next + 1 == q@.0.listed.len()
                    &&& n == q@.0.listed.len() as u64
                    &&& is_added(t, e.cache.tables, key, q@.1, q@.2, digest@)
                    &&& e.cache.session.begun is None
                },
                ReindexView::Done(_, Err(e), _) => engine::is_sqlite(e),
                _ => false,
            }
        }),
{
}

/// Was this row added to the index, or did it replace the one under this path; and is nothing else
/// changed?
pub open spec fn is_added(
    was: sqlite::Tables,
    is: sqlite::Tables,
    key: Seq<char>,
    size: u64,
    mtime: i64,
    digest: Seq<u8>,
) -> bool {
    &&& is.archived.contains_key(key)
    &&& is.archived[key].size == size as i64
    &&& is.archived[key].mtime == mtime
    &&& is.archived[key].hash == digest
    &&& forall|k: Seq<char>| #[trigger]
        is.archived.contains_key(k) && k != key ==> was.archived.contains_key(k) && was.archived[k]
            == is.archived[k]
    &&& forall|k: Seq<char>| #[trigger]
        was.archived.contains_key(k) ==> is.archived.contains_key(k)
    &&& is == (sqlite::Tables { archived: is.archived, ..was })
}

/// Rebuilding begins with an empty index, in a transaction that holds what there was, so that it can be
/// given up. What is known of the source files stays.
pub proof fn law_rebuilding_begins_with_an_empty_index(engine: Engine, step: ReindexStep<()>)
    requires
        engine@.cache.exclusive,
        call_ensures(Engine::reindex, (engine,), step),
    ensures
        match step@ {
            ReindexView::List(e) => {
                &&& forall|k: Seq<char>| !e.cache.tables.archived.contains_key(k)
                &&& e.cache.tables.sources == engine@.cache.tables.sources
                &&& e.cache.session.begun == Some(engine@.cache.tables)
                &&& e.archive == engine@.archive
                &&& e.sources == engine@.sources
            },
            ReindexView::Done(_, Err(e), _) => engine::is_sqlite(e),
            _ => false,
        },
{
}

/// The archive that is walked is the one of the engine; an archive without files has an empty index when
/// it was rebuilt.
pub proof fn law_an_archive_without_files_has_an_empty_index(
    q: ListArchive<()>,
    found: Vec<Result<FileEntry, ScanError>>,
    step: ReindexStep<()>,
    root: &FilePath,
)
    requires
        q@.cache.exclusive,
        call_ensures(ListArchive::root, (&q,), root),
        call_ensures(ListArchive::answer, (q, found), step),
        !(step@ is Stat),
    ensures
        root@ == q@.archive.root,
        match step@ {
            ReindexView::Done(e, Ok(n), _) => n == 0 && e.cache.tables == q@.cache.tables
                && e.cache.session.begun is None,
            ReindexView::Done(_, Err(e), _) => engine::is_sqlite(e),
            _ => false,
        },
{
}

} // verus!
