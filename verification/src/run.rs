//! A backup run, one question at a time.
//!
//! For each file the cheapest check comes first: what has not changed is never opened, what is in
//! the archive already is never copied. One file that fails does not stop the run.

use crate::archive;
use crate::archive::Stored;
use crate::cache;
use crate::cache::Entry;
use crate::engine;
use crate::engine::{Engine, EngineError};
use crate::path;
use crate::path::FilePath;
use crate::reindex;
use crate::reindex::{ReindexDone, ReindexStep};
use crate::scan;
use crate::scan::{mtime_secs, FileEntry, Metadata, ScanError};
use crate::sqlite;
use crate::stats;
use crate::stats::{Outcome, Stats};
use crate::store;
use crate::store::{StoreDone, StoreStep};
use vstd::prelude::*;

verus! {

// ---------------------------------------------------------------------------------------------
// The states of a run.
// ---------------------------------------------------------------------------------------------

/// How far a run has come.
pub struct Progress {
    stats: Stats,
    /// The source tree that comes next.
    next: usize,
}

/// A run, between two source trees.
struct Run {
    engine: Engine,
    progress: Progress,
}

/// A run, within a source tree.
struct Walking {
    run: Run,
    root: FilePath,
}

/// A run, at one file of a source tree.
struct Handling {
    walking: Walking,
    file: FileEntry,
}

/// A run, at one file of a source tree that was hashed.
pub struct Storing {
    handling: Handling,
    digest: [u8; 32],
}

/// A run between two source trees, with its paths as bytes.
pub struct RunView {
    pub engine: engine::EngineView,
    pub stats: Stats,
    pub next: int,
}

/// A run within a source tree, with its paths as bytes.
pub struct WalkingView {
    pub run: RunView,
    pub root: Seq<u8>,
}

/// A run at one file, with its paths as bytes.
pub struct HandlingView {
    pub walking: WalkingView,
    pub file: scan::FileView,
}

impl Run {
    spec fn view(self) -> RunView {
        RunView {
            engine: self.engine@,
            stats: self.progress.stats,
            next: self.progress.next as int,
        }
    }
}

impl Walking {
    spec fn view(self) -> WalkingView {
        WalkingView { run: self.run.view(), root: self.root@ }
    }
}

impl Handling {
    spec fn view(self) -> HandlingView {
        HandlingView { walking: self.walking.view(), file: self.file@ }
    }
}

impl View for Storing {
    type V = (HandlingView, Seq<u8>);

    closed spec fn view(&self) -> (HandlingView, Seq<u8>) {
        (self.handling.view(), self.digest@)
    }
}

impl View for Progress {
    type V = (Stats, int);

    closed spec fn view(&self) -> (Stats, int) {
        (self.stats, self.next as int)
    }
}

impl RunView {
    /// With another cache.
    pub open spec fn with(self, cache: sqlite::Database) -> RunView {
        RunView { engine: self.engine.with(cache), ..self }
    }
}

impl HandlingView {
    /// The engine that is at work.
    pub open spec fn engine(self) -> engine::EngineView {
        self.walking.run.engine
    }

    /// With another cache.
    pub open spec fn with(self, cache: sqlite::Database) -> HandlingView {
        HandlingView {
            walking: WalkingView { run: self.walking.run.with(cache), ..self.walking },
            ..self
        }
    }
}

// ---------------------------------------------------------------------------------------------
// The questions.
// ---------------------------------------------------------------------------------------------

/// The question what a walk of the archive finds, to see what an interrupted run left behind.
pub struct SweepArchive {
    run: Run,
}

/// The request to remove what an interrupted run left behind.
pub struct RemoveStrays {
    run: Run,
    strays: Vec<FilePath>,
}

/// The question what a walk of the archive finds, to see if it holds anything.
pub struct ListContents {
    run: Run,
}

/// The question what a walk of a source tree finds next.
pub struct WalkSource {
    walking: Walking,
}

/// The question what the hash of a source file is.
pub struct HashSource {
    handling: Handling,
}

/// The question what the file system says of a file that was stored.
pub struct StatStored {
    storing: Storing,
    stored: Stored,
}

/// What became of one file.
pub struct Handled {
    handling: Handling,
    result: Result<Outcome, EngineError>,
}

/// What became of the run.
pub struct RunDone {
    engine: Engine,
    result: Result<Stats, EngineError>,
}

/// What there is to do next in a run.
pub enum RunStep {
    /// Walk the archive.
    Sweep(SweepArchive),
    /// Remove files.
    Remove(RemoveStrays),
    /// Walk the archive again.
    List(ListContents),
    /// Rebuild the index of the archive.
    Index(ReindexStep<Progress>),
    /// Go on walking a source tree.
    Walk(WalkSource),
    /// Hash a file.
    Hash(HashSource),
    /// Store a file.
    Store(StoreStep<Storing>),
    /// Ask for the metadata of a file.
    Stat(StatStored),
    /// Report what became of a file.
    Handled(Handled),
    /// Nothing.
    Done(RunDone),
}

/// A [`RunStep`] with its paths as bytes.
pub enum RunStepView {
    Sweep(RunView),
    Remove(RunView, Seq<Seq<u8>>),
    List(RunView),
    Index(Stats, int, reindex::ReindexView),
    Walk(WalkingView),
    Hash(HandlingView),
    Store(HandlingView, Seq<u8>, store::StoreView),
    Stat(HandlingView, Seq<u8>, archive::StoredView),
    Handled(HandlingView, Result<Outcome, engine::EngineErrorView>),
    Done(engine::EngineView, Result<Stats, engine::EngineErrorView>),
}

impl View for SweepArchive {
    type V = RunView;

    closed spec fn view(&self) -> RunView {
        self.run.view()
    }
}

impl View for RemoveStrays {
    type V = (RunView, Seq<Seq<u8>>);

    closed spec fn view(&self) -> (RunView, Seq<Seq<u8>>) {
        (self.run.view(), path::bytes_of(self.strays@))
    }
}

impl View for ListContents {
    type V = RunView;

    closed spec fn view(&self) -> RunView {
        self.run.view()
    }
}

impl View for WalkSource {
    type V = WalkingView;

    closed spec fn view(&self) -> WalkingView {
        self.walking.view()
    }
}

impl View for HashSource {
    type V = HandlingView;

    closed spec fn view(&self) -> HandlingView {
        self.handling.view()
    }
}

impl View for StatStored {
    type V = (HandlingView, Seq<u8>, archive::StoredView);

    closed spec fn view(&self) -> (HandlingView, Seq<u8>, archive::StoredView) {
        (self.storing@.0, self.storing@.1, self.stored@)
    }
}

/// What became of a file, with its paths as bytes.
pub open spec fn outcome_view(r: Result<Outcome, EngineError>) -> Result<
    Outcome,
    engine::EngineErrorView,
> {
    match r {
        Ok(o) => Ok(o),
        Err(e) => Err(e@),
    }
}

/// What became of a run, with its paths as bytes.
pub open spec fn stats_view(r: Result<Stats, EngineError>) -> Result<
    Stats,
    engine::EngineErrorView,
> {
    match r {
        Ok(s) => Ok(s),
        Err(e) => Err(e@),
    }
}

impl View for Handled {
    type V = (HandlingView, Result<Outcome, engine::EngineErrorView>);

    closed spec fn view(&self) -> (HandlingView, Result<Outcome, engine::EngineErrorView>) {
        (self.handling.view(), outcome_view(self.result))
    }
}

impl View for RunDone {
    type V = (engine::EngineView, Result<Stats, engine::EngineErrorView>);

    closed spec fn view(&self) -> (engine::EngineView, Result<Stats, engine::EngineErrorView>) {
        (self.engine@, stats_view(self.result))
    }
}

impl View for RunStep {
    type V = RunStepView;

    open spec fn view(&self) -> RunStepView {
        match *self {
            RunStep::Sweep(q) => RunStepView::Sweep(q@),
            RunStep::Remove(q) => RunStepView::Remove(q@.0, q@.1),
            RunStep::List(q) => RunStepView::List(q@),
            RunStep::Index(q) => RunStepView::Index(q.context()@.0, q.context()@.1, q@),
            RunStep::Walk(q) => RunStepView::Walk(q@),
            RunStep::Hash(q) => RunStepView::Hash(q@),
            RunStep::Store(q) => RunStepView::Store(q.context()@.0, q.context()@.1, q@),
            RunStep::Stat(q) => RunStepView::Stat(q@.0, q@.1, q@.2),
            RunStep::Handled(q) => RunStepView::Handled(q@.0, q@.1),
            RunStep::Done(d) => RunStepView::Done(d@.0, d@.1),
        }
    }
}

// ---------------------------------------------------------------------------------------------
// What follows upon what.
// ---------------------------------------------------------------------------------------------

/// A cache that cannot be read or written ends the run. What failed was undone.
pub open spec fn stops(was: engine::EngineView, step: RunStepView) -> bool {
    step matches RunStepView::Done(e, r) && r matches Err(error) && engine::is_sqlite(error) && e
        == was.with(e.cache) && sqlite::undone(was.cache, e.cache)
}

/// The source tree that comes next is walked, within a transaction of its own. When there is none,
/// the run is over.
pub open spec fn next_source(was: RunView, step: RunStepView) -> bool {
    if was.next < was.engine.sources.len() {
        ||| stops(was.engine, step)
        ||| step matches RunStepView::Walk(w) && w == (WalkingView {
            run: RunView { next: was.next + 1, ..was.with(w.run.engine.cache) },
            root: was.engine.sources[was.next],
        }) && sqlite::becomes(was.engine.cache, w.run.engine.cache, was.engine.cache.begun())
    } else {
        step == RunStepView::Done(was.engine, Ok(was.stats))
    }
}

/// An answer of the cache, with the paths of its error as bytes.
pub open spec fn answered(r: Result<bool, EngineError>) -> Result<bool, engine::EngineErrorView> {
    match r {
        Ok(b) => Ok(b),
        Err(e) => Err(e@),
    }
}

/// What follows when the cache was asked if it knows nothing of the archive. An archive assembled by
/// hand, or one whose cache was lost, holds files the index knows nothing about. Copying into it
/// without learning them first would duplicate every one.
pub open spec fn after_count(
    was: RunView,
    empty: Result<bool, engine::EngineErrorView>,
    step: RunStepView,
) -> bool {
    match empty {
        Ok(true) => step == RunStepView::List(was),
        Ok(false) => next_source(was, step),
        Err(e) => step == RunStepView::Done(was.engine, Err(e)),
    }
}

/// When the archive was swept, the cache is asked what it knows of it.
pub open spec fn after_sweep(was: RunView, step: RunStepView) -> bool {
    exists|db: sqlite::Database, empty: Result<bool, engine::EngineErrorView>|
        {
            &&& sqlite::was_read(was.engine.cache, db, empty is Err)
            &&& match empty {
                Ok(e) => was.engine.cache.exclusive ==> e == (
                was.engine.cache.tables.archived.dom() =~= Set::empty()),
                Err(e) => engine::is_sqlite(e),
            }
            &&& #[trigger] after_count(was.with(db), empty, step)
        }
}

/// An archive that holds a file is indexed first.
pub open spec fn after_list(
    was: RunView,
    found: Seq<Result<scan::FileView, scan::ErrorView>>,
    step: RunStepView,
) -> bool {
    if archive::has_file(archive::listed_all(was.engine.archive.root, found)) {
        step matches RunStepView::Index(stats, next, r) && stats == was.stats && next == was.next
            && reindex::begins(was.engine, r)
    } else {
        next_source(was, step)
    }
}

/// An index that could not be rebuilt ends the run.
pub open spec fn after_index(
    stats: Stats,
    next: int,
    engine: engine::EngineView,
    result: Result<u64, engine::EngineErrorView>,
    step: RunStepView,
) -> bool {
    match result {
        Ok(_) => next_source(RunView { engine, stats, next }, step),
        Err(e) => step == RunStepView::Done(engine, Err(e)),
    }
}

/// Is this a file of that size and time?
pub open spec fn is_same(known: Option<sqlite::EntryView>, size: u64, mtime: i64) -> bool {
    match known {
        Some(k) => k.metadata_matches(size as i64, mtime),
        None => false,
    }
}

/// Is this what is known of the file?
pub open spec fn unchanged(t: sqlite::Tables, file: scan::FileView) -> bool {
    is_same(sqlite::entry_at(t.sources, path::key(file.path)), file.size, file.mtime)
}

/// A file that could not be handled because of the cache, which was `from` by then. What failed was
/// undone.
pub open spec fn fails(was: HandlingView, from: sqlite::Database, step: RunStepView) -> bool {
    step matches RunStepView::Handled(h, r) && r matches Err(error) && engine::is_sqlite(error) && h
        == was.with(h.engine().cache) && sqlite::undone(from, h.engine().cache)
}

/// What follows when the cache was asked what it knows of a file: one that has not changed is never
/// opened.
pub open spec fn after_known(
    was: HandlingView,
    known: Result<Option<sqlite::EntryView>, engine::EngineErrorView>,
    step: RunStepView,
) -> bool {
    match known {
        Ok(k) => if is_same(k, was.file.size, was.file.mtime) {
            step == RunStepView::Handled(was, Ok(Outcome::Unchanged))
        } else {
            step == RunStepView::Hash(was)
        },
        Err(e) => step == RunStepView::Handled(was, Err(e)),
    }
}

/// The first look at a file: the cache is asked what it knows of it.
pub open spec fn first_look(was: HandlingView, step: RunStepView) -> bool {
    exists|
        db: sqlite::Database,
        known: Result<Option<sqlite::EntryView>, engine::EngineErrorView>,
    |
        {
            &&& sqlite::was_read(was.engine().cache, db, known is Err)
            &&& match known {
                Ok(k) => was.engine().cache.exclusive ==> k == sqlite::entry_at(
                    was.engine().cache.tables.sources,
                    path::key(was.file.path),
                ),
                Err(e) => engine::is_sqlite(e),
            }
            &&& #[trigger] after_known(was.with(db), known, step)
        }
}

/// What a walk of a source tree finds is handled. At its end the transaction is closed, and the
/// next source tree follows.
pub open spec fn after_walk(
    was: WalkingView,
    item: Option<Result<scan::FileView, scan::ErrorView>>,
    step: RunStepView,
) -> bool {
    match item {
        Some(Ok(file)) => first_look(HandlingView { walking: was, file }, step),
        Some(Err(_)) => step == RunStepView::Walk(
            WalkingView {
                run: RunView { stats: stats::counted(was.run.stats, None, 0), ..was.run },
                ..was
            },
        ),
        None => {
            ||| stops(was.run.engine, step)
            ||| exists|db: sqlite::Database|
                {
                    &&& sqlite::becomes(
                        was.run.engine.cache,
                        db,
                        was.run.engine.cache.committed(),
                    )
                    &&& #[trigger] next_source(was.run.with(db), step)
                }
        },
    }
}

/// The row that describes a source file.
pub open spec fn source_entry(file: scan::FileView, digest: Seq<u8>) -> sqlite::EntryView {
    engine::entry_of(file.path, file.size, file.mtime, digest)
}

/// What follows when the cache was asked if the archive holds the content of a file, anywhere and
/// under any name: one that it holds is not copied, and is recorded. Any other one is stored.
pub open spec fn after_lookup(
    was: HandlingView,
    digest: Seq<u8>,
    held: Result<bool, engine::EngineErrorView>,
    step: RunStepView,
) -> bool {
    match held {
        Ok(true) => {
            ||| fails(was, was.engine().cache, step)
            ||| step matches RunStepView::Handled(h, r) && r == Ok::<
                Outcome,
                engine::EngineErrorView,
            >(Outcome::Duplicate) && h == was.with(h.engine().cache) && sqlite::becomes(
                was.engine().cache,
                h.engine().cache,
                was.engine().cache.with(
                    cache::with_source(was.engine().cache.tables, source_entry(was.file, digest)),
                ),
            )
        },
        Ok(false) => step == RunStepView::Store(
            was,
            digest,
            store::begin(was.engine().archive.root, was.file.path, was.walking.root, digest),
        ),
        Err(e) => step == RunStepView::Handled(was, Err(e)),
    }
}

/// The cache is asked if the archive holds the content of a file.
pub open spec fn is_looked_up(was: HandlingView, digest: Seq<u8>, step: RunStepView) -> bool {
    exists|db: sqlite::Database, held: Result<bool, engine::EngineErrorView>|
        {
            &&& sqlite::was_read(was.engine().cache, db, held is Err)
            &&& match held {
                Ok(h) => was.engine().cache.exclusive ==> h == cache::holds(
                    was.engine().cache.tables,
                    digest,
                ),
                Err(e) => engine::is_sqlite(e),
            }
            &&& #[trigger] after_lookup(was.with(db), digest, held, step)
        }
}

/// When a file was hashed, the cache is asked if the archive holds its content.
pub open spec fn after_hash(
    was: HandlingView,
    digest: Result<Seq<u8>, std::io::Error>,
    step: RunStepView,
) -> bool {
    match digest {
        Err(e) => step == RunStepView::Handled(was, Err(engine::EngineErrorView::Io(e))),
        Ok(d) => is_looked_up(was, d, step),
    }
}

/// A file that was stored is looked at in the archive.
pub open spec fn after_store(
    was: HandlingView,
    digest: Seq<u8>,
    result: Result<archive::StoredView, archive::ArchiveErrorView>,
) -> RunStepView {
    match result {
        Ok(s) => RunStepView::Stat(was, digest, s),
        Err(e) => RunStepView::Handled(was, Err(engine::EngineErrorView::Archive(e))),
    }
}

/// The row that describes a stored file: the file *in the archive*, not the source it came from. A
/// plain copy does not inherit the source's mtime, so reading it back is the only way to get this
/// right, and getting it wrong would make a future integrity check compare the archive against a
/// timestamp it never had.
pub open spec fn stored_entry(
    stored: archive::StoredView,
    meta: Metadata,
    digest: Seq<u8>,
) -> sqlite::EntryView {
    engine::entry_of(stored.path(), meta.size, scan::spec_mtime_secs(meta.modified), digest)
}

/// The tables after a file was stored.
pub open spec fn with_stored(
    t: sqlite::Tables,
    file: scan::FileView,
    digest: Seq<u8>,
    stored: archive::StoredView,
    meta: Metadata,
) -> sqlite::Tables {
    cache::with_source(
        cache::with_archived(t, stored_entry(stored, meta, digest)),
        source_entry(file, digest),
    )
}

/// What a stored file counts as.
pub open spec fn outcome_of(stored: archive::StoredView) -> Outcome {
    match stored {
        archive::StoredView::Written(_) => Outcome::Copied,
        archive::StoredView::AlreadyThere(_) => Outcome::Duplicate,
    }
}

/// A stored file is recorded, both in the archive and at its source.
pub open spec fn after_stat(
    was: HandlingView,
    digest: Seq<u8>,
    stored: archive::StoredView,
    meta: Result<Metadata, std::io::Error>,
    step: RunStepView,
) -> bool {
    match meta {
        Err(e) => step == RunStepView::Handled(was, Err(engine::EngineErrorView::Io(e))),
        Ok(m) => {
            ||| fails(was, was.engine().cache, step)
            ||| exists|from: sqlite::Database|
                {
                    &&& sqlite::becomes(
                        was.engine().cache,
                        from,
                        was.engine().cache.with(
                            cache::with_archived(
                                was.engine().cache.tables,
                                stored_entry(stored, m, digest),
                            ),
                        ),
                    )
                    &&& #[trigger] fails(was, from, step)
                }
            ||| step matches RunStepView::Handled(h, r) && r == Ok::<
                Outcome,
                engine::EngineErrorView,
            >(outcome_of(stored)) && h == was.with(h.engine().cache) && sqlite::becomes(
                was.engine().cache,
                h.engine().cache,
                was.engine().cache.with(
                    with_stored(was.engine().cache.tables, was.file, digest, stored, m),
                ),
            )
        },
    }
}

/// What a handled file counts as.
pub open spec fn count_of(result: Result<Outcome, engine::EngineErrorView>) -> Option<Outcome> {
    match result {
        Ok(o) => Some(o),
        Err(_) => None,
    }
}

/// The walk goes on when a file was counted.
pub open spec fn goes_on(
    was: HandlingView,
    result: Result<Outcome, engine::EngineErrorView>,
) -> WalkingView {
    WalkingView {
        run: RunView {
            stats: stats::counted(was.walking.run.stats, count_of(result), was.file.size),
            ..was.walking.run
        },
        ..was.walking
    }
}

// ---------------------------------------------------------------------------------------------
// The steps.
// ---------------------------------------------------------------------------------------------

/// What the cache knows of a file, with the paths of its error as bytes.
pub open spec fn known_view(r: Result<Option<Entry>, EngineError>) -> Result<
    Option<sqlite::EntryView>,
    engine::EngineErrorView,
> {
    match r {
        Ok(k) => Ok(sqlite::maybe(k)),
        Err(e) => Err(e@),
    }
}

/// Is the file what it was the last time, by its size and modification time?
pub fn is_unchanged(known: Option<Entry>, size: u64, mtime: i64) -> (same: bool)
    ensures
        same == is_same(sqlite::maybe(known), size, mtime),
{
    match known {
        Some(entry) => entry.metadata_matches(size as i64, mtime),
        None => false,
    }
}

impl Engine {
    /// Copy every source tree into the archive.
    pub fn run(self) -> (step: RunStep)
        ensures
            step@ == RunStepView::Sweep(
                RunView { engine: self@, stats: stats::nothing_done(), next: 0 },
            ),
    {
        RunStep::Sweep(
            SweepArchive {
                run: Run { engine: self, progress: Progress { stats: Stats::default(), next: 0 } },
            },
        )
    }
}

impl Run {
    fn stopped(self, error: EngineError) -> (step: RunStep)
        ensures
            step@ == RunStepView::Done(self.view().engine, Err(error@)),
    {
        RunStep::Done(RunDone { engine: self.engine, result: Err(error) })
    }

    fn next_source(self) -> (step: RunStep)
        ensures
            next_source(self.view(), step@),
    {
        let mut run = self;
        let next = run.progress.next;
        let root = match run.engine.source(next) {
            Some(r) => r.clone(),
            None => {
                return RunStep::Done(
                    RunDone { engine: run.engine, result: Ok(run.progress.stats) },
                );
            },
        };
        // One transaction per source root. Without it SQLite commits per statement, paying a
        // durability round-trip for every file.
        match run.engine.begin() {
            Ok(_) => {
                run.progress.next = next + 1;
                RunStep::Walk(WalkSource { walking: Walking { run, root } })
            },
            Err(e) => run.stopped(e),
        }
    }
}

impl SweepArchive {
    /// The directory to walk.
    pub fn root(&self) -> (root: &FilePath)
        ensures
            root@ == self@.engine.archive.root,
    {
        self.run.engine.archive().root()
    }

    pub fn answer(self, found: &[Result<FileEntry, ScanError>]) -> (step: RunStep)
        ensures
            step@ == RunStepView::Remove(self@, archive::strays(archive::walked_all(found@))),
    {
        let strays = self.run.engine.archive().sweep_temp_files(found);
        RunStep::Remove(RemoveStrays { run: self.run, strays })
    }
}

impl RemoveStrays {
    /// The files to remove.
    pub fn paths(&self) -> (paths: &[FilePath])
        ensures
            path::bytes_of(paths@) == self@.1,
    {
        self.strays.as_slice()
    }

    /// What could be removed was removed.
    pub fn answer(self) -> (step: RunStep)
        ensures
            after_sweep(self@.0, step@),
    {
        let mut swept = self;
        let empty = swept.run.engine.knows_nothing();
        let ghost db = swept@.0.engine.cache;
        let ghost answer = answered(empty);
        let step = swept.after_count(empty);
        assert(after_count(self@.0.with(db), answer, step@));
        step
    }

    /// Go on when the cache was asked if it knows nothing of the archive.
    pub fn after_count(self, empty: Result<bool, EngineError>) -> (step: RunStep)
        ensures
            after_count(self@.0, answered(empty), step@),
    {
        let run = self.run;
        match empty {
            Ok(true) => RunStep::List(ListContents { run }),
            Ok(false) => run.next_source(),
            Err(e) => run.stopped(e),
        }
    }
}

impl ListContents {
    /// The directory to walk.
    pub fn root(&self) -> (root: &FilePath)
        ensures
            root@ == self@.engine.archive.root,
    {
        self.run.engine.archive().root()
    }

    /// Is there no need to walk any further?
    pub fn is_settled(&self, found: &Result<FileEntry, ScanError>) -> (settled: bool)
        ensures
            settled == (archive::listed(self@.engine.archive.root, scan::walked(*found)) matches Some(
                Ok(_),
            )),
    {
        self.run.engine.archive().is_content(found)
    }

    pub fn answer(self, found: &[Result<FileEntry, ScanError>]) -> (step: RunStep)
        ensures
            after_list(self@, archive::walked_all(found@), step@),
    {
        let run = self.run;
        if run.engine.archive().has_contents(found) {
            RunStep::Index(run.engine.reindex_for(run.progress))
        } else {
            run.next_source()
        }
    }
}

/// Go on with the run when the index was rebuilt.
pub fn indexed(done: ReindexDone<Progress>) -> (step: RunStep)
    ensures
        after_index(
            ReindexStep::Done(done).context()@.0,
            ReindexStep::Done(done).context()@.1,
            done@.0,
            done@.1,
            step@,
        ),
{
    let (progress, engine, result) = done.into_parts();
    let run = Run { engine, progress };
    match result {
        Ok(_) => run.next_source(),
        Err(e) => run.stopped(e),
    }
}

impl WalkSource {
    /// The source tree to walk.
    pub fn root(&self) -> (root: &FilePath)
        ensures
            root@ == self@.root,
    {
        &self.walking.root
    }

    /// Can another error be counted?
    pub fn has_room(&self) -> (room: bool)
        ensures
            room == (self@.run.stats.errors < u64::MAX),
    {
        self.walking.run.progress.stats.errors < u64::MAX
    }

    /// What the walk has found next; nothing when it is over.
    pub fn answer(self, item: Option<Result<FileEntry, ScanError>>) -> (step: RunStep)
        requires
            item matches Some(Err(_)) ==> self@.run.stats.errors < u64::MAX,
        ensures
            after_walk(
                self@,
                match item {
                    Some(r) => Some(scan::walked(r)),
                    None => None,
                },
                step@,
            ),
    {
        let mut walking = self.walking;
        match item {
            Some(Ok(file)) => WalkSource { walking }.first_look(file),
            Some(Err(_)) => {
                walking.run.progress.stats.record_error();
                RunStep::Walk(WalkSource { walking })
            },
            None => {
                let mut run = walking.run;
                match run.engine.commit() {
                    Ok(_) => {
                        let ghost db = run.view().engine.cache;
                        let step = run.next_source();
                        assert(next_source(self@.run.with(db), step@));
                        step
                    },
                    Err(e) => run.stopped(e),
                }
            },
        }
    }

    /// The per-file decision begins, in cost order: cheapest check first.
    fn first_look(self, file: FileEntry) -> (step: RunStep)
        ensures
            first_look(HandlingView { walking: self@, file: file@ }, step@),
    {
        let mut walking = self.walking;
        let known = walking.run.engine.known_source(&file.path);
        let ghost was = HandlingView { walking: self@, file: file@ };
        let ghost db = walking.view().run.engine.cache;
        let ghost answer = known_view(known);
        let step = WalkSource { walking }.after_known(file, known);
        assert(after_known(was.with(db), answer, step@));
        step
    }

    /// Go on when the cache was asked what it knows of a file.
    pub fn after_known(self, file: FileEntry, known: Result<Option<Entry>, EngineError>) -> (step:
        RunStep)
        ensures
            after_known(
                HandlingView { walking: self@, file: file@ },
                known_view(known),
                step@,
            ),
    {
        let handling = Handling { walking: self.walking, file };
        // Unchanged since last run? Never open the file.
        match known {
            Ok(known) => {
                if is_unchanged(known, handling.file.size, handling.file.mtime) {
                    handling.handled(Ok(Outcome::Unchanged))
                } else {
                    RunStep::Hash(HashSource { handling })
                }
            },
            Err(e) => handling.handled(Err(e)),
        }
    }
}

impl Handling {
    fn handled(self, result: Result<Outcome, EngineError>) -> (step: RunStep)
        ensures
            step@ == RunStepView::Handled(self.view(), outcome_view(result)),
    {
        RunStep::Handled(Handled { handling: self, result })
    }

    /// Record what the source file looks like.
    fn record_source(&mut self, digest: &[u8; 32]) -> (done: Result<(), EngineError>)
        ensures
            final(self).view() == old(self).view().with(final(self).view().engine().cache),
            engine::cache_moved(
                old(self).view().engine(),
                final(self).view().engine(),
                done is Err,
                old(self).view().engine().cache.with(
                    cache::with_source(
                        old(self).view().engine().cache.tables,
                        source_entry(old(self).view().file, digest@),
                    ),
                ),
            ),
            done matches Err(e) ==> engine::is_sqlite(e@),
    {
        self.walking.run.engine.record_source(
            &self.file.path,
            self.file.size,
            self.file.mtime,
            digest,
        )
    }
}

impl HashSource {
    /// The file to hash.
    pub fn path(&self) -> (p: &FilePath)
        ensures
            p@ == self@.file.path,
    {
        &self.handling.file.path
    }

    pub fn answer(self, digest: Result<[u8; 32], std::io::Error>) -> (step: RunStep)
        ensures
            after_hash(self@, store::digest_read(digest), step@),
    {
        let d = match digest {
            Ok(d) => d,
            Err(e) => {
                return self.handling.handled(Err(EngineError::Io(e)));
            },
        };
        let mut hashed = self;
        let held = hashed.handling.walking.run.engine.holds(&d);
        let ghost db = hashed@.engine().cache;
        let ghost answer = answered(held);
        let step = hashed.after_lookup(d, held);
        assert(after_lookup(self@.with(db), d@, answer, step@));
        step
    }

    /// Go on when the cache was asked if the archive holds these bytes, anywhere and under any name.
    pub fn after_lookup(self, digest: [u8; 32], held: Result<bool, EngineError>) -> (step: RunStep)
        ensures
            after_lookup(self@, digest@, answered(held), step@),
    {
        let mut handling = self.handling;
        match held {
            Err(e) => handling.handled(Err(e)),
            // Update the source table and exit.
            Ok(true) => match handling.record_source(&digest) {
                Ok(_) => handling.handled(Ok(Outcome::Duplicate)),
                Err(e) => handling.handled(Err(e)),
            },
            Ok(false) => {
                // Copy it in, resolving any name collision.
                let archive = handling.walking.run.engine.archive().clone();
                let source = handling.file.path.clone();
                let root = handling.walking.root.clone();
                RunStep::Store(
                    archive.store_for(Storing { handling, digest }, &source, &root, &digest),
                )
            },
        }
    }
}

/// Go on with the run when a file was stored.
pub fn stored(done: StoreDone<Storing>) -> (step: RunStep)
    ensures
        step@ == after_store(
            StoreStep::Done(done).context()@.0,
            StoreStep::Done(done).context()@.1,
            done@,
        ),
{
    let (storing, result) = done.into_parts();
    match result {
        Ok(stored) => RunStep::Stat(StatStored { storing, stored }),
        Err(e) => storing.handling.handled(Err(EngineError::Archive(e))),
    }
}

impl StatStored {
    /// The file to ask for.
    pub fn path(&self) -> (p: FilePath)
        ensures
            p@ == path::join(self@.0.engine().archive.root, self@.2.path()),
    {
        self.storing.handling.walking.run.engine.archive().root().join(self.stored.path())
    }

    pub fn answer(self, meta: Result<Metadata, std::io::Error>) -> (step: RunStep)
        ensures
            after_stat(self@.0, self@.1, self@.2, meta, step@),
    {
        let mut handling = self.storing.handling;
        let digest = self.storing.digest;
        let meta = match meta {
            Ok(m) => m,
            Err(e) => {
                return handling.handled(Err(EngineError::Io(e)));
            },
        };
        match handling.walking.run.engine.record_archived(
            self.stored.path(),
            meta.size,
            mtime_secs(meta.modified),
            &digest,
        ) {
            Ok(_) => {},
            Err(e) => {
                return handling.handled(Err(e));
            },
        }
        let ghost from = handling.view().engine().cache;
        match handling.record_source(&digest) {
            Ok(_) => {},
            Err(e) => {
                let step = handling.handled(Err(e));
                assert(fails(self@.0, from, step@));
                return step;
            },
        }
        match self.stored {
            Stored::Written(_) => handling.handled(Ok(Outcome::Copied)),
            Stored::AlreadyThere(_) => handling.handled(Ok(Outcome::Duplicate)),
        }
    }
}

impl Handled {
    /// The file.
    pub fn path(&self) -> (p: &FilePath)
        ensures
            p@ == self@.0.file.path,
    {
        &self.handling.file.path
    }

    /// What became of it.
    pub fn result(&self) -> (result: &Result<Outcome, EngineError>)
        ensures
            outcome_view(*result) == self@.1,
    {
        &self.result
    }

    fn outcome(&self) -> (outcome: Option<Outcome>)
        ensures
            outcome == count_of(self@.1),
    {
        match &self.result {
            Ok(o) => Some(*o),
            Err(_) => None,
        }
    }

    /// Can it be counted?
    pub fn has_room(&self) -> (room: bool)
        ensures
            room == stats::room_for(
                self@.0.walking.run.stats,
                count_of(self@.1),
                self@.0.file.size,
            ),
    {
        self.handling.walking.run.progress.stats.has_room(self.outcome(), self.handling.file.size)
    }

    /// Count it, and go on.
    pub fn record(self) -> (step: RunStep)
        requires
            stats::room_for(self@.0.walking.run.stats, count_of(self@.1), self@.0.file.size),
        ensures
            step@ == RunStepView::Walk(goes_on(self@.0, self@.1)),
    {
        let outcome = self.outcome();
        let mut walking = self.handling.walking;
        match outcome {
            Some(o) => {
                walking.run.progress.stats.record(o, self.handling.file.size);
            },
            None => {
                walking.run.progress.stats.record_error();
            },
        }
        RunStep::Walk(WalkSource { walking })
    }
}

impl RunDone {
    /// The engine, and what the run has done or why it stopped.
    pub fn into_parts(self) -> (parts: (Engine, Result<Stats, EngineError>))
        ensures
            parts.0@ == self@.0,
            stats_view(parts.1) == self@.1,
    {
        (self.engine, self.result)
    }
}

// ---------------------------------------------------------------------------------------------
// Laws.
// ---------------------------------------------------------------------------------------------

/// How a file that was handled without an error has changed the tables.
pub open spec fn looked_at(was: sqlite::Tables, is: sqlite::Tables, file: scan::FileView) -> bool {
    ||| unchanged(was, file) && is == was
    ||| exists|d: Seq<u8>|
        cache::holds(was, d) && is == cache::with_source(was, #[trigger] source_entry(file, d))
    ||| exists|d: Seq<u8>, s: archive::StoredView, m: Metadata|
        !cache::holds(was, d) && is == #[trigger] with_stored(was, file, d, s, m)
}

/// One step of handling a file leads to the next, whatever the file system answers and however the
/// file is stored.
pub open spec fn handling_leads_to(step: RunStepView, next: RunStepView) -> bool {
    match step {
        RunStepView::Hash(h) => exists|d: Result<Seq<u8>, std::io::Error>| #[trigger]
            after_hash(h, d, next),
        RunStepView::Store(h, d, _) => exists|
            r: Result<archive::StoredView, archive::ArchiveErrorView>,
        | next == #[trigger] after_store(h, d, r),
        RunStepView::Stat(h, d, s) => exists|m: Result<Metadata, std::io::Error>| #[trigger]
            after_stat(h, d, s, m, next),
        _ => false,
    }
}

/// All steps of handling one file.
pub open spec fn is_handling(start: HandlingView, steps: Seq<RunStepView>) -> bool {
    &&& steps.len() > 0
    &&& first_look(start, steps[0])
    &&& forall|i: int|
        0 <= i < steps.len() - 1 ==> handling_leads_to(#[trigger] steps[i], steps[i + 1])
    &&& steps.last() is Handled
}

/// What holds at every step of handling a file.
pub open spec fn handling_on_track(start: HandlingView, step: RunStepView) -> bool {
    match step {
        RunStepView::Hash(h) => h == start,
        RunStepView::Store(h, d, _) => h == start && !cache::holds(start.engine().cache.tables, d),
        RunStepView::Stat(h, d, _) => h == start && !cache::holds(start.engine().cache.tables, d),
        RunStepView::Handled(h, Ok(_)) => h == start.with(h.engine().cache)
            && h.engine().cache.exclusive && looked_at(
            start.engine().cache.tables,
            h.engine().cache.tables,
            start.file,
        ),
        RunStepView::Handled(h, Err(e)) => {
            &&& h == start.with(h.engine().cache)
            &&& h.engine().cache.exclusive
            &&& !engine::is_sqlite(e) ==> h == start
            &&& h.engine().cache.tables.sources == start.engine().cache.tables.sources
                || h.engine().cache == start.engine().cache.rolled_back()
        },
        _ => false,
    }
}

/// Every step of handling a file is on track.
pub proof fn lemma_handling_on_track(start: HandlingView, steps: Seq<RunStepView>, i: int)
    requires
        start.engine().cache.exclusive,
        is_handling(start, steps),
        0 <= i < steps.len(),
    ensures
        handling_on_track(start, steps[i]),
    decreases i,
{
    let t = start.engine().cache.tables;
    if i == 0 {
        assert(start == start.with(start.engine().cache));
    } else {
        lemma_handling_on_track(start, steps, i - 1);
        let step = steps[i - 1];
        let next = steps[i];
        assert(handling_leads_to(steps[i - 1], steps[i - 1 + 1]));
        match step {
            RunStepView::Hash(h) => {
                let d = choose|d: Result<Seq<u8>, std::io::Error>| #[trigger]
                    after_hash(h, d, next);
                assert(after_hash(h, d, next));
                match d {
                    Ok(d) => {
                        if let RunStepView::Handled(g, Ok(_)) = next {
                            assert(g.engine().cache.tables == cache::with_source(
                                t,
                                source_entry(start.file, d),
                            ));
                        }
                    },
                    Err(_) => {},
                }
            },
            RunStepView::Stat(h, d, s) => {
                let m = choose|m: Result<Metadata, std::io::Error>| #[trigger]
                    after_stat(h, d, s, m, next);
                assert(after_stat(h, d, s, m, next));
                match m {
                    Ok(m) => {
                        if let RunStepView::Handled(g, Ok(_)) = next {
                            assert(g.engine().cache.tables == with_stored(t, start.file, d, s, m));
                        }
                    },
                    Err(_) => {},
                }
            },
            _ => {},
        }
    }
}

/// A file that was handled without an error was unchanged, or what it looks like was recorded: with
/// the content that the archive held already, or with the content that was stored just now.
pub proof fn law_a_handled_file_is_recorded(start: HandlingView, steps: Seq<RunStepView>)
    requires
        start.engine().cache.exclusive,
        is_handling(start, steps),
    ensures
        steps.last() matches RunStepView::Handled(h, Ok(_)) ==> h == start.with(h.engine().cache)
            && looked_at(start.engine().cache.tables, h.engine().cache.tables, start.file),
{
    lemma_handling_on_track(start, steps, steps.len() - 1);
}

/// A file that could not be read or stored leaves no trace in the cache: the next run tries again.
pub proof fn law_a_failed_file_leaves_no_trace(start: HandlingView, steps: Seq<RunStepView>)
    requires
        start.engine().cache.exclusive,
        is_handling(start, steps),
    ensures
        steps.last() matches RunStepView::Handled(h, Err(engine::EngineErrorView::Io(_))) ==> h
            == start,
        steps.last() matches RunStepView::Handled(h, Err(engine::EngineErrorView::Archive(_)))
            ==> h == start,
{
    lemma_handling_on_track(start, steps, steps.len() - 1);
}

/// A file that failed, for whatever reason, is not recorded as seen: what is known of the source files
/// is what was known before. Where the cache had to give up the whole transaction, it is what was
/// known when that began.
pub proof fn law_a_failed_file_is_not_taken_for_seen(start: HandlingView, steps: Seq<RunStepView>)
    requires
        start.engine().cache.exclusive,
        is_handling(start, steps),
    ensures
        steps.last() matches RunStepView::Handled(h, Err(_)) ==> {
            ||| h.engine().cache.tables.sources == start.engine().cache.tables.sources
            ||| h.engine().cache == start.engine().cache.rolled_back()
        },
{
    lemma_handling_on_track(start, steps, steps.len() - 1);
}

/// Before anything is copied, it is known that the archive holds these bytes nowhere, under no
/// name.
pub proof fn law_only_new_content_is_stored(start: HandlingView, steps: Seq<RunStepView>, i: int)
    requires
        start.engine().cache.exclusive,
        is_handling(start, steps),
        0 <= i < steps.len(),
    ensures
        steps[i] matches RunStepView::Store(h, d, s) ==> !cache::holds(
            start.engine().cache.tables,
            d,
        ),
{
    lemma_handling_on_track(start, steps, i);
}

/// Once a content was stored, the same content is a duplicate, wherever it comes from and whatever
/// it is called.
pub proof fn law_content_is_stored_once(
    t: sqlite::Tables,
    file: scan::FileView,
    digest: Seq<u8>,
    stored: archive::StoredView,
    meta: Metadata,
    other: HandlingView,
    step: RunStepView,
)
    requires
        other.engine().cache.exclusive,
        other.engine().cache.tables == with_stored(t, file, digest, stored, meta),
        after_hash(other, Ok(digest), step),
    ensures
        step is Handled,
        step matches RunStepView::Handled(h, Ok(o)) ==> o == Outcome::Duplicate,
{
    let e = stored_entry(stored, meta, digest);
    assert(other.engine().cache.tables.archived.contains_key(e.path));
    assert(other.engine().cache.tables.archived[e.path].hash == digest);
}

/// Nothing is lost with the cache but time: when the index was rebuilt, a file whose content the
/// archive holds is a duplicate, and is not copied again.
pub proof fn law_a_lost_cache_copies_nothing_again(
    listed: Seq<Seq<u8>>,
    disk: reindex::Disk,
    i: int,
    was: HandlingView,
    step: RunStepView,
)
    requires
        0 <= i < listed.len(),
        was.engine().cache.exclusive,
        was.engine().cache.tables.archived == reindex::index_of(
            was.engine().archive.root,
            listed,
            disk,
            listed.len() as int,
        ),
        after_hash(
            was,
            Ok(disk[path::join(was.engine().archive.root, listed[i])].digest),
            step,
        ),
    ensures
        step is Handled,
        step matches RunStepView::Handled(h, Ok(o)) ==> o == Outcome::Duplicate,
{
    reindex::law_a_rebuilt_index_knows_every_file(
        was.engine().archive.root,
        listed,
        disk,
        was.engine().cache.tables,
        i,
    );
}

/// An unchanged file is never opened.
pub proof fn law_an_unchanged_file_is_skipped(was: HandlingView, step: RunStepView)
    requires
        was.engine().cache.exclusive,
        unchanged(was.engine().cache.tables, was.file),
        first_look(was, step),
    ensures
        step == RunStepView::Handled(was, Ok(Outcome::Unchanged)) || fails(
            was,
            was.engine().cache,
            step,
        ),
{
}

/// A file of which the size or the time has changed is read again.
pub proof fn law_a_changed_file_is_read(was: HandlingView, step: RunStepView)
    requires
        was.engine().cache.exclusive,
        !unchanged(was.engine().cache.tables, was.file),
        first_look(was, step),
    ensures
        step == RunStepView::Hash(was) || fails(was, was.engine().cache, step),
{
}

/// A walk that meets a file twice finds it as it was.
pub open spec fn nothing_changes(files: Seq<scan::FileView>) -> bool {
    forall|i: int, j: int|
        0 <= i < files.len() && 0 <= j < files.len() && (#[trigger] files[i]).path == (
        #[trigger] files[j]).path ==> files[i] == files[j]
}

/// A walk of a source tree that finds these files, with the steps of handling each of them. None
/// of them fails.
pub open spec fn is_pass(
    walk: WalkingView,
    files: Seq<scan::FileView>,
    handlings: Seq<Seq<RunStepView>>,
) -> bool
    decreases files.len(),
{
    if files.len() == 0 {
        handlings.len() == 0
    } else {
        &&& handlings.len() > 0
        &&& is_handling(HandlingView { walking: walk, file: files[0] }, handlings[0])
        &&& handlings[0].last() matches RunStepView::Handled(h, Ok(o)) && is_pass(
            goes_on(h, Ok(o)),
            files.drop_first(),
            handlings.drop_first(),
        )
    }
}

/// The run when such a walk has found all its files.
pub open spec fn end_of_pass(walk: WalkingView, handlings: Seq<Seq<RunStepView>>) -> WalkingView
    decreases handlings.len(),
{
    if handlings.len() == 0 {
        walk
    } else {
        match handlings[0].last() {
            RunStepView::Handled(h, r) => end_of_pass(goes_on(h, r), handlings.drop_first()),
            _ => walk,
        }
    }
}

proof fn lemma_looked_at(was: sqlite::Tables, is: sqlite::Tables, file: scan::FileView)
    requires
        looked_at(was, is, file),
    ensures
        unchanged(is, file),
        forall|k: Seq<char>|
            k != path::key(file.path) ==> sqlite::entry_at(was.sources, k)
                == #[trigger] sqlite::entry_at(is.sources, k),
{
}

proof fn lemma_pass_records(
    walk: WalkingView,
    files: Seq<scan::FileView>,
    handlings: Seq<Seq<RunStepView>>,
)
    requires
        walk.run.engine.cache.exclusive,
        is_pass(walk, files, handlings),
        nothing_changes(files),
    ensures
        end_of_pass(walk, handlings).run.engine.cache.exclusive,
        forall|i: int|
            0 <= i < files.len() ==> unchanged(
                end_of_pass(walk, handlings).run.engine.cache.tables,
                #[trigger] files[i],
            ),
        forall|k: Seq<char>|
            (forall|i: int|
                0 <= i < files.len() ==> path::key((#[trigger] files[i]).path) != k)
                ==> sqlite::entry_at(walk.run.engine.cache.tables.sources, k)
                == #[trigger] sqlite::entry_at(
                end_of_pass(walk, handlings).run.engine.cache.tables.sources,
                k,
            ),
    decreases files.len(),
{
    if files.len() > 0 {
        let start = HandlingView { walking: walk, file: files[0] };
        let steps = handlings[0];
        lemma_handling_on_track(start, steps, steps.len() - 1);
        if let RunStepView::Handled(h, Ok(o)) = steps.last() {
            let next = goes_on(h, Ok(o));
            let rest = files.drop_first();
            let end = end_of_pass(walk, handlings).run.engine.cache.tables;
            let t = h.engine().cache.tables;
            lemma_looked_at(walk.run.engine.cache.tables, t, files[0]);
            assert(nothing_changes(rest)) by {
                assert forall|i: int, j: int|
                    0 <= i < rest.len() && 0 <= j < rest.len() && (#[trigger] rest[i]).path == (
                    #[trigger] rest[j]).path implies rest[i] == rest[j] by {
                    assert(rest[i] == files[i + 1] && rest[j] == files[j + 1]);
                }
            }
            lemma_pass_records(next, rest, handlings.drop_first());
            let key = path::key(files[0].path);
            if exists|i: int| 0 <= i < rest.len() && path::key((#[trigger] rest[i]).path) == key {
                let i = choose|i: int|
                    0 <= i < rest.len() && path::key((#[trigger] rest[i]).path) == key;
                path::law_keys_tell_paths_apart(files[0].path, rest[i].path);
                assert(rest[i] == files[i + 1]);
                assert(files[0] == files[i + 1]);
            } else {
                assert(sqlite::entry_at(t.sources, key) == sqlite::entry_at(end.sources, key));
            }
            assert forall|i: int| 0 <= i < files.len() implies unchanged(
                end,
                #[trigger] files[i],
            ) by {
                if i > 0 {
                    assert(files[i] == rest[i - 1]);
                }
            }
            assert forall|k: Seq<char>|
                (forall|i: int|
                    0 <= i < files.len() ==> path::key((#[trigger] files[i]).path) != k)
                implies sqlite::entry_at(walk.run.engine.cache.tables.sources, k)
                == #[trigger] sqlite::entry_at(end.sources, k) by {
                assert(path::key(files[0].path) != k);
                assert forall|i: int| 0 <= i < rest.len() implies path::key(
                    (#[trigger] rest[i]).path,
                ) != k by {
                    assert(rest[i] == files[i + 1]);
                }
                assert(sqlite::entry_at(t.sources, k) == sqlite::entry_at(end.sources, k));
                assert(sqlite::entry_at(walk.run.engine.cache.tables.sources, k)
                    == sqlite::entry_at(t.sources, k));
            }
        }
    }
}

proof fn lemma_pass_skips(
    walk: WalkingView,
    files: Seq<scan::FileView>,
    handlings: Seq<Seq<RunStepView>>,
)
    requires
        walk.run.engine.cache.exclusive,
        is_pass(walk, files, handlings),
        forall|i: int|
            0 <= i < files.len() ==> unchanged(
                walk.run.engine.cache.tables,
                #[trigger] files[i],
            ),
    ensures
        handlings.len() == files.len(),
        forall|i: int|
            0 <= i < files.len() ==> skipped(#[trigger] handlings[i]),
        end_of_pass(walk, handlings).run.engine == walk.run.engine,
        end_of_pass(walk, handlings).run.stats.copied == walk.run.stats.copied,
        end_of_pass(walk, handlings).run.stats.bytes_copied == walk.run.stats.bytes_copied,
    decreases files.len(),
{
    if files.len() > 0 {
        let start = HandlingView { walking: walk, file: files[0] };
        let steps = handlings[0];
        assert(unchanged(walk.run.engine.cache.tables, files[0]));
        assert(first_look(start, steps[0]));
        if steps.len() > 1 {
            assert(handling_leads_to(steps[0], steps[0int + 1]));
        }
        assert(steps.last() == steps[0]);
        let next = goes_on(start, Ok(Outcome::Unchanged));
        let rest = files.drop_first();
        assert forall|i: int| 0 <= i < rest.len() implies unchanged(
            next.run.engine.cache.tables,
            #[trigger] rest[i],
        ) by {
            assert(rest[i] == files[i + 1]);
        }
        lemma_pass_skips(next, rest, handlings.drop_first());
        assert forall|i: int| 0 <= i < files.len() implies skipped(#[trigger] handlings[i]) by {
            if i > 0 {
                assert(handlings[i] == handlings.drop_first()[i - 1]);
            }
        }
    }
}

/// The file was not opened: the first look at it was the last.
pub open spec fn skipped(handling: Seq<RunStepView>) -> bool {
    handling.len() == 1 && handling[0] matches RunStepView::Handled(_, Ok(Outcome::Unchanged))
}

/// A second run copies nothing, and opens nothing: where a walk has found some files, and a later
/// walk finds the same ones, each of them is skipped.
pub proof fn law_a_second_run_copies_nothing(
    first: WalkingView,
    files: Seq<scan::FileView>,
    handlings: Seq<Seq<RunStepView>>,
    second: WalkingView,
    again: Seq<Seq<RunStepView>>,
)
    requires
        nothing_changes(files),
        first.run.engine.cache.exclusive,
        is_pass(first, files, handlings),
        second.run.engine.cache.exclusive,
        second.run.engine.cache.tables == end_of_pass(first, handlings).run.engine.cache.tables,
        is_pass(second, files, again),
    ensures
        again.len() == files.len(),
        forall|i: int| 0 <= i < files.len() ==> skipped(#[trigger] again[i]),
        end_of_pass(second, again).run.stats.copied == second.run.stats.copied,
        end_of_pass(second, again).run.stats.bytes_copied == second.run.stats.bytes_copied,
        end_of_pass(second, again).run.engine == second.run.engine,
{
    lemma_pass_records(first, files, handlings);
    lemma_pass_skips(second, files, again);
}

/// An archive of which nothing is known, and which holds a file, is indexed before any source
/// tree is walked.
pub proof fn law_an_existing_archive_is_adopted(
    was: RunView,
    swept: RunStepView,
    found: Seq<Result<scan::FileView, scan::ErrorView>>,
    listed: RunStepView,
)
    requires
        was.engine.cache.exclusive,
        was.engine.cache.tables.archived == Map::<Seq<char>, sqlite::Row>::empty(),
        archive::has_file(archive::listed_all(was.engine.archive.root, found)),
        after_sweep(was, swept),
        after_list(was, found, listed),
    ensures
        swept == RunStepView::List(was) || stops(was.engine, swept),
        listed is Index,
{
    assert(was.engine.cache.tables.archived.dom() =~= Set::<Seq<char>>::empty());
}

/// What a backup records of a file in the archive is what rebuilding the index records of it.
pub proof fn law_backup_and_reindex_agree(
    t: sqlite::Tables,
    root: Seq<u8>,
    disk: reindex::Disk,
    file: scan::FileView,
    digest: Seq<u8>,
    stored: archive::StoredView,
    meta: Metadata,
)
    requires
        disk[path::join(root, stored.path())] == (reindex::ArchivedFile {
            size: meta.size,
            mtime: scan::spec_mtime_secs(meta.modified),
            digest,
        }),
    ensures
        sqlite::entry_at(
            with_stored(t, file, digest, stored, meta).archived,
            path::key(stored.path()),
        ) == Some(reindex::row_on_disk(root, stored.path(), disk)),
{
}

/// One file that fails does not stop the run: it is counted, and the walk goes on.
pub proof fn law_a_failure_does_not_stop_the_run(
    was: HandlingView,
    error: engine::EngineErrorView,
)
    requires
        was.walking.run.stats.errors < u64::MAX,
    ensures
        goes_on(was, Err(error)).root == was.walking.root,
        goes_on(was, Err(error)).run.engine == was.engine(),
        goes_on(was, Err(error)).run.next == was.walking.run.next,
        goes_on(was, Err(error)).run.stats == (Stats {
            errors: (was.walking.run.stats.errors + 1) as u64,
            ..was.walking.run.stats
        }),
{
}

// ---------------------------------------------------------------------------------------------
// What the steps promise.
// ---------------------------------------------------------------------------------------------

/// A file counts as unchanged exactly if something is known of it and both its size and its time are the
/// ones that are known. Any other time, be it later or earlier, and any other size are a change.
pub proof fn law_unchanged_means_same_size_and_time(
    known: Option<Entry>,
    size: u64,
    mtime: i64,
    same: bool,
)
    requires
        call_ensures(is_unchanged, (known, size, mtime), same),
    ensures
        known is None ==> !same,
        known matches Some(e) ==> (same <==> e.size == size as i64 && e.mtime == mtime),
{
}

/// A file of which the recorded size or time is not the one that the walk reports, or of which nothing is
/// recorded, is read. One that is recorded with this very size and time is not opened. Nothing else about
/// the file matters, and only a failure of the cache keeps it from being looked at.
pub proof fn law_a_file_is_read_exactly_if_it_has_changed(
    q: WalkSource,
    file: FileEntry,
    step: RunStep,
)
    requires
        q@.run.engine.cache.exclusive,
        call_ensures(WalkSource::answer, (q, Some(Ok(file))), step),
    ensures
        ({
            let rows = q@.run.engine.cache.tables.sources;
            let key = path::key(file.path@);
            let known = rows.contains_key(key) && rows[key].size == file.size as i64
                && rows[key].mtime == file.mtime;
            match step@ {
                RunStepView::Hash(h) => !known && h.file == file@ && h.walking == q@,
                RunStepView::Handled(h, Ok(o)) => known && o == Outcome::Unchanged && h.file
                    == file@ && h.walking == q@,
                RunStepView::Handled(h, Err(e)) => engine::is_sqlite(e) && h.file == file@,
                _ => false,
            }
        }),
{
    let was = HandlingView { walking: q@, file: file@ };
    assert(was.with(was.engine().cache) == was);
    assert(first_look(was, step@));
}

/// What is done about a file depends on the answer of the cache alone, whatever that is: the recorded size
/// and time agree with those of the file, or the file is hashed. A failure is handed on.
pub proof fn law_every_answer_about_a_file_is_followed(
    q: WalkSource,
    file: FileEntry,
    known: Result<Option<Entry>, EngineError>,
    step: RunStep,
)
    requires
        call_ensures(WalkSource::after_known, (q, file, known), step),
    ensures
        match known {
            Err(e) => step@ matches RunStepView::Handled(h, Err(x)) && x == e@ && h.file == file@,
            Ok(None) => step@ matches RunStepView::Hash(h) && h.file == file@ && h.walking == q@,
            Ok(Some(k)) => if k.size == file.size as i64 && k.mtime == file.mtime {
                step@ matches RunStepView::Handled(h, Ok(o)) && o == Outcome::Unchanged && h.file
                    == file@ && h.walking == q@
            } else {
                step@ matches RunStepView::Hash(h) && h.file == file@ && h.walking == q@
            },
        },
{
}

/// A file that cannot be hashed is an error, with what the file system has said, and changes nothing.
pub proof fn law_an_unreadable_file_is_an_error(q: HashSource, e: std::io::Error, step: RunStep)
    requires
        call_ensures(HashSource::answer, (q, Err(e)), step),
    ensures
        step@ == RunStepView::Handled(q@, Err(engine::EngineErrorView::Io(e))),
{
}

/// A content is copied exactly if no row of the index has its hash, whatever the file is called and
/// however long it is. Where one has it, the file is recorded with its own size and time and with this
/// hash, counts as a duplicate, and nothing else of what is known changes.
pub proof fn law_content_is_copied_exactly_if_it_is_new(
    q: HashSource,
    digest: [u8; 32],
    step: RunStep,
)
    requires
        q@.engine().cache.exclusive,
        call_ensures(HashSource::answer, (q, Ok(digest)), step),
    ensures
        ({
            let t = q@.engine().cache.tables;
            let known = exists|k: Seq<char>| #[trigger]
                t.archived.contains_key(k) && t.archived[k].hash == digest@;
            match step@ {
                RunStepView::Store(h, d, _) => !known && h == q@ && d == digest@,
                RunStepView::Handled(h, Ok(o)) => known && o == Outcome::Duplicate && h.file
                    == q@.file && is_recorded(
                    t,
                    h.engine().cache.tables,
                    q@.file,
                    digest@,
                ) && h.engine().cache.tables.archived == t.archived,
                RunStepView::Handled(h, Err(e)) => engine::is_sqlite(e) && h.file == q@.file,
                _ => false,
            }
        }),
{
    assert(q@.with(q@.engine().cache) == q@);
    assert(is_looked_up(q@, digest@, step@));
}

/// Is a source file recorded with its size, its time and this hash, and is what is known of the other
/// source files what it was?
pub open spec fn is_recorded(
    was: sqlite::Tables,
    is: sqlite::Tables,
    file: scan::FileView,
    digest: Seq<u8>,
) -> bool {
    let key = path::key(file.path);
    &&& is.sources.contains_key(key)
    &&& is.sources[key].size == file.size as i64
    &&& is.sources[key].mtime == file.mtime
    &&& is.sources[key].hash == digest
    &&& forall|k: Seq<char>| #[trigger]
        is.sources.contains_key(k) && k != key ==> was.sources.contains_key(k) && was.sources[k]
            == is.sources[k]
    &&& forall|k: Seq<char>| #[trigger]
        was.sources.contains_key(k) ==> is.sources.contains_key(k)
    &&& is == (sqlite::Tables { sources: is.sources, archived: is.archived, ..was })
}

/// A content that is to be copied is stored as the archive stores files: the source file itself, by its
/// place beneath its source tree, under its hash.
pub proof fn law_new_content_is_stored_in_the_archive(
    q: HashSource,
    digest: [u8; 32],
    step: RunStep,
    archive: &archive::Archive,
    source: &FilePath,
    root: &FilePath,
    storing: StoreStep<()>,
)
    requires
        call_ensures(HashSource::after_lookup, (q, digest, Ok(false)), step),
        archive@ == q@.engine().archive,
        source@ == q@.file.path,
        root@ == q@.walking.root,
        call_ensures(archive::Archive::store, (archive, source, root, &digest), storing),
    ensures
        step@ matches RunStepView::Store(h, d, s) && h == q@ && d == digest@ && s == storing@,
{
}

/// The file that is hashed is the one that the walk has handed out.
pub proof fn law_the_file_that_was_found_is_hashed(
    q: WalkSource,
    file: FileEntry,
    step: RunStep,
    hashing: HashSource,
    p: &FilePath,
)
    requires
        call_ensures(WalkSource::answer, (q, Some(Ok(file))), step),
        step == RunStep::Hash(hashing),
        call_ensures(HashSource::path, (&hashing,), p),
    ensures
        p@ == file.path@,
        hashing@.walking.root == q@.root,
{
}

/// What storing a file has come to is taken as it is: a file that was stored is looked at where it was
/// stored, and one that was not is an error.
pub proof fn law_a_stored_file_is_looked_at(
    done: StoreDone<Storing>,
    step: RunStep,
    looking: StatStored,
    p: FilePath,
)
    requires
        call_ensures(stored, (done,), step),
    ensures
        match done@ {
            Ok(s) => step@ matches RunStepView::Stat(h, d, t) && t == s && h == StoreStep::Done(
                done,
            ).context()@.0 && d == StoreStep::Done(done).context()@.1,
            Err(e) => step@ matches RunStepView::Handled(h, Err(x)) && x
                == engine::EngineErrorView::Archive(e) && h == StoreStep::Done(done).context()@.0,
        },
        step == RunStep::Stat(looking) && call_ensures(StatStored::path, (&looking,), p) ==> (
        done@ matches Ok(s) && p@ == path::join(looking@.0.engine().archive.root, s.path())),
{
}

/// A file that was stored is recorded twice: in the archive with the size and the time that its copy has
/// there, and at its source with its own; both with its hash. Nothing else of what is known changes. It
/// counts as copied exactly if bytes were written.
pub proof fn law_a_stored_file_is_recorded(q: StatStored, meta: Metadata, step: RunStep)
    requires
        q@.0.engine().cache.exclusive,
        call_ensures(StatStored::answer, (q, Ok(meta)), step),
    ensures
        match step@ {
            RunStepView::Handled(h, Ok(o)) => {
                let (t, u) = (q@.0.engine().cache.tables, h.engine().cache.tables);
                let key = path::key(q@.2.path());
                &&& h.file == q@.0.file
                &&& is_recorded(t, u, q@.0.file, q@.1)
                &&& u.archived.contains_key(key)
                &&& u.archived[key].size == meta.size as i64
                &&& scan::is_time(meta.modified, u.archived[key].mtime)
                &&& u.archived[key].hash == q@.1
                &&& forall|k: Seq<char>| #[trigger]
                    u.archived.contains_key(k) && k != key ==> t.archived.contains_key(k)
                        && t.archived[k] == u.archived[k]
                &&& forall|k: Seq<char>| #[trigger]
                    t.archived.contains_key(k) ==> u.archived.contains_key(k)
                &&& q@.2 is Written <==> o == Outcome::Copied
                &&& q@.2 is AlreadyThere <==> o == Outcome::Duplicate
            },
            RunStepView::Handled(h, Err(e)) => engine::is_sqlite(e) && h.file == q@.0.file,
            _ => false,
        },
{
}

/// A stored file that cannot be looked at is an error, and is not recorded.
pub proof fn law_a_stored_file_must_be_there(q: StatStored, e: std::io::Error, step: RunStep)
    requires
        call_ensures(StatStored::answer, (q, Err(e)), step),
    ensures
        step@ == RunStepView::Handled(q@.0, Err(engine::EngineErrorView::Io(e))),
{
}

/// A file that was handled is counted, as what it was, and the walk of the same tree goes on with the
/// same engine.
pub proof fn law_the_walk_goes_on(handled: Handled, step: RunStep)
    requires
        call_ensures(Handled::record, (handled,), step),
        stats::room_for(
            handled@.0.walking.run.stats,
            match handled@.1 {
                Ok(o) => Some(o),
                Err(_) => None,
            },
            handled@.0.file.size,
        ),
    ensures
        step@ matches RunStepView::Walk(w) && {
            let (s, t) = (handled@.0.walking.run.stats, w.run.stats);
            &&& w.root == handled@.0.walking.root
            &&& w.run.engine == handled@.0.engine()
            &&& w.run.next == handled@.0.walking.run.next
            &&& t.copied == s.copied + if handled@.1 == Ok::<
                Outcome,
                engine::EngineErrorView,
            >(Outcome::Copied) {
                1int
            } else {
                0
            }
            &&& t.bytes_copied == s.bytes_copied + if handled@.1 == Ok::<
                Outcome,
                engine::EngineErrorView,
            >(Outcome::Copied) {
                handled@.0.file.size as int
            } else {
                0
            }
            &&& t.duplicates == s.duplicates + if handled@.1 == Ok::<
                Outcome,
                engine::EngineErrorView,
            >(Outcome::Duplicate) {
                1int
            } else {
                0
            }
            &&& t.skipped_unchanged == s.skipped_unchanged + if handled@.1 == Ok::<
                Outcome,
                engine::EngineErrorView,
            >(Outcome::Unchanged) {
                1int
            } else {
                0
            }
            &&& t.errors == s.errors + if handled@.1 is Err {
                1int
            } else {
                0
            }
        },
{
}

/// What cannot be read in a source tree is counted as one error, and the walk goes on.
pub proof fn law_an_error_of_the_walk_is_counted(q: WalkSource, e: ScanError, step: RunStep)
    requires
        q@.run.stats.errors < u64::MAX,
        call_ensures(WalkSource::answer, (q, Some(Err(e))), step),
    ensures
        step@ matches RunStepView::Walk(w) && w.root == q@.root && w.run.engine == q@.run.engine
            && w.run.next == q@.run.next && w.run.stats == (Stats {
            errors: (q@.run.stats.errors + 1) as u64,
            ..q@.run.stats
        }),
{
}

/// When a source tree was walked, what was recorded of it is kept, and the next tree follows, in a
/// transaction of its own. Behind the last one the run is over, with the numbers that were counted.
pub proof fn law_each_tree_is_kept_and_the_next_follows(q: WalkSource, step: RunStep)
    requires
        q@.run.engine.cache.exclusive,
        call_ensures(WalkSource::answer, (q, None::<Result<FileEntry, ScanError>>), step),
    ensures
        match step@ {
            RunStepView::Walk(w) => {
                &&& q@.run.next < q@.run.engine.sources.len()
                &&& w.root == q@.run.engine.sources[q@.run.next]
                &&& w.run.next == q@.run.next + 1
                &&& w.run.stats == q@.run.stats
                &&& w.run.engine.sources == q@.run.engine.sources
                &&& w.run.engine.cache.tables == q@.run.engine.cache.tables
                &&& w.run.engine.cache.session.begun == Some(q@.run.engine.cache.tables)
            },
            RunStepView::Done(e, Ok(s)) => {
                &&& q@.run.next >= q@.run.engine.sources.len()
                &&& s == q@.run.stats
                &&& e.cache.tables == q@.run.engine.cache.tables
                &&& e.cache.session.begun is None
            },
            RunStepView::Done(e, Err(x)) => engine::is_sqlite(x),
            _ => false,
        },
{
}

/// A run begins with sweeping the archive that it copies into, with nothing counted, and goes through all
/// sources from the first on.
pub proof fn law_a_run_begins_with_a_sweep(engine: Engine, step: RunStep)
    requires
        call_ensures(Engine::run, (engine,), step),
    ensures
        step@ matches RunStepView::Sweep(r) && r.engine == engine@ && r.next == 0 && r.stats.copied
            == 0 && r.stats.bytes_copied == 0 && r.stats.duplicates == 0
            && r.stats.skipped_unchanged == 0 && r.stats.errors == 0,
{
}

/// What is removed from the archive is what sweeping it gives, and nothing else.
pub proof fn law_only_what_is_swept_is_removed(
    q: SweepArchive,
    found: &[Result<FileEntry, ScanError>],
    step: RunStep,
    removing: RemoveStrays,
    paths: &[FilePath],
    archive: &archive::Archive,
    swept: Vec<FilePath>,
)
    requires
        call_ensures(SweepArchive::answer, (q, found), step),
        step == RunStep::Remove(removing),
        call_ensures(RemoveStrays::paths, (&removing,), paths),
        archive@ == q@.engine.archive,
        call_ensures(archive::Archive::sweep_temp_files, (archive, found), swept),
    ensures
        path::bytes_of(paths@) == path::bytes_of(swept@),
        removing@.0 == q@,
{
}

/// An archive of which nothing is known is looked at before anything is copied into it; one of which
/// something is known is not.
pub proof fn law_an_unknown_archive_is_looked_at(q: RemoveStrays, step: RunStep)
    requires
        q@.0.engine.cache.exclusive,
        call_ensures(RemoveStrays::answer, (q,), step),
    ensures
        ({
            let rows = q@.0.engine.cache.tables.archived;
            match step@ {
                RunStepView::List(r) => r == q@.0 && forall|k: Seq<char>| !rows.contains_key(k),
                RunStepView::Walk(w) => {
                    &&& exists|k: Seq<char>| rows.contains_key(k)
                    &&& q@.0.next < q@.0.engine.sources.len()
                    &&& w.root == q@.0.engine.sources[q@.0.next]
                },
                RunStepView::Done(_, Ok(s)) => {
                    &&& exists|k: Seq<char>| rows.contains_key(k)
                    &&& q@.0.next >= q@.0.engine.sources.len()
                    &&& s == q@.0.stats
                },
                RunStepView::Done(_, Err(e)) => engine::is_sqlite(e),
                _ => false,
            }
        }),
{
    let rows = q@.0.engine.cache.tables.archived;
    assert(q@.0.with(q@.0.engine.cache) == q@.0);
    if rows.dom() =~= Set::empty() {
        assert forall|k: Seq<char>| !rows.contains_key(k) by {
            assert(!rows.dom().contains(k));
        }
    } else {
        assert(exists|k: Seq<char>| rows.contains_key(k)) by {
            if forall|k: Seq<char>| !rows.contains_key(k) {
                assert(rows.dom() =~= Set::empty());
            }
        }
    }
}

/// An unknown archive that has contents is indexed before any source tree is walked, and one that has none
/// is not.
pub proof fn law_an_unknown_archive_with_contents_is_indexed(
    q: ListContents,
    found: &[Result<FileEntry, ScanError>],
    step: RunStep,
    archive: &archive::Archive,
    filled: bool,
)
    requires
        call_ensures(ListContents::answer, (q, found), step),
        archive@ == q@.engine.archive,
        call_ensures(archive::Archive::has_contents, (archive, found), filled),
    ensures
        filled <==> step@ is Index,
        !filled ==> match step@ {
            RunStepView::Walk(w) => q@.next < q@.engine.sources.len() && w.root
                == q@.engine.sources[q@.next],
            RunStepView::Done(_, Ok(s)) => q@.next >= q@.engine.sources.len() && s == q@.stats,
            RunStepView::Done(_, Err(e)) => engine::is_sqlite(e),
            _ => false,
        },
{
}

/// An index that was rebuilt is followed by the source trees; one that could not be ends the run, with the
/// error.
pub proof fn law_a_run_needs_its_index(done: ReindexDone<Progress>, step: RunStep)
    requires
        call_ensures(indexed, (done,), step),
    ensures
        ({
            let (stats, next) = ReindexStep::Done(done).context()@;
            match done@.1 {
                Err(e) => step@ == RunStepView::Done(done@.0, Err(e)),
                Ok(_) => match step@ {
                    RunStepView::Walk(w) => next < done@.0.sources.len() && w.root
                        == done@.0.sources[next] && w.run.stats == stats,
                    RunStepView::Done(_, Ok(s)) => next >= done@.0.sources.len() && s == stats,
                    RunStepView::Done(_, Err(e)) => engine::is_sqlite(e),
                    _ => false,
                },
            }
        }),
{
}

/// The directories that are walked are the archive of the engine and the source tree that is at hand.
pub proof fn law_the_right_directories_are_walked(
    sweeping: SweepArchive,
    listing: ListContents,
    walking: WalkSource,
    root: &FilePath,
)
    ensures
        call_ensures(SweepArchive::root, (&sweeping,), root) ==> root@
            == sweeping@.engine.archive.root,
        call_ensures(ListContents::root, (&listing,), root) ==> root@
            == listing@.engine.archive.root,
        call_ensures(WalkSource::root, (&walking,), root) ==> root@ == walking@.root,
{
}

} // verus!
