//! What a run that ends without an error has kept: the content of every file that it was given.

use crate::archive;
use crate::cache;
use crate::course;
use crate::engine;
use crate::keeping;
use crate::path;
use crate::reindex;
use crate::run;
use crate::scan;
use crate::sqlite;
use crate::stats;
use vstd::prelude::*;

verus! {

/// Has anything failed so far?
spec fn is_troubled(step: run::RunStepView) -> bool {
    match step {
        run::RunStepView::Sweep(r) => r.stats.errors > 0,
        run::RunStepView::Remove(r, _) => r.stats.errors > 0,
        run::RunStepView::List(r) => r.stats.errors > 0,
        run::RunStepView::Index(s, _, v) => s.errors > 0 || v matches reindex::ReindexView::Done(
            _,
            Err(_),
            _,
        ),
        run::RunStepView::Walk(w) => w.run.stats.errors > 0,
        run::RunStepView::Hash(h) => h.walking.run.stats.errors > 0,
        run::RunStepView::Store(h, _, _) => h.walking.run.stats.errors > 0,
        run::RunStepView::Stat(h, _, _) => h.walking.run.stats.errors > 0,
        run::RunStepView::Handled(h, r) => h.walking.run.stats.errors > 0 || r is Err,
        run::RunStepView::Done(_, Ok(s)) => s.errors > 0,
        run::RunStepView::Done(_, Err(_)) => true,
    }
}

/// What has failed is not forgotten.
proof fn lemma_trouble_stays(
    root: Seq<u8>,
    survey: course::Survey,
    m: course::Moment,
    n: course::Moment,
)
    requires
        course::leads_to(root, survey, m, n),
        is_troubled(m.step),
    ensures
        is_troubled(n.step),
{
    match m.step {
        run::RunStepView::List(r) => {
            let found = choose|found: Seq<course::Item>|
                course::truly_found(root, found, m.files) && #[trigger] run::after_list(
                    r,
                    found,
                    n.step,
                );
            assert(run::after_list(r, found, n.step));
        },
        run::RunStepView::Walk(w) => {
            assert(run::after_walk(w, m.item, n.step));
        },
        run::RunStepView::Handled(h, r) => {
            stats::law_every_file_counts_once(
                h.walking.run.stats,
                run::count_of(r),
                h.file.size,
            );
        },
        run::RunStepView::Hash(h) => {
            let d = choose|d: Result<Seq<u8>, std::io::Error>| #[trigger]
                run::after_hash(h, d, n.step);
            assert(run::after_hash(h, d, n.step));
        },
        run::RunStepView::Stat(h, d, s) => {
            let a = choose|a: Result<scan::Metadata, std::io::Error>| #[trigger]
                run::after_stat(h, d, s, a, n.step);
            assert(run::after_stat(h, d, s, a, n.step));
        },
        _ => {},
    }
}

/// Which hashes are right for which source files.
type Right = spec_fn(Seq<u8>, Seq<u8>) -> bool;

/// Is this source file recorded with a hash that is right?
spec fn notes(t: sqlite::Tables, right: Right, p: Seq<u8>) -> bool {
    t.sources.contains_key(path::key(p)) && right(p, t.sources[path::key(p)].hash)
}

/// Is the hash right that is read of a source file?
spec fn is_read(right: Right, m: course::Moment, n: course::Moment) -> bool {
    m.step matches run::RunStepView::Hash(h) ==> exists|d: Result<Seq<u8>, std::io::Error>|
        (d matches Ok(digest) ==> right(h.file.path, digest)) && #[trigger] run::after_hash(
            h,
            d,
            n.step,
        )
}

/// Is the hash right that is known of a source file that has not changed?
spec fn is_known(right: Right, t: sqlite::Tables, m: course::Moment) -> bool {
    m.step is Walk ==> (m.item matches Some(Ok(file)) ==> run::unchanged(t, file) ==> notes(
        t,
        right,
        file.path,
    ))
}

/// Is all right that is read and known in a run?
spec fn all_right(start: engine::EngineView, right: Right, moments: Seq<course::Moment>) -> bool {
    &&& forall|i: int|
        0 <= i < moments.len() - 1 ==> is_read(right, #[trigger] moments[i], moments[i + 1])
    &&& forall|i: int|
        0 <= i < moments.len() ==> is_known(right, start.cache.tables, #[trigger] moments[i])
}

/// The engine that is at work.
spec fn engine_of(step: run::RunStepView) -> engine::EngineView {
    match step {
        run::RunStepView::Sweep(r) => r.engine,
        run::RunStepView::Remove(r, _) => r.engine,
        run::RunStepView::List(r) => r.engine,
        run::RunStepView::Index(_, _, v) => match v {
            reindex::ReindexView::List(e) => e,
            reindex::ReindexView::Stat(i) => i.engine,
            reindex::ReindexView::Hash(i, _, _) => i.engine,
            reindex::ReindexView::Done(e, _, _) => e,
        },
        run::RunStepView::Walk(w) => w.run.engine,
        run::RunStepView::Hash(h) => h.engine(),
        run::RunStepView::Store(h, _, _) => h.engine(),
        run::RunStepView::Stat(h, _, _) => h.engine(),
        run::RunStepView::Handled(h, _) => h.engine(),
        run::RunStepView::Done(e, _) => e,
    }
}

/// Is this source file recorded?
spec fn is_recorded(step: run::RunStepView, right: Right, p: Seq<u8>) -> bool {
    notes(engine_of(step).cache.tables, right, p)
}

/// Is this file being handled, and not recorded yet?
spec fn is_pending(step: run::RunStepView, file: scan::FileView) -> bool {
    match step {
        run::RunStepView::Hash(h) => h.file == file,
        run::RunStepView::Store(h, _, _) => h.file == file,
        run::RunStepView::Stat(h, _, _) => h.file == file,
        _ => false,
    }
}

/// What is known of every source file is what was known at first, or is right.
spec fn is_right(was: sqlite::Tables, t: sqlite::Tables, right: Right) -> bool {
    forall|p: Seq<u8>| #[trigger]
        notes(t, right, p) || sqlite::entry_at(t.sources, path::key(p)) == sqlite::entry_at(
            was.sources,
            path::key(p),
        )
}

/// Is all content that the cache of this engine speaks of in the archive, and is what it has recorded
/// right?
spec fn is_safe(
    start: engine::EngineView,
    right: Right,
    e: engine::EngineView,
    files: keeping::Files,
) -> bool {
    &&& e.cache.exclusive
    &&& e.archive.root == start.archive.root
    &&& keeping::backed(e.cache.tables, files)
    &&& is_right(start.cache.tables, e.cache.tables, right)
}

/// What holds at every moment, as long as nothing has failed.
spec fn step_is_safe(
    start: engine::EngineView,
    survey: course::Survey,
    right: Right,
    m: course::Moment,
) -> bool {
    let root = start.archive.root;
    match m.step {
        run::RunStepView::Sweep(r) => r.engine == start && is_safe(start, right, start, m.files),
        run::RunStepView::Remove(r, _) => r.engine == start && is_safe(
            start,
            right,
            start,
            m.files,
        ),
        run::RunStepView::List(r) => r.engine == start && is_safe(start, right, start, m.files),
        run::RunStepView::Index(_, _, v) => {
            &&& is_safe(start, right, start, m.files)
            &&& reindex::on_track(start, survey.found, survey.disk, v)
            &&& match v {
                reindex::ReindexView::List(_) => true,
                reindex::ReindexView::Done(_, Err(_), _) => true,
                _ => course::surveyed(root, survey, m.files),
            }
        },
        run::RunStepView::Walk(w) => is_safe(start, right, w.run.engine, m.files),
        run::RunStepView::Hash(h) => is_safe(start, right, h.engine(), m.files),
        run::RunStepView::Store(h, d, _) => is_safe(start, right, h.engine(), m.files) && right(
            h.file.path,
            d,
        ),
        run::RunStepView::Stat(h, d, _) => is_safe(start, right, h.engine(), m.files) && right(
            h.file.path,
            d,
        ) && keeping::is_kept(m.files, d),
        run::RunStepView::Handled(h, r) => r is Ok ==> is_safe(
            start,
            right,
            h.engine(),
            m.files,
        ) && is_recorded(m.step, right, h.file.path),
        run::RunStepView::Done(e, Ok(_)) => is_safe(start, right, e, m.files),
        run::RunStepView::Done(_, Err(_)) => true,
    }
}

/// Recording one file keeps what is known of the others.
proof fn lemma_recorded_is_right(
    was: sqlite::Tables,
    t: sqlite::Tables,
    right: Right,
    file: scan::FileView,
    digest: Seq<u8>,
)
    requires
        is_right(was, t, right),
        right(file.path, digest),
    ensures
        ({
            let u = cache::with_source(t, run::source_entry(file, digest));
            &&& is_right(was, u, right)
            &&& notes(u, right, file.path)
            &&& forall|p: Seq<u8>| #[trigger] notes(t, right, p) ==> notes(u, right, p)
        }),
{
    let u = cache::with_source(t, run::source_entry(file, digest));
    assert forall|p: Seq<u8>| #[trigger]
        notes(u, right, p) || sqlite::entry_at(u.sources, path::key(p)) == sqlite::entry_at(
            was.sources,
            path::key(p),
        ) by {
        if path::key(p) == path::key(file.path) {
            path::law_keys_tell_paths_apart(p, file.path);
        } else {
            assert(notes(t, right, p) || sqlite::entry_at(t.sources, path::key(p))
                == sqlite::entry_at(was.sources, path::key(p)));
        }
    }
    assert forall|p: Seq<u8>| #[trigger] notes(t, right, p) implies notes(
        u,
        right,
        p,
    ) by {
        if path::key(p) == path::key(file.path) {
            path::law_keys_tell_paths_apart(p, file.path);
        }
    }
}

/// Content is kept where nothing but copies that are not complete is removed.
proof fn lemma_removed_is_backed(
    t: sqlite::Tables,
    files: keeping::Files,
    paths: Seq<Seq<u8>>,
    then: keeping::Files,
)
    requires
        keeping::backed(t, files),
        course::removed(files, paths, then),
        forall|i: int| 0 <= i < paths.len() ==> archive::is_copy_path(#[trigger] paths[i]),
    ensures
        keeping::backed(t, then),
{
    assert forall|d: Seq<u8>| #[trigger] keeping::is_kept(files, d) implies keeping::is_kept(
        then,
        d,
    ) by {
        let p = choose|p: Seq<u8>| #[trigger]
            files.contains_key(p) && !archive::is_copy_path(p) && files[p].digest == d;
        if paths.contains(p) {
            let i = choose|i: int| 0 <= i < paths.len() && paths[i] == p;
            assert(archive::is_copy_path(paths[i]));
        }
        assert(then.contains_key(p));
    }
}

proof fn lemma_next_source_is_safe(
    start: engine::EngineView,
    survey: course::Survey,
    right: Right,
    was: run::RunView,
    n: course::Moment,
)
    requires
        run::next_source(was, n.step),
        is_safe(start, right, was.engine, n.files),
        !is_troubled(n.step),
    ensures
        step_is_safe(start, survey, right, n),
        engine_of(n.step).cache.tables == was.engine.cache.tables,
{
}

/// The next moment is safe as well, and what was recorded stays recorded.
proof fn lemma_next_is_safe(
    start: engine::EngineView,
    survey: course::Survey,
    right: Right,
    m: course::Moment,
    n: course::Moment,
)
    requires
        course::leads_to(start.archive.root, survey, m, n),
        course::only_copies(m.step),
        is_read(right, m, n),
        is_known(right, start.cache.tables, m),
        step_is_safe(start, survey, right, m),
        !is_troubled(m.step),
        !is_troubled(n.step),
    ensures
        step_is_safe(start, survey, right, n),
        forall|p: Seq<u8>| #[trigger]
            is_recorded(m.step, right, p) ==> is_recorded(n.step, right, p),
        m.step is Walk ==> (m.item matches Some(Ok(f)) ==> is_pending(n.step, f) || is_recorded(
            n.step,
            right,
            f.path,
        )),
        forall|f: scan::FileView| #[trigger]
            is_pending(m.step, f) ==> is_pending(n.step, f) || is_recorded(
                n.step,
                right,
                f.path,
            ),
{
    let root = start.archive.root;
    match m.step {
        run::RunStepView::Remove(r, paths) => {
            lemma_removed_is_backed(start.cache.tables, m.files, paths, n.files);
            assert(r.with(start.cache) == r);
            if run::next_source(r, n.step) {
                lemma_next_source_is_safe(start, survey, right, r, n);
            }
        },
        run::RunStepView::List(r) => {
            let found = choose|found: Seq<course::Item>|
                course::truly_found(root, found, m.files) && #[trigger] run::after_list(
                    r,
                    found,
                    n.step,
                );
            if archive::has_file(archive::listed_all(root, found)) {
                if let run::RunStepView::Index(_, _, v) = n.step {
                    reindex::lemma_begins_on_track(start, survey.found, survey.disk, v);
                }
            } else {
                lemma_next_source_is_safe(start, survey, right, r, n);
            }
        },
        run::RunStepView::Index(stats, next, v) => {
            lemma_index_is_safe(start, survey, right, m, n, stats, next, v);
        },
        run::RunStepView::Walk(w) => {
            lemma_walk_is_safe(start, survey, right, m, n, w);
        },
        run::RunStepView::Hash(h) => {
            lemma_hash_is_safe(start, survey, right, m, n, h);
        },
        run::RunStepView::Store(h, d, _) => {
            keeping::lemma_may_store(m.files, h, d, n.step, n.files);
            keeping::lemma_still_backed(h.engine().cache.tables, m.files, n.files);
        },
        run::RunStepView::Stat(h, d, s) => {
            let a = choose|a: Result<scan::Metadata, std::io::Error>| #[trigger]
                run::after_stat(h, d, s, a, n.step);
            assert(run::after_stat(h, d, s, a, n.step));
            let e = run::stored_entry(s, a->Ok_0, d);
            let t = h.engine().cache.tables;
            let u = cache::with_archived(t, e);
            keeping::lemma_archived_backed(t, m.files, e);
            keeping::lemma_source_backed(u, m.files, run::source_entry(h.file, d));
            assert forall|p: Seq<u8>| #[trigger]
                notes(u, right, p) || sqlite::entry_at(u.sources, path::key(p))
                    == sqlite::entry_at(start.cache.tables.sources, path::key(p)) by {
                assert(notes(t, right, p) || sqlite::entry_at(t.sources, path::key(p))
                    == sqlite::entry_at(start.cache.tables.sources, path::key(p)));
            }
            lemma_recorded_is_right(start.cache.tables, u, right, h.file, d);
            assert forall|p: Seq<u8>| #[trigger] is_recorded(m.step, right, p) implies is_recorded(
                n.step,
                right,
                p,
            ) by {
                assert(notes(u, right, p));
            }
        },
        _ => {},
    }
}

/// A file that is not opened is recorded already.
proof fn lemma_walk_is_safe(
    start: engine::EngineView,
    survey: course::Survey,
    right: Right,
    m: course::Moment,
    n: course::Moment,
    w: run::WalkingView,
)
    requires
        course::leads_to(start.archive.root, survey, m, n),
        is_known(right, start.cache.tables, m),
        step_is_safe(start, survey, right, m),
        !is_troubled(n.step),
        m.step == run::RunStepView::Walk(w),
    ensures
        step_is_safe(start, survey, right, n),
        engine_of(n.step).cache.tables == w.run.engine.cache.tables,
        m.item matches Some(Ok(f)) ==> is_pending(n.step, f) || is_recorded(
            n.step,
            right,
            f.path,
        ),
{
    assert(run::after_walk(w, m.item, n.step));
    assert(w.run.with(w.run.engine.cache) == w.run);
    if m.item is None {
        let db = choose|db: sqlite::Database|
            {
                &&& sqlite::becomes(w.run.engine.cache, db, w.run.engine.cache.committed())
                &&& #[trigger] run::next_source(w.run.with(db), n.step)
            };
        lemma_next_source_is_safe(start, survey, right, w.run.with(db), n);
    }
    if let Some(Ok(file)) = m.item {
        let h = run::HandlingView { walking: w, file };
        let t = w.run.engine.cache.tables;
        assert(h.with(h.engine().cache) == h);
        assert(notes(t, right, file.path) || sqlite::entry_at(
            t.sources,
            path::key(file.path),
        ) == sqlite::entry_at(start.cache.tables.sources, path::key(file.path)));
    }
}

/// A file whose content the archive holds is recorded with a content that is kept.
proof fn lemma_hash_is_safe(
    start: engine::EngineView,
    survey: course::Survey,
    right: Right,
    m: course::Moment,
    n: course::Moment,
    h: run::HandlingView,
)
    requires
        course::leads_to(start.archive.root, survey, m, n),
        is_read(right, m, n),
        step_is_safe(start, survey, right, m),
        !is_troubled(n.step),
        m.step == run::RunStepView::Hash(h),
    ensures
        step_is_safe(start, survey, right, n),
        forall|p: Seq<u8>| #[trigger]
            is_recorded(m.step, right, p) ==> is_recorded(n.step, right, p),
        is_pending(n.step, h.file) || is_recorded(n.step, right, h.file.path),
{
    let a = choose|d: Result<Seq<u8>, std::io::Error>|
        (d matches Ok(digest) ==> right(h.file.path, digest)) && #[trigger] run::after_hash(
            h,
            d,
            n.step,
        );
    assert(run::after_hash(h, a, n.step));
    let d = a->Ok_0;
    let t = h.engine().cache.tables;
    assert(h.with(h.engine().cache) == h);
    if n.step is Handled {
        assert(cache::holds(t, d));
        let p = choose|p: Seq<char>| #[trigger]
            t.archived.contains_key(p) && t.archived[p].hash == d;
        assert(keeping::is_kept(m.files, t.archived[p].hash));
        keeping::lemma_source_backed(t, m.files, run::source_entry(h.file, d));
        lemma_recorded_is_right(start.cache.tables, t, right, h.file, d);
    }
}

/// Rebuilding the index forgets no source file, and speaks of nothing but what is in the archive.
proof fn lemma_index_is_safe(
    start: engine::EngineView,
    survey: course::Survey,
    right: Right,
    m: course::Moment,
    n: course::Moment,
    stats: stats::Stats,
    next: int,
    v: reindex::ReindexView,
)
    requires
        course::leads_to(start.archive.root, survey, m, n),
        step_is_safe(start, survey, right, m),
        !is_troubled(n.step),
        m.step == run::RunStepView::Index(stats, next, v),
    ensures
        step_is_safe(start, survey, right, n),
        forall|p: Seq<u8>| #[trigger]
            is_recorded(m.step, right, p) ==> is_recorded(n.step, right, p),
{
    let root = start.archive.root;
    if let reindex::ReindexView::Done(e, result, _) = v {
        if result is Ok {
            let listed = reindex::found_files(root, survey.found);
            course::lemma_listed_places(root, survey, m.files);
            keeping::law_a_rebuilt_index_is_backed(
                root,
                listed,
                survey.disk,
                listed.len() as int,
                start.cache.tables,
            );
            assert(e.cache.tables.sources == start.cache.tables.sources);
            lemma_next_source_is_safe(
                start,
                survey,
                right,
                run::RunView { engine: e, stats, next },
                n,
            );
        }
    } else if let run::RunStepView::Index(_, _, w) = n.step {
        reindex::lemma_steps_on_track(start, survey.found, survey.disk, v, w);
    }
}

/// All that was handed out so far is recorded, but for the file that is being handled.
spec fn all_recorded(right: Right, moments: Seq<course::Moment>, i: int) -> bool {
    forall|j: int|
        0 <= j < i && (#[trigger] moments[j]).step is Walk ==> (moments[j].item matches Some(Ok(f))
            ==> is_pending(moments[i].step, f) || is_recorded(moments[i].step, right, f.path))
}

proof fn lemma_all_safe(
    start: engine::EngineView,
    survey: course::Survey,
    right: Right,
    moments: Seq<course::Moment>,
    i: int,
)
    requires
        course::is_run(start, survey, moments),
        all_right(start, right, moments),
        start.cache.exclusive,
        keeping::backed(start.cache.tables, moments[0].files),
        0 <= i < moments.len(),
    ensures
        !is_troubled(moments[i].step) ==> step_is_safe(start, survey, right, moments[i])
            && all_recorded(right, moments, i),
    decreases i,
{
    if i > 0 && !is_troubled(moments[i].step) {
        let root = start.archive.root;
        let (m, n) = (moments[i - 1], moments[i]);
        assert(course::leads_to(root, survey, moments[i - 1], moments[i - 1 + 1]));
        assert(is_read(right, moments[i - 1], moments[i - 1 + 1]));
        if is_troubled(m.step) {
            lemma_trouble_stays(root, survey, m, n);
        }
        lemma_all_safe(start, survey, right, moments, i - 1);
        course::lemma_kept(start, survey, moments, i - 1);
        lemma_next_is_safe(start, survey, right, m, n);
        assert forall|j: int| 0 <= j < i && (#[trigger] moments[j]).step is Walk implies (
        moments[j].item matches Some(Ok(f)) ==> is_pending(n.step, f) || is_recorded(
            n.step,
            right,
            f.path,
        )) by {
            if let Some(Ok(f)) = moments[j].item {
                if j < i - 1 {
                    assert(is_pending(m.step, f) || is_recorded(m.step, right, f.path));
                }
            }
        }
    }
}

/// Every file is accounted for: when a run has ended without an error, every file that the walks of the
/// source trees have handed out is recorded, with the hash of a content that is in the archive.
pub proof fn law_every_file_is_accounted_for(
    start: engine::EngineView,
    survey: course::Survey,
    moments: Seq<course::Moment>,
    end: engine::EngineView,
    s: stats::Stats,
    j: int,
    file: scan::FileView,
)
    requires
        course::is_run(start, survey, moments),
        start.cache.exclusive,
        keeping::backed(start.cache.tables, moments[0].files),
        moments.last().step == run::RunStepView::Done(end, Ok(s)),
        s.errors == 0,
        0 <= j < moments.len(),
        moments[j].step is Walk,
        moments[j].item == Some(Ok::<scan::FileView, scan::ErrorView>(file)),
    ensures
        end.cache.tables.sources.contains_key(path::key(file.path)),
        keeping::is_kept(
            moments.last().files,
            end.cache.tables.sources[path::key(file.path)].hash,
        ),
        keeping::backed(end.cache.tables, moments.last().files),
{
    let right = |p: Seq<u8>, d: Seq<u8>| true;
    assert forall|i: int| 0 <= i < moments.len() - 1 implies is_read(
        right,
        #[trigger] moments[i],
        moments[i + 1],
    ) by {
        assert(course::leads_to(start.archive.root, survey, moments[i], moments[i + 1]));
    }
    lemma_all_safe(start, survey, right, moments, moments.len() - 1);
    assert(moments[j].step is Walk);
    assert(is_recorded(moments.last().step, right, file.path));
}

/// The hash of what each source file holds, by its path.
pub type Contents = Map<Seq<u8>, Seq<u8>>;

/// What is read of the source files is what they hold.
pub open spec fn truly_read(contents: Contents, m: course::Moment, n: course::Moment) -> bool {
    m.step matches run::RunStepView::Hash(h) ==> exists|d: Result<Seq<u8>, std::io::Error>|
        (d matches Ok(digest) ==> digest == contents[h.file.path]) && #[trigger] run::after_hash(
            h,
            d,
            n.step,
        )
}

/// A source file that looks as it did when it was recorded holds what it held then.
pub open spec fn truly_known(contents: Contents, t: sqlite::Tables, m: course::Moment) -> bool {
    m.step is Walk ==> (m.item matches Some(Ok(file)) ==> run::unchanged(t, file) ==> records(
        t,
        contents,
        file.path,
    ))
}

/// Is this source file recorded with the hash of what it holds?
pub open spec fn records(t: sqlite::Tables, contents: Contents, p: Seq<u8>) -> bool {
    t.sources.contains_key(path::key(p)) && t.sources[path::key(p)].hash == contents[p]
}

/// The source files stay as they are for the whole run. What is read of them is what they hold, and
/// one that looks as it did when it was recorded holds what it held then.
pub open spec fn sources_stay(
    start: engine::EngineView,
    contents: Contents,
    moments: Seq<course::Moment>,
) -> bool {
    &&& forall|i: int|
        0 <= i < moments.len() - 1 ==> truly_read(contents, #[trigger] moments[i], moments[i + 1])
    &&& forall|i: int|
        0 <= i < moments.len() ==> truly_known(
            contents,
            start.cache.tables,
            #[trigger] moments[i],
        )
}

/// Nothing is lost: when a run has ended without an error, what every file holds that the walks of
/// the source trees have handed out is in the archive, and recorded as such. All content that the
/// cache speaks of is in the archive as well.
pub proof fn law_nothing_is_lost(
    start: engine::EngineView,
    survey: course::Survey,
    contents: Contents,
    moments: Seq<course::Moment>,
    end: engine::EngineView,
    s: stats::Stats,
    j: int,
    file: scan::FileView,
)
    requires
        course::is_run(start, survey, moments),
        sources_stay(start, contents, moments),
        start.cache.exclusive,
        keeping::backed(start.cache.tables, moments[0].files),
        moments.last().step == run::RunStepView::Done(end, Ok(s)),
        s.errors == 0,
        0 <= j < moments.len(),
        moments[j].step is Walk,
        moments[j].item == Some(Ok::<scan::FileView, scan::ErrorView>(file)),
    ensures
        records(end.cache.tables, contents, file.path),
        keeping::is_kept(moments.last().files, contents[file.path]),
        keeping::backed(end.cache.tables, moments.last().files),
{
    let right = |p: Seq<u8>, d: Seq<u8>| d == contents[p];
    assert forall|i: int| 0 <= i < moments.len() - 1 implies is_read(
        right,
        #[trigger] moments[i],
        moments[i + 1],
    ) by {
        assert(truly_read(contents, moments[i], moments[i + 1]));
    }
    assert forall|i: int| 0 <= i < moments.len() implies is_known(
        right,
        start.cache.tables,
        #[trigger] moments[i],
    ) by {
        assert(truly_known(contents, start.cache.tables, moments[i]));
    }
    lemma_all_safe(start, survey, right, moments, moments.len() - 1);
    assert(moments[j].step is Walk);
    assert(is_recorded(moments.last().step, right, file.path));
}

/// Nothing is lost when the cache is lost: a run with a new cache leaves every file of the archive
/// where it is, as it is, and when it has ended without an error, what every source file holds that it
/// was given is in the archive.
pub proof fn law_a_lost_cache_loses_nothing(
    start: engine::EngineView,
    survey: course::Survey,
    contents: Contents,
    moments: Seq<course::Moment>,
    end: engine::EngineView,
    s: stats::Stats,
)
    requires
        course::is_run(start, survey, moments),
        start.cache.exclusive,
        start.cache.tables.sources.dom() =~= Set::empty(),
        start.cache.tables.archived.dom() =~= Set::empty(),
        forall|i: int|
            0 <= i < moments.len() - 1 ==> truly_read(
                contents,
                #[trigger] moments[i],
                moments[i + 1],
            ),
        moments.last().step == run::RunStepView::Done(end, Ok(s)),
        s.errors == 0,
    ensures
        forall|p: Seq<u8>| #[trigger]
            moments[0].files.contains_key(p) && !archive::is_copy_path(p)
                ==> moments.last().files.contains_key(p) && moments.last().files[p]
                == moments[0].files[p],
        forall|j: int|
            0 <= j < moments.len() && (#[trigger] moments[j]).step is Walk ==> (
            moments[j].item matches Some(Ok(f)) ==> keeping::is_kept(
                moments.last().files,
                contents[f.path],
            )),
{
    course::lemma_kept(start, survey, moments, moments.len() - 1);
    assert forall|j: int|
        0 <= j < moments.len() && (#[trigger] moments[j]).step is Walk implies (
    moments[j].item matches Some(Ok(f)) ==> keeping::is_kept(
        moments.last().files,
        contents[f.path],
    )) by {
        if let Some(Ok(f)) = moments[j].item {
            law_nothing_is_lost(start, survey, contents, moments, end, s, j, f);
        }
    }
}

} // verus!
