//! What holds of a run into an archive that was reorganised by hand: files are known by their content,
//! wherever they were moved and whatever they were renamed to.

use crate::archive;
use crate::cache;
use crate::course;
use crate::engine;
use crate::keeping;
use crate::path;
use crate::run;
use crate::scan;
use crate::sqlite;
use vstd::prelude::*;

verus! {

/// Is this hash in the index under another path?
pub open spec fn is_elsewhere(t: sqlite::Tables, k: Seq<char>, hash: Seq<u8>) -> bool {
    exists|j: Seq<char>| #[trigger]
        t.archived.contains_key(j) && j != k && t.archived[j].hash == hash
}

/// Can the row under this path be written anew, so that the index knows as much as before? It can
/// where there is none. It can not where a file was moved away from there and no other row has its
/// hash.
pub open spec fn is_spare(
    t: sqlite::Tables,
    root: Seq<u8>,
    files: keeping::Files,
    k: Seq<char>,
) -> bool {
    t.archived.contains_key(k) ==> forall|p: Seq<u8>| #[trigger]
        files.contains_key(p) && course::is_content(root, p) && files[p].digest
            == t.archived[k].hash ==> is_elsewhere(t, k, files[p].digest)
}

/// Nothing is stored where a file was moved away from that is known by that row only.
pub open spec fn only_spare_rows(root: Seq<u8>, moments: Seq<course::Moment>) -> bool {
    forall|i: int|
        0 <= i < moments.len() ==> ((#[trigger] moments[i]).step matches run::RunStepView::Stat(
            h,
            _,
            s,
        ) ==> is_spare(h.engine().cache.tables, root, moments[i].files, path::key(s.path())))
}

/// Does the index of this engine know all content of the archive?
spec fn knows_all(root: Seq<u8>, e: engine::EngineView, files: keeping::Files) -> bool {
    &&& e.cache.exclusive
    &&& e.archive.root == root
    &&& course::known(e.cache.tables, root, files)
}

/// What holds at every moment: the index knows all content. Only what was just copied is not in it yet.
spec fn step_knows_all(root: Seq<u8>, m: course::Moment) -> bool {
    match m.step {
        run::RunStepView::Sweep(r) => knows_all(root, r.engine, m.files),
        run::RunStepView::Remove(r, _) => knows_all(root, r.engine, m.files),
        run::RunStepView::List(r) => knows_all(root, r.engine, m.files)
            && r.engine.cache.tables.archived.dom() =~= Set::empty(),
        run::RunStepView::Index(..) => false,
        run::RunStepView::Walk(w) => knows_all(root, w.run.engine, m.files),
        run::RunStepView::Hash(h) => knows_all(root, h.engine(), m.files),
        run::RunStepView::Store(h, d, _) => knows_all(root, h.engine(), m.files) && !cache::holds(
            h.engine().cache.tables,
            d,
        ),
        run::RunStepView::Stat(h, d, s) => {
            let place = path::join(root, s.path());
            &&& m.files.contains_key(place)
            &&& m.files[place].digest == d
            &&& knows_all(
                root,
                h.engine(),
                match s {
                    archive::StoredView::Written(_) => m.files.remove(place),
                    archive::StoredView::AlreadyThere(_) => m.files,
                },
            )
        },
        run::RunStepView::Handled(h, _) => knows_all(root, h.engine(), m.files),
        run::RunStepView::Done(e, Ok(_)) => knows_all(root, e, m.files),
        run::RunStepView::Done(_, Err(_)) => true,
    }
}

proof fn lemma_next_source_knows_all(root: Seq<u8>, was: run::RunView, n: course::Moment)
    requires
        run::next_source(was, n.step),
        knows_all(root, was.engine, n.files),
    ensures
        step_knows_all(root, n),
{
}

/// With the row of a stored file, the index knows the archive with that file.
proof fn lemma_stored_is_known(
    t: sqlite::Tables,
    root: Seq<u8>,
    files: keeping::Files,
    then: keeping::Files,
    name: Seq<u8>,
    e: sqlite::EntryView,
)
    requires
        course::known(t, root, files),
        files.submap_of(then),
        e.path == path::key(name),
        is_spare(t, root, then, e.path),
        ({
            let place = path::join(root, name);
            &&& then.contains_key(place)
            &&& then[place].digest == e.row.hash
            &&& forall|p: Seq<u8>| #[trigger]
                then.contains_key(p) && p != place ==> files.contains_key(p)
        }),
    ensures
        course::known(cache::with_archived(t, e), root, then),
{
    let u = cache::with_archived(t, e);
    let place = path::join(root, name);
    assert forall|p: Seq<u8>| #[trigger]
        then.contains_key(p) && course::is_content(root, p) implies cache::holds(
        u,
        then[p].digest,
    ) by {
        if p == place {
            assert(u.archived.contains_key(e.path));
        } else {
            assert(files.contains_key(p));
            let k = choose|k: Seq<char>| #[trigger]
                t.archived.contains_key(k) && t.archived[k].hash == files[p].digest;
            if k == e.path {
                assert(is_elsewhere(t, k, then[p].digest));
                let j = choose|j: Seq<char>| #[trigger]
                    t.archived.contains_key(j) && j != k && t.archived[j].hash == then[p].digest;
                assert(u.archived.contains_key(j));
            } else {
                assert(u.archived.contains_key(k));
            }
        }
    }
}

proof fn lemma_next_knows_all(
    root: Seq<u8>,
    survey: course::Survey,
    m: course::Moment,
    n: course::Moment,
)
    requires
        course::leads_to(root, survey, m, n),
        step_knows_all(root, m),
        n.step matches run::RunStepView::Handled(_, Err(e)) ==> !engine::is_sqlite(e),
        m.step is Stat ==> n.step matches run::RunStepView::Handled(_, Ok(_)),
        m.step matches run::RunStepView::Stat(h, _, s) ==> is_spare(
            h.engine().cache.tables,
            root,
            m.files,
            path::key(s.path()),
        ),
    ensures
        step_knows_all(root, n),
{
    match m.step {
        run::RunStepView::Remove(r, paths) => {
            assert(r.with(r.engine.cache) == r);
            assert forall|p: Seq<u8>| #[trigger]
                n.files.contains_key(p) && course::is_content(root, p) implies cache::holds(
                r.engine.cache.tables,
                n.files[p].digest,
            ) by {
                assert(m.files.contains_key(p));
            }
            if run::next_source(r, n.step) {
                lemma_next_source_knows_all(root, r, n);
            }
        },
        run::RunStepView::List(r) => {
            let found = choose|found: Seq<course::Item>|
                course::truly_found(root, found, m.files) && #[trigger] run::after_list(
                    r,
                    found,
                    n.step,
                );
            course::lemma_nothing_to_index(root, r.engine.cache.tables, m.files, found);
            lemma_next_source_knows_all(root, r, n);
        },
        run::RunStepView::Walk(w) => {
            assert(run::after_walk(w, m.item, n.step));
            if m.item is None && !run::stops(w.run.engine, n.step) {
                let db = choose|db: sqlite::Database|
                    {
                        &&& sqlite::becomes(
                            w.run.engine.cache,
                            db,
                            w.run.engine.cache.committed(),
                        )
                        &&& #[trigger] run::next_source(w.run.with(db), n.step)
                    };
                lemma_next_source_knows_all(root, w.run.with(db), n);
            }
        },
        run::RunStepView::Hash(h) => {
            let d = choose|d: Result<Seq<u8>, std::io::Error>| #[trigger]
                run::after_hash(h, d, n.step);
            assert(run::after_hash(h, d, n.step));
            let t = h.engine().cache.tables;
            assert forall|e: sqlite::EntryView, hash: Seq<u8>| cache::holds(t, hash) implies
                #[trigger] cache::holds(cache::with_source(t, e), hash) by {
                let k = choose|k: Seq<char>| #[trigger]
                    t.archived.contains_key(k) && t.archived[k].hash == hash;
                assert(cache::with_source(t, e).archived.contains_key(k));
            }
        },
        run::RunStepView::Store(h, d, _) => {
            keeping::lemma_may_store(m.files, h, d, n.step, n.files);
        },
        run::RunStepView::Stat(h, d, s) => {
            let a = choose|a: Result<scan::Metadata, std::io::Error>| #[trigger]
                run::after_stat(h, d, s, a, n.step);
            assert(run::after_stat(h, d, s, a, n.step));
            let place = path::join(root, s.path());
            let files = match s {
                archive::StoredView::Written(_) => m.files.remove(place),
                archive::StoredView::AlreadyThere(_) => m.files,
            };
            let e = run::stored_entry(s, a->Ok_0, d);
            let t = h.engine().cache.tables;
            let u = cache::with_archived(t, e);
            lemma_stored_is_known(t, root, files, n.files, s.path(), e);
            let v = cache::with_source(u, run::source_entry(h.file, d));
            assert forall|p: Seq<u8>| #[trigger]
                n.files.contains_key(p) && course::is_content(root, p) implies cache::holds(
                v,
                n.files[p].digest,
            ) by {
                let k = choose|k: Seq<char>| #[trigger]
                    u.archived.contains_key(k) && u.archived[k].hash == n.files[p].digest;
                assert(v.archived.contains_key(k));
            }
        },
        _ => {},
    }
}

proof fn lemma_course_knows_all(
    start: engine::EngineView,
    survey: course::Survey,
    moments: Seq<course::Moment>,
    i: int,
)
    requires
        course::is_run(start, survey, moments),
        course::nothing_fails(moments),
        only_spare_rows(start.archive.root, moments),
        start.cache.exclusive,
        course::known(start.cache.tables, start.archive.root, moments[0].files),
        moments[0].files.contains_key(archive::config_place(start.archive.root)),
        0 <= i < moments.len(),
    ensures
        step_knows_all(start.archive.root, moments[i]),
        course::no_duplicates_added(start.archive.root, moments[0].files, moments[i].files),
    decreases i,
{
    if i > 0 {
        let root = start.archive.root;
        lemma_course_knows_all(start, survey, moments, i - 1);
        assert(course::leads_to(root, survey, moments[i - 1], moments[i - 1 + 1]));
        let (m, n) = (moments[i - 1], moments[i]);
        assert(moments[i - 1].step is Stat ==> moments[i - 1
            + 1].step matches run::RunStepView::Handled(_, Ok(_)));
        lemma_next_knows_all(root, survey, m, n);
        course::lemma_next_adds_no_duplicates(root, survey, moments[0].files, m, n);
    }
}

/// Reorganising an archive by hand is safe: as long as the index knows the content of every file, under
/// whatever path it had once, a run copies nothing that the archive holds. No file that it adds holds
/// what another file holds, be that old or new.
pub proof fn law_a_reorganised_archive_gets_no_duplicates(
    start: engine::EngineView,
    survey: course::Survey,
    moments: Seq<course::Moment>,
    i: int,
    p: Seq<u8>,
    q: Seq<u8>,
)
    requires
        course::is_run(start, survey, moments),
        course::nothing_fails(moments),
        only_spare_rows(start.archive.root, moments),
        start.cache.exclusive,
        course::known(start.cache.tables, start.archive.root, moments[0].files),
        moments[0].files.contains_key(archive::config_place(start.archive.root)),
        0 <= i < moments.len(),
        moments[i].files.contains_key(p),
        !moments[0].files.contains_key(p),
        moments[i].files.contains_key(q),
        course::is_content(start.archive.root, q),
        p != q,
    ensures
        moments[i].files[p].digest != moments[i].files[q].digest,
{
    lemma_course_knows_all(start, survey, moments, i);
}

} // verus!
