//! The course of a whole run: what it counts, what it keeps, and what it never copies twice.

use crate::archive;
use crate::cache;
use crate::engine;
use crate::keeping;
use crate::path;
use crate::reindex;
use crate::run;
use crate::scan;
use crate::sqlite;
use crate::stats;
use crate::stats::{Outcome, Stats};
use vstd::prelude::*;

verus! {

/// What a walk hands out.
pub type Item = Result<scan::FileView, scan::ErrorView>;

/// A moment of a run.
pub struct Moment {
    /// What there is to do next.
    pub step: run::RunStepView,
    /// The files that are in the archive.
    pub files: keeping::Files,
    /// What the walk of a source tree hands out next, where one is walked; nothing when it is over.
    pub item: Option<Item>,
}

/// Of these files, those that could be removed were.
pub open spec fn removed(files: keeping::Files, paths: Seq<Seq<u8>>, then: keeping::Files) -> bool {
    &&& then.submap_of(files)
    &&& forall|p: Seq<u8>| #[trigger]
        files.contains_key(p) && !paths.contains(p) ==> then.contains_key(p)
}

/// What a run that rebuilds the index sees of the archive: what a walk of it finds, and what the file
/// system says of its files.
pub struct Survey {
    pub found: Seq<Item>,
    pub disk: reindex::Disk,
}

/// Is this a path with a name beneath the root, spelled as its way from there gives it?
pub open spec fn lies_beneath(root: Seq<u8>, p: Seq<u8>) -> bool {
    &&& path::file_name(p) is Some
    &&& path::strip_prefix(p, root) matches Some(relative) && path::join(root, relative) == p
}

/// Every file that the walk of the archive has found is there, beneath its root.
pub open spec fn truly_found(root: Seq<u8>, found: Seq<Item>, files: keeping::Files) -> bool {
    forall|i: int|
        0 <= i < found.len() ==> ((#[trigger] found[i]) matches Ok(f) ==> files.contains_key(f.path)
            && lies_beneath(root, f.path))
}

/// What is seen of the archive is what there is.
pub open spec fn surveyed(root: Seq<u8>, survey: Survey, files: keeping::Files) -> bool {
    keeping::contents_of(survey.disk) == files && truly_found(root, survey.found, files)
}

/// One moment of a run leads to the next, where nobody else touches the archive. (A file is stored in
/// one go.)
pub open spec fn leads_to(root: Seq<u8>, survey: Survey, m: Moment, n: Moment) -> bool {
    match m.step {
        run::RunStepView::Sweep(r) => n.files == m.files && exists|found: Seq<Item>|
            n.step == run::RunStepView::Remove(r, #[trigger] archive::strays(found)),
        run::RunStepView::Remove(r, paths) => run::after_sweep(r, n.step) && removed(
            m.files,
            paths,
            n.files,
        ),
        run::RunStepView::List(r) => n.files == m.files && exists|found: Seq<Item>|
            truly_found(root, found, m.files) && #[trigger] run::after_list(r, found, n.step),
        run::RunStepView::Index(stats, next, v) => {
            &&& n.files == m.files
            &&& v is Done || surveyed(root, survey, m.files)
            &&& index_leads_to(survey, stats, next, v, n.step)
        },
        run::RunStepView::Walk(w) => {
            &&& n.files == m.files
            &&& m.item matches Some(Err(_)) ==> w.run.stats.errors < u64::MAX
            &&& run::after_walk(w, m.item, n.step)
        },
        run::RunStepView::Handled(h, r) => {
            &&& n.files == m.files
            &&& stats::room_for(h.walking.run.stats, run::count_of(r), h.file.size)
            &&& n.step == run::RunStepView::Walk(run::goes_on(h, r))
        },
        run::RunStepView::Done(..) => false,
        _ => keeping::truly_leads_to(m.step, m.files, n.step, n.files),
    }
}

/// The index is rebuilt step by step, and then the run goes on.
pub open spec fn index_leads_to(
    survey: Survey,
    stats: Stats,
    next: int,
    v: reindex::ReindexView,
    step: run::RunStepView,
) -> bool {
    match v {
        reindex::ReindexView::Done(e, result, _) => run::after_index(stats, next, e, result, step),
        _ => step matches run::RunStepView::Index(s, k, w) && s == stats && k == next
            && reindex::truly_leads_to(survey.found, survey.disk, v, w),
    }
}

/// A run up to some moment: it may be over then, or it may be interrupted.
pub open spec fn is_run(start: engine::EngineView, survey: Survey, course: Seq<Moment>) -> bool {
    &&& course.len() > 0
    &&& course[0].step == run::RunStepView::Sweep(
        run::RunView { engine: start, stats: stats::nothing_done(), next: 0 },
    )
    &&& forall|i: int|
        0 <= i < course.len() - 1 ==> leads_to(
            start.archive.root,
            survey,
            #[trigger] course[i],
            course[i + 1],
        )
}

// ---------------------------------------------------------------------------------------------
// What is counted.
// ---------------------------------------------------------------------------------------------

/// How many files and errors the walks of the source trees have handed out in the first `n` moments.
pub open spec fn handed_out(course: Seq<Moment>, n: int) -> nat
    decreases n,
{
    if n <= 0 {
        0
    } else {
        handed_out(course, n - 1) + hands_out(course[n - 1])
    }
}

/// How many files and errors are handed out at this moment.
pub open spec fn hands_out(m: Moment) -> nat {
    if m.step is Walk && m.item is Some {
        1
    } else {
        0
    }
}

/// The number of files and errors that were counted.
pub open spec fn tally(s: Stats) -> nat {
    stats::seen(s) + s.errors as nat
}

/// All that was handed out is counted, but for the file that is being handled.
spec fn accounted(step: run::RunStepView, n: nat) -> bool {
    match step {
        run::RunStepView::Sweep(r) => n == tally(r.stats),
        run::RunStepView::Remove(r, _) => n == tally(r.stats),
        run::RunStepView::List(r) => n == tally(r.stats),
        run::RunStepView::Index(s, _, _) => n == tally(s),
        run::RunStepView::Walk(w) => n == tally(w.run.stats),
        run::RunStepView::Hash(h) => n == tally(h.walking.run.stats) + 1,
        run::RunStepView::Store(h, _, _) => n == tally(h.walking.run.stats) + 1,
        run::RunStepView::Stat(h, _, _) => n == tally(h.walking.run.stats) + 1,
        run::RunStepView::Handled(h, _) => n == tally(h.walking.run.stats) + 1,
        run::RunStepView::Done(_, Ok(s)) => n == tally(s),
        run::RunStepView::Done(_, Err(_)) => true,
    }
}

proof fn lemma_accounted_next(root: Seq<u8>, survey: Survey, m: Moment, n: Moment, before: nat)
    requires
        leads_to(root, survey, m, n),
        accounted(m.step, before),
    ensures
        accounted(n.step, before + hands_out(m)),
{
    match m.step {
        run::RunStepView::List(r) => {
            let found = choose|found: Seq<Item>|
                truly_found(root, found, m.files) && #[trigger] run::after_list(r, found, n.step);
            assert(run::after_list(r, found, n.step));
        },
        run::RunStepView::Walk(w) => {
            assert(run::after_walk(w, m.item, n.step));
            if m.item matches Some(Err(_)) {
                stats::law_every_file_counts_once(w.run.stats, None, 0);
            }
        },
        run::RunStepView::Handled(h, r) => {
            stats::law_every_file_counts_once(
                h.walking.run.stats,
                run::count_of(r),
                h.file.size,
            );
        },
        run::RunStepView::Hash(h) => {
            let d = choose|d: Result<Seq<u8>, std::io::Error>| #[trigger]
                run::after_hash(h, d, n.step);
            assert(run::after_hash(h, d, n.step));
        },
        run::RunStepView::Stat(h, d, s) => {
            let a = choose|a: Result<scan::Metadata, std::io::Error>| #[trigger]
                run::after_stat(h, d, s, a, n.step);
            assert(run::after_stat(h, d, s, a, n.step));
        },
        _ => {},
    }
}

proof fn lemma_accounted(
    start: engine::EngineView,
    survey: Survey,
    course: Seq<Moment>,
    i: int,
)
    requires
        is_run(start, survey, course),
        0 <= i < course.len(),
    ensures
        accounted(course[i].step, handed_out(course, i)),
    decreases i,
{
    if i > 0 {
        lemma_accounted(start, survey, course, i - 1);
        assert(leads_to(start.archive.root, survey, course[i - 1], course[i - 1 + 1]));
        lemma_accounted_next(
            start.archive.root,
            survey,
            course[i - 1],
            course[i],
            handed_out(course, i - 1),
        );
    }
}

/// How many files were handled with this outcome in the first `n` moments.
pub open spec fn handled_as(course: Seq<Moment>, n: int, outcome: Outcome) -> nat
    decreases n,
{
    if n <= 0 {
        0
    } else {
        handled_as(course, n - 1, outcome) + match course[n - 1].step {
            run::RunStepView::Handled(_, Ok(o)) if o == outcome => 1nat,
            _ => 0,
        }
    }
}

/// How many bytes the files hold that were copied in the first `n` moments.
pub open spec fn bytes_copied(course: Seq<Moment>, n: int) -> nat
    decreases n,
{
    if n <= 0 {
        0
    } else {
        bytes_copied(course, n - 1) + match course[n - 1].step {
            run::RunStepView::Handled(h, Ok(Outcome::Copied)) => h.file.size as nat,
            _ => 0,
        }
    }
}

/// How many files could not be handled, or not even be looked at, in the first `n` moments.
pub open spec fn failed(course: Seq<Moment>, n: int) -> nat
    decreases n,
{
    if n <= 0 {
        0
    } else {
        failed(course, n - 1) + if course[n - 1].step matches run::RunStepView::Handled(_, Err(_))
            || course[n - 1].step is Walk && course[n - 1].item matches Some(Err(_)) {
            1nat
        } else {
            0
        }
    }
}

/// The numbers so far.
spec fn stats_of(step: run::RunStepView) -> Stats {
    match step {
        run::RunStepView::Sweep(r) => r.stats,
        run::RunStepView::Remove(r, _) => r.stats,
        run::RunStepView::List(r) => r.stats,
        run::RunStepView::Index(s, _, _) => s,
        run::RunStepView::Walk(w) => w.run.stats,
        run::RunStepView::Hash(h) => h.walking.run.stats,
        run::RunStepView::Store(h, _, _) => h.walking.run.stats,
        run::RunStepView::Stat(h, _, _) => h.walking.run.stats,
        run::RunStepView::Handled(h, _) => h.walking.run.stats,
        run::RunStepView::Done(_, Ok(s)) => s,
        run::RunStepView::Done(_, Err(_)) => arbitrary(),
    }
}

/// Only what was handled, and what could not be looked at, is counted.
proof fn lemma_next_counts(root: Seq<u8>, survey: Survey, m: Moment, n: Moment)
    requires
        leads_to(root, survey, m, n),
        !(n.step matches run::RunStepView::Done(_, Err(_))),
    ensures
        stats_of(n.step) == match m.step {
            run::RunStepView::Handled(h, r) => stats::counted(
                stats_of(m.step),
                run::count_of(r),
                h.file.size,
            ),
            run::RunStepView::Walk(_) => match m.item {
                Some(Err(_)) => stats::counted(stats_of(m.step), None, 0),
                _ => stats_of(m.step),
            },
            _ => stats_of(m.step),
        },
{
    match m.step {
        run::RunStepView::List(r) => {
            let found = choose|found: Seq<Item>|
                truly_found(root, found, m.files) && #[trigger] run::after_list(r, found, n.step);
            assert(run::after_list(r, found, n.step));
        },
        run::RunStepView::Walk(w) => {
            assert(run::after_walk(w, m.item, n.step));
        },
        run::RunStepView::Hash(h) => {
            let d = choose|d: Result<Seq<u8>, std::io::Error>| #[trigger]
                run::after_hash(h, d, n.step);
            assert(run::after_hash(h, d, n.step));
        },
        run::RunStepView::Stat(h, d, s) => {
            let a = choose|a: Result<scan::Metadata, std::io::Error>| #[trigger]
                run::after_stat(h, d, s, a, n.step);
            assert(run::after_stat(h, d, s, a, n.step));
        },
        _ => {},
    }
}

/// Are these the numbers of what the first `n` moments have done?
pub open spec fn adds_up(course: Seq<Moment>, n: int, s: Stats) -> bool {
    &&& s.skipped_unchanged == handled_as(course, n, Outcome::Unchanged)
    &&& s.duplicates == handled_as(course, n, Outcome::Duplicate)
    &&& s.copied == handled_as(course, n, Outcome::Copied)
    &&& s.bytes_copied == bytes_copied(course, n)
    &&& s.errors == failed(course, n)
}

proof fn lemma_adds_up(start: engine::EngineView, survey: Survey, course: Seq<Moment>, i: int)
    requires
        is_run(start, survey, course),
        0 <= i < course.len(),
        !(course[i].step matches run::RunStepView::Done(_, Err(_))),
    ensures
        adds_up(course, i, stats_of(course[i].step)),
    decreases i,
{
    if i > 0 {
        let root = start.archive.root;
        assert(leads_to(root, survey, course[i - 1], course[i - 1 + 1]));
        lemma_adds_up(start, survey, course, i - 1);
        lemma_next_counts(root, survey, course[i - 1], course[i]);
    }
}

/// The numbers of a run say what it did: how many files were skipped, were duplicates or were copied,
/// how many bytes those that were copied hold, and how many could not be handled.
pub proof fn law_the_numbers_add_up(
    start: engine::EngineView,
    survey: Survey,
    course: Seq<Moment>,
)
    requires
        is_run(start, survey, course),
    ensures
        course.last().step matches run::RunStepView::Done(_, Ok(s)) ==> adds_up(
            course,
            course.len() - 1,
            s,
        ),
{
    if course.last().step matches run::RunStepView::Done(_, Ok(_)) {
        lemma_adds_up(start, survey, course, course.len() - 1);
    }
}

/// When a run is over, each file and each error that the walks of the source trees have handed out was
/// counted, and was counted once.
pub proof fn law_every_item_is_counted_once(
    start: engine::EngineView,
    survey: Survey,
    course: Seq<Moment>,
)
    requires
        is_run(start, survey, course),
    ensures
        course.last().step matches run::RunStepView::Done(_, Ok(s)) ==> stats::seen(s) + s.errors
            == handed_out(course, course.len() - 1),
{
    lemma_accounted(start, survey, course, course.len() - 1);
}

// ---------------------------------------------------------------------------------------------
// What is kept.
// ---------------------------------------------------------------------------------------------

/// Nothing is to be removed but copies that are not complete.
pub open spec fn only_copies(step: run::RunStepView) -> bool {
    step matches run::RunStepView::Remove(_, paths) ==> forall|i: int|
        0 <= i < paths.len() ==> archive::is_copy_path(#[trigger] paths[i])
}

/// The next moment keeps all files but copies that are not complete.
proof fn lemma_next_keeps(root: Seq<u8>, survey: Survey, m: Moment, n: Moment)
    requires
        leads_to(root, survey, m, n),
        only_copies(m.step),
    ensures
        only_copies(n.step),
        forall|p: Seq<u8>| #[trigger]
            m.files.contains_key(p) && !archive::is_copy_path(p) ==> n.files.contains_key(p)
                && n.files[p] == m.files[p],
{
    match m.step {
        run::RunStepView::Sweep(r) => {
            let found = choose|found: Seq<Item>|
                n.step == run::RunStepView::Remove(r, #[trigger] archive::strays(found));
            archive::lemma_strays(found);
        },
        run::RunStepView::Remove(r, paths) => {
            assert forall|p: Seq<u8>| #[trigger]
                m.files.contains_key(p) && !archive::is_copy_path(p) implies n.files.contains_key(p)
                && n.files[p] == m.files[p] by {
                if paths.contains(p) {
                    let i = choose|i: int| 0 <= i < paths.len() && paths[i] == p;
                    assert(archive::is_copy_path(paths[i]));
                }
            }
        },
        run::RunStepView::Store(h, d, _) => {
            keeping::lemma_may_store(m.files, h, d, n.step, n.files);
        },
        _ => {},
    }
}

/// A run removes nothing and changes nothing that is in the archive, but for copies that an interrupted
/// run left behind. That holds at every moment of it: where it succeeds, where it fails, and where it
/// is interrupted.
pub proof fn law_a_run_keeps_what_there_is(
    start: engine::EngineView,
    survey: Survey,
    course: Seq<Moment>,
    i: int,
    p: Seq<u8>,
)
    requires
        is_run(start, survey, course),
        0 <= i < course.len(),
        course[0].files.contains_key(p),
        !archive::is_copy_path(p),
    ensures
        course[i].files.contains_key(p),
        course[i].files[p] == course[0].files[p],
{
    lemma_kept(start, survey, course, i);
}

/// At every moment, all files that were there at first are there, but for copies that were not complete.
pub proof fn lemma_kept(
    start: engine::EngineView,
    survey: Survey,
    course: Seq<Moment>,
    i: int,
)
    requires
        is_run(start, survey, course),
        0 <= i < course.len(),
    ensures
        only_copies(course[i].step),
        forall|p: Seq<u8>| #[trigger]
            course[0].files.contains_key(p) && !archive::is_copy_path(p)
                ==> course[i].files.contains_key(p) && course[i].files[p] == course[0].files[p],
    decreases i,
{
    if i > 0 {
        lemma_kept(start, survey, course, i - 1);
        assert(leads_to(start.archive.root, survey, course[i - 1], course[i - 1 + 1]));
        lemma_next_keeps(start.archive.root, survey, course[i - 1], course[i]);
    }
}

// ---------------------------------------------------------------------------------------------
// What is never copied twice.
// ---------------------------------------------------------------------------------------------

/// Is this a file that counts as content: not the archive's config, and no copy that is not complete?
pub open spec fn is_content(root: Seq<u8>, p: Seq<u8>) -> bool {
    !archive::is_copy_path(p) && p != archive::config_place(root)
}

/// Does the index have a row for the file at this place, with this hash?
pub open spec fn has_row(t: sqlite::Tables, root: Seq<u8>, p: Seq<u8>, digest: Seq<u8>) -> bool {
    exists|name: Seq<u8>|
        p == #[trigger] path::join(root, name) && t.archived.contains_key(path::key(name))
            && t.archived[path::key(name)].hash == digest
}

/// Does this row of the index speak of a file that is there, with the hash that it has?
pub open spec fn is_true_row(
    t: sqlite::Tables,
    root: Seq<u8>,
    files: keeping::Files,
    k: Seq<char>,
) -> bool {
    exists|name: Seq<u8>|
        {
            let p = #[trigger] path::join(root, name);
            &&& k == path::key(name)
            &&& !archive::is_copy_path(p)
            &&& files.contains_key(p)
            &&& files[p].digest == t.archived[k].hash
        }
}

/// The index describes the archive: every file has a row with its hash, and every row has a file.
pub open spec fn indexed(t: sqlite::Tables, root: Seq<u8>, files: keeping::Files) -> bool {
    &&& forall|p: Seq<u8>| #[trigger]
        files.contains_key(p) && is_content(root, p) ==> has_row(t, root, p, files[p].digest)
    &&& forall|k: Seq<char>| #[trigger]
        t.archived.contains_key(k) ==> is_true_row(t, root, files, k)
}

/// The index knows the content of every file of the archive, under whatever name.
pub open spec fn known(t: sqlite::Tables, root: Seq<u8>, files: keeping::Files) -> bool {
    forall|p: Seq<u8>| #[trigger]
        files.contains_key(p) && is_content(root, p) ==> cache::holds(t, files[p].digest)
}

/// No file that was not there at first holds what another file holds.
pub open spec fn no_duplicates_added(
    root: Seq<u8>,
    first: keeping::Files,
    files: keeping::Files,
) -> bool {
    &&& forall|p: Seq<u8>| #[trigger]
        files.contains_key(p) && !first.contains_key(p) ==> !archive::is_copy_path(p)
    &&& forall|p: Seq<u8>, q: Seq<u8>|
        #![trigger files.contains_key(p), files.contains_key(q)]
        files.contains_key(p) && !first.contains_key(p) && files.contains_key(q) && is_content(
            root,
            q,
        ) && p != q ==> files[p].digest != files[q].digest
}

/// Nothing fails that is about the cache, and every file that was stored is found in the archive.
pub open spec fn nothing_fails(course: Seq<Moment>) -> bool {
    &&& forall|i: int|
        0 <= i < course.len() ==> ((#[trigger] course[i]).step matches run::RunStepView::Handled(
            _,
            Err(e),
        ) ==> !engine::is_sqlite(e))
    &&& forall|i: int|
        0 <= i < course.len() - 1 && (#[trigger] course[i]).step is Stat ==> course[i
            + 1].step matches run::RunStepView::Handled(_, Ok(_))
}

/// The row of a stored file makes the index describe the archive with that file.
proof fn lemma_stored_is_indexed(
    t: sqlite::Tables,
    root: Seq<u8>,
    files: keeping::Files,
    then: keeping::Files,
    name: Seq<u8>,
    e: sqlite::EntryView,
)
    requires
        indexed(t, root, files),
        files.submap_of(then),
        e.path == path::key(name),
        ({
            let place = path::join(root, name);
            &&& !archive::is_copy_path(place)
            &&& then.contains_key(place)
            &&& then[place].digest == e.row.hash
            &&& forall|p: Seq<u8>| #[trigger]
                then.contains_key(p) && p != place ==> files.contains_key(p)
        }),
    ensures
        indexed(cache::with_archived(t, e), root, then),
{
    let u = cache::with_archived(t, e);
    let place = path::join(root, name);
    assert forall|p: Seq<u8>| #[trigger]
        then.contains_key(p) && is_content(root, p) implies has_row(
        u,
        root,
        p,
        then[p].digest,
    ) by {
        if p == place {
            assert(p == path::join(root, name) && u.archived.contains_key(path::key(name)));
        } else {
            assert(files.contains_key(p));
            let other = choose|other: Seq<u8>|
                p == #[trigger] path::join(root, other) && t.archived.contains_key(path::key(other))
                    && t.archived[path::key(other)].hash == files[p].digest;
            if path::key(other) == path::key(name) {
                path::law_keys_tell_paths_apart(other, name);
            }
            assert(p == path::join(root, other) && u.archived.contains_key(path::key(other)));
        }
    }
    assert forall|k: Seq<char>| #[trigger] u.archived.contains_key(k) implies is_true_row(
        u,
        root,
        then,
        k,
    ) by {
        if k == e.path {
            assert(then.contains_key(path::join(root, name)));
        } else {
            assert(t.archived.contains_key(k));
            let other = choose|other: Seq<u8>|
                {
                    let p = #[trigger] path::join(root, other);
                    &&& k == path::key(other)
                    &&& !archive::is_copy_path(p)
                    &&& files.contains_key(p)
                    &&& files[p].digest == t.archived[k].hash
                };
            assert(then.contains_key(path::join(root, other)));
        }
    }
}

/// What is recorded of a source file does not concern the index.
proof fn lemma_source_is_no_row(
    t: sqlite::Tables,
    root: Seq<u8>,
    files: keeping::Files,
    e: sqlite::EntryView,
)
    requires
        indexed(t, root, files),
    ensures
        indexed(cache::with_source(t, e), root, files),
{
    lemma_same_rows(t, cache::with_source(t, e), root, files);
}

proof fn lemma_same_rows(
    t: sqlite::Tables,
    u: sqlite::Tables,
    root: Seq<u8>,
    files: keeping::Files,
)
    requires
        indexed(t, root, files),
        u.archived == t.archived,
    ensures
        indexed(u, root, files),
{
    assert forall|p: Seq<u8>| #[trigger]
        files.contains_key(p) && is_content(root, p) implies has_row(
        u,
        root,
        p,
        files[p].digest,
    ) by {
        assert(has_row(t, root, p, files[p].digest));
    }
    assert forall|k: Seq<char>| #[trigger] u.archived.contains_key(k) implies is_true_row(
        u,
        root,
        files,
        k,
    ) by {
        assert(is_true_row(t, root, files, k));
    }
}

/// An index that describes the archive knows all its content.
proof fn lemma_indexed_is_known(t: sqlite::Tables, root: Seq<u8>, files: keeping::Files)
    requires
        indexed(t, root, files),
    ensures
        known(t, root, files),
{
    assert forall|p: Seq<u8>| #[trigger]
        files.contains_key(p) && is_content(root, p) implies cache::holds(
        t,
        files[p].digest,
    ) by {
        let name = choose|name: Seq<u8>|
            p == #[trigger] path::join(root, name) && t.archived.contains_key(path::key(name))
                && t.archived[path::key(name)].hash == files[p].digest;
        assert(t.archived.contains_key(path::key(name)));
    }
}

/// Does the index of this engine describe the archive?
spec fn in_order(root: Seq<u8>, e: engine::EngineView, files: keeping::Files) -> bool {
    &&& e.cache.exclusive
    &&& e.archive.root == root
    &&& indexed(e.cache.tables, root, files)
}

/// What holds at every moment: the index describes the archive. Only a file that was just copied is not
/// in it yet.
spec fn step_in_order(root: Seq<u8>, m: Moment) -> bool {
    match m.step {
        run::RunStepView::Sweep(r) => in_order(root, r.engine, m.files),
        run::RunStepView::Remove(r, _) => in_order(root, r.engine, m.files),
        run::RunStepView::List(r) => in_order(root, r.engine, m.files)
            && r.engine.cache.tables.archived.dom() =~= Set::empty(),
        run::RunStepView::Index(..) => false,
        run::RunStepView::Walk(w) => in_order(root, w.run.engine, m.files),
        run::RunStepView::Hash(h) => in_order(root, h.engine(), m.files),
        run::RunStepView::Store(h, d, _) => in_order(root, h.engine(), m.files) && !cache::holds(
            h.engine().cache.tables,
            d,
        ),
        run::RunStepView::Stat(h, d, s) => {
            let place = path::join(root, s.path());
            &&& !archive::is_copy_path(place)
            &&& m.files.contains_key(place)
            &&& m.files[place].digest == d
            &&& in_order(
                root,
                h.engine(),
                match s {
                    archive::StoredView::Written(_) => m.files.remove(place),
                    archive::StoredView::AlreadyThere(_) => m.files,
                },
            )
        },
        run::RunStepView::Handled(h, _) => in_order(root, h.engine(), m.files),
        run::RunStepView::Done(e, Ok(_)) => in_order(root, e, m.files),
        run::RunStepView::Done(_, Err(_)) => true,
    }
}

proof fn lemma_next_source_in_order(
    root: Seq<u8>,
    was: run::RunView,
    step: run::RunStepView,
    files: keeping::Files,
    item: Option<Item>,
)
    requires
        run::next_source(was, step),
        in_order(root, was.engine, files),
    ensures
        step_in_order(root, Moment { step, files, item }),
        !(step is Remove),
{
    if let run::RunStepView::Walk(w) = step {
        lemma_same_rows(was.engine.cache.tables, w.run.engine.cache.tables, root, files);
    }
}

/// When copies that are not complete were removed, the index still describes the archive.
proof fn lemma_removed_in_order(
    root: Seq<u8>,
    t: sqlite::Tables,
    files: keeping::Files,
    paths: Seq<Seq<u8>>,
    then: keeping::Files,
)
    requires
        indexed(t, root, files),
        removed(files, paths, then),
        forall|i: int| 0 <= i < paths.len() ==> archive::is_copy_path(#[trigger] paths[i]),
    ensures
        indexed(t, root, then),
{
    assert forall|p: Seq<u8>| #[trigger]
        then.contains_key(p) && is_content(root, p) implies has_row(
        t,
        root,
        p,
        then[p].digest,
    ) by {
        assert(files.contains_key(p));
    }
    assert forall|k: Seq<char>| #[trigger] t.archived.contains_key(k) implies is_true_row(
        t,
        root,
        then,
        k,
    ) by {
        let name = choose|name: Seq<u8>|
            {
                let p = #[trigger] path::join(root, name);
                &&& k == path::key(name)
                &&& !archive::is_copy_path(p)
                &&& files.contains_key(p)
                &&& files[p].digest == t.archived[k].hash
            };
        let p = path::join(root, name);
        assert(files.contains_key(p));
        if paths.contains(p) {
            let i = choose|i: int| 0 <= i < paths.len() && paths[i] == p;
            assert(archive::is_copy_path(paths[i]));
        }
        assert(then.contains_key(p));
    }
}

/// An archive of which an empty index knows all holds no file.
pub proof fn lemma_nothing_to_index(
    root: Seq<u8>,
    t: sqlite::Tables,
    files: keeping::Files,
    found: Seq<Item>,
)
    requires
        known(t, root, files),
        t.archived.dom() =~= Set::empty(),
        truly_found(root, found, files),
    ensures
        !archive::has_file(archive::listed_all(root, found)),
{
    assert forall|i: int| 0 <= i < found.len() implies !(archive::listed(
        root,
        #[trigger] found[i],
    ) matches Some(Ok(_))) by {
        if let Ok(f) = found[i] {
            assert(files.contains_key(f.path));
            if is_content(root, f.path) {
                let k = choose|k: Seq<char>| #[trigger]
                    t.archived.contains_key(k) && t.archived[k].hash == files[f.path].digest;
                assert(t.archived.dom().contains(k));
            } else if !archive::is_copy_path(f.path) {
                archive::law_the_config_is_not_listed(root, f);
            }
        }
    }
    archive::lemma_nothing_listed(root, found);
}

proof fn lemma_next_in_order(root: Seq<u8>, survey: Survey, m: Moment, n: Moment)
    requires
        leads_to(root, survey, m, n),
        only_copies(m.step),
        step_in_order(root, m),
        n.step matches run::RunStepView::Handled(_, Err(e)) ==> !engine::is_sqlite(e),
        m.step is Stat ==> n.step matches run::RunStepView::Handled(_, Ok(_)),
    ensures
        step_in_order(root, n),
{
    match m.step {
        run::RunStepView::Sweep(r) => {},
        run::RunStepView::Remove(r, paths) => {
            lemma_removed_in_order(root, r.engine.cache.tables, m.files, paths, n.files);
            if run::next_source(r, n.step) {
                lemma_next_source_in_order(root, r, n.step, n.files, n.item);
            }
        },
        run::RunStepView::List(r) => {
            let found = choose|found: Seq<Item>|
                truly_found(root, found, m.files) && #[trigger] run::after_list(r, found, n.step);
            lemma_indexed_is_known(r.engine.cache.tables, root, m.files);
            lemma_nothing_to_index(root, r.engine.cache.tables, m.files, found);
            lemma_next_source_in_order(root, r, n.step, n.files, n.item);
        },
        run::RunStepView::Walk(w) => {
            assert(run::after_walk(w, m.item, n.step));
            if m.item is None && !run::stops(w.run.engine, n.step) {
                let db = choose|db: sqlite::Database|
                    {
                        &&& sqlite::becomes(
                            w.run.engine.cache,
                            db,
                            w.run.engine.cache.committed(),
                        )
                        &&& #[trigger] run::next_source(w.run.with(db), n.step)
                    };
                lemma_same_rows(w.run.engine.cache.tables, db.tables, root, m.files);
                lemma_next_source_in_order(root, w.run.with(db), n.step, n.files, n.item);
            }
        },
        run::RunStepView::Hash(h) => {
            let d = choose|d: Result<Seq<u8>, std::io::Error>| #[trigger]
                run::after_hash(h, d, n.step);
            assert(run::after_hash(h, d, n.step));
            if let Ok(digest) = d {
                lemma_source_is_no_row(
                    h.engine().cache.tables,
                    root,
                    m.files,
                    run::source_entry(h.file, digest),
                );
            }
        },
        run::RunStepView::Store(h, d, _) => {
            keeping::lemma_may_store(m.files, h, d, n.step, n.files);
        },
        run::RunStepView::Stat(h, d, s) => {
            let a = choose|a: Result<scan::Metadata, std::io::Error>| #[trigger]
                run::after_stat(h, d, s, a, n.step);
            assert(run::after_stat(h, d, s, a, n.step));
            let meta = a->Ok_0;
            let place = path::join(root, s.path());
            let files = match s {
                archive::StoredView::Written(_) => m.files.remove(place),
                archive::StoredView::AlreadyThere(_) => m.files,
            };
            let e = run::stored_entry(s, meta, d);
            let t = h.engine().cache.tables;
            lemma_stored_is_indexed(t, root, files, n.files, s.path(), e);
            lemma_source_is_no_row(
                cache::with_archived(t, e),
                root,
                n.files,
                run::source_entry(h.file, d),
            );
        },
        _ => {},
    }
}

/// Where only content is stored that the index does not know, and it knows all that there is, no
/// duplicate is added.
pub proof fn lemma_next_adds_no_duplicates(
    root: Seq<u8>,
    survey: Survey,
    first: keeping::Files,
    m: Moment,
    n: Moment,
)
    requires
        leads_to(root, survey, m, n),
        m.step matches run::RunStepView::Store(h, d, _) ==> h.engine().archive.root == root
            && known(h.engine().cache.tables, root, m.files) && !cache::holds(
            h.engine().cache.tables,
            d,
        ),
        first.contains_key(archive::config_place(root)),
        no_duplicates_added(root, first, m.files),
    ensures
        no_duplicates_added(root, first, n.files),
{
    if let run::RunStepView::Remove(_, paths) = m.step {
        assert forall|p: Seq<u8>| #[trigger] n.files.contains_key(p) implies m.files.contains_key(
            p,
        ) && m.files[p] == n.files[p] by {
            assert(removed(m.files, paths, n.files));
        }
        assert forall|p: Seq<u8>| #[trigger]
            n.files.contains_key(p) && !first.contains_key(p) implies !archive::is_copy_path(p) by {
            assert(m.files.contains_key(p));
        }
        assert forall|p: Seq<u8>, q: Seq<u8>|
            #![trigger n.files.contains_key(p), n.files.contains_key(q)]
            n.files.contains_key(p) && !first.contains_key(p) && n.files.contains_key(q)
                && is_content(root, q) && p != q implies n.files[p].digest
            != n.files[q].digest by {
            assert(m.files.contains_key(p) && m.files.contains_key(q));
        }
    }
    if let run::RunStepView::Store(h, d, _) = m.step {
        keeping::lemma_may_store(m.files, h, d, n.step, n.files);
        if let run::RunStepView::Stat(_, _, s) = n.step {
            let place = path::join(root, s.path());
            if s is Written {
                assert forall|p: Seq<u8>, q: Seq<u8>|
                    #![trigger n.files.contains_key(p), n.files.contains_key(q)]
                    n.files.contains_key(p) && !first.contains_key(p) && n.files.contains_key(q)
                        && is_content(root, q) && p != q implies n.files[p].digest
                    != n.files[q].digest by {
                    assert(p != place ==> n.files.remove(place).contains_key(p));
                    assert(q != place ==> n.files.remove(place).contains_key(q));
                    assert(p != place ==> m.files.contains_key(p));
                    assert(q != place ==> m.files.contains_key(q));
                    if p != place && q == place {
                        assert(is_content(root, p));
                    }
                }
                assert forall|p: Seq<u8>| #[trigger]
                    n.files.contains_key(p) && !first.contains_key(p) implies !archive::is_copy_path(
                    p,
                ) by {
                    if p != place {
                        assert(n.files.remove(place).contains_key(p));
                        assert(m.files.contains_key(p));
                    }
                }
            }
        }
    }
}

proof fn lemma_course_in_order(
    start: engine::EngineView,
    survey: Survey,
    course: Seq<Moment>,
    i: int,
)
    requires
        is_run(start, survey, course),
        nothing_fails(course),
        start.cache.exclusive,
        indexed(start.cache.tables, start.archive.root, course[0].files),
        course[0].files.contains_key(archive::config_place(start.archive.root)),
        0 <= i < course.len(),
    ensures
        step_in_order(start.archive.root, course[i]),
        no_duplicates_added(start.archive.root, course[0].files, course[i].files),
    decreases i,
{
    if i > 0 {
        let root = start.archive.root;
        lemma_course_in_order(start, survey, course, i - 1);
        lemma_kept(start, survey, course, i - 1);
        assert(leads_to(start.archive.root, survey, course[i - 1], course[i - 1 + 1]));
        let (m, n) = (course[i - 1], course[i]);
        assert(course[i - 1].step is Stat ==> course[i - 1
            + 1].step matches run::RunStepView::Handled(_, Ok(_)));
        lemma_next_in_order(root, survey, m, n);
        if let run::RunStepView::Store(h, _, _) = m.step {
            lemma_indexed_is_known(h.engine().cache.tables, root, m.files);
        }
        lemma_next_adds_no_duplicates(root, survey, course[0].files, m, n);
    }
}

/// Where the index describes the archive, a run copies nothing that the archive holds, under whatever
/// name and in whatever folder, and copies nothing twice: no file that it adds holds what another file
/// holds, be that old or new.
pub proof fn law_a_run_adds_no_duplicates(
    start: engine::EngineView,
    survey: Survey,
    course: Seq<Moment>,
    i: int,
    p: Seq<u8>,
    q: Seq<u8>,
)
    requires
        is_run(start, survey, course),
        nothing_fails(course),
        start.cache.exclusive,
        indexed(start.cache.tables, start.archive.root, course[0].files),
        course[0].files.contains_key(archive::config_place(start.archive.root)),
        0 <= i < course.len(),
        course[i].files.contains_key(p),
        !course[0].files.contains_key(p),
        course[i].files.contains_key(q),
        is_content(start.archive.root, q),
        p != q,
    ensures
        course[i].files[p].digest != course[i].files[q].digest,
{
    lemma_course_in_order(start, survey, course, i);
}

/// Where the index describes the archive, it does so whenever the run goes on to the next file: every
/// file that was there or was added is known by its content, and stays known.
pub proof fn law_a_run_keeps_the_index(
    start: engine::EngineView,
    survey: Survey,
    course: Seq<Moment>,
    i: int,
    w: run::WalkingView,
)
    requires
        is_run(start, survey, course),
        nothing_fails(course),
        start.cache.exclusive,
        indexed(start.cache.tables, start.archive.root, course[0].files),
        course[0].files.contains_key(archive::config_place(start.archive.root)),
        0 <= i < course.len(),
        course[i].step == run::RunStepView::Walk(w),
    ensures
        indexed(w.run.engine.cache.tables, start.archive.root, course[i].files),
        known(w.run.engine.cache.tables, start.archive.root, course[i].files),
{
    lemma_course_in_order(start, survey, course, i);
    lemma_indexed_is_known(w.run.engine.cache.tables, start.archive.root, course[i].files);
}

/// A rebuilt index describes the archive, where the walk has listed its files.
pub proof fn law_a_rebuilt_index_describes_the_archive(
    root: Seq<u8>,
    listed: Seq<Seq<u8>>,
    disk: reindex::Disk,
    t: sqlite::Tables,
)
    requires
        t.archived == reindex::index_of(root, listed, disk, listed.len() as int),
        forall|i: int|
            0 <= i < listed.len() ==> {
                let p = path::join(root, #[trigger] listed[i]);
                disk.contains_key(p) && !archive::is_copy_path(p)
            },
        forall|p: Seq<u8>| #[trigger]
            disk.contains_key(p) && is_content(root, p) ==> exists|i: int|
                0 <= i < listed.len() && p == path::join(root, #[trigger] listed[i]),
    ensures
        indexed(t, root, keeping::contents_of(disk)),
{
    let files = keeping::contents_of(disk);
    let n = listed.len() as int;
    reindex::lemma_index_rows(root, listed, disk, n);
    assert forall|p: Seq<u8>| #[trigger]
        files.contains_key(p) && is_content(root, p) implies has_row(
        t,
        root,
        p,
        files[p].digest,
    ) by {
        assert(disk.contains_key(p));
        let i = choose|i: int|
            0 <= i < listed.len() && p == path::join(root, #[trigger] listed[i]);
        let e = reindex::row_on_disk(root, listed[i], disk);
        assert(t.archived.contains_key(e.path) && t.archived[e.path] == e.row);
        assert(p == path::join(root, listed[i]));
    }
    assert forall|k: Seq<char>| #[trigger] t.archived.contains_key(k) implies is_true_row(
        t,
        root,
        files,
        k,
    ) by {
        assert(reindex::index_of(root, listed, disk, n).contains_key(k));
        let j = choose|j: int| 0 <= j < n && path::key(#[trigger] listed[j]) == k;
        let e = reindex::row_on_disk(root, listed[j], disk);
        assert(t.archived[e.path] == e.row);
        let p = path::join(root, listed[j]);
        assert(disk.contains_key(p));
        assert(files.contains_key(p));
    }
}

// ---------------------------------------------------------------------------------------------
// What happens where the index was lost, or was never made.
// ---------------------------------------------------------------------------------------------

/// Is this the file at that place?
pub open spec fn is_at(item: Item, p: Seq<u8>) -> bool {
    item matches Ok(f) && f.path == p
}

/// Has the walk of the archive found all its files?
pub open spec fn finds_all(root: Seq<u8>, found: Seq<Item>, files: keeping::Files) -> bool {
    forall|p: Seq<u8>| #[trigger]
        files.contains_key(p) && is_content(root, p) ==> exists|k: int|
            0 <= k < found.len() && is_at(#[trigger] found[k], p)
}

/// Does the archive hold any file?
pub open spec fn holds_content(root: Seq<u8>, files: keeping::Files) -> bool {
    exists|p: Seq<u8>| #[trigger] files.contains_key(p) && is_content(root, p)
}

/// Nothing of the archive is overlooked: where it holds a file, a look at it finds one, and the walk
/// that it is indexed by finds all of them.
pub open spec fn nothing_overlooked(root: Seq<u8>, survey: Survey, course: Seq<Moment>) -> bool {
    &&& forall|i: int|
        0 <= i < course.len() - 1 && (#[trigger] course[i]).step is List && holds_content(
            root,
            course[i].files,
        ) ==> course[i + 1].step is Index
    &&& forall|i: int|
        0 <= i < course.len() ==> ((#[trigger] course[i]).step matches run::RunStepView::Index(
            _,
            _,
            reindex::ReindexView::List(_),
        ) ==> finds_all(root, survey.found, course[i].files))
}

/// Every listed file is there, and is no copy that is not complete.
pub proof fn lemma_listed_places(root: Seq<u8>, survey: Survey, files: keeping::Files)
    requires
        surveyed(root, survey, files),
    ensures
        forall|i: int|
            0 <= i < reindex::found_files(root, survey.found).len() ==> {
                let p = path::join(root, #[trigger] reindex::found_files(root, survey.found)[i]);
                survey.disk.contains_key(p) && !archive::is_copy_path(p)
            },
{
    let found = survey.found;
    let listed = reindex::found_files(root, found);
    reindex::lemma_found_files(root, found);
    assert forall|i: int| 0 <= i < listed.len() implies {
        let p = path::join(root, #[trigger] listed[i]);
        survey.disk.contains_key(p) && !archive::is_copy_path(p)
    } by {
        let k = choose|k: int|
            0 <= k < found.len() && archive::listed(root, #[trigger] found[k]) == Some(
                Ok::<Seq<u8>, scan::ErrorView>(listed[i]),
            );
        let f = found[k]->Ok_0;
        assert(files.contains_key(f.path));
        assert(survey.disk.contains_key(f.path));
    }
}

/// A walk that has found all files of the archive has them listed.
proof fn lemma_all_listed(root: Seq<u8>, survey: Survey, files: keeping::Files)
    requires
        surveyed(root, survey, files),
        finds_all(root, survey.found, files),
    ensures
        forall|p: Seq<u8>| #[trigger]
            survey.disk.contains_key(p) && is_content(root, p) ==> exists|i: int|
                0 <= i < reindex::found_files(root, survey.found).len() && p == path::join(
                    root,
                    #[trigger] reindex::found_files(root, survey.found)[i],
                ),
{
    let found = survey.found;
    let listed = reindex::found_files(root, found);
    reindex::lemma_found_files(root, found);
    assert forall|p: Seq<u8>| #[trigger]
        survey.disk.contains_key(p) && is_content(root, p) implies exists|i: int|
        0 <= i < listed.len() && p == path::join(root, #[trigger] listed[i]) by {
        assert(files.contains_key(p));
        let k = choose|k: int| 0 <= k < found.len() && is_at(#[trigger] found[k], p);
        let relative = path::strip_prefix(p, root)->0;
        assert(lies_beneath(root, p));
        assert(archive::listed(root, found[k]) == Some(
            Ok::<Seq<u8>, scan::ErrorView>(relative),
        ));
        let i = choose|i: int| 0 <= i < listed.len() && listed[i] == relative;
        assert(p == path::join(root, listed[i]));
    }
}

/// What holds of a run that starts with an empty index: the archive is indexed before anything is
/// copied into it.
spec fn adopting(start: engine::EngineView, survey: Survey, m: Moment) -> bool {
    let root = start.archive.root;
    match m.step {
        run::RunStepView::Sweep(r) => r.engine == start,
        run::RunStepView::Remove(r, _) => r.engine == start,
        run::RunStepView::List(r) => r.engine == start,
        run::RunStepView::Index(_, _, v) => {
            &&& reindex::on_track(start, survey.found, survey.disk, v)
            &&& match v {
                reindex::ReindexView::List(_) => true,
                reindex::ReindexView::Done(_, Err(_), _) => true,
                _ => surveyed(root, survey, m.files) && finds_all(root, survey.found, m.files),
            }
        },
        _ => step_in_order(root, m),
    }
}

proof fn lemma_next_adopting(start: engine::EngineView, survey: Survey, m: Moment, n: Moment)
    requires
        leads_to(start.archive.root, survey, m, n),
        start.cache.exclusive,
        start.cache.tables.archived.dom() =~= Set::empty(),
        only_copies(m.step),
        adopting(start, survey, m),
        n.step matches run::RunStepView::Handled(_, Err(e)) ==> !engine::is_sqlite(e),
        m.step is Stat ==> n.step matches run::RunStepView::Handled(_, Ok(_)),
        m.step is List && holds_content(start.archive.root, m.files) ==> n.step is Index,
        m.step matches run::RunStepView::Index(_, _, reindex::ReindexView::List(_)) ==> finds_all(
            start.archive.root,
            survey.found,
            m.files,
        ),
    ensures
        adopting(start, survey, n),
{
    let root = start.archive.root;
    let t = start.cache.tables;
    match m.step {
        run::RunStepView::Sweep(r) => {},
        run::RunStepView::Remove(r, paths) => {
            assert(r.with(start.cache) == r);
        },
        run::RunStepView::List(r) => {
            let found = choose|found: Seq<Item>|
                truly_found(root, found, m.files) && #[trigger] run::after_list(r, found, n.step);
            if let run::RunStepView::Index(_, _, v) = n.step {
                if archive::has_file(archive::listed_all(root, found)) {
                    reindex::lemma_begins_on_track(start, survey.found, survey.disk, v);
                }
            } else {
                assert(indexed(t, root, m.files)) by {
                    assert forall|k: Seq<char>| #[trigger]
                        t.archived.contains_key(k) implies is_true_row(t, root, m.files, k) by {
                        assert(t.archived.dom().contains(k));
                    }
                }
                lemma_next_source_in_order(root, r, n.step, n.files, n.item);
            }
        },
        run::RunStepView::Index(stats, next, v) => {
            if let reindex::ReindexView::Done(e, result, _) = v {
                if result is Ok {
                    let listed = reindex::found_files(root, survey.found);
                    lemma_listed_places(root, survey, m.files);
                    lemma_all_listed(root, survey, m.files);
                    law_a_rebuilt_index_describes_the_archive(
                        root,
                        listed,
                        survey.disk,
                        e.cache.tables,
                    );
                    lemma_next_source_in_order(
                        root,
                        run::RunView { engine: e, stats, next },
                        n.step,
                        n.files,
                        n.item,
                    );
                }
            } else if let run::RunStepView::Index(_, _, w) = n.step {
                reindex::lemma_steps_on_track(start, survey.found, survey.disk, v, w);
            }
        },
        _ => {
            lemma_next_in_order(root, survey, m, n);
        },
    }
}

proof fn lemma_course_adopting(
    start: engine::EngineView,
    survey: Survey,
    course: Seq<Moment>,
    i: int,
)
    requires
        is_run(start, survey, course),
        nothing_fails(course),
        nothing_overlooked(start.archive.root, survey, course),
        start.cache.exclusive,
        start.cache.tables.archived.dom() =~= Set::empty(),
        course[0].files.contains_key(archive::config_place(start.archive.root)),
        0 <= i < course.len(),
    ensures
        adopting(start, survey, course[i]),
        no_duplicates_added(start.archive.root, course[0].files, course[i].files),
    decreases i,
{
    if i > 0 {
        let root = start.archive.root;
        lemma_course_adopting(start, survey, course, i - 1);
        lemma_kept(start, survey, course, i - 1);
        assert(leads_to(start.archive.root, survey, course[i - 1], course[i - 1 + 1]));
        let (m, n) = (course[i - 1], course[i]);
        assert(course[i - 1].step is Stat ==> course[i - 1
            + 1].step matches run::RunStepView::Handled(_, Ok(_)));
        assert(course[i - 1].step is List && holds_content(root, course[i - 1].files) ==> course[i
            - 1 + 1].step is Index);
        lemma_next_adopting(start, survey, m, n);
        if let run::RunStepView::Store(h, _, _) = m.step {
            lemma_indexed_is_known(h.engine().cache.tables, root, m.files);
        }
        lemma_next_adds_no_duplicates(root, survey, course[0].files, m, n);
    }
}

/// Where the cache was lost, or the archive was assembled by hand, a run copies nothing that the archive
/// holds either: it learns what is there first. No file that it adds holds what another file holds, be
/// that old or new.
pub proof fn law_a_lost_cache_adds_no_duplicates(
    start: engine::EngineView,
    survey: Survey,
    course: Seq<Moment>,
    i: int,
    p: Seq<u8>,
    q: Seq<u8>,
)
    requires
        is_run(start, survey, course),
        nothing_fails(course),
        nothing_overlooked(start.archive.root, survey, course),
        start.cache.exclusive,
        start.cache.tables.archived.dom() =~= Set::empty(),
        course[0].files.contains_key(archive::config_place(start.archive.root)),
        0 <= i < course.len(),
        course[i].files.contains_key(p),
        !course[0].files.contains_key(p),
        course[i].files.contains_key(q),
        is_content(start.archive.root, q),
        p != q,
    ensures
        course[i].files[p].digest != course[i].files[q].digest,
{
    lemma_course_adopting(start, survey, course, i);
}

/// Where the cache was lost, or the archive was assembled by hand, the index describes the archive
/// before the first file is looked at, and whenever the run goes on to the next one.
pub proof fn law_a_lost_cache_is_made_up_for(
    start: engine::EngineView,
    survey: Survey,
    course: Seq<Moment>,
    i: int,
    w: run::WalkingView,
)
    requires
        is_run(start, survey, course),
        nothing_fails(course),
        nothing_overlooked(start.archive.root, survey, course),
        start.cache.exclusive,
        start.cache.tables.archived.dom() =~= Set::empty(),
        course[0].files.contains_key(archive::config_place(start.archive.root)),
        0 <= i < course.len(),
        course[i].step == run::RunStepView::Walk(w),
    ensures
        indexed(w.run.engine.cache.tables, start.archive.root, course[i].files),
{
    lemma_course_adopting(start, survey, course, i);
}

// ---------------------------------------------------------------------------------------------
// What a run goes through.
// ---------------------------------------------------------------------------------------------

/// The source trees of the engine that is at work.
spec fn sources_of(step: run::RunStepView) -> Seq<Seq<u8>> {
    match step {
        run::RunStepView::Sweep(r) => r.engine.sources,
        run::RunStepView::Remove(r, _) => r.engine.sources,
        run::RunStepView::List(r) => r.engine.sources,
        run::RunStepView::Index(_, _, v) => match v {
            reindex::ReindexView::List(e) => e.sources,
            reindex::ReindexView::Stat(i) => i.engine.sources,
            reindex::ReindexView::Hash(i, _, _) => i.engine.sources,
            reindex::ReindexView::Done(e, _, _) => e.sources,
        },
        run::RunStepView::Walk(w) => w.run.engine.sources,
        run::RunStepView::Hash(h) => h.engine().sources,
        run::RunStepView::Store(h, _, _) => h.engine().sources,
        run::RunStepView::Stat(h, _, _) => h.engine().sources,
        run::RunStepView::Handled(h, _) => h.engine().sources,
        run::RunStepView::Done(e, _) => e.sources,
    }
}

/// How many source trees were walked to their end.
spec fn trees_done(step: run::RunStepView) -> int {
    match step {
        run::RunStepView::Walk(w) => w.run.next - 1,
        run::RunStepView::Hash(h) => h.walking.run.next - 1,
        run::RunStepView::Store(h, _, _) => h.walking.run.next - 1,
        run::RunStepView::Stat(h, _, _) => h.walking.run.next - 1,
        run::RunStepView::Handled(h, _) => h.walking.run.next - 1,
        run::RunStepView::Done(e, Ok(_)) => e.sources.len() as int,
        _ => 0,
    }
}

/// The source tree that is walked.
spec fn tree_of(step: run::RunStepView) -> Option<Seq<u8>> {
    match step {
        run::RunStepView::Walk(w) => Some(w.root),
        run::RunStepView::Hash(h) => Some(h.walking.root),
        run::RunStepView::Store(h, _, _) => Some(h.walking.root),
        run::RunStepView::Stat(h, _, _) => Some(h.walking.root),
        run::RunStepView::Handled(h, _) => Some(h.walking.root),
        _ => None,
    }
}

/// Before the first tree none was begun.
spec fn none_begun(step: run::RunStepView) -> bool {
    match step {
        run::RunStepView::Sweep(r) => r.next == 0,
        run::RunStepView::Remove(r, _) => r.next == 0,
        run::RunStepView::List(r) => r.next == 0,
        run::RunStepView::Index(_, next, _) => next == 0,
        _ => true,
    }
}

/// What holds at every moment: the trees are gone through one by one.
spec fn tree_by_tree(sources: Seq<Seq<u8>>, step: run::RunStepView) -> bool {
    &&& sources_of(step) == sources
    &&& none_begun(step)
    &&& tree_of(step) matches Some(root) ==> 0 <= trees_done(step) < sources.len() && root
        == sources[trees_done(step)]
}

proof fn lemma_next_tree(root: Seq<u8>, survey: Survey, m: Moment, n: Moment, sources: Seq<Seq<u8>>)
    requires
        leads_to(root, survey, m, n),
        tree_by_tree(sources, m.step),
        !(n.step matches run::RunStepView::Done(_, Err(_))),
    ensures
        tree_by_tree(sources, n.step),
        trees_done(n.step) == trees_done(m.step) + if m.step is Walk && m.item is None {
            1int
        } else {
            0
        },
{
    match m.step {
        run::RunStepView::Remove(r, _) => {
            assert(run::after_sweep(r, n.step));
        },
        run::RunStepView::List(r) => {
            let found = choose|found: Seq<Item>|
                truly_found(root, found, m.files) && #[trigger] run::after_list(r, found, n.step);
            assert(run::after_list(r, found, n.step));
        },
        run::RunStepView::Walk(w) => {
            assert(run::after_walk(w, m.item, n.step));
        },
        run::RunStepView::Hash(h) => {
            let d = choose|d: Result<Seq<u8>, std::io::Error>| #[trigger]
                run::after_hash(h, d, n.step);
            assert(run::after_hash(h, d, n.step));
        },
        run::RunStepView::Store(h, d, _) => {
            keeping::lemma_may_store(m.files, h, d, n.step, n.files);
        },
        run::RunStepView::Stat(h, d, s) => {
            let a = choose|a: Result<scan::Metadata, std::io::Error>| #[trigger]
                run::after_stat(h, d, s, a, n.step);
            assert(run::after_stat(h, d, s, a, n.step));
        },
        _ => {},
    }
}

/// Was this tree walked to its end before the moment `i`?
pub open spec fn was_walked(course: Seq<Moment>, tree: Seq<u8>, i: int) -> bool {
    exists|j: int|
        0 <= j < i && (#[trigger] course[j]).item is None && (
        course[j].step matches run::RunStepView::Walk(w) && w.root == tree)
}

proof fn lemma_trees_walked(start: engine::EngineView, survey: Survey, course: Seq<Moment>, i: int)
    requires
        is_run(start, survey, course),
        0 <= i < course.len(),
        !(course[i].step matches run::RunStepView::Done(_, Err(_))),
    ensures
        tree_by_tree(start.sources, course[i].step),
        forall|k: int|
            0 <= k < trees_done(course[i].step) ==> was_walked(
                course,
                #[trigger] start.sources[k],
                i,
            ),
    decreases i,
{
    if i > 0 {
        let root = start.archive.root;
        assert(leads_to(root, survey, course[i - 1], course[i - 1 + 1]));
        let (m, n) = (course[i - 1], course[i]);
        lemma_trees_walked(start, survey, course, i - 1);
        lemma_next_tree(root, survey, m, n, start.sources);
        assert forall|k: int| 0 <= k < trees_done(n.step) implies was_walked(
            course,
            #[trigger] start.sources[k],
            i,
        ) by {
            if k < trees_done(m.step) {
                let j = choose|j: int|
                    0 <= j < i - 1 && (#[trigger] course[j]).item is None && (
                    course[j].step matches run::RunStepView::Walk(w) && w.root
                        == start.sources[k]);
                assert(course[j].item is None);
            } else {
                assert(course[i - 1].item is None);
            }
        }
    }
}

/// A run that ends without failing has gone through every source: each tree that it was given was walked,
/// and its walk had come to its end before the run was over. Nothing but the sources was walked, and none
/// of them before all that were named ahead of it had come to their end.
pub proof fn law_every_source_is_walked(
    start: engine::EngineView,
    survey: Survey,
    course: Seq<Moment>,
)
    requires
        is_run(start, survey, course),
    ensures
        course.last().step matches run::RunStepView::Done(_, Ok(_)) ==> forall|k: int|
            0 <= k < start.sources.len() ==> was_walked(
                course,
                #[trigger] start.sources[k],
                course.len() - 1,
            ),
        forall|i: int|
            0 <= i < course.len() ==> ((#[trigger] course[i]).step matches run::RunStepView::Walk(w)
                ==> exists|k: int|
                0 <= k < start.sources.len() && w.root == #[trigger] start.sources[k] && forall|
                    l: int,
                |
                    0 <= l < k ==> was_walked(course, #[trigger] start.sources[l], i)),
{
    let last = course.len() - 1;
    if course.last().step matches run::RunStepView::Done(_, Ok(_)) {
        lemma_trees_walked(start, survey, course, last);
    }
    assert forall|i: int| 0 <= i < course.len() implies ((
    #[trigger] course[i]).step matches run::RunStepView::Walk(w) ==> exists|k: int|
        0 <= k < start.sources.len() && w.root == #[trigger] start.sources[k] && forall|l: int|
            0 <= l < k ==> was_walked(course, #[trigger] start.sources[l], i)) by {
        if let run::RunStepView::Walk(w) = course[i].step {
            lemma_trees_walked(start, survey, course, i);
            let k = trees_done(course[i].step);
            assert(w.root == start.sources[k]);
        }
    }
}

/// No transaction is open where none has to be.
spec fn is_closed(step: run::RunStepView) -> bool {
    match step {
        run::RunStepView::Sweep(r) => r.engine.cache.exclusive
            && r.engine.cache.session.begun is None,
        run::RunStepView::Remove(r, _) => r.engine.cache.exclusive
            && r.engine.cache.session.begun is None,
        run::RunStepView::List(r) => r.engine.cache.exclusive
            && r.engine.cache.session.begun is None,
        run::RunStepView::Index(_, _, v) => match v {
            reindex::ReindexView::List(e) => e.cache.exclusive,
            reindex::ReindexView::Stat(i) => i.engine.cache.exclusive,
            reindex::ReindexView::Hash(i, _, _) => i.engine.cache.exclusive,
            reindex::ReindexView::Done(e, Ok(_), _) => e.cache.exclusive
                && e.cache.session.begun is None,
            reindex::ReindexView::Done(e, Err(_), _) => true,
        },
        run::RunStepView::Walk(w) => w.run.engine.cache.exclusive,
        run::RunStepView::Hash(h) => h.engine().cache.exclusive,
        run::RunStepView::Store(h, _, _) => h.engine().cache.exclusive,
        run::RunStepView::Stat(h, _, _) => h.engine().cache.exclusive,
        run::RunStepView::Handled(h, _) => h.engine().cache.exclusive,
        run::RunStepView::Done(e, Ok(_)) => e.cache.exclusive && e.cache.session.begun is None,
        run::RunStepView::Done(_, Err(_)) => true,
    }
}

proof fn lemma_next_is_closed(root: Seq<u8>, survey: Survey, m: Moment, n: Moment)
    requires
        leads_to(root, survey, m, n),
        is_closed(m.step),
    ensures
        is_closed(n.step),
{
    match m.step {
        run::RunStepView::Remove(r, _) => {
            assert(run::after_sweep(r, n.step));
        },
        run::RunStepView::List(r) => {
            let found = choose|found: Seq<Item>|
                truly_found(root, found, m.files) && #[trigger] run::after_list(r, found, n.step);
            assert(run::after_list(r, found, n.step));
        },
        run::RunStepView::Walk(w) => {
            assert(run::after_walk(w, m.item, n.step));
        },
        run::RunStepView::Hash(h) => {
            let d = choose|d: Result<Seq<u8>, std::io::Error>| #[trigger]
                run::after_hash(h, d, n.step);
            assert(run::after_hash(h, d, n.step));
        },
        run::RunStepView::Store(h, d, _) => {
            keeping::lemma_may_store(m.files, h, d, n.step, n.files);
        },
        run::RunStepView::Stat(h, d, s) => {
            let a = choose|a: Result<scan::Metadata, std::io::Error>| #[trigger]
                run::after_stat(h, d, s, a, n.step);
            assert(run::after_stat(h, d, s, a, n.step));
        },
        _ => {},
    }
}

proof fn lemma_all_closed(start: engine::EngineView, survey: Survey, course: Seq<Moment>, i: int)
    requires
        is_run(start, survey, course),
        start.cache.exclusive,
        start.cache.session.begun is None,
        0 <= i < course.len(),
    ensures
        is_closed(course[i].step),
    decreases i,
{
    if i > 0 {
        assert(leads_to(start.archive.root, survey, course[i - 1], course[i - 1 + 1]));
        lemma_all_closed(start, survey, course, i - 1);
        lemma_next_is_closed(start.archive.root, survey, course[i - 1], course[i]);
    }
}

/// What a run has recorded is kept: when it has ended without failing, no transaction is open that could
/// still be given up.
pub proof fn law_a_run_commits_what_it_records(
    start: engine::EngineView,
    survey: Survey,
    course: Seq<Moment>,
)
    requires
        is_run(start, survey, course),
        start.cache.exclusive,
        start.cache.session.begun is None,
    ensures
        course.last().step matches run::RunStepView::Done(e, Ok(_)) ==> e.cache.session.begun is None,
{
    lemma_all_closed(start, survey, course, course.len() - 1);
}

/// Nothing stops a run but a failure of the cache, or an archive that cannot be indexed when it has to be:
/// no file of a source tree does.
pub proof fn law_no_file_stops_a_run(
    start: engine::EngineView,
    survey: Survey,
    course: Seq<Moment>,
    error: engine::EngineErrorView,
    end: engine::EngineView,
)
    requires
        is_run(start, survey, course),
        course.last().step == run::RunStepView::Done(end, Err(error)),
    ensures
        engine::is_sqlite(error) || (course.len() > 1 && (course[course.len()
            - 2].step matches run::RunStepView::Index(_, _, v) && (
        v matches reindex::ReindexView::Done(_, Err(e), _) && e == error))),
{
    let i = course.len() - 1;
    if i > 0 {
        assert(leads_to(start.archive.root, survey, course[i - 1], course[i - 1 + 1]));
        let (m, n) = (course[i - 1], course[i]);
        match m.step {
            run::RunStepView::Remove(r, _) => {
                assert(run::after_sweep(r, n.step));
            },
            run::RunStepView::List(r) => {
                let found = choose|found: Seq<Item>|
                    truly_found(start.archive.root, found, m.files) && #[trigger] run::after_list(
                        r,
                        found,
                        n.step,
                    );
                assert(run::after_list(r, found, n.step));
            },
            run::RunStepView::Walk(w) => {
                assert(run::after_walk(w, m.item, n.step));
            },
            run::RunStepView::Hash(h) => {
                let d = choose|d: Result<Seq<u8>, std::io::Error>| #[trigger]
                    run::after_hash(h, d, n.step);
                assert(run::after_hash(h, d, n.step));
            },
            run::RunStepView::Store(h, d, _) => {
                keeping::lemma_may_store(m.files, h, d, n.step, n.files);
            },
            run::RunStepView::Stat(h, d, s) => {
                let a = choose|a: Result<scan::Metadata, std::io::Error>| #[trigger]
                    run::after_stat(h, d, s, a, n.step);
                assert(run::after_stat(h, d, s, a, n.step));
            },
            _ => {},
        }
    }
}

} // verus!
