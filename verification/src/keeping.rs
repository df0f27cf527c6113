//! What a backup keeps: once a file was handled, its content is in the archive, and nothing that
//! was in the archive is gone.

use crate::archive;
use crate::cache;
use crate::engine;
use crate::path;
use crate::reindex;
use crate::run;
use crate::scan;
use crate::sqlite;
use crate::stats::Outcome;
use crate::store;
use vstd::prelude::*;

verus! {

/// The files of an archive by their places.
pub type Files = Map<Seq<u8>, store::Content>;

/// Is this content somewhere in the archive? Copies that are not complete do not count.
pub open spec fn is_kept(files: Files, digest: Seq<u8>) -> bool {
    exists|p: Seq<u8>| #[trigger]
        files.contains_key(p) && !archive::is_copy_path(p) && files[p].digest == digest
}

/// Is all content that the cache speaks of in the archive?
pub open spec fn backed(t: sqlite::Tables, files: Files) -> bool {
    &&& forall|k: Seq<char>| #[trigger]
        t.archived.contains_key(k) ==> is_kept(files, t.archived[k].hash)
    &&& forall|k: Seq<char>| #[trigger]
        t.sources.contains_key(k) ==> is_kept(files, t.sources[k].hash)
}

/// Storing a file comes to this result, and these files are there then: the one that nothing
/// fails in, or an error that leaves the files alone. (What is left of a copy that failed is no file
/// of the archive: the next run sweeps it.)
pub open spec fn may_store(
    files: Files,
    h: run::HandlingView,
    digest: Seq<u8>,
    next: run::RunStepView,
    then: Files,
) -> bool {
    ||| exists|size: u64|
        {
            let (result, after) = #[trigger] store::stored_among(
                files,
                h.engine().archive.root,
                h.file.path,
                h.walking.root,
                digest,
                size,
            );
            next == run::after_store(h, digest, result) && then == after
        }
    ||| exists|e: std::io::Error|
        next == #[trigger] run::after_store(
            h,
            digest,
            Err(archive::ArchiveErrorView::Io(e)),
        ) && then == files
}

/// However storing a file comes out, nothing is gone. Where it has succeeded, the file is where it is
/// said to be, with the content that it was stored with; at most that file is new.
pub proof fn lemma_may_store(
    files: Files,
    h: run::HandlingView,
    digest: Seq<u8>,
    next: run::RunStepView,
    then: Files,
)
    requires
        may_store(files, h, digest, next, then),
    ensures
        files.submap_of(then),
        match next {
            run::RunStepView::Stat(g, d, s) => {
                let place = path::join(h.engine().archive.root, s.path());
                &&& g == h
                &&& d == digest
                &&& !archive::is_copy_path(place)
                &&& then.contains_key(place)
                &&& then[place].digest == digest
                &&& match s {
                    archive::StoredView::Written(_) => !files.contains_key(place)
                        && then.remove(place) == files,
                    archive::StoredView::AlreadyThere(_) => then == files,
                }
            },
            run::RunStepView::Handled(g, Err(e)) => g == h && then == files && !engine::is_sqlite(
                e,
            ),
            _ => false,
        },
{
    let root = h.engine().archive.root;
    let (source, base) = (h.file.path, h.walking.root);
    if exists|size: u64|
        {
            let (result, after) = #[trigger] store::stored_among(
                files,
                root,
                source,
                base,
                digest,
                size,
            );
            next == run::after_store(h, digest, result) && then == after
        } {
        let size = choose|size: u64|
            {
                let (result, after) = #[trigger] store::stored_among(
                    files,
                    root,
                    source,
                    base,
                    digest,
                    size,
                );
                next == run::after_store(h, digest, result) && then == after
            };
        store::lemma_stored_among(files, root, source, base, digest, size);
        let result = store::stored_among(files, root, source, base, digest, size).0;
        if let Ok(s) = result {
            let place = path::join(root, s.path());
            if s is Written {
                assert(then.remove(place) =~= files);
            }
        }
    }
}

/// One step of handling a file leads to the next, and these files are in the archive then.
pub open spec fn truly_leads_to(
    step: run::RunStepView,
    files: Files,
    next: run::RunStepView,
    then: Files,
) -> bool {
    match step {
        run::RunStepView::Store(h, d, _) => may_store(files, h, d, next, then),
        _ => run::handling_leads_to(step, next) && then == files,
    }
}

/// All steps of handling one file, with the files that are in the archive at each of them.
pub open spec fn is_handling(
    start: run::HandlingView,
    steps: Seq<run::RunStepView>,
    archives: Seq<Files>,
) -> bool {
    &&& steps.len() > 0
    &&& archives.len() == steps.len()
    &&& run::first_look(start, steps[0])
    &&& forall|i: int|
        0 <= i < steps.len() - 1 ==> truly_leads_to(
            #[trigger] steps[i],
            archives[i],
            steps[i + 1],
            archives[i + 1],
        )
    &&& steps.last() is Handled
}

proof fn lemma_is_handling(
    start: run::HandlingView,
    steps: Seq<run::RunStepView>,
    archives: Seq<Files>,
)
    requires
        is_handling(start, steps, archives),
    ensures
        run::is_handling(start, steps),
{
    assert forall|i: int| 0 <= i < steps.len() - 1 implies run::handling_leads_to(
        #[trigger] steps[i],
        steps[i + 1],
    ) by {
        assert(truly_leads_to(steps[i], archives[i], steps[i + 1], archives[i + 1]));
    }
}

proof fn lemma_more_is_kept(files: Files, then: Files, digest: Seq<u8>)
    requires
        files.submap_of(then),
        is_kept(files, digest),
    ensures
        is_kept(then, digest),
{
    let p = choose|p: Seq<u8>| #[trigger]
        files.contains_key(p) && !archive::is_copy_path(p) && files[p].digest == digest;
    assert(then.contains_key(p) && then[p].digest == digest);
}

/// What holds of the archive at every step: nothing is gone, and what is about to be recorded is
/// there.
spec fn keeps(files: Files, step: run::RunStepView, then: Files) -> bool {
    &&& files.submap_of(then)
    &&& step matches run::RunStepView::Stat(_, d, _) ==> is_kept(then, d)
}

proof fn lemma_keeps(
    start: run::HandlingView,
    steps: Seq<run::RunStepView>,
    archives: Seq<Files>,
    i: int,
)
    requires
        is_handling(start, steps, archives),
        0 <= i < steps.len(),
    ensures
        keeps(archives[0], steps[i], archives[i]),
    decreases i,
{
    if i > 0 {
        lemma_keeps(start, steps, archives, i - 1);
        let (step, next) = (steps[i - 1], steps[i]);
        let (files, then) = (archives[i - 1], archives[i]);
        assert(truly_leads_to(
            steps[i - 1],
            archives[i - 1],
            steps[i - 1 + 1],
            archives[i - 1 + 1],
        ));
        if let run::RunStepView::Store(h, d, _) = step {
            lemma_may_store(files, h, d, next, then);
        }
    }
}

/// What is in the archive still backs the cache when more is there.
pub proof fn lemma_still_backed(t: sqlite::Tables, files: Files, then: Files)
    requires
        backed(t, files),
        files.submap_of(then),
    ensures
        backed(t, then),
{
    assert forall|k: Seq<char>| #[trigger] t.archived.contains_key(k) implies is_kept(
        then,
        t.archived[k].hash,
    ) by {
        lemma_more_is_kept(files, then, t.archived[k].hash);
    }
    assert forall|k: Seq<char>| #[trigger] t.sources.contains_key(k) implies is_kept(
        then,
        t.sources[k].hash,
    ) by {
        lemma_more_is_kept(files, then, t.sources[k].hash);
    }
}

/// Recording a source file whose content is there keeps the cache backed.
pub proof fn lemma_source_backed(t: sqlite::Tables, files: Files, e: sqlite::EntryView)
    requires
        backed(t, files),
        is_kept(files, e.row.hash),
    ensures
        backed(cache::with_source(t, e), files),
{
    let u = cache::with_source(t, e);
    assert forall|k: Seq<char>| #[trigger] u.sources.contains_key(k) implies is_kept(
        files,
        u.sources[k].hash,
    ) by {
        if k != e.path {
            assert(t.sources.contains_key(k));
        }
    }
}

/// Recording an archived file whose content is there keeps the cache backed.
pub proof fn lemma_archived_backed(t: sqlite::Tables, files: Files, e: sqlite::EntryView)
    requires
        backed(t, files),
        is_kept(files, e.row.hash),
    ensures
        backed(cache::with_archived(t, e), files),
{
    let u = cache::with_archived(t, e);
    assert forall|k: Seq<char>| #[trigger] u.archived.contains_key(k) implies is_kept(
        files,
        u.archived[k].hash,
    ) by {
        if k != e.path {
            assert(t.archived.contains_key(k));
        }
    }
}

/// Once a file was handled, its content is in the archive: what is recorded of the file is the hash
/// of a content that is there. Nothing that was in the archive is gone or changed, and the content
/// of every file that was recorded before is there still.
pub proof fn law_a_handled_file_is_kept(
    start: run::HandlingView,
    steps: Seq<run::RunStepView>,
    archives: Seq<Files>,
)
    requires
        start.engine().cache.exclusive,
        is_handling(start, steps, archives),
        backed(start.engine().cache.tables, archives[0]),
    ensures
        archives[0].submap_of(archives.last()),
        steps.last() matches run::RunStepView::Handled(h, Ok(_)) ==> {
            let t = h.engine().cache.tables;
            let key = path::key(start.file.path);
            &&& backed(t, archives.last())
            &&& t.sources.contains_key(key)
            &&& is_kept(archives.last(), t.sources[key].hash)
        },
{
    let n = steps.len() - 1;
    let t = start.engine().cache.tables;
    let (files, then) = (archives[0], archives.last());
    lemma_is_handling(start, steps, archives);
    lemma_keeps(start, steps, archives, n);
    lemma_still_backed(t, files, then);
    if let run::RunStepView::Handled(h, Ok(_)) = steps.last() {
        let u = h.engine().cache.tables;
        let key = path::key(start.file.path);
        if n > 0 {
            let step = steps[n - 1];
            run::lemma_handling_on_track(start, steps, n - 1);
            lemma_keeps(start, steps, archives, n - 1);
            assert(truly_leads_to(
                steps[n - 1],
                archives[n - 1],
                steps[n - 1 + 1],
                archives[n - 1 + 1],
            ));
            assert(!(step is Store));
            if let run::RunStepView::Hash(g) = step {
                let d = choose|d: Result<Seq<u8>, std::io::Error>| #[trigger]
                    run::after_hash(g, d, steps[n]);
                assert(run::after_hash(g, d, steps[n]));
                let digest = d->Ok_0;
                assert(cache::holds(t, digest));
                let p = choose|p: Seq<char>| #[trigger]
                    t.archived.contains_key(p) && t.archived[p].hash == digest;
                assert(is_kept(files, t.archived[p].hash));
                lemma_more_is_kept(files, then, digest);
                lemma_source_backed(t, then, run::source_entry(start.file, digest));
                assert(u == cache::with_source(t, run::source_entry(start.file, digest)));
            }
            if let run::RunStepView::Stat(g, digest, s) = step {
                let m = choose|m: Result<scan::Metadata, std::io::Error>| #[trigger]
                    run::after_stat(g, digest, s, m, steps[n]);
                assert(run::after_stat(g, digest, s, m, steps[n]));
                let meta = m->Ok_0;
                let e = engine::entry_of(
                    s.path(),
                    meta.size,
                    scan::spec_mtime_secs(meta.modified),
                    digest,
                );
                lemma_archived_backed(t, then, e);
                lemma_source_backed(
                    cache::with_archived(t, e),
                    then,
                    run::source_entry(start.file, digest),
                );
                assert(u == run::with_stored(t, start.file, digest, s, meta));
            }
        }
        assert(u.sources.contains_key(key));
    }
}

/// The files of an archive, as far as their contents are concerned.
pub open spec fn contents_of(disk: reindex::Disk) -> Files {
    disk.map_values(
        |f: reindex::ArchivedFile| store::Content { size: f.size, digest: f.digest },
    )
}

/// A rebuilt index speaks of nothing but what is in the archive.
pub proof fn law_a_rebuilt_index_is_backed(
    root: Seq<u8>,
    listed: Seq<Seq<u8>>,
    disk: reindex::Disk,
    n: int,
    t: sqlite::Tables,
)
    requires
        0 <= n <= listed.len(),
        forall|i: int|
            0 <= i < listed.len() ==> {
                let p = path::join(root, #[trigger] listed[i]);
                disk.contains_key(p) && !archive::is_copy_path(p)
            },
        backed(t, contents_of(disk)),
    ensures
        backed(
            (sqlite::Tables { archived: reindex::index_of(root, listed, disk, n), ..t }),
            contents_of(disk),
        ),
    decreases n,
{
    let files = contents_of(disk);
    let u = sqlite::Tables { archived: reindex::index_of(root, listed, disk, n), ..t };
    if n > 0 {
        law_a_rebuilt_index_is_backed(root, listed, disk, n - 1, t);
        let before = sqlite::Tables { archived: reindex::index_of(root, listed, disk, n - 1), ..t };
        let entry = reindex::row_on_disk(root, listed[n - 1], disk);
        let place = path::join(root, listed[n - 1]);
        assert(files.contains_key(place) && files[place].digest == entry.row.hash);
        lemma_archived_backed(before, files, entry);
        assert(u == cache::with_archived(before, entry));
    }
}

/// Whenever the file is read, this is the hash of what it holds.
pub open spec fn reads(steps: Seq<run::RunStepView>, digest: Seq<u8>) -> bool {
    forall|i: int|
        0 <= i < steps.len() - 1 ==> (#[trigger] steps[i] matches run::RunStepView::Hash(h)
            ==> is_answered(h, digest, steps[i + 1]))
}

/// A file is read, which gives this hash or fails.
pub open spec fn is_answered(
    h: run::HandlingView,
    digest: Seq<u8>,
    next: run::RunStepView,
) -> bool {
    ||| run::after_hash(h, Ok(digest), next)
    ||| exists|e: std::io::Error| #[trigger] run::after_hash(h, Err(e), next)
}

/// Is this content new, to the cache and to the archive?
pub open spec fn is_new(t: sqlite::Tables, files: Files, digest: Seq<u8>) -> bool {
    &&& !cache::holds(t, digest)
    &&& forall|p: Seq<u8>| #[trigger] files.contains_key(p) ==> files[p].digest != digest
}

/// Is nothing but this content new in the archive?
spec fn adds_only(files: Files, digest: Seq<u8>, then: Files) -> bool {
    forall|p: Seq<u8>| #[trigger]
        then.contains_key(p) ==> then[p].digest == digest || files.contains_key(p) && files[p]
            == then[p]
}

/// What holds at every step of handling a file with new content that was not seen before.
spec fn is_copying(
    start: run::HandlingView,
    files: Files,
    digest: Seq<u8>,
    step: run::RunStepView,
    then: Files,
) -> bool {
    match step {
        run::RunStepView::Hash(h) => h == start && then == files,
        run::RunStepView::Store(h, d, _) => h == start && d == digest && then == files,
        run::RunStepView::Stat(h, d, s) => h == start && d == digest && s is Written && adds_only(
            files,
            digest,
            then,
        ),
        run::RunStepView::Handled(h, Ok(o)) => {
            &&& o == Outcome::Copied
            &&& adds_only(files, digest, then)
            &&& h.engine().cache.exclusive
            &&& exists|s: archive::StoredView, m: scan::Metadata|
                h.engine().cache.tables == #[trigger] run::with_stored(
                    start.engine().cache.tables,
                    start.file,
                    digest,
                    s,
                    m,
                )
        },
        run::RunStepView::Handled(_, Err(_)) => true,
        _ => false,
    }
}

proof fn lemma_is_copying(
    start: run::HandlingView,
    steps: Seq<run::RunStepView>,
    archives: Seq<Files>,
    digest: Seq<u8>,
    i: int,
)
    requires
        start.engine().cache.exclusive,
        is_handling(start, steps, archives),
        reads(steps, digest),
        !start.engine().cache.tables.sources.contains_key(path::key(start.file.path)),
        is_new(start.engine().cache.tables, archives[0], digest),
        0 <= i < steps.len(),
    ensures
        is_copying(start, archives[0], digest, steps[i], archives[i]),
    decreases i,
{
    assert(start.with(start.engine().cache) == start);
    if i > 0 {
        lemma_is_copying(start, steps, archives, digest, i - 1);
        let (step, next) = (steps[i - 1], steps[i]);
        let (files, then) = (archives[i - 1], archives[i]);
        assert(truly_leads_to(
            steps[i - 1],
            archives[i - 1],
            steps[i - 1 + 1],
            archives[i - 1 + 1],
        ));
        match step {
            run::RunStepView::Hash(h) => {
                assert(is_answered(h, digest, steps[i - 1 + 1]));
            },
            run::RunStepView::Store(h, d, _) => {
                lemma_may_store(files, h, d, next, then);
                if let run::RunStepView::Stat(_, _, s) = next {
                    let place = path::join(h.engine().archive.root, s.path());
                    assert(then.contains_key(place));
                    assert forall|p: Seq<u8>| #[trigger] then.contains_key(p) implies then[p].digest
                        == digest || files.contains_key(p) && files[p] == then[p] by {
                        if p != place {
                            assert(then.remove(place).contains_key(p));
                        }
                    }
                }
            },
            run::RunStepView::Stat(h, d, s) => {
                let m = choose|m: Result<scan::Metadata, std::io::Error>| #[trigger]
                    run::after_stat(h, d, s, m, next);
                assert(run::after_stat(h, d, s, m, next));
                if let run::RunStepView::Handled(g, Ok(_)) = next {
                    assert(g.engine().cache.tables == run::with_stored(
                        start.engine().cache.tables,
                        start.file,
                        digest,
                        s,
                        m->Ok_0,
                    ));
                }
            },
            _ => {},
        }
    }
}

/// A file that was not seen before, with content that neither the cache nor the archive knows, is
/// copied.
pub proof fn law_new_content_is_copied(
    start: run::HandlingView,
    steps: Seq<run::RunStepView>,
    archives: Seq<Files>,
    digest: Seq<u8>,
)
    requires
        start.engine().cache.exclusive,
        is_handling(start, steps, archives),
        reads(steps, digest),
        !start.engine().cache.tables.sources.contains_key(path::key(start.file.path)),
        is_new(start.engine().cache.tables, archives[0], digest),
    ensures
        steps.last() matches run::RunStepView::Handled(_, Ok(o)) ==> o == Outcome::Copied,
{
    lemma_is_copying(start, steps, archives, digest, steps.len() - 1);
}

/// Two files that were not seen before are told apart by their paths, whatever bytes these are made
/// of: where they hold different contents, each of them new, both are copied, one after the other.
/// Neither is taken for the other.
pub proof fn law_two_new_files_are_both_copied(
    a: run::HandlingView,
    a_steps: Seq<run::RunStepView>,
    a_archives: Seq<Files>,
    a_digest: Seq<u8>,
    a_end: run::HandlingView,
    a_outcome: Outcome,
    b: run::HandlingView,
    b_steps: Seq<run::RunStepView>,
    b_archives: Seq<Files>,
    b_digest: Seq<u8>,
)
    requires
        a.engine().cache.exclusive,
        is_handling(a, a_steps, a_archives),
        is_handling(b, b_steps, b_archives),
        reads(a_steps, a_digest),
        reads(b_steps, b_digest),
        a.file.path != b.file.path,
        a_digest != b_digest,
        !a.engine().cache.tables.sources.contains_key(path::key(a.file.path)),
        !a.engine().cache.tables.sources.contains_key(path::key(b.file.path)),
        is_new(a.engine().cache.tables, a_archives[0], a_digest),
        is_new(a.engine().cache.tables, a_archives[0], b_digest),
        a_steps.last() == run::RunStepView::Handled(a_end, Ok(a_outcome)),
        b.engine() == a_end.engine(),
        b_archives[0] == a_archives.last(),
    ensures
        a_outcome == Outcome::Copied,
        b_steps.last() matches run::RunStepView::Handled(_, Ok(o)) ==> o == Outcome::Copied,
{
    lemma_is_copying(a, a_steps, a_archives, a_digest, a_steps.len() - 1);
    let t = a.engine().cache.tables;
    let u = b.engine().cache.tables;
    let (s, m) = choose|s: archive::StoredView, m: scan::Metadata|
        u == #[trigger] run::with_stored(t, a.file, a_digest, s, m);
    if path::key(a.file.path) == path::key(b.file.path) {
        path::law_keys_tell_paths_apart(a.file.path, b.file.path);
    }
    assert(is_new(u, b_archives[0], b_digest)) by {
        if cache::holds(u, b_digest) {
            let p = choose|p: Seq<char>| #[trigger]
                u.archived.contains_key(p) && u.archived[p].hash == b_digest;
            assert(t.archived.contains_key(p) && t.archived[p].hash == b_digest);
        }
    }
    law_new_content_is_copied(b, b_steps, b_archives, b_digest);
}

} // verus!
