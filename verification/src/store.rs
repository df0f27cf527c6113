//! Copying a file into the archive, one question at a time.
//!
//! Nothing in the archive is ever overwritten. A file goes to the name that it wants, unless that
//! name is taken; then a prefix of its content hash tells it apart, and if need be a longer one.
//! The hash rather than a counter, so the answer is the same on every run: a counter would
//! produce `-1`, `-2`, `-3` depending on the order files happened to be scanned.

use crate::archive;
use crate::archive::{name_of_copy, names_a_copy, Archive, ArchiveError, Stored};
use crate::hash;
use crate::hash::to_hex;
use crate::path;
use crate::path::{same_bytes, split_name, FilePath};
use crate::scan::{ErrorView, FileView};
use crate::text;
use crate::text::{assemble, characters, decode, decode_lossy};
use vstd::prelude::*;
use vstd::utf8::*;

verus! {

// ---------------------------------------------------------------------------------------------
// The names that a file may get.
// ---------------------------------------------------------------------------------------------

/// A part of a name in UTF-8: as it stands, or respelled where it is something else.
pub open spec fn spelled(part: Seq<u8>) -> Seq<u8> {
    if valid_utf8(part) {
        part
    } else {
        encode_utf8(text::utf8_lossy(part))
    }
}

/// The name with a suffix before its extension. A name that is not UTF-8 is respelled so that it
/// is, and an extension that is not UTF-8 is dropped.
pub open spec fn suffixed_name(name: Option<Seq<u8>>, suffix: Seq<char>) -> Seq<u8> {
    match name {
        None => seq![45u8] + encode_utf8(suffix),
        Some(n) => {
            let marked = spelled(path::stem(n)) + seq![45u8] + encode_utf8(suffix);
            match path::extension(n) {
                Some(e) => if valid_utf8(e) {
                    marked + seq![path::DOT] + e
                } else {
                    marked
                },
                None => marked,
            }
        },
    }
}

/// The path with a suffix before the extension of its last component.
pub open spec fn suffixed(p: Seq<u8>, suffix: Seq<char>) -> Seq<u8> {
    let dir = match path::parent(p) {
        Some(d) => d,
        None => Seq::empty(),
    };
    path::join(dir, suffixed_name(path::file_name(p), suffix))
}

/// The marked name stands where the name stood, and it is a name.
proof fn lemma_suffixed_components(p: Seq<u8>, suffix: Seq<char>)
    requires
        path::file_name(p) is Some,
        !suffix.contains('/'),
        !spelled(path::stem(path::file_name(p)->0)).contains(path::SLASH),
    ensures
        path::components(suffixed(p, suffix)) == path::components(p).drop_last().push(
            suffixed_name(path::file_name(p), suffix),
        ),
        path::is_name(suffixed_name(path::file_name(p), suffix)),
{
    let n = path::file_name(p)->0;
    let name = suffixed_name(Some(n), suffix);
    let front = spelled(path::stem(n));
    let back = encode_utf8(suffix);
    let c = path::components(p);
    path::lemma_component_plain(p, c.len() - 1);
    path::lemma_last_dot(n, n.len() as int);
    assert(47u8 as char == '/');
    if back.contains(47) {
        text::lemma_encode_ascii(suffix, 47);
    }
    assert forall|i: int| 0 <= i < name.len() implies name[i] != path::SLASH by {
        let m = front.len() + 1 + back.len();
        if i < front.len() {
            assert(name[i] == front[i]);
            assert(front.contains(front[i]));
        } else if front.len() < i < m {
            assert(name[i] == back[i - front.len() - 1]);
        } else if m < i {
            let e = path::extension(n)->0;
            let d = path::last_dot(n, n.len() as int);
            assert(name[i] == e[i - m - 1]);
            assert(e[i - m - 1] == n[d + 1 + (i - m - 1)]);
        }
    }
    assert(name[front.len() as int] == 45);
    path::lemma_single_component(name);
    let dir = path::parent(p);
    if c.len() == 1 {
        path::lemma_component_names(p);
        assert(dir == Some(Seq::<u8>::empty()));
        assert(path::join(Seq::empty(), name) =~= name);
        assert(c.drop_last().push(name) =~= seq![name]);
    } else {
        path::lemma_parent_components(p);
        path::lemma_spans_bounds(p);
        assert(dir->0.len() > 0);
        path::lemma_join_components(dir->0, name);
        assert(c.drop_last() + seq![name] =~= c.drop_last().push(name));
    }
}

/// The stem of a name holds no `/`.
proof fn lemma_stem_plain(p: Seq<u8>)
    requires
        path::file_name(p) is Some,
    ensures
        !path::stem(path::file_name(p)->0).contains(path::SLASH),
{
    let n = path::file_name(p)->0;
    path::lemma_last_dot(n, n.len() as int);
    path::lemma_component_plain(p, path::components(p).len() - 1);
    if path::stem(n).contains(path::SLASH) {
        let k = choose|k: int| 0 <= k < path::stem(n).len() && path::stem(n)[k] == path::SLASH;
        assert(n[k] == path::SLASH);
    }
}

/// Where a name has its last dot, its stem ends.
proof fn lemma_dot_at(f: Seq<u8>, d: int)
    requires
        -1 <= d < f.len(),
        d >= 0 ==> f[d] == path::DOT,
        forall|k: int| d < k < f.len() ==> f[k] != path::DOT,
    ensures
        path::last_dot(f, f.len() as int) == d,
{
    path::lemma_last_dot(f, f.len() as int);
}

/// Are these the digits of a number in hexadecimal notation?
pub open spec fn hex_digits(t: Seq<char>) -> bool {
    forall|i: int|
        0 <= i < t.len() ==> ('0' <= #[trigger] t[i] <= '9' || 'a' <= t[i] <= 'f')
}

proof fn lemma_hex_bytes(t: Seq<char>)
    requires
        hex_digits(t),
    ensures
        is_ascii_chars(t),
        encode_utf8(t).len() == t.len(),
        forall|i: int| 0 <= i < t.len() ==> encode_utf8(t)[i] == t[i] as u8,
        forall|i: int|
            0 <= i < t.len() ==> encode_utf8(t)[i] != path::DOT && encode_utf8(t)[i]
                != path::SLASH,
        !t.contains('/'),
{
    assert forall|i: int| 0 <= i < t.len() implies '\0' <= #[trigger] t[i] <= '\u{7f}' by {
        assert('0' <= t[i] <= '9' || 'a' <= t[i] <= 'f');
    }
    is_ascii_chars_encode_utf8(t);
    assert forall|i: int| 0 <= i < t.len() implies encode_utf8(t)[i] != path::DOT && encode_utf8(
        t,
    )[i] != path::SLASH by {
        assert('0' <= t[i] <= '9' || 'a' <= t[i] <= 'f');
    }
}

/// A marked name keeps its extension, and has the suffix behind its stem.
proof fn lemma_suffixed_name(n: Seq<u8>, s: Seq<char>)
    requires
        valid_utf8(path::stem(n)),
        path::extension(n) matches Some(e) ==> valid_utf8(e),
        hex_digits(s),
    ensures
        ({
            let m = suffixed_name(Some(n), s);
            &&& path::extension(m) == path::extension(n)
            &&& path::stem(m) == path::stem(n) + seq![45u8] + encode_utf8(s)
            &&& m.len() == n.len() + 1 + s.len()
        }),
{
    let m = suffixed_name(Some(n), s);
    lemma_hex_bytes(s);
    path::lemma_last_dot(n, n.len() as int);
    let d = path::last_dot(n, n.len() as int);
    let front = path::stem(n);
    let marked = front + seq![45u8] + encode_utf8(s);
    if d > 0 {
        let e = path::extension(n)->0;
        let at = marked.len() as int;
        assert(m == marked + seq![path::DOT] + e);
        assert forall|k: int| at < k < m.len() implies m[k] != path::DOT by {
            assert(m[k] == e[k - at - 1]);
            assert(e[k - at - 1] == n[d + 1 + (k - at - 1)]);
        }
        lemma_dot_at(m, at);
        assert(path::stem(m) =~= marked);
        assert(path::extension(m)->0 =~= e);
    } else {
        assert(m == marked);
        assert forall|k: int| d < k < m.len() implies m[k] != path::DOT by {
            if k < front.len() {
                assert(m[k] == n[k]);
            } else if k > front.len() {
                assert(m[k] == encode_utf8(s)[k - front.len() - 1]);
            }
        }
        lemma_dot_at(m, d);
    }
}

/// Different suffixes give different names.
proof fn lemma_suffixes_differ(n: Seq<u8>, s: Seq<char>, t: Seq<char>)
    requires
        valid_utf8(path::stem(n)),
        path::extension(n) matches Some(e) ==> valid_utf8(e),
        hex_digits(s),
        hex_digits(t),
        suffixed_name(Some(n), s) == suffixed_name(Some(n), t),
    ensures
        s == t,
{
    let m = suffixed_name(Some(n), s);
    let front = path::stem(n);
    lemma_hex_bytes(s);
    lemma_hex_bytes(t);
    lemma_suffixed_name(n, s);
    lemma_suffixed_name(n, t);
    let (x, y) = (path::stem(m), encode_utf8(t));
    assert forall|i: int| 0 <= i < s.len() implies s[i] == t[i] by {
        let k = front.len() + 1 + i;
        assert(x[k] == encode_utf8(s)[i]);
        assert(x[k] == y[i]);
        assert('0' <= s[i] <= '9' || 'a' <= s[i] <= 'f');
        assert('0' <= t[i] <= '9' || 'a' <= t[i] <= 'f');
    }
    assert(s =~= t);
}

/// A suffix marks the name and nothing else: the file stays in its directory and keeps its extension,
/// and behind its stem there is a `-` and the suffix. So the marked path is another one, and a
/// different one for each suffix. (Names that are not UTF-8 are respelled.)
pub proof fn law_a_suffix_marks_the_name(p: Seq<u8>, s: Seq<char>, t: Seq<char>)
    requires
        path::file_name(p) is Some,
        valid_utf8(path::stem(path::file_name(p)->0)),
        path::extension(path::file_name(p)->0) matches Some(e) ==> valid_utf8(e),
        hex_digits(s),
        hex_digits(t),
    ensures
        ({
            let n = path::file_name(p)->0;
            let q = suffixed(p, s);
            &&& path::parent(q) is Some
            &&& path::components(path::parent(q)->0) == path::components(path::parent(p)->0)
            &&& path::file_name(q) matches Some(m) && path::extension(m) == path::extension(n)
                && path::stem(m) == path::stem(n) + seq![45u8] + encode_utf8(s)
            &&& path::components(q) != path::components(p)
            &&& s != t ==> path::components(q) != path::components(suffixed(p, t))
        }),
{
    let n = path::file_name(p)->0;
    let q = suffixed(p, s);
    let m = suffixed_name(Some(n), s);
    let l = suffixed_name(Some(n), t);
    lemma_stem_plain(p);
    lemma_hex_bytes(s);
    lemma_hex_bytes(t);
    lemma_suffixed_components(p, s);
    lemma_suffixed_components(p, t);
    let c = path::components(p);
    assert(path::components(q).last() == m);
    assert(path::components(q).drop_last() =~= c.drop_last());
    path::lemma_component_names(p);
    path::lemma_component_names(q);
    path::lemma_parent_components(p);
    path::lemma_parent_components(q);
    lemma_suffixed_name(n, s);
    lemma_suffixed_name(n, t);
    assert(path::components(suffixed(p, t)).last() == l);
    if m == l {
        lemma_suffixes_differ(n, s, t);
    }
}

/// `IMG_1234.jpg` + `a19d4c7e` -> `IMG_1234-a19d4c7e.jpg`
///
/// The marked file stays in its directory.
pub fn with_suffix(p: &FilePath, suffix: &str) -> (marked: FilePath)
    ensures
        marked@ == suffixed(p@, suffix@),
        path::file_name(p@) is Some && !suffix@.contains('/') ==> path::components(marked@)
            == path::components(p@).drop_last().push(
            suffixed_name(path::file_name(p@), suffix@),
        ),
{
    let dir = match p.parent() {
        Some(d) => d,
        None => {
            let none: Vec<u8> = Vec::new();
            assert(none@ =~= Seq::<u8>::empty());
            FilePath::from_bytes(none)
        },
    };
    let mut tail = suffix.as_bytes_vec();
    let mut bytes: Vec<u8> = Vec::new();
    match p.file_name() {
        None => {
            bytes.push(45);
            bytes.append(&mut tail);
            assert(bytes@ =~= suffixed_name(None, suffix@));
        },
        Some(name) => {
            let (stem, extension) = split_name(name.as_slice());
            let front = decode_lossy(stem.as_slice());
            bytes = front.as_str().as_bytes_vec();
            bytes.push(45);
            bytes.append(&mut tail);
            proof {
                if valid_utf8(stem@) {
                    decode_utf8_encode_utf8(stem@);
                }
            }
            let ghost marked = spelled(path::stem(name@)) + seq![45u8] + encode_utf8(suffix@);
            assert(bytes@ =~= marked);
            proof {
                lemma_stem_plain(p@);
                if spelled(stem@).contains(path::SLASH) && !valid_utf8(stem@) {
                    assert(47u8 as char == '/');
                    text::lemma_encode_ascii(front@, 47);
                    let i = choose|i: int| 0 <= i < front@.len() && front@[i] == '/';
                    assert('/' as u8 == path::SLASH);
                    assert(stem@.contains(path::SLASH));
                }
                if !suffix@.contains('/') {
                    lemma_suffixed_components(p@, suffix@);
                }
            }
            match extension {
                Some(mut e) => {
                    let ghost ext = e@;
                    if decode(e.as_slice()).is_some() {
                        bytes.push(path::DOT);
                        bytes.append(&mut e);
                        assert(bytes@ =~= marked + seq![path::DOT] + ext);
                    }
                },
                None => {},
            }
        },
    }
    dir.join(&FilePath::from_bytes(bytes))
}

/// How far the name of a file was changed to tell it apart.
#[derive(Debug, Clone, Copy, PartialEq, Eq)]
pub enum Attempt {
    /// Not at all.
    Plain,
    /// By eight digits of its hash.
    Short,
    /// By sixteen digits of its hash.
    Medium,
    /// By its whole hash.
    Full,
}

/// The attempt that follows when a name is taken by other content.
pub open spec fn wider(a: Attempt) -> Option<Attempt> {
    match a {
        Attempt::Plain => Some(Attempt::Short),
        Attempt::Short => Some(Attempt::Medium),
        Attempt::Medium => Some(Attempt::Full),
        Attempt::Full => None,
    }
}

/// How many names are left to try.
pub open spec fn names_left(a: Attempt) -> nat {
    match a {
        Attempt::Plain => 3,
        Attempt::Short => 2,
        Attempt::Medium => 1,
        Attempt::Full => 0,
    }
}

/// The name that is tried.
pub open spec fn candidate(wanted: Seq<u8>, digest: Seq<u8>, a: Attempt) -> Seq<u8> {
    match a {
        Attempt::Plain => wanted,
        Attempt::Short => suffixed(wanted, hash::hex(digest).take(8)),
        Attempt::Medium => suffixed(wanted, hash::hex(digest).take(16)),
        Attempt::Full => suffixed(wanted, hash::hex(digest)),
    }
}

fn candidate_path(wanted: &FilePath, digest: &[u8; 32], a: Attempt) -> (p: FilePath)
    ensures
        p@ == candidate(wanted@, digest@, a),
{
    let width: usize = match a {
        Attempt::Plain => {
            return wanted.clone();
        },
        Attempt::Short => 8,
        Attempt::Medium => 16,
        Attempt::Full => 64,
    };
    let digits = to_hex(digest);
    let chars = characters(digits.as_str());
    let prefix = assemble(vstd::slice::slice_subrange(chars.as_slice(), 0, width));
    assert(prefix@ =~= hash::hex(digest@).take(width as int));
    assert(hash::hex(digest@).take(64) =~= hash::hex(digest@));
    with_suffix(wanted, prefix.as_str())
}

// ---------------------------------------------------------------------------------------------
// The steps.
// ---------------------------------------------------------------------------------------------

/// A file on its way into the archive. The caller's `context` travels along.
struct Job<C> {
    context: C,
    root: FilePath,
    source: FilePath,
    wanted: FilePath,
    digest: [u8; 32],
    size: u64,
    attempt: Attempt,
}

/// A file on its way into the archive, with its paths and its hash as bytes.
pub struct JobView {
    pub root: Seq<u8>,
    pub source: Seq<u8>,
    pub wanted: Seq<u8>,
    pub digest: Seq<u8>,
    pub size: u64,
    pub attempt: Attempt,
}

impl JobView {
    /// The name that is tried, relative to the archive root.
    pub open spec fn name(self) -> Seq<u8> {
        candidate(self.wanted, self.digest, self.attempt)
    }

    /// Where that is.
    pub open spec fn place(self) -> Seq<u8> {
        path::join(self.root, self.name())
    }

    /// Is this a place for copies that are not complete? No file is kept there: it would be removed as
    /// if an interrupted run had left it behind.
    pub open spec fn is_reserved(self) -> bool {
        archive::is_copy_path(self.place())
    }
}

impl<C> View for Job<C> {
    type V = JobView;

    closed spec fn view(&self) -> JobView {
        JobView {
            root: self.root@,
            source: self.source@,
            wanted: self.wanted@,
            digest: self.digest@,
            size: self.size,
            attempt: self.attempt,
        }
    }
}

/// The question how long the source file is. One stat of the source, so collision checks can rule
/// out differently-sized files without reading them.
pub struct SourceSize<C> {
    context: C,
    root: FilePath,
    source: FilePath,
    wanted: FilePath,
    digest: [u8; 32],
}

/// A [`SourceSize`] with its paths and its hash as bytes.
pub struct SourceSizeView {
    pub root: Seq<u8>,
    pub source: Seq<u8>,
    pub wanted: Seq<u8>,
    pub digest: Seq<u8>,
}

impl<C> View for SourceSize<C> {
    type V = SourceSizeView;

    closed spec fn view(&self) -> SourceSizeView {
        SourceSizeView {
            root: self.root@,
            source: self.source@,
            wanted: self.wanted@,
            digest: self.digest@,
        }
    }
}

/// The question whether a name in the archive is taken.
pub struct NameTaken<C> {
    job: Job<C>,
}

/// The question how long the file is that has taken the name.
pub struct TakenSize<C> {
    job: Job<C>,
}

/// The question what the hash of the file is that has taken the name.
pub struct TakenHash<C> {
    job: Job<C>,
}

/// The request to copy the file to a free name.
pub struct CopyFile<C> {
    job: Job<C>,
    dir: FilePath,
}

/// What became of the file.
pub struct StoreDone<C> {
    context: C,
    result: Result<Stored, ArchiveError>,
}

impl<C> View for NameTaken<C> {
    type V = JobView;

    closed spec fn view(&self) -> JobView {
        self.job@
    }
}

impl<C> View for TakenSize<C> {
    type V = JobView;

    closed spec fn view(&self) -> JobView {
        self.job@
    }
}

impl<C> View for TakenHash<C> {
    type V = JobView;

    closed spec fn view(&self) -> JobView {
        self.job@
    }
}

impl<C> View for CopyFile<C> {
    type V = (JobView, Seq<u8>);

    closed spec fn view(&self) -> (JobView, Seq<u8>) {
        (self.job@, self.dir@)
    }
}

impl<C> View for StoreDone<C> {
    type V = Result<archive::StoredView, archive::ArchiveErrorView>;

    closed spec fn view(&self) -> Result<archive::StoredView, archive::ArchiveErrorView> {
        stored(self.result)
    }
}

/// The outcome of storing a file, with its paths as bytes.
pub open spec fn stored(r: Result<Stored, ArchiveError>) -> Result<
    archive::StoredView,
    archive::ArchiveErrorView,
> {
    match r {
        Ok(s) => Ok(s@),
        Err(e) => Err(e@),
    }
}

/// What there is to do next for a file that is to be stored.
pub enum StoreStep<C> {
    /// Find out how long the source file is.
    SourceSize(SourceSize<C>),
    /// Find out whether there is anything at this place.
    Exists(NameTaken<C>),
    /// Find out how long the file at this place is.
    Size(TakenSize<C>),
    /// Hash the file at this place.
    Hash(TakenHash<C>),
    /// Copy the file.
    Copy(CopyFile<C>),
    /// Nothing.
    Done(StoreDone<C>),
}

/// A [`StoreStep`] with its paths and hashes as bytes.
pub enum StoreView {
    SourceSize(SourceSizeView),
    Exists(JobView),
    Size(JobView),
    Hash(JobView),
    Copy(JobView, Seq<u8>),
    Done(Result<archive::StoredView, archive::ArchiveErrorView>),
}

impl<C> View for StoreStep<C> {
    type V = StoreView;

    open spec fn view(&self) -> StoreView {
        match *self {
            StoreStep::SourceSize(q) => StoreView::SourceSize(q@),
            StoreStep::Exists(q) => StoreView::Exists(q@),
            StoreStep::Size(q) => StoreView::Size(q@),
            StoreStep::Hash(q) => StoreView::Hash(q@),
            StoreStep::Copy(q) => StoreView::Copy(q@.0, q@.1),
            StoreStep::Done(d) => StoreView::Done(d@),
        }
    }
}

impl<C> StoreStep<C> {
    /// What the caller sent along.
    pub closed spec fn context(self) -> C {
        match self {
            StoreStep::SourceSize(q) => q.context,
            StoreStep::Exists(q) => q.job.context,
            StoreStep::Size(q) => q.job.context,
            StoreStep::Hash(q) => q.job.context,
            StoreStep::Copy(q) => q.job.context,
            StoreStep::Done(d) => d.context,
        }
    }
}

// ---------------------------------------------------------------------------------------------
// What follows upon what.
// ---------------------------------------------------------------------------------------------

/// How storing a file begins.
pub open spec fn begin(
    root: Seq<u8>,
    source: Seq<u8>,
    source_root: Seq<u8>,
    digest: Seq<u8>,
) -> StoreView {
    match archive::target(source_root, source) {
        Some(wanted) => StoreView::SourceSize(SourceSizeView { root, source, wanted, digest }),
        None => StoreView::Done(Err(archive::ArchiveErrorView::OutsideSourceRoot(source))),
    }
}

/// The first name that is tried is the one that the file wants.
pub open spec fn after_source_size(q: SourceSizeView, size: Result<u64, std::io::Error>) -> StoreView {
    match size {
        Ok(n) => trying(
            JobView {
                root: q.root,
                source: q.source,
                wanted: q.wanted,
                digest: q.digest,
                size: n,
                attempt: Attempt::Plain,
            },
        ),
        Err(e) => StoreView::Done(Err(archive::ArchiveErrorView::Io(e))),
    }
}

/// A name is tried, unless it is reserved.
pub open spec fn trying(j: JobView) -> StoreView
    decreases names_left(j.attempt),
{
    if j.is_reserved() {
        match wider(j.attempt) {
            Some(attempt) => trying(JobView { attempt, ..j }),
            None => no_name(j),
        }
    } else {
        StoreView::Exists(j)
    }
}

/// There is no name for the file.
pub open spec fn no_name(j: JobView) -> StoreView {
    StoreView::Done(Err(archive::ArchiveErrorView::HashSuffixesExhausted(j.wanted)))
}

/// A free name is used.
pub open spec fn after_exists(j: JobView, exists: bool) -> StoreView {
    if exists {
        StoreView::Size(j)
    } else {
        copying(j)
    }
}

/// A file is copied into the directory that its name lies in.
pub open spec fn copying(j: JobView) -> StoreView {
    match path::parent(j.place()) {
        Some(dir) => StoreView::Copy(j, dir),
        None => StoreView::Done(
            Err(archive::ArchiveErrorView::MalformedConfig("target has no parent"@)),
        ),
    }
}

/// Two files of different lengths cannot hold the same bytes, so a mismatch settles it without
/// opening anything. Only when sizes agree is it worth reading the file to hash it.
pub open spec fn after_size(j: JobView, size: Result<u64, std::io::Error>) -> StoreView {
    match size {
        Ok(n) => if n == j.size {
            StoreView::Hash(j)
        } else {
            next_name(j)
        },
        Err(e) => StoreView::Done(Err(archive::ArchiveErrorView::Io(e))),
    }
}

/// A file of this very content is there already, or the name is taken by another one.
pub open spec fn after_hash(j: JobView, digest: Result<Seq<u8>, std::io::Error>) -> StoreView {
    match digest {
        Ok(d) => if d == j.digest {
            StoreView::Done(Ok(archive::StoredView::AlreadyThere(j.name())))
        } else {
            next_name(j)
        },
        Err(e) => StoreView::Done(Err(archive::ArchiveErrorView::Io(e))),
    }
}

/// Same name, different bytes: a longer prefix of the hash, as long as there is one.
pub open spec fn next_name(j: JobView) -> StoreView {
    match wider(j.attempt) {
        Some(attempt) => trying(JobView { attempt, ..j }),
        None => no_name(j),
    }
}

pub open spec fn after_copy(j: JobView, copied: Result<(), std::io::Error>) -> StoreView {
    match copied {
        Ok(_) => StoreView::Done(Ok(archive::StoredView::Written(j.name()))),
        Err(e) => StoreView::Done(Err(archive::ArchiveErrorView::Io(e))),
    }
}

/// An answer with its hash as bytes.
pub open spec fn digest_read(digest: Result<[u8; 32], std::io::Error>) -> Result<
    Seq<u8>,
    std::io::Error,
> {
    match digest {
        Ok(d) => Ok(d@),
        Err(e) => Err(e),
    }
}

impl Archive {
    /// Copy a file into the archive, resolving name collisions.
    ///
    /// `digest` is the caller's already-computed hash of `source`; recomputing it here would mean
    /// reading every file twice.
    pub fn store(&self, source: &FilePath, source_root: &FilePath, digest: &[u8; 32]) -> (step:
        StoreStep<()>)
        ensures
            step@ == begin(self@.root, source@, source_root@, digest@),
    {
        self.store_for((), source, source_root, digest)
    }

    /// [`Archive::store`], with something of the caller's that travels along.
    pub fn store_for<C>(
        &self,
        context: C,
        source: &FilePath,
        source_root: &FilePath,
        digest: &[u8; 32],
    ) -> (step: StoreStep<C>)
        ensures
            step@ == begin(self@.root, source@, source_root@, digest@),
            step.context() == context,
    {
        match self.target_path(source_root, source) {
            Ok(wanted) => StoreStep::SourceSize(
                SourceSize {
                    context,
                    root: self.root().clone(),
                    source: source.clone(),
                    wanted,
                    digest: *digest,
                },
            ),
            Err(e) => StoreStep::Done(StoreDone { context, result: Err(e) }),
        }
    }
}

impl<C> SourceSize<C> {
    /// The file to measure.
    pub fn path(&self) -> (p: &FilePath)
        ensures
            p@ == self@.source,
    {
        &self.source
    }

    pub fn answer(self, size: Result<u64, std::io::Error>) -> (step: StoreStep<C>)
        ensures
            step@ == after_source_size(self@, size),
            step.context() == StoreStep::SourceSize(self).context(),
    {
        match size {
            Ok(size) => {
                let job = Job {
                    context: self.context,
                    root: self.root,
                    source: self.source,
                    wanted: self.wanted,
                    digest: self.digest,
                    size,
                    attempt: Attempt::Plain,
                };
                job.try_name()
            },
            Err(e) => StoreStep::Done(
                StoreDone { context: self.context, result: Err(ArchiveError::Io(e)) },
            ),
        }
    }
}

impl<C> Job<C> {
    fn name(&self) -> (p: FilePath)
        ensures
            p@ == self@.name(),
    {
        candidate_path(&self.wanted, &self.digest, self.attempt)
    }

    fn place(&self) -> (p: FilePath)
        ensures
            p@ == self@.place(),
    {
        let name = self.name();
        self.root.join(&name)
    }

    fn failed(self, error: ArchiveError) -> (step: StoreStep<C>)
        ensures
            step@ == StoreView::Done(Err(error@)),
            step.context() == self.context,
    {
        StoreStep::Done(StoreDone { context: self.context, result: Err(error) })
    }

    fn is_reserved(&self) -> (reserved: bool)
        ensures
            reserved == self@.is_reserved(),
    {
        match self.place().file_name() {
            Some(name) => names_a_copy(name.as_slice()),
            None => false,
        }
    }

    fn try_name(self) -> (step: StoreStep<C>)
        ensures
            step@ == trying(self@),
            step.context() == self.context,
        decreases names_left(self.attempt), 1nat,
    {
        if self.is_reserved() {
            self.next_name()
        } else {
            StoreStep::Exists(NameTaken { job: self })
        }
    }

    fn next_name(self) -> (step: StoreStep<C>)
        ensures
            step@ == next_name(self@),
            step.context() == self.context,
        decreases names_left(self.attempt), 0nat,
    {
        let attempt = match self.attempt {
            Attempt::Plain => Attempt::Short,
            Attempt::Short => Attempt::Medium,
            Attempt::Medium => Attempt::Full,
            Attempt::Full => {
                let wanted = self.wanted.clone();
                return self.failed(ArchiveError::HashSuffixesExhausted(wanted));
            },
        };
        let job = Job { attempt, ..self };
        job.try_name()
    }
}

impl<C> NameTaken<C> {
    /// The place to look at.
    pub fn path(&self) -> (p: FilePath)
        ensures
            p@ == self@.place(),
    {
        self.job.place()
    }

    pub fn answer(self, exists: bool) -> (step: StoreStep<C>)
        ensures
            step@ == after_exists(self@, exists),
            step.context() == StoreStep::Exists(self).context(),
    {
        let job = self.job;
        if exists {
            return StoreStep::Size(TakenSize { job });
        }
        match job.place().parent() {
            Some(dir) => StoreStep::Copy(CopyFile { job, dir }),
            None => job.failed(ArchiveError::MalformedConfig("target has no parent".to_owned())),
        }
    }
}

impl<C> TakenSize<C> {
    /// The file to measure.
    pub fn path(&self) -> (p: FilePath)
        ensures
            p@ == self@.place(),
    {
        self.job.place()
    }

    pub fn answer(self, size: Result<u64, std::io::Error>) -> (step: StoreStep<C>)
        ensures
            step@ == after_size(self@, size),
            step.context() == StoreStep::Size(self).context(),
    {
        let job = self.job;
        match size {
            Ok(n) => {
                if n == job.size {
                    StoreStep::Hash(TakenHash { job })
                } else {
                    job.next_name()
                }
            },
            Err(e) => job.failed(ArchiveError::Io(e)),
        }
    }
}

impl<C> TakenHash<C> {
    /// The file to hash.
    pub fn path(&self) -> (p: FilePath)
        ensures
            p@ == self@.place(),
    {
        self.job.place()
    }

    pub fn answer(self, digest: Result<[u8; 32], std::io::Error>) -> (step: StoreStep<C>)
        ensures
            step@ == after_hash(self@, digest_read(digest)),
            step.context() == StoreStep::Hash(self).context(),
    {
        let job = self.job;
        match digest {
            Ok(d) => {
                if same_bytes(d.as_slice(), job.digest.as_slice()) {
                    let name = job.name();
                    StoreStep::Done(
                        StoreDone { context: job.context, result: Ok(Stored::AlreadyThere(name)) },
                    )
                } else {
                    job.next_name()
                }
            },
            Err(e) => job.failed(ArchiveError::Io(e)),
        }
    }
}

impl<C> CopyFile<C> {
    /// The file to copy.
    pub fn source(&self) -> (p: &FilePath)
        ensures
            p@ == self@.0.source,
    {
        &self.job.source
    }

    /// Where its copy goes.
    pub fn dest(&self) -> (p: FilePath)
        ensures
            p@ == self@.0.place(),
    {
        self.job.place()
    }

    /// The directory that has to be there for it.
    pub fn dir(&self) -> (p: &FilePath)
        ensures
            p@ == self@.1,
    {
        &self.dir
    }

    /// The name under which process `pid` writes the copy before it is complete. A crash
    /// mid-copy leaves this file rather than a truncated photo sitting under a name that claims
    /// to be complete.
    pub fn temp(&self, pid: u32) -> (p: FilePath)
        ensures
            p@ == temp_path(self@.1, pid),
    {
        let name = name_of_copy(pid);
        self.dir.join(&FilePath::from_text(name.as_str()))
    }

    pub fn answer(self, copied: Result<(), std::io::Error>) -> (step: StoreStep<C>)
        ensures
            step@ == after_copy(self@.0, copied),
            step.context() == StoreStep::Copy(self).context(),
    {
        let job = self.job;
        match copied {
            Ok(_) => {
                let name = job.name();
                StoreStep::Done(
                    StoreDone { context: job.context, result: Ok(Stored::Written(name)) },
                )
            },
            Err(e) => job.failed(ArchiveError::Io(e)),
        }
    }
}

impl<C> StoreDone<C> {
    /// What the caller sent along, and what became of the file.
    pub fn into_parts(self) -> (parts: (C, Result<Stored, ArchiveError>))
        ensures
            parts.0 == StoreStep::Done(self).context(),
            stored(parts.1) == self@,
    {
        (self.context, self.result)
    }
}

/// The name under which a process writes a copy before it is complete.
pub open spec fn temp_path(dir: Seq<u8>, pid: u32) -> Seq<u8> {
    path::join(dir, archive::copy_name(pid))
}

/// A copy that was interrupted is swept, and is never taken for an archived file.
pub proof fn law_unfinished_copies_are_swept(dir: Seq<u8>, pid: u32, root: Seq<u8>, file: FileView)
    requires
        file.path == temp_path(dir, pid),
    ensures
        archive::is_stray(Ok(file)),
        archive::listed(root, Ok(file)) is None,
{
    let name = archive::copy_name(pid);
    archive::lemma_copy_name(pid);
    path::lemma_single_component(name);
    assert(name.len() > 2);
    if dir.len() == 0 {
        assert(path::join(dir, name) =~= name);
    } else {
        path::lemma_join_components(dir, name);
    }
    assert(path::components(file.path).last() == name);
}

// ---------------------------------------------------------------------------------------------
// What holds of an archive that nobody else touches.
// ---------------------------------------------------------------------------------------------

/// What a file holds, as far as storing another one is concerned.
pub struct Content {
    pub size: u64,
    pub digest: Seq<u8>,
}

/// Where a file ends up among the files that are there: at the first of its names that is free or
/// holds its content, and is not reserved.
pub open spec fn settled(files: Map<Seq<u8>, Content>, j: JobView) -> StoreView
    decreases names_left(j.attempt),
{
    if !j.is_reserved() && !files.contains_key(j.place()) {
        copying(j)
    } else if !j.is_reserved() && files[j.place()] == (Content { size: j.size, digest: j.digest }) {
        StoreView::Done(Ok(archive::StoredView::AlreadyThere(j.name())))
    } else {
        match wider(j.attempt) {
            Some(attempt) => settled(files, JobView { attempt, ..j }),
            None => no_name(j),
        }
    }
}

/// One question, answered truthfully.
pub open spec fn answered(files: Map<Seq<u8>, Content>, step: StoreView) -> StoreView {
    match step {
        StoreView::Exists(j) => after_exists(j, files.contains_key(j.place())),
        StoreView::Size(j) => after_size(j, Ok(files[j.place()].size)),
        StoreView::Hash(j) => after_hash(j, Ok(files[j.place()].digest)),
        _ => step,
    }
}

/// Questions, answered truthfully, up to a number of them.
pub open spec fn driven(files: Map<Seq<u8>, Content>, step: StoreView, rounds: nat) -> StoreView
    decreases rounds,
{
    if rounds == 0 {
        step
    } else {
        driven(files, answered(files, step), (rounds - 1) as nat)
    }
}

proof fn lemma_driven_settles(files: Map<Seq<u8>, Content>, j: JobView, rounds: nat)
    requires
        rounds >= 3 * names_left(j.attempt) + 3,
    ensures
        driven(files, trying(j), rounds) == settled(files, j),
    decreases names_left(j.attempt), 1nat,
{
    if j.is_reserved() {
        match wider(j.attempt) {
            Some(attempt) => {
                lemma_driven_settles(files, JobView { attempt, ..j }, rounds);
            },
            None => {
                lemma_driven_rests(files, trying(j), rounds);
            },
        }
    } else {
        lemma_exists_settles(files, j, rounds);
    }
}

proof fn lemma_exists_settles(files: Map<Seq<u8>, Content>, j: JobView, rounds: nat)
    requires
        rounds >= 3 * names_left(j.attempt) + 3,
        !j.is_reserved(),
    ensures
        driven(files, StoreView::Exists(j), rounds) == settled(files, j),
    decreases names_left(j.attempt), 0nat,
{
    let r1 = (rounds - 1) as nat;
    let r2 = (rounds - 2) as nat;
    let r3 = (rounds - 3) as nat;
    let s1 = answered(files, StoreView::Exists(j));
    assert(driven(files, StoreView::Exists(j), rounds) == driven(files, s1, r1));
    if !files.contains_key(j.place()) {
        lemma_driven_rests(files, s1, r1);
    } else {
        let s2 = answered(files, s1);
        assert(driven(files, s1, r1) == driven(files, s2, r2));
        if files[j.place()].size != j.size {
            match wider(j.attempt) {
                Some(attempt) => {
                    lemma_driven_settles(files, JobView { attempt, ..j }, r2);
                },
                None => {
                    lemma_driven_rests(files, s2, r2);
                },
            }
        } else {
            let s3 = answered(files, s2);
            assert(driven(files, s2, r2) == driven(files, s3, r3));
            if files[j.place()].digest == j.digest {
                lemma_driven_rests(files, s3, r3);
            } else {
                match wider(j.attempt) {
                    Some(attempt) => {
                        lemma_driven_settles(files, JobView { attempt, ..j }, r3);
                    },
                    None => {
                        lemma_driven_rests(files, s3, r3);
                    },
                }
            }
        }
    }
}

proof fn lemma_driven_rests(files: Map<Seq<u8>, Content>, step: StoreView, rounds: nat)
    requires
        step is Copy || step is Done,
    ensures
        driven(files, step, rounds) == step,
    decreases rounds,
{
    if rounds > 0 {
        lemma_driven_rests(files, step, (rounds - 1) as nat);
    }
}

/// Looking for a name comes to an end: after at most three questions for each of four names the
/// file is known to be there, is to be copied, or has no name.
pub proof fn law_a_name_is_found(files: Map<Seq<u8>, Content>, j: JobView)
    requires
        j.attempt == Attempt::Plain,
    ensures
        driven(files, trying(j), 12) == settled(files, j),
        settled(files, j) is Copy || settled(files, j) is Done,
{
    lemma_driven_settles(files, j, 12);
    lemma_settled(files, j);
}

proof fn lemma_settled(files: Map<Seq<u8>, Content>, j: JobView)
    ensures
        settled(files, j) is Copy || settled(files, j) is Done,
        settled(files, j) matches StoreView::Copy(k, d) ==> {
            &&& k == (JobView { attempt: k.attempt, ..j })
            &&& !files.contains_key(k.place())
            &&& path::parent(k.place()) == Some(d)
            &&& !k.is_reserved()
        },
        settled(files, j) matches StoreView::Done(Ok(s)) ==> {
            &&& s is AlreadyThere
            &&& files.contains_key(path::join(j.root, s.path()))
            &&& files[path::join(j.root, s.path())] == (Content { size: j.size, digest: j.digest })
            &&& !archive::is_copy_path(path::join(j.root, s.path()))
        },
    decreases names_left(j.attempt),
{
    match wider(j.attempt) {
        Some(attempt) => {
            lemma_settled(files, JobView { attempt, ..j });
        },
        None => {},
    }
}

/// Nothing is ever overwritten: a file is only copied to a place where nothing is.
pub proof fn law_nothing_is_overwritten(files: Map<Seq<u8>, Content>, j: JobView)
    ensures
        settled(files, j) matches StoreView::Copy(k, d) ==> !files.contains_key(k.place())
            && path::parent(k.place()) == Some(d),
{
    lemma_settled(files, j);
}

/// A file that is said to be there already is there, with these very contents.
pub proof fn law_already_there_holds_the_content(files: Map<Seq<u8>, Content>, j: JobView)
    ensures
        settled(files, j) matches StoreView::Done(Ok(s)) ==> {
            &&& s is AlreadyThere
            &&& files.contains_key(path::join(j.root, s.path()))
            &&& files[path::join(j.root, s.path())] == (Content { size: j.size, digest: j.digest })
        },
{
    lemma_settled(files, j);
}

/// Storing the same content under the same name again finds the copy that was made.
pub proof fn law_storing_twice_copies_once(files: Map<Seq<u8>, Content>, j: JobView)
    ensures
        settled(files, j) matches StoreView::Copy(k, d) ==> settled(
            files.insert(k.place(), Content { size: j.size, digest: j.digest }),
            j,
        ) == StoreView::Done(Ok(archive::StoredView::AlreadyThere(k.name()))),
    decreases names_left(j.attempt),
{
    lemma_settled(files, j);
    match wider(j.attempt) {
        Some(attempt) => {
            law_storing_twice_copies_once(files, JobView { attempt, ..j });
        },
        None => {},
    }
}

/// Two different files that want the same name both survive: when the name is taken by other
/// content, the copy goes to another place.
pub proof fn law_same_name_both_survive(files: Map<Seq<u8>, Content>, j: JobView)
    requires
        files.contains_key(j.place()),
        files[j.place()] != (Content { size: j.size, digest: j.digest }),
    ensures
        settled(files, j) matches StoreView::Copy(k, d) ==> k.place() != j.place(),
        settled(files, j) matches StoreView::Done(Ok(s)) ==> path::join(j.root, s.path())
            != j.place(),
{
    lemma_settled(files, j);
}

/// What storing a file of this size comes to among the files that are there, if nothing fails; and
/// the files that are there then.
pub open spec fn stored_among(
    files: Map<Seq<u8>, Content>,
    root: Seq<u8>,
    source: Seq<u8>,
    source_root: Seq<u8>,
    digest: Seq<u8>,
    size: u64,
) -> (Result<archive::StoredView, archive::ArchiveErrorView>, Map<Seq<u8>, Content>) {
    match archive::target(source_root, source) {
        None => (Err(archive::ArchiveErrorView::OutsideSourceRoot(source)), files),
        Some(wanted) => {
            let j = JobView { root, source, wanted, digest, size, attempt: Attempt::Plain };
            match settled(files, j) {
                StoreView::Copy(k, _) => (
                    Ok(archive::StoredView::Written(k.name())),
                    files.insert(k.place(), Content { size, digest }),
                ),
                step => (step->Done_0, files),
            }
        },
    }
}

/// What storing a file comes to, case by case.
pub proof fn lemma_stored_among(
    files: Map<Seq<u8>, Content>,
    root: Seq<u8>,
    source: Seq<u8>,
    source_root: Seq<u8>,
    digest: Seq<u8>,
    size: u64,
)
    ensures
        ({
            let (result, then) = stored_among(files, root, source, source_root, digest, size);
            match result {
                Ok(s) => {
                    let place = path::join(root, s.path());
                    &&& !archive::is_copy_path(place)
                    &&& match s {
                        archive::StoredView::Written(_) => !files.contains_key(place) && then
                            == files.insert(place, Content { size, digest }),
                        archive::StoredView::AlreadyThere(_) => files.contains_key(place)
                            && files[place] == (Content { size, digest }) && then == files,
                    }
                },
                Err(_) => then == files,
            }
        }),
{
    match archive::target(source_root, source) {
        None => {},
        Some(wanted) => {
            let j = JobView { root, source, wanted, digest, size, attempt: Attempt::Plain };
            lemma_settled(files, j);
        },
    }
}

/// Where storing succeeds, the archive holds the content at the place that is named. Whatever comes
/// of it, every file that was there is there still, unchanged.
pub proof fn law_stored_content_is_there(
    files: Map<Seq<u8>, Content>,
    root: Seq<u8>,
    source: Seq<u8>,
    source_root: Seq<u8>,
    digest: Seq<u8>,
    size: u64,
)
    ensures
        ({
            let (result, then) = stored_among(files, root, source, source_root, digest, size);
            &&& files.submap_of(then)
            &&& result matches Ok(s) ==> {
                &&& then.contains_key(path::join(root, s.path()))
                &&& then[path::join(root, s.path())] == (Content { size, digest })
            }
        }),
{
    lemma_stored_among(files, root, source, source_root, digest, size);
}

/// No archived file is ever taken for a copy that an interrupted run left behind: where a file is
/// stored, no sweep removes it.
pub proof fn law_no_archived_file_is_a_stray(
    files: Map<Seq<u8>, Content>,
    root: Seq<u8>,
    source: Seq<u8>,
    source_root: Seq<u8>,
    digest: Seq<u8>,
    size: u64,
    found: Seq<Result<FileView, ErrorView>>,
)
    ensures
        stored_among(files, root, source, source_root, digest, size).0 matches Ok(s) ==> {
            &&& !archive::is_copy_path(path::join(root, s.path()))
            &&& !archive::strays(found).contains(path::join(root, s.path()))
        },
{
    archive::lemma_strays(found);
    lemma_stored_among(files, root, source, source_root, digest, size);
}

/// Does a path end in these bytes?
spec fn ends_in(p: Seq<u8>, tail: Seq<u8>) -> bool {
    tail.len() <= p.len() && tail == p.skip(p.len() - tail.len())
}

/// A path that ends in so many bytes without a `/` is not that of a copy.
proof fn lemma_long_tail(p: Seq<u8>, tail: Seq<u8>)
    requires
        25 < tail.len(),
        ends_in(p, tail),
        forall|i: int| 0 <= i < tail.len() ==> tail[i] != path::SLASH,
    ensures
        !archive::is_copy_path(p),
{
    let from = p.len() - tail.len();
    assert forall|i: int| from <= i < p.len() implies p[i] != path::SLASH by {
        assert(p[i] == tail[i - from]);
    }
    let k = path::lemma_last_slash(p, from);
    path::lemma_last_component(p, k);
    if archive::is_copy_path(p) {
        let pid = choose|pid: u32| p.skip(k) == #[trigger] archive::copy_name(pid);
        archive::lemma_copy_name(pid);
    }
}

/// What stands behind the stem of a marked name.
spec fn mark(name: Option<Seq<u8>>, suffix: Seq<char>) -> Seq<u8> {
    let marked = seq![45u8] + encode_utf8(suffix);
    match name {
        None => marked,
        Some(n) => match path::extension(n) {
            Some(e) => if valid_utf8(e) {
                marked + seq![path::DOT] + e
            } else {
                marked
            },
            None => marked,
        },
    }
}

proof fn lemma_mark(p: Seq<u8>, s: Seq<char>)
    requires
        hex_digits(s),
    ensures
        ({
            let tail = mark(path::file_name(p), s);
            let m = suffixed_name(path::file_name(p), s);
            &&& s.len() < tail.len()
            &&& ends_in(m, tail)
            &&& forall|i: int| 0 <= i < tail.len() ==> tail[i] != path::SLASH
        }),
{
    lemma_hex_bytes(s);
    let name = path::file_name(p);
    let tail = mark(name, s);
    let m = suffixed_name(name, s);
    let back = encode_utf8(s);
    assert(tail =~= m.skip(m.len() - tail.len()));
    assert forall|i: int| 0 <= i < tail.len() implies tail[i] != path::SLASH by {
        if 0 < i <= back.len() {
            assert(tail[i] == back[i - 1]);
        } else if i > back.len() + 1 {
            let n = name->0;
            let e = path::extension(n)->0;
            let k = i - back.len() - 2;
            path::lemma_last_dot(n, n.len() as int);
            path::lemma_component_plain(p, path::components(p).len() - 1);
            assert(tail[i] == e[k]);
            assert(e[k] == n[path::last_dot(n, n.len() as int) + 1 + k]);
        }
    }
}

/// A joined path ends as the second one does.
proof fn lemma_join_ends(a: Seq<u8>, b: Seq<u8>, tail: Seq<u8>)
    requires
        ends_in(b, tail),
    ensures
        ends_in(path::join(a, b), tail),
{
    let p = path::join(a, b);
    assert(b =~= p.skip(p.len() - b.len()));
    assert(tail =~= p.skip(p.len() - tail.len()));
}

/// The name with the whole hash is never reserved: there is always a name to try.
pub proof fn law_the_whole_hash_is_not_reserved(j: JobView)
    requires
        j.digest.len() == 32,
        j.attempt == Attempt::Full,
    ensures
        !j.is_reserved(),
{
    let s = hash::hex(j.digest);
    lemma_hex_digits(j.digest);
    lemma_mark(j.wanted, s);
    let name = path::file_name(j.wanted);
    let dir = match path::parent(j.wanted) {
        Some(d) => d,
        None => Seq::empty(),
    };
    let m = suffixed_name(name, s);
    let tail = mark(name, s);
    lemma_join_ends(dir, m, tail);
    lemma_join_ends(j.root, suffixed(j.wanted, s), tail);
    lemma_long_tail(j.place(), tail);
}

proof fn lemma_hex_digits(bytes: Seq<u8>)
    ensures
        hex_digits(hash::hex(bytes)),
        hash::hex(bytes).len() == 2 * bytes.len(),
{
    let t = hash::hex(bytes);
    assert forall|i: int| 0 <= i < t.len() implies ('0' <= #[trigger] t[i] <= '9' || 'a' <= t[i]
        <= 'f') by {
        let n = if i % 2 == 0 {
            bytes[i / 2] as int / 16
        } else {
            bytes[i / 2] as int % 16
        };
        assert(t[i] == hash::hex_digit(n));
    }
}

/// A file is only turned away when each of its names is taken by other content, or reserved. (The
/// last one never is.)
pub proof fn law_every_name_is_tried(files: Map<Seq<u8>, Content>, j: JobView, a: Attempt)
    requires
        settled(files, j) matches StoreView::Done(
            Err(archive::ArchiveErrorView::HashSuffixesExhausted(_)),
        ),
        names_left(a) <= names_left(j.attempt),
    ensures
        ({
            let k = JobView { attempt: a, ..j };
            ||| k.is_reserved()
            ||| files.contains_key(k.place()) && files[k.place()] != (Content {
                size: j.size,
                digest: j.digest,
            })
        }),
    decreases names_left(j.attempt),
{
    if a == j.attempt {
        assert((JobView { attempt: a, ..j }) == j);
    } else {
        match wider(j.attempt) {
            Some(attempt) => {
                let next = JobView { attempt, ..j };
                law_every_name_is_tried(files, next, a);
                assert((JobView { attempt: a, ..next }) == (JobView { attempt: a, ..j }));
            },
            None => {},
        }
    }
}

/// By their whole hashes, different contents that want one name are told apart.
pub proof fn law_whole_hashes_tell_apart(wanted: Seq<u8>, a: Seq<u8>, b: Seq<u8>)
    requires
        a.len() == b.len(),
        a != b,
    ensures
        candidate(wanted, a, Attempt::Full) != candidate(wanted, b, Attempt::Full),
{
    let (x, y) = (hash::hex(a), hash::hex(b));
    if x == y {
        hash::law_hex_injective(a, b);
    }
    encode_utf8_decode_utf8(x);
    encode_utf8_decode_utf8(y);
    let (ex, ey) = (encode_utf8(x), encode_utf8(y));
    let name = path::file_name(wanted);
    let (m, n) = (suffixed_name(name, x), suffixed_name(name, y));
    let front = match name {
        None => Seq::<u8>::empty(),
        Some(f) => spelled(path::stem(f)),
    };
    let mark = front + seq![45u8];
    let back = match name {
        None => Seq::<u8>::empty(),
        Some(f) => match path::extension(f) {
            Some(e) => if valid_utf8(e) {
                seq![path::DOT] + e
            } else {
                Seq::empty()
            },
            None => Seq::empty(),
        },
    };
    assert(m =~= mark + ex + back);
    assert(n =~= mark + ey + back);
    lemma_hex_digits(a);
    lemma_hex_digits(b);
    lemma_hex_bytes(x);
    lemma_hex_bytes(y);
    if m == n {
        let from = mark.len() as int;
        let to = from + ex.len();
        assert(ex =~= m.subrange(from, to));
        assert(ey =~= n.subrange(from, to));
    }
    assert(m[0] == mark[0] && n[0] == mark[0]);
    let dir = match path::parent(wanted) {
        Some(d) => d,
        None => Seq::empty(),
    };
    let (p, q) = (path::join(dir, m), path::join(dir, n));
    if p == q && !path::is_absolute(m) {
        let k = p.len() - m.len();
        assert(m =~= p.skip(k));
        assert(n =~= q.skip(k));
    }
}

/// The name that a file gets depends on nothing but the file and what its own names hold: not on
/// the order in which files arrive.
pub proof fn law_names_do_not_depend_on_order(
    files: Map<Seq<u8>, Content>,
    others: Map<Seq<u8>, Content>,
    j: JobView,
)
    requires
        forall|a: Attempt|
            {
                let at = #[trigger] (JobView { attempt: a, ..j }).place();
                &&& files.contains_key(at) == others.contains_key(at)
                &&& files.contains_key(at) ==> files[at] == others[at]
            },
    ensures
        settled(files, j) == settled(others, j),
    decreases names_left(j.attempt),
{
    assert((JobView { attempt: j.attempt, ..j }).place() == j.place());
    match wider(j.attempt) {
        Some(attempt) => {
            let next = JobView { attempt, ..j };
            assert forall|a: Attempt|
                {
                    let at = #[trigger] (JobView { attempt: a, ..next }).place();
                    &&& files.contains_key(at) == others.contains_key(at)
                    &&& files.contains_key(at) ==> files[at] == others[at]
                } by {
                assert((JobView { attempt: a, ..next }) == (JobView { attempt: a, ..j }));
            }
            law_names_do_not_depend_on_order(files, others, next);
        },
        None => {},
    }
}

// ---------------------------------------------------------------------------------------------
// What storing a file promises.
// ---------------------------------------------------------------------------------------------

/// Can a file be kept at this place: has it a directory, and not the name of a copy that is not complete?
pub open spec fn is_usable(place: Seq<u8>) -> bool {
    &&& path::parent(place) is Some
    &&& !(path::file_name(place) matches Some(name) && archive::is_unfinished(name))
}

/// The names that a file may get, in this order: the one that it wants, and that one marked with eight,
/// with sixteen and with all digits of its hash.
pub open spec fn names_of(wanted: Seq<u8>, digest: Seq<u8>) -> Seq<Seq<u8>> {
    let digits = hash::hex(digest);
    seq![
        wanted,
        suffixed(wanted, digits.subrange(0, 8)),
        suffixed(wanted, digits.subrange(0, 16)),
        suffixed(wanted, digits),
    ]
}

/// Does this place not do for a file: is it reserved, or taken by other content?
pub open spec fn is_no_place(
    files: Map<Seq<u8>, Content>,
    place: Seq<u8>,
    size: u64,
    digest: Seq<u8>,
) -> bool {
    ||| path::file_name(place) matches Some(name) && archive::is_unfinished(name)
    ||| files.contains_key(place) && (files[place].size != size || files[place].digest != digest)
}

proof fn lemma_reserved(j: JobView)
    ensures
        j.is_reserved() == (path::file_name(j.place()) matches Some(name)
            && archive::is_unfinished(name)),
{
    if let Some(name) = path::file_name(j.place()) {
        archive::lemma_unfinished(name);
    }
}

/// A file gets the first of its names that does: where nothing is at that place, the file is copied to
/// exactly there, and where its very content is there, nothing is copied. In particular it keeps its own
/// name, in its own folder, if nothing else has taken that.
pub proof fn law_the_first_name_that_does_is_used(
    files: Map<Seq<u8>, Content>,
    root: Seq<u8>,
    source: Seq<u8>,
    source_root: Seq<u8>,
    wanted: Seq<u8>,
    digest: Seq<u8>,
    size: u64,
    n: int,
)
    requires
        archive::target(source_root, source) == Some(wanted),
        digest.len() == 32,
        0 <= n < 4,
        forall|k: int|
            0 <= k < n ==> is_no_place(
                files,
                path::join(root, #[trigger] names_of(wanted, digest)[k]),
                size,
                digest,
            ),
        is_usable(path::join(root, names_of(wanted, digest)[n])),
    ensures
        ({
            let name = names_of(wanted, digest)[n];
            let place = path::join(root, name);
            let (result, then) = stored_among(files, root, source, source_root, digest, size);
            &&& !files.contains_key(place) ==> {
                &&& result matches Ok(archive::StoredView::Written(p)) && p == name
                &&& then.contains_key(place) && then[place].size == size && then[place].digest
                    == digest
                &&& forall|q: Seq<u8>| q != place ==> then.contains_key(q) == files.contains_key(q)
                    && (files.contains_key(q) ==> then[q] == files[q])
            }
            &&& files.contains_key(place) && files[place].size == size && files[place].digest
                == digest ==> {
                &&& result matches Ok(archive::StoredView::AlreadyThere(p)) && p == name
                &&& then == files
            }
        }),
{
    let names = names_of(wanted, digest);
    let hex = hash::hex(digest);
    let j0 = JobView { root, source, wanted, digest, size, attempt: Attempt::Plain };
    let j1 = JobView { attempt: Attempt::Short, ..j0 };
    let j2 = JobView { attempt: Attempt::Medium, ..j0 };
    let j3 = JobView { attempt: Attempt::Full, ..j0 };
    assert(hex.take(8) =~= hex.subrange(0, 8));
    assert(hex.take(16) =~= hex.subrange(0, 16));
    lemma_reserved(j0);
    lemma_reserved(j1);
    lemma_reserved(j2);
    lemma_reserved(j3);
    assert(j0.name() == names[0] && j1.name() == names[1] && j2.name() == names[2] && j3.name()
        == names[3]);
    assert(forall|k: int|
        0 <= k < n ==> is_no_place(files, path::join(root, #[trigger] names[k]), size, digest));
    if n > 0 {
        assert(is_no_place(files, path::join(root, names[0]), size, digest));
        assert(settled(files, j0) == settled(files, j1));
    }
    if n > 1 {
        assert(is_no_place(files, path::join(root, names[1]), size, digest));
        assert(settled(files, j1) == settled(files, j2));
    }
    if n > 2 {
        assert(is_no_place(files, path::join(root, names[2]), size, digest));
        assert(settled(files, j2) == settled(files, j3));
    }
}

/// A file is turned away only where none of its names does, or where the place has no directory; and
/// then nothing is changed.
pub proof fn law_a_file_is_turned_away_only_without_a_name(
    files: Map<Seq<u8>, Content>,
    root: Seq<u8>,
    source: Seq<u8>,
    source_root: Seq<u8>,
    wanted: Seq<u8>,
    digest: Seq<u8>,
    size: u64,
)
    requires
        archive::target(source_root, source) == Some(wanted),
        digest.len() == 32,
        stored_among(files, root, source, source_root, digest, size).0 is Err,
    ensures
        stored_among(files, root, source, source_root, digest, size).1 == files,
        (forall|k: int|
            0 <= k < 4 ==> is_no_place(
                files,
                path::join(root, #[trigger] names_of(wanted, digest)[k]),
                size,
                digest,
            )) || exists|k: int|
            0 <= k < 4 && path::parent(
                path::join(root, #[trigger] names_of(wanted, digest)[k]),
            ) is None,
{
    let names = names_of(wanted, digest);
    lemma_stored_among(files, root, source, source_root, digest, size);
    if forall|k: int| 0 <= k < 4 ==> path::parent(path::join(root, #[trigger] names[k])) is Some {
        lemma_no_place(files, root, source, source_root, wanted, digest, size, 4);
    }
}

proof fn lemma_no_place(
    files: Map<Seq<u8>, Content>,
    root: Seq<u8>,
    source: Seq<u8>,
    source_root: Seq<u8>,
    wanted: Seq<u8>,
    digest: Seq<u8>,
    size: u64,
    n: int,
)
    requires
        archive::target(source_root, source) == Some(wanted),
        digest.len() == 32,
        stored_among(files, root, source, source_root, digest, size).0 is Err,
        0 <= n <= 4,
        forall|k: int|
            0 <= k < 4 ==> path::parent(
                path::join(root, #[trigger] names_of(wanted, digest)[k]),
            ) is Some,
    ensures
        forall|k: int|
            0 <= k < n ==> is_no_place(
                files,
                path::join(root, #[trigger] names_of(wanted, digest)[k]),
                size,
                digest,
            ),
    decreases n,
{
    if n > 0 {
        lemma_no_place(files, root, source, source_root, wanted, digest, size, n - 1);
        let place = path::join(root, names_of(wanted, digest)[n - 1]);
        if !is_no_place(files, place, size, digest) {
            law_the_first_name_that_does_is_used(
                files,
                root,
                source,
                source_root,
                wanted,
                digest,
                size,
                n - 1,
            );
        }
    }
}

/// One question of storing a file, answered truthfully; a copy that is asked for is made.
pub open spec fn told(files: Map<Seq<u8>, Content>, size: u64, step: StoreView) -> StoreView {
    match step {
        StoreView::SourceSize(q) => after_source_size(q, Ok(size)),
        StoreView::Copy(j, _) => after_copy(j, Ok(())),
        _ => answered(files, step),
    }
}

/// Questions, answered truthfully, up to a number of them.
pub open spec fn told_all(
    files: Map<Seq<u8>, Content>,
    size: u64,
    step: StoreView,
    rounds: nat,
) -> StoreView
    decreases rounds,
{
    if rounds == 0 {
        step
    } else {
        told_all(files, size, told(files, size, step), (rounds - 1) as nat)
    }
}

proof fn lemma_told_rests(files: Map<Seq<u8>, Content>, size: u64, step: StoreView, rounds: nat)
    requires
        step is Done,
    ensures
        told_all(files, size, step, rounds) == step,
    decreases rounds,
{
    if rounds > 0 {
        lemma_told_rests(files, size, step, (rounds - 1) as nat);
    }
}

proof fn lemma_told_all(files: Map<Seq<u8>, Content>, size: u64, step: StoreView, rounds: nat)
    requires
        !(step is SourceSize),
        driven(files, step, rounds) is Copy || driven(files, step, rounds) is Done,
    ensures
        told_all(files, size, step, rounds + 1) == match driven(files, step, rounds) {
            StoreView::Copy(j, _) => after_copy(j, Ok(())),
            end => end,
        },
    decreases rounds,
{
    let next = told(files, size, step);
    assert(told_all(files, size, step, rounds + 1) == told_all(files, size, next, rounds));
    if step is Copy || step is Done {
        lemma_driven_rests(files, step, rounds);
        lemma_told_rests(files, size, next, rounds);
    } else {
        let less = (rounds - 1) as nat;
        assert(driven(files, step, rounds) == driven(files, next, less));
        match step {
            StoreView::Exists(j) => {},
            StoreView::Size(j) => {
                lemma_next_name_asks(j);
            },
            StoreView::Hash(j) => {
                lemma_next_name_asks(j);
            },
            _ => {},
        }
        lemma_told_all(files, size, next, less);
    }
}

proof fn lemma_next_name_asks(j: JobView)
    ensures
        next_name(j) is Exists || next_name(j) is Done,
    decreases names_left(j.attempt), 1nat,
{
    match wider(j.attempt) {
        Some(attempt) => {
            lemma_trying_asks(JobView { attempt, ..j });
        },
        None => {},
    }
}

proof fn lemma_trying_asks(j: JobView)
    ensures
        trying(j) is Exists || trying(j) is Done,
    decreases names_left(j.attempt), 2nat,
{
    if j.is_reserved() {
        match wider(j.attempt) {
            Some(attempt) => {
                lemma_trying_asks(JobView { attempt, ..j });
            },
            None => {},
        }
    }
}

/// Storing a file comes to what is said of it: from the first question on, with the file system
/// answering truthfully, it ends within fourteen answers, in the result that the files which are there
/// call for.
pub proof fn law_storing_comes_to_its_result(
    files: Map<Seq<u8>, Content>,
    archive: &Archive,
    source: &FilePath,
    source_root: &FilePath,
    digest: &[u8; 32],
    size: u64,
    step: StoreStep<()>,
)
    requires
        call_ensures(Archive::store, (archive, source, source_root, digest), step),
    ensures
        told_all(files, size, step@, 14) == StoreView::Done(
            stored_among(files, archive@.root, source@, source_root@, digest@, size).0,
        ),
{
    match archive::target(source_root@, source@) {
        None => {
            lemma_told_rests(files, size, step@, 14);
        },
        Some(wanted) => {
            let j = JobView {
                root: archive@.root,
                source: source@,
                wanted,
                digest: digest@,
                size,
                attempt: Attempt::Plain,
            };
            lemma_trying_asks(j);
            law_a_name_is_found(files, j);
            lemma_told_all(files, size, trying(j), 12);
            assert(told(files, size, step@) == trying(j));
            assert(told_all(files, size, step@, 14) == told_all(files, size, trying(j), 13));
        },
    }
}

/// A file that finds its own name free is copied there, and nowhere else: the question is about the
/// place that it wants, the copy is one of the source file, it goes to that very place, by way of an
/// unfinished copy in the same directory, and what is reported is the name that the file wanted.
pub proof fn law_a_free_name_is_used_as_it_is(
    archive: &Archive,
    source: &FilePath,
    source_root: &FilePath,
    digest: &[u8; 32],
    wanted: FilePath,
    measured: SourceSize<()>,
    size: u64,
    asked: StoreStep<()>,
    taken: NameTaken<()>,
    place: FilePath,
    free: StoreStep<()>,
    copy: CopyFile<()>,
    from: &FilePath,
    to: FilePath,
    dir: &FilePath,
    pid: u32,
    temp: FilePath,
    done: StoreStep<()>,
)
    requires
        call_ensures(Archive::target_path, (archive, source_root, source), Ok(wanted)),
        call_ensures(
            Archive::store,
            (archive, source, source_root, digest),
            StoreStep::SourceSize(measured),
        ),
        is_usable(path::join(archive@.root, wanted@)),
        call_ensures(SourceSize::answer, (measured, Ok(size)), asked),
        asked == StoreStep::Exists(taken),
        call_ensures(NameTaken::path, (&taken,), place),
        call_ensures(NameTaken::answer, (taken, false), free),
        free == StoreStep::Copy(copy),
        call_ensures(CopyFile::source, (&copy,), from),
        call_ensures(CopyFile::dest, (&copy,), to),
        call_ensures(CopyFile::dir, (&copy,), dir),
        call_ensures(CopyFile::temp, (&copy, pid), temp),
        call_ensures(CopyFile::answer, (copy, Ok(())), done),
    ensures
        place@ == path::join(archive@.root, wanted@),
        from@ == source@,
        to@ == place@,
        path::components(dir@) == path::components(to@).drop_last(),
        dir@.len() > 0 ==> path::components(temp@) == path::components(dir@).push(
            encode_utf8(".thylacine-tmp-"@ + text::decimal(pid as nat)),
        ),
        temp@ != to@,
        done@ == StoreView::Done(Ok(archive::StoredView::Written(wanted@))),
{
    let j = JobView {
        root: archive@.root,
        source: source@,
        wanted: wanted@,
        digest: digest@,
        size,
        attempt: Attempt::Plain,
    };
    lemma_reserved(j);
    assert(trying(j) == StoreView::Exists(j));
    assert(taken@ == j);
    path::lemma_parent_components(to@);
    let name = archive::copy_name(pid);
    archive::lemma_copy_name(pid);
    path::lemma_single_component(name);
    if dir@.len() > 0 {
        path::lemma_join_components(dir@, name);
        assert(path::components(dir@) + seq![name] =~= path::components(dir@).push(name));
    } else {
        assert(path::join(dir@, name) =~= name);
    }
    assert(path::components(temp@).last() == name);
    if temp@ == to@ {
        assert(archive::is_unfinished(name)) by {
            assert(name == encode_utf8(".thylacine-tmp-"@ + text::decimal(pid as nat)));
        }
        assert(path::file_name(to@) == Some(name));
    }
}

/// A file with a usable place is asked about that place first, and a place that is free is copied to.
pub proof fn law_the_own_name_is_tried_first(
    archive: &Archive,
    source: &FilePath,
    source_root: &FilePath,
    digest: &[u8; 32],
    wanted: FilePath,
    step: StoreStep<()>,
    measured: SourceSize<()>,
    size: u64,
    asked: StoreStep<()>,
    taken: NameTaken<()>,
    free: StoreStep<()>,
)
    requires
        call_ensures(Archive::target_path, (archive, source_root, source), Ok(wanted)),
        call_ensures(Archive::store, (archive, source, source_root, digest), step),
        is_usable(path::join(archive@.root, wanted@)),
    ensures
        step is SourceSize,
        step == StoreStep::SourceSize(measured) && call_ensures(
            SourceSize::answer,
            (measured, Ok(size)),
            asked,
        ) ==> asked is Exists,
        step == StoreStep::SourceSize(measured) && call_ensures(
            SourceSize::answer,
            (measured, Ok(size)),
            asked,
        ) && asked == StoreStep::Exists(taken) && call_ensures(
            NameTaken::answer,
            (taken, false),
            free,
        ) ==> free is Copy,
        forall|p: &FilePath|
            step == StoreStep::SourceSize(measured) && #[trigger] call_ensures(
                SourceSize::path,
                (&measured,),
                p,
            ) ==> p@ == source@,
{
    let j = JobView {
        root: archive@.root,
        source: source@,
        wanted: wanted@,
        digest: digest@,
        size,
        attempt: Attempt::Plain,
    };
    lemma_reserved(j);
    assert(trying(j) == StoreView::Exists(j));
}

/// A file that does not lie beneath its source root is not stored.
pub proof fn law_a_file_outside_is_not_stored(
    archive: &Archive,
    source: &FilePath,
    source_root: &FilePath,
    digest: &[u8; 32],
    e: ArchiveError,
    step: StoreStep<()>,
)
    requires
        call_ensures(Archive::target_path, (archive, source_root, source), Err(e)),
        call_ensures(Archive::store, (archive, source, source_root, digest), step),
    ensures
        step@ == StoreView::Done(Err(archive::ArchiveErrorView::OutsideSourceRoot(source@))),
{
}

/// Whatever the file system refuses ends it, with that very error: nothing is copied then, and nothing is
/// said to be stored.
pub proof fn law_an_error_ends_storing(
    measuring: SourceSize<()>,
    sizing: TakenSize<()>,
    hashing: TakenHash<()>,
    copying: CopyFile<()>,
    e: std::io::Error,
    step: StoreStep<()>,
)
    requires
        call_ensures(SourceSize::answer, (measuring, Err(e)), step) || call_ensures(
            TakenSize::answer,
            (sizing, Err(e)),
            step,
        ) || call_ensures(TakenHash::answer, (hashing, Err(e)), step) || call_ensures(
            CopyFile::answer,
            (copying, Err(e)),
            step,
        ),
    ensures
        step@ == StoreView::Done(Err(archive::ArchiveErrorView::Io(e))),
{
}

/// A file that has taken a name is left alone: it is measured and hashed, and no copy is made over it.
/// Only where the size agrees is it hashed, and only where the hash agrees as well is the content said to
/// be there, at that very place.
pub proof fn law_what_has_taken_a_name_is_left_alone(
    asked: NameTaken<()>,
    sizing: TakenSize<()>,
    hashing: TakenHash<()>,
    size: u64,
    digest: [u8; 32],
    place: FilePath,
    step: StoreStep<()>,
)
    ensures
        call_ensures(NameTaken::answer, (asked, true), step) ==> (step@ matches StoreView::Size(j)
            && j == asked@),
        call_ensures(TakenSize::answer, (sizing, Ok(size)), step) ==> {
            &&& !(step@ is Copy)
            &&& size == sizing@.size <==> (step@ matches StoreView::Hash(j) && j == sizing@)
        },
        call_ensures(TakenHash::answer, (hashing, Ok(digest)), step) ==> {
            &&& !(step@ is Copy)
            &&& digest@ == hashing@.digest <==> step@ matches StoreView::Done(Ok(_))
        },
        call_ensures(TakenHash::answer, (hashing, Ok(digest)), step) && call_ensures(
            TakenHash::path,
            (&hashing,),
            place,
        ) ==> (step@ matches StoreView::Done(Ok(s)) ==> s is AlreadyThere && path::join(
            hashing@.root,
            s.path(),
        ) == place@),
        call_ensures(TakenSize::path, (&sizing,), place) && call_ensures(
            TakenSize::answer,
            (sizing, Ok(sizing@.size)),
            step,
        ) ==> (step matches StoreStep::Hash(q) && forall|p: FilePath| #[trigger]
            call_ensures(TakenHash::path, (&q,), p) ==> p@ == place@),
{
    lemma_next_name_asks(sizing@);
    lemma_next_name_asks(hashing@);
    lemma_no_name_is_no_success(sizing@);
    lemma_no_name_is_no_success(hashing@);
}

proof fn lemma_no_name_is_no_success(j: JobView)
    ensures
        !(next_name(j) matches StoreView::Done(Ok(_))),
    decreases names_left(j.attempt),
{
    match wider(j.attempt) {
        Some(attempt) => {
            let k = JobView { attempt, ..j };
            if k.is_reserved() {
                lemma_no_name_is_no_success(k);
                assert(trying(k) == next_name(k));
            }
        },
        None => {},
    }
}

/// Whatever a file is called, also where its name is not UTF-8, the mark stands at the end of its stem:
/// the file stays in its directory, its name ends in a `-`, the digits, and its extension (if that is
/// UTF-8).
pub proof fn law_a_mark_stands_at_the_end(p: &FilePath, digits: &str, marked: FilePath)
    requires
        call_ensures(with_suffix, (p, digits), marked),
        path::file_name(p@) is Some,
        hex_digits(digits@),
    ensures
        path::components(marked@).len() == path::components(p@).len(),
        forall|i: int|
            0 <= i < path::components(p@).len() - 1 ==> path::components(marked@)[i]
                == path::components(p@)[i],
        ({
            let last = path::components(marked@).last();
            let mark = seq![45u8] + encode_utf8(digits@);
            let tail = match path::extension(path::file_name(p@)->0) {
                Some(e) => if valid_utf8(e) {
                    mark + seq![46u8] + e
                } else {
                    mark
                },
                None => mark,
            };
            let stem = path::stem(path::file_name(p@)->0);
            &&& tail.len() <= last.len()
            &&& last.subrange(last.len() - tail.len(), last.len() as int) == tail
            &&& last.take(last.len() - tail.len()) == if valid_utf8(stem) {
                stem
            } else {
                encode_utf8(text::utf8_lossy(stem))
            }
        }),
{
    lemma_hex_bytes(digits@);
    lemma_mark(p@, digits@);
    let m = suffixed_name(path::file_name(p@), digits@);
    let tail = mark(path::file_name(p@), digits@);
    assert(path::components(marked@).last() == m);
    assert(m.skip(m.len() - tail.len()) =~= m.subrange(m.len() - tail.len(), m.len() as int));
    assert(m =~= spelled(path::stem(path::file_name(p@)->0)) + tail);
    assert(m.take(m.len() - tail.len()) =~= spelled(path::stem(path::file_name(p@)->0)));
}

} // verus!
