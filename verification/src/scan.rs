//! Directory traversal, one question at a time.
//!
//! A [`Walker`] decides what a walk does next. Each step is either something that the walk found
//! or a question about the file system, and the answer to a question gives the next step. Whoever
//! drives the walk asks the file system and never decides anything.
//!
//! * A walk hands out files as it finds them. A photo library can hold hundreds of thousands of
//!   files; the first one can be hashed before the last one is discovered.
//! * Errors are handed out too, and the walk goes on. One unreadable directory should not abort
//!   a backup of the other 200,000 files.

use crate::path::FilePath;
use vstd::prelude::*;

verus! {

/// `std::io::Error`, which is carried along and never looked into.
#[verifier::external_type_specification]
#[verifier::external_body]
pub struct ExIoError(std::io::Error);

/// A regular file found during the walk.
#[derive(Debug, PartialEq, Eq)]
pub struct FileEntry {
    pub path: FilePath,
    pub size: u64,
    /// Seconds since the Unix epoch. Negative for files older than 1970, which do exist on
    /// restored archives.
    pub mtime: i64,
}

/// Something went wrong at one point in the tree. The walk continues.
#[derive(Debug)]
pub struct ScanError {
    pub path: FilePath,
    pub source: std::io::Error,
}

/// A file that was found, with its path as bytes.
pub struct FileView {
    pub path: Seq<u8>,
    pub size: u64,
    pub mtime: i64,
}

/// An error, with its path as bytes.
pub struct ErrorView {
    pub path: Seq<u8>,
    pub source: std::io::Error,
}

impl View for FileEntry {
    type V = FileView;

    open spec fn view(&self) -> FileView {
        FileView { path: self.path@, size: self.size, mtime: self.mtime }
    }
}

impl Clone for FileEntry {
    fn clone(&self) -> (copy: FileEntry)
        ensures
            copy@ == self@,
    {
        FileEntry { path: self.path.clone(), size: self.size, mtime: self.mtime }
    }
}

impl View for ScanError {
    type V = ErrorView;

    open spec fn view(&self) -> ErrorView {
        ErrorView { path: self.path@, source: self.source }
    }
}

/// What one walk hands out: a file, or an error.
pub open spec fn walked(r: Result<FileEntry, ScanError>) -> Result<FileView, ErrorView> {
    match r {
        Ok(entry) => Ok(entry@),
        Err(error) => Err(error@),
    }
}

/// When a file was last modified, in whole seconds from the Unix epoch.
#[derive(Debug, Clone, Copy, PartialEq, Eq)]
pub enum Modified {
    /// At the epoch, or after it by so many whole seconds.
    After(u64),
    /// Before the epoch, by so many whole seconds and perhaps a part of another one.
    Before(u64),
}

/// Seconds since the Unix epoch, negative for files from before 1970: the last second before the
/// epoch counts as -1. A file of which no time is known counts as one from 1970.
///
/// Shared so that everything recording an mtime (the walker, the archive index) derives it the
/// same way.
pub fn mtime_secs(modified: Option<Modified>) -> (secs: i64)
    ensures
        secs == spec_mtime_secs(modified),
        modified matches Some(Modified::After(n)) ==> n <= i64::MAX ==> secs == n,
        modified matches Some(Modified::Before(n)) ==> 0 < n <= i64::MAX ==> secs == -n,
        modified matches Some(Modified::Before(n)) ==> n <= i64::MAX ==> secs < 0,
        modified is None ==> secs == 0,
{
    match modified {
        Some(Modified::After(n)) => n as i64,
        Some(Modified::Before(n)) => {
            let m = n as i64;
            if n == 0 {
                -1
            } else if m == i64::MIN {
                m
            } else {
                -m
            }
        },
        None => 0,
    }
}

/// The seconds as a 64-bit number: beyond its range they wrap around.
pub open spec fn spec_mtime_secs(modified: Option<Modified>) -> i64 {
    match modified {
        Some(Modified::After(n)) => n as i64,
        Some(Modified::Before(n)) => if n == 0 {
            -1i64
        } else if (n as i64) == i64::MIN {
            i64::MIN
        } else {
            (-(n as i64)) as i64
        },
        None => 0,
    }
}

/// What the file system says of one directory entry.
#[derive(Debug, Clone, Copy, PartialEq, Eq)]
pub struct Metadata {
    pub is_dir: bool,
    pub is_file: bool,
    pub size: u64,
    pub modified: Option<Modified>,
}

/// The state of a walk between two steps.
pub struct Walker {
    /// The open directories, deepest last.
    stack: Vec<FilePath>,
    /// Errors that are still to be handed out, before anything else is read.
    pending: Vec<ScanError>,
    /// The directory where the walk starts, until it was opened.
    start: Option<FilePath>,
    follow_symlinks: bool,
}

/// A [`Walker`] with its paths as bytes.
#[verifier::ext_equal]
pub struct WalkerView {
    pub stack: Seq<Seq<u8>>,
    pub pending: Seq<ErrorView>,
    pub start: Option<Seq<u8>>,
    pub follow_symlinks: bool,
}

impl View for Walker {
    type V = WalkerView;

    closed spec fn view(&self) -> WalkerView {
        WalkerView {
            stack: self.stack@.map_values(|p: FilePath| p@),
            pending: self.pending@.map_values(|e: ScanError| e@),
            start: match self.start {
                Some(p) => Some(p@),
                None => None,
            },
            follow_symlinks: self.follow_symlinks,
        }
    }
}

/// The question whether a directory can be opened.
pub struct OpenDir {
    walker: Walker,
    path: FilePath,
}

/// The question what comes next in the directory that was opened last.
pub struct ReadEntry {
    /// The walk without that directory.
    walker: Walker,
    dir: FilePath,
}

/// The question what a directory entry is.
pub struct StatEntry {
    walker: Walker,
    path: FilePath,
}

/// What a walk does next.
pub enum WalkStep {
    /// Open this directory.
    Open(OpenDir),
    /// Read one more entry of this directory.
    Read(ReadEntry),
    /// Look at this entry.
    Stat(StatEntry),
    /// A file was found.
    Found(FileEntry, Walker),
    /// Something went wrong, and the walk goes on.
    Failed(ScanError, Walker),
    /// Everything was seen.
    Done,
}

/// A [`WalkStep`] with its paths as bytes.
#[verifier::ext_equal]
pub enum StepView {
    Open(WalkerView, Seq<u8>),
    Read(WalkerView, Seq<u8>),
    Stat(WalkerView, Seq<u8>),
    Found(FileView, WalkerView),
    Failed(ErrorView, WalkerView),
    Done,
}

impl View for OpenDir {
    type V = (WalkerView, Seq<u8>);

    closed spec fn view(&self) -> (WalkerView, Seq<u8>) {
        (self.walker@, self.path@)
    }
}

impl View for ReadEntry {
    type V = (WalkerView, Seq<u8>);

    closed spec fn view(&self) -> (WalkerView, Seq<u8>) {
        (self.walker@, self.dir@)
    }
}

impl View for StatEntry {
    type V = (WalkerView, Seq<u8>);

    closed spec fn view(&self) -> (WalkerView, Seq<u8>) {
        (self.walker@, self.path@)
    }
}

impl View for WalkStep {
    type V = StepView;

    open spec fn view(&self) -> StepView {
        match *self {
            WalkStep::Open(q) => StepView::Open(q@.0, q@.1),
            WalkStep::Read(q) => StepView::Read(q@.0, q@.1),
            WalkStep::Stat(q) => StepView::Stat(q@.0, q@.1),
            WalkStep::Found(entry, walker) => StepView::Found(entry@, walker@),
            WalkStep::Failed(error, walker) => StepView::Failed(error@, walker@),
            WalkStep::Done => StepView::Done,
        }
    }
}

// ---------------------------------------------------------------------------------------------
// What follows upon what.
// ---------------------------------------------------------------------------------------------

/// A walk that has yet to open `root`.
pub open spec fn walk_from(root: Seq<u8>, follow: bool) -> WalkerView {
    WalkerView {
        stack: Seq::empty(),
        pending: Seq::empty(),
        start: Some(root),
        follow_symlinks: follow,
    }
}

/// The next step: open where the walk starts, hand out an error, read on in the deepest
/// directory, or end.
pub open spec fn advance(w: WalkerView) -> StepView {
    if w.start is Some {
        StepView::Open(WalkerView { start: None, ..w }, w.start->0)
    } else if w.pending.len() > 0 {
        StepView::Failed(
            w.pending.last(),
            WalkerView { pending: w.pending.drop_last(), ..w },
        )
    } else if w.stack.len() > 0 {
        StepView::Read(WalkerView { stack: w.stack.drop_last(), ..w }, w.stack.last())
    } else {
        StepView::Done
    }
}

/// A directory that opens is read next. One that does not is an error.
pub open spec fn after_open(
    w: WalkerView,
    path: Seq<u8>,
    opened: Result<(), std::io::Error>,
) -> StepView {
    match opened {
        Ok(_) => advance(WalkerView { stack: w.stack.push(path), ..w }),
        Err(source) => advance(
            WalkerView { pending: w.pending.push(ErrorView { path, source }), ..w },
        ),
    }
}

/// The end of a directory leads back to the one above. An entry is looked at.
pub open spec fn after_read(
    w: WalkerView,
    dir: Seq<u8>,
    entry: Option<Result<Seq<u8>, std::io::Error>>,
) -> StepView {
    let back = WalkerView { stack: w.stack.push(dir), ..w };
    match entry {
        None => advance(w),
        Some(Err(source)) => StepView::Failed(ErrorView { path: dir, source }, back),
        Some(Ok(path)) => StepView::Stat(back, path),
    }
}

/// A directory is opened, a plain file is handed out, anything else is passed over.
pub open spec fn after_stat(
    w: WalkerView,
    path: Seq<u8>,
    meta: Result<Metadata, std::io::Error>,
) -> StepView {
    match meta {
        Err(source) => StepView::Failed(ErrorView { path, source }, w),
        Ok(m) => if m.is_dir {
            StepView::Open(w, path)
        } else if !m.is_file {
            advance(w)
        } else {
            StepView::Found(
                FileView { path, size: m.size, mtime: spec_mtime_secs(m.modified) },
                w,
            )
        },
    }
}

/// An answer to [`ReadEntry`] with its path as bytes.
pub open spec fn read_answer(entry: Option<Result<FilePath, std::io::Error>>) -> Option<
    Result<Seq<u8>, std::io::Error>,
> {
    match entry {
        None => None,
        Some(Err(source)) => Some(Err(source)),
        Some(Ok(path)) => Some(Ok(path@)),
    }
}

/// Walk `root`, handing out every regular file beneath it.
///
/// Symlinks are not followed by default: a link pointing at its own ancestor would loop forever,
/// and a link out of the tree would silently pull in files the caller never asked for.
pub fn walk(root: FilePath) -> (walker: Walker)
    ensures
        walker@ == walk_from(root@, false),
{
    let walker = Walker {
        stack: Vec::new(),
        pending: Vec::new(),
        start: Some(root),
        follow_symlinks: false,
    };
    assert(walker@ =~= walk_from(root@, false));
    walker
}

impl Walker {
    /// Opt into following symlinks. Cycle detection is the caller's problem; prefer leaving this
    /// off.
    pub fn follow_symlinks(self, follow: bool) -> (walker: Walker)
        ensures
            walker@ == (WalkerView { follow_symlinks: follow, ..self@ }),
    {
        Walker { follow_symlinks: follow, ..self }
    }

    /// The next step of the walk.
    pub fn advance(self) -> (step: WalkStep)
        ensures
            step@ == advance(self@),
    {
        let mut walker = self;
        if let Some(path) = walker.start {
            walker.start = None;
            return WalkStep::Open(OpenDir { walker, path });
        }
        let ghost before = walker;
        match walker.pending.pop() {
            Some(error) => {
                assert(walker@.pending =~= before@.pending.drop_last());
                return WalkStep::Failed(error, walker);
            },
            None => {},
        }
        match walker.stack.pop() {
            Some(dir) => {
                assert(walker@.stack =~= before@.stack.drop_last());
                WalkStep::Read(ReadEntry { walker, dir })
            },
            None => WalkStep::Done,
        }
    }
}

impl OpenDir {
    /// The directory to open.
    pub fn path(&self) -> (path: &FilePath)
        ensures
            path@ == self@.1,
    {
        &self.path
    }

    /// The next step, once the directory was opened or could not be.
    pub fn answer(self, opened: Result<(), std::io::Error>) -> (step: WalkStep)
        ensures
            step@ == after_open(self@.0, self@.1, opened),
    {
        let OpenDir { walker, path } = self;
        let mut walker = walker;
        let ghost before = walker@;
        match opened {
            Ok(_) => {
                walker.stack.push(path);
                assert(walker@ =~= WalkerView { stack: before.stack.push(path@), ..before });
            },
            Err(source) => {
                let error = ScanError { path, source };
                walker.pending.push(error);
                assert(walker@ =~= WalkerView { pending: before.pending.push(error@), ..before });
            },
        }
        walker.advance()
    }
}

impl ReadEntry {
    /// The directory to read from: the one that was opened last of those that have not ended.
    pub fn dir(&self) -> (dir: &FilePath)
        ensures
            dir@ == self@.1,
    {
        &self.dir
    }

    /// The next step, once the directory has ended (`None`), or an entry was read or could not
    /// be.
    pub fn answer(self, entry: Option<Result<FilePath, std::io::Error>>) -> (step: WalkStep)
        ensures
            step@ == after_read(self@.0, self@.1, read_answer(entry)),
    {
        let ReadEntry { walker, dir } = self;
        let mut walker = walker;
        let ghost before = walker@;
        match entry {
            None => walker.advance(),
            Some(Err(source)) => {
                let path = dir.clone();
                walker.stack.push(dir);
                assert(walker@ =~= WalkerView { stack: before.stack.push(dir@), ..before });
                WalkStep::Failed(ScanError { path, source }, walker)
            },
            Some(Ok(path)) => {
                walker.stack.push(dir);
                assert(walker@ =~= WalkerView { stack: before.stack.push(dir@), ..before });
                WalkStep::Stat(StatEntry { walker, path })
            },
        }
    }
}

impl StatEntry {
    /// The entry to look at.
    pub fn path(&self) -> (path: &FilePath)
        ensures
            path@ == self@.1,
    {
        &self.path
    }

    /// Whether to look at what a symlink points at, rather than at the link itself.
    pub fn follows(&self) -> (follow: bool)
        ensures
            follow == self@.0.follow_symlinks,
    {
        self.walker.follow_symlinks
    }

    /// The next step, once it is known what the entry is, or that it cannot be known.
    pub fn answer(self, meta: Result<Metadata, std::io::Error>) -> (step: WalkStep)
        ensures
            step@ == after_stat(self@.0, self@.1, meta),
    {
        let StatEntry { walker, path } = self;
        match meta {
            Err(source) => WalkStep::Failed(ScanError { path, source }, walker),
            Ok(m) => {
                if m.is_dir {
                    return WalkStep::Open(OpenDir { walker, path });
                }
                // Skip symlinks, sockets, fifos, devices: anything that is not a plain file has
                // no bytes worth archiving.
                if !m.is_file {
                    return walker.advance();
                }
                let entry = FileEntry { path, size: m.size, mtime: mtime_secs(m.modified) };
                WalkStep::Found(entry, walker)
            },
        }
    }
}

impl ScanError {
    /// The error in words; `source` spells the error that the file system gave.
    pub fn message(&self, source: &str) -> (text: String)
        ensures
            text@ == crate::text::utf8_lossy(self.path@) + seq![':', ' '] + source@,
    {
        let mut text = crate::text::decode_lossy(self.path.as_bytes());
        text.push(':');
        text.push(' ');
        text.append(source);
        assert(text@ =~= crate::text::utf8_lossy(self.path@) + seq![':', ' '] + source@);
        text
    }
}

// ---------------------------------------------------------------------------------------------
// A whole walk.
// ---------------------------------------------------------------------------------------------

/// What a path leads to in a tree that stands still.
pub enum Node {
    /// A plain file.
    File { size: u64, modified: Option<Modified> },
    /// A directory that can be read, with what reading it gives, in that order, and what else the file
    /// system says of it.
    Dir(Seq<Item>, Metadata),
    /// A directory that cannot be opened, and what else the file system says of it.
    Locked(std::io::Error, Metadata),
    /// A symlink, socket, fifo or device, and what else the file system says of it.
    Other(Metadata),
    /// An entry of which the file system tells nothing.
    Unknown(std::io::Error),
}

/// What reading a directory gives.
pub enum Item {
    /// An entry, and what it is.
    Entry(Seq<u8>, Node),
    /// An entry that could not be read.
    Broken(std::io::Error),
}

/// What there is to hand out at a path: the plain files beneath it, each directory's in the order
/// in which it is read, and an error for each thing that could not be read.
pub open spec fn listing(path: Seq<u8>, node: Node) -> Seq<Result<FileView, ErrorView>>
    decreases node,
{
    match node {
        Node::File { size, modified } => seq![
            Ok(FileView { path, size, mtime: spec_mtime_secs(modified) }),
        ],
        Node::Dir(items, _) => items_listing(path, items),
        Node::Locked(source, _) => seq![Err(ErrorView { path, source })],
        Node::Other(_) => Seq::empty(),
        Node::Unknown(source) => seq![Err(ErrorView { path, source })],
    }
}

/// What there is to hand out in the rest of a directory.
pub open spec fn items_listing(dir: Seq<u8>, items: Seq<Item>) -> Seq<Result<FileView, ErrorView>>
    decreases items,
{
    if items.len() == 0 {
        Seq::empty()
    } else {
        let first: Seq<Result<FileView, ErrorView>> = match items[0] {
            Item::Entry(path, node) => listing(path, node),
            Item::Broken(source) => seq![Err(ErrorView { path: dir, source })],
        };
        first + items_listing(dir, items.subrange(1, items.len() as int))
    }
}

/// What the file system says of a node. A directory, or what is no plain file, may have any size and
/// time.
pub open spec fn node_metadata(node: Node) -> Result<Metadata, std::io::Error> {
    match node {
        Node::File { size, modified } => Ok(
            Metadata { is_dir: false, is_file: true, size, modified },
        ),
        Node::Dir(_, m) => Ok(Metadata { is_dir: true, ..m }),
        Node::Locked(_, m) => Ok(Metadata { is_dir: true, ..m }),
        Node::Other(m) => Ok(Metadata { is_dir: false, is_file: false, ..m }),
        Node::Unknown(source) => Err(source),
    }
}

/// What a walk hands out from this step on, when the file system answers its questions: `rest`
/// holds what is still to be read of each open directory, and `node` what the path in question
/// leads to. `None` if the walk does not end within `fuel` steps.
pub open spec fn handed_out(
    step: StepView,
    rest: Seq<Seq<Item>>,
    node: Option<Node>,
    fuel: nat,
) -> Option<Seq<Result<FileView, ErrorView>>>
    decreases fuel,
{
    if fuel == 0 {
        None
    } else {
        let less = (fuel - 1) as nat;
        match step {
            StepView::Done => Some(Seq::empty()),
            StepView::Found(file, w) => prefixed(Ok(file), handed_out(advance(w), rest, None, less)),
            StepView::Failed(error, w) => prefixed(
                Err(error),
                handed_out(advance(w), rest, None, less),
            ),
            StepView::Open(w, path) => match node {
                Some(Node::Dir(items, _)) => handed_out(
                    after_open(w, path, Ok(())),
                    rest.push(items),
                    None,
                    less,
                ),
                Some(Node::Locked(source, _)) => handed_out(
                    after_open(w, path, Err(source)),
                    rest,
                    None,
                    less,
                ),
                _ => None,
            },
            StepView::Read(w, dir) => if rest.len() == 0 {
                None
            } else if rest.last().len() == 0 {
                handed_out(after_read(w, dir, None), rest.drop_last(), None, less)
            } else {
                let items = rest.last();
                let left = rest.drop_last().push(items.subrange(1, items.len() as int));
                match items[0] {
                    Item::Entry(path, entry) => handed_out(
                        after_read(w, dir, Some(Ok(path))),
                        left,
                        Some(entry),
                        less,
                    ),
                    Item::Broken(source) => handed_out(
                        after_read(w, dir, Some(Err(source))),
                        left,
                        None,
                        less,
                    ),
                }
            },
            StepView::Stat(w, path) => match node {
                Some(entry) => handed_out(
                    after_stat(w, path, node_metadata(entry)),
                    rest,
                    Some(entry),
                    less,
                ),
                None => None,
            },
        }
    }
}

/// `first`, and then what follows, if the walk ends.
pub open spec fn prefixed(
    first: Result<FileView, ErrorView>,
    others: Option<Seq<Result<FileView, ErrorView>>>,
) -> Option<Seq<Result<FileView, ErrorView>>> {
    match others {
        Some(s) => Some(seq![first] + s),
        None => None,
    }
}

/// How many steps the rest of a directory takes.
spec fn items_cost(items: Seq<Item>) -> nat
    decreases items,
{
    if items.len() == 0 {
        1
    } else {
        let first: nat = match items[0] {
            Item::Entry(_, node) => 2 + node_cost(node),
            Item::Broken(_) => 2,
        };
        first + items_cost(items.subrange(1, items.len() as int))
    }
}

/// How many steps a node takes once it was looked at.
spec fn node_cost(node: Node) -> nat
    decreases node,
{
    match node {
        Node::Dir(items, _) => 1 + items_cost(items),
        Node::Locked(..) => 2,
        Node::Other(_) => 0,
        _ => 1,
    }
}

/// With nothing pending, a walk that reads a directory hands out the rest of it, and then goes on
/// as if it had not been there.
proof fn lemma_read_rest(
    w: WalkerView,
    dir: Seq<u8>,
    items: Seq<Item>,
    rest: Seq<Seq<Item>>,
    fuel: nat,
)
    requires
        w.start is None,
        w.pending.len() == 0,
        handed_out(advance(w), rest, None, fuel) is Some,
    ensures
        handed_out(StepView::Read(w, dir), rest.push(items), None, fuel + items_cost(items))
            == Some(items_listing(dir, items) + handed_out(advance(w), rest, None, fuel)->0),
    decreases items,
{
    let total = fuel + items_cost(items);
    let after = handed_out(advance(w), rest, None, fuel)->0;
    assert(rest.push(items).drop_last() =~= rest);
    if items.len() == 0 {
        assert(items_listing(dir, items) + after =~= after);
    } else {
        let tail = items.subrange(1, items.len() as int);
        let left = rest.push(tail);
        let back = WalkerView { stack: w.stack.push(dir), ..w };
        assert(back.stack.drop_last() =~= w.stack);
        assert(advance(back) == StepView::Read(w, dir));
        lemma_read_rest(w, dir, tail, rest, fuel);
        let n = fuel + items_cost(tail);
        let others = handed_out(StepView::Read(w, dir), left, None, n)->0;
        match items[0] {
            Item::Broken(source) => {
                let first = Err::<FileView, ErrorView>(ErrorView { path: dir, source });
                reveal_with_fuel(handed_out, 3);
                assert(handed_out(StepView::Read(w, dir), rest.push(items), None, total) == Some(
                    seq![first] + others,
                ));
                assert(items_listing(dir, items) + after =~= seq![first] + others);
            },
            Item::Entry(path, node) => {
                assert(decreases_to!(items => items[0]));
                lemma_visit(back, path, node, left, n);
                reveal_with_fuel(handed_out, 3);
                assert(handed_out(
                    StepView::Read(w, dir),
                    rest.push(items),
                    None,
                    total,
                ) == handed_out(
                    after_stat(back, path, node_metadata(node)),
                    left,
                    Some(node),
                    n + node_cost(node),
                ));
                assert(items_listing(dir, items) + after =~= listing(path, node) + others);
            },
        }
    }
}

/// With nothing pending, a walk that has looked at a node hands out what there is at it, and then
/// goes on as if it had not been there.
proof fn lemma_visit(w: WalkerView, path: Seq<u8>, node: Node, rest: Seq<Seq<Item>>, fuel: nat)
    requires
        w.start is None,
        w.pending.len() == 0,
        handed_out(advance(w), rest, None, fuel) is Some,
    ensures
        handed_out(
            after_stat(w, path, node_metadata(node)),
            rest,
            Some(node),
            fuel + node_cost(node),
        ) == Some(listing(path, node) + handed_out(advance(w), rest, None, fuel)->0),
    decreases node,
{
    let after = handed_out(advance(w), rest, None, fuel)->0;
    reveal_with_fuel(handed_out, 3);
    match node {
        Node::Dir(items, _) => {
            lemma_read_rest(w, path, items, rest, fuel);
            let deeper = WalkerView { stack: w.stack.push(path), ..w };
            assert(deeper.stack.drop_last() =~= w.stack);
            assert(advance(deeper) == StepView::Read(w, path));
        },
        Node::Locked(source, _) => {
            let failed = WalkerView {
                pending: w.pending.push(ErrorView { path, source }),
                ..w
            };
            assert(failed.pending.drop_last() =~= w.pending);
            assert(advance(failed) == StepView::Failed(ErrorView { path, source }, w));
        },
        Node::Other(_) => {
            assert(listing(path, node) + after =~= after);
        },
        _ => {},
    }
}

/// A walk hands out every plain file beneath the directory where it starts, once, together with
/// an error for each thing that could not be read, and nothing else; and then it ends. Nothing
/// that goes wrong at one point keeps back what lies elsewhere in the tree.
pub proof fn law_walk_hands_out_the_tree(root: Seq<u8>, node: Node, follow: bool)
    requires
        node is Dir || node is Locked,
    ensures
        exists|fuel: nat| #[trigger]
            handed_out(advance(walk_from(root, follow)), Seq::empty(), Some(node), fuel) == Some(
                listing(root, node),
            ),
{
    let w = WalkerView { start: None, ..walk_from(root, follow) };
    let none = Seq::<Seq<Item>>::empty();
    assert(handed_out(advance(w), none, None, 1) == Some(
        Seq::<Result<FileView, ErrorView>>::empty(),
    ));
    lemma_visit(w, root, node, none, 1);
    assert(after_stat(w, root, node_metadata(node)) == advance(walk_from(root, follow)));
    assert(listing(root, node) + Seq::<Result<FileView, ErrorView>>::empty() =~= listing(
        root,
        node,
    ));
    assert(handed_out(
        advance(walk_from(root, follow)),
        none,
        Some(node),
        1 + node_cost(node),
    ) == Some(listing(root, node)));
}

/// A directory is opened, whatever else the file system says of it; a plain file is handed out under its
/// own path, with the size and the time that it has; anything else is passed over; and where nothing can
/// be told of an entry, that is an error at its path. No entry is dropped for its size, its time or its
/// name.
pub proof fn law_every_entry_is_dealt_with(
    q: StatEntry,
    meta: Result<Metadata, std::io::Error>,
    step: WalkStep,
)
    requires
        call_ensures(StatEntry::answer, (q, meta), step),
    ensures
        match meta {
            Err(e) => step@ matches StepView::Failed(f, w) && f.path == q@.1 && f.source == e && w
                == q@.0,
            Ok(m) => {
                &&& m.is_dir ==> step@ == StepView::Open(q@.0, q@.1)
                &&& !m.is_dir && m.is_file ==> (step@ matches StepView::Found(f, w) && f.path
                    == q@.1 && f.size == m.size && w == q@.0 && is_time(m.modified, f.mtime))
                &&& !m.is_dir && !m.is_file ==> step@ == advance(q@.0)
            },
        },
{
}

/// Does this number of seconds stand for that time?
pub open spec fn is_time(modified: Option<Modified>, secs: i64) -> bool {
    match modified {
        Some(Modified::After(n)) => n <= i64::MAX ==> secs == n,
        Some(Modified::Before(n)) => n <= i64::MAX ==> secs < 0 && (n > 0 ==> secs == -n),
        None => secs == 0,
    }
}

/// Times are told apart and kept in order: of two times within the range of the numbers, the later one
/// has the larger number. (The second before the epoch and what lies within it share one.)
pub proof fn law_later_times_are_larger(a: Modified, b: Modified, x: i64, y: i64)
    requires
        call_ensures(mtime_secs, (Some(a),), x),
        call_ensures(mtime_secs, (Some(b),), y),
        match (a, b) {
            (Modified::After(m), Modified::After(n)) => m < n <= i64::MAX,
            (Modified::Before(m), Modified::After(n)) => m <= i64::MAX && n <= i64::MAX,
            (Modified::Before(m), Modified::Before(n)) => n < m <= i64::MAX && m > 1,
            _ => false,
        },
    ensures
        x < y,
{
}

/// What is read of a directory is looked at, entry by entry, each under its own path. The directory stays
/// open until it has ended, and what cannot be read of it is an error at the directory.
pub proof fn law_every_entry_is_looked_at(
    q: ReadEntry,
    entry: Option<Result<FilePath, std::io::Error>>,
    step: WalkStep,
)
    requires
        call_ensures(ReadEntry::answer, (q, entry), step),
    ensures
        match entry {
            Some(Ok(p)) => step@ matches StepView::Stat(w, path) && path == p@ && w.stack
                == q@.0.stack.push(q@.1) && w.pending == q@.0.pending,
            Some(Err(e)) => step@ matches StepView::Failed(f, w) && f.path == q@.1 && f.source == e
                && w.stack == q@.0.stack.push(q@.1) && w.pending == q@.0.pending,
            None => step@ == advance(q@.0),
        },
{
}

/// A directory that was opened is read next, at its own path. One that cannot be opened is an error at
/// its path, before anything else is read, and the directories that are open stay open.
pub proof fn law_every_directory_is_read(
    q: OpenDir,
    opened: Result<(), std::io::Error>,
    step: WalkStep,
)
    requires
        call_ensures(OpenDir::answer, (q, opened), step),
        q@.0.start is None,
        q@.0.pending.len() == 0,
    ensures
        match opened {
            Ok(_) => step@ matches StepView::Read(w, dir) && dir == q@.1 && w.stack
                == q@.0.stack && w.pending.len() == 0 && w.start is None,
            Err(e) => step@ matches StepView::Failed(f, w) && f.path == q@.1 && f.source == e
                && w.stack == q@.0.stack && w.pending.len() == 0 && w.start is None,
        },
{
    assert(q@.0.stack.push(q@.1).drop_last() =~= q@.0.stack);
}

/// A walk ends only when nothing is left: no directory is open, no error is to be handed out, and it has
/// started. Of the open directories the deepest is read on.
pub proof fn law_a_walk_ends_at_its_end(walker: Walker, step: WalkStep)
    requires
        call_ensures(Walker::advance, (walker,), step),
    ensures
        step@ is Done <==> walker@.start is None && walker@.pending.len() == 0
            && walker@.stack.len() == 0,
        walker@.start matches Some(root) ==> (step@ matches StepView::Open(_, p) && p == root),
        walker@.start is None && walker@.pending.len() == 0 && walker@.stack.len() > 0 ==> (
        step@ matches StepView::Read(w, dir) && w.stack.push(dir) == walker@.stack),
        walker@.start is None && walker@.pending.len() > 0 ==> (step@ matches StepView::Failed(e, w)
            && w.pending.push(e) == walker@.pending && w.stack == walker@.stack),
{
}

/// The walk that is at this step.
pub open spec fn walker_of(step: StepView) -> Option<WalkerView> {
    match step {
        StepView::Open(w, _) => Some(w),
        StepView::Read(w, _) => Some(w),
        StepView::Stat(w, _) => Some(w),
        StepView::Found(_, w) => Some(w),
        StepView::Failed(_, w) => Some(w),
        StepView::Done => None,
    }
}

/// Symlinks are not followed unless that was asked for, and no step of a walk changes that.
pub proof fn law_links_are_followed_only_on_demand(
    root: FilePath,
    walker: Walker,
    opening: OpenDir,
    opened: Result<(), std::io::Error>,
    reading: ReadEntry,
    entry: Option<Result<FilePath, std::io::Error>>,
    looking: StatEntry,
    meta: Result<Metadata, std::io::Error>,
    step: WalkStep,
)
    ensures
        call_ensures(walk, (root,), walker) ==> !walker@.follow_symlinks && walker@.start == Some(
            root@,
        ) && walker@.stack.len() == 0 && walker@.pending.len() == 0,
        call_ensures(Walker::advance, (walker,), step) ==> (walker_of(step@) matches Some(w)
            ==> w.follow_symlinks == walker@.follow_symlinks),
        call_ensures(OpenDir::answer, (opening, opened), step) ==> (walker_of(
            step@,
        ) matches Some(w) ==> w.follow_symlinks == opening@.0.follow_symlinks),
        call_ensures(ReadEntry::answer, (reading, entry), step) ==> (walker_of(
            step@,
        ) matches Some(w) ==> w.follow_symlinks == reading@.0.follow_symlinks),
        call_ensures(StatEntry::answer, (looking, meta), step) ==> (walker_of(
            step@,
        ) matches Some(w) ==> w.follow_symlinks == looking@.0.follow_symlinks),
        forall|follow: bool| #[trigger]
            call_ensures(StatEntry::follows, (&looking,), follow) ==> follow
                == looking@.0.follow_symlinks,
{
}

/// What is asked about is what is reported: an entry or a directory is found, read or failed at the path
/// that the question has named.
pub proof fn law_what_is_asked_about_is_reported(
    opening: OpenDir,
    reading: ReadEntry,
    looking: StatEntry,
    named: &FilePath,
    e: std::io::Error,
    m: Metadata,
    failed: WalkStep,
    found: WalkStep,
)
    ensures
        call_ensures(OpenDir::path, (&opening,), named) && call_ensures(
            OpenDir::answer,
            (opening, Err(e)),
            failed,
        ) && opening@.0.start is None ==> (failed@ matches StepView::Failed(f, _) && f.path
            == named@),
        call_ensures(OpenDir::path, (&opening,), named) && call_ensures(
            OpenDir::answer,
            (opening, Ok(())),
            found,
        ) && opening@.0.start is None && opening@.0.pending.len() == 0 ==> (
        found@ matches StepView::Read(_, d) && d == named@),
        call_ensures(ReadEntry::dir, (&reading,), named) && call_ensures(
            ReadEntry::answer,
            (reading, Some(Err(e))),
            failed,
        ) ==> (failed@ matches StepView::Failed(f, _) && f.path == named@),
        call_ensures(StatEntry::path, (&looking,), named) && call_ensures(
            StatEntry::answer,
            (looking, Err(e)),
            failed,
        ) ==> (failed@ matches StepView::Failed(f, _) && f.path == named@),
        call_ensures(StatEntry::path, (&looking,), named) && call_ensures(
            StatEntry::answer,
            (looking, Ok(m)),
            found,
        ) ==> (found@ matches StepView::Found(f, _) ==> f.path == named@) && (
        found@ matches StepView::Open(_, p) ==> looking@.0.start is None ==> p == named@),
{
}

} // verus!
