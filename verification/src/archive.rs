//! The archive: a plain directory tree anyone can browse without tools.
//!
//! A source tree is *replicated* into the archive under its own top-level name. Point at
//! `/home/tom/Pictures` and files land under `Pictures/`, keeping the structure they had:
//!
//! ```text
//! /home/tom/Pictures/2023/hawaii/sunset.jpg   ->  Pictures/2023/hawaii/sunset.jpg
//! /mnt/jane/Pictures/2023/picnic.jpg          ->  Pictures/2023/picnic.jpg
//! /home/tom/Documents/scans/deed.jpg          ->  Documents/scans/deed.jpg
//! ```
//!
//! Two machines with a `Pictures` folder merge into one `Pictures/`, so a shared `2023/` really
//! is shared. A `Documents` folder stays separate even though it holds `.jpg` scans: the folder a
//! file lives in already records what it is, far better than its extension could.
//!
//! Nothing here is content-addressed. Plug the drive into any machine and the photos are just
//! photos.

use crate::config;
pub use crate::config::FORMAT_VERSION;
use crate::config::{field_range, render};
use crate::hash;
use crate::hash::to_hex;
use crate::path;
use crate::path::{same_bytes, FilePath};
use crate::scan;
use crate::scan::{FileEntry, ScanError};
use crate::text;
use crate::text::{
    assemble, characters, decimal_text, decode, decode_lossy, parse_u32, same_text,
};
use vstd::prelude::*;
use vstd::utf8::*;

verus! {

pub const CONFIG_FILE: &'static str = "thylacine.conf";

pub const TMP_PREFIX: &'static str = ".thylacine-tmp-";

/// What happened to one file.
#[derive(Debug, PartialEq, Eq)]
pub enum Stored {
    /// Bytes were copied to this archive-relative path.
    Written(FilePath),
    /// A file with identical content was already at this path.
    AlreadyThere(FilePath),
}

/// A [`Stored`] with its path as bytes.
pub enum StoredView {
    Written(Seq<u8>),
    AlreadyThere(Seq<u8>),
}

impl StoredView {
    pub open spec fn path(self) -> Seq<u8> {
        match self {
            StoredView::Written(p) => p,
            StoredView::AlreadyThere(p) => p,
        }
    }
}

impl View for Stored {
    type V = StoredView;

    open spec fn view(&self) -> StoredView {
        match *self {
            Stored::Written(p) => StoredView::Written(p@),
            Stored::AlreadyThere(p) => StoredView::AlreadyThere(p@),
        }
    }
}

impl Stored {
    /// Where the content lies, relative to the archive root.
    pub fn path(&self) -> (path: &FilePath)
        ensures
            path@ == self@.path(),
    {
        match self {
            Stored::Written(p) => p,
            Stored::AlreadyThere(p) => p,
        }
    }
}

#[derive(Debug)]
pub enum ArchiveError {
    Io(std::io::Error),
    NotAnArchive(FilePath),
    AlreadyInitialised(FilePath),
    MalformedConfig(String),
    UnsupportedVersion(u32),
    /// The source path was not beneath the source root it was scanned from.
    OutsideSourceRoot(FilePath),
    /// Two distinct files sharing a full SHA-256: has never happened.
    HashSuffixesExhausted(FilePath),
}

/// An [`ArchiveError`] with its path as bytes and its text as characters.
pub enum ArchiveErrorView {
    Io(std::io::Error),
    NotAnArchive(Seq<u8>),
    AlreadyInitialised(Seq<u8>),
    MalformedConfig(Seq<char>),
    UnsupportedVersion(u32),
    OutsideSourceRoot(Seq<u8>),
    HashSuffixesExhausted(Seq<u8>),
}

impl View for ArchiveError {
    type V = ArchiveErrorView;

    open spec fn view(&self) -> ArchiveErrorView {
        match *self {
            ArchiveError::Io(e) => ArchiveErrorView::Io(e),
            ArchiveError::NotAnArchive(p) => ArchiveErrorView::NotAnArchive(p@),
            ArchiveError::AlreadyInitialised(p) => ArchiveErrorView::AlreadyInitialised(p@),
            ArchiveError::MalformedConfig(why) => ArchiveErrorView::MalformedConfig(why@),
            ArchiveError::UnsupportedVersion(v) => ArchiveErrorView::UnsupportedVersion(v),
            ArchiveError::OutsideSourceRoot(p) => ArchiveErrorView::OutsideSourceRoot(p@),
            ArchiveError::HashSuffixesExhausted(p) => ArchiveErrorView::HashSuffixesExhausted(p@),
        }
    }
}

/// The words for an error.
pub open spec fn error_message(e: ArchiveErrorView) -> Seq<char> {
    match e {
        ArchiveErrorView::Io(_) => "filesystem error"@,
        ArchiveErrorView::NotAnArchive(p) => text::utf8_lossy(p)
            + " is not a thylacine archive (run `init --dest` first)"@,
        ArchiveErrorView::AlreadyInitialised(p) => text::utf8_lossy(p)
            + " is already a thylacine archive"@,
        ArchiveErrorView::MalformedConfig(why) => "malformed archive config: "@ + why,
        ArchiveErrorView::UnsupportedVersion(v) => "archive format version "@
            + text::decimal(v as nat) + " is newer than this build supports"@,
        ArchiveErrorView::OutsideSourceRoot(p) => text::utf8_lossy(p)
            + " is not beneath its source root"@,
        ArchiveErrorView::HashSuffixesExhausted(p) => "could not find a free name for "@
            + text::utf8_lossy(p),
    }
}

impl ArchiveError {
    /// The error in words.
    pub fn message(&self) -> (text: String)
        ensures
            text@ == error_message(self@),
    {
        match self {
            ArchiveError::Io(_) => "filesystem error".to_owned(),
            ArchiveError::NotAnArchive(p) => decode_lossy(p.as_bytes()).concat(
                " is not a thylacine archive (run `init --dest` first)",
            ),
            ArchiveError::AlreadyInitialised(p) => decode_lossy(p.as_bytes()).concat(
                " is already a thylacine archive",
            ),
            ArchiveError::MalformedConfig(why) => "malformed archive config: ".to_owned().concat(
                why.as_str(),
            ),
            ArchiveError::UnsupportedVersion(v) => {
                let version = decimal_text(*v as u64);
                "archive format version ".to_owned().concat(version.as_str()).concat(
                    " is newer than this build supports",
                )
            },
            ArchiveError::OutsideSourceRoot(p) => decode_lossy(p.as_bytes()).concat(
                " is not beneath its source root",
            ),
            ArchiveError::HashSuffixesExhausted(p) => {
                let path = decode_lossy(p.as_bytes());
                "could not find a free name for ".to_owned().concat(path.as_str())
            },
        }
    }

    /// The error beneath this one, if the file system gave one.
    pub fn source(&self) -> (cause: Option<&std::io::Error>)
        ensures
            match cause {
                Some(e) => self@ == ArchiveErrorView::Io(*e),
                None => !(self@ is Io),
            },
    {
        match self {
            ArchiveError::Io(e) => Some(e),
            _ => None,
        }
    }
}

impl From<std::io::Error> for ArchiveError {
    fn from(e: std::io::Error) -> (error: ArchiveError) {
        ArchiveError::Io(e)
    }
}

impl vstd::std_specs::convert::FromSpecImpl<std::io::Error> for ArchiveError {
    open spec fn obeys_from_spec() -> bool {
        true
    }

    open spec fn from_spec(e: std::io::Error) -> ArchiveError {
        ArchiveError::Io(e)
    }
}

/// An archive: where it lies, and the id that it was given when it was made.
pub struct Archive {
    root: FilePath,
    id: String,
}

/// An [`Archive`] with its path as bytes and its id as characters.
pub struct ArchiveView {
    pub root: Seq<u8>,
    pub id: Seq<char>,
}

impl View for Archive {
    type V = ArchiveView;

    closed spec fn view(&self) -> ArchiveView {
        ArchiveView { root: self.root@, id: self.id@ }
    }
}

impl Clone for Archive {
    fn clone(&self) -> (copy: Archive)
        ensures
            copy@ == self@,
    {
        Archive { root: self.root.clone(), id: self.id.clone() }
    }
}

/// A directory that may become an archive.
pub struct NewArchive {
    root: FilePath,
}

impl View for NewArchive {
    type V = Seq<u8>;

    closed spec fn view(&self) -> Seq<u8> {
        self.root@
    }
}

/// The complaint about a key that a config file lacks.
pub open spec fn missing(key: Seq<char>) -> Seq<char> {
    "missing `"@ + key + "`"@
}

/// What a config file makes of a directory; `None` stands for a directory without one.
pub open spec fn opened(
    root: Seq<u8>,
    config: Option<Result<Seq<char>, std::io::Error>>,
) -> Result<ArchiveView, ArchiveErrorView> {
    match config {
        None => Err(ArchiveErrorView::NotAnArchive(root)),
        Some(Err(e)) => Err(ArchiveErrorView::Io(e)),
        Some(Ok(text)) => match config::field_value(text, "version"@) {
            None => Err(ArchiveErrorView::MalformedConfig(missing("version"@))),
            Some(version) => match text::number(version) {
                Some(v) => if v > u32::MAX {
                    Err(ArchiveErrorView::MalformedConfig("version is not a number"@))
                } else if v > FORMAT_VERSION {
                    Err(ArchiveErrorView::UnsupportedVersion(v as u32))
                } else {
                    match config::field_value(text, "id"@) {
                        None => Err(ArchiveErrorView::MalformedConfig(missing("id"@))),
                        Some(id) => Ok(ArchiveView { root, id }),
                    }
                },
                None => Err(ArchiveErrorView::MalformedConfig("version is not a number"@)),
            },
        },
    }
}

/// An attempt to read a config file, with its text as characters.
pub open spec fn config_read(config: Option<Result<String, std::io::Error>>) -> Option<
    Result<Seq<char>, std::io::Error>,
> {
    match config {
        None => None,
        Some(Err(e)) => Some(Err(e)),
        Some(Ok(text)) => Some(Ok(text@)),
    }
}

/// The value of a key in a config text.
pub fn field(text: &str, key: &str) -> (value: Result<String, ArchiveError>)
    ensures
        match value {
            Ok(v) => config::field_value(text@, key@) == Some(v@),
            Err(e) => config::field_value(text@, key@) is None && e@
                == ArchiveErrorView::MalformedConfig(missing(key@)),
        },
{
    let chars = characters(text);
    let word = characters(key);
    match field_range(chars.as_slice(), word.as_slice()) {
        Some((a, z)) => Ok(assemble(vstd::slice::slice_subrange(chars.as_slice(), a, z))),
        None => Err(
            ArchiveError::MalformedConfig("missing `".to_owned().concat(key).concat("`")),
        ),
    }
}

/// Where the config file of an archive at `root` lies.
pub open spec fn config_place(root: Seq<u8>) -> Seq<u8> {
    path::join(root, encode_utf8(CONFIG_FILE@))
}

/// The config file of an archive at `root`.
pub fn config_path(root: &FilePath) -> (path: FilePath)
    ensures
        path@ == config_place(root@),
{
    root.join(&FilePath::from_text(CONFIG_FILE))
}

impl Archive {
    /// Mark a directory as an archive, unless it is one: `config_exists` tells whether there is a
    /// file at its [`config_path`].
    ///
    /// The directory may already hold files: an archive assembled by hand is the expected
    /// starting point, not an edge case. All that is ever written is the config.
    pub fn init(root: &FilePath, config_exists: bool) -> (new: Result<NewArchive, ArchiveError>)
        ensures
            match new {
                Ok(n) => !config_exists && n@ == root@,
                Err(e) => config_exists && e@ == ArchiveErrorView::AlreadyInitialised(root@),
            },
    {
        if config_exists {
            Err(ArchiveError::AlreadyInitialised(root.clone()))
        } else {
            Ok(NewArchive { root: root.clone() })
        }
    }

    /// The archive at `root`, given what its config file holds (`None` if there is no such file).
    ///
    /// Refuses a directory that was never initialised, so a typo in `--dest` cannot quietly
    /// scatter 200 GB of photos somewhere unintended.
    pub fn open(root: &FilePath, config: Option<Result<String, std::io::Error>>) -> (archive:
        Result<Archive, ArchiveError>)
        ensures
            match archive {
                Ok(a) => opened(root@, config_read(config)) == Ok::<_, ArchiveErrorView>(a@),
                Err(e) => opened(root@, config_read(config)) == Err::<ArchiveView, _>(e@),
            },
    {
        let text = match config {
            None => {
                return Err(ArchiveError::NotAnArchive(root.clone()));
            },
            Some(Err(e)) => {
                return Err(ArchiveError::Io(e));
            },
            Some(Ok(text)) => text,
        };
        let written = match field(text.as_str(), "version") {
            Ok(v) => v,
            Err(e) => {
                return Err(e);
            },
        };
        let digits = characters(written.as_str());
        assert(digits@.subrange(0, digits@.len() as int) =~= digits@);
        match parse_u32(digits.as_slice(), 0, digits.len()) {
            None => {
                return Err(ArchiveError::MalformedConfig("version is not a number".to_owned()));
            },
            Some(version) => {
                if version > FORMAT_VERSION {
                    return Err(ArchiveError::UnsupportedVersion(version));
                }
            },
        }
        match field(text.as_str(), "id") {
            Ok(id) => Ok(Archive { root: root.clone(), id }),
            Err(e) => Err(e),
        }
    }

    pub fn id(&self) -> (id: &str)
        ensures
            id@ == self@.id,
    {
        self.id.as_str()
    }

    pub fn root(&self) -> (root: &FilePath)
        ensures
            root@ == self@.root,
    {
        &self.root
    }
}

impl NewArchive {
    /// The archive, and the text of the config file that makes the directory one. Its id is drawn
    /// from `entropy`.
    pub fn finish(self, entropy: &[u8; 32]) -> (made: (Archive, String))
        ensures
            made.0@ == (ArchiveView { root: self@, id: hash::hex(entropy@) }),
            made.0@.id.len() == 64,
            made.1@ == config::config_text(made.0@.id),
    {
        let id = to_hex(entropy);
        let text = render(id.as_str());
        (Archive { root: self.root, id }, text)
    }
}

/// An archive that was just made is found again, with its id, wherever its directory lies by
/// then.
pub proof fn law_open_recovers_the_id(entropy: Seq<u8>, root: Seq<u8>)
    requires
        entropy.len() == 32,
    ensures
        ({
            let id = hash::hex(entropy);
            opened(root, Some(Ok(config::config_text(id)))) == Ok::<_, ArchiveErrorView>(
                ArchiveView { root, id },
            )
        }),
{
    let id = hash::hex(entropy);
    assert forall|k: int| 0 <= k < id.len() implies !text::is_space(#[trigger] id[k])
        && id[k] != '\n' by {
        let n = if k % 2 == 0 {
            entropy[k / 2] as int / 16
        } else {
            entropy[k / 2] as int % 16
        };
        assert(id[k] == hash::hex_digit(n));
    }
    assert(!text::is_space(id[0]) && !text::is_space(id[63]));
    config::law_config_round_trip(id);
    text::law_decimal_round_trip(FORMAT_VERSION as nat);
}

// ---------------------------------------------------------------------------------------------
// Where a file belongs.
// ---------------------------------------------------------------------------------------------

/// Where a source file wants to live, relative to the archive root; `None` for a file that is not
/// beneath the source root, or that leaves it by `..` segments. (An absolute path is not beneath an
/// empty one.)
pub open spec fn target(source_root: Seq<u8>, file: Seq<u8>) -> Option<Seq<u8>> {
    match path::strip_prefix(file, source_root) {
        None => None,
        Some(relative) => if path::is_absolute(relative) || path::components(relative).contains(
            path::parent_dir(),
        ) {
            None
        } else {
            match path::file_name(source_root) {
                Some(name) => Some(path::join(name, relative)),
                None => Some(relative),
            }
        },
    }
}

impl Archive {
    /// Where a source file wants to live, relative to the archive root.
    ///
    /// The source root's own name becomes the top-level directory, and everything below it is
    /// preserved verbatim. That is what makes two machines' `Pictures/2023/` folders merge while
    /// `Documents/` stays separate: no guessing from file extensions.
    pub fn target_path(&self, source_root: &FilePath, file: &FilePath) -> (path: Result<
        FilePath,
        ArchiveError,
    >)
        ensures
            match path {
                Ok(p) => target(source_root@, file@) == Some(p@),
                Err(e) => target(source_root@, file@) is None && e@
                    == ArchiveErrorView::OutsideSourceRoot(file@),
            },
    {
        let relative = match file.strip_prefix(source_root) {
            Some(r) => r,
            None => {
                return Err(ArchiveError::OutsideSourceRoot(file.clone()));
            },
        };
        // Refuse absolute paths and `..` segments; a crafted path must not escape the archive.
        if relative.is_absolute() || relative.has_parent_dir() {
            return Err(ArchiveError::OutsideSourceRoot(file.clone()));
        }
        // A root like `/` has no final component; fall back to the bare relative path rather
        // than inventing a name.
        match source_root.file_name() {
            Some(name) => Ok(FilePath::from_bytes(name).join(&relative)),
            None => Ok(relative),
        }
    }
}

/// The top-level directory that a source root becomes: its last component, where that is a name.
pub open spec fn top_level(source_root: Seq<u8>) -> Seq<Seq<u8>> {
    match path::file_name(source_root) {
        Some(name) => seq![name],
        None => Seq::empty(),
    }
}

/// A file that has a target is not absolute where its source root is empty.
proof fn lemma_beneath(source_root: Seq<u8>, file: Seq<u8>)
    requires
        target(source_root, file) is Some,
    ensures
        path::components(source_root).len() > 0 || !path::is_absolute(file),
{
    if path::components(source_root).len() == 0 && path::is_absolute(file) {
        path::lemma_spans_bounds(file);
        assert(path::spans(file)[0] == (0int, 1int));
        assert(path::rest(file, 0)[0] == file[0]);
    }
}

/// The source tree is replicated under its own name: a file lands in the directory that is named
/// like the source root, and the components below the source root are kept as they are.
pub proof fn law_target_replicates_the_tree(source_root: Seq<u8>, file: Seq<u8>)
    requires
        target(source_root, file) is Some,
    ensures
        path::components(target(source_root, file)->0) == top_level(source_root)
            + path::components(file).skip(path::components(source_root).len() as int),
{
    let k = path::components(source_root).len() as int;
    let relative = path::rest(file, k);
    lemma_beneath(source_root, file);
    path::lemma_rest_components(file, k);
    path::lemma_component_names(file);
    if path::components(relative).len() > 0 {
        assert(path::components(relative)[0] == path::components(file)[k]);
    }
    match path::file_name(source_root) {
        Some(name) => {
            path::lemma_component_plain(source_root, k - 1);
            path::lemma_single_component(name);
            path::lemma_join_components(name, relative);
        },
        None => {
            assert(top_level(source_root) + path::components(relative)
                =~= path::components(relative));
        },
    }
}

/// No two files of a source tree are taken for one another.
pub proof fn law_targets_are_distinct(source_root: Seq<u8>, a: Seq<u8>, b: Seq<u8>)
    requires
        target(source_root, a) is Some,
        target(source_root, b) is Some,
        path::components(a) != path::components(b),
    ensures
        path::components(target(source_root, a)->0) != path::components(target(source_root, b)->0),
{
    law_target_replicates_the_tree(source_root, a);
    law_target_replicates_the_tree(source_root, b);
    let root = path::components(source_root);
    let k = root.len() as int;
    let top = top_level(source_root);
    let (ca, cb) = (path::components(a), path::components(b));
    let (ta, tb) = (
        path::components(target(source_root, a)->0),
        path::components(target(source_root, b)->0),
    );
    if ta == tb {
        assert(ca.skip(k) =~= ta.skip(top.len() as int));
        assert(cb.skip(k) =~= tb.skip(top.len() as int));
        assert(ca =~= root + ca.skip(k));
        assert(cb =~= root + cb.skip(k));
    }
}

/// Every target lies inside the archive: it is relative and holds no `..`.
pub proof fn law_target_stays_inside(source_root: Seq<u8>, file: Seq<u8>)
    requires
        target(source_root, file) is Some,
    ensures
        !path::is_absolute(target(source_root, file)->0),
        !path::components(target(source_root, file)->0).contains(path::parent_dir()),
{
    law_target_replicates_the_tree(source_root, file);
    let k = path::components(source_root).len() as int;
    let t = target(source_root, file)->0;
    let relative = path::rest(file, k);
    lemma_beneath(source_root, file);
    path::lemma_rest_components(file, k);
    path::lemma_component_names(relative);
    path::lemma_component_names(t);
    let c = path::components(t);
    let top = top_level(source_root);
    assert forall|i: int| 0 <= i < c.len() implies c[i] != path::parent_dir() by {
        if i >= top.len() {
            assert(c[i] == path::components(relative)[i - top.len()]);
            assert(path::components(relative).contains(c[i]));
        }
    }
    if path::file_name(source_root) is None {
        assert(c =~= path::components(relative));
    }
}

/// Where a file belongs depends on the source root's components only: trailing slashes and the
/// like do not change it.
pub proof fn law_target_ignores_spelling(a: Seq<u8>, b: Seq<u8>, file: Seq<u8>)
    requires
        path::components(a) == path::components(b),
    ensures
        target(a, file) == target(b, file),
{
}

/// A trailing slash adds no component.
pub proof fn law_trailing_slash(path: Seq<u8>)
    requires
        path.len() > 0,
    ensures
        path::components(path + seq![path::SLASH]) == path::components(path),
{
    let none = Seq::<u8>::empty();
    assert(path::components(none) =~= Seq::<Seq<u8>>::empty());
    path::lemma_join_components(path, none);
    assert(path::components(path) + path::components(none)
        =~= path::components(path));
    if path.last() != path::SLASH {
        assert(path::join(path, none) =~= path + seq![path::SLASH]);
    } else {
        path::lemma_extra_slash(path);
    }
}

/// Whatever lies beneath a source root that has a name goes to that name, followed by the way that it
/// has beneath the root. Roots of one name share all of that, wherever they lie.
pub proof fn law_target_depends_on_the_name(root: Seq<u8>, name: Seq<u8>, relative: Seq<u8>)
    requires
        path::file_name(root) == Some(name),
        !path::is_absolute(relative),
        !path::components(relative).contains(path::parent_dir()),
    ensures
        target(root, path::join(root, relative)) is Some,
        path::components(target(root, path::join(root, relative))->0) == path::components(
            path::join(name, relative),
        ),
{
    let file = path::join(root, relative);
    let c = path::components(root);
    let k = c.len() as int;
    assert(root.len() > 0) by {
        if root.len() == 0 {
            assert(path::spans(root) =~= Seq::<(int, int)>::empty());
        }
    }
    path::lemma_join_below(root, relative);
    path::lemma_below(relative);
    path::lemma_rest_components(file, k);
    assert(c =~= path::components(file).take(k));
    let rest = path::components(file).skip(k);
    assert(rest =~= path::below(relative));
    if rest.contains(path::parent_dir()) {
        let i = choose|i: int| 0 <= i < rest.len() && rest[i] == path::parent_dir();
        assert(path::components(relative).contains(path::below(relative)[i]));
    }
    law_target_replicates_the_tree(root, file);
    path::lemma_component_plain(root, k - 1);
    path::lemma_single_component(name);
    path::lemma_join_below(name, relative);
}

/// Source roots of one name merge: files in like places beneath them get the same target.
pub proof fn law_like_named_roots_merge(
    a: Seq<u8>,
    b: Seq<u8>,
    file_a: Seq<u8>,
    file_b: Seq<u8>,
)
    requires
        target(a, file_a) is Some,
        target(b, file_b) is Some,
        path::file_name(a) is Some,
        path::file_name(a) == path::file_name(b),
        path::components(file_a).skip(path::components(a).len() as int)
            == path::components(file_b).skip(path::components(b).len() as int),
    ensures
        path::components(target(a, file_a)->0) == path::components(
            target(b, file_b)->0,
        ),
{
    law_target_replicates_the_tree(a, file_a);
    law_target_replicates_the_tree(b, file_b);
}

/// Source roots of different names stay separate: no two files beneath them get the same target.
pub proof fn law_other_named_roots_stay_separate(
    a: Seq<u8>,
    b: Seq<u8>,
    file_a: Seq<u8>,
    file_b: Seq<u8>,
)
    requires
        target(a, file_a) is Some,
        target(b, file_b) is Some,
        path::file_name(a) is Some,
        path::file_name(b) is Some,
        path::file_name(a) != path::file_name(b),
    ensures
        path::components(target(a, file_a)->0) != path::components(
            target(b, file_b)->0,
        ),
{
    law_target_replicates_the_tree(a, file_a);
    law_target_replicates_the_tree(b, file_b);
    assert(path::components(target(a, file_a)->0)[0] == path::file_name(a)->0);
    assert(path::components(target(b, file_b)->0)[0] == path::file_name(b)->0);
}

// ---------------------------------------------------------------------------------------------
// What an archive holds.
// ---------------------------------------------------------------------------------------------

/// The name under which a process writes a copy before it is complete.
pub open spec fn copy_name(pid: u32) -> Seq<u8> {
    encode_utf8(TMP_PREFIX@ + text::decimal(pid as nat))
}

/// Is this a name under which some process writes a copy?
pub open spec fn is_copy_name(name: Seq<u8>) -> bool {
    exists|pid: u32| name == #[trigger] copy_name(pid)
}

/// Does a file at this path look like a copy that is not complete?
pub open spec fn is_copy_path(p: Seq<u8>) -> bool {
    match path::file_name(p) {
        Some(name) => is_copy_name(name),
        None => false,
    }
}

/// What a walk of the archive says about its contents: the path of an archived file, relative to
/// the root, or an error. The archive's own config and copies that are not complete are not among its
/// contents.
pub open spec fn listed(
    root: Seq<u8>,
    found: Result<scan::FileView, scan::ErrorView>,
) -> Option<Result<Seq<u8>, scan::ErrorView>> {
    match found {
        Err(error) => Some(Err(error)),
        Ok(file) => match path::file_name(file.path) {
            None => None,
            Some(name) => match path::strip_prefix(file.path, root) {
                Some(relative) => if is_copy_name(name) || relative == encode_utf8(CONFIG_FILE@) {
                    None
                } else {
                    Some(Ok(relative))
                },
                None => None,
            },
        },
    }
}

/// What a whole walk of the archive says about its contents.
pub open spec fn listed_all(
    root: Seq<u8>,
    found: Seq<Result<scan::FileView, scan::ErrorView>>,
) -> Seq<Result<Seq<u8>, scan::ErrorView>>
    decreases found.len(),
{
    if found.len() == 0 {
        Seq::empty()
    } else {
        let before = listed_all(root, found.drop_last());
        match listed(root, found.last()) {
            Some(item) => before.push(item),
            None => before,
        }
    }
}

/// Is there a file among what a listing says?
pub open spec fn has_file(listed: Seq<Result<Seq<u8>, scan::ErrorView>>) -> bool {
    exists|i: int| 0 <= i < listed.len() && (#[trigger] listed[i]) is Ok
}

/// Is this a copy that an interrupted run left behind?
pub open spec fn is_stray(found: Result<scan::FileView, scan::ErrorView>) -> bool {
    match found {
        Err(_) => false,
        Ok(file) => is_copy_path(file.path),
    }
}

/// The files that interrupted runs left behind.
pub open spec fn strays(
    found: Seq<Result<scan::FileView, scan::ErrorView>>,
) -> Seq<Seq<u8>>
    decreases found.len(),
{
    if found.len() == 0 {
        Seq::empty()
    } else {
        let before = strays(found.drop_last());
        if is_stray(found.last()) {
            before.push(found.last()->Ok_0.path)
        } else {
            before
        }
    }
}

/// The name of a copy is a name, and not a long one.
pub proof fn lemma_copy_name(pid: u32)
    ensures
        2 < copy_name(pid).len() <= 25,
        forall|i: int| 0 <= i < copy_name(pid).len() ==> copy_name(pid)[i] != path::SLASH,
{
    let number = text::decimal(pid as nat);
    let t = TMP_PREFIX@ + number;
    let name = copy_name(pid);
    reveal_strlit(".thylacine-tmp-");
    text::lemma_decimal_digits(pid as nat);
    text::lemma_decimal_length(pid);
    assert forall|i: int| 0 <= i < t.len() implies '\0' <= #[trigger] t[i] <= '\u{7f}' && t[i]
        != '/' by {
        if i >= TMP_PREFIX@.len() {
            assert(text::is_digit(number[i - TMP_PREFIX@.len()]));
        }
    }
    assert(is_ascii_chars(t));
    is_ascii_chars_encode_utf8(t);
    assert forall|i: int| 0 <= i < name.len() implies name[i] != path::SLASH by {
        assert(t[i] as u8 == name[i]);
    }
}

/// Nothing is swept but copies that are not complete.
pub proof fn lemma_strays(found: Seq<Result<scan::FileView, scan::ErrorView>>)
    ensures
        forall|i: int| 0 <= i < strays(found).len() ==> is_copy_path(#[trigger] strays(found)[i]),
    decreases found.len(),
{
    if found.len() > 0 {
        lemma_strays(found.drop_last());
        let before = strays(found.drop_last());
        assert forall|i: int| 0 <= i < strays(found).len() implies is_copy_path(
            #[trigger] strays(found)[i],
        ) by {
            if i < before.len() {
                assert(strays(found)[i] == before[i]);
            }
        }
    }
}

/// What a walk handed out, with its paths as bytes.
pub open spec fn walked_all(found: Seq<Result<FileEntry, ScanError>>) -> Seq<
    Result<scan::FileView, scan::ErrorView>,
> {
    found.map_values(|r: Result<FileEntry, ScanError>| scan::walked(r))
}

/// Archived paths and errors, with the paths as bytes.
pub open spec fn paths_view(found: Seq<Result<FilePath, ScanError>>) -> Seq<
    Result<Seq<u8>, scan::ErrorView>,
> {
    found.map_values(
        |r: Result<FilePath, ScanError>|
            match r {
                Ok(p) => Ok::<Seq<u8>, scan::ErrorView>(p@),
                Err(e) => Err(e@),
            },
    )
}

/// The name under which process `pid` writes a copy before it is complete.
pub fn name_of_copy(pid: u32) -> (name: String)
    ensures
        name@ == TMP_PREFIX@ + text::decimal(pid as nat),
{
    let mut name = TMP_PREFIX.to_owned();
    let number = decimal_text(pid as u64);
    name.append(number.as_str());
    name
}

/// Is this a name under which some process writes a copy?
pub fn names_a_copy(name: &[u8]) -> (yes: bool)
    ensures
        yes == is_copy_name(name@),
{
    proof {
        if valid_utf8(name@) {
            decode_utf8_encode_utf8(name@);
        }
        assert forall|pid: u32| name@ == #[trigger] copy_name(pid) implies valid_utf8(name@)
            && decode_utf8(name@) == TMP_PREFIX@ + text::decimal(pid as nat) by {
            encode_utf8_valid_utf8(TMP_PREFIX@ + text::decimal(pid as nat));
            encode_utf8_decode_utf8(TMP_PREFIX@ + text::decimal(pid as nat));
        }
    }
    let spelled = match decode(name) {
        Some(t) => t,
        None => {
            return false;
        },
    };
    let chars = characters(spelled);
    let n = characters(TMP_PREFIX).len();
    if chars.len() < n {
        return false;
    }
    let ghost digits = chars@.subrange(n as int, chars@.len() as int);
    proof {
        assert forall|pid: u32| name@ == #[trigger] copy_name(pid) implies text::number(digits)
            == Some(pid as nat) by {
            assert(digits =~= text::decimal(pid as nat));
            text::law_decimal_round_trip(pid as nat);
        }
    }
    match parse_u32(chars.as_slice(), n, chars.len()) {
        Some(pid) => {
            let made = name_of_copy(pid);
            let same = same_text(spelled, made.as_str());
            assert(same ==> name@ == copy_name(pid));
            same
        },
        None => false,
    }
}

impl Archive {
    /// Is this walked file or error among the archive's contents, and as what?
    fn listed_path(&self, entry: &FileEntry) -> (relative: Option<FilePath>)
        ensures
            match relative {
                Some(p) => listed(self@.root, Ok(entry@)) == Some(
                    Ok::<Seq<u8>, scan::ErrorView>(p@),
                ),
                None => listed(self@.root, Ok(entry@)) is None,
            },
    {
        let name = match entry.path.file_name() {
            Some(n) => n,
            None => {
                return None;
            },
        };
        let relative = match entry.path.strip_prefix(&self.root) {
            Some(r) => r,
            None => {
                return None;
            },
        };
        if names_a_copy(name.as_slice()) || same_bytes(relative.as_bytes(), CONFIG_FILE.as_bytes()) {
            None
        } else {
            Some(relative)
        }
    }

    /// The relative path of every file currently in the archive directory, given what a walk of
    /// it found. Errors of the walk are handed on.
    ///
    /// This is how an archive which has been prepopulated with files, or has had those files
    /// reorganized, is indexed.
    pub fn get_archived_filepaths(&self, found: Vec<Result<FileEntry, ScanError>>) -> (paths: Vec<
        Result<FilePath, ScanError>,
    >)
        ensures
            paths_view(paths@) == listed_all(self@.root, walked_all(found@)),
    {
        let mut paths: Vec<Result<FilePath, ScanError>> = Vec::new();
        let ghost all = walked_all(found@);
        for r in it: found
            invariant
                all == walked_all(it.seq()),
                paths_view(paths@) == listed_all(self@.root, all.take(it.index() as int)),
        {
            let ghost before = paths@;
            let ghost seen = all.take(it.index() + 1);
            assert(seen.drop_last() =~= all.take(it.index() as int));
            assert(seen.last() == scan::walked(r));
            match r {
                Ok(entry) => {
                    match self.listed_path(&entry) {
                        Some(p) => {
                            paths.push(Ok(p));
                            assert(paths_view(paths@) =~= paths_view(before).push(Ok(p@)));
                        },
                        None => {},
                    }
                },
                Err(e) => {
                    paths.push(Err(e));
                    assert(paths_view(paths@) =~= paths_view(before).push(Err(e@)));
                },
            }
        }
        assert(all.take(all.len() as int) =~= all);
        paths
    }

    /// Does this show that the archive holds a file?
    pub fn is_content(&self, found: &Result<FileEntry, ScanError>) -> (is: bool)
        ensures
            is == (listed(self@.root, scan::walked(*found)) matches Some(Ok(_))),
    {
        match found {
            Ok(entry) => self.listed_path(entry).is_some(),
            Err(_) => false,
        }
    }

    /// True if the archive holds at least one file, ignoring its own config, given what a walk of
    /// it found.
    pub fn has_contents(&self, found: &[Result<FileEntry, ScanError>]) -> (has: bool)
        ensures
            has == has_file(listed_all(self@.root, walked_all(found@))),
    {
        let ghost all = walked_all(found@);
        let mut i: usize = 0;
        while i < found.len()
            invariant
                all == walked_all(found@),
                i <= found.len(),
                !has_file(listed_all(self@.root, all.take(i as int))),
            decreases found.len() - i,
        {
            let ghost seen = all.take(i + 1);
            assert(seen.drop_last() =~= all.take(i as int));
            assert(seen.last() == scan::walked(found@[i as int]));
            let ghost before = listed_all(self@.root, all.take(i as int));
            let ghost now = listed_all(self@.root, seen);
            if self.is_content(&found[i]) {
                proof {
                    assert(now[before.len() as int] is Ok);
                    law_one_find_settles_it(self@.root, all, i + 1);
                }
                return true;
            }
            assert(!has_file(now)) by {
                assert forall|k: int| 0 <= k < now.len() implies !((#[trigger] now[k]) is Ok) by {
                    if k < before.len() {
                        assert(now[k] == before[k]);
                    }
                }
            }
            i += 1;
        }
        assert(all.take(i as int) =~= all);
        false
    }

    /// The files to remove because an interrupted run left them behind, given what a walk of the
    /// archive found. A file that is only named in a like manner is none of them.
    pub fn sweep_temp_files(&self, found: &[Result<FileEntry, ScanError>]) -> (paths: Vec<FilePath>)
        ensures
            path::bytes_of(paths@) == strays(walked_all(found@)),
    {
        let mut paths: Vec<FilePath> = Vec::new();
        let ghost all = walked_all(found@);
        let mut i: usize = 0;
        assert(path::bytes_of(paths@) =~= strays(all.take(0)));
        while i < found.len()
            invariant
                all == walked_all(found@),
                i <= found.len(),
                path::bytes_of(paths@) == strays(all.take(i as int)),
            decreases found.len() - i,
        {
            let ghost seen = all.take(i + 1);
            assert(seen.drop_last() =~= all.take(i as int));
            assert(seen.last() == scan::walked(found@[i as int]));
            match &found[i] {
                Ok(entry) => {
                    match entry.path.file_name() {
                        Some(name) => {
                            if names_a_copy(name.as_slice()) {
                                let ghost before = paths@;
                                let p = entry.path.clone();
                                paths.push(p);
                                assert(path::bytes_of(paths@) =~= path::bytes_of(before).push(p@));
                            }
                        },
                        None => {},
                    }
                },
                Err(_) => {},
            }
            i += 1;
        }
        assert(all.take(i as int) =~= all);
        paths
    }
}

/// The archive's own config is not among its contents.
pub proof fn law_the_config_is_not_listed(root: Seq<u8>, file: scan::FileView)
    requires
        file.path == config_place(root),
    ensures
        listed(root, Ok(file)) is None,
{
    let c = encode_utf8(CONFIG_FILE@);
    reveal_strlit("thylacine.conf");
    is_ascii_chars_encode_utf8(CONFIG_FILE@);
    assert forall|i: int| 0 <= i < c.len() implies c[i] != path::SLASH by {
        assert(CONFIG_FILE@[i] as u8 == c[i]);
    }
    path::lemma_single_component(c);
    let f = file.path;
    let k = path::components(root).len() as int;
    if root.len() == 0 {
        assert(f =~= c);
        assert(path::spans(root) =~= Seq::<(int, int)>::empty());
    } else {
        path::lemma_join_components(root, c);
    }
    assert(path::components(f) =~= path::components(root) + seq![c]);
    assert(path::components(root) =~= path::components(f).take(k));
    assert(path::spans(f).len() == k + 1);
    assert(path::rest(f, k) == path::components(f)[k]);
}

/// Where nothing that was found is a file of the archive, none is listed.
pub proof fn lemma_nothing_listed(
    root: Seq<u8>,
    found: Seq<Result<scan::FileView, scan::ErrorView>>,
)
    requires
        forall|i: int|
            0 <= i < found.len() ==> !(listed(root, #[trigger] found[i]) matches Some(Ok(_))),
    ensures
        !has_file(listed_all(root, found)),
    decreases found.len(),
{
    if found.len() > 0 {
        let before = listed_all(root, found.drop_last());
        let now = listed_all(root, found);
        assert forall|i: int| 0 <= i < found.len() - 1 implies !(listed(
            root,
            #[trigger] found.drop_last()[i],
        ) matches Some(Ok(_))) by {
            assert(found.drop_last()[i] == found[i]);
        }
        lemma_nothing_listed(root, found.drop_last());
        assert(found.last() == found[found.len() - 1]);
        assert forall|k: int| 0 <= k < now.len() implies !((#[trigger] now[k]) is Ok) by {
            if k < before.len() {
                assert(now[k] == before[k]);
            }
        }
    }
}

/// A walk of the archive can stop at the first find: whatever it finds later, the archive holds
/// something.
pub proof fn law_one_find_settles_it(
    root: Seq<u8>,
    found: Seq<Result<scan::FileView, scan::ErrorView>>,
    n: int,
)
    requires
        0 <= n <= found.len(),
    ensures
        has_file(listed_all(root, found.take(n))) ==> has_file(listed_all(root, found)),
    decreases found.len() - n,
{
    if n < found.len() {
        let (before, now) = (listed_all(root, found.take(n)), listed_all(root, found.take(n + 1)));
        assert(found.take(n + 1).drop_last() =~= found.take(n));
        if has_file(before) {
            let i = choose|i: int| 0 <= i < before.len() && (#[trigger] before[i]) is Ok;
            assert(now[i] is Ok);
        }
        law_one_find_settles_it(root, found, n + 1);
    } else {
        assert(found.take(n) =~= found);
    }
}

// ---------------------------------------------------------------------------------------------
// What the operations promise.
// ---------------------------------------------------------------------------------------------

/// No directory is taken for an archive that has no config file, wherever it lies and whatever it is
/// called; nor is one whose config file cannot be read.
pub proof fn law_no_archive_without_a_config(
    root: &FilePath,
    config: Option<Result<String, std::io::Error>>,
    archive: Result<Archive, ArchiveError>,
)
    requires
        call_ensures(Archive::open, (root, config), archive),
        !(config matches Some(Ok(_))),
    ensures
        archive matches Err(e) && match config {
            None => e@ == ArchiveErrorView::NotAnArchive(root@),
            Some(Err(cause)) => e@ == ArchiveErrorView::Io(cause),
            _ => false,
        },
{
}

/// An archive is what its config file says: it lies where it was looked for, its id is the one in the
/// file, and the format of the file is not newer than this library.
pub proof fn law_an_archive_is_what_its_config_says(
    root: &FilePath,
    text: String,
    archive: Result<Archive, ArchiveError>,
)
    requires
        call_ensures(Archive::open, (root, Some(Ok(text))), archive),
    ensures
        archive matches Ok(a) ==> {
            &&& a@.root == root@
            &&& config::field_value(text@, "id"@) == Some(a@.id)
            &&& config::field_value(text@, "version"@) matches Some(v) && text::number(
                v,
            ) matches Some(n) && n <= 1
        },
        (config::field_value(text@, "version"@) matches Some(v) && text::number(v) matches Some(n)
            && n <= 1) && config::field_value(text@, "id"@) is Some ==> archive is Ok,
        config::field_value(text@, "version"@) is None ==> (archive matches Err(e)
            && e@ is MalformedConfig),
        config::field_value(text@, "id"@) is None ==> archive is Err,
        (config::field_value(text@, "version"@) matches Some(v) && text::number(v) is None) ==> (
        archive matches Err(e) && e@ is MalformedConfig),
        (config::field_value(text@, "version"@) matches Some(v) && text::number(v) matches Some(n)
            && n <= 1) && config::field_value(text@, "id"@) is None ==> (archive matches Err(e)
            && e@ is MalformedConfig),
        (config::field_value(text@, "version"@) matches Some(v) && text::number(v) matches Some(n)
            && 1 < n <= u32::MAX) ==> (archive matches Err(e)
            && e@ matches ArchiveErrorView::UnsupportedVersion(u) && text::number(
            config::field_value(text@, "version"@)->0,
        ) == Some(u as nat)),
        (config::field_value(text@, "version"@) matches Some(v) && text::number(v) matches Some(n)
            && n > u32::MAX) ==> (archive matches Err(e) && e@ is MalformedConfig),
{
}

/// An archive of a newer format is refused, with the version that it has, whatever else its config file
/// says.
pub proof fn law_a_newer_format_is_refused(
    root: &FilePath,
    version: u32,
    others: Seq<char>,
    text: String,
    archive: Result<Archive, ArchiveError>,
)
    requires
        call_ensures(Archive::open, (root, Some(Ok(text))), archive),
        version > 1,
        text@ == "version"@ + seq![' ', '=', ' '] + text::decimal(version as nat) + seq!['\n']
            + others,
    ensures
        archive matches Err(e) && e@ == ArchiveErrorView::UnsupportedVersion(version),
{
    let v = text::decimal(version as nat);
    text::lemma_decimal_digits(version as nat);
    assert(text::is_digit(v[0]) && text::is_digit(v[v.len() - 1]));
    reveal_strlit("version");
    assert forall|k: int| 0 <= k < v.len() implies v[k] != '\n' by {
        assert(text::is_digit(v[k]));
    }
    config::law_the_first_line_counts("version"@, v, others);
    text::law_decimal_round_trip(version as nat);
}

/// A directory is marked as an archive exactly if it is none yet, and all of this concerns the directory
/// that was named.
pub proof fn law_no_archive_is_marked_twice(
    root: &FilePath,
    config_exists: bool,
    new: Result<NewArchive, ArchiveError>,
)
    requires
        call_ensures(Archive::init, (root, config_exists), new),
    ensures
        new is Ok <==> !config_exists,
        new matches Ok(n) ==> n@ == root@,
        new matches Err(e) ==> e@ == ArchiveErrorView::AlreadyInitialised(root@),
{
}

/// What was marked as an archive is one: the config file that was written opens it again, wherever it was
/// moved, with the id that it was given. Archives that were made from different random bytes have
/// different ids, of 64 characters.
pub proof fn law_a_marked_archive_opens(
    root: &FilePath,
    new: NewArchive,
    entropy: &[u8; 32],
    made: (Archive, String),
    elsewhere: &FilePath,
    text: String,
    opened: Result<Archive, ArchiveError>,
    other: NewArchive,
    others: &[u8; 32],
    too: (Archive, String),
)
    requires
        call_ensures(Archive::init, (root, false), Ok(new)),
        call_ensures(NewArchive::finish, (new, entropy), made),
        text@ == made.1@,
        call_ensures(Archive::open, (elsewhere, Some(Ok(text))), opened),
        call_ensures(NewArchive::finish, (other, others), too),
    ensures
        made.0@.root == root@,
        made.0@.id.len() == 64,
        opened matches Ok(a) && a@.root == elsewhere@ && a@.id == made.0@.id,
        entropy@ != others@ ==> made.0@.id != too.0@.id,
{
    law_open_recovers_the_id(entropy@, elsewhere@);
    if hash::hex(entropy@) == hash::hex(others@) {
        hash::law_hex_injective(entropy@, others@);
    }
}

/// The config file of an archive lies in its directory, and is called `thylacine.conf`.
pub proof fn law_the_config_lies_in_the_archive(root: &FilePath, place: FilePath)
    requires
        call_ensures(config_path, (root,), place),
        root@.len() > 0,
    ensures
        path::components(place@) == path::components(root@).push(encode_utf8("thylacine.conf"@)),
{
    let c = encode_utf8(CONFIG_FILE@);
    reveal_strlit("thylacine.conf");
    is_ascii_chars_encode_utf8(CONFIG_FILE@);
    assert forall|i: int| 0 <= i < c.len() implies c[i] != path::SLASH by {
        assert(CONFIG_FILE@[i] as u8 == c[i]);
    }
    path::lemma_single_component(c);
    path::lemma_join_components(root@, c);
    assert(path::components(root@) + seq![c] =~= path::components(root@).push(c));
}

/// Does a file lie beneath a source root, without leaving it again by `..`?
pub open spec fn is_beneath(source_root: Seq<u8>, file: Seq<u8>) -> bool {
    let (r, f) = (path::components(source_root), path::components(file));
    &&& r.len() <= f.len()
    &&& forall|i: int| 0 <= i < r.len() ==> r[i] == f[i]
    &&& forall|i: int| r.len() <= i < f.len() ==> f[i] != seq![path::DOT, path::DOT]
    &&& r.len() == 0 ==> (f.len() > 0 ==> f[0] != seq![path::SLASH])
}

/// Every file beneath its source root has a place in the archive: in the directory that is named like
/// the root, with all components that it has below the root. No other file has one.
pub proof fn law_every_file_beneath_its_root_has_a_place(
    archive: &Archive,
    source_root: &FilePath,
    file: &FilePath,
    place: Result<FilePath, ArchiveError>,
)
    requires
        call_ensures(Archive::target_path, (archive, source_root, file), place),
    ensures
        place is Ok <==> is_beneath(source_root@, file@),
        place matches Ok(p) ==> ({
            let (r, f) = (path::components(source_root@), path::components(file@));
            let below = f.subrange(r.len() as int, f.len() as int);
            path::components(p@) == if r.len() > 0 && r.last() != seq![path::SLASH] && r.last()
                != seq![path::DOT] && r.last() != seq![path::DOT, path::DOT] {
                seq![r.last()] + below
            } else {
                below
            }
        }),
        place matches Err(e) ==> e@ == ArchiveErrorView::OutsideSourceRoot(file@),
{
    let (r, f) = (path::components(source_root@), path::components(file@));
    let k = r.len() as int;
    path::lemma_component_names(file@);
    if r.is_prefix_of(f) {
        assert forall|i: int| 0 <= i < k implies r[i] == f[i] by {
            assert(f.take(k)[i] == f[i]);
        }
        if k > 0 || !path::is_absolute(file@) {
            path::lemma_rest_components(file@, k);
            let below = path::components(path::rest(file@, k));
            assert(below == f.skip(k));
            assert forall|i: int| k <= i < f.len() implies f[i] == below[i - k] by {}
            if below.contains(path::parent_dir()) {
                let j = choose|j: int| 0 <= j < below.len() && below[j] == path::parent_dir();
                assert(f[j + k] == path::parent_dir());
            }
        } else {
            path::lemma_spans_bounds(file@);
            assert(path::spans(file@)[0] == (0int, 1int));
            assert(path::rest(file@, 0)[0] == file@[0]);
        }
    } else if is_beneath(source_root@, file@) {
        assert(r =~= f.take(k));
    }
    if place is Ok {
        law_target_replicates_the_tree(source_root@, file@);
        let below = f.subrange(k, f.len() as int);
        assert(f.skip(k) =~= below);
        assert(top_level(source_root@) + below =~= if k > 0 && path::is_name(r.last()) {
            seq![r.last()] + below
        } else {
            below
        });
    }
}

/// Is this the name of a copy that a process has not completed?
pub open spec fn is_unfinished(name: Seq<u8>) -> bool {
    exists|pid: u32|
        name == encode_utf8(".thylacine-tmp-"@ + #[trigger] text::decimal(pid as nat))
}

/// Is this a file that the archive holds for somebody: beneath its root, not its own config, and no
/// copy that is not complete?
pub open spec fn is_held(root: Seq<u8>, p: Seq<u8>, relative: Seq<u8>) -> bool {
    &&& path::file_name(p) matches Some(name) && !is_unfinished(name)
    &&& path::strip_prefix(p, root) == Some(relative)
    &&& relative != encode_utf8("thylacine.conf"@)
}

/// Has the walk found such a file?
pub open spec fn is_held_at(
    root: Seq<u8>,
    found: Result<FileEntry, ScanError>,
    relative: Seq<u8>,
) -> bool {
    found matches Ok(f) && is_held(root, f.path@, relative)
}

/// A name that copies have is the name of a copy that is not complete.
pub proof fn lemma_unfinished(name: Seq<u8>)
    ensures
        is_copy_name(name) == is_unfinished(name),
{
    if is_copy_name(name) {
        let pid = choose|pid: u32| name == #[trigger] copy_name(pid);
        assert(name == encode_utf8(".thylacine-tmp-"@ + text::decimal(pid as nat)));
    }
    if is_unfinished(name) {
        let pid = choose|pid: u32|
            name == encode_utf8(".thylacine-tmp-"@ + #[trigger] text::decimal(pid as nat));
        assert(name == copy_name(pid));
    }
}

/// What is listed is what was found, item by item.
pub proof fn lemma_listed_all(
    root: Seq<u8>,
    found: Seq<Result<scan::FileView, scan::ErrorView>>,
)
    ensures
        forall|i: int|
            0 <= i < listed_all(root, found).len() ==> exists|k: int|
                0 <= k < found.len() && listed(root, #[trigger] found[k]) == Some(
                    #[trigger] listed_all(root, found)[i],
                ),
        forall|k: int|
            0 <= k < found.len() ==> (listed(root, #[trigger] found[k]) matches Some(x)
                ==> listed_all(root, found).contains(x)),
    decreases found.len(),
{
    if found.len() > 0 {
        let n = found.len() - 1;
        let front = found.drop_last();
        let (before, now) = (listed_all(root, front), listed_all(root, found));
        lemma_listed_all(root, front);
        assert forall|i: int| 0 <= i < now.len() implies exists|k: int|
            0 <= k < found.len() && listed(root, #[trigger] found[k]) == Some(
                #[trigger] now[i],
            ) by {
            if i < before.len() {
                assert(now[i] == before[i]);
                let k = choose|k: int|
                    0 <= k < front.len() && listed(root, #[trigger] front[k]) == Some(before[i]);
                assert(found[k] == front[k]);
            } else {
                assert(found[n] == found.last());
            }
        }
        assert forall|k: int| 0 <= k < found.len() implies (listed(
            root,
            #[trigger] found[k],
        ) matches Some(x) ==> now.contains(x)) by {
            if let Some(x) = listed(root, found[k]) {
                if k < n {
                    assert(front[k] == found[k]);
                    let i = choose|i: int| 0 <= i < before.len() && before[i] == x;
                    assert(now[i] == x);
                } else {
                    assert(now[before.len() as int] == x);
                }
            }
        }
    }
}

/// Every file that the archive holds is listed, by its way from the root; every error of the walk is
/// handed on; and nothing else is listed.
pub proof fn law_every_file_is_listed(
    archive: &Archive,
    found: Vec<Result<FileEntry, ScanError>>,
    paths: Vec<Result<FilePath, ScanError>>,
)
    requires
        call_ensures(Archive::get_archived_filepaths, (archive, found), paths),
    ensures
        forall|k: int, relative: Seq<u8>|
            0 <= k < found@.len() && #[trigger] is_held_at(archive@.root, found@[k], relative) ==> paths_view(paths@).contains(Ok(relative)),
        forall|k: int|
            0 <= k < found@.len() ==> (#[trigger] found@[k] matches Err(e) ==> paths_view(
                paths@,
            ).contains(Err(e@))),
        forall|i: int|
            0 <= i < paths@.len() ==> exists|k: int|
                0 <= k < found@.len() && match (#[trigger] paths@[i], #[trigger] found@[k]) {
                    (Ok(p), Ok(f)) => is_held(archive@.root, f.path@, p@),
                    (Err(d), Err(e)) => d@ == e@,
                    _ => false,
                },
{
    let root = archive@.root;
    let all = walked_all(found@);
    let view = paths_view(paths@);
    lemma_listed_all(root, all);
    assert forall|k: int, relative: Seq<u8>|
        0 <= k < found@.len() && #[trigger] is_held_at(root, found@[k], relative) implies view.contains(Ok(relative)) by {
        let f = found@[k]->Ok_0;
        lemma_unfinished(path::file_name(f.path@)->0);
        assert(all[k] == Ok::<scan::FileView, scan::ErrorView>(f@));
        assert(listed(root, all[k]) == Some(Ok::<Seq<u8>, scan::ErrorView>(relative)));
    }
    assert forall|k: int| 0 <= k < found@.len() implies (#[trigger] found@[k] matches Err(e)
        ==> view.contains(Err(e@))) by {
        if let Err(e) = found@[k] {
            assert(all[k] == Err::<scan::FileView, scan::ErrorView>(e@));
            assert(listed(root, all[k]) == Some(Err::<Seq<u8>, scan::ErrorView>(e@)));
        }
    }
    assert forall|i: int| 0 <= i < paths@.len() implies exists|k: int|
        0 <= k < found@.len() && match (#[trigger] paths@[i], #[trigger] found@[k]) {
            (Ok(p), Ok(f)) => is_held(root, f.path@, p@),
            (Err(d), Err(e)) => d@ == e@,
            _ => false,
        } by {
        assert(view[i] == listed_all(root, all)[i]);
        let k = choose|k: int|
            0 <= k < all.len() && listed(root, #[trigger] all[k]) == Some(listed_all(root, all)[i]);
        assert(all[k] == scan::walked(found@[k]));
        if let Ok(f) = found@[k] {
            lemma_unfinished(path::file_name(f.path@)->0);
        }
    }
}

/// An archive has contents exactly if the walk has found a file that it holds.
pub proof fn law_an_archive_with_a_file_has_contents(
    archive: &Archive,
    found: &[Result<FileEntry, ScanError>],
    filled: bool,
)
    requires
        call_ensures(Archive::has_contents, (archive, found), filled),
    ensures
        filled <==> exists|k: int, relative: Seq<u8>|
            0 <= k < found@.len() && #[trigger] is_held_at(archive@.root, found@[k], relative),
{
    let root = archive@.root;
    let all = walked_all(found@);
    let items = listed_all(root, all);
    lemma_listed_all(root, all);
    if filled {
        let i = choose|i: int| 0 <= i < items.len() && (#[trigger] items[i]) is Ok;
        let k = choose|k: int| 0 <= k < all.len() && listed(root, #[trigger] all[k]) == Some(items[i]);
        assert(all[k] == scan::walked(found@[k]));
        let f = found@[k]->Ok_0;
        lemma_unfinished(path::file_name(f.path@)->0);
        assert(is_held_at(root, found@[k], items[i]->Ok_0));
    }
    if exists|k: int, relative: Seq<u8>|
        0 <= k < found@.len() && #[trigger] is_held_at(root, found@[k], relative) {
        let (k, relative) = choose|k: int, relative: Seq<u8>|
            0 <= k < found@.len() && #[trigger] is_held_at(root, found@[k], relative);
        let f = found@[k]->Ok_0;
        lemma_unfinished(path::file_name(f.path@)->0);
        assert(all[k] == Ok::<scan::FileView, scan::ErrorView>(f@));
        assert(listed(root, all[k]) == Some(Ok::<Seq<u8>, scan::ErrorView>(relative)));
        let i = choose|i: int|
            0 <= i < items.len() && items[i] == Ok::<Seq<u8>, scan::ErrorView>(relative);
        assert(items[i] is Ok);
    }
}

/// Has the walk found a file at this path?
pub open spec fn was_found(found: Seq<Result<FileEntry, ScanError>>, p: Seq<u8>) -> bool {
    exists|k: int| 0 <= k < found.len() && (#[trigger] found[k] matches Ok(f) && f.path@ == p)
}

/// Every unfinished copy that the walk has found is swept, wherever in the archive it lies and whichever
/// process has left it, and nothing else is.
pub proof fn law_all_unfinished_copies_are_swept(
    archive: &Archive,
    found: &[Result<FileEntry, ScanError>],
    paths: Vec<FilePath>,
)
    requires
        call_ensures(Archive::sweep_temp_files, (archive, found), paths),
    ensures
        forall|k: int|
            0 <= k < found@.len() ==> (#[trigger] found@[k] matches Ok(f) ==> (path::file_name(
                f.path@,
            ) matches Some(name) && is_unfinished(name)) ==> path::bytes_of(paths@).contains(
                f.path@,
            )),
        forall|i: int|
            0 <= i < paths@.len() ==> (path::file_name((#[trigger] paths@[i])@) matches Some(name)
                && is_unfinished(name)),
        forall|i: int| 0 <= i < paths@.len() ==> was_found(found@, (#[trigger] paths@[i])@),
{
    let all = walked_all(found@);
    let swept = strays(all);
    lemma_strays(all);
    assert forall|k: int| 0 <= k < found@.len() implies (#[trigger] found@[k] matches Ok(f) ==> (
    path::file_name(f.path@) matches Some(name) && is_unfinished(name)) ==> path::bytes_of(
        paths@,
    ).contains(f.path@)) by {
        if let Ok(f) = found@[k] {
            if let Some(name) = path::file_name(f.path@) {
                lemma_unfinished(name);
                assert(all[k] == Ok::<scan::FileView, scan::ErrorView>(f@));
                if is_unfinished(name) {
                    lemma_stray_is_swept(all, k);
                }
            }
        }
    }
    assert forall|i: int| 0 <= i < paths@.len() implies (path::file_name(
        (#[trigger] paths@[i])@,
    ) matches Some(name) && is_unfinished(name)) by {
        assert(swept[i] == paths@[i]@);
        lemma_unfinished(path::file_name(swept[i])->0);
    }
    assert forall|i: int| 0 <= i < paths@.len() implies was_found(
        found@,
        (#[trigger] paths@[i])@,
    ) by {
        assert(swept[i] == paths@[i]@);
        let k = lemma_swept_was_walked(all, i);
        assert(all[k] == scan::walked(found@[k]));
    }
}

/// A stray is among those that are swept.
proof fn lemma_stray_is_swept(found: Seq<Result<scan::FileView, scan::ErrorView>>, k: int)
    requires
        0 <= k < found.len(),
        is_stray(found[k]),
    ensures
        strays(found).contains(found[k]->Ok_0.path),
    decreases found.len(),
{
    let front = found.drop_last();
    let before = strays(front);
    let now = strays(found);
    if k < front.len() {
        lemma_stray_is_swept(front, k);
        let i = choose|i: int| 0 <= i < before.len() && before[i] == front[k]->Ok_0.path;
        assert(now[i] == before[i]);
    } else {
        assert(now[before.len() as int] == found[k]->Ok_0.path);
    }
}

/// What is swept was found.
proof fn lemma_swept_was_walked(
    found: Seq<Result<scan::FileView, scan::ErrorView>>,
    i: int,
) -> (k: int)
    requires
        0 <= i < strays(found).len(),
    ensures
        0 <= k < found.len(),
        found[k] is Ok,
        found[k]->Ok_0.path == strays(found)[i],
    decreases found.len(),
{
    let front = found.drop_last();
    if i < strays(front).len() {
        assert(strays(found)[i] == strays(front)[i]);
        lemma_swept_was_walked(front, i)
    } else {
        found.len() - 1
    }
}

/// An error names the path, the number or the reason that it is about, and says what is wrong.
pub proof fn law_an_error_says_what_is_wrong(error: &ArchiveError, told: String)
    requires
        call_ensures(ArchiveError::message, (error,), told),
    ensures
        match *error {
            ArchiveError::Io(_) => told@ == "filesystem error"@,
            ArchiveError::NotAnArchive(p) => told@ == text::utf8_lossy(p@)
                + " is not a thylacine archive (run `init --dest` first)"@,
            ArchiveError::AlreadyInitialised(p) => told@ == text::utf8_lossy(p@)
                + " is already a thylacine archive"@,
            ArchiveError::MalformedConfig(why) => told@ == "malformed archive config: "@ + why@,
            ArchiveError::UnsupportedVersion(v) => told@ == "archive format version "@
                + text::decimal(v as nat) + " is newer than this build supports"@,
            ArchiveError::OutsideSourceRoot(p) => told@ == text::utf8_lossy(p@)
                + " is not beneath its source root"@,
            ArchiveError::HashSuffixesExhausted(p) => told@ == "could not find a free name for "@
                + text::utf8_lossy(p@),
        },
{
}

/// Processes write their copies under different names, each of which is known for what it is.
pub proof fn law_each_process_has_its_name(
    a: u32,
    b: u32,
    first: String,
    second: String,
    name: &[u8],
    known: bool,
)
    requires
        call_ensures(name_of_copy, (a,), first),
        call_ensures(name_of_copy, (b,), second),
        call_ensures(names_a_copy, (name,), known),
    ensures
        a != b ==> first@ != second@,
        first@ == ".thylacine-tmp-"@ + text::decimal(a as nat),
        name@ == encode_utf8(first@) ==> known,
        known <==> is_unfinished(name@),
{
    lemma_unfinished(name@);
    text::lemma_decimal_digits(a as nat);
    text::lemma_decimal_digits(b as nat);
    if first@ == second@ {
        let n = TMP_PREFIX@.len() as int;
        assert(first@.skip(n) =~= text::decimal(a as nat));
        assert(second@.skip(n) =~= text::decimal(b as nat));
    }
    assert(copy_name(a) == encode_utf8(first@));
}

} // verus!
