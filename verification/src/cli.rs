//! The command line.

use crate::path;
use crate::path::{same_bytes, FilePath};
use crate::text;
use crate::text::{decode, decode_lossy};
use vstd::prelude::*;
use vstd::utf8::*;

verus! {

pub const USAGE: &'static str = "\
thylacine — snapshot-based backup

USAGE:
    thylacine init   --dest <DIR>          mark a directory as an archive
    thylacine index  --dest <DIR>          hash everything already in it
    thylacine backup --dest <DIR> <SRC>... copy sources into the archive
    thylacine help

Each source tree is replicated under its own name, so /home/tom/Pictures
lands in Pictures/. Two machines with a Pictures folder merge into one.

To restore, just open the archive and copy what you want — no tool needed.

Use -- to end flag parsing if a source path begins with a dash.
";

/// What the user asks for.
#[derive(Debug, PartialEq, Eq)]
pub enum Command {
    Init { dest: FilePath },
    Backup { dest: FilePath, sources: Vec<FilePath> },
    /// Walk the archive and record what is already there.
    Index { dest: FilePath },
    Help,
}

/// A [`Command`] with its paths as bytes.
pub enum CommandView {
    Init(Seq<u8>),
    Backup(Seq<u8>, Seq<Seq<u8>>),
    Index(Seq<u8>),
    Help,
}

impl View for Command {
    type V = CommandView;

    open spec fn view(&self) -> CommandView {
        match *self {
            Command::Init { dest } => CommandView::Init(dest@),
            Command::Backup { dest, sources } => CommandView::Backup(dest@, path::bytes_of(sources@)),
            Command::Index { dest } => CommandView::Index(dest@),
            Command::Help => CommandView::Help,
        }
    }
}

/// Why the command line is not understood.
#[derive(Debug, PartialEq, Eq)]
pub enum CliError {
    NoCommand,
    UnknownCommand(String),
    UnknownFlag(String),
    /// Flag was given as the last argument, or followed by another flag.
    MissingValue(&'static str),
    MissingFlag(&'static str),
    NoSources,
    UnexpectedArgument(String),
}

/// A [`CliError`] with its texts as characters.
pub enum CliErrorView {
    NoCommand,
    UnknownCommand(Seq<char>),
    UnknownFlag(Seq<char>),
    MissingValue(Seq<char>),
    MissingFlag(Seq<char>),
    NoSources,
    UnexpectedArgument(Seq<char>),
}

impl View for CliError {
    type V = CliErrorView;

    open spec fn view(&self) -> CliErrorView {
        match *self {
            CliError::NoCommand => CliErrorView::NoCommand,
            CliError::UnknownCommand(c) => CliErrorView::UnknownCommand(c@),
            CliError::UnknownFlag(f) => CliErrorView::UnknownFlag(f@),
            CliError::MissingValue(f) => CliErrorView::MissingValue(f@),
            CliError::MissingFlag(f) => CliErrorView::MissingFlag(f@),
            CliError::NoSources => CliErrorView::NoSources,
            CliError::UnexpectedArgument(a) => CliErrorView::UnexpectedArgument(a@),
        }
    }
}

/// What the user is told.
pub open spec fn cli_message(e: CliErrorView) -> Seq<char> {
    match e {
        CliErrorView::NoCommand => "no command given"@,
        CliErrorView::UnknownCommand(c) => "unknown command: "@ + c,
        CliErrorView::UnknownFlag(f) => "unknown flag: "@ + f,
        CliErrorView::MissingValue(f) => f + " requires a value"@,
        CliErrorView::MissingFlag(f) => f + " is required"@,
        CliErrorView::NoSources => "at least one source path is required"@,
        CliErrorView::UnexpectedArgument(a) => "unexpected argument: "@ + a,
    }
}

fn joined(a: &str, b: &str) -> (text: String)
    ensures
        text@ == a@ + b@,
{
    let mut text = a.to_owned();
    text.append(b);
    text
}

impl CliError {
    /// What the user is told.
    pub fn message(&self) -> (text: String)
        ensures
            text@ == cli_message(self@),
    {
        match self {
            CliError::NoCommand => "no command given".to_owned(),
            CliError::UnknownCommand(c) => joined("unknown command: ", c.as_str()),
            CliError::UnknownFlag(f) => joined("unknown flag: ", f.as_str()),
            CliError::MissingValue(f) => joined(f, " requires a value"),
            CliError::MissingFlag(f) => joined(f, " is required"),
            CliError::NoSources => "at least one source path is required".to_owned(),
            CliError::UnexpectedArgument(a) => joined("unexpected argument: ", a.as_str()),
        }
    }
}

// ---------------------------------------------------------------------------------------------
// What the arguments mean.
// ---------------------------------------------------------------------------------------------

/// Is this text a flag? A dash alone is not.
pub open spec fn is_flag_text(t: Seq<char>) -> bool {
    t.len() > 1 && t[0] == '-'
}

/// Is this argument a flag? One that is not UTF-8 is not.
pub open spec fn looks_like(arg: Seq<u8>) -> bool {
    valid_utf8(arg) && is_flag_text(decode_utf8(arg))
}

/// The flag that names the archive.
pub open spec fn dest_flag() -> Seq<u8> {
    encode_utf8("--dest"@)
}

/// The argument that ends the flags.
pub open spec fn end_of_flags() -> Seq<u8> {
    encode_utf8("--"@)
}

/// Is there a value behind the flag at the front?
pub open spec fn has_value(args: Seq<Seq<u8>>) -> bool {
    args.len() > 1 && !looks_like(args[1])
}

/// The archive that `init` and `index` are about: exactly one `--dest`, no positionals. `dest` is
/// what was given so far.
pub open spec fn dest_from(args: Seq<Seq<u8>>, dest: Option<Seq<u8>>) -> Result<
    Seq<u8>,
    CliErrorView,
>
    decreases args.len(),
{
    if args.len() == 0 {
        match dest {
            Some(d) => Ok(d),
            None => Err(CliErrorView::MissingFlag("--dest"@)),
        }
    } else if args[0] == dest_flag() {
        if dest is Some {
            Err(CliErrorView::UnexpectedArgument("--dest"@))
        } else if has_value(args) {
            dest_from(args.skip(2), Some(args[1]))
        } else {
            Err(CliErrorView::MissingValue("--dest"@))
        }
    } else if looks_like(args[0]) {
        Err(CliErrorView::UnknownFlag(decode_utf8(args[0])))
    } else {
        Err(CliErrorView::UnexpectedArgument(text::utf8_lossy(args[0])))
    }
}

/// A backup to this archive of these sources, if both are there.
pub open spec fn backup_of(dest: Option<Seq<u8>>, sources: Seq<Seq<u8>>) -> Result<
    CommandView,
    CliErrorView,
> {
    match dest {
        None => Err(CliErrorView::MissingFlag("--dest"@)),
        Some(d) => if sources.len() == 0 {
            Err(CliErrorView::NoSources)
        } else {
            Ok(CommandView::Backup(d, sources))
        },
    }
}

/// The backup that the arguments ask for. `dest` and `sources` are what was given so far.
pub open spec fn backup_from(
    args: Seq<Seq<u8>>,
    dest: Option<Seq<u8>>,
    sources: Seq<Seq<u8>>,
) -> Result<CommandView, CliErrorView>
    decreases args.len(),
{
    if args.len() == 0 {
        backup_of(dest, sources)
    } else if args[0] == end_of_flags() {
        backup_of(dest, sources + args.skip(1))
    } else if args[0] == dest_flag() {
        if has_value(args) {
            backup_from(args.skip(2), Some(args[1]), sources)
        } else {
            Err(CliErrorView::MissingValue("--dest"@))
        }
    } else if looks_like(args[0]) {
        Err(CliErrorView::UnknownFlag(decode_utf8(args[0])))
    } else {
        backup_from(args.skip(1), dest, sources.push(args[0]))
    }
}

/// What the arguments, without the program's name, ask for.
pub open spec fn parsed(args: Seq<Seq<u8>>) -> Result<CommandView, CliErrorView> {
    if args.len() == 0 {
        Err(CliErrorView::NoCommand)
    } else {
        let c = args[0];
        let others = args.skip(1);
        if c == encode_utf8("init"@) {
            match dest_from(others, None) {
                Ok(d) => Ok(CommandView::Init(d)),
                Err(e) => Err(e),
            }
        } else if c == encode_utf8("backup"@) {
            backup_from(others, None, Seq::empty())
        } else if c == encode_utf8("index"@) {
            match dest_from(others, None) {
                Ok(d) => Ok(CommandView::Index(d)),
                Err(e) => Err(e),
            }
        } else if c == encode_utf8("help"@) || c == encode_utf8("--help"@) || c == encode_utf8(
            "-h"@,
        ) {
            Ok(CommandView::Help)
        } else {
            Err(CliErrorView::UnknownCommand(text::utf8_lossy(c)))
        }
    }
}

/// Arguments as bytes.
pub open spec fn arg_bytes(args: Seq<Vec<u8>>) -> Seq<Seq<u8>> {
    args.map_values(|a: Vec<u8>| a@)
}

/// A parsed path, as bytes.
pub open spec fn path_result(r: Result<FilePath, CliError>) -> Result<Seq<u8>, CliErrorView> {
    match r {
        Ok(p) => Ok(p@),
        Err(e) => Err(e@),
    }
}

/// A parsed command, with its paths as bytes.
pub open spec fn command_result(r: Result<Command, CliError>) -> Result<CommandView, CliErrorView> {
    match r {
        Ok(c) => Ok(c@),
        Err(e) => Err(e@),
    }
}

// ---------------------------------------------------------------------------------------------
// The parser.
// ---------------------------------------------------------------------------------------------

/// Is this text a flag?
pub fn is_flag(s: &str) -> (yes: bool)
    ensures
        yes == is_flag_text(s@),
{
    let mut count: usize = 0;
    let mut dash = false;
    for c in it: s.chars()
        invariant
            it.seq() == s@,
            count == (if it.index() < 2 {
                it.index() as int
            } else {
                2
            }),
            dash == (it.index() > 0 && s@[0] == '-'),
    {
        if count == 0 {
            dash = c == '-';
        }
        if count < 2 {
            count += 1;
        }
    }
    dash && count == 2
}

fn looks_like_flag(arg: &[u8]) -> (yes: bool)
    ensures
        yes == looks_like(arg@),
{
    match decode(arg) {
        Some(t) => is_flag(t),
        None => false,
    }
}

fn is_word(arg: &[u8], word: &str) -> (yes: bool)
    ensures
        yes == (arg@ == encode_utf8(word@)),
{
    same_bytes(arg, word.as_bytes())
}

/// The flag in an argument that looks like one.
fn unknown_flag(arg: &[u8]) -> (e: CliError)
    requires
        looks_like(arg@),
    ensures
        e@ == CliErrorView::UnknownFlag(decode_utf8(arg@)),
{
    CliError::UnknownFlag(decode_lossy(arg))
}

/// The value that follows the flag at position `i`.
///
/// Refuses a value that itself looks like a flag, so `--dest --into /tmp` fails on `--dest` rather
/// than silently backing up to a directory named `--into`.
fn value_for(flag: &'static str, args: &[Vec<u8>], i: usize) -> (value: Result<FilePath, CliError>)
    requires
        i < args@.len(),
    ensures
        match value {
            Ok(v) => has_value(arg_bytes(args@).skip(i as int)) && v@ == args@[i + 1]@,
            Err(e) => !has_value(arg_bytes(args@).skip(i as int)) && e@
                == CliErrorView::MissingValue(flag@),
        },
{
    let n = args.len();
    if i + 1 < n && !looks_like_flag(args[i + 1].as_slice()) {
        Ok(FilePath::from_bytes(args[i + 1].clone()))
    } else {
        Err(CliError::MissingValue(flag))
    }
}

/// Shared by `init` and `index`: exactly one `--dest`, no positionals. The arguments start at
/// position `from`.
fn dest_only(args: &[Vec<u8>], from: usize) -> (dest: Result<FilePath, CliError>)
    requires
        from <= args@.len(),
    ensures
        path_result(dest) == dest_from(arg_bytes(args@).skip(from as int), None),
{
    let ghost all = arg_bytes(args@);
    let mut dest: Option<FilePath> = None;
    let ghost mut given: Option<Seq<u8>> = None;
    let mut i: usize = from;
    while i < args.len()
        invariant
            all == arg_bytes(args@),
            from <= i <= args@.len(),
            match dest {
                Some(d) => given == Some(d@),
                None => given is None,
            },
            dest_from(all.skip(from as int), None) == dest_from(all.skip(i as int), given),
        decreases args@.len() - i,
    {
        let arg = args[i].as_slice();
        assert(all.skip(i as int)[0] == arg@);
        if is_word(arg, "--dest") {
            if dest.is_some() {
                return Err(CliError::UnexpectedArgument("--dest".to_owned()));
            }
            match value_for("--dest", args, i) {
                Ok(v) => {
                    proof {
                        given = Some(v@);
                        assert(all.skip(i as int).skip(2) =~= all.skip(i + 2));
                        assert(all.skip(i as int)[1] == v@);
                    }
                    dest = Some(v);
                    i += 2;
                },
                Err(e) => {
                    return Err(e);
                },
            }
        } else if looks_like_flag(arg) {
            return Err(unknown_flag(arg));
        } else {
            return Err(CliError::UnexpectedArgument(decode_lossy(arg)));
        }
    }
    match dest {
        Some(d) => Ok(d),
        None => Err(CliError::MissingFlag("--dest")),
    }
}

/// The backup that the arguments from position `from` on ask for.
fn parse_backup(args: &[Vec<u8>], from: usize) -> (command: Result<Command, CliError>)
    requires
        from <= args@.len(),
    ensures
        command_result(command) == backup_from(
            arg_bytes(args@).skip(from as int),
            None,
            Seq::empty(),
        ),
{
    let ghost all = arg_bytes(args@);
    let mut dest: Option<FilePath> = None;
    let ghost mut given: Option<Seq<u8>> = None;
    let mut sources: Vec<FilePath> = Vec::new();
    let mut flags_done = false;
    let mut i: usize = from;
    assert(path::bytes_of(sources@) =~= Seq::<Seq<u8>>::empty());
    while i < args.len()
        invariant
            all == arg_bytes(args@),
            from <= i <= args@.len(),
            match dest {
                Some(d) => given == Some(d@),
                None => given is None,
            },
            backup_from(all.skip(from as int), None, Seq::empty()) == if flags_done {
                backup_of(given, path::bytes_of(sources@) + all.skip(i as int))
            } else {
                backup_from(all.skip(i as int), given, path::bytes_of(sources@))
            },
        decreases args@.len() - i,
    {
        let arg = args[i].as_slice();
        let ghost others = all.skip(i as int);
        assert(others[0] == arg@);
        assert(others.skip(1) =~= all.skip(i + 1));
        if !flags_done {
            if is_word(arg, "--") {
                flags_done = true;
                i += 1;
                continue ;
            }
            if is_word(arg, "--dest") {
                match value_for("--dest", args, i) {
                    Ok(v) => {
                        proof {
                            given = Some(v@);
                            assert(others.skip(2) =~= all.skip(i + 2));
                            assert(others[1] == v@);
                        }
                        dest = Some(v);
                        i += 2;
                        continue ;
                    },
                    Err(e) => {
                        return Err(e);
                    },
                }
            }
            if looks_like_flag(arg) {
                return Err(unknown_flag(arg));
            }
        }
        let ghost before = path::bytes_of(sources@);
        sources.push(FilePath::from_bytes(args[i].clone()));
        proof {
            assert(path::bytes_of(sources@) =~= before.push(arg@));
            assert(before + others =~= before.push(arg@) + others.skip(1));
        }
        i += 1;
    }
    assert(all.skip(i as int) =~= Seq::<Seq<u8>>::empty());
    assert(path::bytes_of(sources@) + all.skip(i as int) =~= path::bytes_of(sources@));
    match dest {
        None => Err(CliError::MissingFlag("--dest")),
        Some(d) => {
            if sources.len() == 0 {
                Err(CliError::NoSources)
            } else {
                Ok(Command::Backup { dest: d, sources })
            }
        },
    }
}

/// Parse arguments *excluding* the program name.
///
/// Takes the arguments rather than reading them from the process, so the parser can be tested
/// without one.
pub fn parse(args: Vec<Vec<u8>>) -> (command: Result<Command, CliError>)
    ensures
        command_result(command) == parsed(arg_bytes(args@)),
{
    if args.len() == 0 {
        return Err(CliError::NoCommand);
    }
    let command = args[0].as_slice();
    assert(arg_bytes(args@)[0] == command@);
    if is_word(command, "init") {
        match dest_only(args.as_slice(), 1) {
            Ok(dest) => Ok(Command::Init { dest }),
            Err(e) => Err(e),
        }
    } else if is_word(command, "backup") {
        parse_backup(args.as_slice(), 1)
    } else if is_word(command, "index") {
        match dest_only(args.as_slice(), 1) {
            Ok(dest) => Ok(Command::Index { dest }),
            Err(e) => Err(e),
        }
    } else if is_word(command, "help") || is_word(command, "--help") || is_word(command, "-h") {
        Ok(Command::Help)
    } else {
        Err(CliError::UnknownCommand(decode_lossy(command)))
    }
}

// ---------------------------------------------------------------------------------------------
// Laws.
// ---------------------------------------------------------------------------------------------

/// The last value that the arguments give to `--dest`, before the flags end.
pub open spec fn last_dest(args: Seq<Seq<u8>>) -> Option<Seq<u8>>
    decreases args.len(),
{
    if args.len() == 0 || args[0] == end_of_flags() {
        None
    } else if args[0] == dest_flag() {
        if args.len() == 1 {
            None
        } else {
            match last_dest(args.skip(2)) {
                Some(later) => Some(later),
                None => Some(args[1]),
            }
        }
    } else {
        last_dest(args.skip(1))
    }
}

/// The arguments that are neither flags nor values of flags.
pub open spec fn positionals(args: Seq<Seq<u8>>) -> Seq<Seq<u8>>
    decreases args.len(),
{
    if args.len() == 0 {
        Seq::empty()
    } else if args[0] == end_of_flags() {
        args.skip(1)
    } else if args[0] == dest_flag() {
        if args.len() == 1 {
            Seq::empty()
        } else {
            positionals(args.skip(2))
        }
    } else {
        seq![args[0]] + positionals(args.skip(1))
    }
}

/// A backup goes to the last `--dest` and is made of all positionals, in their order and byte for
/// byte, wherever among them the flag stands.
pub proof fn law_last_dest_wins(args: Seq<Seq<u8>>, dest: Option<Seq<u8>>, sources: Seq<Seq<u8>>)
    ensures
        backup_from(args, dest, sources) matches Ok(c) ==> backup_of(
            match last_dest(args) {
                Some(d) => Some(d),
                None => dest,
            },
            sources + positionals(args),
        ) == Ok::<CommandView, CliErrorView>(c),
    decreases args.len(),
{
    if args.len() == 0 {
        assert(sources + positionals(args) =~= sources);
    } else if args[0] == end_of_flags() {
    } else if args[0] == dest_flag() {
        if has_value(args) {
            law_last_dest_wins(args.skip(2), Some(args[1]), sources);
        }
    } else if !looks_like(args[0]) {
        law_last_dest_wins(args.skip(1), dest, sources.push(args[0]));
        assert(sources.push(args[0]) + positionals(args.skip(1)) =~= sources + positionals(args));
    }
}

/// Behind `--` every argument is a source, whatever it looks like.
pub proof fn law_double_dash_ends_the_flags(
    dest: Seq<u8>,
    sources: Seq<Seq<u8>>,
    others: Seq<Seq<u8>>,
)
    requires
        sources.len() + others.len() > 0,
    ensures
        backup_from(seq![end_of_flags()] + others, Some(dest), sources) == Ok::<
            CommandView,
            CliErrorView,
        >(CommandView::Backup(dest, sources + others)),
{
    assert((seq![end_of_flags()] + others).skip(1) =~= others);
}

/// `init` and `index` take exactly one `--dest` with its value, and nothing else.
pub proof fn law_exactly_one_dest(args: Seq<Seq<u8>>)
    ensures
        dest_from(args, None) is Ok <==> args.len() == 2 && args[0] == dest_flag() && !looks_like(
            args[1],
        ),
        dest_from(args, None) matches Ok(d) ==> d == args[1],
{
    if args.len() > 0 && args[0] == dest_flag() && has_value(args) {
        assert(dest_from(args, None) == dest_from(args.skip(2), Some(args[1])));
    }
}

/// An archive is never named by what looks like a flag.
pub proof fn law_a_flag_is_no_value(args: Seq<Seq<u8>>)
    ensures
        match parsed(args) {
            Ok(CommandView::Init(dest)) => !looks_like(dest),
            Ok(CommandView::Index(dest)) => !looks_like(dest),
            Ok(CommandView::Backup(dest, sources)) => !looks_like(dest),
            _ => true,
        },
{
    if args.len() > 0 {
        lemma_dest_is_no_flag(args.skip(1), None);
        lemma_backup_dest_is_no_flag(args.skip(1), None, Seq::empty());
    }
}

proof fn lemma_dest_is_no_flag(args: Seq<Seq<u8>>, dest: Option<Seq<u8>>)
    requires
        dest matches Some(d) ==> !looks_like(d),
    ensures
        dest_from(args, dest) matches Ok(d) ==> !looks_like(d),
    decreases args.len(),
{
    if args.len() > 0 && args[0] == dest_flag() && has_value(args) {
        lemma_dest_is_no_flag(args.skip(2), Some(args[1]));
    }
}

proof fn lemma_backup_dest_is_no_flag(
    args: Seq<Seq<u8>>,
    dest: Option<Seq<u8>>,
    sources: Seq<Seq<u8>>,
)
    requires
        dest matches Some(d) ==> !looks_like(d),
    ensures
        backup_from(args, dest, sources) matches Ok(CommandView::Backup(d, s)) ==> !looks_like(d),
        backup_from(args, dest, sources) matches Ok(c) ==> c is Backup,
    decreases args.len(),
{
    if args.len() > 0 && args[0] != end_of_flags() {
        if args[0] == dest_flag() {
            if has_value(args) {
                lemma_backup_dest_is_no_flag(args.skip(2), Some(args[1]), sources);
            }
        } else if !looks_like(args[0]) {
            lemma_backup_dest_is_no_flag(args.skip(1), dest, sources.push(args[0]));
        }
    }
}

/// Without `--`, no source looks like a flag: a misspelt flag is refused, never backed up.
pub proof fn law_a_flag_is_no_source(
    args: Seq<Seq<u8>>,
    dest: Option<Seq<u8>>,
    sources: Seq<Seq<u8>>,
)
    requires
        !args.contains(end_of_flags()),
        forall|i: int| 0 <= i < sources.len() ==> !looks_like(#[trigger] sources[i]),
    ensures
        backup_from(args, dest, sources) matches Ok(CommandView::Backup(d, s)) ==> forall|i: int|
            0 <= i < s.len() ==> !looks_like(#[trigger] s[i]),
    decreases args.len(),
{
    if args.len() > 0 {
        assert(args.contains(args[0]));
        if args[0] == dest_flag() {
            if has_value(args) {
                assert forall|i: int| 0 <= i < args.skip(2).len() implies args.skip(2)[i]
                    != end_of_flags() by {
                    assert(args.contains(args[i + 2]));
                }
                law_a_flag_is_no_source(args.skip(2), Some(args[1]), sources);
            }
        } else if !looks_like(args[0]) {
            assert forall|i: int| 0 <= i < args.skip(1).len() implies args.skip(1)[i]
                != end_of_flags() by {
                assert(args.contains(args[i + 1]));
            }
            law_a_flag_is_no_source(args.skip(1), dest, sources.push(args[0]));
        }
    }
}

/// A source whose name is not UTF-8 is taken as it is.
pub proof fn law_other_names_survive(
    arg: Seq<u8>,
    others: Seq<Seq<u8>>,
    dest: Option<Seq<u8>>,
    sources: Seq<Seq<u8>>,
)
    requires
        !valid_utf8(arg),
    ensures
        backup_from(seq![arg] + others, dest, sources) == backup_from(
            others,
            dest,
            sources.push(arg),
        ),
{
    encode_utf8_valid_utf8("--"@);
    encode_utf8_valid_utf8("--dest"@);
    assert((seq![arg] + others).skip(1) =~= others);
}

/// A backup is made of at least one source.
pub proof fn law_a_backup_has_sources(args: Seq<Seq<u8>>)
    ensures
        parsed(args) matches Ok(CommandView::Backup(d, s)) ==> s.len() > 0,
{
    if args.len() > 0 {
        law_last_dest_wins(args.skip(1), None, Seq::empty());
    }
}

/// Different words have different bytes.
proof fn lemma_words_differ(a: Seq<char>, b: Seq<char>)
    requires
        a != b,
    ensures
        encode_utf8(a) != encode_utf8(b),
{
    encode_utf8_decode_utf8(a);
    encode_utf8_decode_utf8(b);
}

/// The words of the command line, letter by letter.
proof fn lemma_words()
    ensures
        encode_utf8("backup"@) != encode_utf8("init"@),
        encode_utf8("index"@) != encode_utf8("init"@),
        encode_utf8("index"@) != encode_utf8("backup"@),
        encode_utf8("help"@) != encode_utf8("init"@),
        encode_utf8("help"@) != encode_utf8("index"@),
        encode_utf8("help"@) != encode_utf8("backup"@),
        encode_utf8("--help"@) != encode_utf8("init"@),
        encode_utf8("--help"@) != encode_utf8("index"@),
        encode_utf8("--help"@) != encode_utf8("backup"@),
        encode_utf8("-h"@) != encode_utf8("init"@),
        encode_utf8("-h"@) != encode_utf8("index"@),
        encode_utf8("-h"@) != encode_utf8("backup"@),
        encode_utf8("--dest"@) != encode_utf8("--"@),
        is_option(encode_utf8("--dest"@)),
        is_option(encode_utf8("--"@)),
{
    reveal_strlit("init");
    reveal_strlit("index");
    reveal_strlit("backup");
    reveal_strlit("help");
    reveal_strlit("--help");
    reveal_strlit("-h");
    reveal_strlit("--dest");
    reveal_strlit("--");
    assert("index"@[1] != "backup"@[1]);
    assert("help"@[0] != "init"@[0]);
    assert("--help"@[0] != "backup"@[0]);
    assert("--dest"@.len() != "--"@.len());
    lemma_words_differ("backup"@, "init"@);
    lemma_words_differ("index"@, "init"@);
    lemma_words_differ("index"@, "backup"@);
    lemma_words_differ("help"@, "init"@);
    lemma_words_differ("help"@, "index"@);
    lemma_words_differ("help"@, "backup"@);
    lemma_words_differ("--help"@, "init"@);
    lemma_words_differ("--help"@, "index"@);
    lemma_words_differ("--help"@, "backup"@);
    lemma_words_differ("-h"@, "init"@);
    lemma_words_differ("-h"@, "index"@);
    lemma_words_differ("-h"@, "backup"@);
    lemma_words_differ("--dest"@, "--"@);
    encode_utf8_decode_utf8("--dest"@);
    encode_utf8_decode_utf8("--"@);
    encode_utf8_valid_utf8("--dest"@);
    encode_utf8_valid_utf8("--"@);
}

/// Is this argument a text of two or more characters that begins with a dash?
pub open spec fn is_option(arg: Seq<u8>) -> bool {
    valid_utf8(arg) && decode_utf8(arg).len() >= 2 && decode_utf8(arg)[0] == '-'
}

/// A text is a flag exactly if it begins with a dash and is no dash alone.
pub proof fn law_a_flag_begins_with_a_dash(s: &str, yes: bool)
    requires
        call_ensures(is_flag, (s,), yes),
    ensures
        yes <==> s@.len() >= 2 && s@[0] == '-',
{
}

/// Words that are no flags are sources, wherever they stand.
proof fn lemma_words_are_sources(
    words: Seq<Seq<u8>>,
    others: Seq<Seq<u8>>,
    dest: Option<Seq<u8>>,
    sources: Seq<Seq<u8>>,
)
    requires
        forall|i: int| 0 <= i < words.len() ==> !is_option(#[trigger] words[i]),
    ensures
        backup_from(words + others, dest, sources) == backup_from(others, dest, sources + words),
    decreases words.len(),
{
    lemma_words();
    if words.len() == 0 {
        assert(words + others =~= others);
        assert(sources + words =~= sources);
    } else {
        let w = words[0];
        assert(!is_option(w));
        let later = words.skip(1);
        assert forall|i: int| 0 <= i < later.len() implies !is_option(#[trigger] later[i]) by {
            assert(later[i] == words[i + 1]);
        }
        lemma_words_are_sources(later, others, dest, sources.push(w));
        assert((words + others)[0] == w);
        assert((words + others).skip(1) =~= later + others);
        assert(sources.push(w) + later =~= sources + words);
    }
}

/// A `--dest` with its value names the archive.
proof fn lemma_dest_is_taken(
    d: Seq<u8>,
    others: Seq<Seq<u8>>,
    dest: Option<Seq<u8>>,
    sources: Seq<Seq<u8>>,
)
    requires
        !is_option(d),
    ensures
        backup_from(seq![encode_utf8("--dest"@), d] + others, dest, sources) == backup_from(
            others,
            Some(d),
            sources,
        ),
{
    lemma_words();
    let all = seq![encode_utf8("--dest"@), d] + others;
    assert(all[0] == encode_utf8("--dest"@));
    assert(all[1] == d);
    assert(all.skip(2) =~= others);
}

/// What is left of `backup` when its sources and its archive were read.
proof fn lemma_backup_ends(
    behind: Option<Seq<Seq<u8>>>,
    dest: Option<Seq<u8>>,
    sources: Seq<Seq<u8>>,
)
    ensures
        backup_from(tail_of(behind), dest, sources) == backup_of(
            dest,
            match behind {
                Some(b) => sources + b,
                None => sources,
            },
        ),
{
    if let Some(b) = behind {
        assert((seq![encode_utf8("--"@)] + b).skip(1) =~= b);
    }
}

/// A `--` with what follows it, or nothing.
pub open spec fn tail_of(behind: Option<Seq<Seq<u8>>>) -> Seq<Seq<u8>> {
    match behind {
        Some(b) => seq![encode_utf8("--"@)] + b,
        None => Seq::empty(),
    }
}

/// `backup` with a `--dest` and some sources before it and behind it is understood, and so is one with a
/// `--` and more sources at its end: it is a backup of all these sources, in their order, to
/// that archive. Without any source it is refused for that.
pub proof fn law_a_backup_is_understood(
    args: Vec<Vec<u8>>,
    before: Seq<Seq<u8>>,
    d: Seq<u8>,
    between: Seq<Seq<u8>>,
    behind: Option<Seq<Seq<u8>>>,
    command: Result<Command, CliError>,
)
    requires
        forall|i: int| 0 <= i < before.len() ==> !is_option(#[trigger] before[i]),
        forall|i: int| 0 <= i < between.len() ==> !is_option(#[trigger] between[i]),
        !is_option(d),
        arg_bytes(args@) == seq![encode_utf8("backup"@)] + (before + (seq![
            encode_utf8("--dest"@),
            d,
        ] + (between + tail_of(behind)))),
        call_ensures(parse, (args,), command),
    ensures
        ({
            let sources = before + between + match behind {
                Some(b) => b,
                None => Seq::empty(),
            };
            match command {
                Ok(Command::Backup { dest, sources: given }) => sources.len() > 0 && dest@ == d
                    && given@.len() == sources.len() && forall|i: int|
                    0 <= i < sources.len() ==> (#[trigger] given@[i])@ == sources[i],
                Ok(_) => false,
                Err(e) => sources.len() == 0 && e is NoSources,
            }
        }),
{
    lemma_words();
    let none = Seq::<Seq<u8>>::empty();
    let others = before + (seq![encode_utf8("--dest"@), d] + (between + tail_of(behind)));
    let sources = before + between + match behind {
        Some(b) => b,
        None => Seq::empty(),
    };
    assert(arg_bytes(args@)[0] == encode_utf8("backup"@));
    assert(arg_bytes(args@).skip(1) =~= others);
    lemma_words_are_sources(
        before,
        seq![encode_utf8("--dest"@), d] + (between + tail_of(behind)),
        None,
        none,
    );
    lemma_dest_is_taken(d, between + tail_of(behind), None, none + before);
    lemma_words_are_sources(between, tail_of(behind), Some(d), none + before);
    lemma_backup_ends(behind, Some(d), none + before + between);
    assert(none + before + between =~= before + between);
    assert(before + between + Seq::<Seq<u8>>::empty() =~= before + between);
    assert(command_result(command) == backup_of(Some(d), sources));
    if let Ok(Command::Backup { dest, sources: given }) = command {
        assert(path::bytes_of(given@) == sources);
        assert forall|i: int| 0 <= i < sources.len() implies (#[trigger] given@[i])@
            == sources[i] by {
            assert(path::bytes_of(given@)[i] == sources[i]);
        }
    }
}

/// Of two archives the later one is backed up to.
pub proof fn law_the_later_archive_counts(
    args: Vec<Vec<u8>>,
    words: Seq<Seq<u8>>,
    first: Seq<u8>,
    between: Seq<Seq<u8>>,
    second: Seq<u8>,
    command: Result<Command, CliError>,
)
    requires
        forall|i: int| 0 <= i < words.len() ==> !is_option(#[trigger] words[i]),
        forall|i: int| 0 <= i < between.len() ==> !is_option(#[trigger] between[i]),
        !is_option(first),
        !is_option(second),
        words.len() + between.len() > 0,
        arg_bytes(args@) == seq![encode_utf8("backup"@)] + (words + (seq![
            encode_utf8("--dest"@),
            first,
        ] + (between + (seq![encode_utf8("--dest"@), second] + Seq::empty())))),
        call_ensures(parse, (args,), command),
    ensures
        command matches Ok(Command::Backup { dest, sources }) && dest@ == second && path::bytes_of(
            sources@,
        ) == words + between,
{
    lemma_words();
    let none = Seq::<Seq<u8>>::empty();
    let tail = seq![encode_utf8("--dest"@), second] + none;
    let others = words + (seq![encode_utf8("--dest"@), first] + (between + tail));
    assert(arg_bytes(args@)[0] == encode_utf8("backup"@));
    assert(arg_bytes(args@).skip(1) =~= others);
    lemma_words_are_sources(words, seq![encode_utf8("--dest"@), first] + (between + tail), None, none);
    lemma_dest_is_taken(first, between + tail, None, none + words);
    lemma_words_are_sources(between, tail, Some(first), none + words);
    lemma_dest_is_taken(second, none, Some(first), none + words + between);
    assert(none + words + between =~= words + between);
    assert(command_result(command) == backup_of(Some(second), words + between));
}

/// What a `backup` is refused for: a flag that there is none of, by its name; a `--dest` without a
/// value, be it that nothing follows or another flag; and a missing `--dest`.
pub proof fn law_what_a_backup_is_refused_for(
    args: Vec<Vec<u8>>,
    words: Seq<Seq<u8>>,
    others: Seq<Seq<u8>>,
    command: Result<Command, CliError>,
)
    requires
        forall|i: int| 0 <= i < words.len() ==> !is_option(#[trigger] words[i]),
        arg_bytes(args@) == seq![encode_utf8("backup"@)] + (words + others),
        call_ensures(parse, (args,), command),
    ensures
        others.len() > 0 && is_option(others[0]) && others[0] != encode_utf8("--dest"@)
            && others[0] != encode_utf8("--"@) ==> (command matches Err(CliError::UnknownFlag(f))
            && encode_utf8(f@) == others[0]),
        others.len() > 0 && others[0] == encode_utf8("--dest"@) && (others.len() == 1 || is_option(
            others[1],
        )) ==> (command matches Err(CliError::MissingValue(f)) && f@ == "--dest"@),
        others.len() == 0 ==> (command matches Err(CliError::MissingFlag(f)) && f@ == "--dest"@),
{
    lemma_words();
    assert(arg_bytes(args@)[0] == encode_utf8("backup"@));
    assert(arg_bytes(args@).skip(1) =~= words + others);
    lemma_words_are_sources(words, others, None, Seq::empty());
    assert(command_result(command) == backup_from(others, None, Seq::empty() + words));
    if others.len() > 0 && is_option(others[0]) {
        decode_utf8_encode_utf8(others[0]);
    }
}

/// `init` and `index` are understood exactly with one `--dest` and its value.
pub proof fn law_an_archive_is_named_once(args: Vec<Vec<u8>>, command: Result<Command, CliError>)
    requires
        call_ensures(parse, (args,), command),
    ensures
        command matches Ok(Command::Init { dest }) ==> args@.len() == 3 && args@[0]@ == encode_utf8(
            "init"@,
        ) && args@[1]@ == encode_utf8("--dest"@) && args@[2]@ == dest@ && !is_option(dest@),
        command matches Ok(Command::Index { dest }) ==> args@.len() == 3 && args@[0]@
            == encode_utf8("index"@) && args@[1]@ == encode_utf8("--dest"@) && args@[2]@ == dest@
            && !is_option(dest@),
        args@.len() == 3 && args@[1]@ == encode_utf8("--dest"@) && !is_option(args@[2]@) ==> {
            &&& args@[0]@ == encode_utf8("init"@) ==> (command matches Ok(Command::Init { dest })
                && dest@ == args@[2]@)
            &&& args@[0]@ == encode_utf8("index"@) ==> (command matches Ok(
                Command::Index { dest },
            ) && dest@ == args@[2]@)
        },
{
    lemma_words();
    let all = arg_bytes(args@);
    if all.len() > 0 {
        let others = all.skip(1);
        law_exactly_one_dest(others);
        lemma_backup_dest_is_no_flag(others, None, Seq::empty());
        if others.len() > 0 {
            assert(others[0] == args@[1]@);
        }
        if others.len() > 1 {
            assert(others[1] == args@[2]@);
        }
    }
}

/// What `init` and `index` are refused for: a missing `--dest`, one without a value, a second one, a
/// flag that there is none of, and any other word.
pub proof fn law_what_naming_an_archive_is_refused_for(
    args: Vec<Vec<u8>>,
    command: Result<Command, CliError>,
)
    requires
        args@.len() > 0,
        args@[0]@ == encode_utf8("init"@) || args@[0]@ == encode_utf8("index"@),
        call_ensures(parse, (args,), command),
    ensures
        args@.len() == 1 ==> (command matches Err(CliError::MissingFlag(f)) && f@ == "--dest"@),
        args@.len() > 1 && args@[1]@ == encode_utf8("--dest"@) && (args@.len() == 2 || is_option(
            args@[2]@,
        )) ==> (command matches Err(CliError::MissingValue(f)) && f@ == "--dest"@),
        args@.len() > 3 && args@[1]@ == encode_utf8("--dest"@) && !is_option(args@[2]@)
            && args@[3]@ == encode_utf8("--dest"@) ==> (command matches Err(
            CliError::UnexpectedArgument(a),
        ) && a@ == "--dest"@),
        args@.len() > 1 && is_option(args@[1]@) && args@[1]@ != encode_utf8("--dest"@) ==> (
        command matches Err(CliError::UnknownFlag(f)) && encode_utf8(f@) == args@[1]@),
        args@.len() > 1 && !is_option(args@[1]@) ==> (command matches Err(
            CliError::UnexpectedArgument(a),
        ) && a@ == text::utf8_lossy(args@[1]@)),
{
    lemma_words();
    let all = arg_bytes(args@);
    let others = all.skip(1);
    assert(all[0] == args@[0]@);
    if others.len() > 0 {
        assert(others[0] == args@[1]@);
        if is_option(others[0]) {
            decode_utf8_encode_utf8(others[0]);
        }
    }
    if others.len() > 1 {
        assert(others[1] == args@[2]@);
        let later = others.skip(2);
        if later.len() > 0 {
            assert(later[0] == args@[3]@);
            if later[0] == encode_utf8("--dest"@) {
                assert(dest_from(later, Some(others[1])) == Err::<Seq<u8>, CliErrorView>(
                    CliErrorView::UnexpectedArgument("--dest"@),
                ));
            }
        }
    }
    assert(command matches Err(e) ==> path_result(Err(e)) == dest_from(others, None));
}

/// Any of the three words for help is answered by it, whatever follows. Without a word there is no
/// command, and any other word is an unknown one.
pub proof fn law_help_and_what_is_unknown(args: Vec<Vec<u8>>, command: Result<Command, CliError>)
    requires
        call_ensures(parse, (args,), command),
    ensures
        args@.len() == 0 <==> command matches Err(CliError::NoCommand),
        args@.len() > 0 && (args@[0]@ == encode_utf8("help"@) || args@[0]@ == encode_utf8("--help"@)
            || args@[0]@ == encode_utf8("-h"@)) ==> command matches Ok(Command::Help),
        args@.len() > 0 && args@[0]@ != encode_utf8("help"@) && args@[0]@ != encode_utf8("--help"@)
            && args@[0]@ != encode_utf8("-h"@) && args@[0]@ != encode_utf8("init"@) && args@[0]@
            != encode_utf8("index"@) && args@[0]@ != encode_utf8("backup"@) ==> (
        command matches Err(CliError::UnknownCommand(c)) && c@ == text::utf8_lossy(args@[0]@)),
{
    lemma_words();
    if args@.len() > 0 {
        let all = arg_bytes(args@);
        assert(all[0] == args@[0]@);
        lemma_some_command(all.skip(1), None, None, Seq::empty());
    }
}

/// Where there is a command, what is refused is something else.
proof fn lemma_some_command(
    args: Seq<Seq<u8>>,
    one: Option<Seq<u8>>,
    dest: Option<Seq<u8>>,
    sources: Seq<Seq<u8>>,
)
    ensures
        dest_from(args, one) != Err::<Seq<u8>, CliErrorView>(CliErrorView::NoCommand),
        backup_from(args, dest, sources) != Err::<CommandView, CliErrorView>(
            CliErrorView::NoCommand,
        ),
    decreases args.len(),
{
    if args.len() > 1 {
        lemma_some_command(args.skip(2), Some(args[1]), Some(args[1]), sources);
        lemma_some_command(args.skip(1), one, dest, sources.push(args[0]));
    } else if args.len() == 1 {
        lemma_some_command(args.skip(1), one, dest, sources.push(args[0]));
    }
}

/// The user is told what was not understood, by the very words.
pub proof fn law_an_error_names_what_was_given(error: &CliError, told: String)
    requires
        call_ensures(CliError::message, (error,), told),
    ensures
        match *error {
            CliError::UnknownCommand(c) => told@ == "unknown command: "@ + c@,
            CliError::UnknownFlag(f) => told@ == "unknown flag: "@ + f@,
            CliError::MissingValue(f) => told@ == f@ + " requires a value"@,
            CliError::MissingFlag(f) => told@ == f@ + " is required"@,
            CliError::UnexpectedArgument(a) => told@ == "unexpected argument: "@ + a@,
            CliError::NoCommand => told@ == "no command given"@,
            CliError::NoSources => told@ == "at least one source path is required"@,
        },
{
}

} // verus!
