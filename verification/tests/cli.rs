use thylacine::cli::{parse, CliError, Command};
use thylacine::path::FilePath;

fn parse_str(args: &[&str]) -> Result<Command, CliError> {
    parse(args.iter().map(|a| a.as_bytes().to_vec()).collect())
}

fn path(text: &str) -> FilePath {
    FilePath::from_text(text)
}

#[test]
fn backup_collects_sources_after_dest() {
    let cmd = parse_str(&["backup", "--dest", "/mnt/backup", "/home/a", "/home/b"]).unwrap();
    assert_eq!(
        cmd,
        Command::Backup {
            dest: path("/mnt/backup"),
            sources: vec![path("/home/a"), path("/home/b")],
        }
    );
}

#[test]
fn dest_may_appear_after_sources() {
    let cmd = parse_str(&["backup", "/home/a", "--dest", "/mnt/backup"]).unwrap();
    assert_eq!(
        cmd,
        Command::Backup {
            dest: path("/mnt/backup"),
            sources: vec![path("/home/a")],
        }
    );
}

#[test]
fn last_dest_wins() {
    let cmd = parse_str(&["backup", "--dest", "/a", "--dest", "/b", "/src"]).unwrap();
    match cmd {
        Command::Backup { dest, .. } => assert_eq!(dest, path("/b")),
        other => panic!("expected backup, got {other:?}"),
    }
}

#[test]
fn double_dash_ends_flag_parsing() {
    let cmd = parse_str(&["backup", "--dest", "/mnt/backup", "--", "--weird-dir"]).unwrap();
    match cmd {
        Command::Backup { sources, .. } => {
            assert_eq!(sources, vec![path("--weird-dir")]);
        }
        other => panic!("expected backup, got {other:?}"),
    }
}

#[test]
fn flag_cannot_swallow_another_flag() {
    assert_eq!(
        parse_str(&["backup", "--dest", "--into", "/tmp", "/src"]),
        Err(CliError::MissingValue("--dest"))
    );
    assert_eq!(
        parse_str(&["backup", "--dest"]),
        Err(CliError::MissingValue("--dest"))
    );
}

#[test]
fn backup_requires_dest_and_sources() {
    assert_eq!(
        parse_str(&["backup", "/home/a"]),
        Err(CliError::MissingFlag("--dest"))
    );
    assert_eq!(
        parse_str(&["backup", "--dest", "/mnt/backup"]),
        Err(CliError::NoSources)
    );
}

#[test]
fn unknown_flags_and_commands_are_rejected() {
    assert_eq!(
        parse_str(&["backup", "--dset", "/mnt", "/src"]),
        Err(CliError::UnknownFlag("--dset".into()))
    );
    assert_eq!(
        parse_str(&["bakcup"]),
        Err(CliError::UnknownCommand("bakcup".into()))
    );
    assert_eq!(parse_str(&[]), Err(CliError::NoCommand));
}

#[test]
fn index_takes_no_positionals() {
    assert_eq!(
        parse_str(&["index", "--dest", "/mnt/backup"]).unwrap(),
        Command::Index {
            dest: path("/mnt/backup")
        }
    );
    assert_eq!(
        parse_str(&["index", "--dest", "/mnt/backup", "extra"]),
        Err(CliError::UnexpectedArgument("extra".into()))
    );
}

#[test]
fn init_takes_only_dest() {
    assert_eq!(
        parse_str(&["init", "--dest", "/mnt/backup"]).unwrap(),
        Command::Init {
            dest: path("/mnt/backup")
        }
    );
    assert_eq!(
        parse_str(&["init"]),
        Err(CliError::MissingFlag("--dest"))
    );
    assert_eq!(
        parse_str(&["init", "--dest", "/mnt/backup", "/src"]),
        Err(CliError::UnexpectedArgument("/src".into()))
    );
}

#[test]
fn init_and_index_take_one_dest_only() {
    for command in ["init", "index"] {
        assert_eq!(
            parse_str(&[command, "--dest", "/a", "--dest", "/b"]),
            Err(CliError::UnexpectedArgument("--dest".into()))
        );
        assert_eq!(
            parse_str(&[command, "--dest", "/a", "--dest"]),
            Err(CliError::UnexpectedArgument("--dest".into()))
        );
    }
}

#[test]
fn help_is_recognised_several_ways() {
    for form in ["help", "--help", "-h"] {
        assert_eq!(parse_str(&[form]).unwrap(), Command::Help);
    }
}

#[test]
fn non_utf8_source_paths_survive() {
    // 0xFF is not valid UTF-8, but it is a perfectly legal Linux filename.
    let weird = vec![b'/', b't', b'm', b'p', b'/', 0xFF];
    let args = vec![
        b"backup".to_vec(),
        b"--dest".to_vec(),
        b"/mnt/backup".to_vec(),
        weird.clone(),
    ];

    match parse(args).unwrap() {
        Command::Backup { sources, .. } => {
            assert_eq!(sources, vec![FilePath::from_bytes(weird)]);
        }
        other => panic!("expected backup, got {other:?}"),
    }
}

#[test]
fn a_lone_dash_is_a_source_and_a_value() {
    match parse_str(&["backup", "--dest", "-", "-"]).unwrap() {
        Command::Backup { dest, sources } => {
            assert_eq!(dest.as_bytes(), b"-");
            assert_eq!(sources.len(), 1);
            assert_eq!(sources[0].as_bytes(), b"-");
        }
        other => panic!("expected backup, got {other:?}"),
    }
}

#[test]
fn everything_behind_a_double_dash_is_a_source() {
    match parse_str(&["backup", "--dest", "/d", "a", "--", "--dest", "--", "-x"]).unwrap() {
        Command::Backup { dest, sources } => {
            assert_eq!(dest.as_bytes(), b"/d");
            let names: Vec<&[u8]> = sources.iter().map(|s| s.as_bytes()).collect();
            assert_eq!(names, vec![&b"a"[..], b"--dest", b"--", b"-x"]);
        }
        other => panic!("expected backup, got {other:?}"),
    }
}

#[test]
fn a_command_that_is_not_text_is_named_as_well_as_can_be() {
    assert_eq!(
        parse(vec![vec![b'b', 0xFF]]),
        Err(CliError::UnknownCommand("b\u{FFFD}".into()))
    );
    assert_eq!(
        parse(vec![b"init".to_vec(), vec![0xFF, b'x']]),
        Err(CliError::UnexpectedArgument("\u{FFFD}x".into()))
    );
    // A flag that is not text is not a flag.
    match parse(vec![b"backup".to_vec(), vec![b'-', 0xFF], b"--dest".to_vec(), b"/d".to_vec()]) {
        Ok(Command::Backup { sources, .. }) => assert_eq!(sources[0].as_bytes(), [b'-', 0xFF]),
        other => panic!("expected backup, got {other:?}"),
    }
}

#[test]
fn every_error_has_its_words() {
    assert_eq!(CliError::NoCommand.message(), "no command given");
    assert_eq!(CliError::UnknownCommand("x".into()).message(), "unknown command: x");
    assert_eq!(CliError::UnknownFlag("--x".into()).message(), "unknown flag: --x");
    assert_eq!(CliError::MissingValue("--dest").message(), "--dest requires a value");
    assert_eq!(CliError::MissingFlag("--dest").message(), "--dest is required");
    assert_eq!(CliError::NoSources.message(), "at least one source path is required");
    assert_eq!(CliError::UnexpectedArgument("x".into()).message(), "unexpected argument: x");
}
