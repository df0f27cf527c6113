//! Paths, texts and hashes, held against the standard library where it has the like.

use std::path::{Component, Path, PathBuf};
use thylacine::archive::field;
use thylacine::config::render;
use thylacine::hash::{hash_bytes, to_hex, Hasher};
use thylacine::path::{split_name, FilePath};
use thylacine::text::{decimal_text, same_text};

const PATHS: [&str; 34] = [
    "", "/", "//", "///", ".", "./", "/.", "..", "../", "a", "a/", "/a", "//a", "a/b", "a//b",
    "a/./b", "./a", "./a/.", "a/.", "a/..", "a/../b", "/a/b/c", "/a/b/c/", "a.b", ".a", "..a",
    "a.", "a.b.c", ".a.b", "a/.b", "/./a", "././a", "a/b.tar.gz", "...",
];

#[test]
fn paths_are_read_as_the_standard_library_reads_them() {
    for text in PATHS {
        let std_path = Path::new(text);
        let path = FilePath::from_text(text);
        assert_eq!(path.as_bytes(), text.as_bytes());
        assert_eq!(path.is_absolute(), std_path.is_absolute(), "{text:?}");
        assert_eq!(
            path.file_name(),
            std_path.file_name().map(|n| n.to_str().unwrap().as_bytes().to_vec()),
            "{text:?}"
        );
        assert_eq!(
            path.parent().map(|p| p.into_bytes()),
            std_path.parent().map(|p| p.to_str().unwrap().as_bytes().to_vec()),
            "{text:?}"
        );
        assert_eq!(
            path.has_parent_dir(),
            std_path.components().any(|c| matches!(c, Component::ParentDir)),
            "{text:?}"
        );
        if let Some(name) = path.file_name() {
            let (stem, extension) = split_name(&name);
            assert_eq!(stem, std_path.file_stem().unwrap().to_str().unwrap().as_bytes());
            assert_eq!(
                extension,
                std_path.extension().map(|e| e.to_str().unwrap().as_bytes().to_vec())
            );
        }
    }
}

#[test]
fn paths_are_joined_and_stripped_as_the_standard_library_does() {
    for a in PATHS {
        for b in PATHS {
            let (std_a, std_b) = (Path::new(a), Path::new(b));
            let (path_a, path_b) = (FilePath::from_text(a), FilePath::from_text(b));
            let joined: PathBuf = std_a.join(std_b);
            assert_eq!(
                path_a.join(&path_b).as_bytes(),
                joined.to_str().unwrap().as_bytes(),
                "{a:?} {b:?}"
            );
            assert_eq!(
                path_a.strip_prefix(&path_b).map(|p| p.into_bytes()),
                std_a.strip_prefix(std_b).ok().map(|p| p.to_str().unwrap().as_bytes().to_vec()),
                "{a:?} {b:?}"
            );
            assert_eq!(path_a == path_b, std_a == std_b, "{a:?} {b:?}");
        }
    }
}

#[test]
fn a_clone_is_spelt_the_same() {
    let path = FilePath::from_bytes(b"a//\xFF/".to_vec());
    assert_eq!(path.clone().into_bytes(), b"a//\xFF/");
}

#[test]
fn the_key_of_a_path_is_its_text_where_it_has_one() {
    let key = |bytes: &[u8]| FilePath::from_bytes(bytes.to_vec()).key();
    assert_eq!(key(b"a/b.jpg"), "a/b.jpg");
    assert_eq!(key("\u{e9}t\u{e9}".as_bytes()), "\u{e9}t\u{e9}");
    assert_eq!(key(b""), "");
    assert_eq!(key(b"a\xFF"), "\u{0}61ff");
    assert_eq!(key(b"a\xFE"), "\u{0}61fe");
    // Nothing else is spelled like that.
    assert_eq!(key(b"\x0061ff"), "\u{0}0036316666");
}

#[test]
fn hashes_are_sha_256() {
    assert_eq!(
        to_hex(&hash_bytes(b"")),
        "e3b0c44298fc1c149afbf4c8996fb92427ae41e4649b934ca495991b7852b855"
    );
    assert_eq!(
        to_hex(&hash_bytes(b"abc")),
        "ba7816bf8f01cfea414140de5dae2223b00361a396177a9cb410ff61f20015ad"
    );
}

#[test]
fn a_hash_may_be_computed_piece_by_piece() {
    let content: Vec<u8> = (0..1000u32).map(|i| (i % 251) as u8).collect();
    for cut in [0, 1, 63, 64, 65, 999, 1000] {
        let mut hasher = Hasher::new();
        hasher.update(&content[..cut]);
        hasher.update(&content[cut..]);
        assert_eq!(hasher.finish(), hash_bytes(&content));
    }
    let mut hasher = Hasher::new();
    hasher.update(b"a");
    hasher.update(b"bc");
    assert_eq!(hasher.finish(), hash_bytes(b"abc"));
}

#[test]
fn hex_digits_come_high_half_first() {
    let mut bytes = [0u8; 32];
    bytes[0] = 0x0f;
    bytes[1] = 0xa0;
    bytes[31] = 0xff;
    let hex = to_hex(&bytes);
    assert_eq!(hex.len(), 64);
    assert!(hex.starts_with("0fa000"));
    assert!(hex.ends_with("00ff"));
}

#[test]
fn numbers_are_written_in_decimal() {
    assert_eq!(decimal_text(0), "0");
    assert_eq!(decimal_text(10), "10");
    assert_eq!(decimal_text(u64::MAX), "18446744073709551615");
}

#[test]
fn texts_are_compared() {
    assert!(same_text("", ""));
    assert!(same_text("\u{e9}", "\u{e9}"));
    assert!(!same_text("\u{e9}", "e\u{301}"));
    assert!(!same_text("a", "ab"));
}

#[test]
fn a_rendered_config_is_read_back() {
    let text = render("0123");
    assert_eq!(text, "version = 1\nid = 0123\nhash = sha256\n");
    assert_eq!(field(&text, "version").unwrap(), "1");
    assert_eq!(field(&text, "id").unwrap(), "0123");
    assert_eq!(field(&text, "hash").unwrap(), "sha256");
    assert_eq!(
        field(&text, "colour").unwrap_err().message(),
        "malformed archive config: missing `colour`"
    );
}

#[test]
fn fields_are_read_line_by_line() {
    let text = "a = 1\r\n\u{3000}b\t=\u{a0}2 = 3 \n#c = 4\nd\n= 5\nb = 6";
    assert_eq!(field(text, "a").unwrap(), "1");
    assert_eq!(field(text, "b").unwrap(), "2 = 3");
    assert!(field(text, "c").is_err());
    assert!(field(text, "#c").is_err());
    assert!(field(text, "d").is_err());
    assert_eq!(field(text, "").unwrap(), "5");
}
