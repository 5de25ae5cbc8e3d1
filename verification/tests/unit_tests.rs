//! The small verified building blocks, held to concrete values: decimal
//! rendering and parsing, the record codec, path and string helpers.

use blitze::codec::{decode_entry, encode_entry};
use blitze::entry::{File, FileTar};
use blitze::numbers::{parse_u64_bytes, u64_to_string};
use blitze::strings::{
    count_char_in, leaf_of, remove_slashes, str_contains, str_ends_with, str_rfind,
    str_starts_with,
};

#[test]
fn decimal_rendering_exact() {
    assert_eq!(u64_to_string(0), "0");
    assert_eq!(u64_to_string(7), "7");
    assert_eq!(u64_to_string(20000), "20000");
    assert_eq!(u64_to_string(u64::MAX), "18446744073709551615");
}

#[test]
fn decimal_parsing_exact() {
    assert_eq!(parse_u64_bytes(b"0"), Some(0));
    assert_eq!(parse_u64_bytes(b"12345"), Some(12345));
    assert_eq!(parse_u64_bytes(b"007"), Some(7));
    assert_eq!(parse_u64_bytes(b"18446744073709551615"), Some(u64::MAX));
    assert_eq!(parse_u64_bytes(b"18446744073709551616"), None);
    assert_eq!(parse_u64_bytes(b""), None);
    assert_eq!(parse_u64_bytes(b"12a"), None);
    assert_eq!(parse_u64_bytes(b"-1"), None);
    assert_eq!(parse_u64_bytes(b" 1"), None);
}

#[test]
fn record_codec_round_trips() {
    let f = File {
        size: 5,
        mtime: 1000,
        file_name: String::from("y.txt"),
        full_path: String::from("x/y.txt"),
        is_file: true,
        level_path: 2,
        ino: 20002,
    };
    let bytes = encode_entry(&f);
    let back = decode_entry(bytes.as_slice()).expect("an encoded record must decode");
    assert_eq!(back.size, 5);
    assert_eq!(back.mtime, 1000);
    assert_eq!(back.file_name, "y.txt");
    assert_eq!(back.full_path, "x/y.txt");
    assert!(back.is_file);
    assert_eq!(back.level_path, 2);
    assert_eq!(back.ino, 20002);
}

#[test]
fn record_codec_is_self_describing() {
    let f = File {
        size: 0,
        mtime: 0,
        file_name: String::from("x"),
        full_path: String::from("x/"),
        is_file: false,
        level_path: 1,
        ino: 20001,
    };
    let bytes = encode_entry(&f);
    // The value parses on its own, and junk does not.
    assert!(decode_entry(bytes.as_slice()).is_some());
    assert!(decode_entry(b"").is_none());
    assert!(decode_entry(b"not a record").is_none());
    let mut trailing = bytes.clone();
    trailing.push(b'!');
    assert!(decode_entry(trailing.as_slice()).is_none());
}

#[test]
fn archive_descriptor_from_path() {
    let t = FileTar::from_path("/data/in/a.tar.gz");
    assert_eq!(t.full_path, "/data/in/a.tar.gz");
    assert_eq!(t.file_name, "a.tar.gz");
    assert_eq!(FileTar::path_to_string("/data/in/a.tar.gz", true), "/data/in/a.tar.gz");
    assert_eq!(FileTar::path_to_string("/data/in/a.tar.gz", false), "a.tar.gz");
    assert_eq!(FileTar::path_to_string("plain", false), "plain");
}

#[test]
fn leaf_name_rules() {
    assert_eq!(leaf_of("a/b/c.txt"), Some(String::from("c.txt")));
    assert_eq!(leaf_of("x/y/"), Some(String::from("y")));
    assert_eq!(leaf_of("solo"), Some(String::from("solo")));
    assert_eq!(leaf_of("/"), None);
    assert_eq!(leaf_of(""), None);
    assert_eq!(leaf_of("a/.."), None);
    assert_eq!(leaf_of("a/."), None);
}

#[test]
fn string_helpers_exact() {
    assert!(str_ends_with("a.tar.gz", ".tar.gz"));
    assert!(!str_ends_with("a.tar", ".tar.gz"));
    assert!(str_starts_with("tar::a.tar.gz", "tar::"));
    assert!(!str_starts_with("ta", "tar::"));
    assert_eq!(count_char_in("x/y/z.txt", '/'), 2);
    assert_eq!(count_char_in("plain", '/'), 0);
    assert_eq!(remove_slashes("x/y/z.txt"), "xyz.txt");
    assert_eq!(remove_slashes("///"), "");
    assert_eq!(str_rfind("x/yy/y.txt", "y"), Some(5));
    assert_eq!(str_rfind("abc", "zz"), None);
    assert!(str_contains("report.pdf", "report"));
    assert!(!str_contains("report.pdf", "missing"));
}
