use rust_git::bytes::lines;
use rust_git::bytes::split;
use rust_git::hash::sha1;
use rust_git::paths::is_subpath;
use rust_git::paths::relative_path;
use rust_git::paths::split_path_by_first;
use rust_git::paths::split_path_by_last;
use rust_git::serialize::deserialize;
use rust_git::serialize::serialize;

#[test]
fn sha1_of_known_text() {
    assert_eq!(sha1(b"hi\n"), b"55ca6286e3e4f4fba5d0448333fa99fc5a404a73".to_vec());
    assert_eq!(sha1(b""), b"da39a3ee5e6b4b0d3255bfef95601890afd80709".to_vec());
}

#[test]
fn base64_round_trip() {
    let text = serialize(b"BLOBhello");
    assert_eq!(text, b"QkxPQmhlbGxv".to_vec());
    assert_eq!(deserialize(&text), Some(b"BLOBhello".to_vec()));
    assert_eq!(deserialize(b"!!"), None);
}

#[test]
fn split_keeps_empty_pieces() {
    assert_eq!(split(b"a\0b\0", 0), vec![b"a".to_vec(), b"b".to_vec(), b"".to_vec()]);
    assert_eq!(split(b"", 0), vec![b"".to_vec()]);
}

#[test]
fn lines_drop_line_ends() {
    assert_eq!(lines(b"1\r\n2\n\n3"), vec![b"1".to_vec(), b"2".to_vec(), b"".to_vec(), b"3".to_vec()]);
    assert_eq!(lines(b"1\n"), vec![b"1".to_vec()]);
    assert_eq!(lines(b""), Vec::<Vec<u8>>::new());
    assert_eq!(lines(b"a\r"), vec![b"a\r".to_vec()]);
}

#[test]
fn subpath_goes_by_components() {
    assert!(is_subpath(b"/a/b", b"/a/b/c"));
    assert!(is_subpath(b"/a/b", b"/a/b"));
    assert!(!is_subpath(b"/a/b", b"/a/bc"));
    assert!(!is_subpath(b"/a/b/c", b"/a/b"));
    assert!(is_subpath(b"/a/b/", b"/a//b/./c"));
    assert!(is_subpath(b"", b"x"));
}

#[test]
fn relative_path_strips_parent() {
    assert_eq!(relative_path(b"/repo", b"/repo/a/b.txt"), b"a/b.txt".to_vec());
    assert_eq!(relative_path(b"/repo", b"/repo"), b"".to_vec());
}

#[test]
fn split_path_by_first_and_last() {
    assert_eq!(split_path_by_first(b"a/b/c"), (b"a".to_vec(), b"b/c".to_vec()));
    assert_eq!(split_path_by_first(b"abc"), (b"abc".to_vec(), b"".to_vec()));
    assert_eq!(split_path_by_last(b"a/b/c"), (b"a/b".to_vec(), b"c".to_vec()));
    assert_eq!(split_path_by_last(b"abc"), (b"".to_vec(), b"abc".to_vec()));
}
