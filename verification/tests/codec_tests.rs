use oku_fs::codec::entry_key_to_path;
use oku_fs::codec::join_under;
use oku_fs::codec::normalise_path;
use oku_fs::codec::path_to_dir_prefix;
use oku_fs::codec::path_to_entry_key;
use oku_fs::codec::path_to_entry_prefix;
use oku_fs::codec::DecodeError;

#[test]
fn normalise_joins_onto_root() {
    assert_eq!(normalise_path(""), "/");
    assert_eq!(normalise_path("a/b"), "/a/b");
    assert_eq!(normalise_path("/a/b.txt"), "/a/b.txt");
}

#[test]
fn normalise_resolves_dots() {
    assert_eq!(normalise_path("/a/../b"), "/b");
    assert_eq!(normalise_path("/a/./b"), "/a/b");
    assert_eq!(normalise_path("/a/b/../../c"), "/c");
    assert_eq!(normalise_path(".."), "/");
    assert_eq!(normalise_path("/../x"), "/x");
}

#[test]
fn normalise_collapses_separators() {
    assert_eq!(normalise_path("//a///b"), "/a/b");
    assert_eq!(normalise_path("/a/b/"), "/a/b");
    assert_eq!(normalise_path("///"), "/");
}

#[test]
fn file_key_is_nul_terminated_path() {
    assert_eq!(path_to_entry_key("/a/b.txt"), b"/a/b.txt\0".to_vec());
    assert_eq!(path_to_entry_key("a/b.txt"), b"/a/b.txt\0".to_vec());
    assert_eq!(path_to_entry_prefix("/a/b.txt"), b"/a/b.txt".to_vec());
    assert_eq!(path_to_dir_prefix("/docs"), b"/docs/".to_vec());
    assert_eq!(path_to_dir_prefix("/"), b"/".to_vec());
}

#[test]
fn file_key_round_trips_to_normalized_path() {
    let key = path_to_entry_key("a//b/../c/./d.txt");
    assert_eq!(entry_key_to_path(&key), Ok("/a/c/d.txt".to_owned()));
    let root_key = path_to_entry_key("/");
    assert_eq!(entry_key_to_path(&root_key), Ok("/".to_owned()));
}

#[test]
fn file_key_round_trips_non_ascii() {
    let key = path_to_entry_key("/übung/naïve.txt");
    assert_eq!(entry_key_to_path(&key), Ok("/übung/naïve.txt".to_owned()));
}

#[test]
fn key_decoding_rejects_malformed_keys() {
    assert_eq!(entry_key_to_path(b""), Err(DecodeError::MissingTerminator));
    assert_eq!(entry_key_to_path(b"/a"), Err(DecodeError::MissingTerminator));
    assert_eq!(entry_key_to_path(b"/a\0b\0"), Err(DecodeError::InteriorNul));
    assert_eq!(entry_key_to_path(b"/a\xff\0"), Err(DecodeError::InvalidUtf8));
}

#[test]
fn nul_boundary_disambiguates_file_and_directory() {
    // A file named "/docs" and the directory "/docs" share the normalized
    // path. The prefix key is a byte-prefix of the file key, but the
    // directory scan prefix ends in the separator where the file key ends
    // in NUL, so a directory scan never reaches the same-named file.
    let file_key = path_to_entry_key("/docs");
    let prefix_key = path_to_entry_prefix("/docs");
    let dir_prefix = path_to_dir_prefix("/docs");
    assert!(file_key.starts_with(&prefix_key));
    assert_eq!(file_key[prefix_key.len()], 0);
    assert_eq!(dir_prefix[prefix_key.len()], b'/');
    assert!(!file_key.starts_with(&dir_prefix));
    // A child of the directory is reached by the scan prefix, and the
    // same-named file's key is not a prefix of the child's key.
    let child_key = path_to_entry_key("/docs/a.txt");
    assert!(child_key.starts_with(&dir_prefix));
    assert!(!child_key.starts_with(&file_key));
}

#[test]
fn join_under_keeps_final_segment() {
    assert_eq!(join_under("/dst", "/a/b.txt"), "/dst/b.txt");
    assert_eq!(join_under("/dst", "/c"), "/dst/c");
}
