use rust_git::codec::{hash_object, ObjectKind};
use rust_git::error::GitError;
use rust_git::tree::{build_tree, directory_entry, mode_to_string, parse_tree, sort_entries, tree_body_bytes, TreeEntry};

fn entry(name: &str, mode: &str, sha1: &str) -> TreeEntry {
    TreeEntry { name: name.to_string(), mode: mode.to_string(), sha1: sha1.to_string() }
}

const BLOB_X: &str = "c1b0730e0133447badcfd47fd144e254807b06e1";
const EMPTY_TREE: &str = "4b825dc642cb6eb9a060e54bf8d69288fbee4904";

#[test]
fn test_mode_to_string() {
    assert_eq!("40000", mode_to_string(0o040755).unwrap());
    assert_eq!("120000", mode_to_string(0o120000).unwrap());
    assert_eq!("100755", mode_to_string(0o100755).unwrap());
    assert_eq!("100644", mode_to_string(0o100444).unwrap());
}

#[test]
fn file_modes_collapse() {
    assert_eq!(mode_to_string(0o040755).unwrap(), "40000");
    assert_eq!(mode_to_string(0o120777).unwrap(), "120000");
    assert_eq!(mode_to_string(0o100755).unwrap(), "100755");
    assert_eq!(mode_to_string(0o100744).unwrap(), "100755");
    assert_eq!(mode_to_string(0o100644).unwrap(), "100644");
    assert_eq!(mode_to_string(0o100664).unwrap(), "100644");
}

#[test]
fn devices_sockets_and_pipes_are_unsupported() {
    assert_eq!(mode_to_string(0o020644), Err(GitError::UnsupportedFileType { mode: 0o020644 }));
    assert_eq!(mode_to_string(0o140755), Err(GitError::UnsupportedFileType { mode: 0o140755 }));
    assert_eq!(mode_to_string(0o010644), Err(GitError::UnsupportedFileType { mode: 0o010644 }));
}

#[test]
fn directory_sorts_as_if_suffixed_with_slash() {
    let sorted = sort_entries(vec![
        entry("foo2", "100644", BLOB_X),
        entry("foo", "40000", EMPTY_TREE),
        entry("foo.txt", "100644", BLOB_X),
    ]);
    let names: Vec<&str> = sorted.iter().map(|e| e.name.as_str()).collect();
    assert_eq!(names, vec!["foo.txt", "foo", "foo2"]);
}

#[test]
fn file_named_like_a_directory_sorts_plainly() {
    let sorted = sort_entries(vec![
        entry("foo.txt", "100644", BLOB_X),
        entry("foo", "100644", BLOB_X),
        entry("foo2", "100644", BLOB_X),
    ]);
    let names: Vec<&str> = sorted.iter().map(|e| e.name.as_str()).collect();
    assert_eq!(names, vec!["foo", "foo.txt", "foo2"]);
}

#[test]
fn empty_directory_is_not_recorded() {
    let body = build_tree(Vec::new()).unwrap();
    assert!(body.is_empty());
    assert!(directory_entry("sub".to_string(), &body).is_none());
}

#[test]
fn file_and_empty_subdirectory_keeps_only_the_file() {
    let blob = hash_object(ObjectKind::Blob, b"x");
    let sub = build_tree(Vec::new()).unwrap();
    let mut entries = vec![entry("a.txt", "100644", &blob)];
    if let Some((e, _)) = directory_entry("sub".to_string(), &sub) {
        entries.push(e);
    }
    let body = build_tree(entries).unwrap();
    let mut expected: Vec<u8> = b"100644 a.txt\0".to_vec();
    expected.extend_from_slice(&hex::decode(BLOB_X).unwrap());
    assert_eq!(body, expected);
}

#[test]
fn non_empty_subdirectory_is_recorded_as_a_tree() {
    let inner = build_tree(vec![entry("a.txt", "100644", BLOB_X)]).unwrap();
    let (e, encoded) = directory_entry("sub".to_string(), &inner).unwrap();
    assert_eq!(e.name, "sub");
    assert_eq!(e.mode, "40000");
    assert_eq!(e.sha1, hash_object(ObjectKind::Tree, &inner));
    assert_eq!(encoded.hash, e.sha1);
    assert_ne!(e.sha1, EMPTY_TREE);
}

#[test]
fn bad_hash_is_refused() {
    assert_eq!(
        build_tree(vec![entry("a", "100644", "xyz")]),
        Err(GitError::HexConversionError)
    );
    assert_eq!(
        tree_body_bytes(&vec![entry("a", "100644", "abcd")]),
        Err(GitError::HexConversionError)
    );
}

#[test]
fn tree_body_parses_back() {
    let body = build_tree(vec![entry("b c", "100755", BLOB_X), entry("dir", "40000", EMPTY_TREE)]).unwrap();
    let entries = parse_tree(&body).unwrap();
    assert_eq!(entries.len(), 2);
    assert_eq!(entries[0].name, "b c");
    assert_eq!(entries[0].mode, "100755");
    assert_eq!(entries[0].sha1, BLOB_X);
    assert_eq!(entries[1].name, "dir");
    assert_eq!(entries[1].mode, "40000");
    assert_eq!(entries[1].sha1, EMPTY_TREE);
}

#[test]
fn truncated_tree_body_is_a_decode_error() {
    let body = build_tree(vec![entry("a", "100644", BLOB_X)]).unwrap();
    assert!(matches!(parse_tree(&body[..body.len() - 1]), Err(GitError::DecodeError)));
    assert!(matches!(parse_tree(b"100644a\0"), Err(GitError::DecodeError)));
}
