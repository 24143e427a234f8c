use rust_git::codec::{decode_object, encode_object, ObjectKind};
use rust_git::error::GitError;
use rust_git::store::{find_object_file, split_object_id, GitObject};

fn listing(names: &[&str]) -> Vec<String> {
    names.iter().map(|s| s.to_string()).collect()
}

#[test]
fn short_ids_are_invalid() {
    assert_eq!(
        split_object_id("ab"),
        Err(GitError::InvalidObjectId { obj_id: "ab".to_string() })
    );
    let (d, f) = split_object_id("ce013625030ba8dba906f756967f9e9ca394464a").unwrap();
    assert_eq!(d, "ce");
    assert_eq!(f, "013625030ba8dba906f756967f9e9ca394464a");
}

#[test]
fn full_id_resolves_to_itself() {
    let names = listing(&["013625030ba8dba906f756967f9e9ca394464a"]);
    let id = "ce013625030ba8dba906f756967f9e9ca394464a";
    assert_eq!(find_object_file(id, Some(&names)).unwrap(), id);
}

#[test]
fn unique_prefix_resolves_to_the_full_id() {
    let names = listing(&["013625030ba8dba906f756967f9e9ca394464a", "11111111111111111111111111111111111111"]);
    assert_eq!(
        find_object_file("ce013", Some(&names)).unwrap(),
        "ce013625030ba8dba906f756967f9e9ca394464a"
    );
}

#[test]
fn shared_prefix_is_ambiguous_but_full_ids_resolve() {
    let h1 = "abcde00000000000000000000000000000000001";
    let h2 = "abcde00000000000000000000000000000000002";
    let names = listing(&[&h1[2..], &h2[2..]]);
    assert_eq!(
        find_object_file("abcde", Some(&names)),
        Err(GitError::AmbiguousObjectId { obj_id: "abcde".to_string() })
    );
    assert_eq!(find_object_file(h1, Some(&names)).unwrap(), h1);
    assert_eq!(find_object_file(h2, Some(&names)).unwrap(), h2);
}

#[test]
fn no_match_or_no_directory_is_invalid() {
    let names = listing(&["013625030ba8dba906f756967f9e9ca394464a"]);
    assert_eq!(
        find_object_file("ceff", Some(&names)),
        Err(GitError::InvalidObjectId { obj_id: "ceff".to_string() })
    );
    assert_eq!(
        find_object_file("ce01", None),
        Err(GitError::InvalidObjectId { obj_id: "ce01".to_string() })
    );
    assert_eq!(
        find_object_file("ce", Some(&names)),
        Err(GitError::InvalidObjectId { obj_id: "ce".to_string() })
    );
}

#[test]
fn stored_object_keeps_its_full_id() {
    let encoded = encode_object(ObjectKind::Blob, b"hello\n");
    let obj = GitObject::from_stored(encoded.hash.clone(), &encoded.compressed).unwrap();
    assert_eq!(obj.sha1, "ce013625030ba8dba906f756967f9e9ca394464a");
    assert_eq!(obj.kind, ObjectKind::Blob);
    assert_eq!(obj.size, 6);
    assert_eq!(obj.body, b"hello\n".to_vec());
    assert!(decode_object(&encoded.compressed).is_ok());
    assert!(matches!(
        GitObject::from_stored("x".to_string(), b"junk"),
        Err(GitError::DecodeError)
    ));
}
