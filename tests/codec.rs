use rust_git::codec::{decode_object, encode_object, frame, hash_object, ObjectKind};
use rust_git::error::GitError;
use std::io::Write;

fn zlib(data: &[u8]) -> Vec<u8> {
    let mut e = flate2::write::ZlibEncoder::new(Vec::new(), flate2::Compression::default());
    e.write_all(data).unwrap();
    e.finish().unwrap()
}

#[test]
fn hello_blob_has_the_standard_id() {
    let encoded = encode_object(ObjectKind::Blob, b"hello\n");
    let digest = <sha1::Sha1 as sha1::Digest>::digest(b"blob 6\0hello\n");
    assert_eq!(encoded.hash, hex::encode(digest));
    assert_eq!(encoded.hash, "ce013625030ba8dba906f756967f9e9ca394464a");
    let decoded = decode_object(&encoded.compressed).unwrap();
    assert_eq!(decoded.kind, ObjectKind::Blob);
    assert_eq!(decoded.size, 6);
    assert_eq!(decoded.body, b"hello\n".to_vec());
}

#[test]
fn well_known_ids() {
    assert_eq!(hash_object(ObjectKind::Blob, b""), "e69de29bb2d1d6434b8b29ae775ad8c2e48c5391");
    assert_eq!(hash_object(ObjectKind::Tree, b""), "4b825dc642cb6eb9a060e54bf8d69288fbee4904");
    assert_eq!(hash_object(ObjectKind::Blob, b"x"), "c1b0730e0133447badcfd47fd144e254807b06e1");
}

#[test]
fn round_trip_of_binary_content() {
    let body: Vec<u8> = vec![0, 0, 1, 2, 255, 0, b' ', b'7'];
    let encoded = encode_object(ObjectKind::Blob, &body);
    let decoded = decode_object(&encoded.compressed).unwrap();
    assert_eq!(decoded.kind, ObjectKind::Blob);
    assert_eq!(decoded.size, body.len());
    assert_eq!(decoded.body, body);
}

#[test]
fn round_trip_of_each_kind() {
    for kind in [ObjectKind::Blob, ObjectKind::Tree, ObjectKind::Commit] {
        let encoded = encode_object(kind, b"some body");
        let decoded = decode_object(&encoded.compressed).unwrap();
        assert_eq!(decoded.kind, kind);
        assert_eq!(decoded.size, 9);
        assert_eq!(decoded.body, b"some body".to_vec());
    }
}

#[test]
fn stored_bytes_are_compressed_framing() {
    let encoded = encode_object(ObjectKind::Blob, b"hello\n");
    let plain = frame(ObjectKind::Blob, b"hello\n");
    assert_eq!(plain, b"blob 6\0hello\n".to_vec());
    assert_ne!(encoded.compressed, plain);
    assert_eq!(encoded.compressed[0], 0x78);
    assert_eq!(encoded.compressed, zlib(&plain));
}

#[test]
fn equal_contents_share_an_id_and_different_ones_do_not() {
    let a = encode_object(ObjectKind::Blob, b"abc");
    let b = encode_object(ObjectKind::Blob, b"abc");
    let c = encode_object(ObjectKind::Blob, b"abd");
    assert_eq!(a.hash, b.hash);
    assert_ne!(a.hash, c.hash);
    assert_eq!(a.hash.len(), 40);
}

#[test]
fn corrupt_stream_is_a_decode_error() {
    assert!(matches!(decode_object(b"not zlib at all"), Err(GitError::DecodeError)));
}

#[test]
fn size_mismatch_is_a_decode_error() {
    assert!(matches!(decode_object(&zlib(b"blob 5\0hello\n")), Err(GitError::DecodeError)));
}

#[test]
fn leading_zero_in_size_is_a_decode_error() {
    assert!(matches!(decode_object(&zlib(b"blob 06\0hello\n")), Err(GitError::DecodeError)));
}

#[test]
fn unknown_kind_or_missing_nul_is_a_decode_error() {
    assert!(matches!(decode_object(&zlib(b"tag 6\0hello\n")), Err(GitError::DecodeError)));
    assert!(matches!(decode_object(&zlib(b"blob 6 hello\n")), Err(GitError::DecodeError)));
    assert!(matches!(decode_object(&zlib(b"blob x\0")), Err(GitError::DecodeError)));
}

#[test]
fn first_nul_ends_the_header() {
    let decoded = decode_object(&zlib(b"blob 3\0\0a\0")).unwrap();
    assert_eq!(decoded.kind, ObjectKind::Blob);
    assert_eq!(decoded.body, vec![0u8, b'a', 0]);
}

#[test]
fn kind_names() {
    assert_eq!(ObjectKind::Blob.name(), "blob");
    assert_eq!(ObjectKind::Tree.name(), "tree");
    assert_eq!(ObjectKind::Commit.name(), "commit");
}
