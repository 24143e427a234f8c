//! The binary object codec: `"<kind> <len>\0<body>"`, its digest, and its compressed form.
use vstd::prelude::*;
use crate::digest::{deflate, inflate, sha1, sha1_digest, zlib_deflate, zlib_inflate};
use crate::error::GitError;
use crate::text::{
    bytes_eq, copy_range, dec_digits, find_byte, hex_encode, hex_lower,
    lemma_dec_digits_shape, push_all, push_decimal,
};

verus! {

/// The kinds of stored object.
#[derive(Debug, Clone, Copy, PartialEq, Eq, Structural)]
pub enum ObjectKind {
    Blob,
    Tree,
    Commit,
}

/// The ASCII name of a kind, as it stands in an object header.
pub open spec fn kind_name(k: ObjectKind) -> Seq<u8> {
    match k {
        ObjectKind::Blob => seq![98u8, 108u8, 111u8, 98u8],
        ObjectKind::Tree => seq![116u8, 114u8, 101u8, 101u8],
        ObjectKind::Commit => seq![99u8, 111u8, 109u8, 109u8, 105u8, 116u8],
    }
}

/// The header of an object of kind `k` with a body of `n` bytes: `"<kind> <n>"`.
pub open spec fn header_bytes(k: ObjectKind, n: nat) -> Seq<u8> {
    kind_name(k).push(32u8) + dec_digits(n)
}

/// The canonical bytes of an object: its header, a NUL byte, then its body.
pub open spec fn frame_bytes(k: ObjectKind, body: Seq<u8>) -> Seq<u8> {
    header_bytes(k, body.len()).push(0u8) + body
}

/// The id of an object: the lowercase hex digest of its canonical bytes.
pub open spec fn object_hash(k: ObjectKind, body: Seq<u8>) -> Seq<char> {
    hex_lower(sha1_digest(frame_bytes(k, body)))
}

/// What the stored bytes `c` decode to: the kind, the declared size and the body of the
/// canonical bytes they inflate to, if they inflate to canonical bytes at all.
pub open spec fn decoded(c: Seq<u8>) -> Option<(ObjectKind, nat, Seq<u8>)> {
    match zlib_inflate(c) {
        Some(plain) => if exists|k: ObjectKind, b: Seq<u8>| plain == frame_bytes(k, b) {
            let (k, b) = choose|k: ObjectKind, b: Seq<u8>| plain == frame_bytes(k, b);
            Some((k, b.len(), b))
        } else {
            None
        },
        None => None,
    }
}

pub open spec fn zero_free(s: Seq<u8>) -> bool {
    forall|i: int| 0 <= i < s.len() ==> s[i] != 0
}

pub proof fn lemma_header_zero_free(k: ObjectKind, n: nat)
    ensures
        zero_free(header_bytes(k, n)),
        header_bytes(k, n).len() > kind_name(k).len(),
        header_bytes(k, n)[0] == kind_name(k)[0],
{
    lemma_dec_digits_shape(n);
    let h = header_bytes(k, n);
    let kn = kind_name(k).push(32u8);
    assert forall|i: int| 0 <= i < h.len() implies h[i] != 0 by {
        if i < kn.len() {
            assert(h[i] == kn[i]);
        } else {
            assert(h[i] == dec_digits(n)[i - kn.len()]);
        }
    }
}

/// The canonical bytes of an object determine its kind and its body.
pub proof fn lemma_frame_unique(k1: ObjectKind, b1: Seq<u8>, k2: ObjectKind, b2: Seq<u8>)
    requires
        frame_bytes(k1, b1) == frame_bytes(k2, b2),
    ensures
        k1 == k2,
        b1 == b2,
{
    let h1 = header_bytes(k1, b1.len());
    let h2 = header_bytes(k2, b2.len());
    let f = frame_bytes(k1, b1);
    lemma_header_zero_free(k1, b1.len());
    lemma_header_zero_free(k2, b2.len());
    if h1.len() < h2.len() {
        assert(f[h1.len() as int] == 0);
        assert(frame_bytes(k2, b2)[h1.len() as int] == h2[h1.len() as int]);
    } else if h2.len() < h1.len() {
        assert(frame_bytes(k2, b2)[h2.len() as int] == 0);
        assert(f[h2.len() as int] == h1[h2.len() as int]);
    }
    assert(h1.len() == h2.len());
    assert(f[0] == h1[0]);
    assert(frame_bytes(k2, b2)[0] == h2[0]);
    assert(b1 =~= f.subrange(h1.len() as int + 1, f.len() as int));
    assert(b2 =~= frame_bytes(k2, b2).subrange(h2.len() as int + 1, f.len() as int));
}

/// The canonical bytes of two blobs are equal exactly when their contents are, so two blobs
/// get the same id when their contents are equal. (That different contents get different ids
/// is the collision resistance of the digest, which is not stated here.)
pub proof fn lemma_content_addressing(b1: Seq<u8>, b2: Seq<u8>)
    ensures
        frame_bytes(ObjectKind::Blob, b1) == frame_bytes(ObjectKind::Blob, b2) <==> b1 == b2,
        b1 == b2 ==> object_hash(ObjectKind::Blob, b1) == object_hash(ObjectKind::Blob, b2),
{
    if frame_bytes(ObjectKind::Blob, b1) == frame_bytes(ObjectKind::Blob, b2) {
        lemma_frame_unique(ObjectKind::Blob, b1, ObjectKind::Blob, b2);
    }
}

/// Decoding the canonical bytes of an object gives back its kind, its size and its body.
pub proof fn lemma_decoded_frame(c: Seq<u8>, k: ObjectKind, b: Seq<u8>)
    requires
        zlib_inflate(c) == Some(frame_bytes(k, b)),
    ensures
        decoded(c) == Some((k, b.len(), b)),
{
    let plain = frame_bytes(k, b);
    assert(exists|k2: ObjectKind, b2: Seq<u8>| plain == frame_bytes(k2, b2));
    let (k2, b2) = choose|k2: ObjectKind, b2: Seq<u8>| plain == frame_bytes(k2, b2);
    lemma_frame_unique(k, b, k2, b2);
}

impl ObjectKind {
    /// The name of the kind, as it stands in an object header.
    pub fn name(&self) -> (r: &'static str)
        ensures
            r@ == crate::text::ascii_text(kind_name(*self)),
    {
        proof {
            reveal_strlit("blob");
            reveal_strlit("tree");
            reveal_strlit("commit");
        }
        let r = match self {
            ObjectKind::Blob => "blob",
            ObjectKind::Tree => "tree",
            ObjectKind::Commit => "commit",
        };
        assert(r@ =~= crate::text::ascii_text(kind_name(*self)));
        r
    }

    /// The name of the kind as bytes.
    pub fn name_bytes(&self) -> (r: Vec<u8>)
        ensures
            r@ == kind_name(*self),
    {
        let r = match self {
            ObjectKind::Blob => vec![98u8, 108u8, 111u8, 98u8],
            ObjectKind::Tree => vec![116u8, 114u8, 101u8, 101u8],
            ObjectKind::Commit => vec![99u8, 111u8, 109u8, 109u8, 105u8, 116u8],
        };
        assert(r@ =~= kind_name(*self));
        r
    }
}

/// The header of an object of kind `kind` with a body of `len` bytes.
pub fn header(kind: ObjectKind, len: usize) -> (r: Vec<u8>)
    ensures
        r@ == header_bytes(kind, len as nat),
{
    let mut r = kind.name_bytes();
    r.push(32u8);
    push_decimal(&mut r, len as u64);
    r
}

/// The canonical bytes of an object: `"<kind> <len>\0<body>"`.
pub fn frame(kind: ObjectKind, body: &[u8]) -> (r: Vec<u8>)
    ensures
        r@ == frame_bytes(kind, body@),
{
    let mut r = header(kind, body.len());
    r.push(0u8);
    push_all(&mut r, body);
    r
}

/// An object ready for storage: its id and its compressed canonical bytes.
pub struct EncodedObject {
    pub hash: String,
    pub compressed: Vec<u8>,
}

/// Frames, hashes and compresses an object. Decoding the result gives back the kind, the
/// length and the body.
pub fn encode_object(kind: ObjectKind, body: &[u8]) -> (r: EncodedObject)
    ensures
        r.hash@ == object_hash(kind, body@),
        r.hash@.len() == 40,
        r.compressed@ == zlib_deflate(frame_bytes(kind, body@)),
        decoded(r.compressed@) == Some((kind, body@.len(), body@)),
{
    let plain = frame(kind, body);
    let digest = sha1(plain.as_slice());
    let hash = hex_encode(digest.as_slice());
    let compressed = deflate(plain.as_slice());
    proof {
        lemma_decoded_frame(compressed@, kind, body@);
    }
    EncodedObject { hash, compressed }
}

/// The id that an object would be stored under, without compressing it.
pub fn hash_object(kind: ObjectKind, body: &[u8]) -> (r: String)
    ensures
        r@ == object_hash(kind, body@),
        r@.len() == 40,
{
    let plain = frame(kind, body);
    let digest = sha1(plain.as_slice());
    hex_encode(digest.as_slice())
}

/// An object as decoded from its stored bytes.
pub struct DecodedObject {
    pub kind: ObjectKind,
    pub size: usize,
    pub body: Vec<u8>,
}

/// Splits canonical bytes into kind, size and body: the header ends at the first NUL byte and
/// must name a kind and give the body's length in decimal without leading zeros.
pub fn unframe(plain: &[u8]) -> (r: Option<DecodedObject>)
    ensures
        match r {
            Some(o) => plain@ == frame_bytes(o.kind, o.body@) && o.size == o.body@.len(),
            None => forall|k: ObjectKind, b: Seq<u8>| plain@ != frame_bytes(k, b),
        },
{
    let z = match find_byte(plain, 0, 0u8) {
        Some(z) => z,
        None => {
            proof {
                assert forall|k: ObjectKind, b: Seq<u8>| plain@ != frame_bytes(k, b) by {
                    if plain@ == frame_bytes(k, b) {
                        assert(plain@[header_bytes(k, b.len()).len() as int] == 0);
                    }
                }
            }
            return None;
        },
    };
    let n = plain.len();
    let head = copy_range(plain, 0, z);
    let body = copy_range(plain, z + 1, n);
    assert(plain@ =~= head@.push(0u8) + body@);
    let kinds = [ObjectKind::Blob, ObjectKind::Tree, ObjectKind::Commit];
    let mut i: usize = 0;
    while i < 3
        invariant
            forall|j: int| 0 <= j < i ==> head@ != header_bytes(kinds@[j], body@.len()),
            kinds@ == seq![ObjectKind::Blob, ObjectKind::Tree, ObjectKind::Commit],
            plain@ == head@.push(0u8) + body@,
        decreases 3 - i,
    {
        let expected = header(kinds[i], body.len());
        if bytes_eq(expected.as_slice(), head.as_slice()) {
            let size = body.len();
            return Some(DecodedObject { kind: kinds[i], size, body });
        }
        i = i + 1;
    }
    proof {
        assert forall|k: ObjectKind, b: Seq<u8>| plain@ != frame_bytes(k, b) by {
            if plain@ == frame_bytes(k, b) {
                let h = header_bytes(k, b.len());
                lemma_header_zero_free(k, b.len());
                if h.len() < z {
                    assert(plain@[h.len() as int] == 0);
                } else if h.len() > z {
                    assert(plain@[z as int] == h[z as int]);
                }
                assert(head@ =~= h);
                assert(body@ =~= b);
                assert(k == kinds@[0] || k == kinds@[1] || k == kinds@[2]);
            }
        }
    }
    None
}

/// Inflates stored bytes and splits them into kind, size and body.
pub fn decode_object(compressed: &[u8]) -> (r: Result<DecodedObject, GitError>)
    ensures
        r is Ok <==> decoded(compressed@) is Some,
        r matches Ok(o) ==> decoded(compressed@) == Some((o.kind, o.size as nat, o.body@)),
        r matches Err(e) ==> e == GitError::DecodeError,
{
    match inflate(compressed) {
        Some(plain) => match unframe(plain.as_slice()) {
            Some(o) => {
                proof {
                    lemma_decoded_frame(compressed@, o.kind, o.body@);
                }
                Ok(o)
            },
            None => Err(GitError::DecodeError),
        },
        None => Err(GitError::DecodeError),
    }
}

} // verus!
