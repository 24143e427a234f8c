//! Object ids and where objects live: a two-character directory and the rest of the id as
//! the file name, with abbreviated ids resolved against a directory listing.
use vstd::prelude::*;
use vstd::string::*;
use crate::codec::{decode_object, decoded, ObjectKind};
use crate::error::GitError;

verus! {

/// Whether `p` is a prefix of `s`.
pub open spec fn is_prefix(p: Seq<char>, s: Seq<char>) -> bool {
    p.len() <= s.len() && s.take(p.len() as int) == p
}

/// What an object id resolves to within a directory listing.
pub enum Lookup {
    Found(Seq<char>),
    NotFound,
    Ambiguous,
}

/// Two different names of the listing both start with `rest`.
pub open spec fn ambiguous(rest: Seq<char>, names: Seq<Seq<char>>) -> bool {
    exists|i: int, j: int|
        0 <= i < names.len() && 0 <= j < names.len() && is_prefix(rest, #[trigger] names[i])
            && is_prefix(rest, #[trigger] names[j]) && names[i] != names[j]
}

/// How an id resolves: `id` is split after two characters into a directory and a rest; the
/// directory's listing (`None` where it is absent) must hold the rest itself, or exactly one
/// name that starts with it.
pub open spec fn lookup(id: Seq<char>, listing: Option<Seq<Seq<char>>>) -> Lookup {
    if id.len() < 3 || listing is None {
        Lookup::NotFound
    } else {
        let rest = id.skip(2);
        let names = listing.unwrap();
        if names.contains(rest) {
            Lookup::Found(id)
        } else if ambiguous(rest, names) {
            Lookup::Ambiguous
        } else if exists|i: int| 0 <= i < names.len() && is_prefix(rest, #[trigger] names[i]) {
            let i = choose|i: int| 0 <= i < names.len() && is_prefix(rest, #[trigger] names[i]);
            Lookup::Found(id.take(2) + names[i])
        } else {
            Lookup::NotFound
        }
    }
}

pub open spec fn names_of(v: Seq<String>) -> Seq<Seq<char>> {
    v.map_values(|s: String| s@)
}

/// Whether `s` starts with `p`.
pub fn str_starts_with(s: &str, p: &str) -> (r: bool)
    ensures
        r == is_prefix(p@, s@),
{
    let n = s.unicode_len();
    let m = p.unicode_len();
    if m > n {
        return false;
    }
    let mut i: usize = 0;
    while i < m
        invariant
            m == p@.len(),
            n == s@.len(),
            m <= n,
            forall|j: int| 0 <= j < i ==> s@[j] == p@[j],
        decreases m - i,
    {
        if s.get_char(i) != p.get_char(i) {
            assert(s@.take(m as int)[i as int] != p@[i as int]);
            return false;
        }
        i = i + 1;
    }
    assert(s@.take(m as int) =~= p@);
    true
}

/// Splits an id into its directory (the first two characters) and the rest. Ids shorter than
/// three characters are invalid.
pub fn split_object_id(obj_id: &str) -> (r: Result<(String, String), GitError>)
    ensures
        r is Ok <==> obj_id@.len() >= 3,
        r matches Ok((d, f)) ==> d@ == obj_id@.take(2) && f@ == obj_id@.skip(2),
        r matches Err(e) ==> e matches GitError::InvalidObjectId { obj_id: o } && o@ == obj_id@,
{
    let n = obj_id.unicode_len();
    if n < 3 {
        return Err(GitError::InvalidObjectId { obj_id: obj_id.to_owned() });
    }
    let d = obj_id.substring_char(0, 2);
    let f = obj_id.substring_char(2, n);
    Ok((d.to_owned(), f.to_owned()))
}

/// Resolves a full or abbreviated id against the listing of its directory (`None` where the
/// directory is absent) and returns the full id.
pub fn find_object_file(obj_id: &str, listing: Option<&Vec<String>>) -> (r: Result<String, GitError>)
    ensures
        match (r, lookup(obj_id@, match listing { Some(v) => Some(names_of(v@)), None => None })) {
            (Ok(full), Lookup::Found(x)) => full@ == x,
            (Err(GitError::InvalidObjectId { obj_id: o }), Lookup::NotFound) => o@ == obj_id@,
            (Err(GitError::AmbiguousObjectId { obj_id: o }), Lookup::Ambiguous) => o@ == obj_id@,
            _ => false,
        },
{
    let (dir, rest) = match split_object_id(obj_id) {
        Ok(parts) => parts,
        Err(e) => return Err(e),
    };
    let entries = match listing {
        Some(v) => v,
        None => return Err(GitError::InvalidObjectId { obj_id: obj_id.to_owned() }),
    };
    let ghost names = names_of(entries@);
    let mut i: usize = 0;
    while i < entries.len()
        invariant
            names == names_of(entries@),
            listing == Some(entries),
            i <= entries@.len(),
            obj_id@.len() >= 3,
            dir@ == obj_id@.take(2),
            rest@ == obj_id@.skip(2),
            forall|j: int| 0 <= j < i ==> names[j] != rest@,
        decreases entries.len() - i,
    {
        if entries[i] == rest {
            let full = dir.concat(rest.as_str());
            assert(obj_id@ =~= obj_id@.take(2) + obj_id@.skip(2));
            assert(full@ =~= obj_id@);
            assert(names[i as int] == rest@);
            assert(names.contains(rest@));
            return Ok(full);
        }
        i = i + 1;
    }
    assert(!names.contains(rest@));
    let mut found: Option<usize> = None;
    let mut i: usize = 0;
    while i < entries.len()
        invariant
            names == names_of(entries@),
            listing == Some(entries),
            i <= entries@.len(),
            obj_id@.len() >= 3,
            dir@ == obj_id@.take(2),
            rest@ == obj_id@.skip(2),
            !names.contains(rest@),
            match found {
                Some(k) => k < i && is_prefix(rest@, names[k as int]) && forall|j: int|
                    0 <= j < i && is_prefix(rest@, #[trigger] names[j]) ==> names[j] == names[k as int],
                None => forall|j: int| 0 <= j < i ==> !is_prefix(rest@, #[trigger] names[j]),
            },
        decreases entries.len() - i,
    {
        if str_starts_with(entries[i].as_str(), rest.as_str()) {
            match found {
                Some(k) => {
                    if !(entries[i] == entries[k]) {
                        assert(ambiguous(rest@, names)) by {
                            assert(is_prefix(rest@, names[i as int]));
                            assert(is_prefix(rest@, names[k as int]));
                        }
                        return Err(GitError::AmbiguousObjectId { obj_id: obj_id.to_owned() });
                    }
                },
                None => {
                    found = Some(i);
                },
            }
        }
        i = i + 1;
    }
    match found {
        Some(k) => {
            let full = dir.concat(entries[k].as_str());
            proof {
                assert(!ambiguous(rest@, names)) by {
                    if ambiguous(rest@, names) {
                        let (a, b) = choose|a: int, b: int|
                            0 <= a < names.len() && 0 <= b < names.len() && is_prefix(
                                rest@,
                                #[trigger] names[a],
                            ) && is_prefix(rest@, #[trigger] names[b]) && names[a] != names[b];
                        assert(names[a] == names[k as int]);
                        assert(names[b] == names[k as int]);
                    }
                }
                assert(is_prefix(rest@, names[k as int]));
                let c = choose|c: int| 0 <= c < names.len() && is_prefix(rest@, #[trigger] names[c]);
                assert(names[c] == names[k as int]);
            }
            Ok(full)
        },
        None => {
            proof {
                assert(!ambiguous(rest@, names));
            }
            Err(GitError::InvalidObjectId { obj_id: obj_id.to_owned() })
        },
    }
}

/// Two stored objects whose ids share their first five characters make that prefix ambiguous,
/// while either full id still resolves to itself.
pub proof fn lemma_ambiguous_prefix(
    h1: Seq<char>,
    h2: Seq<char>,
    prefix: Seq<char>,
    names: Seq<Seq<char>>,
)
    requires
        h1.len() == 40,
        h2.len() == 40,
        h1 != h2,
        prefix.len() == 5,
        is_prefix(prefix, h1),
        is_prefix(prefix, h2),
        names.contains(h1.skip(2)),
        names.contains(h2.skip(2)),
        forall|i: int| 0 <= i < names.len() ==> (#[trigger] names[i]).len() == 38,
    ensures
        lookup(prefix, Some(names)) == Lookup::Ambiguous,
        lookup(h1, Some(names)) == Lookup::Found(h1),
        lookup(h2, Some(names)) == Lookup::Found(h2),
{
    let rest = prefix.skip(2);
    let i1 = names.index_of(h1.skip(2));
    let i2 = names.index_of(h2.skip(2));
    assert(h1.take(2) == prefix.take(2)) by {
        assert(h1.take(2) =~= h1.take(5).take(2));
        assert(prefix.take(2) =~= prefix.take(5).take(2));
    }
    assert(h2.take(2) == prefix.take(2)) by {
        assert(h2.take(2) =~= h2.take(5).take(2));
        assert(prefix.take(2) =~= prefix.take(5).take(2));
    }
    assert(h1 =~= h1.take(2) + h1.skip(2));
    assert(h2 =~= h2.take(2) + h2.skip(2));
    assert(h1.skip(2) != h2.skip(2));
    assert(is_prefix(rest, names[i1])) by {
        assert(names[i1].take(3) =~= h1.take(5).skip(2));
        assert(rest =~= prefix.take(5).skip(2));
    }
    assert(is_prefix(rest, names[i2])) by {
        assert(names[i2].take(3) =~= h2.take(5).skip(2));
        assert(rest =~= prefix.take(5).skip(2));
    }
    assert(ambiguous(rest, names));
    assert(!names.contains(rest)) by {
        if names.contains(rest) {
            let k = names.index_of(rest);
            assert(names[k].len() == 38);
        }
    }
}

/// An object read back from the store, under its full id.
pub struct GitObject {
    pub kind: ObjectKind,
    pub sha1: String,
    pub size: usize,
    pub body: Vec<u8>,
}

impl GitObject {
    /// Decodes the stored bytes of the object whose full id is `full_id`.
    pub fn from_stored(full_id: String, compressed: &[u8]) -> (r: Result<GitObject, GitError>)
        ensures
            r is Ok <==> decoded(compressed@) is Some,
            r matches Ok(o) ==> decoded(compressed@) == Some((o.kind, o.size as nat, o.body@))
                && o.sha1@ == full_id@,
            r matches Err(e) ==> e == GitError::DecodeError,
    {
        match decode_object(compressed) {
            Ok(d) => Ok(GitObject { kind: d.kind, sha1: full_id, size: d.size, body: d.body }),
            Err(e) => Err(e),
        }
    }
}

} // verus!
