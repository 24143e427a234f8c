//! Trees: file modes, the canonical order of entries, and the binary body of a tree object,
//! `mode SP name NUL hash` per entry with the hash as twenty raw bytes.
use vstd::prelude::*;
use vstd::string::*;
use vstd::utf8::*;
use vstd::seq_lib::*;
use vstd::multiset::Multiset;
use crate::codec::{decoded, encode_object, object_hash, EncodedObject, ObjectKind};
use crate::error::GitError;
use crate::text::{
    copy_range, find_byte, hex_bytes, hex_decode, hex_encode, hex_lower, is_hex_text,
    lemma_hex_round_trip, push_all, utf8_string,
};

verus! {

broadcast use to_multiset_build, to_multiset_insert, to_multiset_len, vstd::multiset::lemma_multiset_empty_len;

pub const MODE_TYPE_MASK: u32 = 0o170000;
pub const MODE_DIR: u32 = 0o040000;
pub const MODE_REGULAR: u32 = 0o100000;
pub const MODE_SYMLINK: u32 = 0o120000;

/// The mode recorded in a tree for a filesystem entry with raw mode `mode`: directories,
/// symbolic links, and regular files collapsed to executable or not; nothing else is recorded.
pub open spec fn entry_mode(mode: u32) -> Option<Seq<char>> {
    let t = mode & MODE_TYPE_MASK;
    if t == MODE_DIR {
        Some(seq!['4', '0', '0', '0', '0'])
    } else if t == MODE_SYMLINK {
        Some(seq!['1', '2', '0', '0', '0', '0'])
    } else if t == MODE_REGULAR {
        if mode & 0o100 != 0 {
            Some(seq!['1', '0', '0', '7', '5', '5'])
        } else {
            Some(seq!['1', '0', '0', '6', '4', '4'])
        }
    } else {
        None
    }
}

/// The tree mode of a filesystem entry with raw mode `mode`: `40000`, `120000`, `100755` or
/// `100644`. Devices, sockets and pipes are refused.
pub fn mode_to_string(mode: u32) -> (r: Result<String, GitError>)
    ensures
        match r {
            Ok(s) => entry_mode(mode) == Some(s@),
            Err(e) => entry_mode(mode) is None && e == (GitError::UnsupportedFileType { mode }),
        },
{
    proof {
        reveal_strlit("40000");
        reveal_strlit("120000");
        reveal_strlit("100755");
        reveal_strlit("100644");
    }
    let t = mode & MODE_TYPE_MASK;
    let s = if t == MODE_DIR {
        "40000"
    } else if t == MODE_SYMLINK {
        "120000"
    } else if t == MODE_REGULAR {
        if mode & 0o100 != 0 {
            "100755"
        } else {
            "100644"
        }
    } else {
        return Err(GitError::UnsupportedFileType { mode });
    };
    let r = String::from_str(s);
    assert(entry_mode(mode) == Some(r@)) by {
        assert(r@ =~= entry_mode(mode).unwrap());
    }
    Ok(r)
}

/// One entry of a tree: its mode text, its name, and the hex id of the object it names.
#[derive(Debug)]
pub struct TreeEntry {
    pub name: String,
    pub mode: String,
    pub sha1: String,
}

/// Whether an entry names a subtree.
pub open spec fn is_tree_mode(mode: Seq<char>) -> bool {
    mode == seq!['4', '0', '0', '0', '0']
}

/// The key that orders the entries of a tree: the name's bytes, followed by `/` for a subtree.
pub open spec fn entry_key(e: TreeEntry) -> Seq<u8> {
    let n = encode_utf8(e.name@);
    if is_tree_mode(e.mode@) {
        n.push(47u8)
    } else {
        n
    }
}

/// `a` sorts strictly before `b`, byte by byte, a proper prefix first.
pub open spec fn lex_lt(a: Seq<u8>, b: Seq<u8>) -> bool {
    ||| (a.len() < b.len() && b.take(a.len() as int) == a)
    ||| exists|k: int| 0 <= k < a.len() && k < b.len() && a.take(k) == b.take(k) && a[k] < b[k]
}

pub open spec fn key_le(a: Seq<u8>, b: Seq<u8>) -> bool {
    lex_lt(a, b) || a == b
}

/// Entries in the order a tree stores them.
pub open spec fn sorted_entries(es: Seq<TreeEntry>) -> bool {
    forall|i: int| 0 <= i < es.len() - 1 ==> key_le(entry_key(#[trigger] es[i]), entry_key(es[i + 1]))
}

/// Compares two byte strings: negative, zero or positive as `a` sorts before, equal to, or
/// after `b`.
pub fn compare_bytes(a: &[u8], b: &[u8]) -> (r: i8)
    ensures
        r < 0 ==> lex_lt(a@, b@),
        r == 0 ==> a@ == b@,
        r > 0 ==> lex_lt(b@, a@),
{
    let mut i: usize = 0;
    while i < a.len() && i < b.len()
        invariant
            i <= a@.len(),
            i <= b@.len(),
            a@.take(i as int) == b@.take(i as int),
        decreases a.len() - i,
    {
        if a[i] != b[i] {
            if a[i] < b[i] {
                assert(lex_lt(a@, b@));
                return -1;
            } else {
                assert(b@.take(i as int) == a@.take(i as int));
                assert(lex_lt(b@, a@));
                return 1;
            }
        }
        assert(a@.take(i + 1) =~= a@.take(i as int).push(a@[i as int]));
        assert(b@.take(i + 1) =~= b@.take(i as int).push(b@[i as int]));
        i = i + 1;
    }
    if a.len() < b.len() {
        assert(b@.take(a@.len() as int) =~= a@.take(i as int));
        assert(a@.take(i as int) =~= a@);
        -1
    } else if b.len() < a.len() {
        assert(a@.take(b@.len() as int) =~= b@.take(i as int));
        assert(b@.take(i as int) =~= b@);
        1
    } else {
        assert(a@ =~= a@.take(i as int));
        assert(b@ =~= b@.take(i as int));
        0
    }
}

/// Whether a mode text names a subtree.
pub fn is_tree_entry(e: &TreeEntry) -> (r: bool)
    ensures
        r == is_tree_mode(e.mode@),
{
    proof {
        reveal_strlit("40000");
    }
    let d = String::from_str("40000");
    assert(d@ =~= seq!['4', '0', '0', '0', '0']);
    e.mode == d
}

/// The ordering key of an entry.
pub fn sort_key(e: &TreeEntry) -> (r: Vec<u8>)
    ensures
        r@ == entry_key(*e),
{
    let mut k: Vec<u8> = Vec::new();
    push_all(&mut k, e.name.as_str().as_bytes());
    if is_tree_entry(e) {
        k.push(47u8);
    }
    assert(k@ =~= entry_key(*e));
    k
}

/// Puts entries in the canonical tree order: by name, a subtree's name compared as though it
/// ended in `/`. Entries with equal keys keep no particular order.
pub fn sort_entries(entries: Vec<TreeEntry>) -> (r: Vec<TreeEntry>)
    ensures
        sorted_entries(r@),
        r@.to_multiset() == entries@.to_multiset(),
        distinct_keys(entries@) ==> strictly_sorted(r@),
{
    broadcast use vstd::multiset::group_multiset_axioms;

    let ghost orig = entries@;
    let ghost mut from: Seq<int> = seq![];
    let mut rest = entries;
    let mut out: Vec<TreeEntry> = Vec::new();
    assert(out@.to_multiset().len() == 0);
    assert(out@.to_multiset() =~= Multiset::<TreeEntry>::empty());
    assert(out@.to_multiset().add(rest@.to_multiset()) =~= entries@.to_multiset());
    while rest.len() > 0
        invariant
            sorted_entries(out@),
            out@.to_multiset().add(rest@.to_multiset()) == entries@.to_multiset(),
            orig == entries@,
            rest@.len() <= orig.len(),
            rest@ == orig.take(rest@.len() as int),
            from.len() == out@.len(),
            forall|i: int|
                0 <= i < out@.len() ==> rest@.len() <= #[trigger] from[i] < orig.len() && out@[i]
                    == orig[from[i]],
            forall|i: int, j: int|
                0 <= i < out@.len() && 0 <= j < out@.len() && i != j ==> #[trigger] from[i]
                    != #[trigger] from[j],
        decreases rest.len(),
    {
        let ghost before = rest@;
        let e = rest.pop().unwrap();
        assert(before =~= rest@.push(e));
        assert(before[rest@.len() as int] == orig.take(before.len() as int)[rest@.len() as int]);
        assert(e == orig[rest@.len() as int]);
        assert forall|i: int| 0 <= i < rest@.len() implies rest@[i] == orig[i] by {
            assert(rest@[i] == before[i]);
            assert(before[i] == orig.take(before.len() as int)[i]);
        }
        assert(rest@ =~= orig.take(rest@.len() as int));
        let key = sort_key(&e);
        let mut p: usize = 0;
        while p < out.len()
            invariant
                p <= out@.len(),
                key@ == entry_key(e),
                p > 0 ==> key_le(entry_key(out@[p - 1]), key@),
            ensures
                p <= out@.len(),
                p > 0 ==> key_le(entry_key(out@[p - 1]), key@),
                p < out@.len() ==> lex_lt(key@, entry_key(out@[p as int])),
            decreases out.len() - p,
        {
            let k = sort_key(&out[p]);
            if compare_bytes(k.as_slice(), key.as_slice()) > 0 {
                break;
            }
            p = p + 1;
        }
        let ghost old_out = out@;
        out.insert(p, e);
        proof {
            old_out.insert_ensures(p as int, e);
            let old_from = from;
            from = from.insert(p as int, rest@.len() as int);
            old_from.insert_ensures(p as int, rest@.len() as int);
            assert forall|i: int|
                0 <= i < out@.len() implies rest@.len() <= #[trigger] from[i] < orig.len() && out@[i]
                    == orig[from[i]] by {
                if i < p {
                    assert(from[i] == old_from[i]);
                } else if i > p {
                    assert(from[i] == old_from[i - 1]);
                }
            }
            assert forall|i: int, j: int|
                0 <= i < out@.len() && 0 <= j < out@.len() && i != j implies #[trigger] from[i]
                    != #[trigger] from[j] by {
                if i != p && j != p {
                    let oi = if i < p { i } else { i - 1 };
                    let oj = if j < p { j } else { j - 1 };
                    assert(from[i] == old_from[oi]);
                    assert(from[j] == old_from[oj]);
                } else if i == p {
                    let oj = if j < p { j } else { j - 1 };
                    assert(from[j] == old_from[oj]);
                } else {
                    let oi = if i < p { i } else { i - 1 };
                    assert(from[i] == old_from[oi]);
                }
            }
            assert(sorted_entries(out@)) by {
                assert forall|i: int| 0 <= i < out@.len() - 1 implies key_le(
                    entry_key(#[trigger] out@[i]),
                    entry_key(out@[i + 1]),
                ) by {
                    if i + 1 < p {
                        assert(out@[i] == old_out[i]);
                        assert(out@[i + 1] == old_out[i + 1]);
                    } else if i + 1 == p {
                        assert(out@[i] == old_out[i]);
                    } else if i == p {
                    } else {
                        assert(out@[i] == old_out[i - 1]);
                        assert(out@[i + 1] == old_out[i]);
                    }
                }
            }
            assert(out@.to_multiset() == old_out.to_multiset().insert(e));
            assert(before.to_multiset() == rest@.to_multiset().insert(e));
            assert(out@.to_multiset().add(rest@.to_multiset()) =~= old_out.to_multiset().add(
                before.to_multiset(),
            ));
        }
    }
    assert(rest@.to_multiset().len() == 0);
    assert(rest@.to_multiset() =~= Multiset::<TreeEntry>::empty());
    assert(out@.to_multiset().add(rest@.to_multiset()) =~= out@.to_multiset());
    proof {
        if distinct_keys(orig) {
            assert forall|i: int| 0 <= i < out@.len() - 1 implies lex_lt(
                entry_key(#[trigger] out@[i]),
                entry_key(out@[i + 1]),
            ) by {
                assert(key_le(entry_key(out@[i]), entry_key(out@[i + 1])));
                assert(from[i] != from[i + 1]);
                if from[i] < from[i + 1] {
                    assert(entry_key(orig[from[i]]) != entry_key(orig[from[i + 1]]));
                } else {
                    assert(entry_key(orig[from[i + 1]]) != entry_key(orig[from[i]]));
                }
            }
        }
    }
    out
}

/// No two entries share a key, as no two entries of a directory share a name.
pub open spec fn distinct_keys(es: Seq<TreeEntry>) -> bool {
    forall|i: int, j: int|
        0 <= i < j < es.len() ==> entry_key(#[trigger] es[i]) != entry_key(#[trigger] es[j])
}

/// Keys strictly ascending: the order a tree stores its entries in.
pub open spec fn strictly_sorted(es: Seq<TreeEntry>) -> bool {
    forall|i: int|
        0 <= i < es.len() - 1 ==> lex_lt(entry_key(#[trigger] es[i]), entry_key(es[i + 1]))
}

/// A hash written as forty hexadecimal digits.
pub open spec fn valid_hash(s: Seq<char>) -> bool {
    s.len() == 40 && is_hex_text(s)
}

/// The bytes of one entry in a tree body: `mode SP name NUL` and the twenty raw hash bytes.
pub open spec fn entry_bytes(e: TreeEntry) -> Seq<u8> {
    encode_utf8(e.mode@).push(32u8) + encode_utf8(e.name@).push(0u8) + hex_bytes(e.sha1@)
}

/// The body of a tree object holding the entries `es`, in that order.
pub open spec fn tree_body(es: Seq<TreeEntry>) -> Seq<u8>
    decreases es.len(),
{
    if es.len() == 0 {
        seq![]
    } else {
        tree_body(es.drop_last()) + entry_bytes(es.last())
    }
}

pub open spec fn all_hashes_valid(es: Seq<TreeEntry>) -> bool {
    forall|i: int| 0 <= i < es.len() ==> valid_hash(#[trigger] es[i].sha1@)
}

/// Appends the bytes of one entry to `out`.
pub fn push_entry(out: &mut Vec<u8>, e: &TreeEntry) -> (r: Result<(), GitError>)
    ensures
        r is Ok <==> valid_hash(e.sha1@),
        r is Ok ==> final(out)@ == old(out)@ + entry_bytes(*e),
        r matches Err(x) ==> x == GitError::HexConversionError,
{
    if e.sha1.as_str().unicode_len() != 40 {
        return Err(GitError::HexConversionError);
    }
    let raw = match hex_decode(e.sha1.as_str()) {
        Ok(raw) => raw,
        Err(_) => return Err(GitError::HexConversionError),
    };
    push_all(out, e.mode.as_str().as_bytes());
    out.push(32u8);
    push_all(out, e.name.as_str().as_bytes());
    out.push(0u8);
    push_all(out, raw.as_slice());
    Ok(())
}

/// The body of a tree holding `entries` in the order given.
pub fn tree_body_bytes(entries: &Vec<TreeEntry>) -> (r: Result<Vec<u8>, GitError>)
    ensures
        r is Ok <==> all_hashes_valid(entries@),
        r matches Ok(b) ==> b@ == tree_body(entries@),
        r matches Err(x) ==> x == GitError::HexConversionError,
{
    let mut out: Vec<u8> = Vec::new();
    let mut i: usize = 0;
    while i < entries.len()
        invariant
            i <= entries@.len(),
            out@ == tree_body(entries@.take(i as int)),
            all_hashes_valid(entries@.take(i as int)),
        decreases entries.len() - i,
    {
        let ghost before = out@;
        match push_entry(&mut out, &entries[i]) {
            Ok(()) => {},
            Err(x) => {
                assert(!valid_hash(entries@[i as int].sha1@));
                return Err(x);
            },
        }
        proof {
            let t = entries@.take(i + 1);
            assert(t.drop_last() =~= entries@.take(i as int));
            assert(t.last() == entries@[i as int]);
            assert forall|j: int| 0 <= j < t.len() implies valid_hash(#[trigger] t[j].sha1@) by {
                if j < i {
                    assert(t[j] == entries@.take(i as int)[j]);
                }
            }
        }
        i = i + 1;
    }
    assert(entries@.take(i as int) =~= entries@);
    Ok(out)
}

/// The entries of a multiset-equal sequence all have valid hashes when those of the other do.
proof fn lemma_valid_hashes_permuted(a: Seq<TreeEntry>, b: Seq<TreeEntry>)
    requires
        a.to_multiset() == b.to_multiset(),
        all_hashes_valid(a),
    ensures
        all_hashes_valid(b),
{
    broadcast use vstd::seq_lib::group_to_multiset_ensures;

    assert forall|i: int| 0 <= i < b.len() implies valid_hash(#[trigger] b[i].sha1@) by {
        assert(b.contains(b[i]));
        assert(b.to_multiset().count(b[i]) > 0);
        assert(a.contains(b[i]));
        let j = a.index_of(b[i]);
        assert(valid_hash(a[j].sha1@));
    }
}

/// The body of the tree that holds `entries`: sorted into the canonical order, then written
/// out entry by entry.
pub fn build_tree(entries: Vec<TreeEntry>) -> (r: Result<Vec<u8>, GitError>)
    ensures
        r is Ok <==> all_hashes_valid(entries@),
        r matches Ok(b) ==> exists|s: Seq<TreeEntry>|
            sorted_entries(s) && s.to_multiset() == entries@.to_multiset() && b@ == tree_body(s)
                && (distinct_keys(entries@) ==> strictly_sorted(s)),
        r matches Err(x) ==> x == GitError::HexConversionError,
{
    let ghost original = entries@;
    let sorted = sort_entries(entries);
    proof {
        if all_hashes_valid(original) {
            lemma_valid_hashes_permuted(original, sorted@);
        }
        if all_hashes_valid(sorted@) {
            lemma_valid_hashes_permuted(sorted@, original);
        }
    }
    tree_body_bytes(&sorted)
}

/// An entry as a tree body can hold it: no space or NUL in the mode, no NUL in the name, and
/// the hash in lowercase hex.
pub open spec fn entry_wf(e: TreeEntry) -> bool {
    let m = encode_utf8(e.mode@);
    let n = encode_utf8(e.name@);
    &&& forall|i: int| 0 <= i < m.len() ==> m[i] != 32u8 && m[i] != 0u8
    &&& forall|i: int| 0 <= i < n.len() ==> n[i] != 0u8
    &&& e.sha1@.len() == 40
    &&& e.sha1@ == hex_lower(hex_bytes(e.sha1@))
}

pub open spec fn all_wf(es: Seq<TreeEntry>) -> bool {
    forall|i: int| 0 <= i < es.len() ==> entry_wf(#[trigger] es[i])
}

/// A tree body read from the front: the first entry's bytes, then the body of the others.
pub proof fn lemma_tree_body_cons(e: TreeEntry, es: Seq<TreeEntry>)
    ensures
        tree_body(seq![e] + es) == entry_bytes(e) + tree_body(es),
    decreases es.len(),
{
    if es.len() == 0 {
        assert((seq![e] + es).drop_last() =~= Seq::<TreeEntry>::empty());
        assert(tree_body(Seq::<TreeEntry>::empty()) =~= Seq::<u8>::empty());
        assert(entry_bytes(e) + tree_body(es) =~= entry_bytes(e));
        assert(tree_body(seq![e] + es) =~= Seq::<u8>::empty() + entry_bytes(e));
    } else {
        lemma_tree_body_cons(e, es.drop_last());
        assert((seq![e] + es).drop_last() =~= seq![e] + es.drop_last());
        assert((seq![e] + es).last() == es.last());
        assert(tree_body(seq![e] + es) =~= entry_bytes(e) + tree_body(es));
    }
}

/// Where the first entry of a well-formed tree body at `pos` has its space and its NUL.
proof fn lemma_first_entry(body: Seq<u8>, pos: int, t: Seq<TreeEntry>)
    requires
        0 <= pos <= body.len(),
        t.len() > 0,
        all_wf(t),
        tree_body(t) == body.subrange(pos, body.len() as int),
    ensures
        ({
            let mb = encode_utf8(t[0].mode@);
            let nb = encode_utf8(t[0].name@);
            let sp = pos + mb.len();
            let z = sp + 1 + nb.len();
            &&& z + 21 <= body.len()
            &&& body[sp] == 32u8
            &&& body[z] == 0u8
            &&& forall|j: int| pos <= j < sp ==> body[j] != 32u8
            &&& forall|j: int| pos <= j < z ==> body[j] != 0u8
            &&& body.subrange(pos, sp) == mb
            &&& body.subrange(sp + 1, z) == nb
            &&& all_wf(t.drop_first())
            &&& tree_body(t.drop_first()) == body.subrange(z + 21, body.len() as int)
        }),
{
    let e = t[0];
    assert(t =~= seq![e] + t.drop_first());
    lemma_tree_body_cons(e, t.drop_first());
    let mb = encode_utf8(e.mode@);
    let nb = encode_utf8(e.name@);
    let sp = pos + mb.len();
    let z = sp + 1 + nb.len();
    let rest = body.subrange(pos, body.len() as int);
    assert(entry_wf(e));
    assert(hex_bytes(e.sha1@).len() == 20);
    let eb = entry_bytes(e);
    assert(eb.len() == mb.len() + nb.len() + 22);
    assert(rest == eb + tree_body(t.drop_first()));
    assert(rest.len() == body.len() - pos);
    assert(rest.len() >= eb.len());
    assert forall|j: int| pos <= j < sp implies body[j] != 32u8 && body[j] != 0u8 by {
        assert(body[j] == rest[j - pos]);
        assert(rest[j - pos] == eb[j - pos]);
        assert(eb[j - pos] == mb[j - pos]);
    }
    assert(body[sp] == rest[sp - pos]);
    assert(rest[sp - pos] == eb[sp - pos]);
    assert forall|j: int| sp < j < z implies body[j] != 0u8 by {
        assert(body[j] == rest[j - pos]);
        assert(rest[j - pos] == eb[j - pos]);
        assert(eb[j - pos] == nb[j - sp - 1]);
    }
    assert(body[z] == rest[z - pos]);
    assert(rest[z - pos] == eb[z - pos]);
    assert(body.subrange(pos, sp) =~= eb.subrange(0, mb.len() as int));
    assert(eb.subrange(0, mb.len() as int) =~= mb);
    assert forall|j: int| 0 <= j < nb.len() implies #[trigger] body.subrange(sp + 1, z)[j] == nb[j] by {
        assert(body[sp + 1 + j] == rest[sp + 1 + j - pos]);
        assert(rest[sp + 1 + j - pos] == eb[sp + 1 + j - pos]);
    }
    assert(body.subrange(sp + 1, z) =~= nb);
    assert(body.subrange(z + 21, body.len() as int) =~= rest.subrange(eb.len() as int, rest.len() as int));
    assert(rest.subrange(eb.len() as int, rest.len() as int) =~= tree_body(t.drop_first()));
    assert forall|i: int| 0 <= i < t.drop_first().len() implies entry_wf(#[trigger] t.drop_first()[i]) by {
        assert(t.drop_first()[i] == t[i + 1]);
    }
}

/// Reads the entry that starts at `pos`, and where the next one starts. `dec` is a reading of
/// the rest of the body as entries, where there is one; then reading an entry succeeds and
/// leaves the rest of that reading.
#[verifier::spinoff_prover]
#[verifier::rlimit(100)]
fn read_entry(body: &[u8], pos: usize, dec: Ghost<Option<Seq<TreeEntry>>>) -> (r: Option<(TreeEntry, usize)>)
    requires
        pos < body@.len(),
        dec@ matches Some(t) ==> all_wf(t) && tree_body(t) == body@.subrange(pos as int, body@.len() as int),
    ensures
        match r {
            Some((e, end)) => {
                &&& pos < end <= body@.len()
                &&& entry_wf(e)
                &&& entry_bytes(e) == body@.subrange(pos as int, end as int)
                &&& dec@ matches Some(t) ==> tree_body(t.drop_first()) == body@.subrange(
                    end as int,
                    body@.len() as int,
                ) && all_wf(t.drop_first())
            },
            None => dec@ is None,
        },
{
    let n = body.len();
    let z = find_byte(body, pos, 0u8);
    let sp = find_byte(body, pos, 32u8);
    proof {
        if let Some(t) = dec@ {
            if t.len() == 0 {
                assert(tree_body(t) =~= Seq::<u8>::empty());
            }
            lemma_first_entry(body@, pos as int, t);
            encode_utf8_valid_utf8(t[0].mode@);
            encode_utf8_valid_utf8(t[0].name@);
            let mb = encode_utf8(t[0].mode@);
            let nb = encode_utf8(t[0].name@);
            assert(z == Some((pos + mb.len() + 1 + nb.len()) as usize));
            assert(sp == Some((pos + mb.len()) as usize));
        }
    }
    let z = match z {
        Some(z) => z,
        None => return None,
    };
    let sp = match sp {
        Some(sp) => sp,
        None => return None,
    };
    if sp > z || n - z - 1 < 20 {
        return None;
    }
    let end = z + 21;
    let mode_bytes = copy_range(body, pos, sp);
    let name_bytes = copy_range(body, sp + 1, z);
    let raw = copy_range(body, z + 1, end);
    let ghost mb = mode_bytes@;
    let ghost nb = name_bytes@;
    let mode = match utf8_string(mode_bytes) {
        Some(m) => m,
        None => return None,
    };
    let name = match utf8_string(name_bytes) {
        Some(m) => m,
        None => return None,
    };
    let sha1 = hex_encode(raw.as_slice());
    let e = TreeEntry { name, mode, sha1 };
    proof {
        decode_utf8_encode_utf8(mb);
        decode_utf8_encode_utf8(nb);
        lemma_hex_round_trip(raw@);
        assert(encode_utf8(e.mode@) == mb);
        assert(encode_utf8(e.name@) == nb);
        assert(hex_bytes(e.sha1@) == raw@);
        assert(entry_bytes(e) =~= body@.subrange(pos as int, end as int));
    }
    Some((e, end))
}

/// Reads the entries of a tree body, in their stored order. Fails exactly when the body is
/// not a sequence of well-formed entries.
pub fn parse_tree(body: &[u8]) -> (r: Result<Vec<TreeEntry>, GitError>)
    ensures
        r matches Ok(es) ==> tree_body(es@) == body@ && all_wf(es@),
        r matches Err(x) ==> x == GitError::DecodeError && forall|es: Seq<TreeEntry>|
            all_wf(es) ==> tree_body(es) != body@,
{
    let n = body.len();
    let mut out: Vec<TreeEntry> = Vec::new();
    let mut pos: usize = 0;
    let ghost mut dec: Option<Seq<TreeEntry>> = if exists|es: Seq<TreeEntry>|
        all_wf(es) && tree_body(es) == body@ {
        Some(choose|es: Seq<TreeEntry>| all_wf(es) && tree_body(es) == body@)
    } else {
        None
    };
    assert(body@.subrange(0, n as int) =~= body@);
    while pos < n
        invariant
            n == body@.len(),
            pos <= n,
            tree_body(out@) == body@.take(pos as int),
            all_wf(out@),
            match dec {
                Some(t) => all_wf(t) && tree_body(t) == body@.subrange(pos as int, n as int),
                None => forall|es: Seq<TreeEntry>| all_wf(es) ==> tree_body(es) != body@,
            },
        decreases n - pos,
    {
        let (e, end) = match read_entry(body, pos, Ghost(dec)) {
            Some(x) => x,
            None => return Err(GitError::DecodeError),
        };
        let ghost old_out = out@;
        out.push(e);
        proof {
            assert(out@.drop_last() =~= old_out);
            assert(body@.take(end as int) =~= body@.take(pos as int) + body@.subrange(
                pos as int,
                end as int,
            ));
            assert forall|i: int| 0 <= i < out@.len() implies entry_wf(#[trigger] out@[i]) by {
                if i < old_out.len() {
                    assert(out@[i] == old_out[i]);
                }
            }
            if let Some(t) = dec {
                assert(tree_body(t.drop_first()) == body@.subrange(end as int, n as int));
                dec = Some(t.drop_first());
            }
        }
        pos = end;
    }
    assert(body@.take(n as int) =~= body@);
    Ok(out)
}

/// The entry that records the subdirectory `name` whose tree has body `body`, with that tree
/// ready for storage; `None` for an empty subdirectory, which a tree does not record.
pub fn directory_entry(name: String, body: &[u8]) -> (r: Option<(TreeEntry, EncodedObject)>)
    ensures
        r is None <==> body@.len() == 0,
        r matches Some((e, o)) ==> {
            &&& e.name@ == name@
            &&& is_tree_mode(e.mode@)
            &&& e.sha1@ == object_hash(ObjectKind::Tree, body@)
            &&& o.hash@ == e.sha1@
            &&& decoded(o.compressed@) == Some((ObjectKind::Tree, body@.len(), body@))
        },
{
    if body.len() == 0 {
        return None;
    }
    let o = encode_object(ObjectKind::Tree, body);
    proof {
        reveal_strlit("40000");
    }
    let mode = String::from_str("40000");
    assert(mode@ =~= seq!['4', '0', '0', '0', '0']);
    let sha1 = o.hash.clone();
    Some((TreeEntry { name, mode, sha1 }, o))
}

/// The suffix-aware order: a subtree named `n` sorts after every entry whose name is `n`
/// followed by a byte below `/` (such as `.`), and before every entry whose name is `n`
/// followed by a byte above `/` (such as `2`), whatever else those names hold.
pub proof fn lemma_subtree_order(n: Seq<u8>, c: u8, rest: Seq<u8>)
    ensures
        c < 47 ==> lex_lt(n.push(c) + rest, n.push(47u8)),
        c > 47 ==> lex_lt(n.push(47u8), n.push(c) + rest),
{
    let f = n.push(c) + rest;
    let d = n.push(47u8);
    let k = n.len() as int;
    assert(f.take(k) =~= n);
    assert(d.take(k) =~= n);
    assert(f[k] == c);
    assert(d[k] == 47u8);
}

} // verus!
