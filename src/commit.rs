//! Commits: a `tree` line, an optional `parent` line, `author` and `committer` lines, a blank
//! line and a free-text message.
use vstd::prelude::*;
use vstd::string::*;
use vstd::utf8::*;
use crate::error::GitError;
use crate::tag::{is_trimmed, trim};
use crate::text::{copy_range, find_byte, push_all, push_decimal, dec_digits, ascii_string, ascii_text, all_ascii, lemma_dec_digits_shape, all_digits};

verus! {

pub open spec fn key_tree() -> Seq<u8> {
    seq![116u8, 114u8, 101u8, 101u8]
}

pub open spec fn key_parent() -> Seq<u8> {
    seq![112u8, 97u8, 114u8, 101u8, 110u8, 116u8]
}

pub open spec fn key_author() -> Seq<u8> {
    seq![97u8, 117u8, 116u8, 104u8, 111u8, 114u8]
}

pub open spec fn key_committer() -> Seq<u8> {
    seq![99u8, 111u8, 109u8, 109u8, 105u8, 116u8, 116u8, 101u8, 114u8]
}

/// One header line of a commit: `"<key> <value>\n"`.
pub open spec fn header_line(key: Seq<u8>, value: Seq<u8>) -> Seq<u8> {
    key.push(32u8) + value.push(10u8)
}

/// A header value fits on one line.
pub open spec fn one_line(v: Seq<u8>) -> bool {
    forall|i: int| 0 <= i < v.len() ==> v[i] != 10u8
}

/// The header lines of a commit, in their mandatory order.
pub open spec fn commit_headers(
    tree: Seq<u8>,
    parent: Option<Seq<u8>>,
    author: Seq<u8>,
    committer: Seq<u8>,
) -> Seq<u8> {
    header_line(key_tree(), tree) + match parent {
        Some(p) => header_line(key_parent(), p),
        None => Seq::<u8>::empty(),
    } + header_line(key_author(), author) + header_line(key_committer(), committer)
}

/// The body of a commit: its header lines, a blank line, then the message.
pub open spec fn commit_text(
    tree: Seq<u8>,
    parent: Option<Seq<u8>>,
    author: Seq<u8>,
    committer: Seq<u8>,
    message: Seq<u8>,
) -> Seq<u8> {
    commit_headers(tree, parent, author, committer).push(10u8) + message
}

/// A commit read from its body.
pub struct Commit {
    pub tree: String,
    pub parent: Option<String>,
    pub author: String,
    pub committer: String,
    pub message: Vec<u8>,
}

/// Whether `b[pos..]` starts with `key` followed by a space.
fn key_at(b: &[u8], pos: usize, key: &[u8]) -> (r: bool)
    requires
        pos <= b@.len(),
        key@.len() <= 16,
    ensures
        r == (pos + key@.len() + 1 <= b@.len() && b@.subrange(pos as int, pos + key@.len() + 1)
            == key@.push(32u8)),
{
    let n = b.len();
    if n - pos < key.len() + 1 {
        return false;
    }
    let mut i: usize = 0;
    while i < key.len()
        invariant
            n == b@.len(),
            pos + key@.len() + 1 <= n,
            forall|j: int| 0 <= j < i ==> b@[pos + j] == key@[j],
        decreases key.len() - i,
    {
        if b[pos + i] != key[i] {
            assert(b@.subrange(pos as int, pos + key@.len() + 1)[i as int] != key@.push(32u8)[i as int]);
            return false;
        }
        i = i + 1;
    }
    if b[pos + key.len()] != 32u8 {
        assert(b@.subrange(pos as int, pos + key@.len() + 1)[key@.len() as int] != key@.push(32u8)[key@.len() as int]);
        return false;
    }
    assert(b@.subrange(pos as int, pos + key@.len() + 1) =~= key@.push(32u8));
    true
}

/// The header line `"<key> <value>\n"` stands at `pos` in `b`.
pub open spec fn line_at(b: Seq<u8>, pos: int, key: Seq<u8>, v: Seq<u8>) -> bool {
    0 <= pos && pos + header_line(key, v).len() <= b.len() && b.subrange(
        pos,
        pos + header_line(key, v).len(),
    ) == header_line(key, v)
}

/// Reads the header line `"<key> <value>\n"` at `pos`; returns the value and where the next
/// line starts.
fn header_at(b: &[u8], pos: usize, key: &[u8]) -> (r: Option<(Vec<u8>, usize)>)
    requires
        pos <= b@.len(),
        key@.len() <= 16,
    ensures
        match r {
            Some((v, next)) => one_line(v@) && line_at(b@, pos as int, key@, v@) && next == pos
                + header_line(key@, v@).len(),
            None => forall|v: Seq<u8>| one_line(v) ==> !#[trigger] line_at(b@, pos as int, key@, v),
        },
{
    let n = b.len();
    if !key_at(b, pos, key) {
        proof {
            assert forall|v: Seq<u8>| one_line(v) implies !#[trigger] line_at(b@, pos as int, key@, v) by {
                let h = header_line(key@, v);
                if line_at(b@, pos as int, key@, v) {
                    assert(b@.subrange(pos as int, pos + key@.len() + 1) =~= h.take(key@.len() as int + 1));
                    assert(h.take(key@.len() as int + 1) =~= key@.push(32u8));
                }
            }
        }
        return None;
    }
    let start = pos + key.len() + 1;
    let nl = match find_byte(b, start, 10u8) {
        Some(nl) => nl,
        None => {
            proof {
                assert forall|v: Seq<u8>| one_line(v) implies !#[trigger] line_at(b@, pos as int, key@, v) by {
                    let h = header_line(key@, v);
                    if line_at(b@, pos as int, key@, v) {
                        assert(b@[pos + h.len() - 1] == h[h.len() - 1]);
                    }
                }
            }
            return None;
        },
    };
    let v = copy_range(b, start, nl);
    proof {
        assert(b@.subrange(pos as int, nl + 1) =~= header_line(key@, v@));
    }
    Some((v, nl + 1))
}

/// Two header lines with the same key at the same place hold the same value.
proof fn lemma_line_unique(b: Seq<u8>, pos: int, key: Seq<u8>, v1: Seq<u8>, v2: Seq<u8>)
    requires
        one_line(key),
        one_line(v1),
        one_line(v2),
        line_at(b, pos, key, v1),
        line_at(b, pos, key, v2),
    ensures
        v1 == v2,
{
    let h1 = header_line(key, v1);
    let h2 = header_line(key, v2);
    if v1.len() < v2.len() {
        let i: int = key.len() as int + 1 + v1.len();
        assert(b[pos + i] == h1[i]);
        assert(b[pos + i] == h2[i]);
        assert(h2[i] == v2[v1.len() as int]);
    } else if v2.len() < v1.len() {
        let i: int = key.len() as int + 1 + v2.len();
        assert(b[pos + i] == h1[i]);
        assert(b[pos + i] == h2[i]);
        assert(h1[i] == v1[v2.len() as int]);
    }
    assert forall|j: int| 0 <= j < v1.len() implies v1[j] == v2[j] by {
        let i = key.len() + 1 + j;
        assert(b[pos + i] == h1[i]);
        assert(b[pos + i] == h2[i]);
    }
    assert(v1 =~= v2);
}

/// Header lines whose keys start differently cannot stand at the same place.
proof fn lemma_line_keys_differ(b: Seq<u8>, pos: int, k1: Seq<u8>, v1: Seq<u8>, k2: Seq<u8>, v2: Seq<u8>)
    requires
        k1.len() > 0,
        k2.len() > 0,
        k1[0] != k2[0],
        line_at(b, pos, k1, v1),
    ensures
        !line_at(b, pos, k2, v2),
{
    assert(b[pos] == header_line(k1, v1)[0]);
    if line_at(b, pos, k2, v2) {
        assert(b[pos] == header_line(k2, v2)[0]);
    }
}

pub open spec fn opt_bytes(p: Option<Vec<u8>>) -> Option<Seq<u8>> {
    match p {
        Some(v) => Some(v@),
        None => None,
    }
}

pub open spec fn parent_len(p: Option<Seq<u8>>) -> int {
    match p {
        Some(x) => header_line(key_parent(), x).len() as int,
        None => 0,
    }
}

/// The header values fit on one line each.
pub open spec fn header_values_ok(t: Seq<u8>, p: Option<Seq<u8>>, a: Seq<u8>, c: Seq<u8>) -> bool {
    &&& one_line(t)
    &&& (p matches Some(x) ==> one_line(x))
    &&& one_line(a)
    &&& one_line(c)
}

/// `b` starts with the header lines of a commit with these values.
pub open spec fn starts_with_headers(
    b: Seq<u8>,
    t: Seq<u8>,
    p: Option<Seq<u8>>,
    a: Seq<u8>,
    c: Seq<u8>,
) -> bool {
    let h = commit_headers(t, p, a, c);
    header_values_ok(t, p, a, c) && h.len() <= b.len() && b.take(h.len() as int) == h
}

/// Where each header line stands in a body that starts with a commit's header lines.
proof fn lemma_header_lines(b: Seq<u8>, t: Seq<u8>, p: Option<Seq<u8>>, a: Seq<u8>, c: Seq<u8>)
    requires
        starts_with_headers(b, t, p, a, c),
    ensures
        line_at(b, 0, key_tree(), t),
        p matches Some(x) ==> line_at(b, header_line(key_tree(), t).len() as int, key_parent(), x),
        line_at(b, header_line(key_tree(), t).len() + parent_len(p), key_author(), a),
        line_at(
            b,
            header_line(key_tree(), t).len() + parent_len(p) + header_line(key_author(), a).len(),
            key_committer(),
            c,
        ),
        commit_headers(t, p, a, c).len() == header_line(key_tree(), t).len() + parent_len(p)
            + header_line(key_author(), a).len() + header_line(key_committer(), c).len(),
{
    let lt = header_line(key_tree(), t);
    let lp = match p {
        Some(x) => header_line(key_parent(), x),
        None => Seq::<u8>::empty(),
    };
    let la = header_line(key_author(), a);
    let lc = header_line(key_committer(), c);
    let h = commit_headers(t, p, a, c);
    assert(h == lt + lp + la + lc);
    assert(lp.len() == parent_len(p));
    let q0 = lt.len() as int;
    let q1 = q0 + lp.len();
    let q2 = q1 + la.len();
    assert(b.subrange(0, q0) =~= h.subrange(0, q0));
    assert(h.subrange(0, q0) =~= lt);
    assert(b.subrange(q0, q1) =~= h.subrange(q0, q1));
    assert(h.subrange(q0, q1) =~= lp);
    assert(b.subrange(q1, q2) =~= h.subrange(q1, q2));
    assert(h.subrange(q1, q2) =~= la);
    assert(b.subrange(q2, q2 + lc.len()) =~= h.subrange(q2, q2 + lc.len()));
    assert(h.subrange(q2, q2 + lc.len()) =~= lc);
}

/// A header value as text without surrounding white space, or `None` where it is not UTF-8.
fn trimmed_text(v: Vec<u8>) -> (r: Option<String>)
    ensures
        r is Some <==> valid_utf8(v@),
        r matches Some(s) ==> is_trimmed(decode_utf8(v@), s@),
{
    match text_of(v) {
        Some(s) => Some(trim(s.as_str()).to_owned()),
        None => None,
    }
}

/// The fields of a commit as read from the raw values `t`, `p`, `a`, `c` and `m` of its body:
/// each header value without surrounding white space, the message as the bytes it is.
pub open spec fn commit_fields(
    commit: Commit,
    t: Seq<u8>,
    p: Option<Seq<u8>>,
    a: Seq<u8>,
    c: Seq<u8>,
    m: Seq<u8>,
) -> bool {
    &&& is_trimmed(decode_utf8(t), commit.tree@)
    &&& match (p, commit.parent) {
        (Some(x), Some(s)) => is_trimmed(decode_utf8(x), s@),
        (None, None) => true,
        _ => false,
    }
    &&& is_trimmed(decode_utf8(a), commit.author@)
    &&& is_trimmed(decode_utf8(c), commit.committer@)
    &&& commit.message@ == m
}

/// A value as a string, or `None` where it is not UTF-8.
fn text_of(v: Vec<u8>) -> (r: Option<String>)
    ensures
        r is Some <==> valid_utf8(v@),
        r matches Some(s) ==> encode_utf8(s@) == v@ && s@ == decode_utf8(v@),
{
    let ghost b = v@;
    let r = crate::text::utf8_string(v);
    proof {
        if valid_utf8(b) {
            decode_utf8_encode_utf8(b);
        }
    }
    r
}

/// The header lines at the start of a commit body: tree, optional parent, author and
/// committer values, and where the header lines end. There is at most one way to read them.
fn read_headers(body: &[u8]) -> (r: Option<(Vec<u8>, Option<Vec<u8>>, Vec<u8>, Vec<u8>, usize)>)
    ensures
        match r {
            Some((t, p, a, c, end)) => {
                &&& starts_with_headers(body@, t@, opt_bytes(p), a@, c@)
                &&& end == commit_headers(t@, opt_bytes(p), a@, c@).len()
                &&& forall|t2: Seq<u8>, q: Option<Seq<u8>>, a2: Seq<u8>, c2: Seq<u8>|
                    #[trigger] starts_with_headers(body@, t2, q, a2, c2) ==> t2 == t@ && q
                        == opt_bytes(p) && a2 == a@ && c2 == c@
            },
            None => forall|t2: Seq<u8>, q: Option<Seq<u8>>, a2: Seq<u8>, c2: Seq<u8>|
                !#[trigger] starts_with_headers(body@, t2, q, a2, c2),
        },
{
    let tree_key = vec![116u8, 114u8, 101u8, 101u8];
    let parent_key = vec![112u8, 97u8, 114u8, 101u8, 110u8, 116u8];
    let author_key = vec![97u8, 117u8, 116u8, 104u8, 111u8, 114u8];
    let committer_key = vec![99u8, 111u8, 109u8, 109u8, 105u8, 116u8, 116u8, 101u8, 114u8];
    assert(tree_key@ == key_tree());
    assert(parent_key@ == key_parent());
    assert(author_key@ == key_author());
    assert(committer_key@ == key_committer());
    assert(one_line(key_tree()) && one_line(key_parent()) && one_line(key_author()) && one_line(
        key_committer(),
    ));
    let t_res = header_at(body, 0, tree_key.as_slice());
    if t_res.is_none() {
        proof {
            assert forall|t2: Seq<u8>, q: Option<Seq<u8>>, a2: Seq<u8>, c2: Seq<u8>|
                !#[trigger] starts_with_headers(body@, t2, q, a2, c2) by {
                if starts_with_headers(body@, t2, q, a2, c2) {
                    lemma_header_lines(body@, t2, q, a2, c2);
                }
            }
        }
        return None;
    }
    let (tree, after_tree) = t_res.unwrap();
    let (parent, after_parent) = match header_at(body, after_tree, parent_key.as_slice()) {
        Some((v, next)) => (Some(v), next),
        None => (None, after_tree),
    };
    let ghost pv = opt_bytes(parent);
    // every reading of the headers agrees with this one on the tree and the parent
    assert forall|t2: Seq<u8>, q: Option<Seq<u8>>, a2: Seq<u8>, c2: Seq<u8>|
        #[trigger] starts_with_headers(body@, t2, q, a2, c2) implies t2 == tree@ && q == pv
            && header_line(key_tree(), t2).len() + parent_len(q) == after_parent by {
        lemma_header_lines(body@, t2, q, a2, c2);
        lemma_line_unique(body@, 0, key_tree(), t2, tree@);
        let at = header_line(key_tree(), t2).len() as int;
        match q {
            Some(x) => {
                if parent is None {
                } else {
                    lemma_line_unique(body@, at, key_parent(), x, pv.unwrap());
                }
            },
            None => {
                if parent is Some {
                    lemma_line_keys_differ(body@, at, key_author(), a2, key_parent(), pv.unwrap());
                }
            },
        }
    }
    let a_res = header_at(body, after_parent, author_key.as_slice());
    if a_res.is_none() {
        proof {
            assert forall|t2: Seq<u8>, q: Option<Seq<u8>>, a2: Seq<u8>, c2: Seq<u8>|
                !#[trigger] starts_with_headers(body@, t2, q, a2, c2) by {
                if starts_with_headers(body@, t2, q, a2, c2) {
                    lemma_header_lines(body@, t2, q, a2, c2);
                }
            }
        }
        return None;
    }
    let (author, after_author) = a_res.unwrap();
    let c_res = header_at(body, after_author, committer_key.as_slice());
    if c_res.is_none() {
        proof {
            assert forall|t2: Seq<u8>, q: Option<Seq<u8>>, a2: Seq<u8>, c2: Seq<u8>|
                !#[trigger] starts_with_headers(body@, t2, q, a2, c2) by {
                if starts_with_headers(body@, t2, q, a2, c2) {
                    lemma_header_lines(body@, t2, q, a2, c2);
                    lemma_line_unique(body@, after_parent as int, key_author(), a2, author@);
                }
            }
        }
        return None;
    }
    let (committer, headers_end) = c_res.unwrap();
    proof {
        assert(body@.take(headers_end as int) =~= body@.subrange(0, after_tree as int) + body@.subrange(
            after_tree as int,
            after_parent as int,
        ) + body@.subrange(after_parent as int, after_author as int) + body@.subrange(after_author as int, headers_end as int));
        if parent is None {
            assert(body@.subrange(after_tree as int, after_parent as int) =~= Seq::<u8>::empty());
        }
        assert(body@.take(headers_end as int) =~= commit_headers(tree@, pv, author@, committer@));
        assert forall|t2: Seq<u8>, q: Option<Seq<u8>>, a2: Seq<u8>, c2: Seq<u8>|
            #[trigger] starts_with_headers(body@, t2, q, a2, c2) implies t2 == tree@ && q
                == pv && a2 == author@ && c2 == committer@ by {
            lemma_header_lines(body@, t2, q, a2, c2);
            lemma_line_unique(body@, after_parent as int, key_author(), a2, author@);
            lemma_line_unique(body@, after_author as int, key_committer(), c2, committer@);
        }
    }
    Some((tree, parent, author, committer, headers_end))
}

/// `b` is the body of a commit with these values: one-line UTF-8 header values, header lines
/// in their order, a blank line and the message, any bytes at all (or, with an empty message,
/// no blank line).
pub open spec fn is_commit(
    b: Seq<u8>,
    t: Seq<u8>,
    p: Option<Seq<u8>>,
    a: Seq<u8>,
    c: Seq<u8>,
    m: Seq<u8>,
) -> bool {
    &&& header_values_ok(t, p, a, c)
    &&& valid_utf8(t) && (p matches Some(x) ==> valid_utf8(x)) && valid_utf8(a) && valid_utf8(c)
    &&& (b == commit_text(t, p, a, c, m) || (m.len() == 0 && b == commit_headers(t, p, a, c)))
}

impl Commit {
    /// Reads a commit body. The `tree`, optional `parent`, `author` and `committer` lines must
    /// come first and in that order; what follows a blank line is the message. Header values
    /// lose their surrounding white space. Fails exactly when the body is no commit.
    pub fn parse(body: &[u8]) -> (r: Result<Commit, GitError>)
        ensures
            r matches Ok(commit) ==> exists|
                t: Seq<u8>,
                p: Option<Seq<u8>>,
                a: Seq<u8>,
                c: Seq<u8>,
                m: Seq<u8>,
            | #[trigger] is_commit(body@, t, p, a, c, m) && commit_fields(commit, t, p, a, c, m),
            r matches Err(e) ==> e == GitError::InvalidCommitFormat && forall|
                t: Seq<u8>,
                p: Option<Seq<u8>>,
                a: Seq<u8>,
                c: Seq<u8>,
                m: Seq<u8>,
            | !#[trigger] is_commit(body@, t, p, a, c, m),
            body@.len() < 5 || body@.take(5) != key_tree().push(32u8) ==> r is Err,
    {
        let n = body.len();
        let (tree, parent, author, committer, headers_end) = match read_headers(body) {
            Some(x) => x,
            None => {
                proof {
                    assert forall|t: Seq<u8>, p: Option<Seq<u8>>, a: Seq<u8>, c: Seq<u8>, m: Seq<u8>|
                        !#[trigger] is_commit(body@, t, p, a, c, m) by {
                        if is_commit(body@, t, p, a, c, m) {
                            lemma_is_commit_headers(body@, t, p, a, c, m);
                        }
                    }
                    lemma_no_tree_line(body@);
                }
                return Err(GitError::InvalidCommitFormat);
            },
        };
        let ghost tb = tree@;
        let ghost pb = opt_bytes(parent);
        let ghost ab = author@;
        let ghost cb = committer@;
        let ghost hb = commit_headers(tb, pb, ab, cb);
        proof {
            assert forall|t: Seq<u8>, p: Option<Seq<u8>>, a: Seq<u8>, c: Seq<u8>, m: Seq<u8>|
                #[trigger] is_commit(body@, t, p, a, c, m) implies t == tb && p == pb && a == ab && c
                    == cb && (body@ == hb.push(10u8) + m || (m.len() == 0 && body@ == hb)) by {
                lemma_is_commit_headers(body@, t, p, a, c, m);
            }
            lemma_headers_start_with_tree(tb, pb, ab, cb);
            assert(body@.take(5) =~= hb.take(5));
        }
        let message_bytes = if headers_end == n {
            Vec::new()
        } else if body[headers_end] == 10u8 {
            copy_range(body, headers_end + 1, n)
        } else {
            proof {
                assert forall|t: Seq<u8>, p: Option<Seq<u8>>, a: Seq<u8>, c: Seq<u8>, m: Seq<u8>|
                    !#[trigger] is_commit(body@, t, p, a, c, m) by {
                    if is_commit(body@, t, p, a, c, m) {
                        if body@ == hb.push(10u8) + m {
                            assert(body@[headers_end as int] == 10u8);
                        }
                    }
                }
            }
            return Err(GitError::InvalidCommitFormat);
        };
        let ghost mb = message_bytes@;
        proof {
            if headers_end == n {
                assert(body@ =~= hb);
                assert(mb =~= Seq::<u8>::empty());
            } else {
                assert(body@ =~= hb.push(10u8) + mb);
            }
            // any reading of the body has these header values and this message
            assert forall|t: Seq<u8>, p: Option<Seq<u8>>, a: Seq<u8>, c: Seq<u8>, m: Seq<u8>|
                #[trigger] is_commit(body@, t, p, a, c, m) implies m == mb by {
                if body@ == hb.push(10u8) + m {
                    assert(m =~= body@.subrange(hb.len() as int + 1, body@.len() as int));
                    if headers_end == n {
                        assert(false);
                    }
                } else {
                    assert(body@ == hb);
                }
            }
        }
        let tree = match trimmed_text(tree) {
            Some(s) => s,
            None => return Err(GitError::InvalidCommitFormat),
        };
        let parent = match parent {
            Some(v) => match trimmed_text(v) {
                Some(s) => Some(s),
                None => return Err(GitError::InvalidCommitFormat),
            },
            None => None,
        };
        let author = match trimmed_text(author) {
            Some(s) => s,
            None => return Err(GitError::InvalidCommitFormat),
        };
        let committer = match trimmed_text(committer) {
            Some(s) => s,
            None => return Err(GitError::InvalidCommitFormat),
        };
        let commit = Commit { tree, parent, author, committer, message: message_bytes };
        proof {
            assert(is_commit(body@, tb, pb, ab, cb, mb));
            assert(commit_fields(commit, tb, pb, ab, cb, mb));
        }
        Ok(commit)
    }
}

/// A commit body starts with its header lines, which are read back the same way.
proof fn lemma_is_commit_headers(
    b: Seq<u8>,
    t: Seq<u8>,
    p: Option<Seq<u8>>,
    a: Seq<u8>,
    c: Seq<u8>,
    m: Seq<u8>,
)
    requires
        is_commit(b, t, p, a, c, m),
    ensures
        starts_with_headers(b, t, p, a, c),
{
    let h = commit_headers(t, p, a, c);
    if b == commit_text(t, p, a, c, m) {
        assert(b.take(h.len() as int) =~= h);
    } else {
        assert(b.take(h.len() as int) =~= h);
    }
}

proof fn lemma_headers_start_with_tree(t: Seq<u8>, p: Option<Seq<u8>>, a: Seq<u8>, c: Seq<u8>)
    ensures
        commit_headers(t, p, a, c).len() >= 5,
        commit_headers(t, p, a, c).take(5) == key_tree().push(32u8),
{
    assert(commit_headers(t, p, a, c).take(5) =~= key_tree().push(32u8));
}

/// A body that does not start with `"tree "` is no commit.
proof fn lemma_no_tree_line(b: Seq<u8>)
    ensures
        (b.len() < 5 || b.take(5) != key_tree().push(32u8)) ==> forall|
            t: Seq<u8>,
            p: Option<Seq<u8>>,
            a: Seq<u8>,
            c: Seq<u8>,
            m: Seq<u8>,
        | !#[trigger] is_commit(b, t, p, a, c, m),
{
    assert forall|t: Seq<u8>, p: Option<Seq<u8>>, a: Seq<u8>, c: Seq<u8>, m: Seq<u8>|
        (b.len() < 5 || b.take(5) != key_tree().push(32u8)) implies !#[trigger] is_commit(
        b,
        t,
        p,
        a,
        c,
        m,
    ) by {
        if is_commit(b, t, p, a, c, m) {
            lemma_is_commit_headers(b, t, p, a, c, m);
            lemma_headers_start_with_tree(t, p, a, c);
            let h = commit_headers(t, p, a, c);
            assert(b.take(5) =~= h.take(5));
        }
    }
}

/// `s` padded on the left with `'0'` to two digits.
pub open spec fn pad2(s: Seq<u8>) -> Seq<u8> {
    if s.len() >= 2 {
        s
    } else {
        seq![48u8] + s
    }
}

/// A time-zone offset in seconds east of UTC as `+HHMM` or `-HHMM`.
pub open spec fn tz_text(offset: int) -> Seq<u8> {
    let a: nat = if offset < 0 {
        (-offset) as nat
    } else {
        offset as nat
    };
    seq![if offset < 0 {
        45u8
    } else {
        43u8
    }] + pad2(dec_digits(a / 3600)) + pad2(dec_digits((a % 3600) / 60))
}

fn push_two_digits(out: &mut Vec<u8>, n: u64)
    ensures
        final(out)@ == old(out)@ + pad2(dec_digits(n as nat)),
{
    if n < 10 {
        out.push(48u8);
        push_decimal(out, n);
        assert(out@ =~= old(out)@ + pad2(dec_digits(n as nat)));
    } else {
        proof {
            lemma_dec_digits_shape(n as nat / 10);
        }
        push_decimal(out, n);
    }
}

/// The time-zone offset `offset_seconds` (east of UTC) as it stands in a commit: `+HHMM`.
pub fn format_tz(offset_seconds: i32) -> (r: String)
    ensures
        r@ == ascii_text(tz_text(offset_seconds as int)),
{
    let a: u64 = if offset_seconds < 0 {
        (-(offset_seconds as i64)) as u64
    } else {
        offset_seconds as u64
    };
    let mut b: Vec<u8> = Vec::new();
    b.push(if offset_seconds < 0 {
        45u8
    } else {
        43u8
    });
    push_two_digits(&mut b, a / 3600);
    push_two_digits(&mut b, (a % 3600) / 60);
    proof {
        assert(b@ =~= tz_text(offset_seconds as int));
        lemma_dec_digits_shape(a as nat / 3600);
        lemma_dec_digits_shape((a as nat % 3600) / 60);
        assert(all_ascii(b@)) by {
            let h = pad2(dec_digits(a as nat / 3600));
            let m = pad2(dec_digits((a as nat % 3600) / 60));
            assert(all_digits(h));
            assert(all_digits(m));
            assert forall|i: int| 0 <= i < b@.len() implies b@[i] < 128 by {
                if i >= 1 && i < 1 + h.len() {
                    assert(b@[i] == h[i - 1]);
                } else if i >= 1 + h.len() {
                    assert(b@[i] == m[i - 1 - h.len()]);
                }
            }
        }
    }
    ascii_string(b)
}

/// The author or committer value: `name <email> epoch tz`.
pub open spec fn identity_text(name: Seq<u8>, email: Seq<u8>, epoch: nat, tz: Seq<u8>) -> Seq<u8> {
    name + seq![32u8, 60u8] + email + seq![62u8, 32u8] + dec_digits(epoch) + seq![32u8] + tz
}

/// The author or committer value of a commit: `name <email> epoch tz`.
pub fn identity(name: &str, email: &str, epoch: u64, tz: &str) -> (r: Vec<u8>)
    ensures
        r@ == identity_text(encode_utf8(name@), encode_utf8(email@), epoch as nat, encode_utf8(tz@)),
{
    let mut r: Vec<u8> = Vec::new();
    push_all(&mut r, name.as_bytes());
    r.push(32u8);
    r.push(60u8);
    push_all(&mut r, email.as_bytes());
    r.push(62u8);
    r.push(32u8);
    push_decimal(&mut r, epoch);
    r.push(32u8);
    push_all(&mut r, tz.as_bytes());
    assert(r@ =~= identity_text(encode_utf8(name@), encode_utf8(email@), epoch as nat, encode_utf8(tz@)));
    r
}

/// Appends the header line `"<key> <value>\n"`.
fn push_header(out: &mut Vec<u8>, key: &[u8], value: &[u8])
    ensures
        final(out)@ == old(out)@ + header_line(key@, value@),
{
    push_all(out, key);
    out.push(32u8);
    push_all(out, value);
    out.push(10u8);
    assert(out@ =~= old(out)@ + header_line(key@, value@));
}

/// The body of a new commit of `tree`, with an optional parent, the author and committer
/// values, and an optional one-line message that gets a final newline.
pub fn commit_body(
    tree: &str,
    parent: Option<&str>,
    author: &[u8],
    committer: &[u8],
    message: Option<&str>,
) -> (r: Vec<u8>)
    ensures
        r@ == commit_text(
            encode_utf8(tree@),
            match parent {
                Some(p) => Some(encode_utf8(p@)),
                None => None,
            },
            author@,
            committer@,
            match message {
                Some(m) => encode_utf8(m@).push(10u8),
                None => Seq::<u8>::empty(),
            },
        ),
{
    let tree_key = vec![116u8, 114u8, 101u8, 101u8];
    let parent_key = vec![112u8, 97u8, 114u8, 101u8, 110u8, 116u8];
    let author_key = vec![97u8, 117u8, 116u8, 104u8, 111u8, 114u8];
    let committer_key = vec![99u8, 111u8, 109u8, 109u8, 105u8, 116u8, 116u8, 101u8, 114u8];
    let mut r: Vec<u8> = Vec::new();
    push_header(&mut r, tree_key.as_slice(), tree.as_bytes());
    let ghost after_tree = r@;
    match parent {
        Some(p) => push_header(&mut r, parent_key.as_slice(), p.as_bytes()),
        None => {},
    }
    let ghost after_parent = r@;
    push_header(&mut r, author_key.as_slice(), author);
    push_header(&mut r, committer_key.as_slice(), committer);
    r.push(10u8);
    let ghost after_blank = r@;
    match message {
        Some(m) => {
            push_all(&mut r, m.as_bytes());
            r.push(10u8);
        },
        None => {},
    }
    proof {
        let pb = match parent {
            Some(p) => Some(encode_utf8(p@)),
            None => None,
        };
        let mb = match message {
            Some(m) => encode_utf8(m@).push(10u8),
            None => Seq::<u8>::empty(),
        };
        assert(after_parent =~= header_line(key_tree(), encode_utf8(tree@)) + match pb {
            Some(p) => header_line(key_parent(), p),
            None => Seq::<u8>::empty(),
        });
        assert(after_blank =~= commit_headers(encode_utf8(tree@), pb, author@, committer@).push(10u8));
        assert(r@ =~= after_blank + mb);
    }
    r
}

} // verus!
