//! Listing trees: what an object lists, and the text of each listed row.
use vstd::prelude::*;
use vstd::string::*;
use crate::codec::{kind_name, ObjectKind};
use crate::commit::{is_commit, Commit};
use crate::tag::{is_trimmed, Tag};
use vstd::utf8::decode_utf8;
use crate::error::GitError;
use crate::store::GitObject;
use crate::text::{all_ascii, all_digits, ascii_string, ascii_text, dec_digits, lemma_dec_digits_shape, push_decimal};
use crate::tree::{all_wf, parse_tree, tree_body, TreeEntry};

verus! {

/// What listing an object shows.
pub enum TreeTarget {
    /// The object is a tree with these entries.
    Entries(Vec<TreeEntry>),
    /// The object is a commit; its tree, with this id, is listed instead.
    Follow(String),
}

/// `r` is what the object `obj`, read for the id `requested`, lists: a tree its entries, a
/// commit the tree its `tree` line names, and a blob nothing.
pub open spec fn target_of(requested: Seq<char>, obj: GitObject, r: Result<TreeTarget, GitError>) -> bool {
    &&& obj.kind == ObjectKind::Blob ==> (r matches Err(GitError::InvalidObjectId { obj_id: o })
        && o@ == requested)
    &&& obj.kind == ObjectKind::Tree ==> match r {
        Ok(TreeTarget::Entries(es)) => tree_body(es@) == obj.body@ && all_wf(es@),
        Err(e) => e == GitError::DecodeError && forall|es: Seq<TreeEntry>|
            all_wf(es) ==> tree_body(es) != obj.body@,
        _ => false,
    }
    &&& obj.kind == ObjectKind::Commit ==> match r {
        Ok(TreeTarget::Follow(t)) => exists|
            tr: Seq<u8>,
            p: Option<Seq<u8>>,
            a: Seq<u8>,
            c: Seq<u8>,
            m: Seq<u8>,
        | #[trigger] is_commit(obj.body@, tr, p, a, c, m) && is_trimmed(decode_utf8(tr), t@),
        Err(e) => e == GitError::InvalidCommitFormat && forall|
            t: Seq<u8>,
            p: Option<Seq<u8>>,
            a: Seq<u8>,
            c: Seq<u8>,
            m: Seq<u8>,
        | !#[trigger] is_commit(obj.body@, t, p, a, c, m),
        _ => false,
    }
}

/// Decides what listing the object `obj`, read for the id `requested`, shows: a tree lists its
/// entries, a commit the tree its `tree` line names, and a blob nothing.
pub fn tree_target(requested: &str, obj: &GitObject) -> (r: Result<TreeTarget, GitError>)
    ensures
        target_of(requested@, *obj, r),
{
    match obj.kind {
        ObjectKind::Tree => match parse_tree(obj.body.as_slice()) {
            Ok(es) => Ok(TreeTarget::Entries(es)),
            Err(e) => Err(e),
        },
        ObjectKind::Commit => match Commit::parse(obj.body.as_slice()) {
            Ok(c) => Ok(TreeTarget::Follow(c.tree)),
            Err(e) => Err(e),
        },
        ObjectKind::Blob => Err(GitError::InvalidObjectId { obj_id: requested.to_owned() }),
    }
}

/// Where listing a tree-ish stands: the id asked for, the id to read next, and whether the
/// id was already taken for a tag.
pub struct LsTreeState {
    pub requested: String,
    pub current: String,
    pub tried_tag: bool,
}

/// What came of the last action.
pub enum LsTreeEvent {
    /// The current id was read.
    Read(GitObject),
    /// The current id could not be read.
    ReadFailed(GitError),
    /// The tag named by the current id, if there is one.
    Tag(Option<Tag>),
}

/// What to do next.
pub enum LsTreeAction {
    /// Read the object of the current id.
    ReadObject,
    /// Look up the tag named by the current id.
    LookupTag,
    /// List these entries.
    List(Vec<TreeEntry>),
    /// Stop with this error.
    Fail(GitError),
}

impl LsTreeState {
    /// Listing `tree_ish` starts by reading it.
    pub fn new(tree_ish: &str) -> (r: LsTreeState)
        ensures
            r.requested@ == tree_ish@,
            r.current@ == tree_ish@,
            !r.tried_tag,
    {
        LsTreeState { requested: tree_ish.to_owned(), current: tree_ish.to_owned(), tried_tag: false }
    }

    /// The next state and action after `event`. A tree is listed, a commit leads to its tree,
    /// and an id that cannot be read is tried once as a tag name.
    pub fn step(self, event: LsTreeEvent) -> (r: (LsTreeState, LsTreeAction))
        ensures
            r.0.requested@ == self.requested@,
            match event {
                LsTreeEvent::Read(obj) => exists|t: Result<TreeTarget, GitError>|
                    #[trigger] target_of(self.requested@, obj, t) && match t {
                        Ok(TreeTarget::Entries(es)) => r.1 == LsTreeAction::List(es),
                        Ok(TreeTarget::Follow(id)) => r.1 is ReadObject && r.0.current@ == id@
                            && r.0.tried_tag == self.tried_tag,
                        Err(e) => r.1 == LsTreeAction::Fail(e),
                    },
                LsTreeEvent::ReadFailed(e) => if self.tried_tag {
                    r.1 == LsTreeAction::Fail(e)
                } else {
                    r.1 is LookupTag && r.0.current@ == self.current@ && !r.0.tried_tag
                },
                LsTreeEvent::Tag(Some(tag)) => r.1 is ReadObject && r.0.current@ == tag.obj_id@
                    && r.0.tried_tag,
                LsTreeEvent::Tag(None) => r.1 matches LsTreeAction::Fail(
                    GitError::InvalidObjectId { obj_id: o },
                ) && o@ == self.current@,
            },
    {
        let LsTreeState { requested, current, tried_tag } = self;
        match event {
            LsTreeEvent::Read(obj) => {
                let t = tree_target(requested.as_str(), &obj);
                match t {
                    Ok(TreeTarget::Entries(es)) => (
                        LsTreeState { requested, current, tried_tag },
                        LsTreeAction::List(es),
                    ),
                    Ok(TreeTarget::Follow(id)) => (
                        LsTreeState { requested, current: id, tried_tag },
                        LsTreeAction::ReadObject,
                    ),
                    Err(e) => (LsTreeState { requested, current, tried_tag }, LsTreeAction::Fail(e)),
                }
            },
            LsTreeEvent::ReadFailed(e) => {
                if tried_tag {
                    (LsTreeState { requested, current, tried_tag }, LsTreeAction::Fail(e))
                } else {
                    (LsTreeState { requested, current, tried_tag }, LsTreeAction::LookupTag)
                }
            },
            LsTreeEvent::Tag(Some(tag)) => (
                LsTreeState { requested, current: tag.obj_id, tried_tag: true },
                LsTreeAction::ReadObject,
            ),
            LsTreeEvent::Tag(None) => {
                let e = GitError::InvalidObjectId { obj_id: current.clone() };
                (LsTreeState { requested, current, tried_tag }, LsTreeAction::Fail(e))
            },
        }
    }
}

/// What listing does with one entry of a tree.
#[derive(Debug, Clone, Copy, PartialEq, Eq, Structural)]
pub enum EntryAction {
    /// List the subtree under the entry's path.
    Recurse,
    /// Print the path alone.
    PrintName,
    /// Print the full row.
    PrintRow,
}

/// A subtree is listed in place when listing recursively; otherwise an entry prints its path
/// alone or its full row.
pub fn entry_action(kind: ObjectKind, recurse: bool, name_only: bool) -> (r: EntryAction)
    ensures
        r == if kind == ObjectKind::Tree && recurse {
            EntryAction::Recurse
        } else if name_only {
            EntryAction::PrintName
        } else {
            EntryAction::PrintRow
        },
{
    if kind == ObjectKind::Tree && recurse {
        EntryAction::Recurse
    } else if name_only {
        EntryAction::PrintName
    } else {
        EntryAction::PrintRow
    }
}

/// `s` padded on the left with `c` to width `w`.
pub open spec fn pad_left(s: Seq<char>, w: nat, c: char) -> Seq<char> {
    if s.len() >= w {
        s
    } else {
        Seq::new((w - s.len()) as nat, |i: int| c) + s
    }
}

/// The size column of a row: `-` for a tree, the byte count otherwise.
pub open spec fn size_text(kind: ObjectKind, size: nat) -> Seq<char> {
    if kind == ObjectKind::Tree {
        seq!['-']
    } else {
        ascii_text(dec_digits(size))
    }
}

/// The text of a listed row: `mode kind hash`, the size column when asked for, a tab, and the
/// path.
pub open spec fn row_text(
    mode: Seq<char>,
    kind: ObjectKind,
    hash: Seq<char>,
    size: Option<nat>,
    path: Seq<char>,
) -> Seq<char> {
    pad_left(mode, 6, '0') + seq![' '] + ascii_text(kind_name(kind)) + seq![' '] + hash + match size {
        Some(n) => pad_left(size_text(kind, n), 8, ' '),
        None => Seq::<char>::empty(),
    } + seq!['\t'] + path
}

/// `s` padded on the left with the one-character `c` to width `w`.
fn padded(s: &str, w: usize, c: &str) -> (r: String)
    requires
        c@.len() == 1,
    ensures
        r@ == pad_left(s@, w as nat, c@[0]),
{
    let n = s.unicode_len();
    let mut r = String::new();
    let mut i: usize = n;
    while i < w
        invariant
            n == s@.len(),
            n <= i,
            i <= w || i == n,
            c@.len() == 1,
            r@ == Seq::new((i - n) as nat, |j: int| c@[0]),
        decreases w - i,
    {
        r.append(c);
        assert(r@ =~= Seq::new((i + 1 - n) as nat, |j: int| c@[0]));
        i = i + 1;
    }
    let ghost fill = r@;
    r.append(s);
    assert(r@ == fill + s@);
    assert(r@ =~= pad_left(s@, w as nat, c@[0]));
    r
}

/// The text of one listed row; `size` is given when the size column is shown.
pub fn format_tree_row(
    mode: &str,
    kind: ObjectKind,
    hash: &str,
    size: Option<usize>,
    path: &str,
) -> (r: String)
    ensures
        r@ == row_text(
            mode@,
            kind,
            hash@,
            match size {
                Some(n) => Some(n as nat),
                None => None,
            },
            path@,
        ),
{
    proof {
        reveal_strlit("0");
        reveal_strlit(" ");
        reveal_strlit("-");
        reveal_strlit("\t");
    }
    let mut r = padded(mode, 6, "0");
    r.append(" ");
    r.append(kind.name());
    r.append(" ");
    r.append(hash);
    match size {
        Some(n) => {
            let col = if kind == ObjectKind::Tree {
                String::from_str("-")
            } else {
                let mut digits: Vec<u8> = Vec::new();
                push_decimal(&mut digits, n as u64);
                proof {
                    lemma_dec_digits_shape(n as nat);
                    assert(all_ascii(digits@)) by {
                        assert forall|i: int| 0 <= i < digits@.len() implies digits@[i] < 128 by {
                            assert(all_digits(dec_digits(n as nat)));
                            assert(digits@[i] == dec_digits(n as nat)[i]);
                        }
                    }
                }
                ascii_string(digits)
            };
            assert(col@ =~= size_text(kind, n as nat));
            let p = padded(col.as_str(), 8, " ");
            r.append(p.as_str());
        },
        None => {},
    }
    r.append("\t");
    r.append(path);
    r
}

/// The path of an entry named `filename` under the directory `path`, if any.
pub fn create_file_name(path: &Option<String>, filename: String) -> (r: String)
    ensures
        r@ == match path {
            Some(p) => p@ + seq!['/'] + filename@,
            None => filename@,
        },
{
    proof {
        reveal_strlit("/");
    }
    match path {
        Some(p) => {
            let mut r = p.clone();
            r.append("/");
            r.append(filename.as_str());
            r
        },
        None => filename,
    }
}

} // verus!
