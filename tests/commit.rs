use rust_git::commit::{commit_body, format_tz, identity, Commit};
use rust_git::error::GitError;

const TREE: &str = "4b825dc642cb6eb9a060e54bf8d69288fbee4904";
const PARENT: &str = "c1b0730e0133447badcfd47fd144e254807b06e1";

#[test]
fn tz_offsets() {
    assert_eq!(format_tz(0), "+0000");
    assert_eq!(format_tz(3600), "+0100");
    assert_eq!(format_tz(-18000), "-0500");
    assert_eq!(format_tz(19800), "+0530");
    assert_eq!(format_tz(-34200), "-0930");
}

#[test]
fn identity_line() {
    let id = identity("A U Thor", "a@example.com", 1700000000, "+0100");
    assert_eq!(id, b"A U Thor <a@example.com> 1700000000 +0100".to_vec());
}

#[test]
fn commit_body_layout() {
    let author = identity("A", "a@x", 1, "+0000");
    let body = commit_body(TREE, Some(PARENT), &author, &author, Some("first"));
    let expected = format!(
        "tree {TREE}\nparent {PARENT}\nauthor A <a@x> 1 +0000\ncommitter A <a@x> 1 +0000\n\nfirst\n"
    );
    assert_eq!(body, expected.into_bytes());
}

#[test]
fn commit_round_trip() {
    let author = identity("A", "a@x", 1, "+0000");
    let committer = identity("C", "c@x", 2, "-0100");
    let body = commit_body(TREE, Some(PARENT), &author, &committer, Some("msg"));
    let c = Commit::parse(&body).unwrap();
    assert_eq!(c.tree, TREE);
    assert_eq!(c.parent, Some(PARENT.to_string()));
    assert_eq!(c.author, "A <a@x> 1 +0000");
    assert_eq!(c.committer, "C <c@x> 2 -0100");
    assert_eq!(c.message, b"msg\n".to_vec());
}

#[test]
fn commit_without_parent_or_message() {
    let author = identity("A", "a@x", 1, "+0000");
    let body = commit_body(TREE, None, &author, &author, None);
    let c = Commit::parse(&body).unwrap();
    assert_eq!(c.tree, TREE);
    assert_eq!(c.parent, None);
    assert!(c.message.is_empty());
}

#[test]
fn parent_before_tree_is_invalid() {
    let body = format!(
        "parent {PARENT}\ntree {TREE}\nauthor A <a@x> 1 +0000\ncommitter A <a@x> 1 +0000\n\nm\n"
    );
    assert!(matches!(Commit::parse(body.as_bytes()), Err(GitError::InvalidCommitFormat)));
}

#[test]
fn committer_before_author_is_invalid() {
    let body = format!("tree {TREE}\ncommitter A <a@x> 1 +0000\nauthor A <a@x> 1 +0000\n\nm\n");
    assert!(matches!(Commit::parse(body.as_bytes()), Err(GitError::InvalidCommitFormat)));
}

#[test]
fn missing_blank_line_is_invalid() {
    let body = format!("tree {TREE}\nauthor A <a@x> 1 +0000\ncommitter A <a@x> 1 +0000\nm\n");
    assert!(matches!(Commit::parse(body.as_bytes()), Err(GitError::InvalidCommitFormat)));
}

#[test]
fn header_values_lose_surrounding_white_space() {
    let body = format!("tree {TREE}\r\nauthor  A <a@x> 1 +0000 \ncommitter A <a@x> 1 +0000\n\n msg \n");
    let c = Commit::parse(body.as_bytes()).unwrap();
    assert_eq!(c.tree, TREE);
    assert_eq!(c.author, "A <a@x> 1 +0000");
    assert_eq!(c.message, b" msg \n".to_vec());
}

#[test]
fn message_need_not_be_utf8() {
    let mut body = format!("tree {TREE}\nauthor A <a@x> 1 +0000\ncommitter A <a@x> 1 +0000\n\nx").into_bytes();
    body.push(0xff);
    let c = Commit::parse(&body).unwrap();
    assert_eq!(c.tree, TREE);
    assert_eq!(c.parent, None);
    assert_eq!(c.message, vec![b'x', 0xff]);
    let mut with_parent =
        format!("tree {TREE}\nparent {PARENT}\nauthor A <a@x> 1 +0000\ncommitter A <a@x> 1 +0000\n\n").into_bytes();
    with_parent.push(0xff);
    let c = Commit::parse(&with_parent).unwrap();
    assert_eq!(c.parent, Some(PARENT.to_string()));
    assert_eq!(c.message, vec![0xff]);
}
