use rust_git::codec::{encode_object, ObjectKind};
use rust_git::error::GitError;
use rust_git::listing::{
    create_file_name, entry_action, format_tree_row, tree_target, EntryAction, LsTreeAction, LsTreeEvent,
    LsTreeState, TreeTarget,
};
use rust_git::store::GitObject;
use rust_git::tag::{trim, Tag};
use rust_git::tree::TreeEntry;
use rust_git::tree::build_tree;

const TREE: &str = "4b825dc642cb6eb9a060e54bf8d69288fbee4904";
const BLOB_X: &str = "c1b0730e0133447badcfd47fd144e254807b06e1";

fn stored(kind: ObjectKind, body: &[u8]) -> GitObject {
    let e = encode_object(kind, body);
    GitObject::from_stored(e.hash, &e.compressed).unwrap()
}

#[test]
fn rows_pad_mode_and_size() {
    assert_eq!(
        format_tree_row("100644", ObjectKind::Blob, BLOB_X, Some(1), "a.txt"),
        format!("100644 blob {BLOB_X}       1\ta.txt")
    );
    assert_eq!(
        format_tree_row("40000", ObjectKind::Tree, TREE, Some(0), "sub"),
        format!("040000 tree {TREE}       -\tsub")
    );
    assert_eq!(
        format_tree_row("40000", ObjectKind::Tree, TREE, None, "sub"),
        format!("040000 tree {TREE}\tsub")
    );
}

#[test]
fn file_names_join_with_slash() {
    assert_eq!(create_file_name(&None, "a".to_string()), "a");
    assert_eq!(create_file_name(&Some("src/x".to_string()), "a".to_string()), "src/x/a");
}

#[test]
fn blob_has_no_listing() {
    let obj = stored(ObjectKind::Blob, b"x");
    assert!(matches!(
        tree_target("587b", &obj),
        Err(GitError::InvalidObjectId { obj_id }) if obj_id == "587b"
    ));
}

#[test]
fn commit_lists_its_tree() {
    let body = format!("tree {TREE}\nauthor A <a@x> 1 +0000\ncommitter A <a@x> 1 +0000\n\nm\n");
    let obj = stored(ObjectKind::Commit, body.as_bytes());
    match tree_target("c0ffee", &obj).unwrap() {
        TreeTarget::Follow(t) => assert_eq!(t, TREE),
        TreeTarget::Entries(_) => panic!("a commit lists its tree"),
    }
}

#[test]
fn tree_lists_its_entries() {
    let body = build_tree(Vec::new()).unwrap();
    let obj = stored(ObjectKind::Tree, &body);
    match tree_target(TREE, &obj).unwrap() {
        TreeTarget::Entries(es) => assert!(es.is_empty()),
        TreeTarget::Follow(_) => panic!("a tree lists itself"),
    }
}

#[test]
fn tag_content_is_trimmed() {
    let tag = Tag::from_file("v1", format!("  {BLOB_X}\n").as_bytes()).unwrap();
    assert_eq!(tag.name, "v1");
    assert_eq!(tag.obj_id, BLOB_X);
    assert_eq!(trim(" \t\r\n"), "");
    assert_eq!(trim("a b"), "a b");
    assert_eq!(trim("\u{3000}x\u{85}"), "x");
    assert!(Tag::from_file("bad", &[0xff, 0xfe]).is_none());
    let nbsp = Tag::from_file("v2", format!("{BLOB_X}\u{A0}\n").as_bytes()).unwrap();
    assert_eq!(nbsp.obj_id, BLOB_X);
}

#[test]
fn listing_follows_a_commit_to_its_tree() {
    let body = format!("tree {TREE}\nauthor A <a@x> 1 +0000\ncommitter A <a@x> 1 +0000\n\nm\n");
    let (state, action) = LsTreeState::new("c0ffee").step(LsTreeEvent::Read(stored(ObjectKind::Commit, body.as_bytes())));
    assert!(matches!(action, LsTreeAction::ReadObject));
    assert_eq!(state.current, TREE);
    let tree = stored(ObjectKind::Tree, &build_tree(Vec::<TreeEntry>::new()).unwrap());
    let (_, action) = state.step(LsTreeEvent::Read(tree));
    assert!(matches!(action, LsTreeAction::List(es) if es.is_empty()));
}

#[test]
fn listing_tries_a_tag_once() {
    let (state, action) = LsTreeState::new("v1").step(LsTreeEvent::ReadFailed(GitError::InvalidObjectId { obj_id: "v1".to_string() }));
    assert!(matches!(action, LsTreeAction::LookupTag));
    let tag = Tag::from_file("v1", TREE.as_bytes());
    let (state, action) = state.step(LsTreeEvent::Tag(tag));
    assert!(matches!(action, LsTreeAction::ReadObject));
    assert_eq!(state.current, TREE);
    assert!(state.tried_tag);
    let (_, action) = state.step(LsTreeEvent::ReadFailed(GitError::DecodeError));
    assert!(matches!(action, LsTreeAction::Fail(GitError::DecodeError)));
}

#[test]
fn listing_fails_without_object_or_tag() {
    let (state, _) = LsTreeState::new("nope").step(LsTreeEvent::ReadFailed(GitError::InvalidObjectId { obj_id: "nope".to_string() }));
    let (_, action) = state.step(LsTreeEvent::Tag(None));
    assert!(matches!(action, LsTreeAction::Fail(GitError::InvalidObjectId { obj_id }) if obj_id == "nope"));
    let (_, action) = LsTreeState::new("x").step(LsTreeEvent::Read(stored(ObjectKind::Blob, b"x")));
    assert!(matches!(action, LsTreeAction::Fail(GitError::InvalidObjectId { obj_id }) if obj_id == "x"));
}

#[test]
fn entry_actions() {
    assert_eq!(entry_action(ObjectKind::Tree, true, false), EntryAction::Recurse);
    assert_eq!(entry_action(ObjectKind::Tree, true, true), EntryAction::Recurse);
    assert_eq!(entry_action(ObjectKind::Tree, false, true), EntryAction::PrintName);
    assert_eq!(entry_action(ObjectKind::Blob, true, false), EntryAction::PrintRow);
}

#[test]
fn commit_with_binary_message_lists_its_tree() {
    let mut body = format!("tree {TREE}\nauthor A <a@x> 1 +0000\ncommitter A <a@x> 1 +0000\n\n").into_bytes();
    body.push(0xff);
    let obj = stored(ObjectKind::Commit, &body);
    match tree_target("c0ffee", &obj).unwrap() {
        TreeTarget::Follow(t) => assert_eq!(t, TREE),
        TreeTarget::Entries(_) => panic!("a commit lists its tree"),
    }
}
