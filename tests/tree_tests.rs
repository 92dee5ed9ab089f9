use minigit::commit::{commit_payload, commit_tree, obtener_timestamp};
use minigit::error::Error;
use minigit::object::{decode_loose, encode_loose, hash_object, Kind};
use minigit::tree::{parse_mode, parse_tree, plan_checkout, tipo_modo, Action, EntryMode};

fn entry(mode: &str, name: &str, id: [u8; 20]) -> Vec<u8> {
    let mut out = format!("{} {}\0", mode, name).into_bytes();
    out.extend_from_slice(&id);
    out
}

#[test]
fn executable_entry_plans_executable_file() {
    let id = hash_object(Kind::Blob, b"#!/bin/sh\n").bytes;
    let tree = entry("100755", "run.sh", id);
    let steps = plan_checkout(&tree, b"").unwrap();
    assert_eq!(steps.len(), 1);
    assert_eq!(steps[0].action, Action::WriteExecutable);
    assert_eq!(steps[0].path, b"run.sh".to_vec());
    assert_eq!(steps[0].id.bytes, id);
}

#[test]
fn symlink_entry_plans_link_to_blob_content() {
    let blob = encode_loose(Kind::Blob, b"target.txt");
    let id = hash_object(Kind::Blob, b"target.txt").bytes;
    let tree = entry("120000", "link", id);
    let steps = plan_checkout(&tree, b"").unwrap();
    assert_eq!(steps[0].action, Action::Link);
    assert_eq!(steps[0].path, b"link".to_vec());
    let target = decode_loose(&blob).unwrap();
    assert_eq!(target.payload, b"target.txt".to_vec());
}

#[test]
fn nested_entries_are_joined_under_prefix() {
    let mut tree = entry("100644", "a.txt", [1; 20]);
    tree.extend(entry("40000", "sub", [2; 20]));
    tree.extend(entry("160000", "mod", [3; 20]));
    let steps = plan_checkout(&tree, b"dir/x").unwrap();
    assert_eq!(steps.len(), 3);
    assert_eq!(steps[0].action, Action::WriteFile);
    assert_eq!(steps[0].path, b"dir/x/a.txt".to_vec());
    assert_eq!(steps[1].action, Action::MakeDir);
    assert_eq!(steps[1].path, b"dir/x/sub".to_vec());
    assert_eq!(steps[1].id.bytes, [2; 20]);
    assert_eq!(steps[2].action, Action::Skip);
}

#[test]
fn parse_tree_keeps_stored_order() {
    let mut tree = entry("100644", "b", [1; 20]);
    tree.extend(entry("100644", "a", [2; 20]));
    let es = parse_tree(&tree).unwrap();
    assert_eq!(es[0].name, b"b".to_vec());
    assert_eq!(es[1].name, b"a".to_vec());
    assert_eq!(es[1].mode, EntryMode::RegularFile);
}

#[test]
fn empty_tree_has_no_entries() {
    assert_eq!(parse_tree(b"").unwrap().len(), 0);
}

#[test]
fn tree_with_cut_id_is_unexpected_eof() {
    let tree = entry("100644", "a", [1; 20]);
    assert_eq!(parse_tree(&tree[..tree.len() - 1]).err(), Some(Error::UnexpectedEof));
}

#[test]
fn tree_with_bad_entries_is_corrupt() {
    assert_eq!(parse_tree(b"100644 a").err(), Some(Error::CorruptTree));
    assert_eq!(parse_tree(&entry("777", "a", [1; 20])).err(), Some(Error::CorruptTree));
    assert_eq!(parse_tree(&entry("100644", "..", [1; 20])).err(), Some(Error::CorruptTree));
    assert_eq!(parse_tree(&entry("100644", "a/b", [1; 20])).err(), Some(Error::CorruptTree));
    let mut no_space = b"100644a\0".to_vec();
    no_space.extend_from_slice(&[1; 20]);
    assert_eq!(parse_tree(&no_space).err(), Some(Error::CorruptTree));
}

#[test]
fn modes_parse() {
    assert_eq!(parse_mode(b"100644"), Some(EntryMode::RegularFile));
    assert_eq!(parse_mode(b"100664"), Some(EntryMode::RegularFile));
    assert_eq!(parse_mode(b"100755"), Some(EntryMode::ExecutableFile));
    assert_eq!(parse_mode(b"40000"), Some(EntryMode::Directory));
    assert_eq!(parse_mode(b"040000"), Some(EntryMode::Directory));
    assert_eq!(parse_mode(b"120000"), Some(EntryMode::Symlink));
    assert_eq!(parse_mode(b"160000"), Some(EntryMode::Submodule));
    assert_eq!(parse_mode(b"644"), None);
}

#[test]
fn mode_labels() {
    assert_eq!(tipo_modo(b"100644"), "blob");
    assert_eq!(tipo_modo(b"100755"), "blob ejecutable");
    assert_eq!(tipo_modo(b"120000"), "symlink");
    assert_eq!(tipo_modo(b"040000"), "tree");
    assert_eq!(tipo_modo(b"160000"), "submodulo");
    assert_eq!(tipo_modo(b"40000"), "desconocido");
}

#[test]
fn commit_tree_reads_tree_line() {
    let payload = b"tree 4b825dc642cb6eb9a060e54bf8d69288fbee4904\nauthor A <a@b> 1 +0000\n\nmsg\n";
    let id = commit_tree(payload).unwrap();
    assert_eq!(id.to_hex(), "4b825dc642cb6eb9a060e54bf8d69288fbee4904");
}

#[test]
fn commit_tree_accepts_upper_case_digits_and_later_lines() {
    let payload = b"x\ntree 4B825DC642CB6EB9A060E54BF8D69288FBEE4904";
    assert_eq!(commit_tree(payload).unwrap().to_hex(), "4b825dc642cb6eb9a060e54bf8d69288fbee4904");
}

#[test]
fn commit_without_tree_is_corrupt() {
    assert_eq!(commit_tree(b"parent abc\n\nmsg\n").err(), Some(Error::CorruptCommit));
    assert_eq!(commit_tree(b"tree 4b82\n").err(), Some(Error::CorruptCommit));
    assert_eq!(commit_tree(b"tree zz825dc642cb6eb9a060e54bf8d69288fbee4904\n").err(), Some(Error::CorruptCommit));
}

#[test]
fn timestamp_is_seconds_and_utc() {
    assert_eq!(obtener_timestamp(1700000000), b"1700000000 +0000".to_vec());
    assert_eq!(obtener_timestamp(0), b"0 +0000".to_vec());
}

#[test]
fn commit_payload_lines() {
    let p = commit_payload(b"aaaa", Some(b"bbbb"), b"A <a@x>", b"5 +0000", b"hi");
    assert_eq!(
        p,
        b"tree aaaa\nparent bbbb\nauthor A <a@x> 5 +0000\ncommitter A <a@x> 5 +0000\n\nhi\n".to_vec()
    );
    let p = commit_payload(b"aaaa", None, b"A", b"5 +0000", b"");
    assert_eq!(p, b"tree aaaa\nauthor A 5 +0000\ncommitter A 5 +0000\n\n\n".to_vec());
}
