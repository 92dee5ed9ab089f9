use minigit::protocol::{choose_branch, head_target, parse_ref_advertisement, want_request};
use minigit::tree::{parse_tree, sort_entries, tree_payload, EntryMode, TreeEntry};
use minigit::object::{hash_object, Kind, ObjectId};

const MAIN_ID: &str = "1111111111111111111111111111111111111111";
const DEV_ID: &str = "2222222222222222222222222222222222222222";

fn advertisement() -> String {
    format!(
        "001e# service=git-upload-pack\n0000015b{} HEAD\0multi_ack side-band-64k\n003f{} refs/heads/dev\n003f{} refs/heads/main\n0041{} refs/tags/v1\n0000",
        MAIN_ID, DEV_ID, MAIN_ID, MAIN_ID
    )
}

#[test]
fn advertisement_lists_branches_in_order() {
    let refs = parse_ref_advertisement(advertisement().as_bytes());
    assert_eq!(refs.len(), 2);
    assert_eq!(refs[0].name, b"refs/heads/dev".to_vec());
    assert_eq!(refs[0].hex, DEV_ID.as_bytes().to_vec());
    assert_eq!(refs[0].id.to_hex(), DEV_ID);
    assert_eq!(refs[1].name, b"refs/heads/main".to_vec());
}

#[test]
fn capabilities_after_nul_are_dropped() {
    let text = format!("first\n0050{} refs/heads/topic\0caps here\n", DEV_ID);
    let refs = parse_ref_advertisement(text.as_bytes());
    assert_eq!(refs.len(), 1);
    assert_eq!(refs[0].name, b"refs/heads/topic".to_vec());
}

#[test]
fn main_is_preferred_over_first_branch() {
    let refs = parse_ref_advertisement(advertisement().as_bytes());
    assert_eq!(choose_branch(&refs), Some(1));
}

#[test]
fn first_branch_when_no_main_or_master() {
    let text = format!("x\n003f{} refs/heads/dev\n0040{} refs/heads/work\n", DEV_ID, MAIN_ID);
    let refs = parse_ref_advertisement(text.as_bytes());
    assert_eq!(choose_branch(&refs), Some(0));
}

#[test]
fn no_branch_without_refs() {
    let refs = parse_ref_advertisement(b"001e# service=git-upload-pack\n0000");
    assert_eq!(refs.len(), 0);
    assert_eq!(choose_branch(&refs), None);
}

#[test]
fn want_request_body_is_exact() {
    assert_eq!(
        want_request(MAIN_ID.as_bytes()),
        Some(format!("0032want {}\n00000009done\n", MAIN_ID).into_bytes())
    );
    assert_eq!(want_request(b"1234"), None);
    assert_eq!(want_request(&[b'g'; 40]), None);
}

#[test]
fn head_target_follows_symbolic_ref() {
    assert_eq!(head_target(b"ref: refs/heads/main\n"), Some(b"refs/heads/main".to_vec()));
    assert_eq!(head_target(b"ref:   refs/heads/x \r\n"), Some(b"refs/heads/x".to_vec()));
    assert_eq!(head_target(format!("{}\n", MAIN_ID).as_bytes()), None);
}

#[test]
fn entries_sort_by_raw_name_bytes() {
    let id = hash_object(Kind::Blob, b"x");
    let mk = |n: &str| TreeEntry { mode: EntryMode::RegularFile, name: n.as_bytes().to_vec(), id };
    let sorted = sort_entries(vec![mk("b"), mk("a.txt"), mk("a"), mk("B"), mk("ab")]);
    let names: Vec<Vec<u8>> = sorted.iter().map(|e| e.name.clone()).collect();
    assert_eq!(names, vec![b"B".to_vec(), b"a".to_vec(), b"a.txt".to_vec(), b"ab".to_vec(), b"b".to_vec()]);
}

#[test]
fn tree_payload_parses_back() {
    let blob = hash_object(Kind::Blob, b"x");
    let sub = ObjectId::from_hex(b"4b825dc642cb6eb9a060e54bf8d69288fbee4904").unwrap();
    let es = vec![
        TreeEntry { mode: EntryMode::ExecutableFile, name: b"run.sh".to_vec(), id: blob },
        TreeEntry { mode: EntryMode::Directory, name: b"src".to_vec(), id: sub },
    ];
    let payload = tree_payload(&es);
    let mut expected = b"100755 run.sh\0".to_vec();
    expected.extend_from_slice(&blob.bytes);
    expected.extend_from_slice(b"40000 src\0");
    expected.extend_from_slice(&sub.bytes);
    assert_eq!(payload, expected);
    let back = parse_tree(&payload).unwrap();
    assert_eq!(back[0].mode, EntryMode::ExecutableFile);
    assert_eq!(back[1].mode, EntryMode::Directory);
    assert_eq!(back[1].id, sub);
}

#[test]
fn object_id_from_hex() {
    assert!(ObjectId::from_hex(b"abc").is_none());
    assert!(ObjectId::from_hex(b"4b825dc642cb6eb9a060e54bf8d69288fbee49").is_none());
    assert_eq!(
        ObjectId::from_hex(b"4B825DC642CB6EB9A060E54BF8D69288FBEE4904").unwrap().to_hex(),
        "4b825dc642cb6eb9a060e54bf8d69288fbee4904"
    );
}
