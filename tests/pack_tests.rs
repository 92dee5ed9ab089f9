use flate2::write::ZlibEncoder;
use flate2::Compression;
use minigit::error::Error;
use minigit::object::{hash_object, Kind};
use minigit::pack::decode_pack;
use sha1::Digest;
use std::io::Write;

fn zlib(data: &[u8]) -> Vec<u8> {
    let mut e = ZlibEncoder::new(Vec::new(), Compression::default());
    e.write_all(data).unwrap();
    e.finish().unwrap()
}

fn entry_header(kind: u8, size: usize) -> Vec<u8> {
    let mut out = Vec::new();
    let mut first = (kind << 4) | (size & 0x0f) as u8;
    let mut rest = size >> 4;
    if rest > 0 {
        first |= 0x80;
    }
    out.push(first);
    while rest > 0 {
        let mut b = (rest & 0x7f) as u8;
        rest >>= 7;
        if rest > 0 {
            b |= 0x80;
        }
        out.push(b);
    }
    out
}

fn pack_header(count: u32) -> Vec<u8> {
    let mut out = b"PACK".to_vec();
    out.extend_from_slice(&2u32.to_be_bytes());
    out.extend_from_slice(&count.to_be_bytes());
    out
}

fn ok_objects(data: &[u8]) -> Vec<minigit::pack::PackedObject> {
    let decoded = decode_pack(data);
    assert_eq!(decoded.error, None);
    decoded.objects
}

fn sha1_hex(data: &[u8]) -> String {
    hex::encode(sha1::Sha1::digest(data))
}

fn append_delta() -> Vec<u8> {
    // base size 6, result size 12, copy 0..6, insert "world\n"
    let mut d = vec![6u8, 12, 0x90, 6, 6];
    d.extend_from_slice(b"world\n");
    d
}

fn two_object_pack() -> Vec<u8> {
    let mut pack = pack_header(2);
    pack.extend(entry_header(3, 6));
    pack.extend(zlib(b"hello\n"));
    let delta = append_delta();
    pack.extend(entry_header(7, delta.len()));
    pack.extend_from_slice(&hash_object(Kind::Blob, b"hello\n").bytes);
    pack.extend(zlib(&delta));
    pack
}

#[test]
fn ref_delta_pack_yields_hashed_objects() {
    let objs = ok_objects(&two_object_pack());
    assert_eq!(objs.len(), 2);
    assert_eq!(objs[0].kind, Kind::Blob);
    assert_eq!(objs[0].payload, b"hello\n".to_vec());
    assert_eq!(objs[0].id.to_hex(), sha1_hex(b"blob 6\0hello\n"));
    assert_eq!(objs[1].kind, Kind::Blob);
    assert_eq!(objs[1].payload, b"hello\nworld\n".to_vec());
    assert_eq!(objs[1].id.to_hex(), sha1_hex(b"blob 12\0hello\nworld\n"));
}

#[test]
fn leading_bytes_before_signature_are_skipped() {
    let mut data = b"0008NAK\n\x01".to_vec();
    data.extend(two_object_pack());
    let objs = ok_objects(&data);
    assert_eq!(objs.len(), 2);
    assert_eq!(objs[1].payload, b"hello\nworld\n".to_vec());
}

#[test]
fn trailing_checksum_is_ignored() {
    let mut data = two_object_pack();
    data.extend_from_slice(&[0xaa; 20]);
    assert_eq!(ok_objects(&data).len(), 2);
}

#[test]
fn ofs_delta_finds_base_by_offset() {
    let mut pack = pack_header(2);
    let base_start = pack.len();
    pack.extend(entry_header(3, 6));
    pack.extend(zlib(b"hello\n"));
    let delta_start = pack.len();
    let delta = append_delta();
    pack.extend(entry_header(6, delta.len()));
    let off = delta_start - base_start;
    assert!(off < 128);
    pack.push(off as u8);
    pack.extend(zlib(&delta));
    let objs = ok_objects(&pack);
    assert_eq!(objs[1].kind, Kind::Blob);
    assert_eq!(objs[1].payload, b"hello\nworld\n".to_vec());
    assert_eq!(objs[1].id.to_hex(), sha1_hex(b"blob 12\0hello\nworld\n"));
}

#[test]
fn ofs_delta_pointing_at_itself_is_base_not_found() {
    let mut pack = pack_header(1);
    pack.extend(entry_header(6, 3));
    pack.push(0);
    pack.extend(zlib(&[0u8, 0]));
    assert_eq!(decode_pack(&pack).error, Some(Error::BaseNotFound));
}

#[test]
fn zeroed_signature_is_missing_signature() {
    let mut pack = two_object_pack();
    pack[0] = 0;
    pack[1] = 0;
    pack[2] = 0;
    pack[3] = 0;
    let decoded = decode_pack(&pack);
    assert_eq!(decoded.error, Some(Error::MissingSignature));
    assert!(decoded.objects.is_empty());
}

#[test]
fn empty_stream_is_missing_signature() {
    assert_eq!(decode_pack(&[]).error, Some(Error::MissingSignature));
}

#[test]
fn version_three_is_unsupported() {
    let mut pack = two_object_pack();
    pack[7] = 3;
    assert_eq!(decode_pack(&pack).error, Some(Error::UnsupportedVersion));
}

#[test]
fn truncated_header_is_unexpected_eof() {
    assert_eq!(decode_pack(b"PACK\0\0\0\x02\0").error, Some(Error::UnexpectedEof));
}

#[test]
fn missing_entries_are_unexpected_eof() {
    let pack = pack_header(1);
    assert_eq!(decode_pack(&pack).error, Some(Error::UnexpectedEof));
}

#[test]
fn reserved_type_is_unknown_object_type() {
    let mut pack = pack_header(1);
    pack.extend(entry_header(5, 1));
    pack.extend(zlib(b"x"));
    assert_eq!(decode_pack(&pack).error, Some(Error::UnknownObjectType));
    let mut pack = pack_header(1);
    pack.extend(entry_header(0, 1));
    pack.extend(zlib(b"x"));
    assert_eq!(decode_pack(&pack).error, Some(Error::UnknownObjectType));
}

#[test]
fn ref_delta_without_base_is_base_not_found() {
    let mut pack = pack_header(1);
    let delta = append_delta();
    pack.extend(entry_header(7, delta.len()));
    pack.extend_from_slice(&[0x11; 20]);
    pack.extend(zlib(&delta));
    assert_eq!(decode_pack(&pack).error, Some(Error::BaseNotFound));
}

#[test]
fn corrupt_stream_is_corrupt_data() {
    let mut pack = pack_header(1);
    pack.extend(entry_header(3, 3));
    pack.extend_from_slice(b"garbage");
    assert_eq!(decode_pack(&pack).error, Some(Error::CorruptData));
}

#[test]
fn bad_delta_in_pack_fails_whole_pack() {
    let mut pack = pack_header(2);
    pack.extend(entry_header(3, 6));
    pack.extend(zlib(b"hello\n"));
    let delta = vec![5u8, 1, 1, b'x'];
    pack.extend(entry_header(7, delta.len()));
    pack.extend_from_slice(&hash_object(Kind::Blob, b"hello\n").bytes);
    pack.extend(zlib(&delta));
    assert_eq!(decode_pack(&pack).error, Some(Error::BaseSizeMismatch));
}

#[test]
fn commit_tree_and_tag_codes_decode() {
    let mut pack = pack_header(3);
    for (code, body) in [(1u8, b"c".to_vec()), (2, Vec::new()), (4, b"t".to_vec())] {
        pack.extend(entry_header(code, body.len()));
        pack.extend(zlib(&body));
    }
    let objs = ok_objects(&pack);
    assert_eq!(objs[0].kind, Kind::Commit);
    assert_eq!(objs[1].kind, Kind::Tree);
    assert_eq!(objs[2].kind, Kind::Tag);
    assert_eq!(objs[1].id.to_hex(), "4b825dc642cb6eb9a060e54bf8d69288fbee4904");
}

#[test]
fn truncated_transfer_is_unexpected_eof() {
    let pack = two_object_pack();
    for cut in [pack.len() - 3, pack.len() - 12, 14, 12] {
        assert_eq!(decode_pack(&pack[..cut]).error, Some(Error::UnexpectedEof), "cut at {}", cut);
    }
}

fn delta_chain(deltas: usize) -> Vec<u8> {
    let mut pack = pack_header(1 + deltas as u32);
    let mut previous = pack.len();
    pack.extend(entry_header(3, 1));
    pack.extend(zlib(b"x"));
    // base size 1, result size 1, copy one byte from offset 0
    let copy_all = [1u8, 1, 0x90, 1];
    for _ in 0..deltas {
        let start = pack.len();
        pack.extend(entry_header(6, copy_all.len()));
        let off = start - previous;
        assert!(off < 128);
        pack.push(off as u8);
        pack.extend(zlib(&copy_all));
        previous = start;
    }
    pack
}

#[test]
fn delta_chain_of_sixty_four_decodes() {
    let objs = ok_objects(&delta_chain(64));
    assert_eq!(objs.len(), 65);
    assert_eq!(objs[64].payload, b"x".to_vec());
}

#[test]
fn delta_chain_too_deep_is_rejected() {
    assert_eq!(decode_pack(&delta_chain(65)).error, Some(Error::DeltaChainTooDeep));
}

#[test]
fn objects_before_failing_entry_are_kept() {
    let mut pack = pack_header(3);
    pack.extend(entry_header(3, 6));
    pack.extend(zlib(b"hello\n"));
    pack.extend(entry_header(1, 1));
    pack.extend(zlib(b"c"));
    let delta = append_delta();
    pack.extend(entry_header(7, delta.len()));
    pack.extend_from_slice(&[0x11; 20]);
    pack.extend(zlib(&delta));
    let decoded = decode_pack(&pack);
    assert_eq!(decoded.error, Some(Error::BaseNotFound));
    assert_eq!(decoded.objects.len(), 2);
    assert_eq!(decoded.objects[0].payload, b"hello\n".to_vec());
    assert_eq!(decoded.objects[1].kind, Kind::Commit);
}

#[test]
fn header_failure_keeps_no_object() {
    let mut pack = two_object_pack();
    pack[7] = 3;
    let decoded = decode_pack(&pack);
    assert_eq!(decoded.error, Some(Error::UnsupportedVersion));
    assert!(decoded.objects.is_empty());
}
