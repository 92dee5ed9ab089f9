use flate2::write::ZlibEncoder;
use flate2::Compression;
use minigit::error::Error;
use minigit::object::{decode_loose, encode_loose, hash_object, loose_path, parse_decimal, Kind};
use std::io::Write;

fn zlib(data: &[u8]) -> Vec<u8> {
    let mut e = ZlibEncoder::new(Vec::new(), Compression::default());
    e.write_all(data).unwrap();
    e.finish().unwrap()
}

#[test]
fn blob_id_matches_known_digest() {
    let id = hash_object(Kind::Blob, b"hello\n");
    assert_eq!(id.to_hex(), "ce013625030ba8dba906f756967f9e9ca394464a");
}

#[test]
fn empty_tree_id_matches_known_digest() {
    let id = hash_object(Kind::Tree, b"");
    assert_eq!(id.to_hex(), "4b825dc642cb6eb9a060e54bf8d69288fbee4904");
}

#[test]
fn loose_path_splits_hex_two_and_thirty_eight() {
    let id = hash_object(Kind::Blob, b"hello\n");
    assert_eq!(loose_path(&id), "objects/ce/013625030ba8dba906f756967f9e9ca394464a");
}

#[test]
fn write_then_read_gives_back_kind_and_payload() {
    for (kind, payload) in [
        (Kind::Blob, b"hello\n".to_vec()),
        (Kind::Tree, Vec::new()),
        (Kind::Commit, b"tree 4b825dc642cb6eb9a060e54bf8d69288fbee4904\n\nmsg\n".to_vec()),
        (Kind::Tag, vec![0u8, 255, 10, 32]),
    ] {
        let file = encode_loose(kind, &payload);
        let back = decode_loose(&file).unwrap();
        assert_eq!(back.kind, kind);
        assert_eq!(back.size, payload.len() as u64);
        assert_eq!(back.payload, payload);
    }
}

#[test]
fn writing_twice_gives_same_bytes_and_id() {
    let a = encode_loose(Kind::Blob, b"same");
    let b = encode_loose(Kind::Blob, b"same");
    assert_eq!(a, b);
    assert_eq!(hash_object(Kind::Blob, b"same"), hash_object(Kind::Blob, b"same"));
    assert_ne!(hash_object(Kind::Blob, b"same"), hash_object(Kind::Tree, b"same"));
}

#[test]
fn loose_file_is_compressed_canonical_form() {
    let file = encode_loose(Kind::Blob, b"hi");
    let mut d = flate2::read::ZlibDecoder::new(&file[..]);
    let mut raw = Vec::new();
    std::io::Read::read_to_end(&mut d, &mut raw).unwrap();
    assert_eq!(raw, b"blob 2\0hi".to_vec());
}

#[test]
fn payload_is_cut_at_declared_size() {
    let file = zlib(b"blob 3\0abcdef");
    let o = decode_loose(&file).unwrap();
    assert_eq!(o.size, 3);
    assert_eq!(o.payload, b"abc".to_vec());
}

#[test]
fn short_payload_is_returned_whole() {
    let o = decode_loose(&zlib(b"blob 10\0abc")).unwrap();
    assert_eq!(o.size, 10);
    assert_eq!(o.payload, b"abc".to_vec());
}

#[test]
fn header_without_space_is_corrupt() {
    assert_eq!(decode_loose(&zlib(b"blob3\0abc")).err(), Some(Error::CorruptHeader));
}

#[test]
fn header_without_nul_is_corrupt() {
    assert_eq!(decode_loose(&zlib(b"blob 3 abc")).err(), Some(Error::CorruptHeader));
}

#[test]
fn header_with_bad_size_is_corrupt() {
    assert_eq!(decode_loose(&zlib(b"blob x\0abc")).err(), Some(Error::CorruptHeader));
    assert_eq!(decode_loose(&zlib(b"blob \0abc")).err(), Some(Error::CorruptHeader));
    assert_eq!(decode_loose(&zlib(b"blob 99999999999999999999\0")).err(), Some(Error::CorruptHeader));
}

#[test]
fn header_not_utf8_is_corrupt() {
    assert_eq!(decode_loose(&zlib(b"bl\xffb 3\0abc")).err(), Some(Error::CorruptHeader));
}

#[test]
fn unknown_kind_is_rejected() {
    assert_eq!(decode_loose(&zlib(b"blub 3\0abc")).err(), Some(Error::UnknownKind));
}

#[test]
fn garbage_file_is_corrupt_data() {
    assert_eq!(decode_loose(b"not zlib at all").err(), Some(Error::CorruptData));
}

#[test]
fn kind_names_round_trip() {
    for k in [Kind::Blob, Kind::Tree, Kind::Commit, Kind::Tag] {
        assert_eq!(Kind::from_name(&k.name()), Some(k));
    }
    assert_eq!(Kind::name(&Kind::Commit), b"commit".to_vec());
    assert_eq!(Kind::from_name(b"blobs"), None);
}

#[test]
fn decimal_parsing() {
    assert_eq!(parse_decimal(b"0"), Some(0));
    assert_eq!(parse_decimal(b"18446744073709551615"), Some(u64::MAX));
    assert_eq!(parse_decimal(b"18446744073709551616"), None);
    assert_eq!(parse_decimal(b""), None);
    assert_eq!(parse_decimal(b"1a"), None);
}

#[test]
fn cut_off_file_is_unexpected_eof() {
    let file = encode_loose(Kind::Blob, b"some longer payload to compress");
    assert_eq!(decode_loose(&file[..file.len() - 6]).err(), Some(Error::UnexpectedEof));
}

#[test]
fn header_longer_than_limit_is_corrupt() {
    let mut raw = b"blob ".to_vec();
    raw.extend(vec![b'0'; 70]);
    raw.extend_from_slice(b"3\0abc");
    assert_eq!(decode_loose(&zlib(&raw)).err(), Some(Error::CorruptHeader));
}

#[test]
fn written_file_inflates_to_canonical_bytes() {
    let file = encode_loose(Kind::Commit, b"x");
    let mut d = flate2::read::ZlibDecoder::new(&file[..]);
    let mut raw = Vec::new();
    std::io::Read::read_to_end(&mut d, &mut raw).unwrap();
    assert_eq!(raw, b"commit 1\0x".to_vec());
}
