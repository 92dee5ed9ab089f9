use minigit::delta::{aplicar_delta, apply_delta};
use minigit::error::Error;
use minigit::varint::{read_ofs_varint, read_size_varint};

#[test]
fn copy_then_insert_rebuilds_cde_xy() {
    let base = b"ABCDEFGH";
    // base size 8, result size 5, copy offset 2 size 3, insert "XY"
    let delta = [8u8, 5, 0x91, 2, 3, 2, b'X', b'Y'];
    assert_eq!(apply_delta(&delta, base), Ok(b"CDEXY".to_vec()));
}

#[test]
fn spanish_name_applies_the_same_delta() {
    let base = b"ABCDEFGH";
    let delta = [8u8, 5, 0x91, 2, 3, 2, b'X', b'Y'];
    assert_eq!(aplicar_delta(&delta, base), apply_delta(&delta, base));
}

#[test]
fn copy_missing_offset_bytes_is_unexpected_eof() {
    let base = b"ABCDEFGH";
    // copy instruction announcing an offset byte and a size byte, then nothing
    let delta = [8u8, 3, 0x91];
    assert_eq!(apply_delta(&delta, base), Err(Error::UnexpectedEof));
}

#[test]
fn copy_missing_size_byte_is_unexpected_eof() {
    let base = b"ABCDEFGH";
    let delta = [8u8, 3, 0x91, 2];
    assert_eq!(apply_delta(&delta, base), Err(Error::UnexpectedEof));
}

#[test]
fn insert_past_end_is_unexpected_eof() {
    let base = b"ABCDEFGH";
    let delta = [8u8, 3, 3, b'X'];
    assert_eq!(apply_delta(&delta, base), Err(Error::UnexpectedEof));
}

#[test]
fn copy_past_base_is_out_of_bounds() {
    let base = b"ABCDEFGH";
    let delta = [8u8, 4, 0x91, 6, 4];
    assert_eq!(apply_delta(&delta, base), Err(Error::DeltaOutOfBounds));
}

#[test]
fn zero_opcode_is_invalid() {
    let base = b"ABCDEFGH";
    let delta = [8u8, 1, 0];
    assert_eq!(apply_delta(&delta, base), Err(Error::InvalidDeltaOpcode));
}

#[test]
fn wrong_base_size_is_rejected() {
    let base = b"ABCDEFGH";
    let delta = [7u8, 1, 1, b'Z'];
    assert_eq!(apply_delta(&delta, base), Err(Error::BaseSizeMismatch));
}

#[test]
fn wrong_result_size_is_rejected() {
    let base = b"ABCDEFGH";
    let delta = [8u8, 4, 1, b'Z'];
    assert_eq!(apply_delta(&delta, base), Err(Error::ResultSizeMismatch));
}

#[test]
fn empty_delta_is_unexpected_eof() {
    assert_eq!(apply_delta(&[], b"AB"), Err(Error::UnexpectedEof));
}

#[test]
fn copy_size_zero_means_sixty_four_kib() {
    let base = vec![7u8; 0x10000];
    // base size 0x10000 = [0x80, 0x80, 0x04]; copy from offset 0 with no size bytes
    let delta = [0x80u8, 0x80, 0x04, 0x80, 0x80, 0x04, 0x80];
    let out = apply_delta(&delta, &base).unwrap();
    assert_eq!(out.len(), 0x10000);
    assert_eq!(out, base);
}

#[test]
fn copy_with_multibyte_offset_and_size() {
    let mut base = vec![0u8; 0x300];
    base[0x201] = 9;
    base[0x202] = 8;
    // base size 0x300 = [0x80, 0x06]; result size 2; offset 0x0201 in two bytes, size 2
    let delta = [0x80u8, 0x06, 2, 0x93, 0x01, 0x02, 2];
    assert_eq!(apply_delta(&delta, &base), Ok(vec![9, 8]));
}

#[test]
fn size_varint_is_little_endian() {
    assert_eq!(read_size_varint(&[0x91, 0x2e, 0xff], 0), Some((17 + 0x2e * 128, 2)));
    assert_eq!(read_size_varint(&[5], 0), Some((5, 1)));
    assert_eq!(read_size_varint(&[0x80], 0), None);
    assert_eq!(read_size_varint(&[1, 2], 2), None);
}

#[test]
fn ofs_varint_adds_one_before_each_shift() {
    assert_eq!(read_ofs_varint(&[0x05], 0), Some((5, 1)));
    assert_eq!(read_ofs_varint(&[0x81, 0x00], 0), Some((256, 2)));
    assert_eq!(read_ofs_varint(&[0x80, 0x7f], 0), Some((255, 2)));
    assert_eq!(read_ofs_varint(&[0x81], 0), None);
}

#[test]
fn huge_varints_saturate() {
    let bytes = [0xffu8, 0xff, 0xff, 0xff, 0xff, 0xff, 0xff, 0xff, 0xff, 0xff, 0x7f];
    assert_eq!(read_size_varint(&bytes, 0), Some((1u128 << 64, 11)));
    assert_eq!(read_ofs_varint(&bytes, 0), Some((1u128 << 64, 11)));
}
