use cdb32::{pack, pack2, unpack, unpack2};

#[test]
fn test_unpack() {
    let data = [0x01, 0x00, 0x00, 0x00];
    assert_eq!(unpack(&data), 1);
}

#[test]
fn test_pack() {
    let mut data = [0; 4];
    pack(&mut data, 1);
    assert_eq!(data, [0x01, 0x00, 0x00, 0x00]);
}

#[test]
fn test_unpack2() {
    let data = [0x01, 0x00, 0x00, 0x00, 0x02, 0x00, 0x00, 0x00];
    assert_eq!(unpack2(&data), (1, 2));
}

#[test]
fn test_pack2() {
    let mut data = [0; 8];
    pack2(&mut data, 1, 2);
    assert_eq!(data, [0x01, 0x00, 0x00, 0x00, 0x02, 0x00, 0x00, 0x00]);
}

#[test]
fn unpack_uses_all_four_bytes_little_endian() {
    let data = [0x78, 0x56, 0x34, 0x12];
    assert_eq!(unpack(&data), 0x1234_5678);
    assert_eq!(unpack(&[0xff, 0xff, 0xff, 0xff]), 0xffff_ffff);
}

#[test]
fn pack_keeps_the_rest_of_the_buffer() {
    let mut data = [9u8; 6];
    pack(&mut data, 0x1234_5678);
    assert_eq!(data, [0x78, 0x56, 0x34, 0x12, 9, 9]);
    let mut pair = [7u8; 10];
    pack2(&mut pair, 0xdead_beef, 0x0102_0304);
    assert_eq!(pair, [0xef, 0xbe, 0xad, 0xde, 0x04, 0x03, 0x02, 0x01, 7, 7]);
    assert_eq!(unpack2(&pair), (0xdead_beef, 0x0102_0304));
}

#[test]
fn hash_known_values() {
    assert_eq!(cdb32::hash::hash(b""), 5381);
    assert_eq!(cdb32::hash::hash(b"a"), 177604);
    assert_eq!(cdb32::hash::hash(b"one"), 193420161);
}

#[test]
fn hash_pos_packs_hash_then_offset() {
    let hp = cdb32::HashPos { hash: 0x0403_0201, pos: 2048 };
    let mut buf = [0u8; 9];
    hp.pack(&mut buf);
    assert_eq!(buf, [1, 2, 3, 4, 0x00, 0x08, 0, 0, 0]);
}

#[test]
fn error_helpers_and_messages() {
    assert_eq!(cdb32::err_badfile::<u8>(), Err(cdb32::Error::BadFile));
    assert_eq!(cdb32::err_toobig::<u8>(), Err(cdb32::Error::TooBig));
    assert_eq!(cdb32::Error::BadFile.message(), "Invalid file format");
    assert_eq!(cdb32::Error::TooBig.message(), "File too big");
}
