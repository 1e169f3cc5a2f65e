use cdb32::{CDBMake, Error};

#[test]
fn new_starts_with_a_zero_header() {
    let (_maker, head) = CDBMake::new();
    assert_eq!(head, vec![0u8; 2048]);
}

#[test]
fn add_gives_the_record_bytes() {
    let (mut maker, _) = CDBMake::new();
    let bytes = maker.add(b"one", b"Hello").unwrap();
    assert_eq!(bytes, b"\x03\x00\x00\x00\x05\x00\x00\x00oneHello".to_vec());
    let empty = maker.add(b"", b"").unwrap();
    assert_eq!(empty, vec![0u8; 8]);
}

#[test]
fn finish_lays_out_header_and_subtables() {
    let (mut maker, _) = CDBMake::new();
    maker.add(b"one", b"Hello").unwrap();
    let (tables, header) = maker.finish().unwrap();
    assert_eq!(header.len(), 2048);
    // hash("one") = 193420161: bucket 129, first slot (h >> 8) % 2 = 1
    assert_eq!(tables.len(), 16);
    assert_eq!(&tables[0..8], &[0u8; 8]);
    assert_eq!(&tables[8..12], &193420161u32.to_le_bytes());
    assert_eq!(&tables[12..16], &2048u32.to_le_bytes());
    for i in 0..256usize {
        let pos = u32::from_le_bytes([header[i * 8], header[i * 8 + 1], header[i * 8 + 2], header[i * 8 + 3]]);
        let slots = u32::from_le_bytes([header[i * 8 + 4], header[i * 8 + 5], header[i * 8 + 6], header[i * 8 + 7]]);
        let (want_pos, want_slots) = if i < 129 {
            (2064, 0)
        } else if i == 129 {
            (2064, 2)
        } else {
            (2080, 0)
        };
        assert_eq!((pos, slots), (want_pos, want_slots));
    }
}

#[test]
fn colliding_slots_probe_forward_with_wraparound() {
    // two keys in one bucket: four slots, the second placed after the first
    let (mut maker, _) = CDBMake::new();
    let mut keys: Vec<Vec<u8>> = Vec::new();
    let mut n = 0u32;
    while keys.len() < 2 {
        let k = format!("k{}", n).into_bytes();
        let h = cdb32::hash::hash(&k);
        if h & 0xff == 7 && ((h >> 8) % 4 == 3) {
            keys.push(k);
        }
        n += 1;
    }
    maker.add(&keys[0], b"a").unwrap();
    maker.add(&keys[1], b"b").unwrap();
    let (tables, header) = maker.finish().unwrap();
    assert_eq!(tables.len(), 32);
    assert_eq!(&header[7 * 8 + 4..7 * 8 + 8], &4u32.to_le_bytes());
    // first key in slot 3, second wraps to slot 0
    assert_eq!(&tables[3 * 8 + 4..3 * 8 + 8], &2048u32.to_le_bytes());
    let second = 2048 + 8 + keys[0].len() as u32 + 1;
    assert_eq!(&tables[4..8], &second.to_le_bytes());
}

#[test]
fn finish_with_no_records() {
    let (maker, _) = CDBMake::new();
    let (tables, header) = maker.finish().unwrap();
    assert!(tables.is_empty());
    for i in 0..256usize {
        assert_eq!(&header[i * 8..i * 8 + 8], &[0x00, 0x08, 0, 0, 0, 0, 0, 0]);
    }
}
