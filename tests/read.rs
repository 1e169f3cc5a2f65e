use cdb32::{CDBMake, Error, CDB};

fn image(records: &[(&[u8], &[u8])]) -> Vec<u8> {
    let (mut maker, mut file) = CDBMake::new();
    for (k, v) in records {
        file.extend(maker.add(k, v).unwrap());
    }
    let (tables, header) = maker.finish().unwrap();
    file.extend(tables);
    file[..2048].copy_from_slice(&header);
    file
}

fn test1() -> CDB {
    CDB::open(image(&[
        (b"one", b"Hello"),
        (b"one", b", World!"),
        (b"two", b"Goodbye"),
        (b"this key will be split across two reads", b"Got it."),
    ]))
    .unwrap()
}

fn all_values(cdb: &CDB, key: &[u8]) -> Vec<Vec<u8>> {
    let mut it = cdb.find(key);
    let mut out = Vec::new();
    while let Some(r) = it.next() {
        out.push(r.unwrap());
    }
    out
}

fn all_records(cdb: &CDB) -> Vec<(Vec<u8>, Vec<u8>)> {
    let mut it = cdb.iter();
    let mut out = Vec::new();
    while let Some(r) = it.next() {
        out.push(r.unwrap());
    }
    out
}

#[test]
fn test_one() {
    let cdb = test1();
    let mut i = cdb.find(b"one");
    assert_eq!(i.next().unwrap().unwrap(), b"Hello");
    assert_eq!(i.next().unwrap().unwrap(), b", World!");
}

#[test]
fn test_two() {
    let cdb = test1();
    assert_eq!(cdb.find(b"two").next().unwrap().unwrap(), b"Goodbye");
    assert_eq!(
        cdb.find(b"this key will be split across two reads")
            .next()
            .unwrap()
            .unwrap(),
        b"Got it."
    );
}

#[test]
fn test_empty_cdb() {
    let cdb = CDB::open(image(&[]));
    assert!(cdb.is_ok());

    let cdb = cdb.unwrap();

    let mut iter = cdb.find(b"key");
    assert!(iter.next().is_none());

    let get_result = cdb.get(b"key");
    assert!(get_result.is_none());

    assert!(cdb.iter().next().is_none());
}

#[test]
fn single_key_two_values() {
    let cdb = CDB::open(image(&[(b"one", b"Hello"), (b"one", b", World!")])).unwrap();
    assert_eq!(all_values(&cdb, b"one"), vec![b"Hello".to_vec(), b", World!".to_vec()]);
    assert_eq!(cdb.get(b"one"), Some(Ok(b"Hello".to_vec())));
    assert!(cdb.find(b"two").next().is_none());
    assert!(cdb.get(b"two").is_none());
}

#[test]
fn long_key_is_found() {
    let key: &[u8] = b"a key that is longer than one window of thirty-two bytes, twice over!";
    let cdb = CDB::open(image(&[(key, b"long"), (b"k", b"short")])).unwrap();
    assert_eq!(all_values(&cdb, key), vec![b"long".to_vec()]);
    assert!(cdb.get(&key[..key.len() - 1]).is_none());
    assert_eq!(cdb.get(b"k"), Some(Ok(b"short".to_vec())));
}

#[test]
fn iteration_keeps_insertion_order() {
    let records: Vec<(&[u8], &[u8])> = vec![(b"a", b"1"), (b"b", b"2"), (b"a", b"3"), (b"c", b"4")];
    let cdb = CDB::open(image(&records)).unwrap();
    let expected: Vec<(Vec<u8>, Vec<u8>)> =
        records.iter().map(|(k, v)| (k.to_vec(), v.to_vec())).collect();
    assert_eq!(all_records(&cdb), expected);
}

#[test]
fn lookup_gives_every_value_of_each_key() {
    let mut records: Vec<(Vec<u8>, Vec<u8>)> = Vec::new();
    for i in 0..600u32 {
        let key = format!("key{}", i % 150).into_bytes();
        let value = format!("value{}", i).into_bytes();
        records.push((key, value));
    }
    let refs: Vec<(&[u8], &[u8])> =
        records.iter().map(|(k, v)| (k.as_slice(), v.as_slice())).collect();
    let cdb = CDB::open(image(&refs)).unwrap();
    for k in 0..150u32 {
        let key = format!("key{}", k).into_bytes();
        let mut got = all_values(&cdb, &key);
        got.sort();
        let mut want: Vec<Vec<u8>> = records
            .iter()
            .filter(|(rk, _)| *rk == key)
            .map(|(_, v)| v.clone())
            .collect();
        want.sort();
        assert_eq!(got, want);
        assert_eq!(cdb.get(&key), Some(Ok(all_values(&cdb, &key)[0].clone())));
    }
    assert!(cdb.get(b"absent").is_none());
    assert_eq!(all_records(&cdb), records);
}

#[test]
fn rewrite_gives_the_same_bytes() {
    let records: Vec<(&[u8], &[u8])> =
        vec![(b"x", b"1"), (b"yy", b""), (b"", b"empty key"), (b"x", b"2"), (b"zzz", b"3")];
    let first = image(&records);
    let cdb = CDB::open(first.clone()).unwrap();
    let back = all_records(&cdb);
    let refs: Vec<(&[u8], &[u8])> = back.iter().map(|(k, v)| (k.as_slice(), v.as_slice())).collect();
    assert_eq!(image(&refs), first);
}

#[test]
fn open_checks_the_size() {
    assert_eq!(CDB::open(vec![0u8; 2047]).err(), Some(Error::BadFile));
    assert_eq!(CDB::open(Vec::new()).err(), Some(Error::BadFile));
    let cdb = CDB::open(vec![0u8; 2048]).unwrap();
    assert_eq!(cdb.size(), 2048);
    assert!(cdb.get(b"anything").is_none());
    assert!(cdb.iter().next().is_none());
}

#[test]
fn subtable_past_the_end_is_bad_file_once() {
    let mut file = image(&[(b"one", b"Hello")]);
    // bucket of "one" is 129: point its subtable far past the end
    let e = 129 * 8;
    file[e..e + 4].copy_from_slice(&0x0010_0000u32.to_le_bytes());
    let cdb = CDB::open(file).unwrap();
    let mut it = cdb.find(b"one");
    assert_eq!(it.next(), Some(Err(Error::BadFile)));
    assert_eq!(it.next(), None);
    assert_eq!(cdb.get(b"one"), Some(Err(Error::BadFile)));
}

#[test]
fn record_past_the_data_end_is_bad_file_once() {
    let mut file = image(&[(b"a", b"1"), (b"b", b"2")]);
    // the second record claims a key longer than what is left
    let second = 2048 + 10;
    file[second..second + 4].copy_from_slice(&1000u32.to_le_bytes());
    let cdb = CDB::open(file).unwrap();
    let mut it = cdb.iter();
    assert_eq!(it.next(), Some(Ok((b"a".to_vec(), b"1".to_vec()))));
    assert_eq!(it.next(), Some(Err(Error::BadFile)));
    assert_eq!(it.next(), None);
}

#[test]
fn arbitrary_bytes_never_panic() {
    let mut seed: u32 = 12345;
    for round in 0..40u32 {
        let len = 2048 + (round as usize * 37) % 600;
        let mut file = Vec::with_capacity(len);
        for _ in 0..len {
            seed = seed.wrapping_mul(1_103_515_245).wrapping_add(12345);
            let byte = (seed >> 16) as u8;
            // keep offsets small now and then so that they land in the file
            file.push(if round % 2 == 0 { byte % 9 } else { byte });
        }
        let cdb = CDB::open(file).unwrap();
        for key in [&b"one"[..], b"", b"k", b"\x00\x00"] {
            let mut it = cdb.find(key);
            let mut n = 0;
            while let Some(_) = it.next() {
                n += 1;
                assert!(n <= 10_000);
            }
            let _ = cdb.get(key);
        }
        let mut it = cdb.iter();
        let mut n = 0;
        while let Some(_) = it.next() {
            n += 1;
            assert!(n <= 10_000);
        }
    }
}

#[test]
fn trailing_record_of_eight_bytes_is_not_iterated() {
    // iteration stops once fewer than nine bytes of records are left
    let cdb = CDB::open(image(&[(b"a", b"1"), (b"", b"")])).unwrap();
    assert_eq!(all_records(&cdb), vec![(b"a".to_vec(), b"1".to_vec())]);
    assert_eq!(cdb.get(b""), Some(Ok(Vec::new())));
}
