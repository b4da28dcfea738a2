use lsm5::memtable::Value;
use lsm5::sstable::{write_sstable, SsTableReader};

/// Bloom filter bits and probes for `n` keys at a 1% false-positive rate.
fn table_sizer(n: usize) -> (usize, usize) {
    let ln2 = std::f64::consts::LN_2;
    let bits = ((-(n as f64 * 0.01f64.ln()) / (ln2 * ln2)) as usize).max(64);
    let hashes = ((bits as f64 / n as f64) * ln2).round() as usize;
    (bits, hashes.max(1))
}

#[test]
fn test_write_read_sstable() {
    let entries = vec![
        (b"apple".to_vec(), Value::Data(b"fruit".to_vec())),
        (b"banana".to_vec(), Value::Data(b"yellow".to_vec())),
        (b"cherry".to_vec(), Value::Tombstone),
    ];
    let (meta, image) = write_sstable("test.sst".to_string(), &entries, 0, 1, true, 3, &table_sizer).unwrap();
    assert_eq!(meta.entry_count, 3);
    assert_eq!(meta.file_size, image.len() as u64);

    let reader = SsTableReader::open(&image).unwrap();
    assert_eq!(reader.get(b"apple").unwrap(), Some(Value::Data(b"fruit".to_vec())));
    assert_eq!(reader.get(b"banana").unwrap(), Some(Value::Data(b"yellow".to_vec())));
    assert_eq!(reader.get(b"cherry").unwrap(), Some(Value::Tombstone));
    assert_eq!(reader.get(b"grape").unwrap(), None);
}

#[test]
fn test_scan_all() {
    let entries: Vec<_> = (0..10u32)
        .map(|i| (format!("k{:04}", i).into_bytes(), Value::Data(i.to_be_bytes().to_vec())))
        .collect();
    let (_meta, image) = write_sstable("test2.sst".to_string(), &entries, 0, 1, true, 3, &table_sizer).unwrap();
    let reader = SsTableReader::open(&image).unwrap();
    let all = reader.scan_all().unwrap();
    assert_eq!(all.len(), 10);
    for (i, (k, _)) in all.iter().enumerate() {
        assert_eq!(k, &format!("k{:04}", i).into_bytes());
    }
}

#[test]
fn sstable_metadata() {
    let entries = vec![
        (b"a".to_vec(), Value::Data(b"1".to_vec())),
        (b"m".to_vec(), Value::Tombstone),
        (b"z".to_vec(), Value::Data(b"26".to_vec())),
    ];
    let (meta, image) = write_sstable("L3-x.sst".to_string(), &entries, 3, 42, false, 3, &table_sizer).unwrap();
    assert_eq!(meta.path, "L3-x.sst");
    assert_eq!(meta.level, 3);
    assert_eq!(meta.sequence, 42);
    assert_eq!(meta.min_key, b"a".to_vec());
    assert_eq!(meta.max_key, b"z".to_vec());
    let reader = SsTableReader::open(&image).unwrap();
    assert_eq!(reader.min_key(), Some(&b"a"[..]));
    assert_eq!(reader.max_key(), Some(&b"z"[..]));
    assert_eq!(reader.entry_count(), 3);
    assert!(reader.is_usable());
}

#[test]
fn sstable_compressed_roundtrip() {
    // More than a kilobyte of data, so the data block is zstd-compressed.
    let entries: Vec<_> = (0..300u32)
        .map(|i| (format!("key{:05}", i).into_bytes(), Value::Data(vec![b'x'; 20])))
        .collect();
    let (_m1, plain) = write_sstable("p.sst".to_string(), &entries, 0, 1, false, 3, &table_sizer).unwrap();
    let (_m2, packed) = write_sstable("c.sst".to_string(), &entries, 0, 1, true, 3, &table_sizer).unwrap();
    assert!(packed.len() < plain.len());
    let reader = SsTableReader::open(&packed).unwrap();
    assert_eq!(reader.get(b"key00123").unwrap(), Some(Value::Data(vec![b'x'; 20])));
    assert_eq!(reader.get(b"key99999").unwrap(), None);
    let all = reader.scan_all().unwrap();
    assert_eq!(all, entries);
    let plain_reader = SsTableReader::open(&plain).unwrap();
    assert_eq!(plain_reader.into_data(), reader.into_data());
}

#[test]
fn sstable_empty_table() {
    let (meta, image) = write_sstable("e.sst".to_string(), &[], 0, 1, true, 3, &table_sizer).unwrap();
    assert_eq!(meta.entry_count, 0);
    let reader = SsTableReader::open(&image).unwrap();
    assert_eq!(reader.min_key(), None);
    assert_eq!(reader.get(b"a").unwrap(), None);
    assert!(reader.scan_all().unwrap().is_empty());
}

#[test]
fn sstable_rejects_bad_images() {
    assert!(SsTableReader::open(&[]).is_err());
    let entries = vec![(b"a".to_vec(), Value::Data(b"1".to_vec()))];
    let (_meta, mut image) = write_sstable("b.sst".to_string(), &entries, 0, 1, false, 3, &table_sizer).unwrap();
    let n = image.len();
    image[n - 1] ^= 0xFF; // break the magic number
    assert!(SsTableReader::open(&image).is_err());
}

#[test]
fn sstable_detects_corrupt_entry() {
    let entries = vec![(b"a".to_vec(), Value::Data(b"1".to_vec()))];
    let (_meta, mut image) = write_sstable("b.sst".to_string(), &entries, 0, 1, false, 3, &table_sizer).unwrap();
    // The entry's value byte follows its 13-byte header and its key.
    image[14] ^= 0xFF;
    let reader = SsTableReader::open(&image).unwrap();
    assert!(reader.get(b"a").is_err());
}
