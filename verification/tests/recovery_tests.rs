use lsm5::memtable::Value;
use lsm5::recovery::{load_existing_sstables, parse_number, parse_table_name};
use lsm5::sstable::write_sstable;
use lsm5::codec::crc32;
use lsm5::table::{get_from_data, table_file_name};

fn recovery_sizer(n: usize) -> (usize, usize) {
    let ln2 = std::f64::consts::LN_2;
    let bits = ((-(n as f64 * 0.01f64.ln()) / (ln2 * ln2)) as usize).max(64);
    let hashes = ((bits as f64 / n as f64) * ln2).round() as usize;
    (bits, hashes.max(1))
}

#[test]
fn table_names_read_back() {
    assert_eq!(table_file_name(0, 1), "L0-0000000000000001.sst");
    assert_eq!(table_file_name(3, 0xabc), "L3-0000000000000abc.sst");
    assert_eq!(parse_table_name(&table_file_name(3, 0xabc)), Some((3, 0xabc)));
    assert_eq!(parse_table_name(&table_file_name(6, u64::MAX)), Some((6, u64::MAX)));
}

#[test]
fn table_name_forms() {
    assert_eq!(parse_table_name("L2-ff.sst"), Some((2, 255)));
    // a level or number that does not parse counts as zero
    assert_eq!(parse_table_name("Lx-zz.sst"), Some((0, 0)));
    assert_eq!(parse_table_name("L1-2-3.sst"), Some((1, 0)));
    assert_eq!(parse_table_name("L1-2.txt"), None);
    assert_eq!(parse_table_name("X1-2.sst"), None);
    assert_eq!(parse_table_name("L12.sst"), None);
    assert_eq!(parse_table_name(".sst"), None);
}

#[test]
fn numbers_parse_like_from_str_radix() {
    assert_eq!(parse_number(b"42", 10, u64::MAX), Some(42));
    assert_eq!(parse_number(b"+7", 10, u64::MAX), Some(7));
    assert_eq!(parse_number(b"Ff", 16, u64::MAX), Some(255));
    assert_eq!(parse_number(b"", 10, u64::MAX), None);
    assert_eq!(parse_number(b"+", 10, u64::MAX), None);
    assert_eq!(parse_number(b"1a", 10, u64::MAX), None);
    assert_eq!(parse_number(b"300", 10, 255), None);
    assert_eq!(parse_number(b"18446744073709551616", 10, u64::MAX), None);
}

#[test]
fn loading_sorts_levels_by_sequence() {
    let entries = vec![(b"k".to_vec(), Value::Data(b"v".to_vec()))];
    let mut files = Vec::new();
    for seq in [5u64, 2, 9] {
        let name = table_file_name(1, seq);
        let (_m, img) = write_sstable(name.clone(), &entries, 1, seq, false, 3, &recovery_sizer).unwrap();
        files.push((name, img));
    }
    files.push(("L0-0000000000000003.sst".to_string(), b"not a table".to_vec()));
    files.push(("wal.log".to_string(), Vec::new()));
    let levels = load_existing_sstables(files);
    assert_eq!(levels.len(), 7);
    assert!(levels[0].is_empty());
    let seqs: Vec<u64> = levels[1].iter().map(|t| t.meta.sequence).collect();
    assert_eq!(seqs, vec![2, 5, 9]);
    assert_eq!(levels[1][0].meta.min_key, b"k".to_vec());
    assert_eq!(levels[1][0].meta.level, 1);
}

fn block_entry(key: &[u8], value: &[u8], tombstone: bool) -> Vec<u8> {
    let mut kv = key.to_vec();
    kv.extend_from_slice(value);
    let mut e = (key.len() as u32).to_be_bytes().to_vec();
    e.extend_from_slice(&(value.len() as u32).to_be_bytes());
    e.push(if tombstone { 1 } else { 0 });
    e.extend_from_slice(&crc32(&kv).to_be_bytes());
    e.extend_from_slice(&kv);
    e
}

#[test]
fn cached_block_lookup() {
    let mut block = block_entry(b"a", b"xy", false);
    block.extend(block_entry(b"c", b"z", false));
    block.extend(block_entry(b"d", b"", true));
    assert_eq!(get_from_data(&block, b"a"), Some(Value::Data(b"xy".to_vec())));
    assert_eq!(get_from_data(&block, b"b"), None);
    assert_eq!(get_from_data(&block, b"c"), Some(Value::Data(b"z".to_vec())));
    assert_eq!(get_from_data(&block, b"d"), Some(Value::Tombstone));
    assert_eq!(get_from_data(&block, b"e"), None);
    // an entry whose checksum fails answers nothing, so the table is asked
    let mut bad = block.clone();
    bad[9] ^= 0xff;
    assert_eq!(get_from_data(&bad, b"a"), None);
    // entries with nine-byte headers are not this block format
    let nine = vec![0, 0, 0, 1, 0, 0, 0, 2, 0, b'a', b'x', b'y'];
    assert_eq!(get_from_data(&nine, b"a"), None);
}

#[test]
fn loading_keeps_a_table_whose_filter_has_no_bits() {
    let entries = vec![(b"k".to_vec(), Value::Data(b"v".to_vec()))];
    let name = table_file_name(2, 7);
    let (_m, mut img) = write_sstable(name.clone(), &entries, 2, 7, false, 3, &recovery_sizer).unwrap();
    // set the filter's bit count (the first field of the filter block) to zero
    let n = img.len();
    let mut off = [0u8; 8];
    off.copy_from_slice(&img[n - 32..n - 24]);
    let bloom_offset = u64::from_be_bytes(off) as usize;
    for b in &mut img[bloom_offset..bloom_offset + 8] {
        *b = 0;
    }
    let levels = load_existing_sstables(vec![(name, img)]);
    assert_eq!(levels[2].len(), 1);
    assert_eq!(levels[2][0].meta.sequence, 7);
    assert_eq!(levels[2][0].meta.min_key, b"k".to_vec());
}
