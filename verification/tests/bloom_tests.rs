use lsm5::bloom::BloomFilter;

/// A filter sized for `capacity` keys at the false-positive rate `fpr`.
fn sized_filter(capacity: usize, fpr: f64) -> BloomFilter {
    let ln2 = std::f64::consts::LN_2;
    let bits = (-(capacity as f64 * fpr.ln()) / (ln2 * ln2)) as usize;
    let bits = bits.max(64);
    let hashes = ((bits as f64 / capacity as f64) * ln2).round() as usize;
    BloomFilter::with_params(bits, hashes.max(1))
}

#[test]
fn test_bloom_no_false_negatives() {
    let mut bf = sized_filter(1000, 0.01);
    let keys: Vec<Vec<u8>> = (0..500).map(|i| format!("key-{}", i).into_bytes()).collect();
    for k in &keys {
        bf.insert(k);
    }
    for k in &keys {
        assert!(bf.may_contain(k), "False negative for {:?}", k);
    }
}

#[test]
fn test_bloom_fpr_reasonable() {
    let mut bf = sized_filter(1000, 0.01);
    for i in 0..1000u32 {
        bf.insert(&i.to_le_bytes());
    }
    let mut fp = 0;
    for i in 1000..11000u32 {
        if bf.may_contain(&i.to_le_bytes()) {
            fp += 1;
        }
    }
    assert!(fp < 500, "Too many false positives: {}", fp);
}

#[test]
fn test_bloom_empty() {
    let bf = sized_filter(100, 0.01);
    assert!(!bf.may_contain(b"any_key"));
}

#[test]
fn test_bloom_single_item() {
    let mut bf = sized_filter(10, 0.01);
    bf.insert(b"only_key");
    assert!(bf.may_contain(b"only_key"));
    assert!(!bf.may_contain(b"other_key"));
}

#[test]
fn test_bloom_from_raw() {
    let mut bf = sized_filter(100, 0.01);
    bf.insert(b"testkey");
    let bits = bf.raw_bits().to_vec();
    let num_bits = bf.num_bits();
    let num_hashes = bf.num_hashes();
    let bf2 = BloomFilter::from_raw(bits, num_bits, num_hashes);
    assert!(bf2.may_contain(b"testkey"));
}

#[test]
fn bloom_params_are_clamped() {
    let bf = BloomFilter::with_params(10, 0);
    assert_eq!(bf.num_bits(), 64);
    assert_eq!(bf.num_hashes(), 1);
    assert_eq!(bf.raw_bits().len(), 1);
    let bf = BloomFilter::with_params(130, 3);
    assert_eq!(bf.num_bits(), 130);
    assert_eq!(bf.num_hashes(), 3);
    assert_eq!(bf.raw_bits().len(), 3);
    assert!(bf.raw_bits().iter().all(|w| *w == 0));
}

#[test]
fn bloom_insert_sets_bits() {
    let mut bf = BloomFilter::with_params(64, 1);
    bf.insert(b"x");
    assert_eq!(bf.raw_bits()[0].count_ones(), 1);
}

#[test]
fn bloom_zero_probes_admits_everything() {
    let bf = BloomFilter::from_raw(vec![0], 64, 0);
    assert!(bf.may_contain(b"anything"));
}
