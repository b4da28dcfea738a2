//! What reading a table gives back of what writing it stored.
use vstd::prelude::*;
use crate::order::{lex_lt, lemma_lex_order_facts};
use crate::entries::{Entry, keys_sorted, has_key, key_pos, entries_map, run_keys, lemma_sorted_lookup};
use crate::codec::{be32, be64, le64, from_be32, from_be64, from_le64, spec_crc32, lemma_be32_roundtrip,
    lemma_be64_roundtrip, lemma_le64_roundtrip};
use crate::sstable::{stored_value, tomb_flag, entry_bytes, data_block, scan_all_spec, scan_spec, index_block,
    index_entry_bytes, index_of, lemma_index_block_step, parse_index, words_bytes, words_for, parse_bloom,
    bloom_block, footer, table_image, stored_data, compresses, spec_open, ReaderModel, MAGIC, bsearch,
    index_keys, spec_get, bloom_after};
use crate::bloom::{spec_may_contain, spec_insert, lemma_no_false_negatives, lemma_insert_monotone, lemma_insert_len};
use crate::compress::{zstd_frame, spec_zstd_decode};
use crate::transaction::entry_of;

verus! {

/// Every key and value of a run is shorter than 4 GiB (the width of the length fields).
pub open spec fn lengths_fit(s: Seq<Entry>) -> bool {
    forall|i: int| 0 <= i < s.len() ==> (#[trigger] s[i]).0.len() < 0x1_0000_0000 && stored_value(s[i].1).len() < 0x1_0000_0000
}

/// The data block of a run is the blocks of its two halves.
pub proof fn lemma_block_split(s: Seq<Entry>, i: int)
    requires
        0 <= i <= s.len(),
    ensures
        data_block(s) == data_block(s.take(i)) + data_block(s.skip(i)),
    decreases s.len(),
{
    if i == s.len() {
        assert(s.take(i) =~= s);
        assert(s.skip(i) =~= Seq::<Entry>::empty());
        assert(data_block(s) + Seq::<u8>::empty() =~= data_block(s));
    } else {
        let d = s.drop_last();
        lemma_block_split(d, i);
        assert(d.take(i) =~= s.take(i));
        assert(s.skip(i).drop_last() =~= d.skip(i));
        assert(s.skip(i).last() == s.last());
        assert(data_block(s) =~= data_block(s.take(i)) + data_block(s.skip(i)));
    }
}

/// The data block of a run is its first entry, then the block of the rest.
pub proof fn lemma_block_front(t: Seq<Entry>)
    requires
        t.len() > 0,
    ensures
        data_block(t) == entry_bytes(t[0]) + data_block(t.drop_first()),
    decreases t.len(),
{
    if t.len() == 1 {
        assert(t.drop_last() =~= Seq::<Entry>::empty());
        assert(t.drop_first() =~= Seq::<Entry>::empty());
        assert(data_block(t) =~= entry_bytes(t[0]) + data_block(t.drop_first()));
    } else {
        let d = t.drop_last();
        lemma_block_front(d);
        assert(d.drop_first() =~= t.drop_first().drop_last());
        assert(t.drop_first().last() == t.last());
        assert(data_block(t) =~= entry_bytes(t[0]) + data_block(t.drop_first()));
    }
}

/// The block of a run is the prefix before entry `i`, entry `i`, and the rest.
pub proof fn lemma_block_at(s: Seq<Entry>, i: int)
    requires
        0 <= i < s.len(),
    ensures
        data_block(s) == data_block(s.take(i)) + entry_bytes(s[i]) + data_block(s.skip(i + 1)),
        data_block(s.take(i + 1)) == data_block(s.take(i)) + entry_bytes(s[i]),
{
    lemma_block_split(s, i);
    lemma_block_front(s.skip(i));
    assert(s.skip(i).drop_first() =~= s.skip(i + 1));
    assert(s.take(i + 1).drop_last() =~= s.take(i));
    assert(data_block(s) =~= data_block(s.take(i)) + entry_bytes(s[i]) + data_block(s.skip(i + 1)));
}

/// The fields of an entry's bytes, read back at its position.
pub proof fn lemma_entry_fields(d: Seq<u8>, pos: int, e: Entry)
    requires
        0 <= pos,
        pos + entry_bytes(e).len() <= d.len(),
        d.subrange(pos, pos + entry_bytes(e).len()) == entry_bytes(e),
        e.0.len() < 0x1_0000_0000,
        stored_value(e.1).len() < 0x1_0000_0000,
    ensures
        entry_bytes(e).len() == 13 + e.0.len() + stored_value(e.1).len(),
        from_be32(d.subrange(pos, pos + 4)) as int == e.0.len(),
        from_be32(d.subrange(pos + 4, pos + 8)) as int == stored_value(e.1).len(),
        d[pos + 8] == tomb_flag(e.1),
        from_be32(d.subrange(pos + 9, pos + 13)) == spec_crc32(e.0 + stored_value(e.1)),
        d.subrange(pos + 13, pos + 13 + e.0.len()) == e.0,
        d.subrange(pos + 13 + e.0.len(), pos + 13 + e.0.len() + stored_value(e.1).len()) == stored_value(e.1),
{
    let k = e.0;
    let v = stored_value(e.1);
    let b = entry_bytes(e);
    let n = k.len() as int;
    let m = v.len() as int;
    let kl = k.len() as u32;
    let vl = v.len() as u32;
    lemma_be32_roundtrip(kl);
    lemma_be32_roundtrip(vl);
    lemma_be32_roundtrip(spec_crc32(k + v));
    assert(b.len() == 13 + k.len() + v.len());
    assert(d.subrange(pos, pos + 4) =~= b.subrange(0, 4));
    assert(b.subrange(0, 4) =~= be32(kl));
    assert(d.subrange(pos + 4, pos + 8) =~= b.subrange(4, 8));
    assert(b.subrange(4, 8) =~= be32(vl));
    assert(d[pos + 8] == b[8]);
    assert(d.subrange(pos + 9, pos + 13) =~= b.subrange(9, 13));
    assert(b.subrange(9, 13) =~= be32(spec_crc32(k + v)));
    assert(d.subrange(pos + 13, pos + 13 + n) =~= b.subrange(13, 13 + n));
    assert(b.subrange(13, 13 + n) =~= k);
    assert(d.subrange(pos + 13 + n, pos + 13 + n + m) =~= b.subrange(13 + n, 13 + n + m));
    assert(b.subrange(13 + n, 13 + n + m) =~= v);
}

/// The offset of entry `i` in the block of a run.
pub open spec fn offset_of(s: Seq<Entry>, i: int) -> int {
    data_block(s.take(i)).len() as int
}

/// Where entry `i` sits in the block, and where the next one starts.
pub proof fn lemma_entry_in_block(s: Seq<Entry>, i: int)
    requires
        0 <= i < s.len(),
        lengths_fit(s),
    ensures
        offset_of(s, i + 1) == offset_of(s, i) + 13 + s[i].0.len() + stored_value(s[i].1).len(),
        offset_of(s, i + 1) <= data_block(s).len(),
        data_block(s).subrange(offset_of(s, i), offset_of(s, i) + entry_bytes(s[i]).len()) == entry_bytes(s[i]),
        from_be32(data_block(s).subrange(offset_of(s, i), offset_of(s, i) + 4)) as int == s[i].0.len(),
        from_be32(data_block(s).subrange(offset_of(s, i) + 4, offset_of(s, i) + 8)) as int == stored_value(s[i].1).len(),
        data_block(s)[offset_of(s, i) + 8] == tomb_flag(s[i].1),
        from_be32(data_block(s).subrange(offset_of(s, i) + 9, offset_of(s, i) + 13)) == spec_crc32(s[i].0 + stored_value(s[i].1)),
        data_block(s).subrange(offset_of(s, i) + 13, offset_of(s, i) + 13 + s[i].0.len()) == s[i].0,
        data_block(s).subrange(offset_of(s, i) + 13 + s[i].0.len(), offset_of(s, i + 1)) == stored_value(s[i].1),
{
    lemma_block_at(s, i);
    let d = data_block(s);
    let p = offset_of(s, i);
    let eb = entry_bytes(s[i]);
    assert(d.subrange(p, p + eb.len()) =~= eb);
    lemma_entry_fields(d, p, s[i]);
}

/// The offset of the end of the block is its length.
pub proof fn lemma_offset_end(s: Seq<Entry>)
    ensures
        offset_of(s, s.len() as int) == data_block(s).len(),
{
    assert(s.take(s.len() as int) =~= s);
}

/// Scanning a run's block from entry `i` gives back entries `i..`.
pub proof fn lemma_scan_all_from(s: Seq<Entry>, i: int)
    requires
        0 <= i <= s.len(),
        lengths_fit(s),
    ensures
        scan_all_spec(data_block(s), offset_of(s, i)) == s.skip(i),
    decreases s.len() - i,
{
    let d = data_block(s);
    if i == s.len() {
        lemma_offset_end(s);
        assert(s.skip(i) =~= Seq::<Entry>::empty());
    } else {
        lemma_entry_in_block(s, i);
        lemma_scan_all_from(s, i + 1);
        let p = offset_of(s, i);
        let e = s[i];
        let k = e.0;
        let v = stored_value(e.1);
        let got: Entry = (k, if d[p + 8] == 1 { None } else { Some(v) });
        assert(got == e) by {
            match e.1 {
                Some(x) => {},
                None => {},
            }
        }
        assert(s.skip(i) =~= seq![e] + s.skip(i + 1));
    }
}

/// Scanning the whole block of a run gives back the run.
pub proof fn lemma_scan_all_roundtrip(s: Seq<Entry>)
    requires
        lengths_fit(s),
    ensures
        scan_all_spec(data_block(s), 0) == s,
{
    lemma_scan_all_from(s, 0);
    assert(s.take(0) =~= Seq::<Entry>::empty());
    assert(s.skip(0) =~= s);
}

/// Scanning for `key` from the entry at `i` that holds it finds it.
pub proof fn lemma_scan_finds(s: Seq<Entry>, i: int, end: int, key: Seq<u8>)
    requires
        0 <= i < s.len(),
        lengths_fit(s),
        s[i].0 == key,
        offset_of(s, i) < end,
    ensures
        scan_spec(data_block(s), offset_of(s, i), end, key) == Ok::<Option<Option<Seq<u8>>>, int>(Some(s[i].1)),
{
    lemma_entry_in_block(s, i);
    let d = data_block(s);
    let p = offset_of(s, i);
    let v = stored_value(s[i].1);
    match s[i].1 {
        Some(x) => {},
        None => {},
    }
}

/// Scanning for an absent `key` from the entry just before where it would
/// sit stops without finding it.
pub proof fn lemma_scan_misses(s: Seq<Entry>, i: int, key: Seq<u8>)
    requires
        0 <= i < s.len(),
        lengths_fit(s),
        lex_lt(s[i].0, key),
        i + 1 < s.len() ==> lex_lt(key, s[i + 1].0),
    ensures
        scan_spec(data_block(s), offset_of(s, i),
            if i + 1 < s.len() { offset_of(s, i + 1) } else { data_block(s).len() as int }, key)
            == Ok::<Option<Option<Seq<u8>>>, int>(None),
{
    lemma_lex_order_facts();
    lemma_entry_in_block(s, i);
    let d = data_block(s);
    let p = offset_of(s, i);
    let end = if i + 1 < s.len() { offset_of(s, i + 1) } else { d.len() as int };
    let q = offset_of(s, i + 1);
    assert(s[i].0 != key);
    assert(!lex_lt(key, s[i].0));
    if i + 1 == s.len() {
        lemma_offset_end(s);
    }
    assert(scan_spec(d, q, end, key) == Ok::<Option<Option<Seq<u8>>>, int>(None));
}

/// Scanning for `key` past an entry whose key comes before it goes on to the
/// next entry.
pub proof fn lemma_scan_skips(s: Seq<Entry>, i: int, end: int, key: Seq<u8>)
    requires
        0 <= i < s.len(),
        lengths_fit(s),
        lex_lt(s[i].0, key),
        offset_of(s, i) < end,
    ensures
        scan_spec(data_block(s), offset_of(s, i), end, key) == scan_spec(data_block(s), offset_of(s, i + 1), end, key),
{
    lemma_lex_order_facts();
    lemma_entry_in_block(s, i);
    assert(s[i].0 != key);
    assert(!lex_lt(key, s[i].0));
    match s[i].1 {
        Some(x) => {},
        None => {},
    }
}

/// Scanning a sorted run's whole block for `key` from entry `i`, when every
/// entry before `i` comes before `key`, gives the run's entry for `key`.
pub proof fn lemma_block_lookup_from(s: Seq<Entry>, i: int, key: Seq<u8>)
    requires
        keys_sorted(s),
        lengths_fit(s),
        0 <= i <= s.len(),
        forall|a: int| 0 <= a < i ==> lex_lt(#[trigger] s[a].0, key),
    ensures
        scan_spec(data_block(s), offset_of(s, i), data_block(s).len() as int, key)
            == Ok::<Option<Option<Seq<u8>>>, int>(entry_of(entries_map(s), key)),
    decreases s.len() - i,
{
    lemma_lex_order_facts();
    let d = data_block(s);
    if i == s.len() {
        lemma_offset_end(s);
        if has_key(s, key) {
            let j = key_pos(s, key);
            assert(lex_lt(s[j].0, key));
        }
    } else {
        lemma_entry_in_block(s, i);
        if s[i].0 == key {
            lemma_scan_finds(s, i, d.len() as int, key);
            lemma_sorted_lookup(s, i);
        } else if lex_lt(key, s[i].0) {
            if has_key(s, key) {
                let j = key_pos(s, key);
                if j < i {
                    assert(lex_lt(s[j].0, key));
                } else if j > i {
                    assert(lex_lt(s[i].0, s[j].0));
                }
            }
            match s[i].1 {
                Some(x) => {},
                None => {},
            }
            assert(scan_spec(d, offset_of(s, i), d.len() as int, key) == Ok::<Option<Option<Seq<u8>>>, int>(None));
        } else {
            assert(lex_lt(s[i].0, key));
            lemma_scan_skips(s, i, d.len() as int, key);
            lemma_block_lookup_from(s, i + 1, key);
        }
    }
}

/// Scanning a sorted run's whole block for `key` gives the run's entry for it.
pub proof fn lemma_block_lookup(s: Seq<Entry>, key: Seq<u8>)
    requires
        keys_sorted(s),
        lengths_fit(s),
    ensures
        scan_spec(data_block(s), 0, data_block(s).len() as int, key)
            == Ok::<Option<Option<Seq<u8>>>, int>(entry_of(entries_map(s), key)),
{
    lemma_block_lookup_from(s, 0, key);
    assert(s.take(0) =~= Seq::<Entry>::empty());
}

/// On a sorted index the binary search lands on the first key not before `key`.
pub proof fn lemma_bsearch_sorted(keys: Seq<Seq<u8>>, key: Seq<u8>, lo: int, hi: int)
    requires
        forall|a: int, b: int| 0 <= a < b < keys.len() ==> lex_lt(#[trigger] keys[a], #[trigger] keys[b]),
        0 <= lo <= hi <= keys.len(),
        forall|a: int| 0 <= a < lo ==> lex_lt(#[trigger] keys[a], key),
        forall|a: int| hi <= a < keys.len() ==> !lex_lt(#[trigger] keys[a], key),
    ensures
        lo <= bsearch(keys, key, lo, hi) <= hi,
        forall|a: int| 0 <= a < bsearch(keys, key, lo, hi) ==> lex_lt(#[trigger] keys[a], key),
        forall|a: int| bsearch(keys, key, lo, hi) <= a < keys.len() ==> !lex_lt(#[trigger] keys[a], key),
    decreases hi - lo,
{
    lemma_lex_order_facts();
    if lo < hi {
        let mid = lo + (hi - lo) / 2;
        if lex_lt(keys[mid], key) {
            assert forall|a: int| 0 <= a < mid + 1 implies lex_lt(#[trigger] keys[a], key) by {
                if a < mid {
                    assert(lex_lt(keys[a], keys[mid]));
                }
            }
            lemma_bsearch_sorted(keys, key, mid + 1, hi);
        } else {
            assert forall|a: int| mid <= a < keys.len() implies !lex_lt(#[trigger] keys[a], key) by {
                if a > mid {
                    assert(lex_lt(keys[mid], keys[a]));
                }
            }
            lemma_bsearch_sorted(keys, key, lo, mid);
        }
    }
}

/// Every key inserted into a filter is reported as possibly present.
pub proof fn lemma_bloom_after_has_keys(bits: Seq<u64>, keys: Seq<Seq<u8>>, n: nat, m: nat)
    requires
        m > 0,
        (m - 1) / 64 < bits.len(),
    ensures
        bloom_after(bits, keys, n, m).len() == bits.len(),
        forall|i: int| 0 <= i < keys.len() ==> spec_may_contain(bloom_after(bits, keys, n, m), #[trigger] keys[i], n, m),
    decreases keys.len(),
{
    if keys.len() > 0 {
        let d = keys.drop_last();
        lemma_bloom_after_has_keys(bits, d, n, m);
        let b = bloom_after(bits, d, n, m);
        lemma_insert_len(b, keys.last(), n, m);
        lemma_no_false_negatives(b, keys.last(), n, m);
        assert forall|i: int| 0 <= i < keys.len() implies spec_may_contain(bloom_after(bits, keys, n, m), #[trigger] keys[i], n, m) by {
            if i < keys.len() - 1 {
                assert(keys[i] == d[i]);
                lemma_insert_monotone(b, keys.last(), keys[i], n, m);
            }
        }
    }
}

/// The index block of a prefix of a run is a prefix of the run's index block.
pub proof fn lemma_index_prefix(s: Seq<Entry>, j: int)
    requires
        0 <= j <= s.len(),
    ensures
        index_block(s.take(j)).len() <= index_block(s).len(),
        index_block(s).subrange(0, index_block(s.take(j)).len() as int) == index_block(s.take(j)),
    decreases s.len(),
{
    if j == s.len() {
        assert(s.take(j) =~= s);
        assert(index_block(s).subrange(0, index_block(s).len() as int) =~= index_block(s));
    } else {
        let d = s.drop_last();
        lemma_index_prefix(d, j);
        assert(d.take(j) =~= s.take(j));
        assert(index_block(s) == index_block(d) + index_entry_bytes(s.last().0, data_block(d).len() as u64));
        assert(index_block(s).subrange(0, index_block(s.take(j)).len() as int) =~= index_block(s.take(j)));
    }
}

/// Index entry `i` of a run sits right after the index block of the prefix before it.
pub proof fn lemma_index_entry_at(s: Seq<Entry>, i: int)
    requires
        0 <= i < s.len(),
    ensures
        index_block(s.take(i + 1)).len() == index_block(s.take(i)).len()
            + index_entry_bytes(s[i].0, data_block(s.take(i)).len() as u64).len(),
        index_block(s.take(i + 1)).len() <= index_block(s).len(),
        index_block(s).subrange(index_block(s.take(i)).len() as int, index_block(s.take(i + 1)).len() as int)
            == index_entry_bytes(s[i].0, data_block(s.take(i)).len() as u64),
{
    lemma_index_block_step(s, i);
    lemma_index_prefix(s, i + 1);
    let ib = index_block(s);
    let a = index_block(s.take(i));
    let ie = index_entry_bytes(s[i].0, data_block(s.take(i)).len() as u64);
    let l1 = index_block(s.take(i + 1)).len() as int;
    assert(ib.subrange(0, l1) == a + ie);
    assert(ib.subrange(a.len() as int, l1) =~= (a + ie).subrange(a.len() as int, l1));
    assert((a + ie).subrange(a.len() as int, l1) =~= ie);
}

/// The fields of an index entry's bytes, read back at its position.
pub proof fn lemma_index_entry_decode(img: Seq<u8>, pos: int, k: Seq<u8>, off: u64)
    requires
        0 <= pos,
        pos + index_entry_bytes(k, off).len() <= img.len(),
        img.subrange(pos, pos + index_entry_bytes(k, off).len()) == index_entry_bytes(k, off),
        k.len() < 0x1_0000_0000,
    ensures
        index_entry_bytes(k, off).len() == 12 + k.len(),
        from_be32(img.subrange(pos, pos + 4)) as int == k.len(),
        img.subrange(pos + 4, pos + 4 + k.len()) == k,
        from_be64(img.subrange(pos + 4 + k.len(), pos + 12 + k.len())) == off,
{
    let ie = index_entry_bytes(k, off);
    let kl = k.len() as u32;
    lemma_be32_roundtrip(kl);
    lemma_be64_roundtrip(off);
    let n = k.len() as int;
    assert(img.subrange(pos, pos + 4) =~= ie.subrange(0, 4));
    assert(ie.subrange(0, 4) =~= be32(kl));
    assert(img.subrange(pos + 4, pos + 4 + n) =~= ie.subrange(4, 4 + n));
    assert(ie.subrange(4, 4 + n) =~= k);
    assert(img.subrange(pos + 4 + n, pos + 12 + n) =~= ie.subrange(4 + n, 12 + n));
    assert(ie.subrange(4 + n, 12 + n) =~= be64(off));
}

/// Where the index entries of a run sit, they parse back to the run's index.
pub proof fn lemma_parse_index_from(img: Seq<u8>, io: int, s: Seq<Entry>, i: int)
    requires
        0 <= io,
        io + index_block(s).len() <= img.len(),
        img.subrange(io, io + index_block(s).len()) == index_block(s),
        0 <= i <= s.len(),
        lengths_fit(s),
    ensures
        parse_index(img, io + index_block(s.take(i)).len(), io + index_block(s).len())
            == Some(index_of(s).skip(i)),
    decreases s.len() - i,
{
    let end = io + index_block(s).len();
    let pos = io + index_block(s.take(i)).len();
    if i == s.len() {
        assert(s.take(i) =~= s);
        assert(index_of(s).skip(i) =~= Seq::<(Seq<u8>, u64)>::empty());
    } else {
        lemma_index_entry_at(s, i);
        lemma_parse_index_from(img, io, s, i + 1);
        let k = s[i].0;
        let off = data_block(s.take(i)).len() as u64;
        let ie = index_entry_bytes(k, off);
        let pi = index_block(s.take(i)).len() as int;
        let l1 = index_block(s.take(i + 1)).len() as int;
        assert(img.subrange(pos, pos + ie.len()) =~= index_block(s).subrange(pi, l1));
        lemma_index_entry_decode(img, pos, k, off);
        assert(index_of(s)[i] == (k, off));
        assert(index_of(s).skip(i) =~= seq![(k, off)] + index_of(s).skip(i + 1));
    }
}

/// The words of a bit array, read back.
pub proof fn lemma_words_bytes(bits: Seq<u64>, i: int)
    requires
        0 <= i < bits.len(),
    ensures
        words_bytes(bits).len() == 8 * bits.len(),
        words_bytes(bits).subrange(8 * i, 8 * i + 8) == le64(bits[i]),
    decreases bits.len(),
{
    lemma_words_len(bits);
    let d = bits.drop_last();
    lemma_words_len(d);
    lemma_le64_roundtrip(bits.last());
    if i < bits.len() - 1 {
        lemma_words_bytes(d, i);
        assert(words_bytes(bits).subrange(8 * i, 8 * i + 8) =~= words_bytes(d).subrange(8 * i, 8 * i + 8));
    } else {
        assert(words_bytes(bits).subrange(8 * i, 8 * i + 8) =~= le64(bits.last()));
    }
}

/// A bit array's words take eight bytes each.
pub proof fn lemma_words_len(bits: Seq<u64>)
    ensures
        words_bytes(bits).len() == 8 * bits.len(),
    decreases bits.len(),
{
    if bits.len() > 0 {
        lemma_words_len(bits.drop_last());
        lemma_le64_roundtrip(bits.last());
    }
}

/// Where a filter block sits, it parses back to the filter.
pub proof fn lemma_parse_bloom(img: Seq<u8>, bo: int, nb: nat, nh: nat, bits: Seq<u64>)
    requires
        0 <= bo,
        nb <= usize::MAX,
        nh <= usize::MAX,
        bits.len() == words_for(nb),
        bo + bloom_block(nb as u64, nh as u64, bits).len() <= img.len(),
        img.subrange(bo, bo + bloom_block(nb as u64, nh as u64, bits).len()) == bloom_block(nb as u64, nh as u64, bits),
    ensures
        parse_bloom(img, bo) == Some((nb, nh, bits)),
{
    let bb = bloom_block(nb as u64, nh as u64, bits);
    lemma_be64_roundtrip(nb as u64);
    lemma_be64_roundtrip(nh as u64);
    lemma_words_len(bits);
    assert(img.subrange(bo, bo + 8) =~= bb.subrange(0, 8));
    assert(bb.subrange(0, 8) =~= be64(nb as u64));
    assert(img.subrange(bo + 8, bo + 16) =~= bb.subrange(8, 16));
    assert(bb.subrange(8, 16) =~= be64(nh as u64));
    let got = Seq::new(words_for(nb), |i: int| from_le64(img.subrange(bo + 16 + 8 * i, bo + 24 + 8 * i)));
    assert forall|i: int| 0 <= i < bits.len() implies #[trigger] got[i] == bits[i] by {
        lemma_words_bytes(bits, i);
        lemma_le64_roundtrip(bits[i]);
        let wb = words_bytes(bits);
        assert(bb == be64(nb as u64) + be64(nh as u64) + wb);
        assert(img.subrange(bo + 16 + 8 * i, bo + 24 + 8 * i) =~= bb.subrange(16 + 8 * i, 24 + 8 * i));
        assert(bb.subrange(16 + 8 * i, 24 + 8 * i) =~= wb.subrange(8 * i, 8 * i + 8));
    }
    assert(got =~= bits);
}

/// The five words of a footer, read back.
pub proof fn lemma_footer_decode(img: Seq<u8>, f: int, io: u64, bo: u64, dl: u64, cl: u64)
    requires
        0 <= f,
        f + 40 <= img.len(),
        img.subrange(f, f + 40) == footer(io, bo, dl, cl),
    ensures
        from_be64(img.subrange(f, f + 8)) == io,
        from_be64(img.subrange(f + 8, f + 16)) == bo,
        from_be64(img.subrange(f + 16, f + 24)) == dl,
        from_be64(img.subrange(f + 24, f + 32)) == cl,
        from_be64(img.subrange(f + 32, f + 40)) == MAGIC,
{
    let ft = footer(io, bo, dl, cl);
    lemma_be64_roundtrip(io);
    lemma_be64_roundtrip(bo);
    lemma_be64_roundtrip(dl);
    lemma_be64_roundtrip(cl);
    lemma_be64_roundtrip(MAGIC);
    assert(img.subrange(f, f + 8) =~= ft.subrange(0, 8));
    assert(ft.subrange(0, 8) =~= be64(io));
    assert(img.subrange(f + 8, f + 16) =~= ft.subrange(8, 16));
    assert(ft.subrange(8, 16) =~= be64(bo));
    assert(img.subrange(f + 16, f + 24) =~= ft.subrange(16, 24));
    assert(ft.subrange(16, 24) =~= be64(dl));
    assert(img.subrange(f + 24, f + 32) =~= ft.subrange(24, 32));
    assert(ft.subrange(24, 32) =~= be64(cl));
    assert(img.subrange(f + 32, f + 40) =~= ft.subrange(32, 40));
    assert(ft.subrange(32, 40) =~= be64(MAGIC));
}

/// The four parts of a concatenation, found again by position.
pub proof fn lemma_four_parts(a: Seq<u8>, b: Seq<u8>, c: Seq<u8>, d: Seq<u8>)
    ensures
        (a + b + c + d).subrange(0, a.len() as int) == a,
        (a + b + c + d).subrange(a.len() as int, (a.len() + b.len()) as int) == b,
        (a + b + c + d).subrange((a.len() + b.len()) as int, (a.len() + b.len() + c.len()) as int) == c,
        (a + b + c + d).subrange((a.len() + b.len() + c.len()) as int, (a.len() + b.len() + c.len() + d.len()) as int) == d,
{
    let x = a + b + c + d;
    assert(x.subrange(0, a.len() as int) =~= a);
    assert(x.subrange(a.len() as int, (a.len() + b.len()) as int) =~= b);
    assert(x.subrange((a.len() + b.len()) as int, (a.len() + b.len() + c.len()) as int) =~= c);
    assert(x.subrange((a.len() + b.len() + c.len()) as int, (a.len() + b.len() + c.len() + d.len()) as int) =~= d);
}

/// Opening the bytes that the writer made gives back the run's index, its
/// filter and its data block, provided the lengths fit their fields and,
/// when the block was compressed, the compressed block's length differs from
/// the raw one (the reader tells the two apart by length alone).
#[verifier::rlimit(50)]
pub proof fn lemma_open_roundtrip(s: Seq<Entry>, nb: nat, nh: nat, bits: Seq<u64>, enabled: bool, level: i32)
    requires
        lengths_fit(s),
        nb <= usize::MAX,
        nh <= usize::MAX,
        bits.len() == words_for(nb),
        table_image(s, nb as u64, nh as u64, bits, enabled, level).len() <= usize::MAX,
        data_block(s).len() <= usize::MAX,
        compresses(data_block(s), enabled) ==> {
            &&& spec_zstd_decode(zstd_frame(data_block(s), level)) == Some(data_block(s))
            &&& zstd_frame(data_block(s), level).len() != data_block(s).len()
        },
    ensures
        spec_open(table_image(s, nb as u64, nh as u64, bits, enabled, level)) == Ok::<ReaderModel, crate::sstable::OpenFault>(ReaderModel {
            index: index_of(s),
            bits,
            nb,
            nh,
            data_len: data_block(s).len() as u64,
            compressed_len: stored_data(data_block(s), enabled, level).len() as u64,
            data: data_block(s),
        }),
{
    let raw = data_block(s);
    let stored = stored_data(raw, enabled, level);
    let cl = stored.len() as u64;
    let ib = index_block(s);
    let bb = bloom_block(nb as u64, nh as u64, bits);
    let bo = (cl + ib.len()) as u64;
    let ft = footer(cl, bo, raw.len() as u64, cl);
    let img = table_image(s, nb as u64, nh as u64, bits, enabled, level);
    assert(img == stored + ib + bb + ft);
    lemma_words_len(bits);
    assert(ft.len() == 40) by {
        lemma_be64_roundtrip(cl);
    }
    lemma_four_parts(stored, ib, bb, ft);
    let f = img.len() - 40;
    assert(f == stored.len() + ib.len() + bb.len());
    lemma_footer_decode(img, f, cl, bo, raw.len() as u64, cl);
    // index
    assert(img.subrange(cl as int, cl + ib.len()) =~= ib);
    lemma_parse_index_from(img, cl as int, s, 0);
    assert(s.take(0) =~= Seq::<Entry>::empty());
    assert(index_block(s.take(0)).len() == 0);
    assert(index_of(s).skip(0) =~= index_of(s));
    // filter
    assert(img.subrange(bo as int, bo + bb.len()) =~= bb);
    lemma_parse_bloom(img, bo as int, nb, nh, bits);
}

/// A point lookup on an opened table whose run is sorted gives the run's
/// entry for the key, or `None` when the run has none.
pub proof fn lemma_get_roundtrip(m: ReaderModel, s: Seq<Entry>, key: Seq<u8>)
    requires
        keys_sorted(s),
        lengths_fit(s),
        data_block(s).len() <= usize::MAX,
        m.index == index_of(s),
        m.data == data_block(s),
        forall|i: int| 0 <= i < s.len() ==> spec_may_contain(m.bits, #[trigger] s[i].0, m.nh, m.nb),
    ensures
        spec_get(m, key) == Ok::<Option<Option<Seq<u8>>>, int>(
            if entries_map(s).contains_key(key) { Some(entries_map(s)[key]) } else { None }),
{
    lemma_lex_order_facts();
    let keys = index_keys(m.index);
    assert(keys.len() == s.len());
    assert forall|i: int| 0 <= i < s.len() implies #[trigger] keys[i] == s[i].0 by {}
    if !spec_may_contain(m.bits, key, m.nh, m.nb) {
        if has_key(s, key) {
            let i = key_pos(s, key);
            assert(spec_may_contain(m.bits, s[i].0, m.nh, m.nb));
        }
    } else {
        assert forall|a: int, b: int| 0 <= a < b < keys.len() implies lex_lt(#[trigger] keys[a], #[trigger] keys[b]) by {
            assert(lex_lt(s[a].0, s[b].0));
        }
        lemma_bsearch_sorted(keys, key, 0, keys.len() as int);
        let j = bsearch(keys, key, 0, keys.len() as int);
        let found = j < keys.len() && keys[j] == key;
        let d = data_block(s);
        if found {
            lemma_sorted_lookup(s, j);
            lemma_entry_in_block(s, j);
            let end = if j + 1 < s.len() { offset_of(s, j + 1) } else { d.len() as int };
            if j + 1 < s.len() {
                lemma_entry_in_block(s, j + 1);
            }
            assert((m.index[j].1 as usize) as int == offset_of(s, j));
            if j + 1 < s.len() {
                assert((m.index[j + 1].1 as usize) as int == offset_of(s, j + 1));
            }
            lemma_scan_finds(s, j, end, key);
        } else {
            assert(!has_key(s, key)) by {
                if has_key(s, key) {
                    let i = key_pos(s, key);
                    if i < j {
                        assert(lex_lt(keys[i], key));
                    } else if i > j {
                        assert(lex_lt(keys[j], keys[i]));
                    }
                }
            }
            if j > 0 {
                let i = j - 1;
                assert(lex_lt(keys[i], key));
                if j < keys.len() {
                    assert(!lex_lt(keys[j], key));
                    assert(lex_lt(key, keys[j]));
                    lemma_entry_in_block(s, j);
                    assert((m.index[j].1 as usize) as int == offset_of(s, j));
                }
                lemma_entry_in_block(s, i);
                assert((m.index[i].1 as usize) as int == offset_of(s, i));
                lemma_scan_misses(s, i, key);
            }
        }
    }
}

} // verus!
