//! A table as the database holds it: its metadata and its file's bytes, and,
//! for the proofs, the run of entries it was written from.
use vstd::prelude::*;
use crate::order::{lex_lt, lemma_lex_order_facts};
use crate::entries::{Entry, keys_sorted, has_key, key_pos, entries_map, run_keys};
use crate::memtable::Value;
use crate::bloom::spec_may_contain;
use crate::compress::zstd_frame;
use crate::sstable::{SsTableMeta, SsTableReader, ReaderModel, spec_open, spec_get, index_of, data_block, table_image,
    bloom_after, words_for, compresses, opt_value_view, scan_spec, scan_block, frame_collides};
use crate::sstable_roundtrip::{lengths_fit, lemma_open_roundtrip, lemma_get_roundtrip, lemma_bloom_after_has_keys,
    lemma_block_lookup};
use crate::transaction::entry_of;
use crate::text::{decimal_digits, hex_digits, push_decimal, push_hex};

verus! {

/// A table: its metadata, the bytes of its file, and the run it holds.
pub struct Table {
    pub meta: SsTableMeta,
    pub image: Vec<u8>,
    pub run: Ghost<Seq<Entry>>,
}

/// The data block as written: compressing it does not give a block of the
/// same length (a reader tells compressed from raw data by the lengths).
pub open spec fn distinct_lengths(s: Seq<Entry>, enabled: bool, level: i32) -> bool {
    !frame_collides(data_block(s), enabled, level)
}

/// The table's bytes open to the index, filter and data of its run, and its
/// metadata describes the run.
pub open spec fn table_ok(t: Table) -> bool {
    let s = t.run@;
    &&& keys_sorted(s)
    &&& lengths_fit(s)
    &&& s.len() > 0
    &&& data_block(s).len() <= usize::MAX
    &&& match spec_open(t.image@) {
        Ok(m) => {
            &&& m.index == index_of(s)
            &&& m.data == data_block(s)
            &&& forall|i: int| 0 <= i < s.len() ==> spec_may_contain(m.bits, #[trigger] s[i].0, m.nh, m.nb)
            &&& (m.nh == 0 || (m.nb > 0 && m.bits.len() == words_for(m.nb)))
        },
        Err(_) => false,
    }
    &&& t.meta.min_key@ == s[0].0
    &&& t.meta.max_key@ == s.last().0
    &&& t.meta.entry_count == s.len()
    &&& t.meta.file_size == t.image@.len()
}

/// The bytes that writing a run produce open to its index, filter and data.
pub proof fn lemma_written_table(s: Seq<Entry>, img: Seq<u8>, nb: nat, nh: nat, bits: Seq<u64>, enabled: bool, level: i32)
    requires
        keys_sorted(s),
        lengths_fit(s),
        data_block(s).len() <= usize::MAX,
        0 < nb <= usize::MAX,
        nh <= usize::MAX,
        bits.len() == words_for(nb),
        img == table_image(s, nb as u64, nh as u64, bloom_after(bits, run_keys(s), nh, nb), enabled, level),
        img.len() <= usize::MAX,
        compresses(data_block(s), enabled) ==> spec_zstd_decode_ok(s, level),
        distinct_lengths(s, enabled, level),
    ensures
        match spec_open(img) {
            Ok(m) => {
                &&& m.index == index_of(s)
                &&& m.data == data_block(s)
                &&& forall|i: int| 0 <= i < s.len() ==> spec_may_contain(m.bits, #[trigger] s[i].0, m.nh, m.nb)
                &&& (m.nh == 0 || (m.nb > 0 && m.bits.len() == words_for(m.nb)))
            },
            Err(_) => false,
        },
{
    assert((nb - 1) / 64 < bits.len());
    lemma_bloom_after_has_keys(bits, run_keys(s), nh, nb);
    let b2 = bloom_after(bits, run_keys(s), nh, nb);
    lemma_open_roundtrip(s, nb, nh, b2, enabled, level);
    assert forall|i: int| 0 <= i < s.len() implies spec_may_contain(b2, #[trigger] s[i].0, nh, nb) by {
        assert(run_keys(s)[i] == s[i].0);
    }
}

/// Decompressing the compressed data block of a run gives it back.
pub open spec fn spec_zstd_decode_ok(s: Seq<Entry>, level: i32) -> bool {
    crate::compress::spec_zstd_decode(zstd_frame(data_block(s), level)) == Some(data_block(s))
}

/// A point lookup on a sound table answers from its run.
pub proof fn lemma_table_get(t: Table, key: Seq<u8>)
    requires
        table_ok(t),
    ensures
        spec_open(t.image@) is Ok,
        spec_get(spec_open(t.image@)->Ok_0, key) == Ok::<Option<Option<Seq<u8>>>, int>(entry_of(entries_map(t.run@), key)),
{
    let m = spec_open(t.image@)->Ok_0;
    lemma_get_roundtrip(m, t.run@, key);
}

/// A key outside a sound table's first and last keys is not in it.
pub proof fn lemma_outside_range(t: Table, key: Seq<u8>)
    requires
        table_ok(t),
        lex_lt(key, t.meta.min_key@) || lex_lt(t.meta.max_key@, key),
    ensures
        !entries_map(t.run@).contains_key(key),
{
    lemma_lex_order_facts();
    let s = t.run@;
    if has_key(s, key) {
        let i = key_pos(s, key);
        if i > 0 {
            assert(lex_lt(s[0].0, s[i].0));
        }
        if i < s.len() - 1 {
            assert(lex_lt(s[i].0, s[s.len() - 1].0));
        }
    }
}

/// The runs of tables.
pub open spec fn runs_of(ts: Seq<Table>) -> Seq<Seq<Entry>> {
    ts.map_values(|t: Table| t.run@)
}

/// The sequence numbers of tables.
pub open spec fn seqs_of(ts: Seq<Table>) -> Seq<u64> {
    ts.map_values(|t: Table| t.meta.sequence)
}

/// Sequence numbers strictly increase along the tables.
pub open spec fn seqs_increasing(ts: Seq<Table>) -> bool {
    forall|a: int, b: int| 0 <= a < b < ts.len() ==> (#[trigger] ts[a]).meta.sequence < (#[trigger] ts[b]).meta.sequence
}

/// The table indices in decreasing sequence order, ties in table order (a
/// stable sort).  When the numbers increase along the tables, that is the
/// tables from last to first.
pub fn seq_desc_order(tables: &Vec<Table>) -> (r: Vec<usize>)
    ensures
        r@.len() == tables@.len(),
        forall|i: int| 0 <= i < r@.len() ==> #[trigger] r@[i] < tables@.len(),
        seqs_increasing(tables@) ==> forall|i: int| 0 <= i < r@.len() ==> #[trigger] r@[i] == tables@.len() - 1 - i,
{
    let n = tables.len();
    let mut r: Vec<usize> = Vec::new();
    let mut i: usize = 0;
    while i < n
        invariant
            i <= n,
            n == tables@.len(),
            r@.len() == i,
            forall|t: int| 0 <= t < r@.len() ==> #[trigger] r@[t] < i,
            seqs_increasing(tables@) ==> forall|t: int| 0 <= t < r@.len() ==> #[trigger] r@[t] == i - 1 - t,
        decreases n - i,
    {
        let s = tables[i].meta.sequence;
        let mut p: usize = 0;
        while p < r.len() && tables[r[p]].meta.sequence >= s
            invariant
                p <= r@.len(),
                r@.len() == i,
                i < n,
                n == tables@.len(),
                s == tables@[i as int].meta.sequence,
                forall|t: int| 0 <= t < r@.len() ==> #[trigger] r@[t] < i,
                seqs_increasing(tables@) ==> p == 0,
            decreases r@.len() - p,
        {
            proof {
                if seqs_increasing(tables@) {
                    assert(tables@[r@[p as int] as int].meta.sequence < tables@[i as int].meta.sequence);
                }
            }
            p = p + 1;
        }
        let ghost r0 = r@;
        r.insert(p, i);
        proof {
            assert forall|t: int| 0 <= t < r@.len() implies #[trigger] r@[t] < i + 1 by {
                if t < p {
                    assert(r@[t] == r0[t]);
                } else if t > p {
                    assert(r@[t] == r0[t - 1]);
                }
            }
            if seqs_increasing(tables@) {
                assert forall|t: int| 0 <= t < r@.len() implies #[trigger] r@[t] == i + 1 - 1 - t by {
                    if t > 0 {
                        assert(r@[t] == r0[t - 1]);
                    }
                }
            }
        }
        i = i + 1;
    }
    r
}

/// The name of a table file: `L<level>-<sequence as 16 hex digits>.sst`.
pub open spec fn table_name(level: nat, seq: u64) -> Seq<char> {
    "L"@ + decimal_digits(level) + "-"@ + hex_digits(seq as nat, 16, false) + ".sst"@
}

/// The file name of the table at `level` with sequence number `seq`.
pub fn table_file_name(level: usize, seq: u64) -> (r: String)
    requires
        level <= u64::MAX,
    ensures
        r@ == table_name(level as nat, seq),
{
    let mut name = "L".to_owned();
    push_decimal(&mut name, level as u64);
    name.append("-");
    push_hex(&mut name, seq, 16, false);
    name.append(".sst");
    proof {
        reveal_strlit("L");
        reveal_strlit("-");
        reveal_strlit(".sst");
    }
    assert(name@ =~= table_name(level as nat, seq));
    name
}

/// Looking up `key` in a cached data block, scanned from its start as a
/// table's reader scans it: the entry found, or `None` when the scan passes
/// the key, runs out, or meets an entry whose checksum fails (the lookup then
/// goes to the table itself).
pub open spec fn spec_get_from_data(data: Seq<u8>, key: Seq<u8>) -> Option<Option<Seq<u8>>> {
    match scan_spec(data, 0, data.len() as int, key) {
        Ok(o) => o,
        Err(_) => None,
    }
}

/// Look `key` up in a cached data block.
pub fn get_from_data(data: &[u8], key: &[u8]) -> (r: Option<Value>)
    ensures
        opt_value_view(r) == spec_get_from_data(data@, key@),
{
    match scan_block(data, 0, data.len(), key) {
        Ok(v) => v,
        Err(_) => None,
    }
}

/// The data block of a sound table, looked up as a cached block, gives the
/// table's entry for the key.
pub proof fn lemma_cached_block(t: Table, key: Seq<u8>)
    requires
        table_ok(t),
    ensures
        spec_get_from_data(data_block(t.run@), key) == entry_of(entries_map(t.run@), key),
{
    lemma_block_lookup(t.run@, key);
}

/// A clone of bytes holds the same bytes.
pub proof fn lemma_cloned_bytes(a: Vec<u8>, b: Vec<u8>)
    requires
        cloned(a, b),
    ensures
        a@ == b@,
{
    if a != b {
        assert(a@.len() == b@.len());
        assert forall|i: int| 0 <= i < a@.len() implies a@[i] == b@[i] by {
            assert(cloned::<u8>(a[i], b[i]));
        }
        assert(a@ =~= b@);
    }
}

} // verus!
