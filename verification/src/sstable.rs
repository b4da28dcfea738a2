//! SSTable (Sorted String Table): the immutable on-disk run.
//!
//! File layout:
//!   Data Block  (sorted key-value entries), zstd-compressed when enabled and over 1 KiB
//!   Index Block (key -> data offset, one per entry)
//!   Bloom Filter Block
//!   Footer (40 bytes): index_offset | bloom_offset | data_len | compressed_len | magic
//!
//! Data block entry: [4] key_len | [4] val_len | [1] is_tombstone | [4] crc32(key|value) | key | value
//! Index block entry: [4] key_len | key | [8] data_offset
//! Bloom filter block: [8] num_bits | [8] num_hashes | the bit words, little-endian
//!
//! This module builds a table's bytes and reads tables from bytes; storing
//! the bytes in files is the caller's part.
use vstd::prelude::*;
use crate::order::{lex_lt, lemma_lex_order_facts, compare_bytes, bytes_eq, bytes_lt};
use crate::entries::{Entry, run_keys};
use crate::codec::{be32, be64, le64, from_be32, from_be64, from_le64, spec_crc32, crc32, push_be32,
    push_be64, push_le64, push_all, read_be32, read_be64, read_le64};
use crate::bloom::{BloomFilter, spec_insert, spec_may_contain, lemma_insert_len};
use crate::memtable::{Value, entries_view, copy_bytes};
use crate::compress::{zstd_frame, zstd_encodes, spec_zstd_decode, zstd_encode, zstd_decode};
use crate::error::{Error, eof_error, spec_eof_message};
use crate::wal::copy_range;
use crate::text::{hex_digits, push_hex, decimal_digits, push_decimal};

verus! {

pub const MAGIC: u64 = 0x4C534D35_46494C45;
pub const BLOOM_CAPACITY: usize = 1000;
pub const COMPRESSION_THRESHOLD: usize = 1024;
pub const ENTRY_HEADER_SIZE: usize = 13;
pub const FOOTER_SIZE: usize = 40;

// ── The format ─────────────────────────────────────────────────────────────

/// The value bytes stored for an entry (none for a tombstone).
pub open spec fn stored_value(v: Option<Seq<u8>>) -> Seq<u8> {
    match v {
        Some(d) => d,
        None => Seq::empty(),
    }
}

/// The tombstone flag stored for an entry.
pub open spec fn tomb_flag(v: Option<Seq<u8>>) -> u8 {
    if v is None { 1 } else { 0 }
}

/// The bytes of one data-block entry.
pub open spec fn entry_bytes(e: Entry) -> Seq<u8> {
    let v = stored_value(e.1);
    be32(e.0.len() as u32) + be32(v.len() as u32) + seq![tomb_flag(e.1)] + be32(spec_crc32(e.0 + v)) + e.0 + v
}

/// The uncompressed data block of a run.
pub open spec fn data_block(s: Seq<Entry>) -> Seq<u8>
    decreases s.len(),
{
    if s.len() == 0 {
        Seq::empty()
    } else {
        data_block(s.drop_last()) + entry_bytes(s.last())
    }
}

/// The bytes of one index entry.
pub open spec fn index_entry_bytes(k: Seq<u8>, off: u64) -> Seq<u8> {
    be32(k.len() as u32) + k + be64(off)
}

/// The index of a run: each key with the data-block offset of its entry.
pub open spec fn index_of(s: Seq<Entry>) -> Seq<(Seq<u8>, u64)> {
    Seq::new(s.len(), |i: int| (s[i].0, data_block(s.take(i)).len() as u64))
}

/// The index block of a run.
pub open spec fn index_block(s: Seq<Entry>) -> Seq<u8>
    decreases s.len(),
{
    if s.len() == 0 {
        Seq::empty()
    } else {
        index_block(s.drop_last()) + index_entry_bytes(s.last().0, data_block(s.drop_last()).len() as u64)
    }
}

/// The little-endian words of a bit array.
pub open spec fn words_bytes(bits: Seq<u64>) -> Seq<u8>
    decreases bits.len(),
{
    if bits.len() == 0 {
        Seq::empty()
    } else {
        words_bytes(bits.drop_last()) + le64(bits.last())
    }
}

/// The Bloom filter block.
pub open spec fn bloom_block(nb: u64, nh: u64, bits: Seq<u64>) -> Seq<u8> {
    be64(nb) + be64(nh) + words_bytes(bits)
}

/// The footer.
pub open spec fn footer(index_offset: u64, bloom_offset: u64, data_len: u64, compressed_len: u64) -> Seq<u8> {
    be64(index_offset) + be64(bloom_offset) + be64(data_len) + be64(compressed_len) + be64(MAGIC)
}

/// The filter bits after inserting `keys` in order.
pub open spec fn bloom_after(bits: Seq<u64>, keys: Seq<Seq<u8>>, n: nat, m: nat) -> Seq<u64>
    decreases keys.len(),
{
    if keys.len() == 0 {
        bits
    } else {
        spec_insert(bloom_after(bits, keys.drop_last(), n, m), keys.last(), n, m)
    }
}

/// Whether the writer stores this data block compressed.
pub open spec fn compresses(raw: Seq<u8>, enabled: bool) -> bool {
    enabled && raw.len() > COMPRESSION_THRESHOLD
}

/// Whether the data block is to be compressed and the encoder gives no frame
/// for it: the one way writing a table fails.
pub open spec fn encode_fails(raw: Seq<u8>, enabled: bool, level: i32) -> bool {
    compresses(raw, enabled) && !zstd_encodes(raw, level)
}

/// The number of keys a table's filter is sized for: at least `BLOOM_CAPACITY`.
pub open spec fn filter_capacity(n: nat) -> usize {
    if n < BLOOM_CAPACITY { BLOOM_CAPACITY } else { n as usize }
}

/// The filter's bit count for the sizer's estimate `r`: at least 64.
pub open spec fn filter_bits(r: (usize, usize)) -> nat {
    if r.0 < 64 { 64 } else { r.0 as nat }
}

/// The filter's probe count for the sizer's estimate `r`: at least 1.
pub open spec fn filter_probes(r: (usize, usize)) -> nat {
    if r.1 < 1 { 1 } else { r.1 as nat }
}

/// `n` words of zero bits.
pub open spec fn zero_words(n: nat) -> Seq<u64> {
    Seq::new(n, |i: int| 0u64)
}

/// The bytes of a table written from run `s`, its filter sized by what
/// `sizer` answers for the run's filter capacity and starting from no bits.
pub open spec fn image_sized_by<S: Fn(usize) -> (usize, usize)>(img: Seq<u8>, s: Seq<Entry>, enabled: bool, level: i32,
    sizer: S) -> bool {
    exists|r: (usize, usize)| #[trigger] call_ensures(sizer, (filter_capacity(s.len()),), r)
        && img == table_image(s, filter_bits(r) as u64, filter_probes(r) as u64,
            bloom_after(zero_words(words_for(filter_bits(r))), run_keys(s), filter_probes(r), filter_bits(r)), enabled, level)
}

/// Whether the data block is to be compressed and the encoder's frame for it
/// has the raw block's length (a reader then takes the frame for raw data).
pub open spec fn frame_collides(raw: Seq<u8>, enabled: bool, level: i32) -> bool {
    compresses(raw, enabled) && zstd_frame(raw, level).len() == raw.len()
}

/// Whether, with compression as given, the encoder's frame for some data
/// block has that block's length.
#[verifier::opaque]
pub open spec fn some_frame_collides(enabled: bool, level: i32) -> bool {
    exists|raw: Seq<u8>| #[trigger] frame_collides(raw, enabled, level)
}

/// Whether the encoder, with compression as given, fails on some data block.
pub open spec fn some_encode_fails(enabled: bool, level: i32) -> bool {
    exists|raw: Seq<u8>| #[trigger] encode_fails(raw, enabled, level)
}

/// The data block as stored.
pub open spec fn stored_data(raw: Seq<u8>, enabled: bool, level: i32) -> Seq<u8> {
    if compresses(raw, enabled) { zstd_frame(raw, level) } else { raw }
}

/// The bytes of a whole table file: stored data, index, filter, footer.
pub open spec fn table_image(s: Seq<Entry>, nb: u64, nh: u64, bits: Seq<u64>, enabled: bool, level: i32) -> Seq<u8> {
    let raw = data_block(s);
    let stored = stored_data(raw, enabled, level);
    let cl = stored.len() as u64;
    let ib = index_block(s);
    stored + ib + bloom_block(nb, nh, bits) + footer(cl, (cl + ib.len()) as u64, raw.len() as u64, cl)
}

// ── Types ──────────────────────────────────────────────────────────────────

/// One entry in an SSTable's in-memory index.
#[derive(Clone, Debug)]
pub struct IndexEntry {
    pub key: Vec<u8>,
    pub offset: u64,
}

/// The abstract index of concrete entries.
pub open spec fn index_view(s: Seq<IndexEntry>) -> Seq<(Seq<u8>, u64)> {
    s.map_values(|e: IndexEntry| (e.key@, e.offset))
}

/// Metadata for an SSTable file, kept in memory by the database.
#[derive(Clone, Debug)]
pub struct SsTableMeta {
    /// The table's file name.
    pub path: String,
    pub level: usize,
    pub min_key: Vec<u8>,
    pub max_key: Vec<u8>,
    pub entry_count: usize,
    pub file_size: u64,
    /// Monotonically increasing generation number.
    pub sequence: u64,
}

impl SsTableMeta {
    /// A copy with the same contents.
    pub fn duplicate(&self) -> (r: SsTableMeta)
        ensures
            r.path@ == self.path@,
            r.level == self.level,
            r.min_key@ == self.min_key@,
            r.max_key@ == self.max_key@,
            r.entry_count == self.entry_count,
            r.file_size == self.file_size,
            r.sequence == self.sequence,
    {
        SsTableMeta {
            path: self.path.clone(),
            level: self.level,
            min_key: copy_bytes(self.min_key.as_slice()),
            max_key: copy_bytes(self.max_key.as_slice()),
            entry_count: self.entry_count,
            file_size: self.file_size,
            sequence: self.sequence,
        }
    }
}

/// Builds a new SSTable from entries given in sorted key order.
pub struct SsTableWriter {
    index: Vec<IndexEntry>,
    bloom: BloomFilter,
    data_buffer: Vec<u8>,
    data_offset: u64,
    entry_count: usize,
    min_key: Option<Vec<u8>>,
    max_key: Option<Vec<u8>>,
    compression_enabled: bool,
    compression_level: i32,
    written: Ghost<Seq<Entry>>,
    bloom_start: Ghost<Seq<u64>>,
}

impl SsTableWriter {
    /// The entries added so far.
    pub closed spec fn written(&self) -> Seq<Entry> {
        self.written@
    }

    /// The filter's parameters and its bits before any key went in.
    pub closed spec fn bloom_params(&self) -> (nat, nat, Seq<u64>) {
        (self.bloom.nbits(), self.bloom.nhashes(), self.bloom_start@)
    }

    pub closed spec fn compression(&self) -> (bool, i32) {
        (self.compression_enabled, self.compression_level)
    }

    /// The bytes of the data block so far.
    pub closed spec fn buffered(&self) -> Seq<u8> {
        self.data_buffer@
    }

    pub closed spec fn wf(&self) -> bool {
        &&& self.bloom.wf()
        &&& self.data_buffer@ == data_block(self.written@)
        &&& self.data_offset == self.data_buffer@.len()
        &&& index_view(self.index@) == index_of(self.written@)
        &&& self.entry_count == self.written@.len()
        &&& self.bloom_start@.len() == self.bloom.bits_spec().len()
        &&& self.bloom.bits_spec() == bloom_after(self.bloom_start@, run_keys(self.written@), self.bloom.nhashes(), self.bloom.nbits())
        &&& self.min_key matches Some(k) ==> self.written@.len() > 0 && k@ == self.written@[0].0
        &&& self.min_key is None ==> self.written@.len() == 0
        &&& self.max_key matches Some(k) ==> self.written@.len() > 0 && k@ == self.written@.last().0
        &&& self.max_key is None ==> self.written@.len() == 0
    }

    /// An empty writer whose Bloom filter is sized for `max(capacity_hint, 1000)`
    /// keys; `sizer` gives the filter's bit and probe estimates for a capacity.
    pub fn create<S: Fn(usize) -> (usize, usize)>(
        capacity_hint: usize,
        compression_enabled: bool,
        compression_level: i32,
        sizer: &S,
    ) -> (w: SsTableWriter)
        requires
            call_requires(*sizer, (if capacity_hint < BLOOM_CAPACITY { BLOOM_CAPACITY } else { capacity_hint },)),
        ensures
            w.wf(),
            w.written() == Seq::<Entry>::empty(),
            w.compression() == (compression_enabled, compression_level),
            exists|r: (usize, usize)| call_ensures(*sizer, (if capacity_hint < BLOOM_CAPACITY { BLOOM_CAPACITY } else { capacity_hint },), r)
                && w.bloom_params().0 == (if r.0 < 64 { 64 } else { r.0 as nat })
                && w.bloom_params().1 == (if r.1 < 1 { 1 } else { r.1 as nat }),
            forall|i: int| 0 <= i < w.bloom_params().2.len() ==> #[trigger] w.bloom_params().2[i] == 0,
            w.bloom_params().2.len() == (w.bloom_params().0 + 63) / 64,
    {
        let bloom_cap = if capacity_hint < BLOOM_CAPACITY { BLOOM_CAPACITY } else { capacity_hint };
        let sizes = sizer(bloom_cap);
        let bloom = BloomFilter::with_params(sizes.0, sizes.1);
        let w = SsTableWriter {
            index: Vec::new(),
            bloom,
            data_buffer: Vec::new(),
            data_offset: 0,
            entry_count: 0,
            min_key: None,
            max_key: None,
            compression_enabled,
            compression_level,
            written: Ghost(Seq::empty()),
            bloom_start: Ghost(bloom.bits_spec()),
        };
        assert(index_view(w.index@) =~= index_of(Seq::<Entry>::empty()));
        assert(data_block(Seq::<Entry>::empty()) =~= Seq::<u8>::empty());
        assert(run_keys(Seq::<Entry>::empty()) =~= Seq::<Seq<u8>>::empty());
        w
    }
}

impl SsTableWriter {
    /// Append one entry (entries must come in sorted key order for the table
    /// to be searchable).
    #[verifier::rlimit(40)]
    pub fn add(&mut self, key: &[u8], value: &Value) -> (r: Result<(), Error>)
        requires
            old(self).wf(),
            old(self).written().len() < usize::MAX,
        ensures
            r is Ok,
            final(self).wf(),
            final(self).written() == old(self).written().push((key@, value@)),
            final(self).bloom_params() == old(self).bloom_params(),
            final(self).compression() == old(self).compression(),
    {
        let ghost w0 = self.written@;
        let ghost e: Entry = (key@, value@);
        let current_offset = self.data_offset;
        let ghost idx0 = self.index@;
        self.index.push(IndexEntry { key: copy_bytes(key), offset: current_offset });
        let ghost bits0 = self.bloom.bits_spec();
        self.bloom.insert(key);
        let ghost before = self.data_buffer@;
        push_entry(&mut self.data_buffer, key, value);
        let val_len: usize = match value {
            Value::Data(v) => v.len(),
            Value::Tombstone => 0,
        };
        let new_len = self.data_buffer.len();
        proof {
            assert(entry_bytes(e).len() == 13 + key@.len() + stored_value(value@).len());
        }
        let entry_size = ENTRY_HEADER_SIZE + key.len() + val_len;
        self.data_offset = self.data_offset + entry_size as u64;
        self.entry_count = self.entry_count + 1;
        if self.min_key.is_none() {
            self.min_key = Some(copy_bytes(key));
        }
        self.max_key = Some(copy_bytes(key));
        self.written = Ghost(w0.push(e));
        proof {
            lemma_insert_len(bits0, key@, self.bloom.nhashes(), self.bloom.nbits());
            lemma_writer_step(w0, e);
            assert(index_view(self.index@) =~= index_view(idx0).push((key@, current_offset)));
            if w0.len() > 0 {
                assert(w0.push(e)[0] == w0[0]);
            }
            let w1 = w0.push(e);
            assert(self.bloom.wf());
            assert(self.data_buffer@ == data_block(w1));
            assert(self.data_offset == self.data_buffer@.len());
            assert(index_view(self.index@) == index_of(w1));
            assert(self.entry_count == w1.len());
            assert(self.bloom_start@.len() == self.bloom.bits_spec().len());
            assert(self.bloom.bits_spec() == bloom_after(self.bloom_start@, run_keys(w1), self.bloom.nhashes(), self.bloom.nbits()));
        }
        Ok(())
    }

    /// Finish the table: its bytes (stored data, index, filter, footer) and its
    /// metadata.  Fails only when the data block is to be compressed and the
    /// encoder gives no frame for it.
    pub fn finish(self) -> (r: Result<(SsTableMeta, Vec<u8>), Error>)
        requires
            self.wf(),
        ensures
            match r {
                Ok((meta, img)) => {
                    &&& img@ == table_image(self.written(), self.bloom_params().0 as u64, self.bloom_params().1 as u64,
                        bloom_after(self.bloom_params().2, run_keys(self.written()), self.bloom_params().1, self.bloom_params().0),
                        self.compression().0, self.compression().1)
                    &&& compresses(data_block(self.written()), self.compression().0) ==>
                        zstd_encodes(data_block(self.written()), self.compression().1) &&
                        spec_zstd_decode(zstd_frame(data_block(self.written()), self.compression().1)) == Some(data_block(self.written()))
                    &&& data_block(self.written()).len() <= usize::MAX
                    &&& meta.path@ == Seq::<char>::empty()
                    &&& meta.level == 0
                    &&& meta.sequence == 0
                    &&& meta.entry_count == self.written().len()
                    &&& meta.file_size == img@.len()
                    &&& meta.min_key@ == (if self.written().len() > 0 { self.written()[0].0 } else { Seq::empty() })
                    &&& meta.max_key@ == (if self.written().len() > 0 { self.written().last().0 } else { Seq::empty() })
                },
                Err(e) => encode_fails(data_block(self.written()), self.compression().0, self.compression().1) && e is Io,
            },
    {
        let ghost s = self.written@;
        let ghost raw = self.data_buffer@;
        let SsTableWriter {
            index, bloom, data_buffer, data_offset, entry_count, min_key, max_key, compression_enabled,
            compression_level, written, bloom_start,
        } = self;
        let (compressed_data, compressed_len) = if compression_enabled && data_buffer.len() > COMPRESSION_THRESHOLD {
            let compressed = match zstd_encode(data_buffer.as_slice(), compression_level) {
                Ok(c) => c,
                Err(msg) => {
                    return Err(Error::Io(msg));
                },
            };
            let len = compressed.len() as u64;
            (compressed, len)
        } else {
            (data_buffer, data_offset)
        };
        proof {
            assert(compressed_data@ == stored_data(raw, compression_enabled, compression_level));
            assert(compressed_len == compressed_data@.len());
        }
        let mut out: Vec<u8> = compressed_data;
        let data_len = data_offset;
        let index_offset = compressed_len;
        let ghost stored = out@;
        push_index_block(&mut out, &index, Ghost(s));
        let bloom_offset = out.len() as u64;
        push_bloom_block(&mut out, &bloom);
        push_footer(&mut out, index_offset, bloom_offset, data_len, compressed_len);
        proof {
            assert(out@ =~= table_image(s, bloom.nbits() as u64, bloom.nhashes() as u64, bloom.bits_spec(),
                compression_enabled, compression_level));
        }
        let file_size = out.len() as u64;
        let meta = SsTableMeta {
            path: String::new(),
            level: 0,
            min_key: match min_key { Some(k) => k, None => Vec::new() },
            max_key: match max_key { Some(k) => k, None => Vec::new() },
            entry_count,
            file_size,
            sequence: 0,
        };
        Ok((meta, out))
    }
}

/// Append the bytes of one data-block entry.
fn push_entry(out: &mut Vec<u8>, key: &[u8], value: &Value)
    ensures
        final(out)@ == old(out)@ + entry_bytes((key@, value@)),
{
    let empty: [u8; 0] = [];
    let (val_bytes, is_tombstone): (&[u8], u8) = match value {
        Value::Data(v) => (v.as_slice(), 0),
        Value::Tombstone => (empty.as_slice(), 1),
    };
    proof {
        assert(val_bytes@ == stored_value(value@)) by {
            assert(empty@ =~= Seq::<u8>::empty());
        }
    }
    let key_len = key.len() as u32;
    let val_len = val_bytes.len() as u32;
    let ghost before = out@;
    push_be32(out, key_len);
    push_be32(out, val_len);
    out.push(is_tombstone);
    let mut crc_data: Vec<u8> = Vec::with_capacity(key.len());
    push_all(&mut crc_data, key);
    push_all(&mut crc_data, val_bytes);
    let crc = crc32(crc_data.as_slice());
    push_be32(out, crc);
    push_all(out, key);
    push_all(out, val_bytes);
    assert(out@ =~= before + entry_bytes((key@, value@)));
}

/// Adding an entry extends the data block, the index and the key list by it.
proof fn lemma_writer_step(w0: Seq<Entry>, e: Entry)
    ensures
        data_block(w0.push(e)) == data_block(w0) + entry_bytes(e),
        index_of(w0.push(e)) == index_of(w0).push((e.0, data_block(w0).len() as u64)),
        run_keys(w0.push(e)) == run_keys(w0).push(e.0),
        run_keys(w0.push(e)).drop_last() == run_keys(w0),
{
    let w1 = w0.push(e);
    assert(w1.drop_last() =~= w0);
    assert forall|j: int| 0 <= j < w0.len() implies #[trigger] w1.take(j) =~= w0.take(j) by {}
    assert(w1.take(w0.len() as int) =~= w0);
    assert(index_of(w1) =~= index_of(w0).push((e.0, data_block(w0).len() as u64))) by {
        assert forall|j: int| 0 <= j < w1.len() implies #[trigger] index_of(w1)[j] == index_of(w0).push((e.0, data_block(w0).len() as u64))[j] by {
            if j < w0.len() {
                assert(w1.take(j) =~= w0.take(j));
            }
        }
    }
    assert(run_keys(w1) =~= run_keys(w0).push(e.0));
    assert(run_keys(w1).drop_last() =~= run_keys(w0));
}

/// Append the index block of a run.
fn push_index_block(out: &mut Vec<u8>, index: &Vec<IndexEntry>, Ghost(s): Ghost<Seq<Entry>>)
    requires
        index_view(index@) == index_of(s),
    ensures
        final(out)@ == old(out)@ + index_block(s),
{
    let mut i: usize = 0;
    let ghost start = out@;
    assert(index@.len() == s.len()) by {
        assert(index_view(index@).len() == index@.len());
    }
    assert(s.take(0) =~= Seq::<Entry>::empty());
    assert(start + index_block(s.take(0)) =~= start);
    while i < index.len()
        invariant
            i <= index@.len(),
            index@.len() == s.len(),
            index_view(index@) == index_of(s),
            out@ == start + index_block(s.take(i as int)),
        decreases index@.len() - i,
    {
        proof {
            lemma_index_block_step(s, i as int);
            assert(index_view(index@)[i as int] == (index@[i as int].key@, index@[i as int].offset));
        }
        let kl = index[i].key.len() as u32;
        push_be32(out, kl);
        push_all(out, index[i].key.as_slice());
        push_be64(out, index[i].offset);
        proof {
            assert(out@ =~= start + index_block(s.take(i + 1)));
        }
        i = i + 1;
    }
    assert(s.take(s.len() as int) =~= s);
}

/// Append the Bloom filter block.
fn push_bloom_block(out: &mut Vec<u8>, bloom: &BloomFilter)
    ensures
        final(out)@ == old(out)@ + bloom_block(bloom.nbits() as u64, bloom.nhashes() as u64, bloom.bits_spec()),
{
    let nb = bloom.num_bits() as u64;
    let nh = bloom.num_hashes() as u64;
    let ghost start = out@;
    push_be64(out, nb);
    push_be64(out, nh);
    let words = bloom.raw_bits();
    let ghost mid = out@;
    let mut j: usize = 0;
    assert(words@.take(0) =~= Seq::<u64>::empty());
    assert(mid + words_bytes(words@.take(0)) =~= mid);
    while j < words.len()
        invariant
            j <= words@.len(),
            out@ == mid + words_bytes(words@.take(j as int)),
        decreases words@.len() - j,
    {
        proof {
            assert(words@.take(j + 1).drop_last() =~= words@.take(j as int));
        }
        push_le64(out, words[j]);
        proof {
            assert(out@ =~= mid + words_bytes(words@.take(j + 1)));
        }
        j = j + 1;
    }
    assert(words@.take(words@.len() as int) =~= words@);
    assert(out@ =~= start + bloom_block(nb, nh, bloom.bits_spec()));
}

/// Append the footer.
fn push_footer(out: &mut Vec<u8>, index_offset: u64, bloom_offset: u64, data_len: u64, compressed_len: u64)
    ensures
        final(out)@ == old(out)@ + footer(index_offset, bloom_offset, data_len, compressed_len),
{
    let ghost start = out@;
    push_be64(out, index_offset);
    push_be64(out, bloom_offset);
    push_be64(out, data_len);
    push_be64(out, compressed_len);
    push_be64(out, MAGIC);
    assert(out@ =~= start + footer(index_offset, bloom_offset, data_len, compressed_len));
}

/// The index block grows by one entry per entry of the run.
pub proof fn lemma_index_block_step(s: Seq<Entry>, i: int)
    requires
        0 <= i < s.len(),
    ensures
        index_block(s.take(i + 1)) == index_block(s.take(i)) + index_entry_bytes(s[i].0, data_block(s.take(i)).len() as u64),
        index_of(s)[i] == (s[i].0, data_block(s.take(i)).len() as u64),
{
    assert(s.take(i + 1).drop_last() =~= s.take(i));
    assert(s.take(i + 1).last() == s[i]);
}

/// Write a run of entries as one table: its metadata (with the given file
/// name, level and sequence number) and its bytes.
#[verifier::rlimit(40)]
pub fn write_sstable<S: Fn(usize) -> (usize, usize)>(
    path: String,
    entries: &[(Vec<u8>, Value)],
    level: usize,
    sequence: u64,
    compression_enabled: bool,
    compression_level: i32,
    sizer: &S,
) -> (r: Result<(SsTableMeta, Vec<u8>), Error>)
    requires
        call_requires(*sizer, (if entries@.len() < BLOOM_CAPACITY { BLOOM_CAPACITY } else { entries@.len() as usize },)),
    ensures
        match r {
            Ok((meta, img)) => {
                let s = entries_view(entries@);
                &&& exists|nb: nat, nh: nat, bits: Seq<u64>| {
                    &&& 0 < nb <= usize::MAX
                    &&& nh <= usize::MAX
                    &&& (nb - 1) / 64 < bits.len()
                    &&& bits.len() == words_for(nb)
                    &&& img@ == #[trigger] table_image(s, nb as u64, nh as u64,
                        bloom_after(bits, run_keys(s), nh, nb), compression_enabled, compression_level)
                }
                &&& image_sized_by(img@, s, compression_enabled, compression_level, *sizer)
                &&& compresses(data_block(s), compression_enabled) ==>
                    zstd_encodes(data_block(s), compression_level) &&
                    spec_zstd_decode(zstd_frame(data_block(s), compression_level)) == Some(data_block(s))
                &&& data_block(s).len() <= usize::MAX
                &&& meta.path@ == path@
                &&& meta.level == level
                &&& meta.sequence == sequence
                &&& meta.entry_count == s.len()
                &&& meta.file_size == img@.len()
                &&& meta.min_key@ == (if s.len() > 0 { s[0].0 } else { Seq::empty() })
                &&& meta.max_key@ == (if s.len() > 0 { s.last().0 } else { Seq::empty() })
            },
            Err(e) => encode_fails(data_block(entries_view(entries@)), compression_enabled, compression_level) && e is Io,
        },
{
    let mut writer = SsTableWriter::create(entries.len(), compression_enabled, compression_level, sizer);
    let ghost params = writer.bloom_params();
    let ghost cap: usize = if entries.len() < BLOOM_CAPACITY { BLOOM_CAPACITY } else { entries.len() };
    let ghost r = choose|r: (usize, usize)|
        call_ensures(*sizer, (if entries.len() < BLOOM_CAPACITY { BLOOM_CAPACITY } else { entries.len() },), r)
        && writer.bloom_params().0 == (if r.0 < 64 { 64 } else { r.0 as nat })
        && writer.bloom_params().1 == (if r.1 < 1 { 1 } else { r.1 as nat });
    proof {
        assert(params.2 =~= zero_words(words_for(params.0)));
        assert(filter_capacity(entries@.len()) == cap);
    }
    let mut i: usize = 0;
    while i < entries.len()
        invariant
            i <= entries@.len(),
            writer.wf(),
            writer.written() == entries_view(entries@).take(i as int),
            writer.bloom_params() == params,
            0 < params.0 <= usize::MAX,
            params.1 <= usize::MAX,
            (params.0 - 1) / 64 < params.2.len(),
            params.2.len() == words_for(params.0),
            params.2 == zero_words(words_for(params.0)),
            call_ensures(*sizer, (cap,), r),
            params.0 == filter_bits(r),
            params.1 == filter_probes(r),
            filter_capacity(entries@.len()) == cap,
            writer.compression() == (compression_enabled, compression_level),
        decreases entries@.len() - i,
    {
        let _ = writer.add(entries[i].0.as_slice(), &entries[i].1);
        proof {
            assert(entries_view(entries@).take(i + 1) =~= entries_view(entries@).take(i as int).push(
                (entries@[i as int].0@, entries@[i as int].1@)));
        }
        i = i + 1;
    }
    proof {
        assert(entries_view(entries@).take(entries@.len() as int) =~= entries_view(entries@));
    }
    let (mut meta, img) = writer.finish()?;
    proof {
        let s = entries_view(entries@);
        assert(call_ensures(*sizer, (filter_capacity(s.len()),), r));
        assert(img@ == table_image(s, filter_bits(r) as u64, filter_probes(r) as u64,
            bloom_after(zero_words(words_for(filter_bits(r))), run_keys(s), filter_probes(r), filter_bits(r)),
            compression_enabled, compression_level));
    }
    meta.path = path;
    meta.level = level;
    meta.sequence = sequence;
    Ok((meta, img))
}

// ── Reading ────────────────────────────────────────────────────────────────

/// What a reader holds of a table: its index, filter, and data block.
pub struct ReaderModel {
    pub index: Seq<(Seq<u8>, u64)>,
    pub bits: Seq<u64>,
    pub nb: nat,
    pub nh: nat,
    pub data_len: u64,
    pub compressed_len: u64,
    pub data: Seq<u8>,
}

/// Why a table could not be opened.
pub enum OpenFault {
    /// Shorter than a footer.
    TooSmall,
    /// The footer's magic number is wrong; it is given.
    BadMagic(u64),
    /// A block reaches past the end of the file.
    Truncated,
    /// The data block is not valid zstd.
    Decompress,
}

/// The index entries stored from `pos` up to `end`, or `None` when one
/// reaches past the end of the file.
pub open spec fn parse_index(img: Seq<u8>, pos: int, end: int) -> Option<Seq<(Seq<u8>, u64)>>
    decreases img.len() - pos,
{
    if pos >= end {
        Some(Seq::empty())
    } else if pos < 0 || pos + 4 > img.len() {
        None
    } else {
        let kl = from_be32(img.subrange(pos, pos + 4)) as int;
        if pos + 12 + kl > img.len() {
            None
        } else {
            let k = img.subrange(pos + 4, pos + 4 + kl);
            let off = from_be64(img.subrange(pos + 4 + kl, pos + 12 + kl));
            match parse_index(img, pos + 12 + kl, end) {
                Some(rest) => Some(seq![(k, off)] + rest),
                None => None,
            }
        }
    }
}

/// The number of words that hold `nb` bits.
pub open spec fn words_for(nb: nat) -> nat {
    (nb + 63) / 64
}

/// The filter stored at `bo`: bit count, probe count, and words.
pub open spec fn parse_bloom(img: Seq<u8>, bo: int) -> Option<(nat, nat, Seq<u64>)> {
    if bo + 16 > img.len() {
        None
    } else {
        let nb = from_be64(img.subrange(bo, bo + 8)) as usize as nat;
        let nh = from_be64(img.subrange(bo + 8, bo + 16)) as usize as nat;
        let words = words_for(nb);
        if bo + 16 + 8 * words > img.len() {
            None
        } else {
            Some((nb, nh, Seq::new(words, |i: int| from_le64(img.subrange(bo + 16 + 8 * i, bo + 24 + 8 * i)))))
        }
    }
}

/// What opening a table's bytes yields.
pub open spec fn spec_open(img: Seq<u8>) -> Result<ReaderModel, OpenFault> {
    if img.len() < 40 {
        Err(OpenFault::TooSmall)
    } else {
        let f = img.len() - 40;
        let io = from_be64(img.subrange(f, f + 8));
        let bo = from_be64(img.subrange(f + 8, f + 16));
        let dl = from_be64(img.subrange(f + 16, f + 24));
        let cl = from_be64(img.subrange(f + 24, f + 32));
        let magic = from_be64(img.subrange(f + 32, f + 40));
        if magic != MAGIC {
            Err(OpenFault::BadMagic(magic))
        } else if (cl as usize) > img.len() {
            Err(OpenFault::Truncated)
        } else {
            let raw = img.subrange(0, (cl as usize) as int);
            let data = if cl != dl { spec_zstd_decode(raw) } else { Some(raw) };
            match data {
                None => Err(OpenFault::Decompress),
                Some(d) => match parse_index(img, io as int, bo as int) {
                    None => Err(OpenFault::Truncated),
                    Some(index) => match parse_bloom(img, bo as int) {
                        None => Err(OpenFault::Truncated),
                        Some((nb, nh, bits)) => Ok(ReaderModel {
                            index, bits, nb, nh, data_len: dl, compressed_len: cl, data: d,
                        }),
                    },
                },
            }
        }
    }
}

/// The message for a footer with the wrong magic number.
pub open spec fn bad_magic_message(m: u64) -> Seq<char> {
    "Bad magic: 0x"@ + hex_digits(m as nat, 16, true)
}

/// The error that opening reports for a fault.
pub open spec fn open_fault_matches(e: Error, f: OpenFault) -> bool {
    match f {
        OpenFault::TooSmall => e matches Error::Corruption(m) && m@ == "SSTable too small"@,
        OpenFault::BadMagic(x) => e matches Error::Corruption(m) && m@ == bad_magic_message(x),
        OpenFault::Truncated => e matches Error::Io(m) && m@ == spec_eof_message(),
        OpenFault::Decompress => e is Io,
    }
}

/// Binary search for the first position whose key is not before `key`
/// (exact on a sorted index; on an unsorted one, where this search lands).
pub open spec fn bsearch(keys: Seq<Seq<u8>>, key: Seq<u8>, lo: int, hi: int) -> int
    decreases hi - lo,
{
    if lo >= hi {
        lo
    } else {
        let mid = lo + (hi - lo) / 2;
        if lex_lt(keys[mid], key) { bsearch(keys, key, mid + 1, hi) } else { bsearch(keys, key, lo, mid) }
    }
}

/// The keys of an index.
pub open spec fn index_keys(index: Seq<(Seq<u8>, u64)>) -> Seq<Seq<u8>> {
    index.map_values(|e: (Seq<u8>, u64)| e.0)
}

/// Scanning the data block from `pos` (below `end`) for `key`: the entry
/// found, `None` when the scan passes the key or runs out, or the offset of an
/// entry whose checksum fails.
pub open spec fn scan_spec(data: Seq<u8>, pos: int, end: int, key: Seq<u8>) -> Result<Option<Option<Seq<u8>>>, int>
    decreases data.len() - pos,
{
    if !(0 <= pos && pos < end && pos + 13 <= data.len()) {
        Ok(None)
    } else {
        let kl = from_be32(data.subrange(pos, pos + 4)) as int;
        let vl = from_be32(data.subrange(pos + 4, pos + 8)) as int;
        let tomb = data[pos + 8] == 1;
        let crc = from_be32(data.subrange(pos + 9, pos + 13));
        let p = pos + 13;
        if p + kl + vl > data.len() {
            Ok(None)
        } else {
            let k = data.subrange(p, p + kl);
            let v = data.subrange(p + kl, p + kl + vl);
            if crc != spec_crc32(k + v) {
                Err(p)
            } else if k == key {
                Ok(Some(if tomb { None } else { Some(v) }))
            } else if lex_lt(key, k) {
                Ok(None)
            } else {
                scan_spec(data, p + kl + vl, end, key)
            }
        }
    }
}

/// Scan a data block from `start` (below `end`) for `key`, checking each
/// entry's checksum on the way: as `scan_spec` says.
pub fn scan_block(data: &[u8], start: usize, end: usize, key: &[u8]) -> (r: Result<Option<Value>, usize>)
    ensures
        match (r, scan_spec(data@, start as int, end as int, key@)) {
            (Ok(v), Ok(o)) => opt_value_view(v) == o,
            (Err(p), Err(q)) => p == q,
            _ => false,
        },
{
    let dlen = data.len();
    let mut pos = start;
    while pos < end && pos <= dlen && dlen - pos >= ENTRY_HEADER_SIZE
        invariant
            dlen == data@.len(),
            scan_spec(data@, start as int, end as int, key@) == scan_spec(data@, pos as int, end as int, key@),
        decreases dlen - pos,
    {
        let ghost p0 = pos as int;
        let kl = read_be32(data, pos) as usize;
        let vl = read_be32(data, pos + 4) as usize;
        let is_tombstone = data[pos + 8] == 1;
        let stored_crc = read_be32(data, pos + 9);
        pos = pos + ENTRY_HEADER_SIZE;
        proof {
            assert(kl as int == from_be32(data@.subrange(p0, p0 + 4)) as int);
            assert(vl as int == from_be32(data@.subrange(p0 + 4, p0 + 8)) as int);
        }
        if kl > dlen - pos || vl > dlen - pos - kl {
            proof {
                assert(scan_spec(data@, p0, end as int, key@) == Ok::<Option<Option<Seq<u8>>>, int>(None));
            }
            return Ok(None);
        }
        let k = copy_range(data, pos, kl);
        let v = copy_range(data, pos + kl, vl);
        let mut crc_data: Vec<u8> = Vec::with_capacity(kl);
        push_all(&mut crc_data, k.as_slice());
        push_all(&mut crc_data, v.as_slice());
        let computed_crc = crc32(crc_data.as_slice());
        proof {
            assert(crc_data@ == k@ + v@);
            assert(k@ == data@.subrange(pos as int, pos + kl));
        }
        if stored_crc != computed_crc {
            proof {
                assert(scan_spec(data@, p0, end as int, key@) == Err::<Option<Option<Seq<u8>>>, int>(pos as int));
            }
            return Err(pos);
        }
        pos = pos + kl + vl;
        if bytes_eq(k.as_slice(), key) {
            return Ok(Some(if is_tombstone { Value::Tombstone } else { Value::Data(v) }));
        }
        if bytes_lt(key, k.as_slice()) {
            return Ok(None);
        }
    }
    Ok(None)
}

/// A point lookup on an opened table: `Ok(Some(entry))`, `Ok(None)` when the
/// filter or the search rules the key out, or the offset of a corrupt entry.
pub open spec fn spec_get(m: ReaderModel, key: Seq<u8>) -> Result<Option<Option<Seq<u8>>>, int> {
    if !spec_may_contain(m.bits, key, m.nh, m.nb) {
        Ok(None)
    } else {
        let keys = index_keys(m.index);
        let j = bsearch(keys, key, 0, keys.len() as int);
        let found = j < keys.len() && keys[j] == key;
        if !found && j == 0 {
            Ok(None)
        } else {
            let idx = if found { j } else { j - 1 };
            let start = (m.index[idx].1 as usize) as int;
            let end = if idx + 1 < m.index.len() { (m.index[idx + 1].1 as usize) as int } else { m.data.len() as int };
            scan_spec(m.data, start, end, key)
        }
    }
}

/// All entries of a data block from `pos`, until one is cut short.
pub open spec fn scan_all_spec(data: Seq<u8>, pos: int) -> Seq<Entry>
    decreases data.len() - pos,
{
    if !(0 <= pos && pos + 13 <= data.len()) {
        Seq::empty()
    } else {
        let kl = from_be32(data.subrange(pos, pos + 4)) as int;
        let vl = from_be32(data.subrange(pos + 4, pos + 8)) as int;
        let tomb = data[pos + 8] == 1;
        let p = pos + 13;
        if p + kl + vl > data.len() {
            Seq::empty()
        } else {
            let k = data.subrange(p, p + kl);
            let v = data.subrange(p + kl, p + kl + vl);
            seq![(k, if tomb { None } else { Some(v) })] + scan_all_spec(data, p + kl + vl)
        }
    }
}

/// The message for an entry whose checksum fails.
pub open spec fn crc_offset_message(p: int) -> Seq<char> {
    "CRC mismatch for key at offset "@ + decimal_digits(p as nat)
}

/// An opened table, for point lookups and scans.
pub struct SsTableReader {
    index: Vec<IndexEntry>,
    bloom: BloomFilter,
    data_len: u64,
    compressed_len: u64,
    data: Vec<u8>,
}

impl SsTableReader {
    /// What this reader holds.
    pub closed spec fn model(&self) -> ReaderModel {
        ReaderModel {
            index: index_view(self.index@),
            bits: self.bloom.bits_spec(),
            nb: self.bloom.nbits(),
            nh: self.bloom.nhashes(),
            data_len: self.data_len,
            compressed_len: self.compressed_len,
            data: self.data@,
        }
    }

    /// Lookups cannot fail on the filter: it has bits, or it has no probes.
    pub open spec fn usable(&self) -> bool {
        self.model().nh == 0 || (self.model().nb > 0 && self.model().bits.len() == words_for(self.model().nb))
    }
}

/// The abstract answer of a lookup.
pub open spec fn opt_value_view(r: Option<Value>) -> Option<Option<Seq<u8>>> {
    match r {
        Some(v) => Some(v@),
        None => None,
    }
}

/// Prepend index entries to a parse outcome.
pub open spec fn prepend_index(s: Seq<(Seq<u8>, u64)>, r: Option<Seq<(Seq<u8>, u64)>>) -> Option<Seq<(Seq<u8>, u64)>> {
    match r {
        Some(rest) => Some(s + rest),
        None => None,
    }
}

fn read_index(image: &[u8], index_offset: u64, index_end: u64) -> (r: Result<Vec<IndexEntry>, Error>)
    ensures
        match (r, parse_index(image@, index_offset as int, index_end as int)) {
            (Ok(v), Some(s)) => index_view(v@) == s,
            (Err(e), None) => e matches Error::Io(m) && m@ == spec_eof_message(),
            _ => false,
        },
{
    let len = image.len() as u64;
    let mut index: Vec<IndexEntry> = Vec::new();
    let mut pos: u64 = index_offset;
    proof {
        match parse_index(image@, index_offset as int, index_end as int) {
            Some(t) => { assert(index_view(index@) + t =~= t); },
            None => {},
        }
    }
    while pos < index_end
        invariant
            len == image@.len(),
            image@.len() <= usize::MAX,
            index_offset <= pos,
            parse_index(image@, index_offset as int, index_end as int)
                == prepend_index(index_view(index@), parse_index(image@, pos as int, index_end as int)),
        decreases len - pos + 1,
    {
        if len < 4 || pos > len - 4 {
            proof {
                assert(parse_index(image@, pos as int, index_end as int) is None);
            }
            return Err(eof_error());
        }
        let p = pos as usize;
        assert(p as int == pos as int);
        let kl = read_be32(image, p);
        proof {
            assert(image@.subrange(p as int, p + 4) == image@.subrange(pos as int, pos + 4));
        }
        if (kl as u64) > len - pos - 4 || len - pos - 4 - (kl as u64) < 8 {
            proof {
                assert(pos + 12 + kl > image@.len());
                assert(parse_index(image@, pos as int, index_end as int) is None);
            }
            return Err(eof_error());
        }
        let k = kl as usize;
        let key = copy_range(image, p + 4, k);
        let offset = read_be64(image, p + 4 + k);
        let ghost before = index@;
        index.push(IndexEntry { key, offset });
        proof {
            let e = (key@, offset);
            assert(index_view(index@) =~= index_view(before).push(e));
            match parse_index(image@, pos + 12 + k, index_end as int) {
                Some(t) => {
                    assert(index_view(before) + (seq![e] + t) =~= index_view(index@) + t);
                },
                None => {},
            }
        }
        pos = pos + 12 + (kl as u64);
    }
    proof {
        assert(index_view(index@) + Seq::<(Seq<u8>, u64)>::empty() =~= index_view(index@));
    }
    Ok(index)
}

fn read_bloom(image: &[u8], bloom_offset: u64) -> (r: Result<BloomFilter, Error>)
    ensures
        match (r, parse_bloom(image@, bloom_offset as int)) {
            (Ok(b), Some((nb, nh, bits))) => b.nbits() == nb && b.nhashes() == nh && b.bits_spec() == bits,
            (Err(e), None) => e matches Error::Io(m) && m@ == spec_eof_message(),
            _ => false,
        },
{
    let len = image.len() as u64;
    if len < 16 || bloom_offset > len - 16 {
        return Err(eof_error());
    }
    let bo = bloom_offset as usize;
    let num_bits = read_be64(image, bo) as usize;
    let num_hashes = read_be64(image, bo + 8) as usize;
    let num_words = num_bits / 64 + if num_bits % 64 == 0 { 0 } else { 1 };
    proof {
        assert(num_words == words_for(num_bits as nat));
    }
    if (num_words as u64) > (len - bloom_offset - 16) / 8 {
        proof {
            let y = (len - bloom_offset - 16) as int;
            assert(8 * (num_words as int) > y) by (nonlinear_arith)
                requires (num_words as int) > y / 8, y >= 0;
        }
        return Err(eof_error());
    }
    proof {
        let y = (len - bloom_offset - 16) as int;
        assert(8 * (num_words as int) <= y) by (nonlinear_arith)
            requires (num_words as int) <= y / 8, y >= 0;
    }
    let mut bits: Vec<u64> = Vec::with_capacity(num_words);
    let mut i: usize = 0;
    let ghost img = image@;
    while i < num_words
        invariant
            i <= num_words,
            len == img.len(),
            img == image@,
            img.len() <= usize::MAX,
            bo == bloom_offset,
            bo + 16 + 8 * num_words <= len,
            bits@.len() == i,
            forall|j: int| 0 <= j < i ==> #[trigger] bits@[j] == from_le64(img.subrange(bo + 16 + 8 * j, bo + 24 + 8 * j)),
        decreases num_words - i,
    {
        let w = read_le64(image, bo + 16 + 8 * i);
        bits.push(w);
        i = i + 1;
    }
    proof {
        let want = Seq::new(words_for(num_bits as nat), |j: int| from_le64(img.subrange(bo + 16 + 8 * j, bo + 24 + 8 * j)));
        assert(bits@ =~= want);
    }
    Ok(BloomFilter::from_raw(bits, num_bits, num_hashes))
}

impl SsTableReader {
    /// Open a table from its bytes: check the footer, read (and if needed
    /// decompress) the data block, then the index and the filter.
    pub fn open(image: &[u8]) -> (r: Result<SsTableReader, Error>)
        ensures
            match (r, spec_open(image@)) {
                (Ok(rd), Ok(m)) => rd.model() == m,
                (Err(e), Err(f)) => open_fault_matches(e, f),
                _ => false,
            },
    {
        let len = image.len();
        if len < FOOTER_SIZE {
            return Err(Error::Corruption("SSTable too small".to_owned()));
        }
        let f = len - FOOTER_SIZE;
        let index_offset = read_be64(image, f);
        let bloom_offset = read_be64(image, f + 8);
        let data_len = read_be64(image, f + 16);
        let compressed_len = read_be64(image, f + 24);
        let magic = read_be64(image, f + 32);
        if magic != MAGIC {
            let mut msg = "Bad magic: 0x".to_owned();
            push_hex(&mut msg, magic, 16, true);
            return Err(Error::Corruption(msg));
        }
        let cl = compressed_len as usize;
        if cl > len {
            return Err(eof_error());
        }
        let raw = copy_range(image, 0, cl);
        let data = if compressed_len != data_len {
            match zstd_decode(raw.as_slice()) {
                Ok(d) => d,
                Err(m) => {
                    return Err(Error::Io(m));
                },
            }
        } else {
            raw
        };
        let index = read_index(image, index_offset, bloom_offset)?;
        let bloom = read_bloom(image, bloom_offset)?;
        let rd = SsTableReader { index, bloom, data_len, compressed_len, data };
        proof {
            let m = spec_open(image@).get_Ok_0();
            assert(rd.model() =~= m);
        }
        Ok(rd)
    }

    /// Point lookup: `Ok(None)` when the key is absent (the filter or the
    /// index search rules it out, or the scan passes it), the entry when found,
    /// and a corruption error when a scanned entry fails its checksum.
    pub fn get(&self, key: &[u8]) -> (r: Result<Option<Value>, Error>)
        requires
            self.usable(),
        ensures
            match (r, spec_get(self.model(), key@)) {
                (Ok(v), Ok(o)) => opt_value_view(v) == o,
                (Err(e), Err(p)) => e matches Error::Corruption(m) && m@ == crc_offset_message(p),
                _ => false,
            },
    {
        if !self.bloom.may_contain(key) {
            return Ok(None);
        }
        let ghost keys = index_keys(self.model().index);
        // Binary search for the first index entry whose key is not before `key`.
        let n = self.index.len();
        let mut lo: usize = 0;
        let mut hi: usize = n;
        proof {
            assert(keys.len() == n);
        }
        while lo < hi
            invariant
                n == self.index@.len(),
                keys == index_keys(self.model().index),
                keys.len() == n,
                lo <= hi <= n,
                bsearch(keys, key@, 0, n as int) == bsearch(keys, key@, lo as int, hi as int),
            decreases hi - lo,
        {
            let mid = lo + (hi - lo) / 2;
            proof {
                assert(keys[mid as int] == self.index@[mid as int].key@);
            }
            if bytes_lt(self.index[mid].key.as_slice(), key) {
                lo = mid + 1;
            } else {
                hi = mid;
            }
        }
        let j = lo;
        let found = j < n && bytes_eq(self.index[j].key.as_slice(), key);
        proof {
            if j < n {
                assert(keys[j as int] == self.index@[j as int].key@);
            }
        }
        if !found && j == 0 {
            return Ok(None);
        }
        let idx = if found { j } else { j - 1 };
        let mut pos = self.index[idx].offset as usize;
        let scan_end = if idx + 1 < n { self.index[idx + 1].offset as usize } else { self.data.len() };
        let dlen = self.data.len();
        let ghost start = pos as int;
        proof {
            assert(self.model().index[idx as int].1 == self.index@[idx as int].offset);
            if idx + 1 < n {
                assert(self.model().index[idx + 1].1 == self.index@[idx + 1].offset);
            }
            assert(spec_get(self.model(), key@) == scan_spec(self.data@, start, scan_end as int, key@));
        }
        match scan_block(self.data.as_slice(), pos, scan_end, key) {
            Ok(v) => Ok(v),
            Err(p) => {
                let mut msg = "CRC mismatch for key at offset ".to_owned();
                push_decimal(&mut msg, p as u64);
                Err(Error::Corruption(msg))
            },
        }
    }

    /// All entries of the table in stored order (for compaction and range
    /// scans); stops at an entry cut short.  Checksums are not checked here.
    pub fn scan_all(&self) -> (r: Result<Vec<(Vec<u8>, Value)>, Error>)
        ensures
            r matches Ok(v) && entries_view(v@) == scan_all_spec(self.model().data, 0),
    {
        let mut entries: Vec<(Vec<u8>, Value)> = Vec::new();
        let mut pos: usize = 0;
        let dlen = self.data.len();
        proof {
            assert(entries_view(entries@) + scan_all_spec(self.data@, 0) =~= scan_all_spec(self.data@, 0));
        }
        while pos <= dlen && dlen - pos >= ENTRY_HEADER_SIZE
            invariant
                dlen == self.data@.len(),
                scan_all_spec(self.data@, 0) == entries_view(entries@) + scan_all_spec(self.data@, pos as int),
            decreases dlen - pos,
        {
            let kl = read_be32(self.data.as_slice(), pos) as usize;
            let vl = read_be32(self.data.as_slice(), pos + 4) as usize;
            let is_tombstone = self.data[pos + 8] == 1;
            let _stored_crc = read_be32(self.data.as_slice(), pos + 9);
            let ghost p0 = pos as int;
            pos = pos + ENTRY_HEADER_SIZE;
            if kl > dlen - pos || vl > dlen - pos - kl {
                proof {
                    assert(entries_view(entries@) + Seq::<Entry>::empty() =~= entries_view(entries@));
                }
                return Ok(entries);
            }
            let k = copy_range(self.data.as_slice(), pos, kl);
            let v = copy_range(self.data.as_slice(), pos + kl, vl);
            pos = pos + kl + vl;
            let ghost before = entries@;
            let ghost e: Entry = (k@, if is_tombstone { None } else { Some(v@) });
            entries.push((k, if is_tombstone { Value::Tombstone } else { Value::Data(v) }));
            proof {
                assert(entries_view(entries@) =~= entries_view(before).push(e));
                assert(entries_view(before) + (seq![e] + scan_all_spec(self.data@, pos as int))
                    =~= entries_view(entries@) + scan_all_spec(self.data@, pos as int));
            }
        }
        proof {
            assert(entries_view(entries@) + Seq::<Entry>::empty() =~= entries_view(entries@));
        }
        Ok(entries)
    }

    /// The first key of the index.
    pub fn min_key(&self) -> (r: Option<&[u8]>)
        ensures
            match r {
                Some(k) => self.model().index.len() > 0 && k@ == self.model().index[0].0,
                None => self.model().index.len() == 0,
            },
    {
        if self.index.len() == 0 {
            None
        } else {
            Some(self.index[0].key.as_slice())
        }
    }

    /// The last key of the index.
    pub fn max_key(&self) -> (r: Option<&[u8]>)
        ensures
            match r {
                Some(k) => self.model().index.len() > 0 && k@ == self.model().index.last().0,
                None => self.model().index.len() == 0,
            },
    {
        if self.index.len() == 0 {
            None
        } else {
            Some(self.index[self.index.len() - 1].key.as_slice())
        }
    }

    /// Whether lookups can probe the filter (see `usable`).
    pub fn is_usable(&self) -> (r: bool)
        ensures
            r == self.usable(),
    {
        let nb = self.bloom.num_bits();
        let nh = self.bloom.num_hashes();
        let words = nb / 64 + if nb % 64 != 0 { 1 } else { 0 };
        proof {
            assert(words == words_for(nb as nat)) by (nonlinear_arith)
                requires
                    words == nb / 64 + if nb % 64 != 0 { 1int } else { 0int },
            {
            }
        }
        nh == 0 || (nb > 0 && self.bloom.raw_bits().len() == words)
    }

    /// The number of index entries.
    pub fn entry_count(&self) -> (r: usize)
        ensures
            r == self.model().index.len(),
    {
        self.index.len()
    }

    /// The data block, given up by the reader.
    pub fn into_data(self) -> (r: Vec<u8>)
        ensures
            r@ == self.model().data,
    {
        self.data
    }
}

} // verus!
