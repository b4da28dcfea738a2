//! The write-ahead log's record format.
//!
//! Each record is:
//!   [1 byte]  op_type: 0x01 = Put, 0x02 = Delete
//!   [4 bytes] key_len  (big-endian u32)
//!   [4 bytes] val_len  (big-endian u32, 0 for Delete)
//!   [N bytes] key
//!   [M bytes] value
//!   [4 bytes] CRC32 of (op_type | key_len | val_len | key | value)
//!
//! Reading and writing the log file is the caller's part; this module turns
//! records into bytes and bytes back into records.
use vstd::prelude::*;
use crate::codec::{be32, from_be32, spec_crc32c, CRC32C_POLY, lemma_crc_fold_append, lemma_be32_roundtrip,
    push_be32, push_all, read_be32, crc_feed};
use crate::entries::Entry;
use crate::error::{Error, eof_error, spec_eof_message};
use crate::memtable::copy_bytes;
use crate::text::{hex_digits, push_hex, spec_utf8_lossy, spec_debug_str, utf8_lossy, debug_str};

verus! {

pub const OP_PUT: u8 = 0x01;
pub const OP_DELETE: u8 = 0x02;

/// One logged operation.
pub enum WalRecord {
    Put { key: Vec<u8>, value: Vec<u8> },
    Delete { key: Vec<u8> },
}

impl View for WalRecord {
    type V = Entry;

    /// A put is its key and `Some(value)`; a delete is its key and `None`.
    open spec fn view(&self) -> Entry {
        match self {
            WalRecord::Put { key, value } => (key@, Some(value@)),
            WalRecord::Delete { key } => (key@, None),
        }
    }
}

/// The abstract records of a run of concrete ones.
pub open spec fn records_view(s: Seq<WalRecord>) -> Seq<Entry> {
    s.map_values(|r: WalRecord| r@)
}

/// The fields that the checksum of a record covers.
pub open spec fn record_body(op: u8, k: Seq<u8>, v: Seq<u8>) -> Seq<u8> {
    seq![op] + be32(k.len() as u32) + be32(v.len() as u32) + k + v
}

/// The bytes of one record.
pub open spec fn record_bytes(op: u8, k: Seq<u8>, v: Seq<u8>) -> Seq<u8> {
    record_body(op, k, v) + be32(spec_crc32c(record_body(op, k, v)))
}

/// The bytes that log one abstract operation.
pub open spec fn entry_record(e: Entry) -> Seq<u8> {
    match e.1 {
        Some(v) => record_bytes(OP_PUT, e.0, v),
        None => record_bytes(OP_DELETE, e.0, Seq::empty()),
    }
}

/// The bytes of a whole log.
pub open spec fn log_bytes(s: Seq<Entry>) -> Seq<u8>
    decreases s.len(),
{
    if s.len() == 0 {
        Seq::empty()
    } else {
        entry_record(s[0]) + log_bytes(s.drop_first())
    }
}

/// Why a log could not be read back.
pub enum WalFault {
    /// The log ends inside a record.
    Truncated,
    /// A record's checksum does not match; its key is given.
    BadChecksum(Seq<u8>),
    /// A record has an operation byte that is neither put nor delete.
    BadOp(u8),
}

/// What a log's bytes hold: the operations in order, or the first fault.
#[verifier::opaque]
pub open spec fn wal_parse(b: Seq<u8>) -> Result<Seq<Entry>, WalFault>
    decreases b.len(),
{
    if b.len() == 0 {
        Ok(Seq::empty())
    } else if b.len() < 9 {
        Err(WalFault::Truncated)
    } else {
        let kl = from_be32(b.subrange(1, 5)) as int;
        let vl = from_be32(b.subrange(5, 9)) as int;
        if b.len() < 13 + kl + vl {
            Err(WalFault::Truncated)
        } else {
            let k = b.subrange(9, 9 + kl);
            let v = b.subrange(9 + kl, 9 + kl + vl);
            let stored = from_be32(b.subrange(9 + kl + vl, 13 + kl + vl));
            if stored != spec_crc32c(b.subrange(0, 9 + kl + vl)) {
                Err(WalFault::BadChecksum(k))
            } else if b[0] != OP_PUT && b[0] != OP_DELETE {
                Err(WalFault::BadOp(b[0]))
            } else {
                let e: Entry = if b[0] == OP_PUT { (k, Some(v)) } else { (k, None) };
                match wal_parse(b.subrange(13 + kl + vl, b.len() as int)) {
                    Ok(rest) => Ok(seq![e] + rest),
                    Err(f) => Err(f),
                }
            }
        }
    }
}

/// The message of a checksum failure.
pub open spec fn crc_mismatch_message(k: Seq<u8>) -> Seq<char> {
    "CRC mismatch at record (key="@ + spec_debug_str(spec_utf8_lossy(k)) + ")"@
}

/// The message of an unknown operation byte.
pub open spec fn bad_op_message(op: u8) -> Seq<char> {
    "Unknown op_type: 0x"@ + hex_digits(op as nat, 2, false)
}

/// The error that reading a log reports for a fault.
pub open spec fn fault_matches(e: Error, f: WalFault) -> bool {
    match f {
        WalFault::Truncated => e matches Error::Io(m) && m@ == spec_eof_message(),
        WalFault::BadChecksum(k) => e matches Error::WalReplayError(m) && m@ == crc_mismatch_message(k),
        WalFault::BadOp(op) => e matches Error::WalReplayError(m) && m@ == bad_op_message(op),
    }
}

/// The checksum of a record's fields: CRC-32C (Castagnoli) of the operation
/// byte, the two lengths and the key and value.
pub fn wal_crc32(op: &[u8], key_len: u32, val_len: u32, key: &[u8], value: &[u8]) -> (r: u32)
    ensures
        r == spec_crc32c(op@ + be32(key_len) + be32(val_len) + key@ + value@),
{
    let mut lens: Vec<u8> = Vec::new();
    push_be32(&mut lens, key_len);
    push_be32(&mut lens, val_len);
    let c1 = crc_feed(CRC32C_POLY, 0xFFFF_FFFFu32, op);
    let c2 = crc_feed(CRC32C_POLY, c1, lens.as_slice());
    let c3 = crc_feed(CRC32C_POLY, c2, key);
    let c4 = crc_feed(CRC32C_POLY, c3, value);
    proof {
        let init = 0xFFFF_FFFFu32;
        assert(lens@ =~= be32(key_len) + be32(val_len));
        lemma_crc_fold_append(CRC32C_POLY, init, op@, lens@);
        lemma_crc_fold_append(CRC32C_POLY, init, op@ + lens@, key@);
        lemma_crc_fold_append(CRC32C_POLY, init, op@ + lens@ + key@, value@);
        assert(op@ + be32(key_len) + be32(val_len) =~= op@ + lens@);
    }
    !c4
}

/// The bytes of one record (the record writer's encoding).
pub fn encode_record(op: u8, key: &[u8], value: &[u8]) -> (r: Vec<u8>)
    ensures
        r@ == record_bytes(op, key@, value@),
{
    let key_len = key.len() as u32;
    let val_len = value.len() as u32;
    let op_buf: [u8; 1] = [op];
    let checksum = wal_crc32(op_buf.as_slice(), key_len, val_len, key, value);
    let mut out: Vec<u8> = Vec::new();
    out.push(op);
    push_be32(&mut out, key_len);
    push_be32(&mut out, val_len);
    push_all(&mut out, key);
    push_all(&mut out, value);
    push_be32(&mut out, checksum);
    proof {
        assert(op_buf@ =~= seq![op]);
        assert(out@ =~= record_bytes(op, key@, value@));
    }
    out
}

/// The bytes that log a put.
pub fn encode_put(key: &[u8], value: &[u8]) -> (r: Vec<u8>)
    ensures
        r@ == entry_record((key@, Some(value@))),
{
    encode_record(OP_PUT, key, value)
}

/// The bytes that log a delete.
pub fn encode_delete(key: &[u8]) -> (r: Vec<u8>)
    ensures
        r@ == entry_record((key@, None)),
{
    let empty: [u8; 0] = [];
    assert(empty@ =~= Seq::<u8>::empty());
    encode_record(OP_DELETE, key, empty.as_slice())
}

/// Prepend a run of operations to a parse outcome.
pub open spec fn prepend(s: Seq<Entry>, r: Result<Seq<Entry>, WalFault>) -> Result<Seq<Entry>, WalFault> {
    match r {
        Ok(rest) => Ok(s + rest),
        Err(f) => Err(f),
    }
}

/// Read back the records of a log (the replay on its bytes).  The result is
/// the operations that the bytes hold, in order, or the error for the first
/// fault: a log cut inside a record, a checksum mismatch, or an unknown op.
pub fn parse_wal(bytes: &[u8]) -> (r: Result<Vec<WalRecord>, Error>)
    ensures
        match (r, wal_parse(bytes@)) {
            (Ok(recs), Ok(s)) => records_view(recs@) == s,
            (Err(e), Err(f)) => fault_matches(e, f),
            _ => false,
        },
{
    reveal(wal_parse);
    let mut records: Vec<WalRecord> = Vec::new();
    let mut pos: usize = 0;
    let len = bytes.len();
    proof {
        assert(bytes@.subrange(0, len as int) =~= bytes@);
        match wal_parse(bytes@) {
            Ok(t) => { assert(records_view(records@) + t =~= t); },
            Err(_) => {},
        }
    }
    while pos < len
        invariant
            len == bytes@.len(),
            pos <= len,
            wal_parse(bytes@) == prepend(records_view(records@), wal_parse(bytes@.subrange(pos as int, len as int))),
        decreases len - pos,
    {
        let ghost b = bytes@.subrange(pos as int, len as int);
        proof { reveal(wal_parse); }
        let op = bytes[pos];
        if len - pos < 9 {
            return Err(eof_error());
        }
        let key_len = read_be32(bytes, pos + 1);
        let val_len = read_be32(bytes, pos + 5);
        proof {
            assert(b.subrange(1, 5) =~= bytes@.subrange(pos + 1, pos + 5));
            assert(b.subrange(5, 9) =~= bytes@.subrange(pos + 5, pos + 9));
        }
        let kl = key_len as usize;
        let vl = val_len as usize;
        if len - pos - 9 < kl {
            return Err(eof_error());
        }
        if len - pos - 9 - kl < vl {
            return Err(eof_error());
        }
        if len - pos - 9 - kl - vl < 4 {
            return Err(eof_error());
        }
        let kstart = pos + 9;
        let vstart = kstart + kl;
        let cstart = vstart + vl;
        let key = copy_range(bytes, kstart, kl);
        let value = copy_range(bytes, vstart, vl);
        let stored_crc = read_be32(bytes, cstart);
        let op_buf: [u8; 1] = [op];
        let computed_crc = wal_crc32(op_buf.as_slice(), key_len, val_len, key.as_slice(), value.as_slice());
        proof {
            assert(b.subrange(9, 9 + kl) =~= key@);
            assert(b.subrange(9 + kl, 9 + kl + vl) =~= value@);
            assert(b.subrange(9 + kl + vl, 13 + kl + vl) =~= bytes@.subrange(cstart as int, cstart + 4));
            lemma_be32_roundtrip(key_len);
            lemma_be32_roundtrip(val_len);
            assert(be32(key_len) =~= b.subrange(1, 5)) by {
                let x = from_be32(b.subrange(1, 5));
                lemma_be32_from_roundtrip(b.subrange(1, 5));
            }
            assert(be32(val_len) =~= b.subrange(5, 9)) by {
                lemma_be32_from_roundtrip(b.subrange(5, 9));
            }
            assert(op_buf@ + be32(key_len) + be32(val_len) + key@ + value@ =~= b.subrange(0, 9 + kl + vl));
        }
        if stored_crc != computed_crc {
            let shown = utf8_lossy(key.as_slice());
            let shown = debug_str(shown.as_str());
            let mut msg = "CRC mismatch at record (key=".to_owned();
            msg.append(shown.as_str());
            msg.append(")");
            return Err(Error::WalReplayError(msg));
        }
        let ghost before = records@;
        if op == OP_PUT {
            records.push(WalRecord::Put { key, value });
        } else if op == OP_DELETE {
            records.push(WalRecord::Delete { key });
        } else {
            let mut msg = "Unknown op_type: 0x".to_owned();
            push_hex(&mut msg, op as u64, 2, false);
            return Err(Error::WalReplayError(msg));
        }
        proof {
            let e: Entry = if op == OP_PUT { (key@, Some(value@)) } else { (key@, None) };
            assert(records_view(records@) =~= records_view(before).push(e));
            assert(b.subrange(13 + kl + vl, b.len() as int) =~= bytes@.subrange(cstart + 4, len as int));
            assert(records_view(before).push(e) =~= records_view(before) + seq![e]);
            let rest = wal_parse(bytes@.subrange(cstart + 4, len as int));
            match rest {
                Ok(t) => {
                    assert(records_view(before) + (seq![e] + t) =~= records_view(records@) + t);
                },
                Err(_) => {},
            }
        }
        pos = cstart + 4;
    }
    proof {
        assert(records_view(records@) + Seq::<Entry>::empty() =~= records_view(records@));
    }
    Ok(records)
}

/// Re-encoding four decoded bytes gives them back.
proof fn lemma_be32_from_roundtrip(b: Seq<u8>)
    requires
        b.len() == 4,
    ensures
        be32(from_be32(b)) =~= b,
{
    let b0 = b[0];
    let b1 = b[1];
    let b2 = b[2];
    let b3 = b[3];
    let x = from_be32(b);
    assert(x == ((b0 as u32) << 24u32) | ((b1 as u32) << 16u32) | ((b2 as u32) << 8u32) | (b3 as u32));
    assert((x >> 24u32) as u8 == b0 && (x >> 16u32) as u8 == b1 && (x >> 8u32) as u8 == b2 && x as u8 == b3)
        by (bit_vector)
        requires
            x == ((b0 as u32) << 24u32) | ((b1 as u32) << 16u32) | ((b2 as u32) << 8u32) | (b3 as u32),
    ;
}

/// A copy of `n` bytes starting at `start`.
pub fn copy_range(b: &[u8], start: usize, n: usize) -> (r: Vec<u8>)
    requires
        start + n <= b.len(),
    ensures
        r@ == b@.subrange(start as int, start + n),
{
    let mut r: Vec<u8> = Vec::with_capacity(n);
    let mut i: usize = 0;
    while i < n
        invariant
            i <= n,
            start + n <= b.len(),
            r@ =~= b@.subrange(start as int, start + i),
        decreases n - i,
    {
        r.push(b[start + i]);
        i = i + 1;
    }
    r
}

/// One record followed by more bytes parses as that record, then the rest.
proof fn lemma_record_parse(e: Entry, tail: Seq<u8>)
    requires
        e.0.len() < 0x1_0000_0000,
        match e.1 {
            Some(v) => v.len() < 0x1_0000_0000,
            None => true,
        },
    ensures
        wal_parse(entry_record(e) + tail) == prepend(seq![e], wal_parse(tail)),
{
    reveal(wal_parse);
    let (op, v) = match e.1 {
        Some(v) => (OP_PUT, v),
        None => (OP_DELETE, Seq::<u8>::empty()),
    };
    let k = e.0;
    let b = entry_record(e) + tail;
    let body = record_body(op, k, v);
    assert(entry_record(e) == record_bytes(op, k, v));
    let kl32 = k.len() as u32;
    let vl32 = v.len() as u32;
    lemma_be32_roundtrip(kl32);
    lemma_be32_roundtrip(vl32);
    let kl = k.len() as int;
    let vl = v.len() as int;
    assert(b.subrange(1, 5) =~= be32(kl32));
    assert(b.subrange(5, 9) =~= be32(vl32));
    assert(b.subrange(9, 9 + kl) =~= k);
    assert(b.subrange(9 + kl, 9 + kl + vl) =~= v);
    assert(b.subrange(0, 9 + kl + vl) =~= body);
    let c = spec_crc32c(body);
    lemma_be32_roundtrip(c);
    assert(b.subrange(9 + kl + vl, 13 + kl + vl) =~= be32(c));
    assert(b.subrange(13 + kl + vl, b.len() as int) =~= tail);
    assert(b[0] == op);
}

/// Replaying the bytes of a log gives back the operations that were logged,
/// provided each key and value is shorter than 4 GiB (the width of the length
/// fields).
#[verifier::spinoff_prover]
pub proof fn lemma_wal_roundtrip(s: Seq<Entry>)
    requires
        forall|i: int| 0 <= i < s.len() ==> (#[trigger] s[i]).0.len() < 0x1_0000_0000,
        forall|i: int| 0 <= i < s.len() ==> match (#[trigger] s[i]).1 {
            Some(v) => v.len() < 0x1_0000_0000,
            None => true,
        },
    ensures
        wal_parse(log_bytes(s)) == Ok::<Seq<Entry>, WalFault>(s),
    decreases s.len(),
{
    if s.len() == 0 {
        reveal(wal_parse);
        assert(log_bytes(s) =~= Seq::<u8>::empty());
        assert(s =~= Seq::<Entry>::empty());
    } else {
        let rest = s.drop_first();
        assert forall|i: int| 0 <= i < rest.len() implies (#[trigger] rest[i]).0.len() < 0x1_0000_0000 by {
            assert(rest[i] == s[i + 1]);
        }
        assert forall|i: int| 0 <= i < rest.len() implies match (#[trigger] rest[i]).1 {
            Some(v) => v.len() < 0x1_0000_0000,
            None => true,
        } by {
            assert(rest[i] == s[i + 1]);
        }
        lemma_wal_roundtrip(rest);
        let e = s[0];
        assert(e.0.len() < 0x1_0000_0000);
        lemma_record_parse(e, log_bytes(rest));
        assert(log_bytes(s) == entry_record(e) + log_bytes(rest));
        assert(seq![e] + rest =~= s);
    }
}

} // verus!

verus! {

/// Logging one more operation appends its record.
pub proof fn lemma_log_bytes_push(s: Seq<Entry>, e: Entry)
    ensures
        log_bytes(s.push(e)) == log_bytes(s) + entry_record(e),
    decreases s.len(),
{
    if s.len() == 0 {
        assert(s.push(e).drop_first() =~= Seq::<Entry>::empty());
        assert(s.push(e)[0] == e);
        assert(log_bytes(s.push(e).drop_first()) == Seq::<u8>::empty());
        assert(log_bytes(s) == Seq::<u8>::empty());
        assert(log_bytes(s.push(e)) =~= log_bytes(s) + entry_record(e));
    } else {
        lemma_log_bytes_push(s.drop_first(), e);
        assert(s.push(e).drop_first() =~= s.drop_first().push(e));
        assert(log_bytes(s.push(e)) =~= log_bytes(s) + entry_record(e));
    }
}

} // verus!

verus! {

/// A log that reads back, followed by another that does, reads back as the
/// operations of the first and then those of the second.
pub proof fn lemma_parse_append(b: Seq<u8>, r: Seq<u8>)
    requires
        wal_parse(b) is Ok,
        wal_parse(r) is Ok,
    ensures
        wal_parse(b + r) == Ok::<Seq<Entry>, WalFault>(wal_parse(b)->Ok_0 + wal_parse(r)->Ok_0),
    decreases b.len(),
{
    reveal(wal_parse);
    let c = b + r;
    if b.len() == 0 {
        assert(c =~= r);
        assert(wal_parse(b)->Ok_0 =~= Seq::<Entry>::empty());
        assert(Seq::<Entry>::empty() + wal_parse(r)->Ok_0 =~= wal_parse(r)->Ok_0);
    } else {
        let kl = from_be32(b.subrange(1, 5)) as int;
        let vl = from_be32(b.subrange(5, 9)) as int;
        let n = 13 + kl + vl;
        assert(c.subrange(1, 5) =~= b.subrange(1, 5));
        assert(c.subrange(5, 9) =~= b.subrange(5, 9));
        assert(c.subrange(9, 9 + kl) =~= b.subrange(9, 9 + kl));
        assert(c.subrange(9 + kl, 9 + kl + vl) =~= b.subrange(9 + kl, 9 + kl + vl));
        assert(c.subrange(9 + kl + vl, n) =~= b.subrange(9 + kl + vl, n));
        assert(c.subrange(0, 9 + kl + vl) =~= b.subrange(0, 9 + kl + vl));
        assert(c[0] == b[0]);
        let bt = b.subrange(n, b.len() as int);
        lemma_parse_append(bt, r);
        assert(c.subrange(n, c.len() as int) =~= bt + r);
        let k = b.subrange(9, 9 + kl);
        let v = b.subrange(9 + kl, 9 + kl + vl);
        let e: Entry = if b[0] == OP_PUT { (k, Some(v)) } else { (k, None) };
        let rb = wal_parse(bt)->Ok_0;
        let rr = wal_parse(r)->Ok_0;
        assert(wal_parse(b)->Ok_0 == seq![e] + rb);
        assert(seq![e] + (rb + rr) =~= (seq![e] + rb) + rr);
    }
}

} // verus!

verus! {

/// An empty log reads back as no operations.
pub proof fn reveal_wal_parse_empty()
    ensures
        wal_parse(Seq::empty()) == Ok::<Seq<Entry>, WalFault>(Seq::empty()),
{
    reveal(wal_parse);
}

} // verus!

verus! {

/// The bytes the operations add to a memtable's count, each counted at
/// most: key, value, and one.
pub open spec fn ops_weight(s: Seq<Entry>) -> nat
    decreases s.len(),
{
    if s.len() == 0 {
        0
    } else {
        ops_weight(s.drop_last()) + s.last().0.len() + crate::sstable::stored_value(s.last().1).len() + 1
    }
}

proof fn lemma_weight_prepend(e: Entry, s: Seq<Entry>)
    ensures
        ops_weight(seq![e] + s) == ops_weight(s) + e.0.len() + crate::sstable::stored_value(e.1).len() + 1,
    decreases s.len(),
{
    if s.len() == 0 {
        assert(seq![e] + s =~= seq![e]);
        assert(seq![e].drop_last() =~= Seq::<Entry>::empty());
        assert(ops_weight(Seq::<Entry>::empty()) == 0);
        assert(ops_weight(s) == 0);
        assert(seq![e].last() == e);
    } else {
        lemma_weight_prepend(e, s.drop_last());
        assert((seq![e] + s).drop_last() =~= seq![e] + s.drop_last());
        assert((seq![e] + s).last() == s.last());
    }
}

/// A log's operations weigh no more than its bytes.
pub proof fn lemma_parse_weight(b: Seq<u8>)
    requires
        wal_parse(b) is Ok,
    ensures
        ops_weight(wal_parse(b)->Ok_0) <= b.len(),
    decreases b.len(),
{
    reveal(wal_parse);
    if b.len() > 0 {
        let kl = from_be32(b.subrange(1, 5)) as int;
        let vl = from_be32(b.subrange(5, 9)) as int;
        let n = 13 + kl + vl;
        let bt = b.subrange(n, b.len() as int);
        lemma_parse_weight(bt);
        let k = b.subrange(9, 9 + kl);
        let v = b.subrange(9 + kl, 9 + kl + vl);
        let e: Entry = if b[0] == OP_PUT { (k, Some(v)) } else { (k, None) };
        lemma_weight_prepend(e, wal_parse(bt)->Ok_0);
    }
}

} // verus!
