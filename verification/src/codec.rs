//! Big- and little-endian integer encodings and the CRC-32 checksum used by
//! the write-ahead log and the SSTable data block.
use vstd::prelude::*;

verus! {

/// The four big-endian bytes of `x`.
pub open spec fn be32(x: u32) -> Seq<u8> {
    seq![(x >> 24u32) as u8, (x >> 16u32) as u8, (x >> 8u32) as u8, x as u8]
}

/// The eight big-endian bytes of `x`.
pub open spec fn be64(x: u64) -> Seq<u8> {
    seq![
        (x >> 56u64) as u8, (x >> 48u64) as u8, (x >> 40u64) as u8, (x >> 32u64) as u8,
        (x >> 24u64) as u8, (x >> 16u64) as u8, (x >> 8u64) as u8, x as u8,
    ]
}

/// The eight little-endian bytes of `x`.
pub open spec fn le64(x: u64) -> Seq<u8> {
    seq![
        x as u8, (x >> 8u64) as u8, (x >> 16u64) as u8, (x >> 24u64) as u8,
        (x >> 32u64) as u8, (x >> 40u64) as u8, (x >> 48u64) as u8, (x >> 56u64) as u8,
    ]
}

/// The number that four big-endian bytes denote.
pub open spec fn from_be32(b: Seq<u8>) -> u32 {
    ((b[0] as u32) << 24u32) | ((b[1] as u32) << 16u32) | ((b[2] as u32) << 8u32) | (b[3] as u32)
}

/// The number that eight big-endian bytes denote.
pub open spec fn from_be64(b: Seq<u8>) -> u64 {
    ((b[0] as u64) << 56u64) | ((b[1] as u64) << 48u64) | ((b[2] as u64) << 40u64) | ((b[3] as u64) << 32u64)
        | ((b[4] as u64) << 24u64) | ((b[5] as u64) << 16u64) | ((b[6] as u64) << 8u64) | (b[7] as u64)
}

/// The number that eight little-endian bytes denote.
pub open spec fn from_le64(b: Seq<u8>) -> u64 {
    ((b[7] as u64) << 56u64) | ((b[6] as u64) << 48u64) | ((b[5] as u64) << 40u64) | ((b[4] as u64) << 32u64)
        | ((b[3] as u64) << 24u64) | ((b[2] as u64) << 16u64) | ((b[1] as u64) << 8u64) | (b[0] as u64)
}

/// Decoding the big-endian bytes of a `u32` gives it back.
pub proof fn lemma_be32_roundtrip(x: u32)
    ensures
        from_be32(be32(x)) == x,
        be32(x).len() == 4,
{
    let b0 = (x >> 24u32) as u8;
    let b1 = (x >> 16u32) as u8;
    let b2 = (x >> 8u32) as u8;
    let b3 = x as u8;
    assert(((b0 as u32) << 24u32) | ((b1 as u32) << 16u32) | ((b2 as u32) << 8u32) | (b3 as u32) == x)
        by (bit_vector)
        requires
            b0 == (x >> 24u32) as u8,
            b1 == (x >> 16u32) as u8,
            b2 == (x >> 8u32) as u8,
            b3 == x as u8,
    ;
}

/// Decoding the big-endian bytes of a `u64` gives it back.
pub proof fn lemma_be64_roundtrip(x: u64)
    ensures
        from_be64(be64(x)) == x,
        be64(x).len() == 8,
{
    let b0 = (x >> 56u64) as u8;
    let b1 = (x >> 48u64) as u8;
    let b2 = (x >> 40u64) as u8;
    let b3 = (x >> 32u64) as u8;
    let b4 = (x >> 24u64) as u8;
    let b5 = (x >> 16u64) as u8;
    let b6 = (x >> 8u64) as u8;
    let b7 = x as u8;
    assert(((b0 as u64) << 56u64) | ((b1 as u64) << 48u64) | ((b2 as u64) << 40u64) | ((b3 as u64) << 32u64)
        | ((b4 as u64) << 24u64) | ((b5 as u64) << 16u64) | ((b6 as u64) << 8u64) | (b7 as u64) == x)
        by (bit_vector)
        requires
            b0 == (x >> 56u64) as u8,
            b1 == (x >> 48u64) as u8,
            b2 == (x >> 40u64) as u8,
            b3 == (x >> 32u64) as u8,
            b4 == (x >> 24u64) as u8,
            b5 == (x >> 16u64) as u8,
            b6 == (x >> 8u64) as u8,
            b7 == x as u8,
    ;
}

/// Decoding the little-endian bytes of a `u64` gives it back.
pub proof fn lemma_le64_roundtrip(x: u64)
    ensures
        from_le64(le64(x)) == x,
        le64(x).len() == 8,
{
    let b0 = (x >> 56u64) as u8;
    let b1 = (x >> 48u64) as u8;
    let b2 = (x >> 40u64) as u8;
    let b3 = (x >> 32u64) as u8;
    let b4 = (x >> 24u64) as u8;
    let b5 = (x >> 16u64) as u8;
    let b6 = (x >> 8u64) as u8;
    let b7 = x as u8;
    assert(((b0 as u64) << 56u64) | ((b1 as u64) << 48u64) | ((b2 as u64) << 40u64) | ((b3 as u64) << 32u64)
        | ((b4 as u64) << 24u64) | ((b5 as u64) << 16u64) | ((b6 as u64) << 8u64) | (b7 as u64) == x)
        by (bit_vector)
        requires
            b0 == (x >> 56u64) as u8,
            b1 == (x >> 48u64) as u8,
            b2 == (x >> 40u64) as u8,
            b3 == (x >> 32u64) as u8,
            b4 == (x >> 24u64) as u8,
            b5 == (x >> 16u64) as u8,
            b6 == (x >> 8u64) as u8,
            b7 == x as u8,
    ;
}

/// Append the big-endian bytes of `x`.
pub fn push_be32(out: &mut Vec<u8>, x: u32)
    ensures
        final(out)@ == old(out)@ + be32(x),
{
    out.push((x >> 24u32) as u8);
    out.push((x >> 16u32) as u8);
    out.push((x >> 8u32) as u8);
    out.push(x as u8);
    assert(final(out)@ =~= old(out)@ + be32(x));
}

/// Append the big-endian bytes of `x`.
pub fn push_be64(out: &mut Vec<u8>, x: u64)
    ensures
        final(out)@ == old(out)@ + be64(x),
{
    out.push((x >> 56u64) as u8);
    out.push((x >> 48u64) as u8);
    out.push((x >> 40u64) as u8);
    out.push((x >> 32u64) as u8);
    out.push((x >> 24u64) as u8);
    out.push((x >> 16u64) as u8);
    out.push((x >> 8u64) as u8);
    out.push(x as u8);
    assert(final(out)@ =~= old(out)@ + be64(x));
}

/// Append the little-endian bytes of `x`.
pub fn push_le64(out: &mut Vec<u8>, x: u64)
    ensures
        final(out)@ == old(out)@ + le64(x),
{
    out.push(x as u8);
    out.push((x >> 8u64) as u8);
    out.push((x >> 16u64) as u8);
    out.push((x >> 24u64) as u8);
    out.push((x >> 32u64) as u8);
    out.push((x >> 40u64) as u8);
    out.push((x >> 48u64) as u8);
    out.push((x >> 56u64) as u8);
    assert(final(out)@ =~= old(out)@ + le64(x));
}

/// Append all of `src`.
pub fn push_all(out: &mut Vec<u8>, src: &[u8])
    ensures
        final(out)@ == old(out)@ + src@,
{
    let mut i: usize = 0;
    while i < src.len()
        invariant
            i <= src.len(),
            out@ =~= old(out)@ + src@.subrange(0, i as int),
        decreases src.len() - i,
    {
        out.push(src[i]);
        i = i + 1;
    }
    assert(src@.subrange(0, src@.len() as int) =~= src@);
}

/// The big-endian `u32` at `pos`.
pub fn read_be32(b: &[u8], pos: usize) -> (r: u32)
    requires
        pos + 4 <= b.len(),
    ensures
        r == from_be32(b@.subrange(pos as int, pos + 4)),
{
    ((b[pos] as u32) << 24u32) | ((b[pos + 1] as u32) << 16u32) | ((b[pos + 2] as u32) << 8u32) | (b[pos
        + 3] as u32)
}

/// The big-endian `u64` at `pos`.
pub fn read_be64(b: &[u8], pos: usize) -> (r: u64)
    requires
        pos + 8 <= b.len(),
    ensures
        r == from_be64(b@.subrange(pos as int, pos + 8)),
{
    ((b[pos] as u64) << 56u64) | ((b[pos + 1] as u64) << 48u64) | ((b[pos + 2] as u64) << 40u64) | ((b[pos
        + 3] as u64) << 32u64) | ((b[pos + 4] as u64) << 24u64) | ((b[pos + 5] as u64) << 16u64) | ((b[pos
        + 6] as u64) << 8u64) | (b[pos + 7] as u64)
}

/// The little-endian `u64` at `pos`.
pub fn read_le64(b: &[u8], pos: usize) -> (r: u64)
    requires
        pos + 8 <= b.len(),
    ensures
        r == from_le64(b@.subrange(pos as int, pos + 8)),
{
    ((b[pos + 7] as u64) << 56u64) | ((b[pos + 6] as u64) << 48u64) | ((b[pos + 5] as u64) << 40u64) | ((b[pos
        + 4] as u64) << 32u64) | ((b[pos + 3] as u64) << 24u64) | ((b[pos + 2] as u64) << 16u64) | ((b[pos
        + 1] as u64) << 8u64) | (b[pos] as u64)
}

/// The reflected CRC-32 polynomial (IEEE).
pub const CRC_POLY: u32 = 0xEDB88320;

/// The reflected CRC-32C polynomial (Castagnoli).
pub const CRC32C_POLY: u32 = 0x82F63B78;

/// One bit of a reflected CRC-32 shift register with polynomial `poly`.
pub open spec fn crc_step(poly: u32, c: u32) -> u32 {
    if c & 1 == 1 { (c >> 1u32) ^ poly } else { c >> 1u32 }
}

/// The register after `n` shifts.
pub open spec fn crc_steps(poly: u32, c: u32, n: nat) -> u32
    decreases n,
{
    if n == 0 { c } else { crc_step(poly, crc_steps(poly, c, (n - 1) as nat)) }
}

/// The register after shifting in one byte.
pub open spec fn crc_byte(poly: u32, c: u32, b: u8) -> u32 {
    crc_steps(poly, c ^ (b as u32), 8)
}

/// The register after shifting in all of `data`, starting from `c`.
pub open spec fn crc_fold(poly: u32, c: u32, data: Seq<u8>) -> u32
    decreases data.len(),
{
    if data.len() == 0 {
        c
    } else {
        crc_byte(poly, crc_fold(poly, c, data.drop_last()), data.last())
    }
}

/// CRC-32 (IEEE, reflected, initial and final value all ones) of `data`.
pub open spec fn spec_crc32(data: Seq<u8>) -> u32 {
    !crc_fold(CRC_POLY, 0xFFFF_FFFFu32, data)
}

/// CRC-32C (Castagnoli, reflected, initial and final value all ones) of `data`.
pub open spec fn spec_crc32c(data: Seq<u8>) -> u32 {
    !crc_fold(CRC32C_POLY, 0xFFFF_FFFFu32, data)
}

/// Folding over a concatenation folds over the parts in turn.
pub proof fn lemma_crc_fold_append(poly: u32, c: u32, a: Seq<u8>, b: Seq<u8>)
    ensures
        crc_fold(poly, c, a + b) == crc_fold(poly, crc_fold(poly, c, a), b),
    decreases b.len(),
{
    if b.len() == 0 {
        assert(a + b =~= a);
    } else {
        assert((a + b).drop_last() =~= a + b.drop_last());
        lemma_crc_fold_append(poly, c, a, b.drop_last());
    }
}

fn crc_feed_byte(poly: u32, c: u32, b: u8) -> (r: u32)
    ensures
        r == crc_byte(poly, c, b),
{
    let mut crc = c ^ (b as u32);
    let ghost x = crc;
    let mut n: u32 = 0;
    while n < 8
        invariant
            n <= 8,
            crc == crc_steps(poly, x, n as nat),
        decreases 8 - n,
    {
        let ghost before = crc;
        assert(crc & 1 != 0 <==> crc & 1 == 1) by (bit_vector);
        if crc & 1 != 0 {
            crc = (crc >> 1u32) ^ poly;
        } else {
            crc = crc >> 1u32;
        }
        n = n + 1;
    }
    crc
}

/// Shift all of `data` into the register `c`, with polynomial `poly`.
pub fn crc_feed(poly: u32, c: u32, data: &[u8]) -> (r: u32)
    ensures
        r == crc_fold(poly, c, data@),
{
    let mut crc = c;
    let mut i: usize = 0;
    while i < data.len()
        invariant
            i <= data.len(),
            crc == crc_fold(poly, c, data@.subrange(0, i as int)),
        decreases data.len() - i,
    {
        proof {
            let t = data@.subrange(0, i + 1);
            assert(t.drop_last() =~= data@.subrange(0, i as int));
            assert(t.last() == data@[i as int]);
        }
        crc = crc_feed_byte(poly, crc, data[i]);
        i = i + 1;
    }
    assert(data@.subrange(0, data@.len() as int) =~= data@);
    crc
}

/// CRC-32 of a byte string.
pub fn crc32(data: &[u8]) -> (r: u32)
    ensures
        r == spec_crc32(data@),
{
    !crc_feed(CRC_POLY, 0xFFFF_FFFFu32, data)
}

} // verus!
