//! Table file names read back: the name the engine gives a table parses to
//! the table's level and sequence number.
use vstd::prelude::*;
use vstd::arithmetic::power::{pow, lemma_pow_positive};
use vstd::arithmetic::div_mod::lemma_mod_breakdown;
use crate::text::{hex_digit, hex_digits, decimal_digits};
use crate::table::table_name;
use crate::recovery::{spec_table_name, digits_value, digit_value, spec_parse_number, sst_suffix, lemma_first_dash_found};

verus! {

/// The bytes of ASCII text.
pub open spec fn ascii(s: Seq<char>) -> Seq<u8> {
    s.map_values(|c: char| (c as u32) as u8)
}

/// UTF-8 encodes ASCII text byte for byte.
pub proof fn lemma_encode_ascii(s: Seq<char>)
    requires
        forall|i: int| 0 <= i < s.len() ==> (#[trigger] s[i] as u32) < 128,
    ensures
        vstd::utf8::encode_utf8(s) == ascii(s),
    decreases s.len(),
{
    if s.len() > 0 {
        let t = s.drop_first();
        assert forall|i: int| 0 <= i < t.len() implies (#[trigger] t[i] as u32) < 128 by {
            assert(t[i] == s[i + 1]);
        }
        lemma_encode_ascii(t);
        let v = s[0] as u32;
        assert(v < 128);
        assert(v & 0x7F == v) by (bit_vector)
            requires
                v < 128,
        ;
        assert(vstd::utf8::encode_scalar(v) == seq![v as u8]);
        assert(vstd::utf8::encode_utf8(s) == vstd::utf8::encode_scalar(v) + vstd::utf8::encode_utf8(t));
        assert(ascii(s) =~= seq![v as u8] + ascii(t));
    }
}

/// A lower-case hexadecimal digit: ASCII, neither `-` nor `+`, and worth `d`.
pub proof fn lemma_hex_digit_byte(d: nat)
    requires
        d < 16,
    ensures
        (hex_digit(d, false) as u32) < 128,
        (hex_digit(d, false) as u32) as u8 != 45u8,
        (hex_digit(d, false) as u32) as u8 != 43u8,
        digit_value((hex_digit(d, false) as u32) as u8, 16) == Some(d),
        d < 10 ==> digit_value((hex_digit(d, false) as u32) as u8, 10) == Some(d),
{
}

/// The hexadecimal digits of `v` are ASCII digits, `n` of them.
pub proof fn lemma_hex_chars(v: nat, n: nat)
    ensures
        hex_digits(v, n, false).len() == n,
        forall|i: int| 0 <= i < n ==> exists|d: nat| d < 16 && #[trigger] hex_digits(v, n, false)[i] == hex_digit(d, false),
    decreases n,
{
    if n > 0 {
        lemma_hex_chars(v / 16, (n - 1) as nat);
        let h = hex_digits(v, n, false);
        let p = hex_digits(v / 16, (n - 1) as nat, false);
        assert forall|i: int| 0 <= i < n implies exists|d: nat| d < 16 && #[trigger] h[i] == hex_digit(d, false) by {
            if i < n - 1 {
                assert(h[i] == p[i]);
            } else {
                let d = v % 16;
                assert(h[i] == hex_digit(d, false));
            }
        }
    }
}

/// Read as a number, the `n` hexadecimal digits of `v` give `v` modulo `16^n`.
pub proof fn lemma_hex_value(v: nat, n: nat)
    ensures
        digits_value(ascii(hex_digits(v, n, false)), 16) == Some((v % (pow(16, n) as nat)) as nat),
    decreases n,
{
    lemma_pow_positive(16, n);
    reveal(pow);
    if n == 0 {
        assert(ascii(hex_digits(v, n, false)) =~= Seq::<u8>::empty());
    } else {
        let p = hex_digits(v / 16, (n - 1) as nat, false);
        lemma_hex_value(v / 16, (n - 1) as nat);
        lemma_pow_positive(16, (n - 1) as nat);
        let c = hex_digit(v % 16, false);
        assert(hex_digits(v, n, false) == p.push(c));
        assert(ascii(p.push(c)) =~= ascii(p).push((c as u32) as u8));
        assert(ascii(p.push(c)).drop_last() =~= ascii(p));
        lemma_hex_digit_byte(v % 16);
        let big = pow(16, (n - 1) as nat);
        assert(pow(16, n) == 16 * big) by {
            reveal(pow);
        }
        lemma_mod_breakdown(v as int, 16, big);
        let w = (v / 16) % (big as nat);
        assert(digits_value(ascii(p.push(c)), 16) == Some((w * 16 + v % 16) as nat));
    }
}

/// The name given to the table at `level` (below ten) with sequence number
/// `seq` reads back as that level and number.
pub proof fn lemma_table_name_parses(level: nat, seq: u64)
    requires
        level < 10,
    ensures
        spec_table_name(vstd::utf8::encode_utf8(table_name(level, seq))) == Some((level, seq)),
{
    reveal_strlit("L");
    reveal_strlit("-");
    reveal_strlit(".sst");
    let h = hex_digits(seq as nat, 16, false);
    lemma_hex_chars(seq as nat, 16);
    lemma_hex_digit_byte(level);
    let d = decimal_digits(level);
    assert(d == seq![hex_digit(level, false)]);
    let name = table_name(level, seq);
    assert(name =~= seq!['L'] + d + seq!['-'] + h + seq!['.', 's', 's', 't']);
    assert forall|i: int| 0 <= i < name.len() implies (#[trigger] name[i] as u32) < 128 by {
        if 3 <= i < 19 {
            assert(name[i] == h[i - 3]);
            let dd = choose|dd: nat| dd < 16 && h[i - 3] == hex_digit(dd, false);
            lemma_hex_digit_byte(dd);
        }
    }
    lemma_encode_ascii(name);
    let b = ascii(name);
    assert(b.len() == 23);
    assert(b.subrange(19, 23) =~= sst_suffix());
    let stem = b.subrange(0, 19);
    assert(stem[0] == 76u8);
    assert(stem[1] == (hex_digit(level, false) as u32) as u8);
    assert(stem[2] == 45u8);
    lemma_first_dash_found(stem, 2, 19);
    assert(stem.take(19) =~= stem);
    let p0 = stem.subrange(0, 2);
    assert(p0.drop_first() =~= seq![(hex_digit(level, false) as u32) as u8]);
    assert(p0.drop_first().drop_last() =~= Seq::<u8>::empty());
    assert(digits_value(Seq::<u8>::empty(), 10) == Some(0nat));
    assert(digits_value(p0.drop_first(), 10) == Some(level));
    assert(spec_parse_number(p0.drop_first(), 10, usize::MAX as nat) == Some(level));
    let p1 = stem.subrange(3, 19);
    assert(p1 =~= ascii(h));
    lemma_hex_value(seq as nat, 16);
    assert(pow(16, 16) == 0x1_0000_0000_0000_0000int) by {
        reveal_with_fuel(pow, 17);
    }
    assert(seq as nat % 0x1_0000_0000_0000_0000nat == seq as nat);
    let dd = choose|dd: nat| dd < 16 && h[0] == hex_digit(dd, false);
    lemma_hex_digit_byte(dd);
    assert(p1[0] == (h[0] as u32) as u8);
    assert(spec_parse_number(p1, 16, u64::MAX as nat) == Some(seq as nat));
}

} // verus!
