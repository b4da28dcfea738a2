//! Small pieces of text formatting used in error messages.
use vstd::prelude::*;

verus! {

/// The hexadecimal digit for `d` (< 16), upper or lower case.
pub open spec fn hex_digit(d: nat, upper: bool) -> char {
    if d < 10 {
        (('0' as nat) + d) as char
    } else if upper {
        (('A' as nat) + (d - 10)) as char
    } else {
        (('a' as nat) + (d - 10)) as char
    }
}

/// The last `n` hexadecimal digits of `v`, most significant first, zero-padded.
pub open spec fn hex_digits(v: nat, n: nat, upper: bool) -> Seq<char>
    decreases n,
{
    if n == 0 {
        Seq::empty()
    } else {
        hex_digits(v / 16, (n - 1) as nat, upper).push(hex_digit(v % 16, upper))
    }
}

fn digit_str(d: u64, upper: bool) -> (r: &'static str)
    requires
        d < 16,
    ensures
        r@ == seq![hex_digit(d as nat, upper)],
{
    let s: &'static str = if d < 10 {
        match d {
            0 => "0", 1 => "1", 2 => "2", 3 => "3", 4 => "4",
            5 => "5", 6 => "6", 7 => "7", 8 => "8", _ => "9",
        }
    } else if upper {
        match d {
            10 => "A", 11 => "B", 12 => "C", 13 => "D", 14 => "E", _ => "F",
        }
    } else {
        match d {
            10 => "a", 11 => "b", 12 => "c", 13 => "d", 14 => "e", _ => "f",
        }
    };
    proof {
        reveal_strlit("0"); reveal_strlit("1"); reveal_strlit("2"); reveal_strlit("3");
        reveal_strlit("4"); reveal_strlit("5"); reveal_strlit("6"); reveal_strlit("7");
        reveal_strlit("8"); reveal_strlit("9"); reveal_strlit("A"); reveal_strlit("B");
        reveal_strlit("C"); reveal_strlit("D"); reveal_strlit("E"); reveal_strlit("F");
        reveal_strlit("a"); reveal_strlit("b"); reveal_strlit("c"); reveal_strlit("d");
        reveal_strlit("e"); reveal_strlit("f");
    }
    s
}

/// Append the last `n` hexadecimal digits of `v`, zero-padded.
pub fn push_hex(out: &mut String, v: u64, n: u32, upper: bool)
    requires
        n <= 16,
    ensures
        final(out)@ == old(out)@ + hex_digits(v as nat, n as nat, upper),
{
    let mut digits: Vec<u64> = Vec::new();
    let mut x: u64 = v;
    let mut i: u32 = 0;
    while i < n
        invariant
            i <= n,
            forall|t: int| 0 <= t < digits@.len() ==> #[trigger] digits@[t] < 16,
            hex_digits(v as nat, n as nat, upper) == hex_digits(x as nat, (n - i) as nat, upper)
                + digits@.map_values(|d: u64| hex_digit(d as nat, upper)),
        decreases n - i,
    {
        let d = x % 16;
        let ghost d0 = digits@;
        proof {
            let rest = hex_digits(x as nat / 16, (n - i - 1) as nat, upper);
            assert(hex_digits(x as nat, (n - i) as nat, upper) == rest.push(hex_digit(d as nat, upper)));
        }
        digits.insert(0, d);
        proof {
            assert(digits@ =~= d0.insert(0, d));
            let rest = hex_digits(x as nat / 16, (n - i - 1) as nat, upper);
            assert(digits@.map_values(|d: u64| hex_digit(d as nat, upper)) =~= seq![hex_digit(d as nat, upper)]
                + d0.map_values(|d: u64| hex_digit(d as nat, upper)));
            assert(rest.push(hex_digit(d as nat, upper)) + d0.map_values(|d: u64| hex_digit(d as nat, upper))
                =~= rest + digits@.map_values(|d: u64| hex_digit(d as nat, upper)));
        }
        x = x / 16;
        i = i + 1;
    }
    assert(hex_digits(x as nat, 0, upper) =~= Seq::<char>::empty());
    let ghost all = digits@.map_values(|d: u64| hex_digit(d as nat, upper));
    assert(all =~= hex_digits(v as nat, n as nat, upper));
    let mut j: usize = 0;
    let ghost start = out@;
    while j < digits.len()
        invariant
            j <= digits.len(),
            all == digits@.map_values(|d: u64| hex_digit(d as nat, upper)),
            forall|t: int| 0 <= t < digits@.len() ==> #[trigger] digits@[t] < 16,
            out@ =~= start + all.subrange(0, j as int),
        decreases digits.len() - j,
    {
        let one = digit_str(digits[j], upper);
        out.append(one);
        proof {
            assert(all.subrange(0, j + 1) =~= all.subrange(0, j as int).push(all[j as int]));
        }
        j = j + 1;
    }
    assert(all.subrange(0, all.len() as int) =~= all);
}

/// The text that `String::from_utf8_lossy` makes of these bytes.
pub uninterp spec fn spec_utf8_lossy(bytes: Seq<u8>) -> Seq<char>;

/// The text that `{:?}` makes of a string: quoted, with escapes.
pub uninterp spec fn spec_debug_str(s: Seq<char>) -> Seq<char>;

/// Calls `String::from_utf8_lossy`: the bytes read as UTF-8 with each invalid
/// sequence replaced by U+FFFD.  Claimed: the result is the named text of the
/// bytes, and bytes that are valid UTF-8 read as the text they encode; how
/// invalid sequences are cut and replaced is not stated.
#[verifier::external_body]
pub(crate) fn utf8_lossy(bytes: &[u8]) -> (r: String)
    ensures
        r@ == spec_utf8_lossy(bytes@),
        vstd::utf8::valid_utf8(bytes@) ==> r@ == vstd::utf8::decode_utf8(bytes@),
{
    String::from_utf8_lossy(bytes).into_owned()
}

/// Formats a string with `{:?}` (its `Debug` form: quoted, with escapes).
/// The result is named, not stated.
#[verifier::external_body]
pub(crate) fn debug_str(s: &str) -> (r: String)
    ensures
        r@ == spec_debug_str(s@),
{
    format!("{:?}", s)
}

/// The decimal digits of `v`, most significant first (`"0"` for zero).
pub open spec fn decimal_digits(v: nat) -> Seq<char>
    decreases v,
{
    if v < 10 {
        seq![hex_digit(v, false)]
    } else {
        decimal_digits(v / 10).push(hex_digit(v % 10, false))
    }
}

/// Append the decimal form of `v`.
pub fn push_decimal(out: &mut String, v: u64)
    ensures
        final(out)@ == old(out)@ + decimal_digits(v as nat),
    decreases v,
{
    if v >= 10 {
        push_decimal(out, v / 10);
    }
    let one = digit_str(v % 10, false);
    out.append(one);
    proof {
        if v >= 10 {
            assert(decimal_digits(v as nat) == decimal_digits(v as nat / 10).push(hex_digit(v as nat % 10, false)));
        }
    }
    assert(final(out)@ =~= old(out)@ + decimal_digits(v as nat));
}

} // verus!
