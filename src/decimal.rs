//! Base-10 integers as text: parsing with the rules of Rust's integer
//! `from_str`, and printing.

use vstd::prelude::*;
use vstd::utf8::{decode_utf8, encode_utf8, is_ascii_chars, valid_utf8};

verus! {

pub open spec fn is_digit(b: u8) -> bool {
    48 <= b <= 57
}

/// A non-empty run of ASCII digits.
pub open spec fn all_digits(s: Seq<u8>) -> bool {
    s.len() > 0 && forall|i: int| 0 <= i < s.len() ==> is_digit(#[trigger] s[i])
}

/// The value of a run of ASCII digits, most significant first.
pub open spec fn digits_value(s: Seq<u8>) -> nat
    decreases s.len(),
{
    if s.len() == 0 {
        0
    } else {
        digits_value(s.drop_last()) * 10 + (s.last() - 48) as nat
    }
}

/// Integer text as Rust's `from_str` reads it for a type whose values are
/// `lo..=hi`: an optional `+` (or `-` where the type is signed), then one or
/// more digits, and a value in range.
pub open spec fn int_text_value(s: Seq<u8>, lo: int, hi: int) -> Option<int> {
    if s.len() == 0 {
        None
    } else {
        let neg = s[0] == 45u8 && lo < 0;
        let body = if s[0] == 43u8 || neg { s.skip(1) } else { s };
        let v = if neg { -digits_value(body) } else { digits_value(body) as int };
        if all_digits(body) && lo <= v <= hi {
            Some(v)
        } else {
            None
        }
    }
}

/// The decimal digits of `n`, without leading zeros.
pub open spec fn decimal_digits(n: nat) -> Seq<u8>
    decreases n,
{
    if n < 10 {
        seq![(48 + n) as u8]
    } else {
        decimal_digits(n / 10).push((48 + n % 10) as u8)
    }
}

/// The decimal text of `n`, as characters.
pub open spec fn decimal_text(n: nat) -> Seq<char> {
    decimal_digits(n).map_values(|b: u8| b as char)
}

pub proof fn lemma_decimal_digits(n: nat)
    ensures
        all_digits(decimal_digits(n)),
        digits_value(decimal_digits(n)) == n,
        decimal_digits(n).len() >= 1,
    decreases n,
{
    let d = decimal_digits(n);
    if n >= 10 {
        lemma_decimal_digits(n / 10);
        assert(d.drop_last() =~= decimal_digits(n / 10));
        assert forall|i: int| 0 <= i < d.len() implies is_digit(#[trigger] d[i]) by {
            if i < d.len() - 1 {
                assert(d[i] == decimal_digits(n / 10)[i]);
            }
        }
        assert((n / 10) * 10 + n % 10 == n) by (nonlinear_arith);
        assert(d.last() as int == 48 + n % 10);
        assert(digits_value(d) == digits_value(d.drop_last()) * 10 + (d.last() - 48) as nat);
        assert(digits_value(d.drop_last()) == n / 10);
        assert((d.last() - 48) as nat == n % 10);
        assert(digits_value(d) == n);
    } else {
        assert(d.drop_last() =~= Seq::<u8>::empty());
        assert(d.last() as int == 48 + n);
        assert(digits_value(d.drop_last()) == 0);
        assert(digits_value(d) == n);
    }
}

/// The digits of `n` are ASCII, so as UTF-8 they read as its decimal text.
pub proof fn lemma_decimal_text_utf8(n: nat)
    ensures
        valid_utf8(decimal_digits(n)),
        decode_utf8(decimal_digits(n)) == decimal_text(n),
{
    lemma_decimal_digits(n);
    let d = decimal_digits(n);
    let t = decimal_text(n);
    assert forall|i: int| 0 <= i < t.len() implies '\0' <= #[trigger] t[i] <= '\u{7f}' by {
        assert(is_digit(d[i]));
    }
    assert(is_ascii_chars(t));
    vstd::utf8::is_ascii_chars_encode_utf8(t);
    assert forall|i: int| 0 <= i < t.len() implies #[trigger] encode_utf8(t)[i] == d[i] by {
        assert(is_digit(d[i]));
        assert(t[i] == d[i] as char);
    }
    assert(encode_utf8(t) =~= d);
    vstd::utf8::encode_utf8_valid_utf8(t);
    vstd::utf8::encode_utf8_decode_utf8(t);
}

proof fn lemma_digits_value_grows(s: Seq<u8>, i: int)
    requires
        0 <= i < s.len(),
        is_digit(s[i]),
    ensures
        digits_value(s.subrange(0, i + 1)) == digits_value(s.subrange(0, i)) * 10 + (s[i] - 48) as nat,
{
    assert(s.subrange(0, i + 1).drop_last() =~= s.subrange(0, i));
}

/// Parses `s` as Rust's `from_str` does for an integer type whose values are
/// `lo..=hi`.
pub fn parse_int(s: &[u8], lo: i128, hi: i128) -> (r: Option<i128>)
    requires
        -(u64::MAX as int) <= lo <= 0 <= hi <= u64::MAX,
    ensures
        match r {
            Some(v) => int_text_value(s@, lo as int, hi as int) == Some(v as int),
            None => int_text_value(s@, lo as int, hi as int) is None,
        },
{
    if s.len() == 0 {
        return None;
    }
    let neg = s[0] == 45u8 && lo < 0;
    let start: usize = if s[0] == 43u8 || neg { 1 } else { 0 };
    let ghost body = if s[0] == 43u8 || neg { s@.skip(1) } else { s@ };
    if start == s.len() {
        return None;
    }
    let limit: u128 = 0xFFFF_FFFF_FFFF_FFFFu128;
    let mut m: u128 = 0;
    let mut big = false;
    let mut i: usize = start;
    while i < s.len()
        invariant
            start <= i <= s.len(),
            s.len() > 0,
            neg == (s@[0] == 45u8 && lo < 0),
            start == (if s@[0] == 43u8 || neg { 1usize } else { 0usize }),
            limit == 0xFFFF_FFFF_FFFF_FFFFu128,
            -(u64::MAX as int) <= lo <= 0 <= hi <= u64::MAX,
            body == s@.skip(start as int),
            forall|k: int| 0 <= k < i - start ==> is_digit(#[trigger] body[k]),
            big ==> digits_value(body.subrange(0, i - start)) > limit,
            !big ==> m == digits_value(body.subrange(0, i - start)) && m <= limit,
        decreases s.len() - i,
    {
        let b = s[i];
        assert(body[i - start] == b);
        if !(48u8 <= b && b <= 57u8) {
            assert(!is_digit(body[i - start]));
            return None;
        }
        proof {
            lemma_digits_value_grows(body, i - start);
        }
        if !big {
            assert(m * 10 + 9 <= 10 * 0xFFFF_FFFF_FFFF_FFFFu128 + 9) by (nonlinear_arith)
                requires
                    m <= 0xFFFF_FFFF_FFFF_FFFFu128,
            ;
            let next = m * 10 + (b - 48u8) as u128;
            if next > limit {
                big = true;
            } else {
                m = next;
            }
        }
        i = i + 1;
    }
    assert(body.subrange(0, i - start) =~= body);
    assert(all_digits(body));
    if big {
        return None;
    }
    let v: i128 = if neg { -(m as i128) } else { m as i128 };
    if lo <= v && v <= hi {
        Some(v)
    } else {
        None
    }
}

/// Appends the decimal digits of `n` to `out`.
pub fn push_decimal(out: &mut Vec<u8>, n: u64)
    ensures
        final(out)@ == old(out)@ + decimal_digits(n as nat),
    decreases n,
{
    if n >= 10 {
        push_decimal(out, n / 10);
    }
    out.push(48u8 + (n % 10) as u8);
    proof {
        if n >= 10 {
            assert(old(out)@ + decimal_digits(n as nat) =~= old(out)@ + decimal_digits((n / 10) as nat) + seq![(48 + n % 10) as u8]);
        } else {
            assert(old(out)@ + decimal_digits(n as nat) =~= old(out)@ + seq![(48 + n % 10) as u8]);
        }
    }
}

} // verus!
