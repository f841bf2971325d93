//! Decimal numerals as byte strings: the grammar that base-10
//! `from_str_radix` accepts, the numeric value of such a string, and the
//! decimal spelling of an integer. Everything here is the library's own
//! verified code; no outside crate is involved.

use vstd::prelude::*;

verus! {

pub open spec fn is_ascii_digit(b: u8) -> bool {
    48 <= b && b <= 57
}

pub open spec fn all_ascii_digits(s: Seq<u8>) -> bool {
    forall|i: int| 0 <= i < s.len() ==> is_ascii_digit(#[trigger] s[i])
}

/// Value of a string of decimal digits, most significant first.
pub open spec fn digits_value(s: Seq<u8>) -> int
    decreases s.len(),
{
    if s.len() == 0 {
        0
    } else {
        digits_value(s.drop_last()) * 10 + (s.last() - 48)
    }
}

pub open spec fn pow10(n: nat) -> int
    decreases n,
{
    if n == 0 {
        1
    } else {
        10 * pow10((n - 1) as nat)
    }
}

/// The digit portion of a numeral: everything after an optional single
/// leading sign. A minus sign is recognised only when `allow_minus` holds,
/// matching `from_str_radix`, which accepts `-` for signed types alone.
pub open spec fn numeral_digits(s: Seq<u8>, allow_minus: bool) -> Seq<u8> {
    if s.len() > 0 && (s[0] == 43 || (allow_minus && s[0] == 45)) {
        s.subrange(1, s.len() as int)
    } else {
        s
    }
}

pub open spec fn numeral_sign(s: Seq<u8>, allow_minus: bool) -> int {
    if allow_minus && s.len() > 0 && s[0] == 45 {
        -1
    } else {
        1
    }
}

/// Whether `s` is a well-formed decimal numeral: an optional sign followed
/// by at least one digit, and nothing else.
pub open spec fn is_numeral(s: Seq<u8>, allow_minus: bool) -> bool {
    numeral_digits(s, allow_minus).len() > 0 && all_ascii_digits(numeral_digits(s, allow_minus))
}

pub open spec fn numeral_value(s: Seq<u8>, allow_minus: bool) -> int {
    numeral_sign(s, allow_minus) * digits_value(numeral_digits(s, allow_minus))
}

pub proof fn lemma_digits_value_bounds(s: Seq<u8>)
    requires
        all_ascii_digits(s),
    ensures
        0 <= digits_value(s) < pow10(s.len()),
    decreases s.len(),
{
    if s.len() > 0 {
        assert(all_ascii_digits(s.drop_last())) by {
            assert(forall|i: int| 0 <= i < s.len() - 1 ==> s.drop_last()[i] == s[i]);
        }
        lemma_digits_value_bounds(s.drop_last());
    }
}

/// Extending a digit string on the right multiplies its value by ten and
/// adds the new digit.
pub proof fn lemma_digits_value_snoc(s: Seq<u8>, i: int)
    requires
        0 <= i < s.len(),
    ensures
        digits_value(s.subrange(0, i + 1)) == digits_value(s.subrange(0, i)) * 10 + (s[i] - 48),
{
    let t = s.subrange(0, i + 1);
    assert(t.drop_last() =~= s.subrange(0, i));
    assert(t.last() == s[i]);
}

/// A longer all-digit prefix never has a smaller value.
pub proof fn lemma_digits_value_prefix_mono(s: Seq<u8>, i: int, j: int)
    requires
        0 <= i <= j <= s.len(),
        all_ascii_digits(s),
    ensures
        digits_value(s.subrange(0, i)) <= digits_value(s.subrange(0, j)),
    decreases j - i,
{
    if i < j {
        lemma_digits_value_prefix_mono(s, i, j - 1);
        lemma_digits_value_snoc(s, j - 1);
        assert(all_ascii_digits(s.subrange(0, j - 1))) by {
            assert(forall|k: int| 0 <= k < j - 1 ==> s.subrange(0, j - 1)[k] == s[k]);
        }
        lemma_digits_value_bounds(s.subrange(0, j - 1));
    }
}

/// Parses the byte range `[start, end)` of `t` as a decimal numeral, exactly
/// as base-10 `from_str_radix` into a 64-bit value would: an optional single
/// `+` (or `-` when `allow_minus` holds) followed by one or more digits.
/// Returns the magnitude and whether a minus sign was seen; `None` when the
/// text is malformed or the magnitude exceeds `limit`.
fn parse_magnitude(t: &Vec<u8>, start: usize, end: usize, allow_minus: bool, limit: u64) -> (r:
    Option<(u64, bool)>)
    requires
        start <= end <= t@.len(),
        limit >= 9,
    ensures
        ({
            let s = t@.subrange(start as int, end as int);
            &&& (r is Some <==> is_numeral(s, allow_minus) && digits_value(
                numeral_digits(s, allow_minus),
            ) <= limit)
            &&& (r matches Some(p) ==> p.0 == digits_value(numeral_digits(s, allow_minus))
                && (p.1 <==> numeral_sign(s, allow_minus) == -1))
        }),
{
    let ghost s = t@.subrange(start as int, end as int);
    if start == end {
        return None;
    }
    let first = t[start];
    let neg: bool;
    let dstart: usize;
    if first == 43 {
        neg = false;
        dstart = start + 1;
    } else if allow_minus && first == 45 {
        neg = true;
        dstart = start + 1;
    } else {
        neg = false;
        dstart = start;
    }
    let ghost d = numeral_digits(s, allow_minus);
    proof {
        assert(d =~= t@.subrange(dstart as int, end as int));
    }
    if dstart == end {
        return None;
    }
    let mut acc: u64 = 0;
    let mut i = dstart;
    while i < end
        invariant
            dstart <= i <= end,
            start <= dstart <= end <= t@.len(),
            s == t@.subrange(start as int, end as int),
            d == numeral_digits(s, allow_minus),
            d == t@.subrange(dstart as int, end as int),
            all_ascii_digits(d.subrange(0, i - dstart)),
            acc == digits_value(d.subrange(0, i - dstart)),
            acc <= limit,
            limit >= 9,
        decreases end - i,
    {
        let b = t[i];
        proof {
            assert(d[i - dstart] == b);
        }
        if !(48 <= b && b <= 57) {
            assert(!all_ascii_digits(d));
            return None;
        }
        let dig = (b - 48) as u64;
        proof {
            lemma_digits_value_snoc(d, i - dstart);
        }
        if acc > (limit - dig) / 10 {
            // The value of the digits read so far already exceeds the limit,
            // and reading more digits can only increase it.
            proof {
                assert(acc * 10 + dig > limit) by (nonlinear_arith)
                    requires
                        acc > (limit - dig) / 10,
                        0 <= dig <= 9,
                        dig <= limit,
                ;
                if is_numeral(s, allow_minus) {
                    lemma_digits_value_prefix_mono(d, i - dstart + 1, d.len() as int);
                    assert(d.subrange(0, d.len() as int) =~= d);
                }
            }
            return None;
        }
        acc = acc * 10 + dig;
        i += 1;
        proof {
            assert(all_ascii_digits(d.subrange(0, i - dstart)));
        }
    }
    proof {
        assert(d.subrange(0, d.len() as int) =~= d);
    }
    Some((acc, neg))
}

/// Parses a signed 64-bit decimal numeral from the byte range `[start, end)`,
/// with the acceptance rules of `i64::from_str_radix` in base 10.
pub fn parse_i64_text(t: &Vec<u8>, start: usize, end: usize) -> (r: Option<i64>)
    requires
        start <= end <= t@.len(),
    ensures
        ({
            let s = t@.subrange(start as int, end as int);
            &&& (r is Some <==> is_numeral(s, true) && i64::MIN <= numeral_value(s, true)
                <= i64::MAX)
            &&& (r matches Some(v) ==> v == numeral_value(s, true))
        }),
{
    let ghost s = t@.subrange(start as int, end as int);
    // Peek at the sign to pick the magnitude limit: the negative range of an
    // i64 holds one more value than the positive range.
    let minus = start < end && t[start] == 45;
    let limit: u64 = if minus {
        9223372036854775808
    } else {
        9223372036854775807
    };
    match parse_magnitude(t, start, end, true, limit) {
        Some((mag, neg)) => {
            if neg {
                if mag == 9223372036854775808 {
                    Some(i64::MIN)
                } else {
                    Some(-(mag as i64))
                }
            } else {
                Some(mag as i64)
            }
        },
        None => None,
    }
}

/// Parses an unsigned 64-bit decimal numeral (optional `+`, then digits)
/// from the byte range `[start, end)`, with the acceptance rules of
/// `u64::from_str_radix` in base 10.
pub fn parse_u64_text(t: &Vec<u8>, start: usize, end: usize) -> (r: Option<u64>)
    requires
        start <= end <= t@.len(),
    ensures
        ({
            let s = t@.subrange(start as int, end as int);
            &&& (r is Some <==> is_numeral(s, false) && numeral_value(s, false) <= u64::MAX)
            &&& (r matches Some(v) ==> v == numeral_value(s, false))
        }),
{
    match parse_magnitude(t, start, end, false, u64::MAX) {
        Some((mag, _)) => Some(mag),
        None => None,
    }
}

/// The decimal spelling of a non-negative integer, no leading zeros.
pub open spec fn decimal_of_nat(n: int) -> Seq<u8>
    decreases n,
{
    if n < 10 {
        seq![(48 + if n >= 0 { n } else { 0 }) as u8]
    } else {
        decimal_of_nat(n / 10).push((48 + n % 10) as u8)
    }
}

/// The decimal spelling of a signed integer: a minus sign before the
/// magnitude for negative values.
pub open spec fn decimal_of_int(n: int) -> Seq<u8> {
    if n < 0 {
        seq![45u8] + decimal_of_nat(-n)
    } else {
        decimal_of_nat(n)
    }
}

/// The decimal spelling of a non-negative integer is a numeral that reads
/// back as the same value.
pub proof fn lemma_decimal_of_nat_value(n: int)
    requires
        n >= 0,
    ensures
        decimal_of_nat(n).len() > 0,
        all_ascii_digits(decimal_of_nat(n)),
        digits_value(decimal_of_nat(n)) == n,
        is_ascii_digit(decimal_of_nat(n)[0]),
    decreases n,
{
    if n < 10 {
        let s = decimal_of_nat(n);
        assert(s.last() == (48 + n) as u8);
        assert(s.drop_last().len() == 0);
        assert(digits_value(s.drop_last()) == 0);
        assert(digits_value(s) == s.last() - 48);
        assert((48 + n) as u8 == 48 + n);
    } else {
        lemma_decimal_of_nat_value(n / 10);
        let s = decimal_of_nat(n);
        assert(s.drop_last() =~= decimal_of_nat(n / 10));
        assert(s.last() == (48 + n % 10) as u8);
        assert(digits_value(s) == digits_value(decimal_of_nat(n / 10)) * 10 + n % 10);
        assert((n / 10) * 10 + n % 10 == n);
        assert(forall|i: int| 0 <= i < s.len() - 1 ==> s[i] == decimal_of_nat(n / 10)[i]);
    }
}

/// Formats `n` in decimal.
pub fn format_u64(n: u64) -> (r: Vec<u8>)
    ensures
        r@ == decimal_of_nat(n as int),
    decreases n,
{
    if n < 10 {
        let mut v: Vec<u8> = Vec::new();
        v.push(48 + n as u8);
        v
    } else {
        let mut v = format_u64(n / 10);
        v.push(48 + (n % 10) as u8);
        v
    }
}

/// Formats `n` in decimal, with a leading minus sign when negative.
pub fn format_i64(n: i64) -> (r: Vec<u8>)
    ensures
        r@ == decimal_of_int(n as int),
{
    if n >= 0 {
        format_u64(n as u64)
    } else {
        // Magnitude computed without overflowing at i64::MIN.
        let mag: u64 = ((-(n + 1)) as u64) + 1;
        let mut v: Vec<u8> = Vec::new();
        v.push(45);
        let mut w = format_u64(mag);
        v.append(&mut w);
        assert(v@ =~= decimal_of_int(n as int));
        v
    }
}

/// Copies a byte string.
pub fn copy_bytes(t: &Vec<u8>) -> (r: Vec<u8>)
    ensures
        r@ == t@,
{
    let mut r: Vec<u8> = Vec::new();
    let mut i: usize = 0;
    while i < t.len()
        invariant
            0 <= i <= t@.len(),
            r@ == t@.subrange(0, i as int),
        decreases t@.len() - i,
    {
        r.push(t[i]);
        i += 1;
        proof {
            assert(r@ =~= t@.subrange(0, i as int));
        }
    }
    proof {
        assert(t@.subrange(0, t@.len() as int) =~= t@);
    }
    r
}

/// Number of characters in a UTF-8 byte string: the bytes that do not
/// continue a multi-byte character.
pub open spec fn utf8_char_count(s: Seq<u8>) -> int
    decreases s.len(),
{
    if s.len() == 0 {
        0
    } else {
        utf8_char_count(s.drop_last()) + if 128 <= s.last() < 192 {
            0int
        } else {
            1int
        }
    }
}

/// All-digit strings are pure ASCII: every byte is its own character.
pub proof fn lemma_digits_char_count(s: Seq<u8>)
    requires
        all_ascii_digits(s),
    ensures
        utf8_char_count(s) == s.len(),
    decreases s.len(),
{
    if s.len() > 0 {
        assert(all_ascii_digits(s.drop_last())) by {
            assert(forall|i: int| 0 <= i < s.len() - 1 ==> s.drop_last()[i] == s[i]);
        }
        lemma_digits_char_count(s.drop_last());
    }
}

/// Counts the characters in the byte range `[start, end)` of `t`.
pub fn count_utf8_chars(t: &Vec<u8>, start: usize, end: usize) -> (r: usize)
    requires
        start <= end <= t@.len(),
    ensures
        r == utf8_char_count(t@.subrange(start as int, end as int)),
{
    let ghost s = t@.subrange(start as int, end as int);
    let mut count: usize = 0;
    let mut i = start;
    while i < end
        invariant
            start <= i <= end <= t@.len(),
            s == t@.subrange(start as int, end as int),
            count == utf8_char_count(s.subrange(0, i - start)),
            count <= i - start,
        decreases end - i,
    {
        let b = t[i];
        proof {
            let pre = s.subrange(0, i - start + 1);
            assert(pre.drop_last() =~= s.subrange(0, i - start));
            assert(pre.last() == b);
        }
        if !(128 <= b && b < 192) {
            count += 1;
        }
        i += 1;
    }
    proof {
        assert(s.subrange(0, s.len() as int) =~= s);
    }
    count
}

} // verus!
