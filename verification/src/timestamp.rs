//! Decoding a Unix timestamp from any of three token shapes — integer,
//! float, or numeric string with up to nine fractional digits — into a UTC
//! point in time with nanosecond resolution. Range validation is chrono's:
//! a candidate is accepted exactly when chrono can represent it.

use vstd::prelude::*;
use crate::text::{
    count_utf8_chars, decimal_of_int, decimal_of_nat, digits_value, format_i64, format_u64,
    is_numeral, lemma_digits_char_count, lemma_digits_value_bounds, numeral_digits, numeral_value,
    parse_i64_text, parse_u64_text, pow10, utf8_char_count,
};
use crate::wire::{decode_error_view, DecErrM, DecodeError, Wire, WireM, wire_view};

verus! {

/// A UTC point in time: whole seconds since the Unix epoch and a sub-second
/// nanosecond offset. The offset always points forward in time, also for
/// negative seconds.
#[derive(Clone, Copy, PartialEq, Eq, Structural, Debug)]
pub struct Timestamp {
    pub secs: i64,
    pub nanos: u32,
}

/// The seconds chrono can pair with a sub-second nanosecond count: the
/// timestamps of its earliest and latest representable dates.
pub open spec fn ts_in_range(secs: int) -> bool {
    -8334601228800 <= secs && secs <= 8210266876799
}

impl Timestamp {
    pub open spec fn wf(self) -> bool {
        self.nanos < 1_000_000_000 && ts_in_range(self.secs as int)
    }
}

#[verifier::external_type_specification]
#[verifier::external_body]
pub struct ExNaiveDateTime(chrono::NaiveDateTime);

/// Relies on chrono's `NaiveDateTime::from_timestamp_opt`: for a sub-second
/// nanosecond count it returns `Some` exactly when the seconds lie between
/// the timestamps of chrono's earliest and latest representable dates,
/// -8334601228800 and 8210266876799.
#[verifier::external_body]
#[allow(deprecated)]
fn datetime_from_timestamp(secs: i64, nanos: u32) -> (r: Option<chrono::NaiveDateTime>)
    requires
        nanos < 1_000_000_000,
    ensures
        r is Some <==> ts_in_range(secs as int),
{
    chrono::NaiveDateTime::from_timestamp_opt(secs, nanos)
}

/// Whether `s` is a numeral that a signed 64-bit parse accepts.
pub open spec fn is_i64_numeral(s: Seq<u8>) -> bool {
    is_numeral(s, true) && i64::MIN <= numeral_value(s, true) <= i64::MAX
}

/// Index of the first `.` in `t`, or `t.len()` when there is none.
pub open spec fn find_dot(t: Seq<u8>) -> int
    decreases t,
{
    if t.len() == 0 {
        0
    } else if t[0] == 46 {
        0
    } else {
        1 + find_dot(t.drop_first())
    }
}

pub proof fn lemma_find_dot(t: Seq<u8>)
    ensures
        0 <= find_dot(t) <= t.len(),
        find_dot(t) < t.len() ==> t[find_dot(t)] == 46,
        forall|j: int| 0 <= j < find_dot(t) ==> t[j] != 46,
    decreases t,
{
    if t.len() > 0 && t[0] != 46 {
        lemma_find_dot(t.drop_first());
        assert forall|j: int| 0 <= j < find_dot(t) implies t[j] != 46 by {
            if j > 0 {
                assert(t.drop_first()[j - 1] == t[j]);
            }
        }
    }
}

/// What decoding a timestamp from a text token yields: split on the first
/// `.`; the part before must parse as signed 64-bit whole seconds; a part
/// after it must hold at most nine characters (more is a precision error)
/// and parse as an unsigned numeral, right-padded with zeros to
/// nanoseconds; a second `.` or an unparsable part is an invalid value,
/// and a parsed candidate outside the representable range stays an error
/// naming the input.
pub open spec fn decode_ts_text_m(t: Seq<u8>) -> Result<Timestamp, DecErrM> {
    let p = find_dot(t);
    if p == t.len() {
        if is_i64_numeral(t) {
            if ts_in_range(numeral_value(t, true)) {
                Ok(Timestamp { secs: numeral_value(t, true) as i64, nanos: 0 })
            } else {
                Err(DecErrM::OutOfRange(t))
            }
        } else {
            Err(DecErrM::InvalidValue(t))
        }
    } else {
        let whole = t.subrange(0, p);
        let frac = t.subrange(p + 1, t.len() as int);
        if find_dot(frac) < frac.len() {
            Err(DecErrM::InvalidValue(t))
        } else if !is_i64_numeral(whole) {
            Err(DecErrM::InvalidValue(t))
        } else if utf8_char_count(frac) > 9 {
            Err(DecErrM::Precision(t))
        } else if !is_numeral(frac, false) {
            Err(DecErrM::InvalidValue(t))
        } else {
            let secs = numeral_value(whole, true);
            let nanos = numeral_value(frac, false) * pow10((9 - frac.len()) as nat);
            if ts_in_range(secs) {
                Ok(Timestamp { secs: secs as i64, nanos: nanos as u32 })
            } else {
                Err(DecErrM::OutOfRange(t))
            }
        }
    }
}

/// What decoding a timestamp from a wire token yields. An integer token is
/// whole seconds, and an unsigned count beyond the signed 64-bit range is
/// out of range like any other unrepresentable second count; a float token
/// contributes its truncated integer part as seconds and the magnitude of
/// its fraction as nanoseconds; a text token is parsed; every other token
/// kind is an invalid shape.
pub open spec fn decode_ts_m(w: WireM) -> Result<Timestamp, DecErrM> {
    match w {
        WireM::Int(i) => if ts_in_range(i as int) {
            Ok(Timestamp { secs: i, nanos: 0 })
        } else {
            Err(DecErrM::OutOfRange(decimal_of_int(i as int)))
        },
        WireM::UInt(u) => if u <= i64::MAX && ts_in_range(u as int) {
            Ok(Timestamp { secs: u as i64, nanos: 0 })
        } else {
            Err(DecErrM::OutOfRange(decimal_of_nat(u as int)))
        },
        WireM::Real { whole, frac_nanos } => if frac_nanos < 1_000_000_000 {
            if ts_in_range(whole as int) {
                Ok(Timestamp { secs: whole, nanos: frac_nanos })
            } else {
                Err(DecErrM::OutOfRange(decimal_of_int(whole as int)))
            }
        } else {
            Err(DecErrM::InvalidValue(decimal_of_int(whole as int)))
        },
        WireM::Text(t) => decode_ts_text_m(t),
        _ => Err(DecErrM::InvalidShape),
    }
}

/// A decode outcome, read at the model level.
pub open spec fn ts_result_view(r: Result<Timestamp, DecodeError>) -> Result<Timestamp, DecErrM> {
    match r {
        Ok(ts) => Ok(ts),
        Err(e) => Err(decode_error_view(e)),
    }
}

/// Every successfully decoded timestamp is well formed.
pub proof fn lemma_decode_ts_wf(w: WireM)
    ensures
        decode_ts_m(w) matches Ok(ts) ==> ts.wf(),
{
    match w {
        WireM::Text(t) => {
            let p = find_dot(t);
            lemma_find_dot(t);
            if p < t.len() {
                let frac = t.subrange(p + 1, t.len() as int);
                if decode_ts_text_m(t) is Ok {
                    lemma_frac_nanos_bound(frac);
                }
            }
        },
        _ => {},
    }
}

/// A fraction of at most nine characters scales to fewer than a billion
/// nanoseconds.
proof fn lemma_frac_nanos_bound(frac: Seq<u8>)
    requires
        is_numeral(frac, false),
        utf8_char_count(frac) <= 9,
    ensures
        0 <= numeral_value(frac, false) * pow10((9 - frac.len()) as nat) < 1_000_000_000,
        frac.len() <= 9,
{
    let d = numeral_digits(frac, false);
    lemma_digits_char_count_full(frac);
    lemma_digits_value_bounds(d);
    lemma_pow10_mono(d.len() as nat, frac.len() as nat);
    let v = digits_value(d);
    let a = frac.len() as nat;
    assert(v < pow10(a));
    lemma_pow10_pos((9 - a) as nat);
    lemma_pow10_add(a, (9 - a) as nat);
    lemma_pow10_nine();
    assert(v * pow10((9 - a) as nat) < pow10(a) * pow10((9 - a) as nat)) by (nonlinear_arith)
        requires
            0 <= v < pow10(a),
            pow10((9 - a) as nat) > 0,
    ;
    assert(v * pow10((9 - a) as nat) >= 0) by (nonlinear_arith)
        requires
            0 <= v,
            pow10((9 - a) as nat) > 0,
    ;
}

/// A parseable numeral is ASCII, so its character count is its byte count.
proof fn lemma_digits_char_count_full(frac: Seq<u8>)
    requires
        is_numeral(frac, false),
    ensures
        utf8_char_count(frac) == frac.len(),
{
    let d = numeral_digits(frac, false);
    lemma_digits_char_count(d);
    if frac.len() > 0 && frac[0] == 43 {
        assert(frac =~= seq![43u8] + d);
        lemma_utf8_char_count_prepend_ascii(43u8, d);
    }
}

proof fn lemma_utf8_char_count_prepend_ascii(b: u8, d: Seq<u8>)
    requires
        b < 128,
    ensures
        utf8_char_count(seq![b] + d) == 1 + utf8_char_count(d),
    decreases d,
{
    let s = seq![b] + d;
    if d.len() == 0 {
        assert(s.len() == 1);
        assert(s.last() == b);
        assert(s.drop_last().len() == 0);
        assert(utf8_char_count(s) == utf8_char_count(s.drop_last()) + 1);
    } else {
        assert(s.drop_last() =~= seq![b] + d.drop_last());
        lemma_utf8_char_count_prepend_ascii(b, d.drop_last());
        assert(s.last() == d.last());
    }
}

pub proof fn lemma_pow10_pos(n: nat)
    ensures
        pow10(n) >= 1,
    decreases n,
{
    if n > 0 {
        lemma_pow10_pos((n - 1) as nat);
    }
}

pub proof fn lemma_pow10_mono(a: nat, b: nat)
    requires
        a <= b,
    ensures
        pow10(a) <= pow10(b),
    decreases b,
{
    if a < b {
        lemma_pow10_mono(a, (b - 1) as nat);
        lemma_pow10_pos((b - 1) as nat);
    }
}

pub proof fn lemma_pow10_add(a: nat, b: nat)
    ensures
        pow10(a + b) == pow10(a) * pow10(b),
    decreases a,
{
    if a == 0 {
        assert(pow10(0 + b) == 1 * pow10(b));
    } else {
        lemma_pow10_add((a - 1) as nat, b);
        assert(pow10(a + b) == 10 * pow10((a + b - 1) as nat));
        assert(10 * (pow10((a - 1) as nat) * pow10(b)) == (10 * pow10((a - 1) as nat)) * pow10(b))
            by (nonlinear_arith);
    }
}

pub proof fn lemma_pow10_nine()
    ensures
        pow10(9) == 1_000_000_000,
{
    reveal_with_fuel(pow10, 10);
}

/// Powers of ten up to a billion.
fn pow10_u64(e: u64) -> (r: u64)
    requires
        e <= 9,
    ensures
        r == pow10(e as nat),
{
    let mut r: u64 = 1;
    let mut i: u64 = 0;
    while i < e
        invariant
            0 <= i <= e <= 9,
            r == pow10(i as nat),
        decreases e - i,
    {
        proof {
            lemma_pow10_mono((i + 1) as nat, 9);
            lemma_pow10_nine();
            assert(pow10((i + 1) as nat) == 10 * pow10(i as nat));
        }
        r = r * 10;
        i = i + 1;
    }
    r
}

/// Decodes a timestamp from a text token.
fn decode_ts_text(t: &Vec<u8>) -> (r: Result<Timestamp, DecodeError>)
    ensures
        ts_result_view(r) == decode_ts_text_m(t@),
{
    let ghost s = t@;
    proof {
        lemma_find_dot(s);
    }
    // Find the first dot, if any.
    let mut p: usize = 0;
    let n = t.len();
    while p < n && t[p] != 46
        invariant
            0 <= p <= n == s.len(),
            s == t@,
            forall|j: int| 0 <= j < p ==> s[j] != 46,
        decreases n - p,
    {
        p += 1;
    }
    proof {
        assert(find_dot(s) == p) by {
            lemma_find_dot(s);
            if find_dot(s) < p {
                assert(s[find_dot(s)] == 46);
            }
            if p < find_dot(s) {
                assert(s[p as int] != 46);
            }
        }
    }
    if p == n {
        // No fractional part: signed whole seconds.
        match parse_i64_text(t, 0, n) {
            Some(secs) => {
                proof {
                    assert(s.subrange(0, n as int) =~= s);
                }
                match datetime_from_timestamp(secs, 0) {
                    Some(_) => Ok(Timestamp { secs, nanos: 0 }),
                    None => Err(DecodeError::OutOfRange(crate::text::copy_bytes(t))),
                }
            },
            None => {
                proof {
                    assert(s.subrange(0, n as int) =~= s);
                }
                Err(DecodeError::InvalidValue(crate::text::copy_bytes(t)))
            },
        }
    } else {
        let ghost whole = s.subrange(0, p as int);
        let ghost frac = s.subrange(p + 1, n as int);
        // A second dot means more than two parts.
        let mut q: usize = p + 1;
        let mut second = false;
        while q < n
            invariant
                p + 1 <= q <= n == s.len(),
                s == t@,
                second <==> exists|j: int| p + 1 <= j < q && s[j] == 46,
            decreases n - q,
        {
            if t[q] == 46 {
                second = true;
            }
            q += 1;
        }
        proof {
            lemma_find_dot(frac);
            assert(forall|j: int| 0 <= j < frac.len() ==> frac[j] == s[p + 1 + j]);
            if second {
                assert(find_dot(frac) < frac.len()) by {
                    if find_dot(frac) == frac.len() {
                        let j = choose|j: int| p + 1 <= j < n && s[j] == 46;
                        assert(frac[j - p - 1] == 46);
                    }
                }
            } else {
                assert(find_dot(frac) == frac.len()) by {
                    if find_dot(frac) < frac.len() {
                        assert(s[p + 1 + find_dot(frac)] == 46);
                    }
                }
            }
        }
        if second {
            return Err(DecodeError::InvalidValue(crate::text::copy_bytes(t)));
        }
        match parse_i64_text(t, 0, p) {
            Some(secs) => {
                let chars = count_utf8_chars(t, p + 1, n);
                if chars > 9 {
                    return Err(DecodeError::Precision(crate::text::copy_bytes(t)));
                }
                match parse_u64_text(t, p + 1, n) {
                    Some(v) => {
                        proof {
                            lemma_frac_nanos_bound(frac);
                            lemma_digits_char_count_full(frac);
                        }
                        let scale = pow10_u64(9 - ((n - p) as u64 - 1));
                        let nanos_wide = v * scale;
                        proof {
                            let d = numeral_digits(frac, false);
                            lemma_digits_value_bounds(d);
                            lemma_pow10_mono(d.len() as nat, frac.len() as nat);
                            lemma_pow10_pos((9 - frac.len()) as nat);
                            lemma_pow10_add(frac.len() as nat, (9 - frac.len()) as nat);
                            lemma_pow10_nine();
                            assert(v * scale < 1_000_000_000) by (nonlinear_arith)
                                requires
                                    0 <= (v as int) < pow10(frac.len() as nat),
                                    scale == pow10((9 - frac.len()) as nat),
                                    pow10(frac.len() as nat) * pow10((9 - frac.len()) as nat)
                                        == 1_000_000_000,
                                    scale >= 0,
                            ;
                        }
                        let nanos = nanos_wide as u32;
                        match datetime_from_timestamp(secs, nanos) {
                            Some(_) => Ok(Timestamp { secs, nanos }),
                            None => Err(DecodeError::OutOfRange(crate::text::copy_bytes(t))),
                        }
                    },
                    None => {
                        // A fraction of at most nine characters cannot
                        // overflow, so the only way the parse fails is a
                        // malformed numeral.
                        proof {
                            if is_numeral(frac, false) {
                                let d = numeral_digits(frac, false);
                                lemma_digits_char_count_full(frac);
                                lemma_digits_value_bounds(d);
                                lemma_pow10_mono(d.len() as nat, 9);
                                lemma_pow10_nine();
                            }
                        }
                        Err(DecodeError::InvalidValue(crate::text::copy_bytes(t)))
                    },
                }
            },
            None => Err(DecodeError::InvalidValue(crate::text::copy_bytes(t))),
        }
    }
}

/// Decodes a timestamp from any supported token shape. Returns the decoded
/// point in time exactly when the model accepts the token, and the model's
/// error otherwise; every success is a well-formed timestamp.
pub fn decode_timestamp(w: &Wire) -> (r: Result<Timestamp, DecodeError>)
    ensures
        ts_result_view(r) == decode_ts_m(wire_view(*w)),
        r matches Ok(ts) ==> ts.wf(),
{
    proof {
        lemma_decode_ts_wf(wire_view(*w));
    }
    match w {
        Wire::Int(i) => {
            match datetime_from_timestamp(*i, 0) {
                Some(_) => Ok(Timestamp { secs: *i, nanos: 0 }),
                None => Err(DecodeError::OutOfRange(format_i64(*i))),
            }
        },
        Wire::UInt(u) => {
            if *u <= 9223372036854775807 {
                match datetime_from_timestamp(*u as i64, 0) {
                    Some(_) => Ok(Timestamp { secs: *u as i64, nanos: 0 }),
                    None => Err(DecodeError::OutOfRange(format_u64(*u))),
                }
            } else {
                Err(DecodeError::OutOfRange(format_u64(*u)))
            }
        },
        Wire::Real { whole, frac_nanos } => {
            if *frac_nanos < 1_000_000_000 {
                match datetime_from_timestamp(*whole, *frac_nanos) {
                    Some(_) => Ok(Timestamp { secs: *whole, nanos: *frac_nanos }),
                    None => Err(DecodeError::OutOfRange(format_i64(*whole))),
                }
            } else {
                Err(DecodeError::InvalidValue(format_i64(*whole)))
            }
        },
        Wire::Text(t) => decode_ts_text(t),
        _ => Err(DecodeError::InvalidShape),
    }
}

} // verus!
