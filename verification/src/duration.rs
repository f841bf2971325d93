//! Durations encoded as whole seconds, in three token shapes. The integer
//! and text shapes round half-up at the half-second boundary; the float
//! shape rounds the fractional-second value to the nearest integer with
//! ties away from zero. For a (non-negative) duration the two rules agree,
//! and a lemma below says so; they are kept distinct because they are
//! distinct rules.

use vstd::prelude::*;
use crate::text::{
    copy_bytes, decimal_of_int, decimal_of_nat, format_u64, is_numeral, lemma_decimal_of_nat_value,
    numeral_digits, numeral_value, parse_u64_text,
};
use crate::wire::{decode_error_view, DecErrM, DecodeError, Wire, WireM, wire_view};

verus! {

/// A duration: whole seconds and a sub-second nanosecond part.
#[derive(Clone, Copy, PartialEq, Eq, Structural, Debug)]
pub struct DurationValue {
    pub secs: u64,
    pub nanos: u32,
}

impl DurationValue {
    pub open spec fn wf(self) -> bool {
        self.nanos < 1_000_000_000
    }
}

/// The token shape a duration strategy reads and writes.
#[derive(Clone, Copy, PartialEq, Eq, Structural, Debug)]
pub enum NumShape {
    AsInt,
    AsFloat,
    AsText,
}

/// Whole seconds rounded half-up: one more second when the sub-second part
/// reaches five hundred milliseconds.
pub open spec fn round_half_up(secs: int, nanos: int) -> int {
    if nanos / 1_000_000 >= 500 {
        secs + 1
    } else {
        secs
    }
}

/// The nearest whole-second count to `secs + nanos / 1e9`, a tie going away
/// from zero.
pub open spec fn round_ties_away(secs: int, nanos: int) -> int {
    if 2 * nanos >= 1_000_000_000 {
        secs + 1
    } else {
        secs
    }
}

/// On a non-negative duration with a sub-second nanosecond part, rounding
/// half-up at the millisecond threshold and rounding ties away from zero
/// agree.
pub proof fn lemma_rounding_rules_agree(secs: int, nanos: int)
    requires
        0 <= nanos < 1_000_000_000,
    ensures
        round_half_up(secs, nanos) == round_ties_away(secs, nanos),
{
    assert(nanos / 1_000_000 >= 500 <==> nanos >= 500_000_000);
}

/// Whether rounding this duration up cannot overflow its seconds counter.
pub open spec fn roundable(d: DurationValue) -> bool {
    !(d.secs == u64::MAX && d.nanos >= 500_000_000)
}

/// Encodes a duration as its half-up-rounded whole-second count.
pub fn encode_duration_secs(d: &DurationValue) -> (r: u64)
    requires
        d.wf(),
        roundable(*d),
    ensures
        r as int == round_half_up(d.secs as int, d.nanos as int),
{
    let mut secs = d.secs;
    if d.nanos / 1_000_000 >= 500 {
        secs = secs + 1;
    }
    secs
}

/// Encodes a duration as the decimal text of its half-up-rounded
/// whole-second count.
pub fn encode_duration_secs_text(d: &DurationValue) -> (r: Vec<u8>)
    requires
        d.wf(),
        roundable(*d),
    ensures
        r@ == decimal_of_nat(round_half_up(d.secs as int, d.nanos as int)),
{
    let secs = encode_duration_secs(d);
    format_u64(secs)
}

/// Encodes a duration as a whole-second count for a float token, rounding
/// the fractional-second value to the nearest integer with ties away from
/// zero. The count must fit the signed range of a float token's integral
/// part.
pub fn encode_duration_secs_float(d: &DurationValue) -> (r: i64)
    requires
        d.wf(),
        d.secs < i64::MAX as u64,
    ensures
        r as int == round_ties_away(d.secs as int, d.nanos as int),
{
    let mut secs = d.secs;
    if d.nanos >= 500_000_000 {
        secs = secs + 1;
    }
    secs as i64
}

/// What decoding a duration from a wire token yields, under a shape and a
/// strictness policy. A strict decoder accepts only its own token shape;
/// a lenient one accepts any of the three. Integer and text tokens carry
/// whole seconds; a float token carries whole seconds and nanoseconds; a
/// negative count is out of range, and any other token kind an invalid
/// shape.
pub open spec fn decode_dur_m(shape: NumShape, strict: bool, w: WireM) -> Result<
    DurationValue,
    DecErrM,
> {
    match w {
        WireM::UInt(u) => if shape == NumShape::AsInt || !strict {
            Ok(DurationValue { secs: u, nanos: 0 })
        } else {
            Err(DecErrM::InvalidShape)
        },
        WireM::Int(i) => if shape == NumShape::AsInt || !strict {
            if i >= 0 {
                Ok(DurationValue { secs: i as u64, nanos: 0 })
            } else {
                Err(DecErrM::OutOfRange(decimal_of_int(i as int)))
            }
        } else {
            Err(DecErrM::InvalidShape)
        },
        WireM::Real { whole, frac_nanos } => if shape == NumShape::AsFloat || !strict {
            if whole >= 0 && frac_nanos < 1_000_000_000 {
                Ok(DurationValue { secs: whole as u64, nanos: frac_nanos })
            } else {
                Err(DecErrM::OutOfRange(decimal_of_int(whole as int)))
            }
        } else {
            Err(DecErrM::InvalidShape)
        },
        WireM::Text(t) => if shape == NumShape::AsText || !strict {
            if is_numeral(t, false) && numeral_value(t, false) <= u64::MAX {
                Ok(DurationValue { secs: numeral_value(t, false) as u64, nanos: 0 })
            } else {
                Err(DecErrM::InvalidValue(t))
            }
        } else {
            Err(DecErrM::InvalidShape)
        },
        _ => Err(DecErrM::InvalidShape),
    }
}

/// A decode outcome, read at the model level.
pub open spec fn dur_result_view(r: Result<DurationValue, DecodeError>) -> Result<
    DurationValue,
    DecErrM,
> {
    match r {
        Ok(d) => Ok(d),
        Err(e) => Err(decode_error_view(e)),
    }
}

/// Decodes a duration from a wire token under a shape and a strictness
/// policy. Every success is a well-formed duration.
pub fn decode_duration(w: &Wire, shape: NumShape, strict: bool) -> (r: Result<
    DurationValue,
    DecodeError,
>)
    ensures
        dur_result_view(r) == decode_dur_m(shape, strict, wire_view(*w)),
        r matches Ok(d) ==> d.wf(),
{
    match w {
        Wire::UInt(u) => {
            if shape == NumShape::AsInt || !strict {
                Ok(DurationValue { secs: *u, nanos: 0 })
            } else {
                Err(DecodeError::InvalidShape)
            }
        },
        Wire::Int(i) => {
            if shape == NumShape::AsInt || !strict {
                if *i >= 0 {
                    Ok(DurationValue { secs: *i as u64, nanos: 0 })
                } else {
                    Err(DecodeError::OutOfRange(crate::text::format_i64(*i)))
                }
            } else {
                Err(DecodeError::InvalidShape)
            }
        },
        Wire::Real { whole, frac_nanos } => {
            if shape == NumShape::AsFloat || !strict {
                if *whole >= 0 && *frac_nanos < 1_000_000_000 {
                    Ok(DurationValue { secs: *whole as u64, nanos: *frac_nanos })
                } else {
                    Err(DecodeError::OutOfRange(crate::text::format_i64(*whole)))
                }
            } else {
                Err(DecodeError::InvalidShape)
            }
        },
        Wire::Text(t) => {
            if shape == NumShape::AsText || !strict {
                match parse_u64_text(t, 0, t.len()) {
                    Some(v) => {
                        proof {
                            assert(t@.subrange(0, t@.len() as int) =~= t@);
                        }
                        Ok(DurationValue { secs: v, nanos: 0 })
                    },
                    None => {
                        proof {
                            assert(t@.subrange(0, t@.len() as int) =~= t@);
                        }
                        Err(DecodeError::InvalidValue(copy_bytes(t)))
                    },
                }
            } else {
                Err(DecodeError::InvalidShape)
            }
        },
        _ => Err(DecodeError::InvalidShape),
    }
}

/// Round-trip of the integer shape: decoding the encoded whole-second
/// count, under either strictness, yields the duration rounded to the
/// nearest second with ties rounding up.
pub proof fn lemma_duration_int_round_trip(d: DurationValue, strict: bool)
    requires
        d.wf(),
        roundable(d),
    ensures
        decode_dur_m(
            NumShape::AsInt,
            strict,
            WireM::UInt(round_half_up(d.secs as int, d.nanos as int) as u64),
        ) == Ok::<DurationValue, DecErrM>(
            DurationValue { secs: round_half_up(d.secs as int, d.nanos as int) as u64, nanos: 0 },
        ),
{
}

/// Round-trip of the text shape: the decimal text of the rounded count
/// reads back as the same count.
pub proof fn lemma_duration_text_round_trip(d: DurationValue, strict: bool)
    requires
        d.wf(),
        roundable(d),
    ensures
        decode_dur_m(
            NumShape::AsText,
            strict,
            WireM::Text(decimal_of_nat(round_half_up(d.secs as int, d.nanos as int))),
        ) == Ok::<DurationValue, DecErrM>(
            DurationValue { secs: round_half_up(d.secs as int, d.nanos as int) as u64, nanos: 0 },
        ),
{
    let n = round_half_up(d.secs as int, d.nanos as int);
    let t = decimal_of_nat(n);
    lemma_decimal_of_nat_value(n);
    assert(numeral_digits(t, false) == t);
}

} // verus!
