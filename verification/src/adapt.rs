//! The conversion-strategy contract and its propagation through container
//! shapes. A strategy is an explicit policy value; applying it to a natural
//! value yields a wire token tree, and applying it to a wire token tree
//! yields a natural value back. A strategy chosen for an element type is
//! applied to every element of an optional, a sequence, a mapping, or a
//! fixed-arity shape, recursively, so strategies compose under nesting.

use vstd::prelude::*;
use crate::duration::{
    decode_dur_m, decode_duration, DurationValue, NumShape, round_half_up, round_ties_away,
};
use crate::timestamp::{decode_timestamp, decode_ts_m, Timestamp};
use crate::text::{decimal_of_nat, format_u64};
use crate::wire::{
    decode_error_view, DecErrM, DecodeError, EncodeError, Wire, wire_pairs_view, wire_seq_view,
    wire_view, WireM,
};

verus! {

/// A natural value: a scalar, a time value, or a container of further
/// natural values. Sequence-like containers appear as a `List` in their
/// iteration order; map-like containers as a `Table` of entries in theirs;
/// tuples and fixed-size arrays as a `Tuple`.
#[derive(Debug, PartialEq, Eq)]
pub enum Value {
    UInt(u64),
    Int(i64),
    Text(Vec<u8>),
    Flag(bool),
    Dur(DurationValue),
    Stamp(Timestamp),
    Opt(Option<Box<Value>>),
    List(Vec<Value>),
    Tuple(Vec<Value>),
    Table(Vec<(Value, Value)>),
}

/// The mathematical model of a natural value.
pub enum ValM {
    UInt(u64),
    Int(i64),
    Text(Seq<u8>),
    Flag(bool),
    Dur(DurationValue),
    Stamp(Timestamp),
    Opt(Option<Box<ValM>>),
    List(Seq<ValM>),
    Tuple(Seq<ValM>),
    Table(Seq<(ValM, ValM)>),
}

pub open spec fn value_view(v: Value) -> ValM
    decreases v,
{
    match v {
        Value::UInt(n) => ValM::UInt(n),
        Value::Int(n) => ValM::Int(n),
        Value::Text(t) => ValM::Text(t@),
        Value::Flag(b) => ValM::Flag(b),
        Value::Dur(d) => ValM::Dur(d),
        Value::Stamp(ts) => ValM::Stamp(ts),
        Value::Opt(o) => ValM::Opt(
            match o {
                Some(b) => Some(Box::new(value_view(*b))),
                None => None,
            },
        ),
        Value::List(vs) => ValM::List(value_seq_view(vs@)),
        Value::Tuple(vs) => ValM::Tuple(value_seq_view(vs@)),
        Value::Table(ps) => ValM::Table(value_pairs_view(ps@)),
    }
}

pub open spec fn value_seq_view(vs: Seq<Value>) -> Seq<ValM>
    decreases vs,
{
    if vs.len() == 0 {
        Seq::empty()
    } else {
        seq![value_view(vs[0])] + value_seq_view(vs.drop_first())
    }
}

pub open spec fn value_pairs_view(ps: Seq<(Value, Value)>) -> Seq<(ValM, ValM)>
    decreases ps,
{
    if ps.len() == 0 {
        Seq::empty()
    } else {
        seq![(value_view(ps[0].0), value_view(ps[0].1))] + value_pairs_view(ps.drop_first())
    }
}

pub proof fn lemma_value_seq_view(vs: Seq<Value>)
    ensures
        value_seq_view(vs).len() == vs.len(),
        forall|i: int| 0 <= i < vs.len() ==> value_seq_view(vs)[i] == value_view(
            #[trigger] vs[i],
        ),
    decreases vs,
{
    if vs.len() > 0 {
        lemma_value_seq_view(vs.drop_first());
        assert forall|i: int| 0 <= i < vs.len() implies value_seq_view(vs)[i] == value_view(
            #[trigger] vs[i],
        ) by {
            if i > 0 {
                assert(vs.drop_first()[i - 1] == vs[i]);
            }
        }
    }
}

pub proof fn lemma_value_pairs_view(ps: Seq<(Value, Value)>)
    ensures
        value_pairs_view(ps).len() == ps.len(),
        forall|i: int| 0 <= i < ps.len() ==> value_pairs_view(ps)[i] == (
            value_view(#[trigger] ps[i].0),
            value_view(ps[i].1),
        ),
    decreases ps,
{
    if ps.len() > 0 {
        lemma_value_pairs_view(ps.drop_first());
        assert forall|i: int| 0 <= i < ps.len() implies value_pairs_view(ps)[i] == (
            value_view(#[trigger] ps[i].0),
            value_view(ps[i].1),
        ) by {
            if i > 0 {
                assert(ps.drop_first()[i - 1] == ps[i]);
            }
        }
    }
}

/// A conversion strategy. The scalar strategies do the real conversions;
/// the container strategies propagate an element strategy through a
/// container shape; `Same` and its permissive synonym `SameAs` mean "the
/// value's own natural encoding", and `DefaultOnError` delegates on encode
/// while substituting a default, where one exists, for a failed decode.
#[derive(Debug, PartialEq, Eq)]
pub enum Strategy {
    Same,
    SameAs,
    DefaultOnError(Box<Strategy>),
    TimestampFromAny,
    DurationSeconds(NumShape, bool),
    Optional(Box<Strategy>),
    Sequence(Box<Strategy>),
    Entries(Box<Strategy>, Box<Strategy>),
    MapAsList(Box<Strategy>, Box<Strategy>),
    ListAsMap(Box<Strategy>, Box<Strategy>),
    Fixed(Vec<Strategy>),
}

/// The mathematical model of a strategy.
pub enum StratM {
    Same,
    SameAs,
    DefaultOnError(Box<StratM>),
    TimestampFromAny,
    DurationSeconds(NumShape, bool),
    Optional(Box<StratM>),
    Sequence(Box<StratM>),
    Entries(Box<StratM>, Box<StratM>),
    MapAsList(Box<StratM>, Box<StratM>),
    ListAsMap(Box<StratM>, Box<StratM>),
    Fixed(Seq<StratM>),
}

pub open spec fn strat_view(s: Strategy) -> StratM
    decreases s,
{
    match s {
        Strategy::Same => StratM::Same,
        Strategy::SameAs => StratM::SameAs,
        Strategy::DefaultOnError(inner) => StratM::DefaultOnError(Box::new(strat_view(*inner))),
        Strategy::TimestampFromAny => StratM::TimestampFromAny,
        Strategy::DurationSeconds(shape, strict) => StratM::DurationSeconds(shape, strict),
        Strategy::Optional(es) => StratM::Optional(Box::new(strat_view(*es))),
        Strategy::Sequence(es) => StratM::Sequence(Box::new(strat_view(*es))),
        Strategy::Entries(ks, vs) => StratM::Entries(
            Box::new(strat_view(*ks)),
            Box::new(strat_view(*vs)),
        ),
        Strategy::MapAsList(ks, vs) => StratM::MapAsList(
            Box::new(strat_view(*ks)),
            Box::new(strat_view(*vs)),
        ),
        Strategy::ListAsMap(ks, vs) => StratM::ListAsMap(
            Box::new(strat_view(*ks)),
            Box::new(strat_view(*vs)),
        ),
        Strategy::Fixed(ss) => StratM::Fixed(strat_seq_view(ss@)),
    }
}

pub open spec fn strat_seq_view(ss: Seq<Strategy>) -> Seq<StratM>
    decreases ss,
{
    if ss.len() == 0 {
        Seq::empty()
    } else {
        seq![strat_view(ss[0])] + strat_seq_view(ss.drop_first())
    }
}

pub proof fn lemma_strat_seq_view(ss: Seq<Strategy>)
    ensures
        strat_seq_view(ss).len() == ss.len(),
        forall|i: int| 0 <= i < ss.len() ==> strat_seq_view(ss)[i] == strat_view(
            #[trigger] ss[i],
        ),
    decreases ss,
{
    if ss.len() > 0 {
        lemma_strat_seq_view(ss.drop_first());
        assert forall|i: int| 0 <= i < ss.len() implies strat_seq_view(ss)[i] == strat_view(
            #[trigger] ss[i],
        ) by {
            if i > 0 {
                assert(ss.drop_first()[i - 1] == ss[i]);
            }
        }
    }
}

/// What encoding a duration under a shape yields: the rounded whole-second
/// count as an unsigned integer, a float token, or decimal text. A rounded
/// count past the top of its token's counter is an out-of-range error.
pub open spec fn encode_dur_m(shape: NumShape, d: DurationValue) -> Result<WireM, EncodeError> {
    match shape {
        NumShape::AsInt => {
            let r = round_half_up(d.secs as int, d.nanos as int);
            if r <= u64::MAX {
                Ok(WireM::UInt(r as u64))
            } else {
                Err(EncodeError::OutOfRange)
            }
        },
        NumShape::AsFloat => {
            let r = round_ties_away(d.secs as int, d.nanos as int);
            if r <= i64::MAX {
                Ok(WireM::Real { whole: r as i64, frac_nanos: 0 })
            } else {
                Err(EncodeError::OutOfRange)
            }
        },
        NumShape::AsText => {
            let r = round_half_up(d.secs as int, d.nanos as int);
            if r <= u64::MAX {
                Ok(WireM::Text(decimal_of_nat(r)))
            } else {
                Err(EncodeError::OutOfRange)
            }
        },
    }
}

/// What encoding a value under a strategy yields. A container strategy
/// requires the matching container shape and encodes every element through
/// its element strategy; `Same` and `SameAs` write the natural token of
/// the value, shape for shape; the timestamp strategy has no encode
/// direction; a mapping can be written as a list of key/value pairs
/// (`MapAsList`) and a list of pairs as a mapping (`ListAsMap`).
pub open spec fn encode_m(s: StratM, v: ValM) -> Result<WireM, EncodeError>
    decreases v, s, 0int,
{
    match s {
        StratM::Same | StratM::SameAs => match v {
            ValM::UInt(n) => Ok(WireM::UInt(n)),
            ValM::Int(n) => Ok(WireM::Int(n)),
            ValM::Text(t) => Ok(WireM::Text(t)),
            ValM::Flag(b) => Ok(WireM::Flag(b)),
            ValM::Dur(_) => Err(EncodeError::ShapeMismatch),
            ValM::Stamp(_) => Err(EncodeError::ShapeMismatch),
            ValM::Opt(o) => match o {
                None => Ok(WireM::Absent),
                Some(b) => match encode_m(s, *b) {
                    Ok(w) => Ok(WireM::Present(Box::new(w))),
                    Err(e) => Err(e),
                },
            },
            ValM::List(vs) => match encode_list_m(s, vs) {
                Ok(ws) => Ok(WireM::List(ws)),
                Err(e) => Err(e),
            },
            ValM::Tuple(vs) => match encode_list_m(s, vs) {
                Ok(ws) => Ok(WireM::Fixed(ws)),
                Err(e) => Err(e),
            },
            ValM::Table(ps) => match encode_pairs_m(s, s, ps) {
                Ok(ws) => Ok(WireM::Table(ws)),
                Err(e) => Err(e),
            },
        },
        StratM::DefaultOnError(inner) => encode_m(*inner, v),
        StratM::TimestampFromAny => Err(EncodeError::Unsupported),
        StratM::DurationSeconds(shape, _) => match v {
            ValM::Dur(d) => encode_dur_m(shape, d),
            _ => Err(EncodeError::ShapeMismatch),
        },
        StratM::Optional(es) => match v {
            ValM::Opt(o) => match o {
                None => Ok(WireM::Absent),
                Some(b) => match encode_m(*es, *b) {
                    Ok(w) => Ok(WireM::Present(Box::new(w))),
                    Err(e) => Err(e),
                },
            },
            _ => Err(EncodeError::ShapeMismatch),
        },
        StratM::Sequence(es) => match v {
            ValM::List(vs) => match encode_list_m(*es, vs) {
                Ok(ws) => Ok(WireM::List(ws)),
                Err(e) => Err(e),
            },
            _ => Err(EncodeError::ShapeMismatch),
        },
        StratM::Entries(ks, vs_) => match v {
            ValM::Table(ps) => match encode_pairs_m(*ks, *vs_, ps) {
                Ok(ws) => Ok(WireM::Table(ws)),
                Err(e) => Err(e),
            },
            _ => Err(EncodeError::ShapeMismatch),
        },
        StratM::MapAsList(ks, vs_) => match v {
            ValM::Table(ps) => match encode_pairs_m(*ks, *vs_, ps) {
                Ok(ws) => Ok(WireM::List(pairs_to_fixed_tokens(ws))),
                Err(e) => Err(e),
            },
            _ => Err(EncodeError::ShapeMismatch),
        },
        StratM::ListAsMap(ks, vs_) => match v {
            ValM::List(items) => match encode_kvlist_m(*ks, *vs_, items) {
                Ok(ws) => Ok(WireM::Table(ws)),
                Err(e) => Err(e),
            },
            _ => Err(EncodeError::ShapeMismatch),
        },
        StratM::Fixed(ss) => match v {
            ValM::Tuple(vs) => if ss.len() == vs.len() {
                match encode_fixed_m(ss, vs) {
                    Ok(ws) => Ok(WireM::Fixed(ws)),
                    Err(e) => Err(e),
                }
            } else {
                Err(EncodeError::ShapeMismatch)
            },
            _ => Err(EncodeError::ShapeMismatch),
        },
    }
}

/// Encodes every element of a sequence under one element strategy; the
/// first failing element's error is the sequence's error.
pub open spec fn encode_list_m(es: StratM, vs: Seq<ValM>) -> Result<Seq<WireM>, EncodeError>
    decreases vs, es, 1int,
{
    if vs.len() == 0 {
        Ok(Seq::empty())
    } else {
        match encode_m(es, vs[0]) {
            Ok(w) => match encode_list_m(es, vs.drop_first()) {
                Ok(ws) => Ok(seq![w] + ws),
                Err(e) => Err(e),
            },
            Err(e) => Err(e),
        }
    }
}

/// Encodes every entry of a mapping, the key and the value each under its
/// own strategy.
pub open spec fn encode_pairs_m(ks: StratM, vs_: StratM, ps: Seq<(ValM, ValM)>) -> Result<
    Seq<(WireM, WireM)>,
    EncodeError,
>
    decreases ps, ks, 1int,
{
    if ps.len() == 0 {
        Ok(Seq::empty())
    } else {
        match encode_m(ks, ps[0].0) {
            Ok(kw) => match encode_m(vs_, ps[0].1) {
                Ok(vw) => match encode_pairs_m(ks, vs_, ps.drop_first()) {
                    Ok(ws) => Ok(seq![(kw, vw)] + ws),
                    Err(e) => Err(e),
                },
                Err(e) => Err(e),
            },
            Err(e) => Err(e),
        }
    }
}

/// Encodes a fixed-arity shape, each position under its own strategy.
pub open spec fn encode_fixed_m(ss: Seq<StratM>, vs: Seq<ValM>) -> Result<Seq<WireM>, EncodeError>
    decreases vs, ss, 1int,
{
    if vs.len() == 0 || ss.len() == 0 {
        Ok(Seq::empty())
    } else {
        match encode_m(ss[0], vs[0]) {
            Ok(w) => match encode_fixed_m(ss.drop_first(), vs.drop_first()) {
                Ok(ws) => Ok(seq![w] + ws),
                Err(e) => Err(e),
            },
            Err(e) => Err(e),
        }
    }
}

/// Encodes a list of two-element tuples as mapping entries.
pub open spec fn encode_kvlist_m(ks: StratM, vs_: StratM, items: Seq<ValM>) -> Result<
    Seq<(WireM, WireM)>,
    EncodeError,
>
    decreases items, ks, 1int,
{
    if items.len() == 0 {
        Ok(Seq::empty())
    } else {
        match items[0] {
            ValM::Tuple(kv) => if kv.len() == 2 {
                match encode_m(ks, kv[0]) {
                    Ok(kw) => match encode_m(vs_, kv[1]) {
                        Ok(vw) => match encode_kvlist_m(ks, vs_, items.drop_first()) {
                            Ok(ws) => Ok(seq![(kw, vw)] + ws),
                            Err(e) => Err(e),
                        },
                        Err(e) => Err(e),
                    },
                    Err(e) => Err(e),
                }
            } else {
                Err(EncodeError::ShapeMismatch)
            },
            _ => Err(EncodeError::ShapeMismatch),
        }
    }
}

/// Mapping entries written as a list of two-element fixed sequences.
pub open spec fn pairs_to_fixed_tokens(ws: Seq<(WireM, WireM)>) -> Seq<WireM> {
    Seq::new(ws.len(), |i: int| WireM::Fixed(seq![ws[i].0, ws[i].1]))
}

/// Decoded mapping entries read back as a list of two-element tuples.
pub open spec fn pairs_to_tuples(ps: Seq<(ValM, ValM)>) -> Seq<ValM> {
    Seq::new(ps.len(), |i: int| ValM::Tuple(seq![ps[i].0, ps[i].1]))
}

/// The default a strategy can substitute for a failed decode: the empty or
/// zero value of the shape the strategy describes. The identity strategies
/// describe no shape, so they have none.
pub open spec fn strat_default_m(s: StratM) -> Option<ValM>
    decreases s, 0int,
{
    match s {
        StratM::Same | StratM::SameAs => None,
        StratM::DefaultOnError(inner) => strat_default_m(*inner),
        StratM::TimestampFromAny => Some(ValM::Stamp(Timestamp { secs: 0, nanos: 0 })),
        StratM::DurationSeconds(_, _) => Some(ValM::Dur(DurationValue { secs: 0, nanos: 0 })),
        StratM::Optional(_) => Some(ValM::Opt(None)),
        StratM::Sequence(_) => Some(ValM::List(Seq::empty())),
        StratM::Entries(_, _) => Some(ValM::Table(Seq::empty())),
        StratM::MapAsList(_, _) => Some(ValM::Table(Seq::empty())),
        StratM::ListAsMap(_, _) => Some(ValM::List(Seq::empty())),
        StratM::Fixed(ss) => match strat_defaults_m(ss) {
            Some(ds) => Some(ValM::Tuple(ds)),
            None => None,
        },
    }
}

pub open spec fn strat_defaults_m(ss: Seq<StratM>) -> Option<Seq<ValM>>
    decreases ss, 1int,
{
    if ss.len() == 0 {
        Some(Seq::empty())
    } else {
        match strat_default_m(ss[0]) {
            Some(d) => match strat_defaults_m(ss.drop_first()) {
                Some(ds) => Some(seq![d] + ds),
                None => None,
            },
            None => None,
        }
    }
}

/// What decoding a wire token under a strategy yields: the inverse reading
/// of `encode_m`, token shape by token shape. `DefaultOnError` substitutes
/// the inner strategy's default, where one exists, for a failed inner
/// decode; the duration and timestamp strategies defer to their scalar
/// decoders; an unexpected token kind is an invalid shape.
pub open spec fn decode_m(s: StratM, w: WireM) -> Result<ValM, DecErrM>
    decreases w, s, 0int,
{
    match s {
        StratM::Same | StratM::SameAs => match w {
            WireM::UInt(n) => Ok(ValM::UInt(n)),
            WireM::Int(n) => Ok(ValM::Int(n)),
            WireM::Text(t) => Ok(ValM::Text(t)),
            WireM::Flag(b) => Ok(ValM::Flag(b)),
            WireM::Real { .. } => Err(DecErrM::InvalidShape),
            WireM::Absent => Ok(ValM::Opt(None)),
            WireM::Present(b) => match decode_m(s, *b) {
                Ok(v) => Ok(ValM::Opt(Some(Box::new(v)))),
                Err(e) => Err(e),
            },
            WireM::List(ws) => match decode_list_m(s, ws) {
                Ok(vs) => Ok(ValM::List(vs)),
                Err(e) => Err(e),
            },
            WireM::Fixed(ws) => match decode_list_m(s, ws) {
                Ok(vs) => Ok(ValM::Tuple(vs)),
                Err(e) => Err(e),
            },
            WireM::Table(es) => match decode_pairs_m(s, s, es) {
                Ok(ps) => Ok(ValM::Table(ps)),
                Err(e) => Err(e),
            },
        },
        StratM::DefaultOnError(inner) => match decode_m(*inner, w) {
            Ok(v) => Ok(v),
            Err(e) => match strat_default_m(*inner) {
                Some(d) => Ok(d),
                None => Err(e),
            },
        },
        StratM::TimestampFromAny => match decode_ts_m(w) {
            Ok(ts) => Ok(ValM::Stamp(ts)),
            Err(e) => Err(e),
        },
        StratM::DurationSeconds(shape, strict) => match decode_dur_m(shape, strict, w) {
            Ok(d) => Ok(ValM::Dur(d)),
            Err(e) => Err(e),
        },
        StratM::Optional(es) => match w {
            WireM::Absent => Ok(ValM::Opt(None)),
            WireM::Present(b) => match decode_m(*es, *b) {
                Ok(v) => Ok(ValM::Opt(Some(Box::new(v)))),
                Err(e) => Err(e),
            },
            _ => Err(DecErrM::InvalidShape),
        },
        StratM::Sequence(es) => match w {
            WireM::List(ws) => match decode_list_m(*es, ws) {
                Ok(vs) => Ok(ValM::List(vs)),
                Err(e) => Err(e),
            },
            _ => Err(DecErrM::InvalidShape),
        },
        StratM::Entries(ks, vs_) => match w {
            WireM::Table(es_) => match decode_pairs_m(*ks, *vs_, es_) {
                Ok(ps) => Ok(ValM::Table(ps)),
                Err(e) => Err(e),
            },
            _ => Err(DecErrM::InvalidShape),
        },
        StratM::MapAsList(ks, vs_) => match w {
            WireM::List(ws) => match decode_fixedpairs_m(*ks, *vs_, ws) {
                Ok(ps) => Ok(ValM::Table(ps)),
                Err(e) => Err(e),
            },
            _ => Err(DecErrM::InvalidShape),
        },
        StratM::ListAsMap(ks, vs_) => match w {
            WireM::Table(es_) => match decode_pairs_m(*ks, *vs_, es_) {
                Ok(ps) => Ok(ValM::List(pairs_to_tuples(ps))),
                Err(e) => Err(e),
            },
            _ => Err(DecErrM::InvalidShape),
        },
        StratM::Fixed(ss) => match w {
            WireM::Fixed(ws) => if ss.len() == ws.len() {
                match decode_fixed_m(ss, ws) {
                    Ok(vs) => Ok(ValM::Tuple(vs)),
                    Err(e) => Err(e),
                }
            } else {
                Err(DecErrM::InvalidShape)
            },
            _ => Err(DecErrM::InvalidShape),
        },
    }
}

/// Decodes every element of a sequence token under one element strategy.
pub open spec fn decode_list_m(es: StratM, ws: Seq<WireM>) -> Result<Seq<ValM>, DecErrM>
    decreases ws, es, 1int,
{
    if ws.len() == 0 {
        Ok(Seq::empty())
    } else {
        match decode_m(es, ws[0]) {
            Ok(v) => match decode_list_m(es, ws.drop_first()) {
                Ok(vs) => Ok(seq![v] + vs),
                Err(e) => Err(e),
            },
            Err(e) => Err(e),
        }
    }
}

/// Decodes every entry of a mapping token.
pub open spec fn decode_pairs_m(ks: StratM, vs_: StratM, es: Seq<(WireM, WireM)>) -> Result<
    Seq<(ValM, ValM)>,
    DecErrM,
>
    decreases es, ks, 1int,
{
    if es.len() == 0 {
        Ok(Seq::empty())
    } else {
        match decode_m(ks, es[0].0) {
            Ok(kv) => match decode_m(vs_, es[0].1) {
                Ok(vv) => match decode_pairs_m(ks, vs_, es.drop_first()) {
                    Ok(ps) => Ok(seq![(kv, vv)] + ps),
                    Err(e) => Err(e),
                },
                Err(e) => Err(e),
            },
            Err(e) => Err(e),
        }
    }
}

/// Decodes a fixed-arity token, each position under its own strategy.
pub open spec fn decode_fixed_m(ss: Seq<StratM>, ws: Seq<WireM>) -> Result<Seq<ValM>, DecErrM>
    decreases ws, ss, 1int,
{
    if ws.len() == 0 || ss.len() == 0 {
        Ok(Seq::empty())
    } else {
        match decode_m(ss[0], ws[0]) {
            Ok(v) => match decode_fixed_m(ss.drop_first(), ws.drop_first()) {
                Ok(vs) => Ok(seq![v] + vs),
                Err(e) => Err(e),
            },
            Err(e) => Err(e),
        }
    }
}

/// Decodes a list of two-element fixed tokens as mapping entries.
pub open spec fn decode_fixedpairs_m(ks: StratM, vs_: StratM, ws: Seq<WireM>) -> Result<
    Seq<(ValM, ValM)>,
    DecErrM,
>
    decreases ws, ks, 1int,
{
    if ws.len() == 0 {
        Ok(Seq::empty())
    } else {
        match ws[0] {
            WireM::Fixed(kv) => if kv.len() == 2 {
                match decode_m(ks, kv[0]) {
                    Ok(kd) => match decode_m(vs_, kv[1]) {
                        Ok(vd) => match decode_fixedpairs_m(ks, vs_, ws.drop_first()) {
                            Ok(ps) => Ok(seq![(kd, vd)] + ps),
                            Err(e) => Err(e),
                        },
                        Err(e) => Err(e),
                    },
                    Err(e) => Err(e),
                }
            } else {
                Err(DecErrM::InvalidShape)
            },
            _ => Err(DecErrM::InvalidShape),
        }
    }
}

/// An encode outcome, read at the model level.
pub open spec fn enc_result_view(r: Result<Wire, EncodeError>) -> Result<WireM, EncodeError> {
    match r {
        Ok(w) => Ok(wire_view(w)),
        Err(e) => Err(e),
    }
}

pub open spec fn wires_result_view(r: Result<Vec<Wire>, EncodeError>) -> Result<
    Seq<WireM>,
    EncodeError,
> {
    match r {
        Ok(ws) => Ok(wire_seq_view(ws@)),
        Err(e) => Err(e),
    }
}

pub open spec fn wpairs_result_view(r: Result<Vec<(Wire, Wire)>, EncodeError>) -> Result<
    Seq<(WireM, WireM)>,
    EncodeError,
> {
    match r {
        Ok(ws) => Ok(wire_pairs_view(ws@)),
        Err(e) => Err(e),
    }
}

/// A decode outcome, read at the model level.
pub open spec fn val_result_view(r: Result<Value, DecodeError>) -> Result<ValM, DecErrM> {
    match r {
        Ok(v) => Ok(value_view(v)),
        Err(e) => Err(decode_error_view(e)),
    }
}

pub open spec fn vals_result_view(r: Result<Vec<Value>, DecodeError>) -> Result<Seq<ValM>, DecErrM> {
    match r {
        Ok(vs) => Ok(value_seq_view(vs@)),
        Err(e) => Err(decode_error_view(e)),
    }
}

pub open spec fn vpairs_result_view(r: Result<Vec<(Value, Value)>, DecodeError>) -> Result<
    Seq<(ValM, ValM)>,
    DecErrM,
> {
    match r {
        Ok(ps) => Ok(value_pairs_view(ps@)),
        Err(e) => Err(decode_error_view(e)),
    }
}

pub open spec fn opt_val_view(r: Option<Value>) -> Option<ValM> {
    match r {
        Some(v) => Some(value_view(v)),
        None => None,
    }
}

pub open spec fn opt_vals_view(r: Option<Vec<Value>>) -> Option<Seq<ValM>> {
    match r {
        Some(vs) => Some(value_seq_view(vs@)),
        None => None,
    }
}

/// Encodes `value` under `strategy`: the executable form of `encode_m`.
pub fn encode_as(s: &Strategy, v: &Value) -> (r: Result<Wire, EncodeError>)
    ensures
        enc_result_view(r) == encode_m(strat_view(*s), value_view(*v)),
    decreases *v, *s, 0int,
{
    match s {
        Strategy::Same | Strategy::SameAs => match v {
            Value::UInt(n) => Ok(Wire::UInt(*n)),
            Value::Int(n) => Ok(Wire::Int(*n)),
            Value::Text(t) => Ok(Wire::Text(crate::text::copy_bytes(t))),
            Value::Flag(b) => Ok(Wire::Flag(*b)),
            Value::Dur(_) => Err(EncodeError::ShapeMismatch),
            Value::Stamp(_) => Err(EncodeError::ShapeMismatch),
            Value::Opt(o) => match o {
                None => Ok(Wire::Absent),
                Some(b) => match encode_as(s, &**b) {
                    Ok(w) => Ok(Wire::Present(Box::new(w))),
                    Err(e) => Err(e),
                },
            },
            Value::List(vs) => {
                proof {
                    assert(vs@.skip(0) =~= vs@);
                }
                match encode_list(s, vs, 0) {
                    Ok(ws) => Ok(Wire::List(ws)),
                    Err(e) => Err(e),
                }
            },
            Value::Tuple(vs) => {
                proof {
                    assert(vs@.skip(0) =~= vs@);
                }
                match encode_list(s, vs, 0) {
                    Ok(ws) => Ok(Wire::Fixed(ws)),
                    Err(e) => Err(e),
                }
            },
            Value::Table(ps) => {
                proof {
                    assert(ps@.skip(0) =~= ps@);
                }
                match encode_pairs(s, s, ps, 0) {
                    Ok(ws) => Ok(Wire::Table(ws)),
                    Err(e) => Err(e),
                }
            },
        },
        Strategy::DefaultOnError(inner) => encode_as(&**inner, v),
        Strategy::TimestampFromAny => Err(EncodeError::Unsupported),
        Strategy::DurationSeconds(shape, _) => match v {
            Value::Dur(d) => encode_duration_token(d, *shape),
            _ => Err(EncodeError::ShapeMismatch),
        },
        Strategy::Optional(es) => match v {
            Value::Opt(o) => match o {
                None => Ok(Wire::Absent),
                Some(b) => match encode_as(&**es, &**b) {
                    Ok(w) => Ok(Wire::Present(Box::new(w))),
                    Err(e) => Err(e),
                },
            },
            _ => Err(EncodeError::ShapeMismatch),
        },
        Strategy::Sequence(es) => match v {
            Value::List(vs) => {
                proof {
                    assert(vs@.skip(0) =~= vs@);
                }
                match encode_list(&**es, vs, 0) {
                    Ok(ws) => Ok(Wire::List(ws)),
                    Err(e) => Err(e),
                }
            },
            _ => Err(EncodeError::ShapeMismatch),
        },
        Strategy::Entries(ks, vs_) => match v {
            Value::Table(ps) => {
                proof {
                    assert(ps@.skip(0) =~= ps@);
                }
                match encode_pairs(&**ks, &**vs_, ps, 0) {
                    Ok(ws) => Ok(Wire::Table(ws)),
                    Err(e) => Err(e),
                }
            },
            _ => Err(EncodeError::ShapeMismatch),
        },
        Strategy::MapAsList(ks, vs_) => match v {
            Value::Table(ps) => {
                proof {
                    assert(ps@.skip(0) =~= ps@);
                }
                match encode_pairs(&**ks, &**vs_, ps, 0) {
                    Ok(ws) => Ok(Wire::List(pairs_to_fixed(ws))),
                    Err(e) => Err(e),
                }
            },
            _ => Err(EncodeError::ShapeMismatch),
        },
        Strategy::ListAsMap(ks, vs_) => match v {
            Value::List(items) => {
                proof {
                    assert(items@.skip(0) =~= items@);
                }
                match encode_kvlist(&**ks, &**vs_, items, 0) {
                    Ok(ws) => Ok(Wire::Table(ws)),
                    Err(e) => Err(e),
                }
            },
            _ => Err(EncodeError::ShapeMismatch),
        },
        Strategy::Fixed(ss) => match v {
            Value::Tuple(vs) => {
                proof {
                    lemma_strat_seq_view(ss@);
                    lemma_value_seq_view(vs@);
                }
                if ss.len() == vs.len() {
                    proof {
                        assert(ss@.skip(0) =~= ss@);
                        assert(vs@.skip(0) =~= vs@);
                    }
                    match encode_fixed(ss, vs, 0) {
                        Ok(ws) => Ok(Wire::Fixed(ws)),
                        Err(e) => Err(e),
                    }
                } else {
                    Err(EncodeError::ShapeMismatch)
                }
            },
            _ => Err(EncodeError::ShapeMismatch),
        },
    }
}

/// The wire token of a duration under a shape.
fn encode_duration_token(d: &DurationValue, shape: NumShape) -> (r: Result<Wire, EncodeError>)
    ensures
        enc_result_view(r) == encode_dur_m(shape, *d),
{
    proof {
        assert(d.nanos / 1_000_000 >= 500 <==> d.nanos >= 500_000_000);
    }
    match shape {
        NumShape::AsInt => {
            if d.nanos >= 500_000_000 {
                if d.secs == u64::MAX {
                    Err(EncodeError::OutOfRange)
                } else {
                    Ok(Wire::UInt(d.secs + 1))
                }
            } else {
                Ok(Wire::UInt(d.secs))
            }
        },
        NumShape::AsText => {
            if d.nanos >= 500_000_000 {
                if d.secs == u64::MAX {
                    Err(EncodeError::OutOfRange)
                } else {
                    Ok(Wire::Text(format_u64(d.secs + 1)))
                }
            } else {
                Ok(Wire::Text(format_u64(d.secs)))
            }
        },
        NumShape::AsFloat => {
            if d.nanos >= 500_000_000 {
                if d.secs >= 0x7fff_ffff_ffff_ffff {
                    Err(EncodeError::OutOfRange)
                } else {
                    Ok(Wire::Real { whole: (d.secs + 1) as i64, frac_nanos: 0 })
                }
            } else {
                if d.secs > 0x7fff_ffff_ffff_ffff {
                    Err(EncodeError::OutOfRange)
                } else {
                    Ok(Wire::Real { whole: d.secs as i64, frac_nanos: 0 })
                }
            }
        },
    }
}

fn encode_list(es: &Strategy, vs: &Vec<Value>, i: usize) -> (r: Result<Vec<Wire>, EncodeError>)
    requires
        i <= vs@.len(),
    ensures
        wires_result_view(r) == encode_list_m(strat_view(*es), value_seq_view(vs@.skip(i as int))),
    decreases vs@.skip(i as int), *es, 1int,
{
    if i == vs.len() {
        proof {
            assert(vs@.skip(i as int) =~= Seq::<Value>::empty());
        }
        return Ok(Vec::new());
    }
    proof {
        assert(vs@.skip(i as int)[0] == vs@[i as int]);
        assert(vs@.skip(i as int).drop_first() =~= vs@.skip(i as int + 1));
        assert(value_seq_view(vs@.skip(i as int)).drop_first() =~= value_seq_view(
            vs@.skip(i as int + 1),
        ));
    }
    match encode_as(es, &vs[i]) {
        Ok(w) => match encode_list(es, vs, i + 1) {
            Ok(mut ws) => {
                let ghost tail = ws@;
                ws.insert(0, w);
                proof {
                    assert(ws@[0] == w);
                    assert(ws@.drop_first() =~= tail);
                    assert(wire_seq_view(ws@) == seq![wire_view(w)] + wire_seq_view(tail));
                }
                Ok(ws)
            },
            Err(e) => Err(e),
        },
        Err(e) => Err(e),
    }
}

fn encode_pairs(ks: &Strategy, vs_: &Strategy, ps: &Vec<(Value, Value)>, i: usize) -> (r: Result<
    Vec<(Wire, Wire)>,
    EncodeError,
>)
    requires
        i <= ps@.len(),
    ensures
        wpairs_result_view(r) == encode_pairs_m(
            strat_view(*ks),
            strat_view(*vs_),
            value_pairs_view(ps@.skip(i as int)),
        ),
    decreases ps@.skip(i as int), *ks, 1int,
{
    if i == ps.len() {
        proof {
            assert(ps@.skip(i as int) =~= Seq::<(Value, Value)>::empty());
        }
        return Ok(Vec::new());
    }
    proof {
        assert(ps@.skip(i as int)[0] == ps@[i as int]);
        assert(ps@.skip(i as int).drop_first() =~= ps@.skip(i as int + 1));
        assert(value_pairs_view(ps@.skip(i as int)).drop_first() =~= value_pairs_view(
            ps@.skip(i as int + 1),
        ));
    }
    match encode_as(ks, &ps[i].0) {
        Ok(kw) => match encode_as(vs_, &ps[i].1) {
            Ok(vw) => match encode_pairs(ks, vs_, ps, i + 1) {
                Ok(mut ws) => {
                    let ghost tail = ws@;
                    ws.insert(0, (kw, vw));
                    proof {
                        assert(ws@[0] == (kw, vw));
                        assert(ws@.drop_first() =~= tail);
                        assert(wire_pairs_view(ws@) == seq![(wire_view(kw), wire_view(vw))]
                            + wire_pairs_view(tail));
                    }
                    Ok(ws)
                },
                Err(e) => Err(e),
            },
            Err(e) => Err(e),
        },
        Err(e) => Err(e),
    }
}

fn encode_fixed(ss: &Vec<Strategy>, vs: &Vec<Value>, i: usize) -> (r: Result<
    Vec<Wire>,
    EncodeError,
>)
    requires
        i <= vs@.len(),
        ss@.len() == vs@.len(),
    ensures
        wires_result_view(r) == encode_fixed_m(
            strat_seq_view(ss@.skip(i as int)),
            value_seq_view(vs@.skip(i as int)),
        ),
    decreases vs@.skip(i as int), *ss, 1int,
{
    if i == vs.len() {
        proof {
            assert(vs@.skip(i as int) =~= Seq::<Value>::empty());
        }
        return Ok(Vec::new());
    }
    proof {
        assert(vs@.skip(i as int)[0] == vs@[i as int]);
        assert(vs@.skip(i as int).drop_first() =~= vs@.skip(i as int + 1));
        assert(ss@.skip(i as int)[0] == ss@[i as int]);
        assert(ss@.skip(i as int).drop_first() =~= ss@.skip(i as int + 1));
        assert(value_seq_view(vs@.skip(i as int)).drop_first() =~= value_seq_view(
            vs@.skip(i as int + 1),
        ));
        assert(strat_seq_view(ss@.skip(i as int)).drop_first() =~= strat_seq_view(
            ss@.skip(i as int + 1),
        ));
    }
    match encode_as(&ss[i], &vs[i]) {
        Ok(w) => match encode_fixed(ss, vs, i + 1) {
            Ok(mut ws) => {
                let ghost tail = ws@;
                ws.insert(0, w);
                proof {
                    assert(ws@[0] == w);
                    assert(ws@.drop_first() =~= tail);
                    assert(wire_seq_view(ws@) == seq![wire_view(w)] + wire_seq_view(tail));
                }
                Ok(ws)
            },
            Err(e) => Err(e),
        },
        Err(e) => Err(e),
    }
}

fn encode_kvlist(ks: &Strategy, vs_: &Strategy, items: &Vec<Value>, i: usize) -> (r: Result<
    Vec<(Wire, Wire)>,
    EncodeError,
>)
    requires
        i <= items@.len(),
    ensures
        wpairs_result_view(r) == encode_kvlist_m(
            strat_view(*ks),
            strat_view(*vs_),
            value_seq_view(items@.skip(i as int)),
        ),
    decreases items@.skip(i as int), *ks, 1int,
{
    if i == items.len() {
        proof {
            assert(items@.skip(i as int) =~= Seq::<Value>::empty());
        }
        return Ok(Vec::new());
    }
    proof {
        assert(items@.skip(i as int)[0] == items@[i as int]);
        assert(items@.skip(i as int).drop_first() =~= items@.skip(i as int + 1));
        assert(value_seq_view(items@.skip(i as int)).drop_first() =~= value_seq_view(
            items@.skip(i as int + 1),
        ));
    }
    match &items[i] {
        Value::Tuple(kv) => {
            proof {
                lemma_value_seq_view(kv@);
                assert(items@[i as int] == Value::Tuple(*kv));
                assert(value_seq_view(items@.skip(i as int))[0] == value_view(items@[i as int]));
                assert(value_view(items@[i as int]) == ValM::Tuple(value_seq_view(kv@)));
            }
            if kv.len() == 2 {
                proof {
                    assert(value_seq_view(kv@)[0] == value_view(kv@[0]));
                    assert(value_seq_view(kv@)[1] == value_view(kv@[1]));
                }
                match encode_as(ks, &kv[0]) {
                    Ok(kw) => match encode_as(vs_, &kv[1]) {
                        Ok(vw) => match encode_kvlist(ks, vs_, items, i + 1) {
                            Ok(mut ws) => {
                                let ghost tail = ws@;
                                ws.insert(0, (kw, vw));
                                proof {
                                    assert(ws@[0] == (kw, vw));
                                    assert(ws@.drop_first() =~= tail);
                                    assert(wire_pairs_view(ws@) == seq![
                                        (wire_view(kw), wire_view(vw)),
                                    ] + wire_pairs_view(tail));
                                }
                                Ok(ws)
                            },
                            Err(e) => Err(e),
                        },
                        Err(e) => Err(e),
                    },
                    Err(e) => Err(e),
                }
            } else {
                Err(EncodeError::ShapeMismatch)
            }
        },
        _ => Err(EncodeError::ShapeMismatch),
    }
}

/// Turns encoded mapping entries into a list of two-element fixed tokens.
fn pairs_to_fixed(ws: Vec<(Wire, Wire)>) -> (r: Vec<Wire>)
    ensures
        wire_seq_view(r@) == pairs_to_fixed_tokens(wire_pairs_view(ws@)),
{
    let ghost orig = ws@;
    let ghost wsm = wire_pairs_view(orig);
    proof {
        lemma_wire_pairs_view_local(orig);
    }
    let mut ws = ws;
    let mut r: Vec<Wire> = Vec::new();
    while ws.len() > 0
        invariant
            r@.len() + ws@.len() == orig.len(),
            ws@ == orig.skip(r@.len() as int),
            wsm == wire_pairs_view(orig),
            wsm.len() == orig.len(),
            forall|j: int| 0 <= j < orig.len() ==> wsm[j] == (
                wire_view(#[trigger] orig[j].0),
                wire_view(orig[j].1),
            ),
            forall|j: int| 0 <= j < r@.len() ==> wire_view(#[trigger] r@[j]) == WireM::Fixed(
                seq![wsm[j].0, wsm[j].1],
            ),
        decreases ws@.len(),
    {
        let ghost n = r@.len() as int;
        let (k, v) = ws.remove(0);
        proof {
            assert(orig.skip(n)[0] == orig[n]);
            assert(orig.skip(n).drop_first() =~= orig.skip(n + 1));
            assert(k == orig[n].0);
            assert(v == orig[n].1);
            assert(wsm[n] == (wire_view(k), wire_view(v)));
        }
        let mut kv: Vec<Wire> = Vec::new();
        kv.push(k);
        kv.push(v);
        proof {
            lemma_wire_seq_view_local(kv@);
            assert(kv@[0] == k && kv@[1] == v);
            assert(wire_seq_view(kv@) =~= seq![wsm[n].0, wsm[n].1]);
        }
        r.push(Wire::Fixed(kv));
    }
    proof {
        lemma_wire_seq_view_local(r@);
        assert forall|j: int| 0 <= j < r@.len() implies wire_seq_view(r@)[j]
            == pairs_to_fixed_tokens(wsm)[j] by {
            assert(wire_view(r@[j]) == WireM::Fixed(seq![wsm[j].0, wsm[j].1]));
        }
        assert(wire_seq_view(r@) =~= pairs_to_fixed_tokens(wsm));
    }
    r
}

/// Decodes a wire token under `strategy`: the executable form of
/// `decode_m`.
pub fn decode_as(s: &Strategy, w: &Wire) -> (r: Result<Value, DecodeError>)
    ensures
        val_result_view(r) == decode_m(strat_view(*s), wire_view(*w)),
    decreases *w, *s, 0int,
{
    match s {
        Strategy::Same | Strategy::SameAs => match w {
            Wire::UInt(n) => Ok(Value::UInt(*n)),
            Wire::Int(n) => Ok(Value::Int(*n)),
            Wire::Text(t) => Ok(Value::Text(crate::text::copy_bytes(t))),
            Wire::Flag(b) => Ok(Value::Flag(*b)),
            Wire::Real { .. } => Err(DecodeError::InvalidShape),
            Wire::Absent => Ok(Value::Opt(None)),
            Wire::Present(b) => match decode_as(s, &**b) {
                Ok(v) => Ok(Value::Opt(Some(Box::new(v)))),
                Err(e) => Err(e),
            },
            Wire::List(ws) => {
                proof {
                    assert(ws@.skip(0) =~= ws@);
                }
                match decode_list(s, ws, 0) {
                    Ok(vs) => Ok(Value::List(vs)),
                    Err(e) => Err(e),
                }
            },
            Wire::Fixed(ws) => {
                proof {
                    assert(ws@.skip(0) =~= ws@);
                }
                match decode_list(s, ws, 0) {
                    Ok(vs) => Ok(Value::Tuple(vs)),
                    Err(e) => Err(e),
                }
            },
            Wire::Table(es_) => {
                proof {
                    assert(es_@.skip(0) =~= es_@);
                }
                match decode_pairs(s, s, es_, 0) {
                    Ok(ps) => Ok(Value::Table(ps)),
                    Err(e) => Err(e),
                }
            },
        },
        Strategy::DefaultOnError(inner) => match decode_as(&**inner, w) {
            Ok(v) => Ok(v),
            Err(e) => match strategy_default(&**inner) {
                Some(d) => Ok(d),
                None => Err(e),
            },
        },
        Strategy::TimestampFromAny => match decode_timestamp(w) {
            Ok(ts) => Ok(Value::Stamp(ts)),
            Err(e) => Err(e),
        },
        Strategy::DurationSeconds(shape, strict) => match decode_duration(w, *shape, *strict) {
            Ok(d) => Ok(Value::Dur(d)),
            Err(e) => Err(e),
        },
        Strategy::Optional(es) => match w {
            Wire::Absent => Ok(Value::Opt(None)),
            Wire::Present(b) => match decode_as(&**es, &**b) {
                Ok(v) => Ok(Value::Opt(Some(Box::new(v)))),
                Err(e) => Err(e),
            },
            _ => Err(DecodeError::InvalidShape),
        },
        Strategy::Sequence(es) => match w {
            Wire::List(ws) => {
                proof {
                    assert(ws@.skip(0) =~= ws@);
                }
                match decode_list(&**es, ws, 0) {
                    Ok(vs) => Ok(Value::List(vs)),
                    Err(e) => Err(e),
                }
            },
            _ => Err(DecodeError::InvalidShape),
        },
        Strategy::Entries(ks, vs_) => match w {
            Wire::Table(es_) => {
                proof {
                    assert(es_@.skip(0) =~= es_@);
                }
                match decode_pairs(&**ks, &**vs_, es_, 0) {
                    Ok(ps) => Ok(Value::Table(ps)),
                    Err(e) => Err(e),
                }
            },
            _ => Err(DecodeError::InvalidShape),
        },
        Strategy::MapAsList(ks, vs_) => match w {
            Wire::List(ws) => {
                proof {
                    assert(ws@.skip(0) =~= ws@);
                }
                match decode_fixedpairs(&**ks, &**vs_, ws, 0) {
                    Ok(ps) => Ok(Value::Table(ps)),
                    Err(e) => Err(e),
                }
            },
            _ => Err(DecodeError::InvalidShape),
        },
        Strategy::ListAsMap(ks, vs_) => match w {
            Wire::Table(es_) => {
                proof {
                    assert(es_@.skip(0) =~= es_@);
                }
                match decode_pairs(&**ks, &**vs_, es_, 0) {
                    Ok(ps) => Ok(Value::List(pairs_to_tuple_values(ps))),
                    Err(e) => Err(e),
                }
            },
            _ => Err(DecodeError::InvalidShape),
        },
        Strategy::Fixed(ss) => match w {
            Wire::Fixed(ws) => {
                proof {
                    lemma_strat_seq_view(ss@);
                    crate::wire::lemma_wire_seq_view(ws@);
                }
                if ss.len() == ws.len() {
                    proof {
                        assert(ss@.skip(0) =~= ss@);
                        assert(ws@.skip(0) =~= ws@);
                    }
                    match decode_fixed(ss, ws, 0) {
                        Ok(vs) => Ok(Value::Tuple(vs)),
                        Err(e) => Err(e),
                    }
                } else {
                    Err(DecodeError::InvalidShape)
                }
            },
            _ => Err(DecodeError::InvalidShape),
        },
    }
}

fn decode_list(es: &Strategy, ws: &Vec<Wire>, i: usize) -> (r: Result<Vec<Value>, DecodeError>)
    requires
        i <= ws@.len(),
    ensures
        vals_result_view(r) == decode_list_m(strat_view(*es), wire_seq_view(ws@.skip(i as int))),
    decreases ws@.skip(i as int), *es, 1int,
{
    if i == ws.len() {
        proof {
            assert(ws@.skip(i as int) =~= Seq::<Wire>::empty());
        }
        return Ok(Vec::new());
    }
    proof {
        assert(ws@.skip(i as int)[0] == ws@[i as int]);
        assert(ws@.skip(i as int).drop_first() =~= ws@.skip(i as int + 1));
        assert(wire_seq_view(ws@.skip(i as int)).drop_first() =~= wire_seq_view(
            ws@.skip(i as int + 1),
        ));
    }
    match decode_as(es, &ws[i]) {
        Ok(v) => match decode_list(es, ws, i + 1) {
            Ok(mut vs) => {
                let ghost tail = vs@;
                vs.insert(0, v);
                proof {
                    assert(vs@[0] == v);
                    assert(vs@.drop_first() =~= tail);
                    assert(value_seq_view(vs@) == seq![value_view(v)] + value_seq_view(tail));
                }
                Ok(vs)
            },
            Err(e) => Err(e),
        },
        Err(e) => Err(e),
    }
}

fn decode_pairs(ks: &Strategy, vs_: &Strategy, es: &Vec<(Wire, Wire)>, i: usize) -> (r: Result<
    Vec<(Value, Value)>,
    DecodeError,
>)
    requires
        i <= es@.len(),
    ensures
        vpairs_result_view(r) == decode_pairs_m(
            strat_view(*ks),
            strat_view(*vs_),
            wire_pairs_view(es@.skip(i as int)),
        ),
    decreases es@.skip(i as int), *ks, 1int,
{
    if i == es.len() {
        proof {
            assert(es@.skip(i as int) =~= Seq::<(Wire, Wire)>::empty());
        }
        return Ok(Vec::new());
    }
    proof {
        assert(es@.skip(i as int)[0] == es@[i as int]);
        assert(es@.skip(i as int).drop_first() =~= es@.skip(i as int + 1));
        assert(wire_pairs_view(es@.skip(i as int)).drop_first() =~= wire_pairs_view(
            es@.skip(i as int + 1),
        ));
    }
    match decode_as(ks, &es[i].0) {
        Ok(kd) => match decode_as(vs_, &es[i].1) {
            Ok(vd) => match decode_pairs(ks, vs_, es, i + 1) {
                Ok(mut ps) => {
                    let ghost tail = ps@;
                    ps.insert(0, (kd, vd));
                    proof {
                        assert(ps@[0] == (kd, vd));
                        assert(ps@.drop_first() =~= tail);
                        assert(value_pairs_view(ps@) == seq![(value_view(kd), value_view(vd))]
                            + value_pairs_view(tail));
                    }
                    Ok(ps)
                },
                Err(e) => Err(e),
            },
            Err(e) => Err(e),
        },
        Err(e) => Err(e),
    }
}

fn decode_fixed(ss: &Vec<Strategy>, ws: &Vec<Wire>, i: usize) -> (r: Result<
    Vec<Value>,
    DecodeError,
>)
    requires
        i <= ws@.len(),
        ss@.len() == ws@.len(),
    ensures
        vals_result_view(r) == decode_fixed_m(
            strat_seq_view(ss@.skip(i as int)),
            wire_seq_view(ws@.skip(i as int)),
        ),
    decreases ws@.skip(i as int), *ss, 1int,
{
    if i == ws.len() {
        proof {
            assert(ws@.skip(i as int) =~= Seq::<Wire>::empty());
        }
        return Ok(Vec::new());
    }
    proof {
        assert(ws@.skip(i as int)[0] == ws@[i as int]);
        assert(ws@.skip(i as int).drop_first() =~= ws@.skip(i as int + 1));
        assert(ss@.skip(i as int)[0] == ss@[i as int]);
        assert(ss@.skip(i as int).drop_first() =~= ss@.skip(i as int + 1));
        assert(wire_seq_view(ws@.skip(i as int)).drop_first() =~= wire_seq_view(
            ws@.skip(i as int + 1),
        ));
        assert(strat_seq_view(ss@.skip(i as int)).drop_first() =~= strat_seq_view(
            ss@.skip(i as int + 1),
        ));
    }
    match decode_as(&ss[i], &ws[i]) {
        Ok(v) => match decode_fixed(ss, ws, i + 1) {
            Ok(mut vs) => {
                let ghost tail = vs@;
                vs.insert(0, v);
                proof {
                    assert(vs@[0] == v);
                    assert(vs@.drop_first() =~= tail);
                    assert(value_seq_view(vs@) == seq![value_view(v)] + value_seq_view(tail));
                }
                Ok(vs)
            },
            Err(e) => Err(e),
        },
        Err(e) => Err(e),
    }
}

fn decode_fixedpairs(ks: &Strategy, vs_: &Strategy, ws: &Vec<Wire>, i: usize) -> (r: Result<
    Vec<(Value, Value)>,
    DecodeError,
>)
    requires
        i <= ws@.len(),
    ensures
        vpairs_result_view(r) == decode_fixedpairs_m(
            strat_view(*ks),
            strat_view(*vs_),
            wire_seq_view(ws@.skip(i as int)),
        ),
    decreases ws@.skip(i as int), *ks, 1int,
{
    if i == ws.len() {
        proof {
            assert(ws@.skip(i as int) =~= Seq::<Wire>::empty());
        }
        return Ok(Vec::new());
    }
    proof {
        assert(ws@.skip(i as int)[0] == ws@[i as int]);
        assert(ws@.skip(i as int).drop_first() =~= ws@.skip(i as int + 1));
        assert(wire_seq_view(ws@.skip(i as int)).drop_first() =~= wire_seq_view(
            ws@.skip(i as int + 1),
        ));
    }
    match &ws[i] {
        Wire::Fixed(kv) => {
            proof {
                crate::wire::lemma_wire_seq_view(kv@);
                assert(ws@[i as int] == Wire::Fixed(*kv));
                assert(wire_seq_view(ws@.skip(i as int))[0] == wire_view(ws@[i as int]));
                assert(wire_view(ws@[i as int]) == WireM::Fixed(wire_seq_view(kv@)));
            }
            if kv.len() == 2 {
                proof {
                    assert(wire_seq_view(kv@)[0] == wire_view(kv@[0]));
                    assert(wire_seq_view(kv@)[1] == wire_view(kv@[1]));
                }
                match decode_as(ks, &kv[0]) {
                    Ok(kd) => match decode_as(vs_, &kv[1]) {
                        Ok(vd) => match decode_fixedpairs(ks, vs_, ws, i + 1) {
                            Ok(mut ps) => {
                                let ghost tail = ps@;
                                ps.insert(0, (kd, vd));
                                proof {
                                    assert(ps@[0] == (kd, vd));
                                    assert(ps@.drop_first() =~= tail);
                                    assert(value_pairs_view(ps@) == seq![
                                        (value_view(kd), value_view(vd)),
                                    ] + value_pairs_view(tail));
                                }
                                Ok(ps)
                            },
                            Err(e) => Err(e),
                        },
                        Err(e) => Err(e),
                    },
                    Err(e) => Err(e),
                }
            } else {
                Err(DecodeError::InvalidShape)
            }
        },
        _ => Err(DecodeError::InvalidShape),
    }
}

/// Turns decoded mapping entries into a list of two-element tuple values.
fn pairs_to_tuple_values(ps: Vec<(Value, Value)>) -> (r: Vec<Value>)
    ensures
        value_seq_view(r@) == pairs_to_tuples(value_pairs_view(ps@)),
{
    let ghost orig = ps@;
    let ghost psm = value_pairs_view(orig);
    proof {
        lemma_value_pairs_view(orig);
    }
    let mut ps = ps;
    let mut r: Vec<Value> = Vec::new();
    while ps.len() > 0
        invariant
            r@.len() + ps@.len() == orig.len(),
            ps@ == orig.skip(r@.len() as int),
            psm == value_pairs_view(orig),
            psm.len() == orig.len(),
            forall|j: int| 0 <= j < orig.len() ==> psm[j] == (
                value_view(#[trigger] orig[j].0),
                value_view(orig[j].1),
            ),
            forall|j: int| 0 <= j < r@.len() ==> value_view(#[trigger] r@[j]) == ValM::Tuple(
                seq![psm[j].0, psm[j].1],
            ),
        decreases ps@.len(),
    {
        let ghost n = r@.len() as int;
        let (k, v) = ps.remove(0);
        proof {
            assert(orig.skip(n)[0] == orig[n]);
            assert(orig.skip(n).drop_first() =~= orig.skip(n + 1));
            assert(k == orig[n].0);
            assert(v == orig[n].1);
            assert(psm[n] == (value_view(k), value_view(v)));
        }
        let mut kv: Vec<Value> = Vec::new();
        kv.push(k);
        kv.push(v);
        proof {
            lemma_value_seq_view(kv@);
            assert(kv@[0] == k && kv@[1] == v);
            assert(value_seq_view(kv@) =~= seq![psm[n].0, psm[n].1]);
        }
        r.push(Value::Tuple(kv));
    }
    proof {
        lemma_value_seq_view(r@);
        assert forall|j: int| 0 <= j < r@.len() implies value_seq_view(r@)[j] == pairs_to_tuples(
            psm,
        )[j] by {
            assert(value_view(r@[j]) == ValM::Tuple(seq![psm[j].0, psm[j].1]));
        }
        assert(value_seq_view(r@) =~= pairs_to_tuples(psm));
    }
    r
}

/// The default value a strategy can substitute for a failed decode, where
/// one exists: the executable form of `strat_default_m`.
pub fn strategy_default(s: &Strategy) -> (r: Option<Value>)
    ensures
        opt_val_view(r) == strat_default_m(strat_view(*s)),
    decreases *s, 0int,
{
    match s {
        Strategy::Same | Strategy::SameAs => None,
        Strategy::DefaultOnError(inner) => strategy_default(&**inner),
        Strategy::TimestampFromAny => Some(Value::Stamp(Timestamp { secs: 0, nanos: 0 })),
        Strategy::DurationSeconds(_, _) => Some(Value::Dur(DurationValue { secs: 0, nanos: 0 })),
        Strategy::Optional(_) => Some(Value::Opt(None)),
        Strategy::Sequence(_) => {
            let vs: Vec<Value> = Vec::new();
            proof {
                assert(value_seq_view(vs@) =~= Seq::<ValM>::empty());
            }
            Some(Value::List(vs))
        },
        Strategy::Entries(_, _) => {
            let ps: Vec<(Value, Value)> = Vec::new();
            proof {
                assert(value_pairs_view(ps@) =~= Seq::<(ValM, ValM)>::empty());
            }
            Some(Value::Table(ps))
        },
        Strategy::MapAsList(_, _) => {
            let ps: Vec<(Value, Value)> = Vec::new();
            proof {
                assert(value_pairs_view(ps@) =~= Seq::<(ValM, ValM)>::empty());
            }
            Some(Value::Table(ps))
        },
        Strategy::ListAsMap(_, _) => {
            let vs: Vec<Value> = Vec::new();
            proof {
                assert(value_seq_view(vs@) =~= Seq::<ValM>::empty());
            }
            Some(Value::List(vs))
        },
        Strategy::Fixed(ss) => {
            proof {
                assert(ss@.skip(0) =~= ss@);
            }
            match defaults_list(ss, 0) {
                Some(ds) => Some(Value::Tuple(ds)),
                None => None,
            }
        },
    }
}

fn defaults_list(ss: &Vec<Strategy>, i: usize) -> (r: Option<Vec<Value>>)
    requires
        i <= ss@.len(),
    ensures
        opt_vals_view(r) == strat_defaults_m(strat_seq_view(ss@.skip(i as int))),
    decreases ss@.skip(i as int), 1int,
{
    if i == ss.len() {
        proof {
            assert(ss@.skip(i as int) =~= Seq::<Strategy>::empty());
        }
        return Some(Vec::new());
    }
    proof {
        assert(ss@.skip(i as int)[0] == ss@[i as int]);
        assert(ss@.skip(i as int).drop_first() =~= ss@.skip(i as int + 1));
        assert(strat_seq_view(ss@.skip(i as int)).drop_first() =~= strat_seq_view(
            ss@.skip(i as int + 1),
        ));
    }
    match strategy_default(&ss[i]) {
        Some(d) => match defaults_list(ss, i + 1) {
            Some(mut ds) => {
                let ghost tail = ds@;
                ds.insert(0, d);
                proof {
                    assert(ds@[0] == d);
                    assert(ds@.drop_first() =~= tail);
                    assert(value_seq_view(ds@) == seq![value_view(d)] + value_seq_view(tail));
                }
                Some(ds)
            },
            None => None,
        },
        None => None,
    }
}

/// The wrap adaptor: the transient pairing of a natural value with a chosen
/// strategy that is handed to the host encode engine in place of the bare
/// value. Encoding it routes the value through the strategy.
pub struct SerializeAsWrap {
    pub value: Value,
    pub strategy: Strategy,
}

impl SerializeAsWrap {
    pub fn new(value: Value, strategy: Strategy) -> (r: Self)
        ensures
            r.value == value,
            r.strategy == strategy,
    {
        SerializeAsWrap { value, strategy }
    }

    /// Encodes the carried value under the carried strategy.
    pub fn serialize(&self) -> (r: Result<Wire, EncodeError>)
        ensures
            enc_result_view(r) == encode_m(strat_view(self.strategy), value_view(self.value)),
    {
        encode_as(&self.strategy, &self.value)
    }
}

proof fn lemma_wire_seq_view_local(ws: Seq<Wire>)
    ensures
        wire_seq_view(ws).len() == ws.len(),
        forall|i: int| 0 <= i < ws.len() ==> wire_seq_view(ws)[i] == wire_view(#[trigger] ws[i]),
{
    crate::wire::lemma_wire_seq_view(ws);
}

proof fn lemma_wire_pairs_view_local(es: Seq<(Wire, Wire)>)
    ensures
        wire_pairs_view(es).len() == es.len(),
        forall|i: int| 0 <= i < es.len() ==> wire_pairs_view(es)[i] == (
            wire_view(#[trigger] es[i].0),
            wire_view(es[i].1),
        ),
{
    crate::wire::lemma_wire_pairs_view(es);
}

} // verus!
