//! The round-trip law of the strategy contract: wherever a strategy is not
//! lossy by design, decoding what it encoded yields the original value,
//! element for element and in the original order.

use vstd::prelude::*;
use crate::adapt::{
    decode_fixed_m, decode_fixedpairs_m, decode_list_m, decode_m, decode_pairs_m, encode_fixed_m,
    encode_kvlist_m, encode_list_m, encode_m, encode_pairs_m, pairs_to_fixed_tokens,
    pairs_to_tuples, StratM, ValM,
};
use crate::duration::{NumShape, round_half_up, round_ties_away};
use crate::text::{
    decimal_of_nat, is_numeral, lemma_decimal_of_nat_value, numeral_digits, numeral_value,
};
use crate::wire::WireM;

verus! {

/// The values on which a strategy round-trips exactly. A strategy is lossy
/// only where the spec makes it so: a duration with a sub-second part is
/// rounded away, the timestamp strategy has no encode direction, and the
/// identity strategies carry no time values. Everything else is covered,
/// shape-matching values under every container strategy included.
pub open spec fn rt_ok(s: StratM, v: ValM) -> bool
    decreases v, s, 0int,
{
    match s {
        StratM::Same | StratM::SameAs => match v {
            ValM::UInt(_) | ValM::Int(_) | ValM::Text(_) | ValM::Flag(_) => true,
            ValM::Dur(_) | ValM::Stamp(_) => false,
            ValM::Opt(o) => match o {
                None => true,
                Some(b) => rt_ok(s, *b),
            },
            ValM::List(vs) => forall|i: int| 0 <= i < vs.len() ==> rt_ok(s, #[trigger] vs[i]),
            ValM::Tuple(vs) => forall|i: int| 0 <= i < vs.len() ==> rt_ok(s, #[trigger] vs[i]),
            ValM::Table(ps) => forall|i: int|
                0 <= i < ps.len() ==> rt_ok(s, (#[trigger] ps[i]).0) && rt_ok(s, ps[i].1),
        },
        StratM::DefaultOnError(inner) => rt_ok(*inner, v),
        StratM::TimestampFromAny => false,
        StratM::DurationSeconds(shape, _) => match v {
            ValM::Dur(d) => d.nanos == 0 && (shape == NumShape::AsFloat ==> d.secs <= i64::MAX),
            _ => false,
        },
        StratM::Optional(es) => match v {
            ValM::Opt(o) => match o {
                None => true,
                Some(b) => rt_ok(*es, *b),
            },
            _ => false,
        },
        StratM::Sequence(es) => match v {
            ValM::List(vs) => forall|i: int| 0 <= i < vs.len() ==> rt_ok(*es, #[trigger] vs[i]),
            _ => false,
        },
        StratM::Entries(ks, vs_) => match v {
            ValM::Table(ps) => forall|i: int|
                0 <= i < ps.len() ==> rt_ok(*ks, (#[trigger] ps[i]).0) && rt_ok(*vs_, ps[i].1),
            _ => false,
        },
        StratM::MapAsList(ks, vs_) => match v {
            ValM::Table(ps) => forall|i: int|
                0 <= i < ps.len() ==> rt_ok(*ks, (#[trigger] ps[i]).0) && rt_ok(*vs_, ps[i].1),
            _ => false,
        },
        StratM::ListAsMap(ks, vs_) => match v {
            ValM::List(items) => forall|i: int|
                0 <= i < items.len() ==> ((#[trigger] items[i]) matches ValM::Tuple(kv)
                    && kv.len() == 2 && rt_ok(*ks, kv[0]) && rt_ok(*vs_, kv[1])),
            _ => false,
        },
        StratM::Fixed(ss) => match v {
            ValM::Tuple(vs) => ss.len() == vs.len() && forall|i: int|
                0 <= i < vs.len() ==> rt_ok(ss[i], #[trigger] vs[i]),
            _ => false,
        },
    }
}

/// The round-trip law: on every value a strategy covers, encoding succeeds
/// and decoding the encoded token yields the value back, element for
/// element in the original order.
pub proof fn lemma_round_trip(s: StratM, v: ValM)
    requires
        rt_ok(s, v),
    ensures
        encode_m(s, v) matches Ok(w) && decode_m(s, w) == Ok::<ValM, crate::wire::DecErrM>(v),
    decreases v, s, 0int,
{
    match s {
        StratM::Same | StratM::SameAs => match v {
            ValM::Opt(o) => match o {
                None => {},
                Some(b) => {
                    lemma_round_trip(s, *b);
                },
            },
            ValM::List(vs) => {
                lemma_round_trip_list(s, vs);
            },
            ValM::Tuple(vs) => {
                lemma_round_trip_list(s, vs);
            },
            ValM::Table(ps) => {
                lemma_round_trip_pairs(s, s, ps);
            },
            _ => {},
        },
        StratM::DefaultOnError(inner) => {
            lemma_round_trip(*inner, v);
        },
        StratM::DurationSeconds(shape, _) => {
            let d = v->Dur_0;
            assert(round_half_up(d.secs as int, d.nanos as int) == d.secs);
            assert(round_ties_away(d.secs as int, d.nanos as int) == d.secs);
            if shape == NumShape::AsText {
                let t = decimal_of_nat(d.secs as int);
                lemma_decimal_of_nat_value(d.secs as int);
                assert(numeral_digits(t, false) == t);
                assert(is_numeral(t, false));
                assert(numeral_value(t, false) == d.secs);
            }
        },
        StratM::Optional(es) => match v {
            ValM::Opt(o) => match o {
                None => {},
                Some(b) => {
                    lemma_round_trip(*es, *b);
                },
            },
            _ => {},
        },
        StratM::Sequence(es) => {
            lemma_round_trip_list(*es, v->List_0);
        },
        StratM::Entries(ks, vs_) => {
            lemma_round_trip_pairs(*ks, *vs_, v->Table_0);
        },
        StratM::MapAsList(ks, vs_) => {
            lemma_round_trip_mapaslist(*ks, *vs_, v->Table_0);
        },
        StratM::ListAsMap(ks, vs_) => {
            lemma_round_trip_listasmap(*ks, *vs_, v->List_0);
        },
        StratM::Fixed(ss) => {
            lemma_round_trip_fixed(ss, v->Tuple_0);
        },
        _ => {},
    }
}

proof fn lemma_round_trip_list(es: StratM, vs: Seq<ValM>)
    requires
        forall|i: int| 0 <= i < vs.len() ==> rt_ok(es, #[trigger] vs[i]),
    ensures
        encode_list_m(es, vs) matches Ok(ws) && decode_list_m(es, ws) == Ok::<Seq<ValM>, crate::wire::DecErrM>(vs),
    decreases vs, es, 1int,
{
    if vs.len() == 0 {
        assert(vs =~= Seq::<ValM>::empty());
    } else {
        lemma_round_trip(es, vs[0]);
        assert(forall|j: int| 0 <= j < vs.drop_first().len() ==> #[trigger] vs.drop_first()[j]
            == vs[j + 1]);
        lemma_round_trip_list(es, vs.drop_first());
        let w0 = encode_m(es, vs[0])->Ok_0;
        let ws_ = encode_list_m(es, vs.drop_first())->Ok_0;
        let ws = seq![w0] + ws_;
        assert(ws[0] == w0);
        assert(ws.drop_first() =~= ws_);
        assert(seq![vs[0]] + vs.drop_first() =~= vs);
    }
}

proof fn lemma_round_trip_pairs(ks: StratM, vs_: StratM, ps: Seq<(ValM, ValM)>)
    requires
        forall|i: int| 0 <= i < ps.len() ==> rt_ok(ks, (#[trigger] ps[i]).0) && rt_ok(
            vs_,
            ps[i].1,
        ),
    ensures
        encode_pairs_m(ks, vs_, ps) matches Ok(ws) && decode_pairs_m(ks, vs_, ws) == Ok::<Seq<(ValM, ValM)>, crate::wire::DecErrM>(ps),
    decreases ps, ks, 1int,
{
    if ps.len() == 0 {
        assert(ps =~= Seq::<(ValM, ValM)>::empty());
    } else {
        lemma_round_trip(ks, ps[0].0);
        lemma_round_trip(vs_, ps[0].1);
        assert(forall|j: int| 0 <= j < ps.drop_first().len() ==> #[trigger] ps.drop_first()[j]
            == ps[j + 1]);
        lemma_round_trip_pairs(ks, vs_, ps.drop_first());
        let kw = encode_m(ks, ps[0].0)->Ok_0;
        let vw = encode_m(vs_, ps[0].1)->Ok_0;
        let ws_ = encode_pairs_m(ks, vs_, ps.drop_first())->Ok_0;
        let ws = seq![(kw, vw)] + ws_;
        assert(ws[0] == (kw, vw));
        assert(ws.drop_first() =~= ws_);
        assert(seq![(ps[0].0, ps[0].1)] + ps.drop_first() =~= ps);
    }
}

proof fn lemma_round_trip_fixed(ss: Seq<StratM>, vs: Seq<ValM>)
    requires
        ss.len() == vs.len(),
        forall|i: int| 0 <= i < vs.len() ==> rt_ok(ss[i], #[trigger] vs[i]),
    ensures
        encode_fixed_m(ss, vs) matches Ok(ws) && ws.len() == vs.len() && decode_fixed_m(ss, ws)
            == Ok::<Seq<ValM>, crate::wire::DecErrM>(vs),
    decreases vs, ss, 1int,
{
    if vs.len() == 0 {
        assert(vs =~= Seq::<ValM>::empty());
    } else {
        lemma_round_trip(ss[0], vs[0]);
        assert(forall|j: int| 0 <= j < vs.drop_first().len() ==> #[trigger] vs.drop_first()[j]
            == vs[j + 1]);
        assert(forall|j: int| 0 <= j < ss.drop_first().len() ==> #[trigger] ss.drop_first()[j]
            == ss[j + 1]);
        lemma_round_trip_fixed(ss.drop_first(), vs.drop_first());
        let w0 = encode_m(ss[0], vs[0])->Ok_0;
        let ws_ = encode_fixed_m(ss.drop_first(), vs.drop_first())->Ok_0;
        let ws = seq![w0] + ws_;
        assert(ws[0] == w0);
        assert(ws.drop_first() =~= ws_);
        assert(seq![vs[0]] + vs.drop_first() =~= vs);
    }
}

proof fn lemma_round_trip_mapaslist(ks: StratM, vs_: StratM, ps: Seq<(ValM, ValM)>)
    requires
        forall|i: int| 0 <= i < ps.len() ==> rt_ok(ks, (#[trigger] ps[i]).0) && rt_ok(
            vs_,
            ps[i].1,
        ),
    ensures
        encode_pairs_m(ks, vs_, ps) matches Ok(ws) && decode_fixedpairs_m(
            ks,
            vs_,
            pairs_to_fixed_tokens(ws),
        ) == Ok::<Seq<(ValM, ValM)>, crate::wire::DecErrM>(ps),
    decreases ps, ks, 1int,
{
    if ps.len() == 0 {
        assert(ps =~= Seq::<(ValM, ValM)>::empty());
        assert(pairs_to_fixed_tokens(Seq::empty()) =~= Seq::<WireM>::empty());
    } else {
        lemma_round_trip(ks, ps[0].0);
        lemma_round_trip(vs_, ps[0].1);
        assert(forall|j: int| 0 <= j < ps.drop_first().len() ==> #[trigger] ps.drop_first()[j]
            == ps[j + 1]);
        lemma_round_trip_mapaslist(ks, vs_, ps.drop_first());
        let kw = encode_m(ks, ps[0].0)->Ok_0;
        let vw = encode_m(vs_, ps[0].1)->Ok_0;
        let ws_ = encode_pairs_m(ks, vs_, ps.drop_first())->Ok_0;
        let ws = seq![(kw, vw)] + ws_;
        let fs = pairs_to_fixed_tokens(ws);
        assert(fs[0] == WireM::Fixed(seq![kw, vw]));
        assert(fs.drop_first() =~= pairs_to_fixed_tokens(ws_));
        assert(seq![kw, vw].len() == 2);
        assert(seq![(ps[0].0, ps[0].1)] + ps.drop_first() =~= ps);
    }
}

proof fn lemma_round_trip_listasmap(ks: StratM, vs_: StratM, items: Seq<ValM>)
    requires
        forall|i: int| 0 <= i < items.len() ==> ((#[trigger] items[i]) matches ValM::Tuple(kv)
            && kv.len() == 2 && rt_ok(ks, kv[0]) && rt_ok(vs_, kv[1])),
    ensures
        encode_kvlist_m(ks, vs_, items) matches Ok(ws) && decode_pairs_m(ks, vs_, ws) matches Ok(
            ps,
        ) && pairs_to_tuples(ps) == items,
    decreases items, ks, 1int,
{
    if items.len() == 0 {
        assert(pairs_to_tuples(Seq::empty()) =~= Seq::<ValM>::empty());
        assert(items =~= Seq::<ValM>::empty());
    } else {
        let kv = items[0]->Tuple_0;
        lemma_round_trip(ks, kv[0]);
        lemma_round_trip(vs_, kv[1]);
        assert(forall|j: int| 0 <= j < items.drop_first().len() ==> #[trigger] items.drop_first(
        )[j] == items[j + 1]);
        lemma_round_trip_listasmap(ks, vs_, items.drop_first());
        let kw = encode_m(ks, kv[0])->Ok_0;
        let vw = encode_m(vs_, kv[1])->Ok_0;
        let ws_ = encode_kvlist_m(ks, vs_, items.drop_first())->Ok_0;
        let ws = seq![(kw, vw)] + ws_;
        assert(ws[0] == (kw, vw));
        assert(ws.drop_first() =~= ws_);
        let ps_ = decode_pairs_m(ks, vs_, ws_)->Ok_0;
        let ps = seq![(kv[0], kv[1])] + ps_;
        assert(decode_pairs_m(ks, vs_, ws) == Ok::<Seq<(ValM, ValM)>, crate::wire::DecErrM>(ps));
        assert(pairs_to_tuples(ps).len() == items.len());
        assert forall|j: int| 0 <= j < items.len() implies pairs_to_tuples(ps)[j] == items[j] by {
            if j == 0 {
                assert(seq![kv[0], kv[1]] =~= kv);
            } else {
                assert(ps[j] == ps_[j - 1]);
                assert(pairs_to_tuples(ps_)[j - 1] == items.drop_first()[j - 1]);
            }
        }
        assert(pairs_to_tuples(ps) =~= items);
    }
}

/// The deliberately lossy strategy, seen from the strategy layer: encoding
/// a duration as integer seconds and decoding the token back, under either
/// strictness, yields the duration rounded to the nearest second with a
/// tie rounding up.
pub proof fn lemma_duration_strategy_rounds(d: crate::duration::DurationValue, strict: bool)
    requires
        d.wf(),
        crate::duration::roundable(d),
    ensures
        ({
            let rounded = round_half_up(d.secs as int, d.nanos as int) as u64;
            let s = StratM::DurationSeconds(NumShape::AsInt, strict);
            &&& encode_m(s, ValM::Dur(d)) == Ok::<WireM, crate::wire::EncodeError>(
                WireM::UInt(rounded),
            )
            &&& decode_m(s, WireM::UInt(rounded)) == Ok::<ValM, crate::wire::DecErrM>(
                ValM::Dur(crate::duration::DurationValue { secs: rounded, nanos: 0 }),
            )
        }),
{
}

/// The degenerate fixed shape: a zero-arity tuple or array encodes as the
/// empty fixed sequence and decodes back to the empty value, with no error.
pub proof fn lemma_empty_fixed_round_trip()
    ensures
        encode_m(StratM::Fixed(Seq::empty()), ValM::Tuple(Seq::empty())) == Ok::<
            WireM,
            crate::wire::EncodeError,
        >(WireM::Fixed(Seq::empty())),
        decode_m(StratM::Fixed(Seq::empty()), WireM::Fixed(Seq::empty())) == Ok::<
            ValM,
            crate::wire::DecErrM,
        >(ValM::Tuple(Seq::empty())),
{
    assert(encode_fixed_m(Seq::empty(), Seq::empty()) == Ok::<Seq<WireM>, crate::wire::EncodeError>(
        Seq::empty(),
    ));
    assert(decode_fixed_m(Seq::empty(), Seq::empty()) == Ok::<Seq<ValM>, crate::wire::DecErrM>(
        Seq::empty(),
    ));
}

} // verus!
