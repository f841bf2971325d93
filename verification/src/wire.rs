//! The wire side of a conversion: a tree of the primitive tokens a host
//! encode/decode engine produces or consumes, together with the errors a
//! decoder can report. Text is carried as UTF-8 bytes; a float token is
//! carried by the two plain components a decoder reads of it, its integer
//! part truncated toward zero and the magnitude of its fractional part
//! scaled to nanoseconds.

use vstd::prelude::*;

verus! {

/// A wire token tree.
#[derive(Debug, PartialEq, Eq)]
pub enum Wire {
    /// An unsigned integer token.
    UInt(u64),
    /// A signed integer token.
    Int(i64),
    /// A float token, by the parts a decoder reads: the integer part
    /// truncated toward zero, and the magnitude of the fractional part in
    /// nanoseconds (always below one second).
    Real { whole: i64, frac_nanos: u32 },
    /// A text token, as UTF-8 bytes.
    Text(Vec<u8>),
    /// A boolean token.
    Flag(bool),
    /// The "no value" encoding of an absent optional.
    Absent,
    /// The explicit presence marker around an optional's inner encoding.
    Present(Box<Wire>),
    /// A variable-length sequence.
    List(Vec<Wire>),
    /// A fixed-arity sequence, as tuples and arrays encode.
    Fixed(Vec<Wire>),
    /// A mapping, entry by entry in iteration order.
    Table(Vec<(Wire, Wire)>),
}

/// The mathematical model of a wire token tree.
pub enum WireM {
    UInt(u64),
    Int(i64),
    Real { whole: i64, frac_nanos: u32 },
    Text(Seq<u8>),
    Flag(bool),
    Absent,
    Present(Box<WireM>),
    List(Seq<WireM>),
    Fixed(Seq<WireM>),
    Table(Seq<(WireM, WireM)>),
}

/// The model of a wire token tree.
pub open spec fn wire_view(w: Wire) -> WireM
    decreases w,
{
    match w {
        Wire::UInt(n) => WireM::UInt(n),
        Wire::Int(n) => WireM::Int(n),
        Wire::Real { whole, frac_nanos } => WireM::Real { whole, frac_nanos },
        Wire::Text(t) => WireM::Text(t@),
        Wire::Flag(b) => WireM::Flag(b),
        Wire::Absent => WireM::Absent,
        Wire::Present(w0) => WireM::Present(Box::new(wire_view(*w0))),
        Wire::List(ws) => WireM::List(wire_seq_view(ws@)),
        Wire::Fixed(ws) => WireM::Fixed(wire_seq_view(ws@)),
        Wire::Table(es) => WireM::Table(wire_pairs_view(es@)),
    }
}

/// The models of a sequence of wire trees, element for element.
pub open spec fn wire_seq_view(ws: Seq<Wire>) -> Seq<WireM>
    decreases ws,
{
    if ws.len() == 0 {
        Seq::empty()
    } else {
        seq![wire_view(ws[0])] + wire_seq_view(ws.drop_first())
    }
}

/// The models of a sequence of wire-tree pairs, entry for entry.
pub open spec fn wire_pairs_view(es: Seq<(Wire, Wire)>) -> Seq<(WireM, WireM)>
    decreases es,
{
    if es.len() == 0 {
        Seq::empty()
    } else {
        seq![(wire_view(es[0].0), wire_view(es[0].1))] + wire_pairs_view(es.drop_first())
    }
}

/// Element-for-element reading of the sequence views.
pub proof fn lemma_wire_seq_view(ws: Seq<Wire>)
    ensures
        wire_seq_view(ws).len() == ws.len(),
        forall|i: int| 0 <= i < ws.len() ==> wire_seq_view(ws)[i] == wire_view(#[trigger] ws[i]),
    decreases ws,
{
    if ws.len() > 0 {
        lemma_wire_seq_view(ws.drop_first());
        assert forall|i: int| 0 <= i < ws.len() implies wire_seq_view(ws)[i] == wire_view(
            #[trigger] ws[i],
        ) by {
            if i > 0 {
                assert(ws.drop_first()[i - 1] == ws[i]);
            }
        }
    }
}

/// Entry-for-entry reading of the pair-sequence views.
pub proof fn lemma_wire_pairs_view(es: Seq<(Wire, Wire)>)
    ensures
        wire_pairs_view(es).len() == es.len(),
        forall|i: int| 0 <= i < es.len() ==> wire_pairs_view(es)[i] == (
            wire_view(#[trigger] es[i].0),
            wire_view(es[i].1),
        ),
    decreases es,
{
    if es.len() > 0 {
        lemma_wire_pairs_view(es.drop_first());
        assert forall|i: int| 0 <= i < es.len() implies wire_pairs_view(es)[i] == (
            wire_view(#[trigger] es[i].0),
            wire_view(es[i].1),
        ) by {
            if i > 0 {
                assert(es.drop_first()[i - 1] == es[i]);
            }
        }
    }
}

/// Why a decode failed. Each variant carries the offending literal input:
/// the text of a text token, or the decimal spelling of the integral part
/// of a numeric token.
#[derive(Debug, PartialEq, Eq)]
pub enum DecodeError {
    /// The token's fundamental kind is unsupported here.
    InvalidShape,
    /// The token has the right kind but breaks the value rules.
    InvalidValue(Vec<u8>),
    /// A fractional part carries more digits than the supported precision.
    Precision(Vec<u8>),
    /// Numerically plausible, but no representable value corresponds to it.
    OutOfRange(Vec<u8>),
}

/// The mathematical model of a decode error.
pub enum DecErrM {
    InvalidShape,
    InvalidValue(Seq<u8>),
    Precision(Seq<u8>),
    OutOfRange(Seq<u8>),
}

/// The model of a decode error.
pub open spec fn decode_error_view(e: DecodeError) -> DecErrM {
    match e {
        DecodeError::InvalidShape => DecErrM::InvalidShape,
        DecodeError::InvalidValue(t) => DecErrM::InvalidValue(t@),
        DecodeError::Precision(t) => DecErrM::Precision(t@),
        DecodeError::OutOfRange(t) => DecErrM::OutOfRange(t@),
    }
}

/// Why an encode failed: a strategy applied to a value of the wrong shape,
/// a strategy with no encode half, or a value whose wire form does not fit
/// its token.
#[derive(Clone, Copy, PartialEq, Eq, Structural, Debug)]
pub enum EncodeError {
    /// The strategy does not fit the shape of the value it was applied to.
    ShapeMismatch,
    /// The strategy has no encode direction.
    Unsupported,
    /// The value resolves to no representable token: a rounded second count
    /// past the top of its counter.
    OutOfRange,
}

} // verus!
