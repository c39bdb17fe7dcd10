//! The signals that a source gives and the calls that a sink receives.
use vstd::prelude::*;

verus! {

/// What a source reports about its next value.
///
/// Primitive shapes carry the value itself. Floating-point values are
/// carried as their IEEE-754 bit patterns, so that a value is forwarded bit
/// for bit. The four composite shapes (`Present`, `Wrapped`, `Sequence`,
/// `Mapping`) carry no payload: their contents are pulled from the source
/// afterwards.
#[derive(PartialEq, Eq, Debug)]
pub enum Shape {
    Bool(bool),
    I8(i8),
    I16(i16),
    I32(i32),
    I64(i64),
    I128(i128),
    U8(u8),
    U16(u16),
    U32(u32),
    U64(u64),
    U128(u128),
    /// An `f32`, as the bits of its IEEE-754 encoding.
    F32(u32),
    /// An `f64`, as the bits of its IEEE-754 encoding.
    F64(u64),
    Char(char),
    Str(String),
    Bytes(Vec<u8>),
    Unit,
    /// An optional value that is not there.
    Absent,
    /// An optional value that is there; the wrapped value follows.
    Present,
    /// A single-field wrapper; the wrapped value follows.
    Wrapped,
    /// A sequence with the source's advisory element count; the elements follow.
    Sequence(Option<usize>),
    /// A keyed collection with the source's advisory entry count; the entries follow.
    Mapping(Option<usize>),
}

/// Which side of a transcoding failed.
#[derive(PartialEq, Eq, Structural, Clone, Copy, Debug)]
pub enum Side {
    /// The source, which decodes the input.
    Source,
    /// The sink, which encodes the output.
    Sink,
}

/// One signal from the source, in the order in which the source gives them.
///
/// A value is one `Value` signal, followed for a composite shape by its
/// contents: after `Present` or `Wrapped` the inner value; after `Sequence`
/// a `Next` and a value for each element, then `End`; after `Mapping` a `Next`
/// and a value for each key and again for each key's value, then `End`.
/// `Failed` reports that a pull from the source, or a call on the sink,
/// went wrong.
#[derive(PartialEq, Eq, Debug)]
pub enum Event {
    Value(Shape),
    Next,
    End,
    Failed(Side),
}

/// One operation that the sink is asked to perform.
#[derive(PartialEq, Eq, Debug)]
pub enum Call {
    /// Encode the value that the shape names: the primitive encode call for a
    /// primitive, `encode_absent`, `encode_present`, `encode_wrapped`,
    /// `begin_sequence` or `begin_map` with the count passed on unchanged.
    Encode(Shape),
    AppendElement,
    AppendKey,
    AppendValue,
    EndSequence,
    EndMap,
}

/// Why a session refused an event.
#[derive(PartialEq, Eq, Structural, Clone, Copy, Debug)]
pub enum Fault {
    /// The top-level value has already been forwarded in full.
    Drained,
    /// The event does not fit where the stream stands (a `Next` while a value
    /// is owed, an `End` between a key and its value, a value where none is due).
    Unexpected,
    /// A failure was reported on the given side; nothing more is forwarded.
    Aborted(Side),
}

/// The name under which a single-field wrapper is handed to the sink: the
/// source does not say what the wrapper was called.
pub const WRAPPER_NAME: &'static str = "<unknown>";

/// Whether a shape is complete in itself, with no contents to follow.
pub open spec fn is_primitive(s: Shape) -> bool {
    !(s is Present || s is Wrapped || s is Sequence || s is Mapping)
}

} // verus!
