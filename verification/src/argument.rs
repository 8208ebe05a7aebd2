//! The values that can be formatted, and the form in which each of them is
//! handed to the native formatter.

use crate::native::{terminate, TERMINATOR};
use crate::promotion::{promote, promoted};
use vstd::prelude::*;
use vstd::string::*;
use vstd::utf8::*;

verus! {

/// A value to be formatted.
#[derive(Debug, Clone, PartialEq, Eq)]
pub enum Argument {
    /// A signed 32-bit integer.
    Int(i32),
    /// An unsigned 32-bit integer.
    Unsigned(u32),
    /// A signed 64-bit integer.
    Long(i64),
    /// An unsigned 64-bit integer.
    UnsignedLong(u64),
    /// A single-precision number, given by its IEEE 754 bit pattern.
    Float(u32),
    /// A double-precision number, given by its IEEE 754 bit pattern.
    Double(u64),
    /// A text.
    Text(String),
    /// A raw address. Zero is the null address.
    Address(usize),
}

/// The mathematical content of an [`Argument`].
pub enum ArgumentView {
    Int(i32),
    Unsigned(u32),
    Long(i64),
    UnsignedLong(u64),
    Float(u32),
    Double(u64),
    Text(Seq<char>),
    Address(usize),
}

impl View for Argument {
    type V = ArgumentView;

    open spec fn view(&self) -> ArgumentView {
        match self {
            Argument::Int(v) => ArgumentView::Int(*v),
            Argument::Unsigned(v) => ArgumentView::Unsigned(*v),
            Argument::Long(v) => ArgumentView::Long(*v),
            Argument::UnsignedLong(v) => ArgumentView::UnsignedLong(*v),
            Argument::Float(bits) => ArgumentView::Float(*bits),
            Argument::Double(bits) => ArgumentView::Double(*bits),
            Argument::Text(text) => ArgumentView::Text(text@),
            Argument::Address(address) => ArgumentView::Address(*address),
        }
    }
}

/// What the native formatter receives for one value: a scalar passed by
/// value, or a terminated byte buffer passed by address.
#[derive(Debug, Clone, PartialEq, Eq)]
pub enum NativeRepr {
    /// A C `int`.
    Int(i32),
    /// A C `unsigned int`.
    Unsigned(u32),
    /// A C `long long`.
    LongLong(i64),
    /// A C `unsigned long long`.
    UnsignedLongLong(u64),
    /// A C `double`, given by its IEEE 754 bit pattern.
    Double(u64),
    /// A C pointer, given by its address.
    Pointer(usize),
    /// A C string: the bytes of a text and the terminator after them.
    Text(Vec<u8>),
}

/// The mathematical content of a [`NativeRepr`].
pub enum NativeReprView {
    Int(i32),
    Unsigned(u32),
    LongLong(i64),
    UnsignedLongLong(u64),
    Double(u64),
    Pointer(usize),
    Text(Seq<u8>),
}

impl View for NativeRepr {
    type V = NativeReprView;

    open spec fn view(&self) -> NativeReprView {
        match self {
            NativeRepr::Int(v) => NativeReprView::Int(*v),
            NativeRepr::Unsigned(v) => NativeReprView::Unsigned(*v),
            NativeRepr::LongLong(v) => NativeReprView::LongLong(*v),
            NativeRepr::UnsignedLongLong(v) => NativeReprView::UnsignedLongLong(*v),
            NativeRepr::Double(bits) => NativeReprView::Double(*bits),
            NativeRepr::Pointer(address) => NativeReprView::Pointer(*address),
            NativeRepr::Text(buffer) => NativeReprView::Text(buffer@),
        }
    }
}

/// Whether a native representation is fit to be handed over: a text buffer
/// ends in the terminator and holds no other.
pub open spec fn well_formed(repr: NativeReprView) -> bool {
    repr matches NativeReprView::Text(buffer) ==> {
        &&& buffer.len() > 0
        &&& buffer.last() == TERMINATOR
        &&& !buffer.drop_last().contains(TERMINATOR)
    }
}

/// Whether a value has a native representation: every value but a text that
/// holds the terminator byte.
pub open spec fn representable(argument: ArgumentView) -> bool {
    argument matches ArgumentView::Text(text) ==> !encode_utf8(text).contains(TERMINATOR)
}

/// The native representation of a value that has one.
///
/// Integers of 32 bits are passed as they are, integers of 64 bits as
/// `long long`. A single-precision number is promoted to double precision,
/// whatever the specifier. A text is passed as its bytes with the terminator
/// after them. The null address is represented as any other address is.
pub open spec fn native_of(argument: ArgumentView) -> NativeReprView {
    match argument {
        ArgumentView::Int(v) => NativeReprView::Int(v),
        ArgumentView::Unsigned(v) => NativeReprView::Unsigned(v),
        ArgumentView::Long(v) => NativeReprView::LongLong(v),
        ArgumentView::UnsignedLong(v) => NativeReprView::UnsignedLongLong(v),
        ArgumentView::Float(bits) => NativeReprView::Double(promoted(bits)),
        ArgumentView::Double(bits) => NativeReprView::Double(bits),
        ArgumentView::Text(text) => NativeReprView::Text(encode_utf8(text).push(TERMINATOR)),
        ArgumentView::Address(address) => NativeReprView::Pointer(address),
    }
}

/// The native representation of a representable value is well-formed.
pub proof fn lemma_native_of_well_formed(argument: ArgumentView)
    requires
        representable(argument),
    ensures
        well_formed(native_of(argument)),
{
    if let ArgumentView::Text(text) = argument {
        let bytes = encode_utf8(text);
        assert(bytes.push(TERMINATOR).drop_last() =~= bytes);
    }
}

impl Argument {
    /// The representation of this value for the native formatter, or `None`
    /// when it has none.
    pub fn represent(&self) -> (r: Option<NativeRepr>)
        ensures
            r is Some <==> representable(self@),
            r matches Some(repr) ==> repr@ == native_of(self@),
    {
        match self {
            Argument::Int(v) => Some(NativeRepr::Int(*v)),
            Argument::Unsigned(v) => Some(NativeRepr::Unsigned(*v)),
            Argument::Long(v) => Some(NativeRepr::LongLong(*v)),
            Argument::UnsignedLong(v) => Some(NativeRepr::UnsignedLongLong(*v)),
            Argument::Float(bits) => Some(NativeRepr::Double(promote(*bits))),
            Argument::Double(bits) => Some(NativeRepr::Double(*bits)),
            Argument::Text(text) => {
                match terminate(text.as_str().as_bytes()) {
                    Some(buffer) => Some(NativeRepr::Text(buffer)),
                    None => None,
                }
            },
            Argument::Address(address) => Some(NativeRepr::Pointer(*address)),
        }
    }
}

} // verus!
