//! What is exchanged with the native single-value formatter: the call that
//! the library asks for and the outcome that comes back.
//!
//! The library never invokes the formatter itself. It says which call is to
//! be made, and is told what the formatter reported.

use crate::argument::{NativeRepr, NativeReprView};
use vstd::prelude::*;
use vstd::slice::*;
use vstd::utf8::*;

verus! {

/// The byte that ends a text handed to the native formatter.
pub const TERMINATOR: u8 = 0;

/// The capacity of the buffer that the first attempt of every pair offers.
pub const INITIAL_BUFFER_SIZE: usize = 1024;

/// Copies `bytes` and appends the terminator, unless `bytes` holds a
/// terminator already: such a text cannot be handed to the native formatter.
pub fn terminate(bytes: &[u8]) -> (r: Option<Vec<u8>>)
    ensures
        r is None <==> bytes@.contains(TERMINATOR),
        r matches Some(buffer) ==> buffer@ == bytes@.push(TERMINATOR),
{
    let n = bytes.len();
    let mut buffer: Vec<u8> = Vec::new();
    let mut i: usize = 0;
    while i < n
        invariant
            i <= n,
            n == bytes@.len(),
            buffer@ == bytes@.subrange(0, i as int),
            forall|j: int| 0 <= j < i ==> bytes@[j] != TERMINATOR,
        decreases n - i,
    {
        if bytes[i] == TERMINATOR {
            return None;
        }
        buffer.push(bytes[i]);
        assert(buffer@ =~= bytes@.subrange(0, i + 1));
        i = i + 1;
    }
    assert(bytes@.subrange(0, n as int) =~= bytes@);
    buffer.push(TERMINATOR);
    Some(buffer)
}

/// One invocation of the native formatter.
#[derive(Debug, Clone, PartialEq, Eq)]
pub struct NativeCall {
    /// The format text: one fragment and the terminator.
    pub format: Vec<u8>,
    /// The value to format.
    pub value: NativeRepr,
    /// The size in bytes of the output buffer to offer.
    pub capacity: usize,
}

/// The mathematical content of a [`NativeCall`].
pub struct NativeCallView {
    pub format: Seq<u8>,
    pub value: NativeReprView,
    pub capacity: usize,
}

impl View for NativeCall {
    type V = NativeCallView;

    open spec fn view(&self) -> NativeCallView {
        NativeCallView { format: self.format@, value: self.value@, capacity: self.capacity }
    }
}

/// What the native formatter reported for one call.
#[derive(Debug, Clone, PartialEq, Eq)]
pub struct NativeResult {
    /// The value it returned: the length of the complete text without the
    /// terminator, or a negative number for an error.
    pub count: i32,
    /// The output buffer as the formatter left it.
    pub buffer: Vec<u8>,
}

/// The mathematical content of a [`NativeResult`].
pub struct NativeResultView {
    pub count: int,
    pub buffer: Seq<u8>,
}

impl View for NativeResult {
    type V = NativeResultView;

    open spec fn view(&self) -> NativeResultView {
        NativeResultView { count: self.count as int, buffer: self.buffer@ }
    }
}

/// The bytes that the formatter wrote, the terminator left out.
pub open spec fn written(result: NativeResultView) -> Seq<u8> {
    result.buffer.subrange(0, result.count)
}

/// What an attempt made with a buffer of `buf_size` bytes amounts to.
///
/// `Ok` holds the text when it fitted and decodes. `Err` holds the capacity
/// that a further attempt needs when the text was cut short, and 0 when no
/// capacity would help: the formatter reported an error, or what it wrote is
/// not there or does not decode.
pub open spec fn interpret(result: NativeResultView, buf_size: usize) -> Result<Seq<char>, usize> {
    if result.count < 0 {
        Err(0)
    } else if result.count >= buf_size {
        Err((result.count + 1) as usize)
    } else if result.count <= result.buffer.len() && valid_utf8(written(result)) {
        Ok(decode_utf8(written(result)))
    } else {
        Err(0)
    }
}

/// Decodes `bytes` by `String::from_utf8` of the standard library, dropping
/// the error's details. That function succeeds exactly on well-formed UTF-8,
/// and the text it gives consists of the very bytes it was given.
#[verifier::external_body]
fn decode(bytes: Vec<u8>) -> (r: Option<String>)
    ensures
        r is Some <==> valid_utf8(bytes@),
        r matches Some(text) ==> encode_utf8(text@) == bytes@,
{
    String::from_utf8(bytes).ok()
}

/// Decodes `bytes` as UTF-8 text, or gives `None` when they are not
/// well-formed.
pub fn decode_text(bytes: &[u8]) -> (r: Option<String>)
    ensures
        r is Some <==> valid_utf8(bytes@),
        r matches Some(text) ==> text@ == decode_utf8(bytes@),
{
    let r = decode(slice_to_vec(bytes));
    proof {
        if r is Some {
            encode_utf8_decode_utf8(r.unwrap()@);
        }
    }
    r
}

} // verus!
