//! Formatting values through printf-style format strings, one conversion
//! specifier and one value at a time.
//!
//! A format string is split into fragments that hold one specifier each, and
//! each fragment is paired with one value. The native formatter is invoked
//! for one pair at a time: first with a buffer of a fixed size, and once
//! more with a buffer of the exact size when the first one was too small. A
//! pair that cannot be formatted adds nothing to the output.
//!
//! This library decides which calls are made and what becomes of their
//! outcomes. Whoever drives it makes the calls.

pub mod argument;
pub mod native;
pub mod promotion;
pub mod render;
pub mod specifiers_iterator;

use crate::argument::{native_of, representable, Argument, ArgumentView};
use crate::native::{
    decode_text, interpret, terminate, NativeCall, NativeCallView, NativeResult,
    NativeResultView, INITIAL_BUFFER_SIZE, TERMINATOR,
};
use vstd::prelude::*;
use vstd::slice::*;
use vstd::string::*;

verus! {

/// Judges the outcome of an attempt that offered a buffer of `buf_size`
/// bytes.
///
/// Returns the formatted text, or the size of the buffer that is necessary to
/// hold it. The size is 0 when no size would do: the formatter reported an
/// error, or what it wrote cannot be read as text.
pub fn fmt_arg_with_buffer_size(result: &NativeResult, buf_size: usize) -> (r: Result<String, usize>)
    ensures
        r matches Ok(text) ==> interpret(result@, buf_size) == Ok::<Seq<char>, usize>(text@),
        r matches Err(needed) ==> interpret(result@, buf_size) == Err::<Seq<char>, usize>(needed),
{
    if result.count < 0 {
        return Err(0);
    }
    let count = result.count as usize;
    if count >= buf_size {
        return Err(count + 1);
    }
    if count > result.buffer.len() {
        return Err(0);
    }
    match decode_text(slice_subrange(result.buffer.as_slice(), 0, count)) {
        Some(text) => Ok(text),
        None => Err(0),
    }
}

/// How far the formatting of one pair of fragment and value has come.
#[derive(Debug, Clone, PartialEq, Eq)]
pub enum Formatting {
    /// `call` is to be made, and its outcome handed to
    /// [`Formatting::resume`]. `retried` tells the attempt with the exact
    /// size from the first one.
    Pending { call: NativeCall, retried: bool },
    /// The pair is done: it gave this text, or nothing.
    Finished(Option<String>),
}

/// The mathematical content of a [`Formatting`].
pub enum FormattingView {
    Pending { call: NativeCallView, retried: bool },
    Finished(Option<Seq<char>>),
}

impl View for Formatting {
    type V = FormattingView;

    open spec fn view(&self) -> FormattingView {
        match self {
            Formatting::Pending { call, retried } => FormattingView::Pending {
                call: call@,
                retried: *retried,
            },
            Formatting::Finished(Some(text)) => FormattingView::Finished(Some(text@)),
            Formatting::Finished(None) => FormattingView::Finished(None),
        }
    }
}

/// Where the formatting of a pair starts.
///
/// A fragment that holds the terminator byte, or a value without a native
/// representation, ends it at once with nothing. Otherwise the first attempt
/// is due: the terminated fragment, the value's representation, and a buffer
/// of the initial size.
pub open spec fn begin(format: Seq<u8>, argument: ArgumentView) -> FormattingView {
    if format.contains(TERMINATOR) || !representable(argument) {
        FormattingView::Finished(None)
    } else {
        FormattingView::Pending {
            call: NativeCallView {
                format: format.push(TERMINATOR),
                value: native_of(argument),
                capacity: INITIAL_BUFFER_SIZE,
            },
            retried: false,
        }
    }
}

/// Where the formatting of a pair stands once the outcome of its pending call
/// is known.
///
/// A text that fitted and decodes ends it. A text cut short on the first
/// attempt asks for one more attempt, with the same format and value and the
/// exact capacity. Everything else ends it with nothing. A pair that was
/// done stays as it is.
pub open spec fn resumed(state: FormattingView, result: NativeResultView) -> FormattingView {
    match state {
        FormattingView::Finished(text) => FormattingView::Finished(text),
        FormattingView::Pending { call, retried } => match interpret(result, call.capacity) {
            Ok(text) => FormattingView::Finished(Some(text)),
            Err(needed) => if needed == 0 || retried {
                FormattingView::Finished(None)
            } else {
                FormattingView::Pending {
                    call: NativeCallView {
                        format: call.format,
                        value: call.value,
                        capacity: needed,
                    },
                    retried: true,
                }
            },
        },
    }
}

/// What a pair in the state `state` gives in the end, when the native
/// formatter answers each call as `answer` says: the text, or nothing.
pub open spec fn settled(
    state: FormattingView,
    answer: spec_fn(NativeCallView) -> NativeResultView,
) -> Option<Seq<char>> {
    match state {
        FormattingView::Finished(text) => text,
        FormattingView::Pending { call, .. } => match resumed(state, answer(call)) {
            FormattingView::Finished(text) => text,
            FormattingView::Pending { call: exact, retried } => match resumed(
                FormattingView::Pending { call: exact, retried },
                answer(exact),
            ) {
                FormattingView::Finished(text) => text,
                FormattingView::Pending { .. } => None,
            },
        },
    }
}

/// What formatting `argument` by the fragment `format` gives, when the native
/// formatter answers each call as `answer` says: the text, or nothing.
pub open spec fn formatted(
    format: Seq<u8>,
    argument: ArgumentView,
    answer: spec_fn(NativeCallView) -> NativeResultView,
) -> Option<Seq<char>> {
    settled(begin(format, argument), answer)
}

/// The outcome of a pending call changes nothing in what the pair gives in
/// the end, and after the second call the pair is done: no pair takes more
/// than two calls.
pub proof fn lemma_settled_step(
    state: FormattingView,
    answer: spec_fn(NativeCallView) -> NativeResultView,
)
    requires
        state is Pending,
    ensures
        settled(resumed(state, answer(state->call)), answer) == settled(state, answer),
        state->retried ==> resumed(state, answer(state->call)) is Finished,
{
}

/// Starts the formatting of `arg` by the fragment `format`.
pub fn fmt_arg(format: &str, arg: &Argument) -> (r: Formatting)
    ensures
        r@ == begin(format.spec_bytes(), arg@),
{
    match terminate(format.as_bytes()) {
        None => Formatting::Finished(None),
        Some(terminated) => match arg.represent() {
            None => Formatting::Finished(None),
            Some(value) => Formatting::Pending {
                call: NativeCall { format: terminated, value, capacity: INITIAL_BUFFER_SIZE },
                retried: false,
            },
        },
    }
}

impl Formatting {
    /// Goes on with the outcome of the pending call.
    pub fn resume(self, result: &NativeResult) -> (r: Formatting)
        ensures
            r@ == resumed(self@, result@),
    {
        match self {
            Formatting::Finished(text) => Formatting::Finished(text),
            Formatting::Pending { call, retried } => {
                match fmt_arg_with_buffer_size(result, call.capacity) {
                    Ok(text) => Formatting::Finished(Some(text)),
                    Err(needed) => {
                        if needed == 0 || retried {
                            Formatting::Finished(None)
                        } else {
                            Formatting::Pending {
                                call: NativeCall {
                                    format: call.format,
                                    value: call.value,
                                    capacity: needed,
                                },
                                retried: true,
                            }
                        }
                    },
                }
            },
        }
    }
}

} // verus!
