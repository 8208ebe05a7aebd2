//! Rendering a whole format string with its values.
//!
//! [`Render`] walks the fragments of a format string and the values side by
//! side. While [`Render::pending`] names a call, that call is to be made and
//! its outcome handed to [`Render::supply`]. When it names none, the
//! rendering is finished and [`Render::into_output`] gives the result.

use crate::argument::{
    lemma_native_of_well_formed, representable, well_formed, Argument, ArgumentView,
};
use crate::native::{NativeCall, NativeCallView, NativeResult, NativeResultView, TERMINATOR};
use crate::specifiers_iterator::{
    after_first_fragment, first_fragment, next_specifier, SpecifiersIterator,
};
use crate::{
    begin, fmt_arg, formatted, lemma_settled_step, resumed, settled, Formatting, FormattingView,
};
use vstd::prelude::*;
use vstd::string::*;
use vstd::utf8::*;

verus! {

/// The fragment that the next value is paired with: the first fragment of
/// what is left of the format string, if it holds a specifier. When no
/// specifier is left, the value is paired with the empty text: text that
/// follows the last specifier is paired with no value.
pub open spec fn next_fragment(remaining: Seq<u8>) -> Seq<u8> {
    if next_specifier(remaining, 0) is Some {
        first_fragment(remaining)
    } else {
        Seq::empty()
    }
}

/// What is left of the format string after [`next_fragment`].
pub open spec fn after_next_fragment(remaining: Seq<u8>) -> Seq<u8> {
    if next_specifier(remaining, 0) is Some {
        after_first_fragment(remaining)
    } else {
        remaining
    }
}

/// The output with the text of one more pair, which adds nothing when the
/// pair gave no text.
pub open spec fn extended(output: Seq<char>, text: Option<Seq<char>>) -> Seq<char> {
    match text {
        Some(text) => output + text,
        None => output,
    }
}

/// The mathematical content of a [`Render`].
pub struct RenderView {
    /// The bytes of the format string that no value has been paired with.
    pub remaining: Seq<u8>,
    /// All values, in order.
    pub arguments: Seq<ArgumentView>,
    /// How many values are done.
    pub position: int,
    /// The state of the pair that is being formatted. `Finished` when none
    /// is.
    pub current: FormattingView,
    /// The output so far.
    pub output: Seq<char>,
}

/// The views of a sequence of values.
pub open spec fn views(arguments: Seq<Argument>) -> Seq<ArgumentView> {
    arguments.map_values(|argument: Argument| argument@)
}

/// The state in which the next native call is due, or the final state,
/// reached from a point between two pairs: `position` values are done and the
/// next value has not been paired yet.
///
/// Pairs that end without a call are passed over. They add nothing.
pub open spec fn advanced(
    remaining: Seq<u8>,
    arguments: Seq<ArgumentView>,
    position: int,
    output: Seq<char>,
) -> RenderView
    decreases arguments.len() - position,
{
    if position < 0 || position >= arguments.len() {
        RenderView { remaining, arguments, position, current: FormattingView::Finished(None), output }
    } else {
        match begin(next_fragment(remaining), arguments[position]) {
            FormattingView::Finished(text) => advanced(
                after_next_fragment(remaining),
                arguments,
                position + 1,
                extended(output, text),
            ),
            FormattingView::Pending { call, retried } => RenderView {
                remaining: after_next_fragment(remaining),
                arguments,
                position,
                current: FormattingView::Pending { call, retried },
                output,
            },
        }
    }
}

/// The state in which a rendering starts.
///
/// Without values the format string is the output as it stands: it is not
/// scanned, and a `%` in it means nothing.
pub open spec fn started(format: Seq<char>, arguments: Seq<ArgumentView>) -> RenderView {
    if arguments.len() == 0 {
        RenderView {
            remaining: encode_utf8(format),
            arguments,
            position: 0,
            current: FormattingView::Finished(None),
            output: format,
        }
    } else {
        advanced(encode_utf8(format), arguments, 0, Seq::empty())
    }
}

/// The state after the outcome of the pending call has been handed in.
///
/// When that ends the pair, its text is added to the output and the
/// rendering moves on to the next call that is due. A finished rendering
/// stays as it is.
pub open spec fn supplied(state: RenderView, result: NativeResultView) -> RenderView {
    match state.current {
        FormattingView::Finished(_) => state,
        FormattingView::Pending { .. } => match resumed(state.current, result) {
            FormattingView::Finished(text) => advanced(
                state.remaining,
                state.arguments,
                state.position + 1,
                extended(state.output, text),
            ),
            FormattingView::Pending { call, retried } => RenderView {
                remaining: state.remaining,
                arguments: state.arguments,
                position: state.position,
                current: FormattingView::Pending { call, retried },
                output: state.output,
            },
        },
    }
}

/// Whether a call can be handed to the native formatter as it is: its format
/// ends in the terminator and holds no other, its value is well-formed, and
/// its buffer has room for the terminator at least.
pub open spec fn sound(call: NativeCallView) -> bool {
    &&& call.format.len() > 0
    &&& call.format.last() == TERMINATOR
    &&& !call.format.drop_last().contains(TERMINATOR)
    &&& well_formed(call.value)
    &&& call.capacity > 0
}

/// Whether a state is one that a rendering can be in: a call is pending
/// exactly while values are left, and that call is sound.
pub open spec fn consistent(state: RenderView) -> bool {
    match state.current {
        FormattingView::Pending { call, retried } => {
            &&& 0 <= state.position < state.arguments.len()
            &&& sound(call)
        },
        FormattingView::Finished(_) => state.position >= state.arguments.len(),
    }
}

/// How many native calls a rendering may still ask for, at most: two for
/// each value that is not done, less one when the first attempt of the
/// current pair has been made.
pub open spec fn calls_left(state: RenderView) -> int {
    match state.current {
        FormattingView::Pending { call, retried } => 2 * (state.arguments.len() - state.position)
            - if retried {
            1int
        } else {
            0int
        },
        FormattingView::Finished(_) => 0,
    }
}

/// The first attempt of a pair is a sound call.
pub proof fn lemma_begin_sound(format: Seq<u8>, argument: ArgumentView)
    ensures
        begin(format, argument) matches FormattingView::Pending { call, retried } ==> sound(call)
            && !retried,
        begin(format, argument) matches FormattingView::Finished(text) ==> text is None,
{
    if !format.contains(TERMINATOR) && representable(argument) {
        lemma_native_of_well_formed(argument);
        assert(format.push(TERMINATOR).drop_last() =~= format);
    }
}

/// The attempt that follows a sound call is sound too, and is the second
/// one.
pub proof fn lemma_resumed_sound(state: FormattingView, result: NativeResultView)
    requires
        state matches FormattingView::Pending { call, retried } ==> sound(call),
    ensures
        resumed(state, result) is Pending ==> {
            &&& state is Pending
            &&& !state->retried
            &&& resumed(state, result)->retried
            &&& sound(resumed(state, result)->call)
            &&& resumed(state, result)->call.format == state->call.format
            &&& resumed(state, result)->call.value == state->call.value
        },
{
}

/// Moving on from between two pairs changes no value, loses no output, and
/// ends in a consistent state that asks for no more than two calls for each
/// value left.
pub proof fn lemma_advanced(
    remaining: Seq<u8>,
    arguments: Seq<ArgumentView>,
    position: int,
    output: Seq<char>,
)
    requires
        0 <= position <= arguments.len(),
    ensures
        consistent(advanced(remaining, arguments, position, output)),
        advanced(remaining, arguments, position, output).arguments == arguments,
        advanced(remaining, arguments, position, output).output == output,
        position <= advanced(remaining, arguments, position, output).position <= arguments.len(),
        calls_left(advanced(remaining, arguments, position, output)) <= 2 * (arguments.len()
            - position),
    decreases arguments.len() - position,
{
    if position < arguments.len() {
        lemma_begin_sound(next_fragment(remaining), arguments[position]);
        if begin(next_fragment(remaining), arguments[position]) is Finished {
            lemma_advanced(after_next_fragment(remaining), arguments, position + 1, output);
        }
    }
}

/// Without values, a rendering is finished from the start and its output is
/// the format string, unchanged.
pub proof fn lemma_no_arguments_identity(format: Seq<char>)
    ensures
        started(format, Seq::empty()).current is Finished,
        started(format, Seq::empty()).output == format,
{
}

/// A rendering starts in a consistent state and asks for two calls for each
/// value at most.
pub proof fn lemma_started(format: Seq<char>, arguments: Seq<ArgumentView>)
    ensures
        consistent(started(format, arguments)),
        started(format, arguments).arguments == arguments,
        calls_left(started(format, arguments)) <= 2 * arguments.len(),
{
    if arguments.len() > 0 {
        lemma_advanced(encode_utf8(format), arguments, 0, Seq::empty());
    }
}

/// Handing in an outcome keeps the state consistent and the values as they
/// are, keeps the output so far as the start of the new output, and, while a
/// call is pending, lowers the count of calls that may still be asked for:
/// every rendering ends.
pub proof fn lemma_supplied(state: RenderView, result: NativeResultView)
    requires
        consistent(state),
    ensures
        consistent(supplied(state, result)),
        supplied(state, result).arguments == state.arguments,
        state.output.is_prefix_of(supplied(state, result).output),
        state.current is Pending ==> calls_left(supplied(state, result)) < calls_left(state),
        state.current is Finished ==> supplied(state, result) == state,
{
    if state.current is Pending {
        lemma_resumed_sound(state.current, result);
        match resumed(state.current, result) {
            FormattingView::Finished(text) => {
                lemma_advanced(
                    state.remaining,
                    state.arguments,
                    state.position + 1,
                    extended(state.output, text),
                );
            },
            FormattingView::Pending { .. } => {},
        }
    }
}

/// The state in which a rendering ends, when the native formatter answers
/// each call as `answer` says.
pub open spec fn completed(
    state: RenderView,
    answer: spec_fn(NativeCallView) -> NativeResultView,
) -> RenderView
    decreases calls_left(state),
    when consistent(state)
    via completed_decreases
{
    match state.current {
        FormattingView::Finished(_) => state,
        FormattingView::Pending { call, .. } => completed(supplied(state, answer(call)), answer),
    }
}

/// Each outcome brings a consistent rendering closer to its end.
#[via_fn]
proof fn completed_decreases(
    state: RenderView,
    answer: spec_fn(NativeCallView) -> NativeResultView,
) {
    if state.current is Pending {
        lemma_supplied(state, answer(state.current->call));
    }
}

/// The texts that the values from `position` on give, each paired with its
/// fragment of `remaining`, laid end to end in the order of the values. A
/// pair that gives nothing adds nothing.
pub open spec fn pairs_text(
    remaining: Seq<u8>,
    arguments: Seq<ArgumentView>,
    position: int,
    answer: spec_fn(NativeCallView) -> NativeResultView,
) -> Seq<char>
    decreases arguments.len() - position,
{
    if position < 0 || position >= arguments.len() {
        Seq::empty()
    } else {
        extended(Seq::empty(), formatted(next_fragment(remaining), arguments[position], answer))
            + pairs_text(after_next_fragment(remaining), arguments, position + 1, answer)
    }
}

/// What rendering `format` with `arguments` gives, when the native formatter
/// answers each call as `answer` says.
///
/// Without values it is the format string. With values it is what the pairs
/// give, in order: the first value with the first fragment that holds a
/// specifier, the second with the second, and a value for which no such
/// fragment is left with the empty text.
pub open spec fn rendered(
    format: Seq<char>,
    arguments: Seq<ArgumentView>,
    answer: spec_fn(NativeCallView) -> NativeResultView,
) -> Seq<char> {
    if arguments.len() == 0 {
        format
    } else {
        pairs_text(encode_utf8(format), arguments, 0, answer)
    }
}

/// From between two pairs, a rendering ends with the output so far followed
/// by what the remaining pairs give.
pub proof fn lemma_completed_from_between(
    remaining: Seq<u8>,
    arguments: Seq<ArgumentView>,
    position: int,
    output: Seq<char>,
    answer: spec_fn(NativeCallView) -> NativeResultView,
)
    requires
        0 <= position <= arguments.len(),
    ensures
        completed(advanced(remaining, arguments, position, output), answer).current is Finished,
        completed(advanced(remaining, arguments, position, output), answer).output == output
            + pairs_text(remaining, arguments, position, answer),
    decreases 4 * (arguments.len() - position) + 1,
{
    let state = advanced(remaining, arguments, position, output);
    lemma_advanced(remaining, arguments, position, output);
    if position < arguments.len() {
        let fragment = next_fragment(remaining);
        let rest = after_next_fragment(remaining);
        lemma_begin_sound(fragment, arguments[position]);
        match begin(fragment, arguments[position]) {
            FormattingView::Finished(text) => {
                lemma_completed_from_between(rest, arguments, position + 1, output, answer);
                assert(pairs_text(remaining, arguments, position, answer) =~= pairs_text(
                    rest,
                    arguments,
                    position + 1,
                    answer,
                ));
            },
            FormattingView::Pending { call, retried } => {
                lemma_completed_from_pending(state, answer);
                assert(extended(output, settled(state.current, answer)) + pairs_text(
                    rest,
                    arguments,
                    position + 1,
                    answer,
                ) =~= output + pairs_text(remaining, arguments, position, answer));
            },
        }
    } else {
        assert(output + pairs_text(remaining, arguments, position, answer) =~= output);
    }
}

/// While a call is pending, a rendering ends with the output so far, followed
/// by what the current pair gives, followed by what the remaining pairs
/// give.
pub proof fn lemma_completed_from_pending(
    state: RenderView,
    answer: spec_fn(NativeCallView) -> NativeResultView,
)
    requires
        consistent(state),
        state.current is Pending,
    ensures
        completed(state, answer).current is Finished,
        completed(state, answer).output == extended(state.output, settled(state.current, answer))
            + pairs_text(state.remaining, state.arguments, state.position + 1, answer),
    decreases 2 * calls_left(state),
{
    let result = answer(state.current->call);
    let next = supplied(state, result);
    lemma_supplied(state, result);
    lemma_resumed_sound(state.current, result);
    lemma_settled_step(state.current, answer);
    match resumed(state.current, result) {
        FormattingView::Finished(text) => {
            lemma_completed_from_between(
                state.remaining,
                state.arguments,
                state.position + 1,
                extended(state.output, text),
                answer,
            );
        },
        FormattingView::Pending { .. } => {
            lemma_completed_from_pending(next, answer);
        },
    }
}

/// A rendering that is driven to its end gives what [`rendered`] says: the
/// format string when there are no values, and otherwise the texts of the
/// pairs in the order of the values, with nothing in place of a pair that
/// could not be formatted.
pub proof fn lemma_completed_is_rendered(
    format: Seq<char>,
    arguments: Seq<ArgumentView>,
    answer: spec_fn(NativeCallView) -> NativeResultView,
)
    ensures
        completed(started(format, arguments), answer).current is Finished,
        completed(started(format, arguments), answer).output == rendered(
            format,
            arguments,
            answer,
        ),
{
    lemma_started(format, arguments);
    if arguments.len() > 0 {
        lemma_completed_from_between(encode_utf8(format), arguments, 0, Seq::empty(), answer);
        assert(Seq::<char>::empty() + pairs_text(encode_utf8(format), arguments, 0, answer)
            =~= pairs_text(encode_utf8(format), arguments, 0, answer));
    }
}

/// A rendering of one format string with its values, between two native
/// calls.
pub struct Render<'a> {
    specifiers: SpecifiersIterator<'a>,
    arguments: Vec<Argument>,
    position: usize,
    current: Formatting,
    output: String,
}

impl<'a> View for Render<'a> {
    type V = RenderView;

    closed spec fn view(&self) -> RenderView {
        RenderView {
            remaining: self.specifiers@,
            arguments: views(self.arguments@),
            position: self.position as int,
            current: self.current@,
            output: self.output@,
        }
    }
}

impl<'a> Render<'a> {
    /// A rendering is in a consistent state at all times.
    #[verifier::type_invariant]
    spec fn holds_together(self) -> bool {
        consistent(self@)
    }

    /// Moves on from between two pairs to the next call that is due, or to
    /// the end.
    #[verifier::loop_isolation(false)]
    fn advance(
        specifiers: SpecifiersIterator<'a>,
        arguments: Vec<Argument>,
        position: usize,
        output: String,
    ) -> (r: Render<'a>)
        requires
            position <= arguments@.len(),
        ensures
            r@ == advanced(specifiers@, views(arguments@), position as int, output@),
    {
        let ghost start = specifiers@;
        let ghost all = views(arguments@);
        let ghost first = position as int;
        let mut specifiers = specifiers;
        let mut position = position;
        while position < arguments.len()
            invariant
                position <= arguments@.len(),
                all == views(arguments@),
                advanced(start, all, first, output@) == advanced(
                    specifiers@,
                    all,
                    position as int,
                    output@,
                ),
            decreases arguments@.len() - position,
        {
            let ghost remaining = specifiers@;
            let fragment = match specifiers.next_with_specifier() {
                Some(fragment) => fragment,
                None => {
                    proof {
                        reveal_strlit("");
                        assert("".spec_bytes() =~= Seq::<u8>::empty());
                    }
                    ""
                },
            };
            let current = fmt_arg(fragment, &arguments[position]);
            proof {
                assert(all[position as int] == arguments@[position as int]@);
                lemma_begin_sound(next_fragment(remaining), all[position as int]);
            }
            match current {
                Formatting::Finished(_) => {
                    position = position + 1;
                },
                Formatting::Pending { call, retried } => {
                    return Render {
                        specifiers,
                        arguments,
                        position,
                        current: Formatting::Pending { call, retried },
                        output,
                    };
                },
            }
        }
        Render { specifiers, arguments, position, current: Formatting::Finished(None), output }
    }

    /// Starts to render `format` with `arguments`.
    pub fn new(format: &'a str, arguments: Vec<Argument>) -> (r: Render<'a>)
        ensures
            r@ == started(format@, views(arguments@)),
            arguments@.len() == 0 ==> r@.current is Finished && r@.output == format@,
    {
        let specifiers = SpecifiersIterator::from(format);
        if arguments.len() == 0 {
            Render {
                specifiers,
                arguments,
                position: 0,
                current: Formatting::Finished(None),
                output: format.to_owned(),
            }
        } else {
            Render::advance(specifiers, arguments, 0, String::new())
        }
    }

    /// The call that is to be made now, or `None` when the rendering is
    /// finished. The call is sound.
    pub fn pending(&self) -> (r: Option<&NativeCall>)
        ensures
            r is Some <==> self@.current is Pending,
            r matches Some(call) ==> sound(call@) && self@.current->call == call@,
            consistent(self@),
    {
        proof {
            use_type_invariant(self);
        }
        match &self.current {
            Formatting::Pending { call, retried } => Some(call),
            Formatting::Finished(_) => None,
        }
    }

    /// Whether the rendering is finished: every value is done.
    pub fn is_finished(&self) -> (r: bool)
        ensures
            r == (self@.current is Finished),
            r == (self@.position >= self@.arguments.len()),
    {
        proof {
            use_type_invariant(self);
        }
        match &self.current {
            Formatting::Pending { .. } => false,
            Formatting::Finished(_) => true,
        }
    }

    /// Hands in the outcome of the pending call.
    pub fn supply(self, result: &NativeResult) -> (r: Render<'a>)
        ensures
            r@ == supplied(self@, result@),
    {
        proof {
            use_type_invariant(&self);
        }
        let Render { specifiers, arguments, position, current, output } = self;
        match current {
            Formatting::Finished(text) => Render {
                specifiers,
                arguments,
                position,
                current: Formatting::Finished(text),
                output,
            },
            Formatting::Pending { call, retried } => {
                let pending = Formatting::Pending { call, retried };
                proof {
                    lemma_resumed_sound(pending@, result@);
                }
                match pending.resume(result) {
                    Formatting::Finished(text) => {
                        let mut output = output;
                        match text {
                            Some(text) => {
                                output.append(text.as_str());
                            },
                            None => {},
                        }
                        assert(position < arguments.len());
                        Render::advance(specifiers, arguments, position + 1, output)
                    },
                    Formatting::Pending { call, retried } => Render {
                        specifiers,
                        arguments,
                        position,
                        current: Formatting::Pending { call, retried },
                        output,
                    },
                }
            },
        }
    }

    /// The output so far.
    pub fn output(&self) -> (r: &str)
        ensures
            r@ == self@.output,
    {
        self.output.as_str()
    }

    /// The output so far. Once the rendering is finished, this is its
    /// result.
    pub fn into_output(self) -> (r: String)
        ensures
            r@ == self@.output,
    {
        self.output
    }
}

} // verus!
