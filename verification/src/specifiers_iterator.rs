//! Splitting a printf-style format string into fragments.
//!
//! A fragment is a run of literal text closed by one complete conversion
//! specifier. Whatever follows the last specifier forms a final fragment that
//! holds no specifier at all. Laid end to end, the fragments give back the
//! format string byte for byte.

use vstd::prelude::*;
use vstd::string::*;
use vstd::utf8::*;

verus! {

/// `%`, which introduces a specifier and is also a conversion character.
pub const PERCENT: u8 = 0x25;

/// `*`, a field width or precision taken from an argument.
pub const ASTERISK: u8 = 0x2a;

/// `.`, which introduces a precision.
pub const DOT: u8 = 0x2e;

/// `h`, a length modifier that may be doubled.
pub const LOWER_H: u8 = 0x68;

/// `l`, a length modifier that may be doubled.
pub const LOWER_L: u8 = 0x6c;

/// One of the flag characters `-`, `+`, space, `#` and `0`.
pub open spec fn is_flag(b: u8) -> bool {
    b == 0x2d || b == 0x2b || b == 0x20 || b == 0x23 || b == 0x30
}

/// One of the decimal digits `0` to `9`.
pub open spec fn is_digit(b: u8) -> bool {
    0x30 <= b <= 0x39
}

/// One of the length modifiers that stand alone: `L`, `j`, `z` and `t`.
/// (`h` and `l` may be doubled and are handled by [`skip_length`].)
pub open spec fn is_single_length(b: u8) -> bool {
    b == 0x4c || b == 0x6a || b == 0x7a || b == 0x74
}

/// One of the conversion characters `d i u o x X f F e E g G s c p %`.
pub open spec fn is_conversion(b: u8) -> bool {
    ||| b == 0x64  // d
    ||| b == 0x69  // i
    ||| b == 0x75  // u
    ||| b == 0x6f  // o
    ||| b == 0x78  // x
    ||| b == 0x58  // X
    ||| b == 0x66  // f
    ||| b == 0x46  // F
    ||| b == 0x65  // e
    ||| b == 0x45  // E
    ||| b == 0x67  // g
    ||| b == 0x47  // G
    ||| b == 0x73  // s
    ||| b == 0x63  // c
    ||| b == 0x70  // p
    ||| b == PERCENT
}

/// The position after the flags that start at `i`.
pub open spec fn skip_flags(s: Seq<u8>, i: int) -> int
    decreases s.len() - i,
{
    if 0 <= i < s.len() && is_flag(s[i]) {
        skip_flags(s, i + 1)
    } else {
        i
    }
}

/// The position after the digits that start at `i`.
pub open spec fn skip_digits(s: Seq<u8>, i: int) -> int
    decreases s.len() - i,
{
    if 0 <= i < s.len() && is_digit(s[i]) {
        skip_digits(s, i + 1)
    } else {
        i
    }
}

/// The position after a number at `i`: a single `*`, or any count of digits.
pub open spec fn skip_number(s: Seq<u8>, i: int) -> int {
    if 0 <= i < s.len() && s[i] == ASTERISK {
        i + 1
    } else {
        skip_digits(s, i)
    }
}

/// The position after a precision at `i`: a `.` and a number, or nothing.
pub open spec fn skip_precision(s: Seq<u8>, i: int) -> int {
    if 0 <= i < s.len() && s[i] == DOT {
        skip_number(s, i + 1)
    } else {
        i
    }
}

/// The position after a length modifier at `i`: `hh`, `h`, `ll`, `l`, `L`,
/// `j`, `z`, `t`, or nothing.
pub open spec fn skip_length(s: Seq<u8>, i: int) -> int {
    if 0 <= i < s.len() && (s[i] == LOWER_H || s[i] == LOWER_L) {
        if i + 1 < s.len() && s[i + 1] == s[i] {
            i + 2
        } else {
            i + 1
        }
    } else if 0 <= i < s.len() && is_single_length(s[i]) {
        i + 1
    } else {
        i
    }
}

/// Where the conversion character of a specifier is looked for, when the
/// specifier's `%` stands at `start`: after flags, width, precision and
/// length modifier, each of which may be missing.
pub open spec fn conversion_position(s: Seq<u8>, start: int) -> int {
    skip_length(s, skip_precision(s, skip_number(s, skip_flags(s, start + 1))))
}

/// The position after the complete specifier whose `%` stands at `start`, if
/// the bytes from there on form one.
pub open spec fn specifier_end(s: Seq<u8>, start: int) -> Option<int> {
    let at = conversion_position(s, start);
    if 0 <= at < s.len() && is_conversion(s[at]) {
        Some(at + 1)
    } else {
        None
    }
}

/// Whether an escaped percent sign, the two bytes `%%`, stands at `i`.
pub open spec fn is_escape(s: Seq<u8>, i: int) -> bool {
    0 <= i && i + 1 < s.len() && s[i] == PERCENT && s[i + 1] == PERCENT
}

/// Start and end of the first complete specifier at or after `from`.
///
/// An escaped percent sign is literal text and is stepped over as a whole. A
/// `%` that starts no complete specifier, such as one at the very end, is
/// literal text too.
pub open spec fn next_specifier(s: Seq<u8>, from: int) -> Option<(int, int)>
    decreases s.len() - from,
{
    if from < 0 || from >= s.len() {
        None
    } else if s[from] != PERCENT {
        next_specifier(s, from + 1)
    } else if is_escape(s, from) {
        next_specifier(s, from + 2)
    } else {
        match specifier_end(s, from) {
            Some(end) => Some((from, end)),
            None => next_specifier(s, from + 1),
        }
    }
}

/// Where the fragment that is being scanned at `from` ends: after the next
/// complete specifier, or at the end of the text when none is left.
pub open spec fn fragment_end(s: Seq<u8>, from: int) -> int {
    match next_specifier(s, from) {
        Some((_, end)) => end,
        None => s.len() as int,
    }
}

/// The first fragment of `s`.
pub open spec fn first_fragment(s: Seq<u8>) -> Seq<u8> {
    s.subrange(0, fragment_end(s, 0))
}

/// What is left of `s` once its first fragment is taken away.
pub open spec fn after_first_fragment(s: Seq<u8>) -> Seq<u8> {
    s.subrange(fragment_end(s, 0), s.len() as int)
}

/// All fragments of `s`, in order. The empty text has none.
pub open spec fn fragments(s: Seq<u8>) -> Seq<Seq<u8>>
    decreases s.len(),
{
    if s.len() == 0 || fragment_end(s, 0) <= 0 || fragment_end(s, 0) > s.len() {
        Seq::empty()
    } else {
        seq![first_fragment(s)] + fragments(after_first_fragment(s))
    }
}

/// The fragments of `s` laid end to end.
pub open spec fn joined(parts: Seq<Seq<u8>>) -> Seq<u8>
    decreases parts.len(),
{
    if parts.len() == 0 {
        Seq::empty()
    } else {
        parts[0] + joined(parts.subrange(1, parts.len() as int))
    }
}

/// Skipping flags moves forward, if at all, and stays within the text.
pub proof fn lemma_skip_flags_bounds(s: Seq<u8>, i: int)
    requires
        0 <= i <= s.len(),
    ensures
        i <= skip_flags(s, i) <= s.len(),
    decreases s.len() - i,
{
    if i < s.len() && is_flag(s[i]) {
        lemma_skip_flags_bounds(s, i + 1);
    }
}

/// Skipping digits moves forward, if at all, and stays within the text.
pub proof fn lemma_skip_digits_bounds(s: Seq<u8>, i: int)
    requires
        0 <= i <= s.len(),
    ensures
        i <= skip_digits(s, i) <= s.len(),
    decreases s.len() - i,
{
    if i < s.len() && is_digit(s[i]) {
        lemma_skip_digits_bounds(s, i + 1);
    }
}

/// The conversion character of a specifier is looked for after its `%` and
/// within the text or at its end.
pub proof fn lemma_conversion_position_bounds(s: Seq<u8>, start: int)
    requires
        0 <= start < s.len(),
    ensures
        start < conversion_position(s, start) <= s.len(),
{
    lemma_skip_flags_bounds(s, start + 1);
    let a = skip_flags(s, start + 1);
    lemma_skip_digits_bounds(s, a);
    let b = skip_number(s, a);
    if b < s.len() {
        lemma_skip_digits_bounds(s, b + 1);
    }
}

/// Beyond the end of the text no conversion character is found.
pub proof fn lemma_conversion_position_beyond(s: Seq<u8>, start: int)
    requires
        start >= s.len(),
    ensures
        conversion_position(s, start) > s.len(),
        specifier_end(s, start) is None,
{
}

/// A complete specifier is at least two bytes long, lies within the text and
/// ends in a conversion character.
pub proof fn lemma_specifier_end_bounds(s: Seq<u8>, start: int)
    requires
        0 <= start < s.len(),
    ensures
        specifier_end(s, start) matches Some(end) ==> start + 2 <= end <= s.len() && is_conversion(
            s[end - 1],
        ),
{
    lemma_conversion_position_bounds(s, start);
}

/// The next specifier, if there is one, starts at or after `from`, lies within
/// the text, begins with `%` and ends in a conversion character.
pub proof fn lemma_next_specifier_bounds(s: Seq<u8>, from: int)
    requires
        0 <= from,
    ensures
        next_specifier(s, from) matches Some((start, end)) ==> {
            &&& from <= start
            &&& start + 2 <= end <= s.len()
            &&& s[start] == PERCENT
            &&& is_conversion(s[end - 1])
            &&& specifier_end(s, start) == Some(end)
        },
    decreases s.len() - from,
{
    if from >= s.len() {
    } else if s[from] != PERCENT {
        lemma_next_specifier_bounds(s, from + 1);
    } else if is_escape(s, from) {
        lemma_next_specifier_bounds(s, from + 2);
    } else {
        lemma_specifier_end_bounds(s, from);
        if specifier_end(s, from) is None {
            lemma_next_specifier_bounds(s, from + 1);
        }
    }
}

/// A fragment scanned from inside the text is not empty and ends within the
/// text.
pub proof fn lemma_fragment_end_bounds(s: Seq<u8>, from: int)
    requires
        0 <= from < s.len(),
    ensures
        from < fragment_end(s, from) <= s.len(),
{
    lemma_next_specifier_bounds(s, from);
}

/// The fragments of a text, laid end to end, are the text: scanning loses and
/// adds nothing.
pub proof fn lemma_fragments_join(s: Seq<u8>)
    ensures
        joined(fragments(s)) == s,
    decreases s.len(),
{
    if s.len() == 0 {
        assert(joined(fragments(s)) =~= s);
    } else {
        lemma_fragment_end_bounds(s, 0);
        let rest = after_first_fragment(s);
        lemma_fragments_join(rest);
        let parts = fragments(s);
        assert(parts.subrange(1, parts.len() as int) =~= fragments(rest));
        assert(parts[0] == first_fragment(s));
        assert(first_fragment(s) + rest =~= s);
    }
}

/// No fragment is empty.
pub proof fn lemma_fragments_nonempty(s: Seq<u8>, k: int)
    requires
        0 <= k < fragments(s).len(),
    ensures
        fragments(s)[k].len() > 0,
    decreases s.len(),
{
    if s.len() > 0 {
        lemma_fragment_end_bounds(s, 0);
        if k > 0 {
            lemma_fragments_nonempty(after_first_fragment(s), k - 1);
        }
    }
}

/// A text that is not empty and holds no complete specifier is a single
/// fragment: the text itself.
pub proof fn lemma_no_specifier_one_fragment(s: Seq<u8>)
    requires
        s.len() > 0,
        next_specifier(s, 0) is None,
    ensures
        fragments(s) == seq![s],
{
    assert(first_fragment(s) =~= s);
    assert(after_first_fragment(s) =~= Seq::<u8>::empty());
    assert(fragments(after_first_fragment(s)) =~= Seq::<Seq<u8>>::empty());
    assert(fragments(s) =~= seq![s]);
}

/// A text that opens with a complete specifier has that specifier, and
/// nothing more, as its first fragment.
pub proof fn lemma_leading_specifier_is_fragment(s: Seq<u8>)
    requires
        s.len() > 0,
        s[0] == PERCENT,
        !is_escape(s, 0),
        specifier_end(s, 0) is Some,
    ensures
        fragments(s).len() > 0,
        fragments(s)[0] == s.subrange(0, specifier_end(s, 0).unwrap()),
{
    lemma_fragment_end_bounds(s, 0);
}

/// `position`, or `limit` where `position` lies beyond it.
pub open spec fn capped(position: int, limit: int) -> int {
    if position < limit {
        position
    } else {
        limit
    }
}

/// In the first `n` bytes of a text taken alone, flags are skipped as in the
/// whole text, up to the end of those bytes.
pub proof fn lemma_skip_flags_prefix(s: Seq<u8>, n: int, i: int)
    requires
        0 <= i <= n <= s.len(),
    ensures
        skip_flags(s.subrange(0, n), i) == capped(skip_flags(s, i), n),
    decreases n - i,
{
    lemma_skip_flags_bounds(s, i);
    if i < n {
        assert(s.subrange(0, n)[i] == s[i]);
        if is_flag(s[i]) {
            lemma_skip_flags_prefix(s, n, i + 1);
        }
    }
}

/// In the first `n` bytes of a text taken alone, digits are skipped as in
/// the whole text, up to the end of those bytes.
pub proof fn lemma_skip_digits_prefix(s: Seq<u8>, n: int, i: int)
    requires
        0 <= i <= n <= s.len(),
    ensures
        skip_digits(s.subrange(0, n), i) == capped(skip_digits(s, i), n),
    decreases n - i,
{
    lemma_skip_digits_bounds(s, i);
    if i < n {
        assert(s.subrange(0, n)[i] == s[i]);
        if is_digit(s[i]) {
            lemma_skip_digits_prefix(s, n, i + 1);
        }
    }
}

/// In the first `n` bytes of a text taken alone, the conversion character of
/// a specifier is looked for where it is in the whole text, or at the end of
/// those bytes when that lies beyond them.
pub proof fn lemma_conversion_position_prefix(s: Seq<u8>, n: int, start: int)
    requires
        0 <= start < n <= s.len(),
    ensures
        conversion_position(s.subrange(0, n), start) == capped(conversion_position(s, start), n),
{
    let t = s.subrange(0, n);
    assert forall|i: int| 0 <= i < n implies t[i] == s[i] by {}
    lemma_skip_flags_prefix(s, n, start + 1);
    lemma_skip_flags_bounds(s, start + 1);
    let flags = skip_flags(s, start + 1);
    let flags_alone = skip_flags(t, start + 1);
    lemma_skip_digits_prefix(s, n, flags_alone);
    lemma_skip_digits_bounds(s, flags);
    let width = skip_number(s, flags);
    let width_alone = skip_number(t, flags_alone);
    assert(width_alone == capped(width, n));
    if width_alone < n {
        lemma_skip_digits_prefix(s, n, width_alone + 1);
    }
    if width < s.len() {
        lemma_skip_digits_bounds(s, width + 1);
    }
    let precision = skip_precision(s, width);
    let precision_alone = skip_precision(t, width_alone);
    assert(precision_alone == capped(precision, n));
}

/// The first specifier of a text is also the first specifier of the text up
/// to that specifier's end, taken alone.
pub proof fn lemma_next_specifier_prefix(s: Seq<u8>, from: int)
    requires
        0 <= from,
        next_specifier(s, from) is Some,
    ensures
        next_specifier(s.subrange(0, fragment_end(s, from)), from) == next_specifier(s, from),
    decreases s.len() - from,
{
    lemma_next_specifier_bounds(s, from);
    let (start, end) = next_specifier(s, from).unwrap();
    let t = s.subrange(0, end);
    assert forall|i: int| 0 <= i < end implies t[i] == s[i] by {}
    if s[from] != PERCENT {
        lemma_next_specifier_prefix(s, from + 1);
    } else if is_escape(s, from) {
        lemma_next_specifier_bounds(s, from + 2);
        lemma_next_specifier_prefix(s, from + 2);
    } else {
        lemma_conversion_position_prefix(s, end, from);
        if specifier_end(s, from) is None {
            lemma_next_specifier_bounds(s, from + 1);
            lemma_next_specifier_prefix(s, from + 1);
        }
    }
}

/// Whether a fragment, taken alone, closes with its one specifier: scanning
/// it finds a specifier, and that specifier ends where the fragment ends.
pub open spec fn closes_with_specifier(fragment: Seq<u8>) -> bool {
    next_specifier(fragment, 0) matches Some((_, end)) && end == fragment.len()
}

/// Every fragment but the last closes with its one specifier. The last
/// closes with its one specifier too, or holds none.
pub proof fn lemma_fragments_hold_one_specifier(s: Seq<u8>, k: int)
    requires
        0 <= k < fragments(s).len(),
    ensures
        closes_with_specifier(fragments(s)[k]) || (k == fragments(s).len() - 1 && next_specifier(
            fragments(s)[k],
            0,
        ) is None),
        k < fragments(s).len() - 1 ==> closes_with_specifier(fragments(s)[k]),
    decreases s.len(),
{
    lemma_fragment_end_bounds(s, 0);
    let rest = after_first_fragment(s);
    if k > 0 {
        lemma_fragments_hold_one_specifier(rest, k - 1);
    } else if next_specifier(s, 0) is Some {
        lemma_next_specifier_prefix(s, 0);
    } else {
        assert(first_fragment(s) =~= s);
        assert(rest =~= Seq::<u8>::empty());
        assert(fragments(rest) =~= Seq::<Seq<u8>>::empty());
    }
}

/// Whether `b` is a flag character.
fn flag_character(b: u8) -> (r: bool)
    ensures
        r == is_flag(b),
{
    b == 0x2d || b == 0x2b || b == 0x20 || b == 0x23 || b == 0x30
}

/// Whether `b` is a decimal digit.
fn digit_character(b: u8) -> (r: bool)
    ensures
        r == is_digit(b),
{
    0x30 <= b && b <= 0x39
}

/// Whether `b` is a length modifier that stands alone.
fn single_length_character(b: u8) -> (r: bool)
    ensures
        r == is_single_length(b),
{
    b == 0x4c || b == 0x6a || b == 0x7a || b == 0x74
}

/// The position after the flags that start at `i`.
fn scan_flags(bytes: &[u8], i: usize) -> (r: usize)
    requires
        i <= bytes@.len(),
    ensures
        r == skip_flags(bytes@, i as int),
        i <= r <= bytes@.len(),
{
    let mut at: usize = i;
    while at < bytes.len() && flag_character(bytes[at])
        invariant
            i <= at <= bytes@.len(),
            skip_flags(bytes@, i as int) == skip_flags(bytes@, at as int),
        decreases bytes@.len() - at,
    {
        at = at + 1;
    }
    at
}

/// The position after the digits that start at `i`.
fn scan_digits(bytes: &[u8], i: usize) -> (r: usize)
    requires
        i <= bytes@.len(),
    ensures
        r == skip_digits(bytes@, i as int),
        i <= r <= bytes@.len(),
{
    let mut at: usize = i;
    while at < bytes.len() && digit_character(bytes[at])
        invariant
            i <= at <= bytes@.len(),
            skip_digits(bytes@, i as int) == skip_digits(bytes@, at as int),
        decreases bytes@.len() - at,
    {
        at = at + 1;
    }
    at
}

/// The position after a number at `i`.
fn scan_number(bytes: &[u8], i: usize) -> (r: usize)
    requires
        i <= bytes@.len(),
    ensures
        r == skip_number(bytes@, i as int),
        i <= r <= bytes@.len(),
{
    if i < bytes.len() && bytes[i] == ASTERISK {
        i + 1
    } else {
        scan_digits(bytes, i)
    }
}

/// The position after a precision at `i`.
fn scan_precision(bytes: &[u8], i: usize) -> (r: usize)
    requires
        i <= bytes@.len(),
    ensures
        r == skip_precision(bytes@, i as int),
        i <= r <= bytes@.len(),
{
    if i < bytes.len() && bytes[i] == DOT {
        scan_number(bytes, i + 1)
    } else {
        i
    }
}

/// The position after a length modifier at `i`.
fn scan_length(bytes: &[u8], i: usize) -> (r: usize)
    requires
        i <= bytes@.len(),
    ensures
        r == skip_length(bytes@, i as int),
        i <= r <= bytes@.len(),
{
    if i < bytes.len() && (bytes[i] == LOWER_H || bytes[i] == LOWER_L) {
        if i + 1 < bytes.len() && bytes[i + 1] == bytes[i] {
            i + 2
        } else {
            i + 1
        }
    } else if i < bytes.len() && single_length_character(bytes[i]) {
        i + 1
    } else {
        i
    }
}

/// Whether `b` is a conversion character.
pub fn conversion_character(b: u8) -> (r: bool)
    ensures
        r == is_conversion(b),
{
    b == 0x64 || b == 0x69 || b == 0x75 || b == 0x6f || b == 0x78 || b == 0x58 || b == 0x66 || b
        == 0x46 || b == 0x65 || b == 0x45 || b == 0x67 || b == 0x47 || b == 0x73 || b == 0x63 || b
        == 0x70 || b == PERCENT
}

/// Reads the specifier whose `%` stands at `start` and gives the position
/// after it, or `None` when the bytes from `start` on form no complete
/// specifier.
pub fn parse_specifier(bytes: &[u8], start: usize) -> (r: Option<usize>)
    ensures
        r is Some <==> specifier_end(bytes@, start as int) is Some,
        r matches Some(end) ==> specifier_end(bytes@, start as int) == Some(end as int),
{
    let n = bytes.len();
    if start >= n {
        proof {
            lemma_conversion_position_beyond(bytes@, start as int);
        }
        return None;
    }
    let flags = scan_flags(bytes, start + 1);
    let width = scan_number(bytes, flags);
    let precision = scan_precision(bytes, width);
    let at = scan_length(bytes, precision);
    if at < n && conversion_character(bytes[at]) {
        Some(at + 1)
    } else {
        None
    }
}

/// Finds the first complete specifier of `bytes` and gives the position after
/// it, or `None` when `bytes` holds no complete specifier.
pub fn find_specifier_end(bytes: &[u8]) -> (r: Option<usize>)
    ensures
        r is Some <==> next_specifier(bytes@, 0) is Some,
        r matches Some(end) ==> next_specifier(bytes@, 0).unwrap().1 == end && 2 <= end
            <= bytes@.len(),
{
    let n = bytes.len();
    let mut i: usize = 0;
    while i < n
        invariant
            0 <= i <= n,
            n == bytes@.len(),
            next_specifier(bytes@, 0) == next_specifier(bytes@, i as int),
        decreases n - i,
    {
        if bytes[i] != PERCENT {
            i = i + 1;
        } else if i + 1 < n && bytes[i + 1] == PERCENT {
            i = i + 2;
        } else {
            match parse_specifier(bytes, i) {
                Some(end) => {
                    proof {
                        lemma_next_specifier_bounds(bytes@, 0);
                    }
                    return Some(end);
                },
                None => {
                    i = i + 1;
                },
            }
        }
    }
    None
}

/// The length of the first fragment of `bytes`: the position after the first
/// complete specifier, or the length of `bytes` when it holds none.
pub fn first_fragment_length(bytes: &[u8]) -> (r: usize)
    ensures
        r == fragment_end(bytes@, 0),
        r <= bytes@.len(),
        bytes@.len() > 0 ==> r > 0,
{
    match find_specifier_end(bytes) {
        Some(end) => end,
        None => bytes.len(),
    }
}

/// A position directly after an ASCII byte of UTF-8 text falls between two
/// characters.
pub proof fn lemma_boundary_after_ascii(bytes: Seq<u8>, index: int)
    requires
        valid_utf8(bytes),
        0 < index <= bytes.len(),
        bytes[index - 1] <= 0x7f,
    ensures
        is_char_boundary(bytes, index),
{
    is_char_boundary_iff_not_is_continuation_byte(bytes, index - 1);
    valid_utf8_split(bytes, index - 1);
    let tail = bytes.subrange(index - 1, bytes.len() as int);
    assert(tail[0] == bytes[index - 1]);
    assert(valid_utf8(tail));
    assert(length_of_first_scalar(tail) == 1);
    let rest = pop_first_scalar(tail);
    assert(valid_utf8(rest));
    assert(rest =~= bytes.subrange(index, bytes.len() as int));
    if index == bytes.len() {
        is_char_boundary_start_end_of_seq(bytes);
    } else {
        assert(rest[0] == bytes[index]);
        assert(valid_first_scalar(rest));
        is_char_boundary_iff_is_leading_byte(bytes, index);
    }
}

/// A scanner over the fragments of a format string.
///
/// Each call of [`SpecifiersIterator::next`] hands out the next fragment. To
/// scan again, make a new scanner from the format string.
pub struct SpecifiersIterator<'a> {
    current_string: &'a str,
}

impl<'a> View for SpecifiersIterator<'a> {
    type V = Seq<u8>;

    /// The bytes that are still to be scanned.
    closed spec fn view(&self) -> Seq<u8> {
        self.current_string.spec_bytes()
    }
}

impl<'a> SpecifiersIterator<'a> {
    /// A scanner at the start of `input`.
    pub fn from(input: &'a str) -> (r: SpecifiersIterator<'a>)
        ensures
            r@ == input.spec_bytes(),
    {
        SpecifiersIterator { current_string: input }
    }

    /// What is still to be scanned, as text.
    pub fn remainder(&self) -> (r: &'a str)
        ensures
            r.spec_bytes() == self@,
    {
        self.current_string
    }

    /// Hands out the next fragment, or `None` once the whole format string
    /// has been handed out.
    pub fn next(&mut self) -> (r: Option<&'a str>)
        ensures
            old(self)@.len() == 0 ==> r is None && final(self)@ == old(self)@,
            old(self)@.len() > 0 ==> r is Some && r.unwrap().spec_bytes() == first_fragment(
                old(self)@,
            ) && final(self)@ == after_first_fragment(old(self)@),
    {
        let input: &'a str = self.current_string;
        let bytes = input.as_bytes();
        if bytes.len() == 0 {
            return None;
        }
        let end = first_fragment_length(bytes);
        proof {
            encode_utf8_valid_utf8(input@);
            lemma_next_specifier_bounds(bytes@, 0);
            if end < bytes@.len() {
                lemma_boundary_after_ascii(bytes@, end as int);
            } else {
                is_char_boundary_start_end_of_seq(bytes@);
            }
        }
        let (head, tail) = input.split_at(end);
        self.current_string = tail;
        Some(head)
    }

    /// Hands out the next fragment if it holds a specifier. Text without a
    /// specifier is left where it is, and `None` is returned.
    pub fn next_with_specifier(&mut self) -> (r: Option<&'a str>)
        ensures
            next_specifier(old(self)@, 0) is None ==> r is None && final(self)@ == old(self)@,
            next_specifier(old(self)@, 0) is Some ==> r is Some && r.unwrap().spec_bytes()
                == first_fragment(old(self)@) && final(self)@ == after_first_fragment(
                old(self)@,
            ),
    {
        let input: &'a str = self.current_string;
        let bytes = input.as_bytes();
        match find_specifier_end(bytes) {
            None => None,
            Some(end) => {
                proof {
                    encode_utf8_valid_utf8(input@);
                    lemma_next_specifier_bounds(bytes@, 0);
                    lemma_boundary_after_ascii(bytes@, end as int);
                }
                let (head, tail) = input.split_at(end);
                self.current_string = tail;
                Some(head)
            },
        }
    }
}

} // verus!
