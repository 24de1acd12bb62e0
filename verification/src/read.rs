//! Reading SVG path data back into segments, and the law that what the
//! writer writes reads back as the segments it was given.
use vstd::prelude::*;

use crate::command::{Command, Segment};
use crate::write::{
    SegmentTextView, WriteOptions, WriterState, spec_compact_number, spec_write_path, DOT,
    LETTER_LOWER_L, LETTER_LOWER_M, LETTER_LOWER_Z, LETTER_UPPER_L, LETTER_UPPER_M,
    LETTER_UPPER_Z, MINUS, ONE, SPACE, ZERO,
};

verus! {

pub const TAB: u8 = 9;
pub const LINE_FEED: u8 = 10;
pub const CARRIAGE_RETURN: u8 = 13;
pub const COMMA: u8 = 44;
pub const PLUS: u8 = 43;
pub const NINE: u8 = 57;
pub const EXPONENT_UPPER: u8 = 69;
pub const EXPONENT_LOWER: u8 = 101;
pub const LETTER_LOWER_X: u8 = 120;

/// White space between the tokens of path data.
pub open spec fn is_space(b: u8) -> bool {
    b == SPACE || b == TAB || b == LINE_FEED || b == CARRIAGE_RETURN
}

pub open spec fn is_digit(b: u8) -> bool {
    ZERO <= b <= NINE
}

/// One of the twenty command letters.
pub open spec fn is_command_letter(b: u8) -> bool {
    Segment::spec_from_letter(b) is Some
}

/// A byte a number can start with.
pub open spec fn is_number_start(b: u8) -> bool {
    is_digit(b) || b == DOT || b == MINUS || b == PLUS
}

/// Where the white space from `i` on ends.
pub open spec fn skip_spaces(data: Seq<u8>, i: int) -> int
    decreases data.len() - i,
{
    if 0 <= i < data.len() && is_space(data[i]) {
        skip_spaces(data, i + 1)
    } else {
        i
    }
}

/// Where the digits from `i` on end.
pub open spec fn digits_end(data: Seq<u8>, i: int) -> int
    decreases data.len() - i,
{
    if 0 <= i < data.len() && is_digit(data[i]) {
        digits_end(data, i + 1)
    } else {
        i
    }
}

/// Where a number's exponent, if it has one, ends after its mantissa ends
/// at `f`; `None` where an exponent is begun and not finished. An `e`
/// followed by `m` or `x` is a unit, not an exponent.
pub open spec fn exponent_end(data: Seq<u8>, f: int) -> Option<int> {
    if 0 <= f < data.len() && (data[f] == EXPONENT_LOWER || data[f] == EXPONENT_UPPER) {
        if f + 1 >= data.len() {
            None
        } else if data[f + 1] == LETTER_LOWER_M || data[f + 1] == LETTER_LOWER_X {
            Some(f)
        } else if data[f + 1] == PLUS || data[f + 1] == MINUS {
            let g = digits_end(data, f + 2);
            if g > f + 2 {
                Some(g)
            } else {
                None
            }
        } else if is_digit(data[f + 1]) {
            Some(digits_end(data, f + 1))
        } else {
            None
        }
    } else {
        Some(f)
    }
}

/// Where the number starting at `i` ends: a sign, digits, a decimal point
/// and more digits, with a digit before or after the point, and an
/// exponent; `None` where no number starts at `i`.
pub open spec fn number_end(data: Seq<u8>, i: int) -> Option<int> {
    let j = if 0 <= i < data.len() && (data[i] == PLUS || data[i] == MINUS) {
        i + 1
    } else {
        i
    };
    if !(0 <= j < data.len()) || !(is_digit(data[j]) || data[j] == DOT) {
        None
    } else {
        let k = digits_end(data, j);
        let f = if k < data.len() && data[k] == DOT {
            digits_end(data, k + 1)
        } else {
            k
        };
        if k > j || f > k + 1 {
            exponent_end(data, f)
        } else {
            None
        }
    }
}

/// The number at `i`, after white space, as its text, and where reading
/// goes on: after the white space and the one comma that may follow it.
pub open spec fn read_number(data: Seq<u8>, i: int) -> Option<(Seq<u8>, int)> {
    if !(0 <= i < data.len()) {
        None
    } else {
        let s = skip_spaces(data, i);
        if s >= data.len() {
            None
        } else {
            match number_end(data, s) {
                None => None,
                Some(e) => {
                    let p = skip_spaces(data, e);
                    Some(
                        (
                            data.subrange(s, e),
                            if p < data.len() && data[p] == COMMA {
                                p + 1
                            } else {
                                p
                            },
                        ),
                    )
                },
            }
        }
    }
}

/// `count` numbers from `i` on, in order.
pub open spec fn read_numbers(data: Seq<u8>, i: int, count: nat) -> Option<(Seq<Seq<u8>>, int)>
    decreases count,
{
    if count == 0 {
        Some((Seq::empty(), i))
    } else {
        match read_number(data, i) {
            None => None,
            Some((text, p)) => match read_numbers(data, p, (count - 1) as nat) {
                None => None,
                Some((texts, e)) => Some((seq![text] + texts, e)),
            },
        }
    }
}

/// An arc flag at `i`, after white space: a single `0` or `1`, which needs
/// no separator after it.
pub open spec fn read_flag(data: Seq<u8>, i: int) -> Option<(bool, int)> {
    let s = skip_spaces(data, i);
    if 0 <= s < data.len() && (data[s] == ZERO || data[s] == ONE) {
        let p = if s + 1 < data.len() && data[s + 1] == COMMA {
            s + 2
        } else {
            s + 1
        };
        Some((data[s] == ONE, skip_spaces(data, p)))
    } else {
        None
    }
}

/// The numbers of a segment with `command` from `i` on, an arc's two
/// flags after its third number, and where reading goes on.
pub open spec fn read_arguments(data: Seq<u8>, i: int, command: Command) -> Option<
    (Seq<Seq<u8>>, bool, bool, int),
> {
    if command == Command::EllipticalArc {
        match read_numbers(data, i, 3) {
            None => None,
            Some((first, p1)) => match read_flag(data, p1) {
                None => None,
                Some((large_arc, p2)) => match read_flag(data, p2) {
                    None => None,
                    Some((sweep, p3)) => match read_numbers(data, p3, 2) {
                        None => None,
                        Some((rest, p4)) => Some((first + rest, large_arc, sweep, p4)),
                    },
                },
            },
        }
    } else {
        match read_numbers(data, i, command.spec_arity()) {
            None => None,
            Some((numbers, p)) => Some((numbers, false, false, p)),
        }
    }
}

/// The segment at `i`, where path data goes on after `previous`, the
/// command letter in force: where reading goes on after it, and the letter
/// in force then.
///
/// The first segment must be a move. A segment without its letter, which
/// starts with a number, repeats the letter in force, except that after a
/// move it is a line of the move's case; a close path cannot be repeated.
#[verifier::opaque]
pub open spec fn read_segment(data: Seq<u8>, i: int, previous: Option<u8>) -> Option<
    (SegmentTextView, int, u8),
> {
    if !(0 <= i < data.len()) {
        None
    } else {
        let first = data[i];
        let explicit = is_command_letter(first);
        if previous is None && !(first == LETTER_UPPER_M || first == LETTER_LOWER_M) {
            None
        } else if !explicit && !(is_number_start(first) && previous is Some) {
            None
        } else if !explicit && (previous->0 == LETTER_UPPER_Z || previous->0 == LETTER_LOWER_Z) {
            None
        } else {
            let after_move = !explicit && (previous->0 == LETTER_UPPER_M || previous->0
                == LETTER_LOWER_M);
            let letter = if explicit {
                first
            } else if after_move {
                if previous->0 == LETTER_UPPER_M {
                    LETTER_UPPER_L
                } else {
                    LETTER_LOWER_L
                }
            } else {
                previous->0
            };
            let start = if explicit {
                i + 1
            } else {
                i
            };
            match Segment::spec_from_letter(letter) {
                None => None,
                Some(segment) => match read_arguments(data, start, segment.command) {
                    None => None,
                    Some((numbers, large_arc, sweep, end)) => Some(
                        (
                            SegmentTextView { segment, numbers, large_arc, sweep },
                            end,
                            if after_move {
                                previous->0
                            } else {
                                letter
                            },
                        ),
                    ),
                },
            }
        }
    }
}

/// The segments of path data from `i` on, after `previous`; `None` where
/// the data is not path data.
pub open spec fn read_path_from(data: Seq<u8>, i: int, previous: Option<u8>) -> Option<
    Seq<SegmentTextView>,
>
    decreases data.len() - i,
{
    let s = skip_spaces(data, i);
    if !(0 <= i) || s >= data.len() {
        if 0 <= i {
            Some(Seq::empty())
        } else {
            None
        }
    } else {
        match read_segment(data, s, previous) {
            None => None,
            Some((segment, end, letter)) => if end <= i || end > data.len() {
                None
            } else {
                match read_path_from(data, end, Some(letter)) {
                    None => None,
                    Some(rest) => Some(seq![segment] + rest),
                }
            },
        }
    }
}

/// The segments of path data, with each number as its text; `None` where
/// the data is not path data.
pub open spec fn read_path(data: Seq<u8>) -> Option<Seq<SegmentTextView>> {
    read_path_from(data, 0, None)
}

// The numbers the writer is given, and where they end.

/// One for a leading minus sign, zero otherwise.
pub open spec fn sign_len(text: Seq<u8>) -> int {
    if text.len() > 0 && text[0] == MINUS {
        1
    } else {
        0
    }
}

pub open spec fn all_digits(text: Seq<u8>, from: int, to: int) -> bool {
    forall|m: int| from <= m < to ==> is_digit(#[trigger] text[m])
}

/// A number written as an optional minus sign, digits, and optionally a
/// decimal point followed by digits; with `lead`, a digit also comes
/// before the point.
pub open spec fn number_text(text: Seq<u8>, lead: bool) -> bool {
    let s = sign_len(text);
    ||| text.len() > s && all_digits(text, s, text.len() as int)
    ||| exists|d: int|
        s <= d && (lead ==> s < d) && d + 1 < text.len() && #[trigger] text[d] == DOT && all_digits(
            text,
            s,
            d,
        ) && all_digits(text, d + 1, text.len() as int)
}

/// A number as Rust writes a finite `f64`: `-12.5`, `0.25`, `3`.
pub open spec fn display_number(text: Seq<u8>) -> bool {
    number_text(text, true)
}

/// Nothing at `j` continues a number that ends there, which has a decimal
/// point exactly when `has_dot`.
pub open spec fn ends_number(data: Seq<u8>, j: int, has_dot: bool) -> bool {
    j >= data.len() || (!is_digit(data[j]) && data[j] != EXPONENT_LOWER && data[j]
        != EXPONENT_UPPER && (data[j] == DOT ==> has_dot))
}

proof fn lemma_skip_spaces(data: Seq<u8>, i: int)
    requires
        0 <= i,
    ensures
        skip_spaces(data, i) >= i,
        i >= data.len() ==> skip_spaces(data, i) == i,
        i <= data.len() ==> skip_spaces(data, i) <= data.len(),
        i < data.len() && !is_space(data[i]) ==> skip_spaces(data, i) == i,
        i < data.len() && is_space(data[i]) ==> skip_spaces(data, i) == skip_spaces(data, i + 1),
        skip_spaces(data, skip_spaces(data, i)) == skip_spaces(data, i),
        skip_spaces(data, i) < data.len() ==> !is_space(data[skip_spaces(data, i)]),
    decreases data.len() - i,
{
    if i < data.len() && is_space(data[i]) {
        lemma_skip_spaces(data, i + 1);
    }
}

proof fn lemma_digits_run(data: Seq<u8>, i: int, r: int)
    requires
        0 <= i <= r <= data.len(),
        all_digits(data, i, r),
        r == data.len() || !is_digit(data[r]),
    ensures
        digits_end(data, i) == r,
    decreases r - i,
{
    if i < r {
        lemma_digits_run(data, i + 1, r);
    }
}

/// A number's text is read whole where nothing after it continues it.
proof fn lemma_number_end(data: Seq<u8>, i: int, text: Seq<u8>)
    requires
        number_text(text, false),
        0 <= i,
        i + text.len() <= data.len(),
        forall|m: int| 0 <= m < text.len() ==> data[i + m] == #[trigger] text[m],
        ends_number(data, i + text.len(), text.contains(DOT)),
    ensures
        number_end(data, i) == Some(i + text.len()),
{
    let s = sign_len(text);
    let n = text.len() as int;
    let j = i + s;
    assert(data[i] == text[0]);
    if text.len() > s && all_digits(text, s, n) {
        assert(is_digit(text[s]));
        assert(data[j] == text[s]);
        assert forall|m: int| j <= m < i + n implies is_digit(#[trigger] data[m]) by {
            assert(data[i + (m - i)] == text[m - i]);
        }
        assert(!text.contains(DOT)) by {
            if text.contains(DOT) {
                let m = choose|m: int| 0 <= m < text.len() && text[m] == DOT;
                if m >= s {
                    assert(is_digit(text[m]));
                }
            }
        }
        lemma_digits_run(data, j, i + n);
    } else {
        let d = choose|d: int|
            s <= d && d + 1 < text.len() && #[trigger] text[d] == DOT && all_digits(text, s, d)
                && all_digits(text, d + 1, text.len() as int);
        assert(data[i + d] == text[d]);
        assert(data[j] == text[s]);
        assert forall|m: int| j <= m < i + d implies is_digit(#[trigger] data[m]) by {
            assert(data[i + (m - i)] == text[m - i]);
        }
        assert forall|m: int| i + d + 1 <= m < i + n implies is_digit(#[trigger] data[m]) by {
            assert(data[i + (m - i)] == text[m - i]);
        }
        assert(text.contains(DOT));
        lemma_digits_run(data, j, i + d);
        lemma_digits_run(data, i + d + 1, i + n);
        assert(is_digit(text[d + 1]));
    }
}

/// Leaving out a display number's leading zero leaves a number.
proof fn lemma_compact_is_number(text: Seq<u8>)
    requires
        display_number(text),
    ensures
        number_text(spec_compact_number(text), false),
        number_text(text, false),
{
    let s = sign_len(text);
    let n = text.len() as int;
    let c = spec_compact_number(text);
    let ends_digits = text.len() > s && all_digits(text, s, n);
    if !ends_digits {
        let d = choose|d: int|
            s <= d && s < d && d + 1 < text.len() && #[trigger] text[d] == DOT && all_digits(
                text,
                s,
                d,
            ) && all_digits(text, d + 1, text.len() as int);
        assert(text[d] == DOT);
    }
    if crate::write::starts_with(text, seq![ZERO, DOT]) {
        assert(text[0] == text.subrange(0, 2)[0]);
        assert(text[1] == text.subrange(0, 2)[1]);
        assert(s == 0);
        if ends_digits {
            assert(is_digit(text[1]));
        }
        let d = choose|d: int|
            s <= d && s < d && d + 1 < text.len() && #[trigger] text[d] == DOT && all_digits(
                text,
                s,
                d,
            ) && all_digits(text, d + 1, text.len() as int);
        if d > 1 {
            assert(is_digit(text[1]));
        }
        assert(d == 1);
        assert(c[0] == text[1]);
        assert(sign_len(c) == 0);
        assert forall|m: int| 1 <= m < c.len() implies is_digit(#[trigger] c[m]) by {
            assert(c[m] == text[m + 1]);
        }
        assert(c[0] == DOT);
    } else if crate::write::starts_with(text, seq![MINUS, ZERO, DOT]) {
        assert(text[0] == text.subrange(0, 3)[0]);
        assert(text[1] == text.subrange(0, 3)[1]);
        assert(text[2] == text.subrange(0, 3)[2]);
        assert(s == 1);
        if ends_digits {
            assert(is_digit(text[2]));
        }
        let d = choose|d: int|
            s <= d && s < d && d + 1 < text.len() && #[trigger] text[d] == DOT && all_digits(
                text,
                s,
                d,
            ) && all_digits(text, d + 1, text.len() as int);
        if d > 2 {
            assert(is_digit(text[2]));
        }
        assert(d == 2);
        assert(c[0] == MINUS);
        assert(c[1] == text[2]);
        assert(sign_len(c) == 1);
        assert forall|m: int| 2 <= m < c.len() implies is_digit(#[trigger] c[m]) by {
            assert(c[m] == text[m + 1]);
        }
        assert(c[1] == DOT);
    } else {
        assert(c == text);
    }
}

/// A number's text starts as a number does, and holds no white space and
/// no comma.
proof fn lemma_number_bytes(text: Seq<u8>)
    requires
        number_text(text, false),
    ensures
        text.len() > 0,
        is_number_start(text[0]),
        text[0] == MINUS || is_digit(text[0]) || text[0] == DOT,
        forall|m: int| 0 <= m < text.len() ==> !is_space(#[trigger] text[m]) && text[m] != COMMA,
{
    let s = sign_len(text);
    if !(text.len() > s && all_digits(text, s, text.len() as int)) {
        let d = choose|d: int|
            s <= d && d + 1 < text.len() && #[trigger] text[d] == DOT && all_digits(text, s, d)
                && all_digits(text, d + 1, text.len() as int);
        assert forall|m: int| 0 <= m < text.len() implies !is_space(#[trigger] text[m]) && text[m]
            != COMMA by {
            if m >= s && m < d {
                assert(is_digit(text[m]));
            } else if m > d {
                assert(is_digit(text[m]));
            }
        }
        if s == 0 && d > 0 {
            assert(is_digit(text[0]));
        }
    } else {
        assert forall|m: int| 0 <= m < text.len() implies !is_space(#[trigger] text[m]) && text[m]
            != COMMA by {
            if m >= s {
                assert(is_digit(text[m]));
            }
        }
        if s == 0 {
            assert(is_digit(text[0]));
        }
    }
}

/// No comma anywhere in `data`.
pub open spec fn comma_free(data: Seq<u8>) -> bool {
    forall|m: int| 0 <= m < data.len() ==> #[trigger] data[m] != COMMA
}

/// `data` reads the number `text`, after the separator `sep`, at `base`.
proof fn lemma_read_number(data: Seq<u8>, q: int, base: int, sep: Seq<u8>, text: Seq<u8>)
    requires
        sep == Seq::<u8>::empty() || sep == seq![SPACE],
        number_text(text, false),
        0 <= q,
        0 <= base,
        base + sep.len() + text.len() <= data.len(),
        forall|m: int| 0 <= m < sep.len() ==> data[base + m] == #[trigger] sep[m],
        forall|m: int| 0 <= m < text.len() ==> data[base + sep.len() + m] == #[trigger] text[m],
        skip_spaces(data, q) == skip_spaces(data, base),
        ends_number(data, base + sep.len() + text.len(), text.contains(DOT)),
        comma_free(data),
    ensures
        read_number(data, q) == Some(
            (text, skip_spaces(data, base + sep.len() + text.len())),
        ),
{
    let start = base + sep.len();
    let e = start + text.len();
    lemma_number_bytes(text);
    assert(data[start] == text[0]);
    lemma_skip_spaces(data, start);
    if sep.len() == 1 {
        assert(data[base] == sep[0]);
        lemma_skip_spaces(data, base);
    }
    assert(skip_spaces(data, base) == start);
    lemma_skip_spaces(data, q);
    lemma_number_end(data, start, text);
    assert(data.subrange(start, e) =~= text);
    lemma_skip_spaces(data, e);
}

// What the writer writes, read back a token at a time.

/// `p` is where `w` starts.
pub open spec fn prefix_of(p: Seq<u8>, w: Seq<u8>) -> bool {
    p.len() <= w.len() && forall|m: int| 0 <= m < p.len() ==> #[trigger] w[m] == p[m]
}

/// A number as the writer writes it.
pub open spec fn written_number(compact: bool, text: Seq<u8>) -> Seq<u8> {
    if compact {
        spec_compact_number(text)
    } else {
        text
    }
}

/// Numbers as the writer writes them.
pub open spec fn written_numbers(compact: bool, texts: Seq<Seq<u8>>) -> Seq<Seq<u8>> {
    Seq::new(texts.len(), |m: int| written_number(compact, texts[m]))
}

proof fn lemma_numbers_front(compact: bool, state: WriterState, texts: Seq<Seq<u8>>)
    requires
        texts.len() > 0,
    ensures
        crate::write::numbers_step(compact, state, texts) == crate::write::numbers_step(
            compact,
            crate::write::number_step(compact, state, texts[0]),
            texts.drop_first(),
        ),
    decreases texts.len(),
{
    if texts.len() == 1 {
        assert(texts.drop_last() =~= Seq::<Seq<u8>>::empty());
        assert(texts.drop_first() =~= Seq::<Seq<u8>>::empty());
    } else {
        lemma_numbers_front(compact, state, texts.drop_last());
        assert(texts.drop_last()[0] == texts[0]);
        assert(texts.drop_last().drop_first() =~= texts.drop_first().drop_last());
        assert(texts.drop_first().last() == texts.last());
    }
}

proof fn lemma_numbers_extend(compact: bool, state: WriterState, texts: Seq<Seq<u8>>)
    ensures
        prefix_of(state.out, crate::write::numbers_step(compact, state, texts).out),
        crate::write::numbers_step(compact, state, texts).prev_command == state.prev_command,
        texts.len() == 0 ==> crate::write::numbers_step(compact, state, texts) == state,
        texts.len() > 0 ==> crate::write::numbers_step(compact, state, texts).prev_number_has_dot
            == Some(written_number(compact, texts.last()).contains(DOT)),
    decreases texts.len(),
{
    if texts.len() > 0 {
        lemma_numbers_extend(compact, state, texts.drop_last());
    }
}

proof fn lemma_numbers_comma_free(compact: bool, state: WriterState, texts: Seq<Seq<u8>>)
    requires
        comma_free(state.out),
        forall|m: int| 0 <= m < texts.len() ==> display_number(#[trigger] texts[m]),
    ensures
        comma_free(crate::write::numbers_step(compact, state, texts).out),
    decreases texts.len(),
{
    if texts.len() > 0 {
        lemma_numbers_comma_free(compact, state, texts.drop_last());
        let t = texts.last();
        assert(display_number(texts[texts.len() - 1]));
        lemma_compact_is_number(t);
        lemma_number_bytes(written_number(compact, t));
    }
}

/// The first byte a number writes ends the number before it.
proof fn lemma_number_first_byte(compact: bool, state: WriterState, text: Seq<u8>)
    requires
        display_number(text),
        state.prev_number_has_dot is Some,
    ensures
        crate::write::number_step(compact, state, text).out.len() > state.out.len(),
        ends_number(
            crate::write::number_step(compact, state, text).out,
            state.out.len() as int,
            state.prev_number_has_dot == Some(true),
        ),
{
    let w = written_number(compact, text);
    lemma_compact_is_number(text);
    lemma_number_bytes(w);
    let out = crate::write::number_step(compact, state, text).out;
    if compact && !crate::write::spec_needs_separator(state.prev_number_has_dot, w) {
        assert(out[state.out.len() as int] == w[0]);
        if crate::write::starts_with(w, seq![MINUS]) {
            assert(w[0] == w.subrange(0, 1)[0]);
        } else {
            assert(w[0] == w.subrange(0, 1)[0]);
        }
    } else {
        assert(out[state.out.len() as int] == SPACE);
    }
}

/// Reading the number the writer wrote after `state` gives it back, as
/// written.
proof fn lemma_read_written_number(
    compact: bool,
    data: Seq<u8>,
    state: WriterState,
    text: Seq<u8>,
    q: int,
)
    requires
        prefix_of(crate::write::number_step(compact, state, text).out, data),
        comma_free(data),
        display_number(text),
        0 <= q,
        skip_spaces(data, q) == skip_spaces(data, state.out.len() as int),
        ends_number(
            data,
            crate::write::number_step(compact, state, text).out.len() as int,
            written_number(compact, text).contains(DOT),
        ),
    ensures
        read_number(data, q) == Some(
            (
                written_number(compact, text),
                skip_spaces(data, crate::write::number_step(compact, state, text).out.len() as int),
            ),
        ),
{
    let first = crate::write::number_step(compact, state, text);
    let w = written_number(compact, text);
    lemma_compact_is_number(text);
    let sep = if !compact || crate::write::spec_needs_separator(state.prev_number_has_dot, w) {
        seq![SPACE]
    } else {
        Seq::<u8>::empty()
    };
    let base = state.out.len() as int;
    assert(first.out == state.out + sep + w);
    assert forall|m: int| 0 <= m < sep.len() implies data[base + m] == #[trigger] sep[m] by {
        assert(first.out[base + m] == sep[m]);
    }
    assert forall|m: int| 0 <= m < w.len() implies data[base + sep.len() + m] == #[trigger] w[m] by {
        assert(first.out[base + sep.len() + m] == w[m]);
    }
    lemma_read_number(data, q, base, sep, w);
}

/// Reading the numbers the writer wrote gives them back, as written.
#[verifier::spinoff_prover]
proof fn lemma_read_numbers(
    compact: bool,
    data: Seq<u8>,
    state: WriterState,
    texts: Seq<Seq<u8>>,
    q: int,
)
    requires
        prefix_of(crate::write::numbers_step(compact, state, texts).out, data),
        comma_free(data),
        forall|m: int| 0 <= m < texts.len() ==> display_number(#[trigger] texts[m]),
        0 <= q,
        skip_spaces(data, q) == skip_spaces(data, state.out.len() as int),
        texts.len() > 0 ==> ends_number(
            data,
            crate::write::numbers_step(compact, state, texts).out.len() as int,
            crate::write::numbers_step(compact, state, texts).prev_number_has_dot == Some(true),
        ),
    ensures
        ({
            let done = crate::write::numbers_step(compact, state, texts);
            match read_numbers(data, q, texts.len()) {
                Some((read, e)) => {
                    &&& read == written_numbers(compact, texts)
                    &&& 0 <= e
                    &&& skip_spaces(data, e) == skip_spaces(data, done.out.len() as int)
                    &&& (texts.len() == 0 ==> e == q)
                    &&& (texts.len() > 0 ==> e >= done.out.len())
                },
                None => false,
            }
        }),
    decreases texts.len(),
{
    if texts.len() == 0 {
        assert(written_numbers(compact, texts) =~= Seq::<Seq<u8>>::empty());
    } else {
        let t = texts[0];
        let rest = texts.drop_first();
        let first = crate::write::number_step(compact, state, t);
        lemma_numbers_front(compact, state, texts);
        lemma_numbers_extend(compact, first, rest);
        let done = crate::write::numbers_step(compact, first, rest);
        let w = written_number(compact, t);
        assert(display_number(texts[0]));
        assert(first.prev_number_has_dot == Some(w.contains(DOT)));
        // What comes next ends the number
        if rest.len() > 0 {
            lemma_next_number_ends(compact, data, first, rest);
        }
        lemma_read_written_number(compact, data, state, t, q);
        let q1 = skip_spaces(data, first.out.len() as int);
        lemma_skip_spaces(data, first.out.len() as int);
        assert forall|m: int| 0 <= m < rest.len() implies display_number(#[trigger] rest[m]) by {
            assert(rest[m] == texts[m + 1]);
        }
        lemma_read_numbers(compact, data, first, rest, q1);
        assert(written_numbers(compact, texts) =~= seq![w] + written_numbers(compact, rest));
    }
}

/// Numbers written after a number end it.
proof fn lemma_next_number_ends(
    compact: bool,
    data: Seq<u8>,
    state: WriterState,
    texts: Seq<Seq<u8>>,
)
    requires
        texts.len() > 0,
        display_number(texts[0]),
        state.prev_number_has_dot is Some,
        prefix_of(crate::write::numbers_step(compact, state, texts).out, data),
    ensures
        ends_number(data, state.out.len() as int, state.prev_number_has_dot == Some(true)),
{
    let next = crate::write::number_step(compact, state, texts[0]);
    lemma_number_first_byte(compact, state, texts[0]);
    lemma_numbers_front(compact, state, texts);
    lemma_numbers_extend(compact, next, texts.drop_first());
    assert(data[state.out.len() as int] == next.out[state.out.len() as int]);
}

/// Reading an arc's flags where the writer wrote them gives them back.
proof fn lemma_read_flags(
    compact: bool,
    data: Seq<u8>,
    state: WriterState,
    large_arc: bool,
    sweep: bool,
    q: int,
)
    requires
        prefix_of(crate::write::flags_step(compact, state, large_arc, sweep).out, data),
        comma_free(data),
        0 <= q,
        skip_spaces(data, q) == skip_spaces(data, state.out.len() as int),
    ensures
        ({
            let done = crate::write::flags_step(compact, state, large_arc, sweep);
            match read_flag(data, q) {
                Some((a, q1)) => a == large_arc && match read_flag(data, q1) {
                    Some((b, q2)) => {
                        &&& b == sweep
                        &&& skip_spaces(data, q2) == skip_spaces(data, done.out.len() as int)
                        &&& q2 >= done.out.len()
                        &&& 0 <= q2
                    },
                    None => false,
                },
                None => false,
            }
        }),
{
    let done = crate::write::flags_step(compact, state, large_arc, sweep);
    let base = state.out.len() as int;
    let between: int = if compact {
        0
    } else {
        1
    };
    assert(data[base] == done.out[base]);
    assert(data[base] == SPACE);
    assert(data[base + 1] == done.out[base + 1]);
    assert(data[base + 1] == crate::write::flag_byte(large_arc));
    assert(data[base + 2 + between] == done.out[base + 2 + between]);
    assert(data[base + 2 + between] == crate::write::flag_byte(sweep));
    if !compact {
        assert(data[base + 2] == done.out[base + 2]);
        assert(data[base + 2] == SPACE);
    }
    assert(done.out.len() == base + 3 + between);
    lemma_skip_spaces(data, base);
    lemma_skip_spaces(data, base + 1);
    lemma_skip_spaces(data, q);
    assert(skip_spaces(data, q) == base + 1);
    assert(data[base + 2] != COMMA);
    lemma_skip_spaces(data, base + 2);
    lemma_skip_spaces(data, base + 2 + between);
    let q1 = base + 2 + between;
    assert(skip_spaces(data, base + 2) == q1);
    assert(read_flag(data, q) == Some((large_arc, q1)));
    if base + 3 + between < data.len() {
        assert(data[base + 3 + between] != COMMA);
    }
    lemma_skip_spaces(data, q1 + 1);
}

/// A segment as the writer writes it: its numbers as written.
pub open spec fn written_segment(compact: bool, segment: SegmentTextView) -> SegmentTextView {
    SegmentTextView {
        segment: segment.segment,
        numbers: written_numbers(compact, segment.numbers),
        large_arc: segment.large_arc,
        sweep: segment.sweep,
    }
}

/// A segment the writer can write so that it reads back: as many numbers
/// as its command takes, each as Rust writes a finite `f64`, and no flags
/// set unless it is an arc.
pub open spec fn writable_segment(segment: SegmentTextView) -> bool {
    &&& segment.well_formed()
    &&& forall|m: int| 0 <= m < segment.numbers.len() ==> display_number(#[trigger] segment.numbers[m])
    &&& !segment.is_arc() ==> !segment.large_arc && !segment.sweep
}

/// What the writer writes of a segment after its letter.
pub open spec fn arguments_step(compact: bool, state: WriterState, segment: SegmentTextView) -> WriterState {
    if segment.is_arc() {
        let before = crate::write::numbers_step(compact, state, segment.numbers.subrange(0, 3));
        let flagged = crate::write::flags_step(compact, before, segment.large_arc, segment.sweep);
        crate::write::numbers_step(
            compact,
            flagged,
            segment.numbers.subrange(3, segment.numbers.len() as int),
        )
    } else {
        crate::write::numbers_step(compact, state, segment.numbers)
    }
}

/// Reading an arc's arguments where the writer wrote them gives them back.
#[verifier::spinoff_prover]
#[verifier::rlimit(60)]
proof fn lemma_read_arc_arguments(
    compact: bool,
    data: Seq<u8>,
    state: WriterState,
    segment: SegmentTextView,
    q: int,
)
    requires
        segment.is_arc(),
        prefix_of(arguments_step(compact, state, segment).out, data),
        comma_free(data),
        writable_segment(segment),
        0 <= q,
        skip_spaces(data, q) == skip_spaces(data, state.out.len() as int),
        ends_number(
            data,
            arguments_step(compact, state, segment).out.len() as int,
            arguments_step(compact, state, segment).prev_number_has_dot == Some(true),
        ),
    ensures
        ({
            let done = arguments_step(compact, state, segment);
            match read_arguments(data, q, segment.segment.command) {
                Some((numbers, large_arc, sweep, e)) => {
                    &&& numbers == written_numbers(compact, segment.numbers)
                    &&& large_arc == segment.large_arc
                    &&& sweep == segment.sweep
                    &&& 0 <= e
                    &&& skip_spaces(data, e) == skip_spaces(data, done.out.len() as int)
                    &&& e >= done.out.len()
                },
                None => false,
            }
        }),
{
    let numbers = segment.numbers;
    let first = numbers.subrange(0, 3);
    let rest = numbers.subrange(3, numbers.len() as int);
    let before = crate::write::numbers_step(compact, state, first);
    let flagged = crate::write::flags_step(compact, before, segment.large_arc, segment.sweep);
    let done = crate::write::numbers_step(compact, flagged, rest);
    assert(done == arguments_step(compact, state, segment));
    lemma_numbers_extend(compact, flagged, rest);
    assert(prefix_of(flagged.out, data));
    assert(prefix_of(before.out, data));
    assert(data[before.out.len() as int] == flagged.out[before.out.len() as int]);
    assert forall|m: int| 0 <= m < first.len() implies display_number(#[trigger] first[m]) by {
        assert(first[m] == numbers[m]);
    }
    assert forall|m: int| 0 <= m < rest.len() implies display_number(#[trigger] rest[m]) by {
        assert(rest[m] == numbers[m + 3]);
    }
    lemma_read_numbers(compact, data, state, first, q);
    let (r1, p1) = read_numbers(data, q, 3)->0;
    lemma_read_flags(compact, data, before, segment.large_arc, segment.sweep, p1);
    let (a, p2) = read_flag(data, p1)->0;
    let (b, p3) = read_flag(data, p2)->0;
    lemma_read_numbers(compact, data, flagged, rest, p3);
    assert(written_numbers(compact, numbers) =~= written_numbers(compact, first)
        + written_numbers(compact, rest));
}

/// Reading a segment's arguments where the writer wrote them gives them
/// back.
proof fn lemma_read_arguments(
    compact: bool,
    data: Seq<u8>,
    state: WriterState,
    segment: SegmentTextView,
    q: int,
)
    requires
        prefix_of(arguments_step(compact, state, segment).out, data),
        comma_free(data),
        writable_segment(segment),
        0 <= q,
        skip_spaces(data, q) == skip_spaces(data, state.out.len() as int),
        segment.numbers.len() > 0 ==> ends_number(
            data,
            arguments_step(compact, state, segment).out.len() as int,
            arguments_step(compact, state, segment).prev_number_has_dot == Some(true),
        ),
    ensures
        ({
            let done = arguments_step(compact, state, segment);
            match read_arguments(data, q, segment.segment.command) {
                Some((numbers, large_arc, sweep, e)) => {
                    &&& numbers == written_numbers(compact, segment.numbers)
                    &&& large_arc == segment.large_arc
                    &&& sweep == segment.sweep
                    &&& 0 <= e
                    &&& skip_spaces(data, e) == skip_spaces(data, done.out.len() as int)
                    &&& (segment.numbers.len() == 0 ==> e == q)
                    &&& (segment.numbers.len() > 0 ==> e >= done.out.len())
                },
                None => false,
            }
        }),
{
    if segment.is_arc() {
        lemma_read_arc_arguments(compact, data, state, segment, q);
    } else {
        lemma_read_numbers(compact, data, state, segment.numbers, q);
    }
}

proof fn lemma_arguments_extend(compact: bool, state: WriterState, segment: SegmentTextView)
    requires
        segment.well_formed(),
    ensures
        prefix_of(state.out, arguments_step(compact, state, segment).out),
        arguments_step(compact, state, segment).prev_command == state.prev_command,
        segment.numbers.len() > 0 ==> arguments_step(compact, state, segment).prev_number_has_dot
            == Some(written_number(compact, segment.numbers.last()).contains(DOT)),
        segment.numbers.len() == 0 ==> arguments_step(compact, state, segment) == state,
{
    let numbers = segment.numbers;
    if segment.is_arc() {
        let first = numbers.subrange(0, 3);
        let rest = numbers.subrange(3, numbers.len() as int);
        let before = crate::write::numbers_step(compact, state, first);
        let flagged = crate::write::flags_step(compact, before, segment.large_arc, segment.sweep);
        lemma_numbers_extend(compact, state, first);
        lemma_numbers_extend(compact, flagged, rest);
        assert(rest.last() == numbers.last());
    } else {
        lemma_numbers_extend(compact, state, numbers);
    }
}

/// The first number of a segment is written first.
proof fn lemma_first_number_first(compact: bool, state: WriterState, segment: SegmentTextView)
    requires
        segment.well_formed(),
        segment.numbers.len() > 0,
    ensures
        prefix_of(
            crate::write::number_step(compact, state, segment.numbers[0]).out,
            arguments_step(compact, state, segment).out,
        ),
{
    let numbers = segment.numbers;
    if segment.is_arc() {
        let first = numbers.subrange(0, 3);
        let rest = numbers.subrange(3, numbers.len() as int);
        let before = crate::write::numbers_step(compact, state, first);
        let flagged = crate::write::flags_step(compact, before, segment.large_arc, segment.sweep);
        lemma_numbers_front(compact, state, first);
        lemma_numbers_extend(
            compact,
            crate::write::number_step(compact, state, first[0]),
            first.drop_first(),
        );
        lemma_numbers_extend(compact, flagged, rest);
    } else {
        lemma_numbers_front(compact, state, numbers);
        lemma_numbers_extend(
            compact,
            crate::write::number_step(compact, state, numbers[0]),
            numbers.drop_first(),
        );
    }
}

/// What the letters of segments written and read say of the letter in
/// force: the same letter, or a move where the writer has a line of the
/// move's case that it left out after the move.
pub open spec fn letters_agree(written: Option<u8>, read: Option<u8>) -> bool {
    ||| written == read
    ||| written == Some(LETTER_UPPER_L) && read == Some(LETTER_UPPER_M)
    ||| written == Some(LETTER_LOWER_L) && read == Some(LETTER_LOWER_M)
}

proof fn lemma_letter_bytes(segment: Segment)
    ensures
        is_command_letter(segment.spec_letter()),
        Segment::spec_from_letter(segment.spec_letter()) == Some(segment),
        !is_space(segment.spec_letter()),
        !is_number_start(segment.spec_letter()),
        segment.spec_letter() != COMMA,
        segment.spec_letter() != EXPONENT_LOWER && segment.spec_letter() != EXPONENT_UPPER,
        segment.command == Command::MoveTo <==> (segment.spec_letter() == LETTER_UPPER_M
            || segment.spec_letter() == LETTER_LOWER_M),
        segment.command == Command::ClosePath <==> (segment.spec_letter() == LETTER_UPPER_Z
            || segment.spec_letter() == LETTER_LOWER_Z),
        segment.spec_letter() == LETTER_UPPER_L <==> (segment.command == Command::LineTo
            && segment.abs),
        segment.spec_letter() == LETTER_LOWER_L <==> (segment.command == Command::LineTo
            && !segment.abs),
{
    crate::command::letter_round_trip(segment, segment.spec_letter());
}

proof fn lemma_number_start_not_letter(b: u8)
    requires
        b == MINUS || is_digit(b) || b == DOT,
    ensures
        !is_command_letter(b),
        !is_space(b),
{
}

/// The writer's output after a segment reads back as the segment.
pub open spec fn segment_reads_back(
    compact: bool,
    data: Seq<u8>,
    state: WriterState,
    segment: SegmentTextView,
    pos: int,
    previous: Option<u8>,
) -> bool {
    let done = crate::write::segment_step(compact, state, segment);
    match read_segment(data, pos, previous) {
        Some((read, e, next)) => {
            &&& read == written_segment(compact, segment)
            &&& done.out.len() <= e <= data.len()
            &&& skip_spaces(data, e) == skip_spaces(data, done.out.len() as int)
            &&& letters_agree(done.prev_command, Some(next))
        },
        None => false,
    }
}

/// A segment written with its letter reads back.
#[verifier::spinoff_prover]
proof fn lemma_read_lettered_segment(
    compact: bool,
    data: Seq<u8>,
    state: WriterState,
    segment: SegmentTextView,
    q: int,
    previous: Option<u8>,
)
    requires
        !compact || !crate::write::spec_letter_implied(
            state.prev_command,
            segment.segment.spec_letter(),
        ),
        prefix_of(crate::write::segment_step(compact, state, segment).out, data),
        comma_free(data),
        writable_segment(segment),
        0 <= q,
        skip_spaces(data, q) == skip_spaces(data, state.out.len() as int),
        letters_agree(state.prev_command, previous),
        state.prev_command is None ==> segment.segment.command == Command::MoveTo,
        segment.numbers.len() > 0 ==> ends_number(
            data,
            crate::write::segment_step(compact, state, segment).out.len() as int,
            crate::write::segment_step(compact, state, segment).prev_number_has_dot == Some(true),
        ),
    ensures
        skip_spaces(data, q) < crate::write::segment_step(compact, state, segment).out.len(),
        segment_reads_back(compact, data, state, segment, skip_spaces(data, q), previous),
{
    reveal(read_segment);
    let letter = segment.segment.spec_letter();
    let lettered = crate::write::letter_step(compact, state, letter);
    let done = crate::write::segment_step(compact, state, segment);
    assert(done == arguments_step(compact, lettered, segment));
    lemma_arguments_extend(compact, lettered, segment);
    lemma_letter_bytes(segment.segment);
    let base = state.out.len() as int;
    let sep: int = if !compact && state.out.len() > 0 {
        1
    } else {
        0
    };
    let pos = base + sep;
    assert(lettered.out.len() == pos + 1);
    assert(data[pos] == lettered.out[pos]);
    assert(data[pos] == letter);
    if sep == 1 {
        assert(data[base] == lettered.out[base]);
        assert(data[base] == SPACE);
        lemma_skip_spaces(data, base);
    }
    lemma_skip_spaces(data, pos);
    lemma_skip_spaces(data, q);
    assert(skip_spaces(data, q) == pos);
    lemma_read_arguments(compact, data, lettered, segment, pos + 1);
    lemma_skip_spaces(data, pos + 1);
    if previous is None {
        assert(state.prev_command is None);
    }
    let (numbers, large_arc, sweep, e) = read_arguments(data, pos + 1, segment.segment.command)->0;
    let read = SegmentTextView { segment: segment.segment, numbers, large_arc, sweep };
    assert(read_segment(data, pos, previous) == Some((read, e, letter)));
    assert(read.numbers == written_segment(compact, segment).numbers);
    assert(read == written_segment(compact, segment));
    assert(done.prev_command == Some(letter));
    if segment.numbers.len() == 0 {
        assert(done == lettered);
    }
    lemma_skip_spaces(data, e);
    lemma_skip_spaces(data, done.out.len() as int);
}

/// A segment written without its letter reads back: its first number
/// shows that the letter in force goes on.
#[verifier::spinoff_prover]
proof fn lemma_read_unlettered_segment(
    data: Seq<u8>,
    state: WriterState,
    segment: SegmentTextView,
    q: int,
    previous: Option<u8>,
)
    requires
        crate::write::spec_letter_implied(state.prev_command, segment.segment.spec_letter()),
        prefix_of(crate::write::segment_step(true, state, segment).out, data),
        comma_free(data),
        writable_segment(segment),
        0 <= q,
        skip_spaces(data, q) == skip_spaces(data, state.out.len() as int),
        letters_agree(state.prev_command, previous),
        ends_number(
            data,
            crate::write::segment_step(true, state, segment).out.len() as int,
            crate::write::segment_step(true, state, segment).prev_number_has_dot == Some(true),
        ),
    ensures
        skip_spaces(data, q) < crate::write::segment_step(true, state, segment).out.len(),
        segment_reads_back(true, data, state, segment, skip_spaces(data, q), previous),
{
    reveal(read_segment);
    let letter = segment.segment.spec_letter();
    let lettered = crate::write::letter_step(true, state, letter);
    let done = crate::write::segment_step(true, state, segment);
    assert(done == arguments_step(true, lettered, segment));
    lemma_letter_bytes(segment.segment);
    assert(segment.numbers.len() > 0);
    lemma_arguments_extend(true, lettered, segment);
    lemma_first_number_first(true, lettered, segment);
    let t = segment.numbers[0];
    let first = crate::write::number_step(true, lettered, t);
    let w = written_number(true, t);
    assert(display_number(t));
    lemma_compact_is_number(t);
    lemma_number_bytes(w);
    let base = state.out.len() as int;
    let sep: int = if crate::write::spec_needs_separator(lettered.prev_number_has_dot, w) {
        1
    } else {
        0
    };
    let pos = base + sep;
    assert(first.out.len() == pos + w.len());
    assert(data[pos] == first.out[pos]);
    assert(data[pos] == w[0]);
    lemma_number_start_not_letter(w[0]);
    if sep == 1 {
        assert(data[base] == first.out[base]);
        assert(data[base] == SPACE);
        lemma_skip_spaces(data, base);
    }
    lemma_skip_spaces(data, pos);
    lemma_skip_spaces(data, q);
    assert(skip_spaces(data, q) == pos);
    lemma_read_arguments(true, data, lettered, segment, pos);
    let (numbers, large_arc, sweep, e) = read_arguments(data, pos, segment.segment.command)->0;
    let read = SegmentTextView { segment: segment.segment, numbers, large_arc, sweep };
    let p = previous->0;
    let next = if p == LETTER_UPPER_M || p == LETTER_LOWER_M {
        p
    } else {
        letter
    };
    assert(read_segment(data, pos, previous) == Some((read, e, next)));
    assert(read == written_segment(true, segment));
    lemma_skip_spaces(data, e);
    lemma_skip_spaces(data, done.out.len() as int);
}

proof fn lemma_arguments_comma_free(compact: bool, state: WriterState, segment: SegmentTextView)
    requires
        writable_segment(segment),
        comma_free(state.out),
    ensures
        comma_free(arguments_step(compact, state, segment).out),
{
    let numbers = segment.numbers;
    if segment.is_arc() {
        let first = numbers.subrange(0, 3);
        let rest = numbers.subrange(3, numbers.len() as int);
        assert forall|m: int| 0 <= m < first.len() implies display_number(#[trigger] first[m]) by {
            assert(first[m] == numbers[m]);
        }
        assert forall|m: int| 0 <= m < rest.len() implies display_number(#[trigger] rest[m]) by {
            assert(rest[m] == numbers[m + 3]);
        }
        lemma_numbers_comma_free(compact, state, first);
        let before = crate::write::numbers_step(compact, state, first);
        let flagged = crate::write::flags_step(compact, before, segment.large_arc, segment.sweep);
        assert(comma_free(flagged.out));
        lemma_numbers_comma_free(compact, flagged, rest);
    } else {
        lemma_numbers_comma_free(compact, state, numbers);
    }
}

/// What writing a segment does to the writer's state.
proof fn lemma_segment_extend(compact: bool, state: WriterState, segment: SegmentTextView)
    requires
        writable_segment(segment),
    ensures
        prefix_of(state.out, crate::write::segment_step(compact, state, segment).out),
        crate::write::segment_step(compact, state, segment).out.len() > state.out.len(),
        crate::write::segment_step(compact, state, segment).prev_command == Some(
            segment.segment.spec_letter(),
        ),
        segment.numbers.len() > 0 ==> crate::write::segment_step(
            compact,
            state,
            segment,
        ).prev_number_has_dot is Some,
        comma_free(state.out) ==> comma_free(crate::write::segment_step(compact, state, segment).out),
{
    let letter = segment.segment.spec_letter();
    let lettered = crate::write::letter_step(compact, state, letter);
    lemma_letter_bytes(segment.segment);
    lemma_arguments_extend(compact, lettered, segment);
    if comma_free(state.out) {
        assert(comma_free(lettered.out));
        lemma_arguments_comma_free(compact, lettered, segment);
    }
    if compact && crate::write::spec_letter_implied(state.prev_command, letter) {
        lemma_first_number_first(compact, lettered, segment);
        let t = segment.numbers[0];
        assert(display_number(t));
        lemma_compact_is_number(t);
        lemma_number_bytes(written_number(compact, t));
    }
}

/// The first byte of a segment written after a number ends that number.
proof fn lemma_next_segment_ends(compact: bool, state: WriterState, segment: SegmentTextView)
    requires
        writable_segment(segment),
        state.prev_number_has_dot is Some,
        state.out.len() > 0,
    ensures
        ends_number(
            crate::write::segment_step(compact, state, segment).out,
            state.out.len() as int,
            state.prev_number_has_dot == Some(true),
        ),
{
    let letter = segment.segment.spec_letter();
    let lettered = crate::write::letter_step(compact, state, letter);
    let done = crate::write::segment_step(compact, state, segment);
    lemma_letter_bytes(segment.segment);
    lemma_arguments_extend(compact, lettered, segment);
    if compact && crate::write::spec_letter_implied(state.prev_command, letter) {
        lemma_first_number_first(compact, lettered, segment);
        let t = segment.numbers[0];
        assert(display_number(t));
        lemma_number_first_byte(compact, lettered, t);
        let first = crate::write::number_step(compact, lettered, t);
        assert(done.out[state.out.len() as int] == first.out[state.out.len() as int]);
    } else {
        assert(done.out[state.out.len() as int] == lettered.out[state.out.len() as int]);
    }
}

proof fn lemma_write_prefix(compact: bool, segments: Seq<SegmentTextView>, k: int)
    requires
        0 <= k <= segments.len(),
        forall|m: int| 0 <= m < segments.len() ==> writable_segment(#[trigger] segments[m]),
    ensures
        prefix_of(
            crate::write::write_state(compact, segments.subrange(0, k)).out,
            crate::write::write_state(compact, segments).out,
        ),
    decreases segments.len(),
{
    if k == segments.len() {
        assert(segments.subrange(0, k) =~= segments);
    } else {
        let before = segments.drop_last();
        assert forall|m: int| 0 <= m < before.len() implies writable_segment(#[trigger] before[m]) by {
            assert(before[m] == segments[m]);
        }
        lemma_write_prefix(compact, before, k);
        assert(before.subrange(0, k) =~= segments.subrange(0, k));
        assert(writable_segment(segments[segments.len() - 1]));
        lemma_segment_extend(
            compact,
            crate::write::write_state(compact, before),
            segments.last(),
        );
    }
}

proof fn lemma_write_comma_free(compact: bool, segments: Seq<SegmentTextView>)
    requires
        forall|m: int| 0 <= m < segments.len() ==> writable_segment(#[trigger] segments[m]),
    ensures
        comma_free(crate::write::write_state(compact, segments).out),
    decreases segments.len(),
{
    if segments.len() > 0 {
        let before = segments.drop_last();
        assert forall|m: int| 0 <= m < before.len() implies writable_segment(#[trigger] before[m]) by {
            assert(before[m] == segments[m]);
        }
        lemma_write_comma_free(compact, before);
        assert(writable_segment(segments[segments.len() - 1]));
        lemma_segment_extend(
            compact,
            crate::write::write_state(compact, before),
            segments.last(),
        );
    }
}

/// Segments as the writer writes them: their numbers as written.
pub open spec fn written_segments(compact: bool, segments: Seq<SegmentTextView>) -> Seq<
    SegmentTextView,
> {
    Seq::new(segments.len(), |m: int| written_segment(compact, segments[m]))
}

/// Segments the writer can write so that they read back: each writable,
/// and the first a move, as SVG path data begins.
pub open spec fn writable_path(segments: Seq<SegmentTextView>) -> bool {
    &&& forall|m: int| 0 <= m < segments.len() ==> writable_segment(#[trigger] segments[m])
    &&& segments.len() > 0 ==> segments[0].segment.command == Command::MoveTo
}

/// In the writer's output, what follows segment `k` ends its last number.
proof fn lemma_segment_ends_in_path(compact: bool, segments: Seq<SegmentTextView>, k: int)
    requires
        writable_path(segments),
        0 <= k < segments.len(),
        segments[k].numbers.len() > 0,
    ensures
        ({
            let after = crate::write::write_state(compact, segments.subrange(0, k + 1));
            ends_number(
                crate::write::write_state(compact, segments).out,
                after.out.len() as int,
                after.prev_number_has_dot == Some(true),
            )
        }),
{
    let data = crate::write::write_state(compact, segments).out;
    let n = segments.len() as int;
    let state = crate::write::write_state(compact, segments.subrange(0, k));
    let after = crate::write::write_state(compact, segments.subrange(0, k + 1));
    assert(segments.subrange(0, k + 1).drop_last() =~= segments.subrange(0, k));
    assert(after == crate::write::segment_step(compact, state, segments[k]));
    assert(writable_segment(segments[k]));
    lemma_segment_extend(compact, state, segments[k]);
    lemma_write_prefix(compact, segments, k + 1);
    if k + 1 < n {
        let next = crate::write::write_state(compact, segments.subrange(0, k + 2));
        assert(segments.subrange(0, k + 2).drop_last() =~= segments.subrange(0, k + 1));
        assert(writable_segment(segments[k + 1]));
        lemma_write_prefix(compact, segments, k + 2);
        lemma_next_segment_ends(compact, after, segments[k + 1]);
        assert(next == crate::write::segment_step(compact, after, segments[k + 1]));
        lemma_segment_extend(compact, after, segments[k + 1]);
        assert(data[after.out.len() as int] == next.out[after.out.len() as int]);
    } else {
        assert(segments.subrange(0, k + 1) =~= segments);
    }
}

/// In the writer's output, segment `k` reads back.
proof fn lemma_read_segment_in_path(
    compact: bool,
    segments: Seq<SegmentTextView>,
    k: int,
    i: int,
    previous: Option<u8>,
)
    requires
        writable_path(segments),
        0 <= k < segments.len(),
        0 <= i,
        skip_spaces(crate::write::write_state(compact, segments).out, i) == skip_spaces(
            crate::write::write_state(compact, segments).out,
            crate::write::write_state(compact, segments.subrange(0, k)).out.len() as int,
        ),
        letters_agree(
            crate::write::write_state(compact, segments.subrange(0, k)).prev_command,
            previous,
        ),
        k > 0 ==> crate::write::write_state(compact, segments.subrange(0, k)).prev_command is Some,
    ensures
        ({
            let data = crate::write::write_state(compact, segments).out;
            let after = crate::write::write_state(compact, segments.subrange(0, k + 1));
            &&& skip_spaces(data, i) < after.out.len()
            &&& segment_reads_back(
                compact,
                data,
                crate::write::write_state(compact, segments.subrange(0, k)),
                segments[k],
                skip_spaces(data, i),
                previous,
            )
            &&& after == crate::write::segment_step(
                compact,
                crate::write::write_state(compact, segments.subrange(0, k)),
                segments[k],
            )
            &&& after.prev_command is Some
        }),
{
    let data = crate::write::write_state(compact, segments).out;
    let state = crate::write::write_state(compact, segments.subrange(0, k));
    let segment = segments[k];
    assert(writable_segment(segment));
    let after = crate::write::write_state(compact, segments.subrange(0, k + 1));
    assert(segments.subrange(0, k + 1).drop_last() =~= segments.subrange(0, k));
    assert(after == crate::write::segment_step(compact, state, segment));
    lemma_write_prefix(compact, segments, k + 1);
    lemma_write_comma_free(compact, segments);
    lemma_segment_extend(compact, state, segment);
    lemma_letter_bytes(segment.segment);
    if segment.numbers.len() > 0 {
        lemma_segment_ends_in_path(compact, segments, k);
    }
    if k == 0 {
        assert(segments.subrange(0, k) =~= Seq::<SegmentTextView>::empty());
        assert(state == crate::write::initial_state());
    }
    let letter = segment.segment.spec_letter();
    if compact && crate::write::spec_letter_implied(state.prev_command, letter) {
        assert(segment.numbers.len() > 0);
        lemma_read_unlettered_segment(data, state, segment, i, previous);
    } else {
        lemma_read_lettered_segment(compact, data, state, segment, i, previous);
    }
}

/// Reading the writer's output from where segment `k` was written gives
/// back the segments from `k` on.
proof fn lemma_read_from(
    compact: bool,
    segments: Seq<SegmentTextView>,
    k: int,
    i: int,
    previous: Option<u8>,
)
    requires
        writable_path(segments),
        0 <= k <= segments.len(),
        0 <= i,
        skip_spaces(crate::write::write_state(compact, segments).out, i) == skip_spaces(
            crate::write::write_state(compact, segments).out,
            crate::write::write_state(compact, segments.subrange(0, k)).out.len() as int,
        ),
        letters_agree(
            crate::write::write_state(compact, segments.subrange(0, k)).prev_command,
            previous,
        ),
        k > 0 ==> crate::write::write_state(compact, segments.subrange(0, k)).prev_command is Some,
    ensures
        read_path_from(crate::write::write_state(compact, segments).out, i, previous) == Some(
            written_segments(compact, segments.subrange(k, segments.len() as int)),
        ),
    decreases segments.len() - k,
{
    let data = crate::write::write_state(compact, segments).out;
    let n = segments.len() as int;
    let state = crate::write::write_state(compact, segments.subrange(0, k));
    lemma_write_prefix(compact, segments, k);
    lemma_skip_spaces(data, i);
    lemma_skip_spaces(data, state.out.len() as int);
    if k == n {
        assert(segments.subrange(0, k) =~= segments);
        assert(written_segments(compact, segments.subrange(k, n)) =~= Seq::<SegmentTextView>::empty());
    } else {
        lemma_read_segment_in_path(compact, segments, k, i, previous);
        lemma_write_prefix(compact, segments, k + 1);
        let s = skip_spaces(data, i);
        let (read, e, letter_next) = read_segment(data, s, previous)->0;
        lemma_skip_spaces(data, e);
        lemma_read_from(compact, segments, k + 1, e, Some(letter_next));
        assert(written_segments(compact, segments.subrange(k, n)) =~= seq![
            written_segment(compact, segments[k]),
        ] + written_segments(compact, segments.subrange(k + 1, n)));
    }
}

/// What the writer writes reads back as the segments it was given: with
/// the default options exactly, and in compact form with each number
/// without its leading zero, as compact output writes it. Letters that
/// compact output leaves out are the ones SVG implies, so the segments keep
/// their commands.
pub proof fn written_path_reads_back(options: WriteOptions, segments: Seq<SegmentTextView>)
    requires
        writable_path(segments),
    ensures
        read_path(spec_write_path(options, segments)) == Some(
            written_segments(options.compact, segments),
        ),
        !options.compact ==> read_path(spec_write_path(options, segments)) == Some(segments),
{
    assert(segments.subrange(0, 0) =~= Seq::<SegmentTextView>::empty());
    assert(segments.subrange(0, segments.len() as int) =~= segments);
    lemma_read_from(options.compact, segments, 0, 0, None);
    if !options.compact {
        assert forall|m: int| 0 <= m < segments.len() implies #[trigger] written_segments(
            false,
            segments,
        )[m] == segments[m] by {
            assert(written_segments(false, segments)[m].numbers =~= segments[m].numbers);
        }
        assert(written_segments(false, segments) =~= segments);
    }
}

} // verus!
