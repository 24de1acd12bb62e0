//! Writing path data: command letters, numbers and arc flags, spaced as
//! SVG reads them, with an optional compact form.
use vstd::prelude::*;

use crate::command::{Command, Segment};

verus! {

pub const SPACE: u8 = 32;
pub const DOT: u8 = 46;
pub const MINUS: u8 = 45;
pub const ZERO: u8 = 48;
pub const ONE: u8 = 49;
pub const LETTER_UPPER_M: u8 = 77;
pub const LETTER_LOWER_M: u8 = 109;
pub const LETTER_UPPER_L: u8 = 76;
pub const LETTER_LOWER_L: u8 = 108;
pub const LETTER_UPPER_Z: u8 = 90;
pub const LETTER_LOWER_Z: u8 = 122;

/// Options for [`write_path`].
///
/// The default writes every number as it is, with a space after each command
/// and between numbers: `M 10 10 L 20.5 20`.
#[derive(Clone, Copy, Debug, PartialEq, Eq, Structural)]
pub struct WriteOptions {
    /// Round numbers to this many decimal places. `None` writes them unrounded.
    /// The rounding is done where numbers are turned into text, before they
    /// reach the writer.
    pub precision: Option<u8>,
    /// Write the shortest equivalent path data: no space after a command,
    /// separators between numbers only where needed, no leading zeros, and no
    /// command letter where SVG implies it, as in `M10 10l.5-5 2 0`.
    pub compact: bool,
}

impl Default for WriteOptions {
    fn default() -> (options: Self)
        ensures
            options.precision == None::<u8>,
            !options.compact,
    {
        WriteOptions { precision: None, compact: false }
    }
}

/// A path segment ready to be written: its command and its numbers, each
/// already turned into text, and for an arc its two flags.
#[derive(Clone, Debug)]
pub struct SegmentText {
    pub segment: Segment,
    pub numbers: Vec<Vec<u8>>,
    pub large_arc: bool,
    pub sweep: bool,
}

/// The mathematical content of a [`SegmentText`].
pub struct SegmentTextView {
    pub segment: Segment,
    pub numbers: Seq<Seq<u8>>,
    pub large_arc: bool,
    pub sweep: bool,
}

impl View for SegmentText {
    type V = SegmentTextView;

    open spec fn view(&self) -> SegmentTextView {
        SegmentTextView {
            segment: self.segment,
            numbers: Seq::new(self.numbers.len() as nat, |i: int| self.numbers[i]@),
            large_arc: self.large_arc,
            sweep: self.sweep,
        }
    }
}

impl SegmentTextView {
    /// As many numbers as the command takes.
    pub open spec fn well_formed(self) -> bool {
        self.numbers.len() == self.segment.command.spec_arity()
    }

    pub open spec fn is_arc(self) -> bool {
        self.segment.command == Command::EllipticalArc
    }
}

pub open spec fn all_well_formed(segments: Seq<SegmentTextView>) -> bool {
    forall|i: int| 0 <= i < segments.len() ==> #[trigger] segments[i].well_formed()
}

/// What a writer has written so far, and what it remembers of it.
pub struct WriterState {
    pub out: Seq<u8>,
    pub prev_command: Option<u8>,
    /// Whether the last token written was a number, and if so whether it
    /// contained a decimal point.
    pub prev_number_has_dot: Option<bool>,
}

pub open spec fn initial_state() -> WriterState {
    WriterState { out: Seq::empty(), prev_command: None, prev_number_has_dot: None }
}

/// Whether compact output can leave out `command`'s letter after a segment
/// with `previous`: SVG repeats the previous command, and reads coordinates
/// after a move as lines. Moves and close paths always need their letter.
pub open spec fn spec_letter_implied(previous: Option<u8>, command: u8) -> bool {
    if command == LETTER_UPPER_M || command == LETTER_LOWER_M || command == LETTER_UPPER_Z
        || command == LETTER_LOWER_Z {
        false
    } else if (previous == Some(LETTER_UPPER_M) && command == LETTER_UPPER_L) || (previous == Some(
        LETTER_LOWER_M,
    ) && command == LETTER_LOWER_L) {
        true
    } else {
        previous == Some(command)
    }
}

pub open spec fn starts_with(text: Seq<u8>, prefix: Seq<u8>) -> bool {
    prefix.len() <= text.len() && text.subrange(0, prefix.len() as int) == prefix
}

/// A number's text without its leading zero: `0.5` as `.5`, `-0.5` as
/// `-.5`.
pub open spec fn spec_compact_number(text: Seq<u8>) -> Seq<u8> {
    if starts_with(text, seq![ZERO, DOT]) {
        text.subrange(1, text.len() as int)
    } else if starts_with(text, seq![MINUS, ZERO, DOT]) {
        seq![MINUS] + text.subrange(2, text.len() as int)
    } else {
        text
    }
}

/// Whether compact output needs a space before `text`: after a number,
/// unless a sign, or a second decimal point, already ends that number.
pub open spec fn spec_needs_separator(prev_number_has_dot: Option<bool>, text: Seq<u8>) -> bool {
    match prev_number_has_dot {
        None => false,
        Some(prev_has_dot) => !(starts_with(text, seq![MINUS]) || (prev_has_dot && starts_with(
            text,
            seq![DOT],
        ))),
    }
}

/// The state after writing the number `text`.
pub open spec fn number_step(compact: bool, state: WriterState, text: Seq<u8>) -> WriterState {
    let written = if compact {
        spec_compact_number(text)
    } else {
        text
    };
    let separator = if !compact || spec_needs_separator(state.prev_number_has_dot, written) {
        seq![SPACE]
    } else {
        Seq::empty()
    };
    WriterState {
        out: state.out + separator + written,
        prev_command: state.prev_command,
        prev_number_has_dot: Some(written.contains(DOT)),
    }
}

/// The state after writing the numbers `texts` in order.
pub open spec fn numbers_step(compact: bool, state: WriterState, texts: Seq<Seq<u8>>) -> WriterState
    decreases texts.len(),
{
    if texts.len() == 0 {
        state
    } else {
        number_step(compact, numbers_step(compact, state, texts.drop_last()), texts.last())
    }
}

pub open spec fn flag_byte(on: bool) -> u8 {
    if on {
        ONE
    } else {
        ZERO
    }
}

/// The state after writing an arc's two flags: a space before them, one
/// between them unless compact, and none after them.
pub open spec fn flags_step(compact: bool, state: WriterState, large_arc: bool, sweep: bool) -> WriterState {
    let between = if compact {
        Seq::empty()
    } else {
        seq![SPACE]
    };
    WriterState {
        out: state.out + seq![SPACE, flag_byte(large_arc)] + between + seq![flag_byte(sweep)],
        prev_command: state.prev_command,
        prev_number_has_dot: None,
    }
}

/// The state after writing a command's letter, or leaving it out where
/// compact output may.
pub open spec fn letter_step(compact: bool, state: WriterState, letter: u8) -> WriterState {
    let repeats = spec_letter_implied(state.prev_command, letter);
    if !compact || !repeats {
        let separator = if !compact && state.out.len() > 0 {
            seq![SPACE]
        } else {
            Seq::empty()
        };
        WriterState {
            out: state.out + separator + seq![letter],
            prev_command: Some(letter),
            prev_number_has_dot: None,
        }
    } else {
        WriterState {
            out: state.out,
            prev_command: Some(letter),
            prev_number_has_dot: state.prev_number_has_dot,
        }
    }
}

/// The state after writing a whole segment.
pub open spec fn segment_step(compact: bool, state: WriterState, segment: SegmentTextView) -> WriterState {
    let lettered = letter_step(compact, state, segment.segment.spec_letter());
    if segment.is_arc() {
        let before = numbers_step(compact, lettered, segment.numbers.subrange(0, 3));
        let flagged = flags_step(compact, before, segment.large_arc, segment.sweep);
        numbers_step(compact, flagged, segment.numbers.subrange(3, segment.numbers.len() as int))
    } else {
        numbers_step(compact, lettered, segment.numbers)
    }
}

/// The state after writing `segments` in order.
pub open spec fn write_state(compact: bool, segments: Seq<SegmentTextView>) -> WriterState
    decreases segments.len(),
{
    if segments.len() == 0 {
        initial_state()
    } else {
        segment_step(compact, write_state(compact, segments.drop_last()), segments.last())
    }
}

/// The path data that writing `segments` gives.
pub open spec fn spec_write_path(options: WriteOptions, segments: Seq<SegmentTextView>) -> Seq<u8> {
    write_state(options.compact, segments).out
}

/// Whether compact output can leave out `command`'s letter after a segment
/// with `previous`: SVG repeats the previous command, and reads coordinates
/// after a move as lines. Moves and close paths always need their letter.
pub fn letter_implied(previous: Option<u8>, command: u8) -> (implied: bool)
    ensures
        implied == spec_letter_implied(previous, command),
        command == LETTER_UPPER_M || command == LETTER_LOWER_M || command == LETTER_UPPER_Z
            || command == LETTER_LOWER_Z ==> !implied,
{
    if command == LETTER_UPPER_M || command == LETTER_LOWER_M || command == LETTER_UPPER_Z
        || command == LETTER_LOWER_Z {
        false
    } else if (previous == Some(LETTER_UPPER_M) && command == LETTER_UPPER_L) || (previous == Some(
        LETTER_LOWER_M,
    ) && command == LETTER_LOWER_L) {
        true
    } else {
        match previous {
            Some(p) => p == command,
            None => false,
        }
    }
}

fn push_all(out: &mut Vec<u8>, text: &Vec<u8>)
    ensures
        final(out)@ == old(out)@ + text@,
{
    let mut i: usize = 0;
    while i < text.len()
        invariant
            i <= text.len(),
            out@ == old(out)@ + text@.subrange(0, i as int),
        decreases text.len() - i,
    {
        out.push(text[i]);
        i += 1;
        assert(text@.subrange(0, i as int) == text@.subrange(0, i - 1) + seq![text@[i - 1]]);
    }
    assert(text@.subrange(0, text.len() as int) == text@);
}

fn has_prefix(text: &Vec<u8>, a: u8, b: u8, c: u8, n: usize) -> (found: bool)
    requires
        1 <= n <= 3,
    ensures
        found == starts_with(text@, seq![a, b, c].subrange(0, n as int)),
{
    let found = text.len() >= n && text[0] == a && (n < 2 || text[1] == b) && (n < 3 || text[2]
        == c);
    proof {
        let prefix = seq![a, b, c].subrange(0, n as int);
        if found {
            assert(text@.subrange(0, n as int) =~= prefix);
        }
        if text.len() >= n && text@.subrange(0, n as int) == prefix {
            assert(text@[0] == text@.subrange(0, n as int)[0]);
            if n >= 2 {
                assert(text@[1] == text@.subrange(0, n as int)[1]);
            }
            if n >= 3 {
                assert(text@[2] == text@.subrange(0, n as int)[2]);
            }
        }
    }
    found
}

/// A number's text without its leading zero: `0.5` as `.5`, `-0.5` as
/// `-.5`. Other numbers are kept as they are.
pub fn compact_number(text: &Vec<u8>) -> (compacted: Vec<u8>)
    ensures
        compacted@ == spec_compact_number(text@),
{
    let mut out: Vec<u8> = Vec::new();
    if has_prefix(text, ZERO, DOT, DOT, 2) {
        let mut i: usize = 1;
        while i < text.len()
            invariant
                1 <= i <= text.len(),
                out@ == text@.subrange(1, i as int),
            decreases text.len() - i,
        {
            out.push(text[i]);
            i += 1;
            assert(text@.subrange(1, i as int) == text@.subrange(1, i - 1) + seq![text@[i - 1]]);
        }
        assert(seq![ZERO, DOT, DOT].subrange(0, 2) =~= seq![ZERO, DOT]);
    } else if has_prefix(text, MINUS, ZERO, DOT, 3) {
        out.push(MINUS);
        let mut i: usize = 2;
        while i < text.len()
            invariant
                2 <= i <= text.len(),
                out@ == seq![MINUS] + text@.subrange(2, i as int),
            decreases text.len() - i,
        {
            out.push(text[i]);
            i += 1;
            assert(text@.subrange(2, i as int) == text@.subrange(2, i - 1) + seq![text@[i - 1]]);
        }
        assert(seq![ZERO, DOT, DOT].subrange(0, 2) =~= seq![ZERO, DOT]);
        assert(seq![MINUS, ZERO, DOT].subrange(0, 3) =~= seq![MINUS, ZERO, DOT]);
    } else {
        push_all(&mut out, text);
        assert(seq![ZERO, DOT, DOT].subrange(0, 2) =~= seq![ZERO, DOT]);
        assert(seq![MINUS, ZERO, DOT].subrange(0, 3) =~= seq![MINUS, ZERO, DOT]);
        assert(out@ =~= text@);
    }
    out
}

fn contains_byte(text: &Vec<u8>, byte: u8) -> (found: bool)
    ensures
        found == text@.contains(byte),
{
    let mut i: usize = 0;
    while i < text.len()
        invariant
            i <= text.len(),
            forall|j: int| 0 <= j < i ==> text@[j] != byte,
        decreases text.len() - i,
    {
        if text[i] == byte {
            return true;
        }
        i += 1;
    }
    false
}

/// Writes path segments as SVG path data, one segment at a time.
pub struct PathWriter {
    pub options: WriteOptions,
    pub out: Vec<u8>,
    pub prev_command: Option<u8>,
    /// Whether the last token written was a number, and if so whether it
    /// contained a decimal point.
    pub prev_number_has_dot: Option<bool>,
}

impl PathWriter {
    /// What the writer has written and remembers.
    pub open spec fn state(&self) -> WriterState {
        WriterState {
            out: self.out@,
            prev_command: self.prev_command,
            prev_number_has_dot: self.prev_number_has_dot,
        }
    }

    /// A writer that has written nothing yet.
    pub fn new(options: WriteOptions) -> (writer: Self)
        ensures
            writer.state() == initial_state(),
            writer.options == options,
    {
        PathWriter { options, out: Vec::new(), prev_command: None, prev_number_has_dot: None }
    }

    /// Writes an arc's flags. Compact output needs no separator between the
    /// flags or after them, since each is a single `0` or `1`, but still one
    /// before them, or the first flag would read as more digits of the
    /// rotation.
    pub fn flags(&mut self, large_arc: bool, sweep: bool)
        ensures
            final(self).state() == flags_step(old(self).options.compact, old(self).state(), large_arc, sweep),
            final(self).options == old(self).options,
    {
        let large = if large_arc {
            ONE
        } else {
            ZERO
        };
        let swept = if sweep {
            ONE
        } else {
            ZERO
        };
        self.out.push(SPACE);
        self.out.push(large);
        if !self.options.compact {
            self.out.push(SPACE);
        }
        self.out.push(swept);
        // In compact output the next number follows the flag directly
        self.prev_number_has_dot = None;
        proof {
            let st = old(self).state();
            if old(self).options.compact {
                assert(self.out@ =~= st.out + seq![SPACE, flag_byte(large_arc)] + Seq::<u8>::empty() + seq![flag_byte(sweep)]);
            } else {
                assert(self.out@ =~= st.out + seq![SPACE, flag_byte(large_arc)] + seq![SPACE] + seq![flag_byte(sweep)]);
            }
        }
    }

    /// Writes one number, given as the text of its value.
    pub fn number(&mut self, text: &Vec<u8>)
        ensures
            final(self).state() == number_step(old(self).options.compact, old(self).state(), text@),
            final(self).options == old(self).options,
    {
        let written = if self.options.compact {
            compact_number(text)
        } else {
            text.clone()
        };
        assert(written@ =~= if self.options.compact {
            spec_compact_number(text@)
        } else {
            text@
        });
        if self.options.compact {
            let starts_minus = has_prefix(&written, MINUS, MINUS, MINUS, 1);
            let starts_dot = has_prefix(&written, DOT, DOT, DOT, 1);
            let needs_separator = match self.prev_number_has_dot {
                None => false,
                Some(prev_has_dot) => !(starts_minus || (prev_has_dot && starts_dot)),
            };
            proof {
                assert(seq![MINUS, MINUS, MINUS].subrange(0, 1) =~= seq![MINUS]);
                assert(seq![DOT, DOT, DOT].subrange(0, 1) =~= seq![DOT]);
            }
            if needs_separator {
                self.out.push(SPACE);
            }
        } else {
            self.out.push(SPACE);
        }
        let has_dot = contains_byte(&written, DOT);
        self.prev_number_has_dot = Some(has_dot);
        let ghost mid = self.out@;
        push_all(&mut self.out, &written);
        proof {
            let st = old(self).state();
            if old(self).options.compact {
                if spec_needs_separator(st.prev_number_has_dot, written@) {
                    assert(mid =~= st.out + seq![SPACE]);
                } else {
                    assert(mid =~= st.out + Seq::<u8>::empty());
                }
            } else {
                assert(mid =~= st.out + seq![SPACE]);
            }
        }
    }

    /// Writes the numbers `texts[from..to]` in order.
    fn numbers(&mut self, texts: &Vec<Vec<u8>>, from: usize, to: usize)
        requires
            from <= to <= texts.len(),
        ensures
            final(self).state() == numbers_step(
                old(self).options.compact,
                old(self).state(),
                Seq::new(texts.len() as nat, |i: int| texts[i]@).subrange(from as int, to as int),
            ),
            final(self).options == old(self).options,
    {
        let ghost all = Seq::new(texts.len() as nat, |i: int| texts[i]@);
        let mut i = from;
        while i < to
            invariant
                from <= i <= to <= texts.len(),
                all == Seq::new(texts.len() as nat, |i: int| texts[i]@),
                self.options == old(self).options,
                self.state() == numbers_step(
                    old(self).options.compact,
                    old(self).state(),
                    all.subrange(from as int, i as int),
                ),
            decreases to - i,
        {
            self.number(&texts[i]);
            proof {
                let next = all.subrange(from as int, i + 1);
                assert(next.drop_last() =~= all.subrange(from as int, i as int));
                assert(next.last() == texts[i as int]@);
            }
            i += 1;
        }
    }

    /// Writes one segment: its letter, unless compact output may leave it
    /// out, then its numbers, with an arc's flags after its third number.
    pub fn segment(&mut self, segment: &SegmentText)
        requires
            segment@.well_formed(),
        ensures
            final(self).state() == segment_step(old(self).options.compact, old(self).state(), segment@),
            final(self).options == old(self).options,
    {
        let command = segment.segment.letter();
        let repeats = letter_implied(self.prev_command, command);

        if !self.options.compact || !repeats {
            if !self.options.compact && self.out.len() > 0 {
                self.out.push(SPACE);
            }
            self.out.push(command);
            self.prev_number_has_dot = None;
        }
        self.prev_command = Some(command);
        proof {
            let st = old(self).state();
            if !old(self).options.compact || !repeats {
                if !old(self).options.compact && st.out.len() > 0 {
                    assert(self.out@ =~= st.out + seq![SPACE] + seq![command]);
                } else {
                    assert(self.out@ =~= st.out + Seq::<u8>::empty() + seq![command]);
                }
            }
        }
        let ghost lettered = self.state();
        assert(lettered == letter_step(old(self).options.compact, old(self).state(), command));

        let ghost all = Seq::new(segment.numbers.len() as nat, |i: int| segment.numbers[i]@);
        if matches!(segment.segment.command, Command::EllipticalArc) {
            self.numbers(&segment.numbers, 0, 3);
            self.flags(segment.large_arc, segment.sweep);
            self.numbers(&segment.numbers, 3, segment.numbers.len());
        } else {
            self.numbers(&segment.numbers, 0, segment.numbers.len());
            assert(all.subrange(0, all.len() as int) =~= all);
        }
    }
}

/// Writes path segments as SVG path data, each number given as the text of
/// its value.
pub fn write_path(segments: &Vec<SegmentText>, options: &WriteOptions) -> (data: Vec<u8>)
    requires
        forall|i: int| 0 <= i < segments.len() ==> #[trigger] segments[i]@.well_formed(),
    ensures
        data@ == spec_write_path(*options, Seq::new(segments.len() as nat, |i: int| segments[i]@)),
{
    let ghost all = Seq::new(segments.len() as nat, |i: int| segments[i]@);
    let mut writer = PathWriter::new(*options);
    let mut i: usize = 0;
    while i < segments.len()
        invariant
            i <= segments.len(),
            all == Seq::new(segments.len() as nat, |i: int| segments[i]@),
            forall|i: int| 0 <= i < segments.len() ==> #[trigger] segments[i]@.well_formed(),
            writer.options == *options,
            writer.state() == write_state(options.compact, all.subrange(0, i as int)),
        decreases segments.len() - i,
    {
        writer.segment(&segments[i]);
        proof {
            let next = all.subrange(0, i + 1);
            assert(next.drop_last() =~= all.subrange(0, i as int));
            assert(next.last() == segments[i as int]@);
        }
        i += 1;
    }
    assert(all.subrange(0, segments.len() as int) =~= all);
    writer.out
}


/// The tokens a segment is written as: its letter, then its numbers, with
/// an arc's flags as two tokens of their own after its third number.
pub open spec fn segment_tokens(segment: SegmentTextView) -> Seq<Seq<u8>> {
    let letter = seq![seq![segment.segment.spec_letter()]];
    if segment.is_arc() {
        letter + segment.numbers.subrange(0, 3) + seq![
            seq![flag_byte(segment.large_arc)],
            seq![flag_byte(segment.sweep)],
        ] + segment.numbers.subrange(3, segment.numbers.len() as int)
    } else {
        letter + segment.numbers
    }
}

/// The tokens of all `segments`, in order.
pub open spec fn path_tokens(segments: Seq<SegmentTextView>) -> Seq<Seq<u8>>
    decreases segments.len(),
{
    if segments.len() == 0 {
        Seq::empty()
    } else {
        path_tokens(segments.drop_last()) + segment_tokens(segments.last())
    }
}

/// `tokens` with a single space between each two.
pub open spec fn join_with_spaces(tokens: Seq<Seq<u8>>) -> Seq<u8>
    decreases tokens.len(),
{
    if tokens.len() == 0 {
        Seq::empty()
    } else if tokens.len() == 1 {
        tokens[0]
    } else {
        join_with_spaces(tokens.drop_last()) + seq![SPACE] + tokens.last()
    }
}

proof fn lemma_join_push(tokens: Seq<Seq<u8>>, token: Seq<u8>)
    requires
        tokens.len() > 0,
    ensures
        join_with_spaces(tokens.push(token)) == join_with_spaces(tokens) + seq![SPACE] + token,
{
    assert(tokens.push(token).drop_last() =~= tokens);
}

proof fn lemma_join_nonempty(tokens: Seq<Seq<u8>>)
    requires
        tokens.len() > 0,
        tokens[0].len() > 0,
    ensures
        join_with_spaces(tokens).len() > 0,
    decreases tokens.len(),
{
    if tokens.len() > 1 {
        lemma_join_nonempty(tokens.drop_last());
    }
}

proof fn lemma_default_numbers(state: WriterState, tokens: Seq<Seq<u8>>, texts: Seq<Seq<u8>>)
    requires
        tokens.len() > 0,
        state.out == join_with_spaces(tokens),
    ensures
        numbers_step(false, state, texts).out == join_with_spaces(tokens + texts),
    decreases texts.len(),
{
    if texts.len() == 0 {
        assert(tokens + texts =~= tokens);
    } else {
        lemma_default_numbers(state, tokens, texts.drop_last());
        lemma_join_push(tokens + texts.drop_last(), texts.last());
        assert((tokens + texts.drop_last()).push(texts.last()) =~= tokens + texts);
    }
}

proof fn lemma_default_segment(state: WriterState, tokens: Seq<Seq<u8>>, segment: SegmentTextView)
    requires
        state.out == join_with_spaces(tokens),
        tokens.len() == 0 || tokens[0].len() == 1,
        segment.well_formed(),
    ensures
        segment_step(false, state, segment).out == join_with_spaces(tokens + segment_tokens(segment)),
{
    let letter = segment.segment.spec_letter();
    let lettered = letter_step(false, state, letter);
    let with_letter = tokens.push(seq![letter]);
    if tokens.len() == 0 {
        assert(state.out.len() == 0);
        assert(lettered.out =~= seq![letter]);
        assert(with_letter =~= seq![seq![letter]]);
    } else {
        lemma_join_nonempty(tokens);
        lemma_join_push(tokens, seq![letter]);
    }
    assert(lettered.out == join_with_spaces(with_letter));
    if segment.is_arc() {
        let first = segment.numbers.subrange(0, 3);
        let rest = segment.numbers.subrange(3, segment.numbers.len() as int);
        let before = numbers_step(false, lettered, first);
        lemma_default_numbers(lettered, with_letter, first);
        let flagged = flags_step(false, before, segment.large_arc, segment.sweep);
        let t1 = (with_letter + first).push(seq![flag_byte(segment.large_arc)]);
        let t2 = t1.push(seq![flag_byte(segment.sweep)]);
        lemma_join_push(with_letter + first, seq![flag_byte(segment.large_arc)]);
        lemma_join_push(t1, seq![flag_byte(segment.sweep)]);
        assert(flagged.out =~= join_with_spaces(t2));
        lemma_default_numbers(flagged, t2, rest);
        assert(t2 + rest =~= tokens + segment_tokens(segment));
    } else {
        lemma_default_numbers(lettered, with_letter, segment.numbers);
        assert(with_letter + segment.numbers =~= tokens + segment_tokens(segment));
    }
}

proof fn lemma_tokens_start_with_letter(segments: Seq<SegmentTextView>)
    ensures
        path_tokens(segments).len() == 0 || path_tokens(segments)[0].len() == 1,
        path_tokens(segments).len() == 0 <==> segments.len() == 0,
    decreases segments.len(),
{
    if segments.len() > 0 {
        lemma_tokens_start_with_letter(segments.drop_last());
        let before = path_tokens(segments.drop_last());
        let own = segment_tokens(segments.last());
        assert(own[0] == seq![segments.last().segment.spec_letter()]);
        if before.len() == 0 {
            assert(path_tokens(segments)[0] == own[0]);
        } else {
            assert(path_tokens(segments)[0] == before[0]);
        }
    }
}

/// Without compact output, path data is the letters, numbers and arc flags
/// of the segments in order, with one space between each two.
pub proof fn default_output_is_spaced(options: WriteOptions, segments: Seq<SegmentTextView>)
    requires
        !options.compact,
        all_well_formed(segments),
    ensures
        spec_write_path(options, segments) == join_with_spaces(path_tokens(segments)),
    decreases segments.len(),
{
    if segments.len() > 0 {
        let before = segments.drop_last();
        assert(all_well_formed(before)) by {
            assert forall|i: int| 0 <= i < before.len() implies #[trigger] before[i].well_formed() by {
                assert(before[i] == segments[i]);
            }
        }
        default_output_is_spaced(options, before);
        lemma_tokens_start_with_letter(before);
        assert(segments.last().well_formed()) by {
            assert(segments[segments.len() - 1].well_formed());
        }
        lemma_default_segment(write_state(false, before), path_tokens(before), segments.last());
    }
}

proof fn lemma_compact_number_shorter(text: Seq<u8>)
    ensures
        spec_compact_number(text).len() <= text.len(),
{
}

proof fn lemma_numbers_shorter(a: WriterState, b: WriterState, texts: Seq<Seq<u8>>)
    requires
        a.out.len() <= b.out.len(),
    ensures
        numbers_step(true, a, texts).out.len() <= numbers_step(false, b, texts).out.len(),
    decreases texts.len(),
{
    if texts.len() > 0 {
        lemma_numbers_shorter(a, b, texts.drop_last());
        lemma_compact_number_shorter(texts.last());
    }
}

proof fn lemma_segment_shorter(a: WriterState, b: WriterState, segment: SegmentTextView)
    requires
        a.out.len() <= b.out.len(),
    ensures
        segment_step(true, a, segment).out.len() <= segment_step(false, b, segment).out.len(),
{
    let letter = segment.segment.spec_letter();
    let la = letter_step(true, a, letter);
    let lb = letter_step(false, b, letter);
    if segment.is_arc() {
        let first = segment.numbers.subrange(0, 3);
        let rest = segment.numbers.subrange(3, segment.numbers.len() as int);
        lemma_numbers_shorter(la, lb, first);
        let fa = flags_step(true, numbers_step(true, la, first), segment.large_arc, segment.sweep);
        let fb = flags_step(false, numbers_step(false, lb, first), segment.large_arc, segment.sweep);
        lemma_numbers_shorter(fa, fb, rest);
    } else {
        lemma_numbers_shorter(la, lb, segment.numbers);
    }
}

/// Compact output is never longer than the default output of the same
/// segments.
pub proof fn compact_output_is_not_longer(
    compact: WriteOptions,
    default: WriteOptions,
    segments: Seq<SegmentTextView>,
)
    requires
        compact.compact,
        !default.compact,
    ensures
        spec_write_path(compact, segments).len() <= spec_write_path(default, segments).len(),
    decreases segments.len(),
{
    if segments.len() > 0 {
        compact_output_is_not_longer(compact, default, segments.drop_last());
        lemma_segment_shorter(
            write_state(true, segments.drop_last()),
            write_state(false, segments.drop_last()),
            segments.last(),
        );
    }
}

proof fn lemma_numbers_step_grows(compact: bool, state: WriterState, texts: Seq<Seq<u8>>)
    ensures
        numbers_step(compact, state, texts).out.len() >= state.out.len(),
    decreases texts.len(),
{
    if texts.len() > 0 {
        lemma_numbers_step_grows(compact, state, texts.drop_last());
    }
}

/// Writing a segment only adds to what was written.
pub proof fn lemma_segment_step_grows(compact: bool, state: WriterState, segment: SegmentTextView)
    ensures
        segment_step(compact, state, segment).out.len() >= state.out.len(),
{
    let lettered = letter_step(compact, state, segment.segment.spec_letter());
    if segment.is_arc() {
        let before = numbers_step(compact, lettered, segment.numbers.subrange(0, 3));
        lemma_numbers_step_grows(compact, lettered, segment.numbers.subrange(0, 3));
        let flagged = flags_step(compact, before, segment.large_arc, segment.sweep);
        lemma_numbers_step_grows(
            compact,
            flagged,
            segment.numbers.subrange(3, segment.numbers.len() as int),
        );
    } else {
        lemma_numbers_step_grows(compact, lettered, segment.numbers);
    }
}

} // verus!
