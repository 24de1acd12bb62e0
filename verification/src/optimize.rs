//! The choices path data optimization makes that need no coordinates: how
//! far to round, which candidate writes shortest, and which subpaths draw.
use vstd::prelude::*;

use crate::command::{Command, Segment};
use crate::subpaths::{spec_subpath_ranges, subpath_ranges, subpath_ranges_partition};
use crate::write::{
    initial_state, segment_step, PathWriter, SegmentText, SegmentTextView, WriteOptions, WriterState,
    DOT,
};

verus! {

/// How many digits follow the first decimal point of a number's text.
pub open spec fn fraction_len(text: Seq<u8>) -> nat
    decreases text.len(),
{
    if text.len() == 0 {
        0
    } else if text[0] == DOT {
        (text.len() - 1) as nat
    } else {
        fraction_len(text.drop_first())
    }
}

/// The most digits after the decimal point that any of `texts` has.
pub open spec fn most_fraction_len(texts: Seq<Seq<u8>>) -> nat
    decreases texts.len(),
{
    if texts.len() == 0 {
        0
    } else {
        let rest = most_fraction_len(texts.drop_last());
        let last = fraction_len(texts.last());
        if last > rest {
            last
        } else {
            rest
        }
    }
}

/// The decimal places of the numbers `texts`, as many as `u8` holds.
pub open spec fn spec_decimal_places(texts: Seq<Seq<u8>>) -> u8 {
    if most_fraction_len(texts) > 255 {
        255
    } else {
        most_fraction_len(texts) as u8
    }
}

fn fraction_length(text: &Vec<u8>) -> (n: usize)
    ensures
        n == fraction_len(text@),
{
    let mut i: usize = 0;
    assert(text@.subrange(0, text.len() as int) =~= text@);
    while i < text.len()
        invariant
            i <= text.len(),
            fraction_len(text@) == fraction_len(text@.subrange(i as int, text.len() as int)),
        decreases text.len() - i,
    {
        let ghost rest = text@.subrange(i as int, text.len() as int);
        if text[i] == DOT {
            return text.len() - 1 - i;
        }
        assert(rest.drop_first() =~= text@.subrange(i + 1, text.len() as int));
        i += 1;
    }
    0
}

/// The most decimal places any number, given as its text, is written with,
/// as many as `u8` holds. Sums and differences of such numbers need no
/// more, so rounding to it only removes float noise.
pub fn decimal_places(texts: &Vec<Vec<u8>>) -> (places: u8)
    ensures
        places == spec_decimal_places(Seq::new(texts.len() as nat, |i: int| texts[i]@)),
{
    let ghost all = Seq::new(texts.len() as nat, |i: int| texts[i]@);
    let mut most: usize = 0;
    let mut k: usize = 0;
    while k < texts.len()
        invariant
            k <= texts.len(),
            all == Seq::new(texts.len() as nat, |i: int| texts[i]@),
            most == most_fraction_len(all.subrange(0, k as int)),
        decreases texts.len() - k,
    {
        let n = fraction_length(&texts[k]);
        proof {
            let next = all.subrange(0, k + 1);
            assert(next.drop_last() =~= all.subrange(0, k as int));
            assert(next.last() == texts[k as int]@);
        }
        if n > most {
            most = n;
        }
        k += 1;
    }
    assert(all.subrange(0, texts.len() as int) =~= all);
    if most > 255 {
        255
    } else {
        most as u8
    }
}

/// Rounds coordinates to a number of decimal places: the precision asked
/// for, or the input's own when there is none.
#[derive(Clone, Copy, Debug, PartialEq, Eq, Structural)]
pub struct Rounder {
    pub places: u8,
    /// Whether the places came from the caller. Without that, rounding only
    /// clears float noise and no point may move at all.
    pub requested: bool,
}

impl Rounder {
    /// Rounds to `precision` when there is one, and otherwise to the most
    /// decimal places the path's numbers, given as their texts, are written
    /// with.
    pub fn new(precision: Option<u8>, texts: &Vec<Vec<u8>>) -> (rounder: Self)
        ensures
            rounder.requested == (precision is Some),
            rounder.places == match precision {
                Some(places) => places,
                None => spec_decimal_places(Seq::new(texts.len() as nat, |i: int| texts[i]@)),
            },
    {
        match precision {
            Some(places) => Rounder { places, requested: true },
            None => Rounder { places: decimal_places(texts), requested: false },
        }
    }

    /// The options that write rounded segments as compactly as possible.
    pub fn write_options(self) -> (options: WriteOptions)
        ensures
            options.precision == Some(self.places),
            options.compact,
    {
        WriteOptions { precision: Some(self.places), compact: true }
    }
}

/// The first of the candidates with the lowest cost, as
/// `Iterator::min_by_key` picks it.
pub fn cheapest(costs: &Vec<usize>) -> (best: usize)
    requires
        costs.len() > 0,
    ensures
        best < costs.len(),
        forall|j: int| 0 <= j < costs.len() ==> costs[best as int] <= costs[j],
        forall|j: int| 0 <= j < best ==> costs[best as int] < costs[j],
{
    let mut best: usize = 0;
    let mut j: usize = 1;
    while j < costs.len()
        invariant
            1 <= j <= costs.len(),
            best < j,
            forall|m: int| 0 <= m < j ==> costs[best as int] <= costs[m],
            forall|m: int| 0 <= m < best ==> costs[best as int] < costs[m],
        decreases costs.len() - j,
    {
        if costs[j] < costs[best] {
            best = j;
        }
        j += 1;
    }
    best
}

/// Whether the subpath that holds the segment at `i` draws something of
/// non-zero length.
pub open spec fn spec_subpath_draws(segments: Seq<Segment>, zero_length: Seq<bool>, i: int) -> bool {
    exists|k: int, j: int|
        #![trigger spec_subpath_ranges(segments)[k], segments[j]]
        0 <= k < spec_subpath_ranges(segments).len() && spec_subpath_ranges(segments)[k].0 <= i
            < spec_subpath_ranges(segments)[k].1 && spec_subpath_ranges(segments)[k].0 <= j
            < spec_subpath_ranges(segments)[k].1 && segments[j].is_drawing() && !zero_length[j]
}

/// For each segment, whether its subpath draws something of non-zero
/// length: holds a drawing segment that `zero_length` does not mark.
pub fn subpath_draws(segments: &Vec<Segment>, zero_length: &Vec<bool>) -> (draws: Vec<bool>)
    requires
        zero_length.len() == segments.len(),
    ensures
        draws@.len() == segments.len(),
        forall|i: int|
            0 <= i < segments.len() ==> #[trigger] draws@[i] == spec_subpath_draws(
                segments@,
                zero_length@,
                i,
            ),
{
    let ranges = subpath_ranges(segments);
    let ghost spec = spec_subpath_ranges(segments@);
    proof {
        subpath_ranges_partition(segments@);
    }
    let mut draws: Vec<bool> = Vec::new();
    let mut k: usize = 0;
    while k < ranges.len()
        invariant
            k <= ranges.len() == spec.len(),
            spec == spec_subpath_ranges(segments@),
            zero_length.len() == segments.len(),
            crate::subpaths::is_partition(spec, segments@.len() as int),
            forall|m: int|
                0 <= m < spec.len() ==> 0 <= #[trigger] spec[m].0 < spec[m].1 <= segments@.len(),
            forall|m: int|
                0 <= m < ranges@.len() ==> (ranges@[m].0 as int, ranges@[m].1 as int)
                    == #[trigger] spec[m],
            k == 0 ==> draws@.len() == 0,
            k > 0 ==> draws@.len() == spec[k - 1].1,
            forall|i: int|
                0 <= i < draws@.len() ==> #[trigger] draws@[i] == spec_subpath_draws(
                    segments@,
                    zero_length@,
                    i,
                ),
        decreases ranges.len() - k,
    {
        let (start, end) = ranges[k];
        assert((start as int, end as int) == spec[k as int]);
        if k > 0 {
            assert(spec[k - 1].1 == spec[k as int].0);
        } else {
            assert(spec[0].0 == 0);
        }
        let mut found = false;
        let mut j = start;
        while j < end
            invariant
                start <= j <= end <= segments.len() == zero_length.len(),
                found <==> exists|m: int|
                    start <= m < j && (#[trigger] segments@[m]).is_drawing() && !zero_length@[m],
            decreases end - j,
        {
            let segment = segments[j];
            if !segment.is_move_to() && !segment.is_close_path() && !zero_length[j] {
                found = true;
            }
            j += 1;
        }
        let ghost before = draws@;
        let mut i = start;
        while i < end
            invariant
                start <= i <= end,
                draws@.len() == i,
                draws@.subrange(0, start as int) == before,
                forall|m: int| start <= m < i ==> draws@[m] == found,
            decreases end - i,
        {
            draws.push(found);
            i += 1;
        }
        proof {
            assert forall|i: int| 0 <= i < draws@.len() implies #[trigger] draws@[i]
                == spec_subpath_draws(segments@, zero_length@, i) by {
                if i < start {
                    assert(draws@[i] == before[i]);
                } else {
                    // The subpath of `i` is the k-th one
                    if found {
                        let m = choose|m: int|
                            start <= m < end && (#[trigger] segments@[m]).is_drawing()
                                && !zero_length@[m];
                        assert(spec[k as int].0 <= m < spec[k as int].1 && segments@[m].is_drawing());
                    } else if spec_subpath_draws(segments@, zero_length@, i) {
                        let (k2, m) = choose|k2: int, m: int|
                            #![trigger spec_subpath_ranges(segments@)[k2], segments@[m]]
                            0 <= k2 < spec.len() && spec[k2].0 <= i < spec[k2].1 && spec[k2].0 <= m
                                < spec[k2].1 && segments@[m].is_drawing() && !zero_length@[m];
                        lemma_range_unique(spec, segments@.len() as int, k as int, k2, i);
                        assert(false);
                    }
                }
            }
        }
        k += 1;
    }
    if ranges.len() > 0 {
        assert(spec[spec.len() - 1] == spec.last());
    }
    draws
}

/// In a partition, each position lies in one piece only.
proof fn lemma_range_unique(ranges: Seq<(int, int)>, n: int, a: int, b: int, i: int)
    requires
        crate::subpaths::is_partition(ranges, n),
        0 <= a < ranges.len(),
        0 <= b < ranges.len(),
        ranges[a].0 <= i < ranges[a].1,
        ranges[b].0 <= i < ranges[b].1,
    ensures
        a == b,
    decreases if a < b { b - a } else { a - b },
{
    if a < b {
        assert(ranges[a].1 == ranges[a + 1].0);
        if a + 1 < b {
            lemma_range_below(ranges, n, a + 1, b);
        }
    } else if b < a {
        assert(ranges[b].1 == ranges[b + 1].0);
        if b + 1 < a {
            lemma_range_below(ranges, n, b + 1, a);
        }
    }
}

/// Later pieces of a partition start no earlier than where earlier ones start.
proof fn lemma_range_below(ranges: Seq<(int, int)>, n: int, a: int, b: int)
    requires
        crate::subpaths::is_partition(ranges, n),
        0 <= a <= b < ranges.len(),
    ensures
        ranges[a].0 <= ranges[b].0,
    decreases b - a,
{
    if a < b {
        lemma_range_below(ranges, n, a, b - 1);
        assert(ranges[b - 1].1 == ranges[b].0);
    }
}

/// What a segment of a path being optimized draws, in absolute coordinates
/// with shorthand and horizontal or vertical lines expanded.
#[derive(Clone, Copy, Debug, PartialEq, Eq, Structural)]
pub enum GeometryKind {
    Move,
    Line,
    Cubic,
    Quadratic,
    Arc,
    Close,
}

/// What the optimizer knows of a segment when it decides whether to write it.
#[derive(Clone, Copy, Debug, PartialEq, Eq, Structural)]
pub struct SegmentFacts {
    pub kind: GeometryKind,
    /// What the segment after it draws, if there is one.
    pub next: Option<GeometryKind>,
    /// Whether it draws nothing from the current point.
    pub zero_length: bool,
    /// Whether its subpath draws something of non-zero length.
    pub subpath_draws: bool,
    /// Whether it is a line that ends where its subpath started.
    pub returns_to_start: bool,
}

/// Whether a segment is written or left out.
#[derive(Clone, Copy, Debug, PartialEq, Eq, Structural)]
pub enum Action {
    Skip,
    Write,
}

/// Whether the optimizer writes the segment described by `facts`, when
/// `kept_dot` tells whether the current subpath has kept a zero-length
/// segment already, and whether it has kept one afterwards.
pub open spec fn spec_plan_segment(kept_dot: bool, facts: SegmentFacts) -> (Action, bool) {
    match facts.kind {
        GeometryKind::Move => (
            if facts.next is None || facts.next == Some(GeometryKind::Move) {
                Action::Skip
            } else {
                Action::Write
            },
            false,
        ),
        GeometryKind::Close => (Action::Write, kept_dot),
        _ => if facts.zero_length && (facts.subpath_draws || kept_dot) {
            (Action::Skip, kept_dot)
        } else {
            let dot = kept_dot || facts.zero_length;
            if facts.kind == GeometryKind::Line && facts.next == Some(GeometryKind::Close)
                && facts.returns_to_start && !facts.zero_length {
                (Action::Skip, dot)
            } else {
                (Action::Write, dot)
            }
        },
    }
}

/// Decides whether the optimizer writes a segment, and whether the current
/// subpath has kept a zero-length segment afterwards.
///
/// Segments that draw nothing are left out: a zero-length segment, unless
/// its subpath draws nothing else, since a round line cap still draws a dot
/// for it, and then only the first; a line back to the subpath start right
/// before a close path, which draws it anyway; and a move followed by
/// another move or by nothing. Close paths are always written.
pub fn plan_segment(kept_dot: bool, facts: &SegmentFacts) -> (planned: (Action, bool))
    ensures
        planned == spec_plan_segment(kept_dot, *facts),
        facts.kind == GeometryKind::Move && (facts.next is None || facts.next == Some(
            GeometryKind::Move,
        )) ==> planned.0 == Action::Skip,
        facts.kind == GeometryKind::Close ==> planned.0 == Action::Write,
        facts.kind != GeometryKind::Move && facts.kind != GeometryKind::Close && facts.zero_length
            && planned.0 == Action::Write ==> !facts.subpath_draws && !kept_dot && planned.1,
{
    match facts.kind {
        GeometryKind::Move => {
            let skip = match facts.next {
                None => true,
                Some(next) => matches!(next, GeometryKind::Move),
            };
            (
                if skip {
                    Action::Skip
                } else {
                    Action::Write
                },
                false,
            )
        },
        GeometryKind::Close => (Action::Write, kept_dot),
        kind => {
            if facts.zero_length && (facts.subpath_draws || kept_dot) {
                (Action::Skip, kept_dot)
            } else {
                let dot = kept_dot || facts.zero_length;
                let closes_anyway = match facts.next {
                    Some(next) => matches!(next, GeometryKind::Close),
                    None => false,
                };
                if matches!(kind, GeometryKind::Line) && closes_anyway && facts.returns_to_start
                    && !facts.zero_length {
                    (Action::Skip, dot)
                } else {
                    (Action::Write, dot)
                }
            }
        },
    }
}

/// Which shorthand forms a drawing segment can take.
#[derive(Clone, Copy, Debug, PartialEq, Eq, Structural)]
pub struct Shorthands {
    /// A line that stays at the current height.
    pub horizontal: bool,
    /// A line that stays at the current x.
    pub vertical: bool,
    /// A curve whose first control mirrors the previous curve's last.
    pub mirrors: bool,
}

pub open spec fn relative_and_absolute(command: Command) -> Seq<Segment> {
    seq![Segment { command, abs: false }, Segment { command, abs: true }]
}

/// The commands a segment can be written with, in the order the optimizer
/// tries them: shorthands first, relative before absolute, except for a
/// move, where the usual absolute move comes first and wins a tie.
pub open spec fn spec_candidate_commands(kind: GeometryKind, shorthands: Shorthands) -> Seq<Segment> {
    match kind {
        GeometryKind::Move => seq![
            Segment { command: Command::MoveTo, abs: true },
            Segment { command: Command::MoveTo, abs: false },
        ],
        GeometryKind::Line => (if shorthands.horizontal {
            relative_and_absolute(Command::HorizontalLineTo)
        } else {
            Seq::empty()
        }) + (if shorthands.vertical {
            relative_and_absolute(Command::VerticalLineTo)
        } else {
            Seq::empty()
        }) + relative_and_absolute(Command::LineTo),
        GeometryKind::Cubic => (if shorthands.mirrors {
            relative_and_absolute(Command::SmoothCurveTo)
        } else {
            Seq::empty()
        }) + relative_and_absolute(Command::CurveTo),
        GeometryKind::Quadratic => (if shorthands.mirrors {
            relative_and_absolute(Command::SmoothQuadratic)
        } else {
            Seq::empty()
        }) + relative_and_absolute(Command::Quadratic),
        GeometryKind::Arc => relative_and_absolute(Command::EllipticalArc),
        GeometryKind::Close => Seq::empty(),
    }
}

fn push_both(candidates: &mut Vec<Segment>, command: Command)
    ensures
        final(candidates)@ == old(candidates)@ + relative_and_absolute(command),
{
    candidates.push(Segment { command, abs: false });
    candidates.push(Segment { command, abs: true });
    assert(candidates@ =~= old(candidates)@ + relative_and_absolute(command));
}

/// The commands a move or drawing segment can be written with, in the
/// order the optimizer tries them.
pub fn candidate_commands(kind: GeometryKind, shorthands: Shorthands) -> (candidates: Vec<Segment>)
    ensures
        candidates@ == spec_candidate_commands(kind, shorthands),
{
    let mut candidates: Vec<Segment> = Vec::new();
    match kind {
        GeometryKind::Move => {
            candidates.push(Segment { command: Command::MoveTo, abs: true });
            candidates.push(Segment { command: Command::MoveTo, abs: false });
            assert(candidates@ =~= spec_candidate_commands(kind, shorthands));
        },
        GeometryKind::Line => {
            if shorthands.horizontal {
                push_both(&mut candidates, Command::HorizontalLineTo);
            }
            let ghost after_horizontal = candidates@;
            if shorthands.vertical {
                push_both(&mut candidates, Command::VerticalLineTo);
            }
            let ghost after_vertical = candidates@;
            push_both(&mut candidates, Command::LineTo);
            assert(candidates@ =~= spec_candidate_commands(kind, shorthands));
        },
        GeometryKind::Cubic => {
            if shorthands.mirrors {
                push_both(&mut candidates, Command::SmoothCurveTo);
            }
            push_both(&mut candidates, Command::CurveTo);
            assert(candidates@ =~= spec_candidate_commands(kind, shorthands));
        },
        GeometryKind::Quadratic => {
            if shorthands.mirrors {
                push_both(&mut candidates, Command::SmoothQuadratic);
            }
            push_both(&mut candidates, Command::Quadratic);
            assert(candidates@ =~= spec_candidate_commands(kind, shorthands));
        },
        GeometryKind::Arc => {
            push_both(&mut candidates, Command::EllipticalArc);
        },
        GeometryKind::Close => {
            assert(candidates@ =~= spec_candidate_commands(kind, shorthands));
        },
    }
    candidates
}

/// Whether a close path is written absolute: both cases cost the same, so
/// it keeps the case of the last command written.
pub fn close_is_absolute(last_command: Option<u8>) -> (abs: bool)
    ensures
        abs == (last_command is Some && 65 <= last_command->0 <= 90),
{
    match last_command {
        Some(c) => 65 <= c && c <= 90,
        None => false,
    }
}

/// The characters `candidate` adds after `last`, so the letters and
/// separators compact output leaves out are counted.
pub open spec fn spec_cost(options: WriteOptions, last: Option<SegmentTextView>, candidate: SegmentTextView) -> int {
    match last {
        Some(l) => {
            let after_last = segment_step(options.compact, initial_state(), l);
            segment_step(options.compact, after_last, candidate).out.len() - after_last.out.len()
        },
        None => segment_step(options.compact, initial_state(), candidate).out.len() as int,
    }
}

fn cost(options: &WriteOptions, last: Option<&SegmentText>, candidate: &SegmentText) -> (n: usize)
    requires
        candidate@.well_formed(),
        last is Some ==> last->0@.well_formed(),
    ensures
        n == spec_cost(*options, match last {
            Some(l) => Some(l@),
            None => None,
        }, candidate@),
{
    let mut writer = PathWriter::new(*options);
    match last {
        Some(l) => {
            writer.segment(l);
            let before = writer.out.len();
            let ghost after_last = writer.state();
            writer.segment(candidate);
            proof {
                crate::write::lemma_segment_step_grows(options.compact, after_last, candidate@);
            }
            writer.out.len() - before
        },
        None => {
            writer.segment(candidate);
            writer.out.len()
        },
    }
}

/// Picks the candidate that writes shortest after `last`, the first of
/// equally short ones.
pub fn emit(options: &WriteOptions, last: Option<&SegmentText>, candidates: &Vec<SegmentText>) -> (best: usize)
    requires
        candidates.len() > 0,
        forall|i: int| 0 <= i < candidates.len() ==> #[trigger] candidates[i]@.well_formed(),
        last is Some ==> last->0@.well_formed(),
    ensures
        best < candidates.len(),
        ({
            let last_view = match last {
                Some(l) => Some(l@),
                None => None,
            };
            &&& forall|j: int|
                0 <= j < candidates.len() ==> spec_cost(*options, last_view, candidates[best as int]@)
                    <= spec_cost(*options, last_view, #[trigger] candidates[j]@)
            &&& forall|j: int|
                0 <= j < best ==> spec_cost(*options, last_view, candidates[best as int]@) < spec_cost(
                    *options,
                    last_view,
                    #[trigger] candidates[j]@,
                )
        }),
{
    let ghost last_view = match last {
        Some(l) => Some(l@),
        None => None,
    };
    let mut costs: Vec<usize> = Vec::new();
    let mut i: usize = 0;
    while i < candidates.len()
        invariant
            i <= candidates.len(),
            forall|i: int| 0 <= i < candidates.len() ==> #[trigger] candidates[i]@.well_formed(),
            last is Some ==> last->0@.well_formed(),
            last_view == match last {
                Some(l) => Some(l@),
                None => None,
            },
            costs@.len() == i,
            forall|j: int| 0 <= j < i ==> costs@[j] == spec_cost(*options, last_view, #[trigger] candidates[j]@),
        decreases candidates.len() - i,
    {
        let c = cost(options, last, &candidates[i]);
        costs.push(c);
        i += 1;
    }
    let best = cheapest(&costs);
    assert forall|j: int| 0 <= j < candidates.len() implies spec_cost(*options, last_view, candidates[best as int]@)
        <= spec_cost(*options, last_view, #[trigger] candidates[j]@) by {
        assert(costs@[j] == spec_cost(*options, last_view, candidates[j]@));
    }
    assert forall|j: int| 0 <= j < best implies spec_cost(*options, last_view, candidates[best as int]@)
        < spec_cost(*options, last_view, #[trigger] candidates[j]@) by {
        assert(costs@[j] == spec_cost(*options, last_view, candidates[j]@));
    }
    best
}


/// A drawing segment of non-zero length is left out exactly when it is a
/// line back to where its subpath started, right before a close path, which
/// draws that line anyway. Every other such segment is written, a line
/// before a close path that ends elsewhere among them.
pub proof fn only_lines_back_to_the_start_are_closed_for(kept_dot: bool, facts: SegmentFacts)
    requires
        facts.kind != GeometryKind::Move,
        facts.kind != GeometryKind::Close,
        !facts.zero_length,
    ensures
        spec_plan_segment(kept_dot, facts).0 == Action::Skip <==> (facts.kind == GeometryKind::Line
            && facts.next == Some(GeometryKind::Close) && facts.returns_to_start),
        facts.kind == GeometryKind::Line && facts.next == Some(GeometryKind::Close)
            && !facts.returns_to_start ==> spec_plan_segment(kept_dot, facts).0 == Action::Write,
        spec_plan_segment(kept_dot, facts).1 == kept_dot,
{
}


/// A segment that draws nothing is written only as the first dot of a
/// subpath that draws nothing else, since a round cap still draws that dot;
/// a move is left out exactly when a move or the end follows it; a close
/// path is always written. Whether a dot has been kept goes on until a
/// move, and turns true once a segment that draws nothing is written.
pub proof fn what_the_optimizer_leaves_out(kept_dot: bool, facts: SegmentFacts)
    ensures
        facts.kind != GeometryKind::Move && facts.kind != GeometryKind::Close && facts.zero_length
            ==> (spec_plan_segment(kept_dot, facts).0 == Action::Skip <==> (facts.subpath_draws
            || kept_dot)),
        facts.kind != GeometryKind::Move && facts.kind != GeometryKind::Close ==> spec_plan_segment(
            kept_dot,
            facts,
        ).1 == (kept_dot || (facts.zero_length && spec_plan_segment(kept_dot, facts).0
            == Action::Write)),
        facts.kind == GeometryKind::Move ==> (spec_plan_segment(kept_dot, facts).0 == Action::Skip
            <==> (facts.next is None || facts.next == Some(GeometryKind::Move))),
        facts.kind == GeometryKind::Move ==> !spec_plan_segment(kept_dot, facts).1,
        facts.kind == GeometryKind::Close ==> spec_plan_segment(kept_dot, facts) == (
            Action::Write,
            kept_dot,
        ),
{
}

} // verus!
