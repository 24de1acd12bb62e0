//! Reversing the drawing direction of every subpath.
use vstd::prelude::*;

use crate::command::{Command, Segment};
use crate::subpaths::{
    closed_when_drawing_goes_on, draws_anything, drawing_goes_on, spec_is_closed,
    spec_subpath_ranges, starts_subpath, subpath_draws, subpath_ranges, subpath_ranges_partition,
};

verus! {

/// A point of the path being reversed, by the segment it belongs to.
#[derive(Clone, Copy, Debug, PartialEq, Eq, Structural)]
pub enum PointOf {
    /// Where the segment at this index ends.
    EndOf(usize),
    /// Where the segment at this index starts.
    StartOf(usize),
}

/// One segment of a reversed path.
#[derive(Clone, Copy, Debug, PartialEq, Eq, Structural)]
pub enum Step {
    /// The move that starts a reversed subpath, to the point where the
    /// subpath being reversed ended.
    Move { abs: bool, at: PointOf },
    /// The segment at `source`, drawn backwards as `segment`: the
    /// same command and case, except that a curve becomes smooth exactly
    /// when the segment after it in the path being reversed was a smooth curve of its
    /// kind. An arc's sweep flag is flipped.
    Draw { source: usize, segment: Segment },
    /// The close path that ends a closed subpath.
    Close { abs: bool },
}

/// The command a drawing segment is reversed into, given the segment that
/// followed it in its subpath.
pub open spec fn spec_reversed_segment(segment: Segment, next: Option<Segment>) -> Segment {
    match segment.command {
        Command::CurveTo | Command::SmoothCurveTo => Segment {
            command: if next is Some && next->0.command == Command::SmoothCurveTo {
                Command::SmoothCurveTo
            } else {
                Command::CurveTo
            },
            abs: segment.abs,
        },
        Command::Quadratic | Command::SmoothQuadratic => Segment {
            command: if next is Some && next->0.command == Command::SmoothQuadratic {
                Command::SmoothQuadratic
            } else {
                Command::Quadratic
            },
            abs: segment.abs,
        },
        _ => segment,
    }
}

/// Where the drawing segments of the subpath at `start` begin: after its
/// move, if it has one.
pub open spec fn draws_start(segments: Seq<Segment>, start: int) -> int {
    if segments[start].is_move() {
        start + 1
    } else {
        start
    }
}

/// Whether the subpath `start..end` ends with a close path after its move.
pub open spec fn has_close(segments: Seq<Segment>, start: int, end: int) -> bool {
    end - 1 >= draws_start(segments, start) && segments[end - 1].is_close()
}

/// Where the drawing segments of the subpath `start..end` end: before its
/// close path, if it has one.
pub open spec fn draws_end(segments: Seq<Segment>, start: int, end: int) -> int {
    if has_close(segments, start, end) {
        end - 1
    } else {
        end
    }
}

/// The move that starts the reversed subpath `start..end`: as absolute as
/// the move it had, to where its drawing ended.
pub open spec fn reverse_move(segments: Seq<Segment>, start: int, end: int) -> Step {
    let first = draws_start(segments, start);
    let last = draws_end(segments, start, end);
    let has_move = segments[start].is_move();
    Step::Move {
        abs: if has_move {
            segments[start].abs
        } else {
            true
        },
        at: if last > first {
            PointOf::EndOf((last - 1) as usize)
        } else if has_move {
            PointOf::EndOf(start as usize)
        } else {
            PointOf::StartOf(start as usize)
        },
    }
}

/// The drawing segments `first..last`, last first, each reversed.
pub open spec fn reversed_draws(segments: Seq<Segment>, first: int, last: int) -> Seq<Step> {
    Seq::new(
        (last - first) as nat,
        |j: int|
            {
                let i = last - 1 - j;
                Step::Draw {
                    source: i as usize,
                    segment: spec_reversed_segment(
                        segments[i],
                        if i + 1 < last {
                            Some(segments[i + 1])
                        } else {
                            None
                        },
                    ),
                }
            },
    )
}

/// The close path that ends the reversed subpath `start..end`, if the
/// subpath had one.
pub open spec fn reverse_close(segments: Seq<Segment>, start: int, end: int) -> Seq<Step> {
    if has_close(segments, start, end) {
        seq![Step::Close { abs: segments[end - 1].abs }]
    } else {
        Seq::empty()
    }
}

/// The reversed subpath `start..end` of `segments`.
pub open spec fn spec_reverse_subpath(segments: Seq<Segment>, start: int, end: int) -> Seq<Step> {
    seq![reverse_move(segments, start, end)] + reversed_draws(
        segments,
        draws_start(segments, start),
        draws_end(segments, start, end),
    ) + reverse_close(segments, start, end)
}

/// The reversed subpaths `ranges` of `segments`, in order.
pub open spec fn reverse_ranges(segments: Seq<Segment>, ranges: Seq<(int, int)>) -> Seq<Step>
    decreases ranges.len(),
{
    if ranges.len() == 0 {
        Seq::empty()
    } else {
        reverse_ranges(segments, ranges.drop_last()) + spec_reverse_subpath(
            segments,
            ranges.last().0,
            ranges.last().1,
        )
    }
}

/// `segments` with every subpath reversed.
pub open spec fn spec_reverse(segments: Seq<Segment>) -> Seq<Step> {
    reverse_ranges(segments, spec_subpath_ranges(segments))
}

/// The command a reversed segment is written with.
pub open spec fn step_segment(step: Step) -> Segment {
    match step {
        Step::Move { abs, .. } => Segment { command: Command::MoveTo, abs },
        Step::Draw { segment, .. } => segment,
        Step::Close { abs } => Segment { command: Command::ClosePath, abs },
    }
}

/// The commands of a reversed path.
pub open spec fn step_segments(steps: Seq<Step>) -> Seq<Segment> {
    steps.map_values(|step: Step| step_segment(step))
}

/// The command a drawing segment is reversed into, given the segment that
/// followed it in its subpath. A curve can be written smooth when the
/// following segment was a smooth curve of its kind, since that one's
/// implied control mirrors this one's second control.
pub fn reversed_segment(segment: Segment, next: Option<Segment>) -> (reversed: Segment)
    ensures
        reversed == spec_reversed_segment(segment, next),
{
    match segment.command {
        Command::CurveTo | Command::SmoothCurveTo => {
            let smooth = match next {
                Some(n) => matches!(n.command, Command::SmoothCurveTo),
                None => false,
            };
            Segment {
                command: if smooth {
                    Command::SmoothCurveTo
                } else {
                    Command::CurveTo
                },
                abs: segment.abs,
            }
        },
        Command::Quadratic | Command::SmoothQuadratic => {
            let smooth = match next {
                Some(n) => matches!(n.command, Command::SmoothQuadratic),
                None => false,
            };
            Segment {
                command: if smooth {
                    Command::SmoothQuadratic
                } else {
                    Command::Quadratic
                },
                abs: segment.abs,
            }
        },
        _ => segment,
    }
}

#[verifier::spinoff_prover]
fn reverse_subpath(segments: &Vec<Segment>, start: usize, end: usize, steps: &mut Vec<Step>)
    requires
        start < end <= segments.len(),
    ensures
        final(steps)@ == old(steps)@ + spec_reverse_subpath(segments@, start as int, end as int),
{
    let has_move = segments[start].is_move_to();
    let first = if has_move {
        start + 1
    } else {
        start
    };
    let closed = end - 1 >= first && segments[end - 1].is_close_path();
    let last = if closed {
        end - 1
    } else {
        end
    };
    assert(first == draws_start(segments@, start as int));
    assert(closed == has_close(segments@, start as int, end as int));
    assert(last == draws_end(segments@, start as int, end as int));
    let at = if last > first {
        PointOf::EndOf(last - 1)
    } else if has_move {
        PointOf::EndOf(start)
    } else {
        PointOf::StartOf(start)
    };
    let abs = if has_move {
        segments[start].abs
    } else {
        true
    };
    let ghost before = steps@;
    let ghost move_step = reverse_move(segments@, start as int, end as int);
    steps.push(Step::Move { abs, at });
    assert(steps@ == before + seq![move_step]);
    let ghost draws = reversed_draws(segments@, first as int, last as int);
    let mut i = last;
    while i > first
        invariant
            first <= i <= last <= end <= segments.len(),
            draws == reversed_draws(segments@, first as int, last as int),
            steps@ == before + seq![move_step] + draws.subrange(0, last - i),
        decreases i,
    {
        let index = i - 1;
        let next = if index + 1 < last {
            Some(segments[index + 1])
        } else {
            None
        };
        let segment = reversed_segment(segments[index], next);
        steps.push(Step::Draw { source: index, segment });
        proof {
            assert(draws[last - i] == Step::Draw { source: index, segment });
            assert(draws.subrange(0, last - index) =~= draws.subrange(0, last - i).push(
                draws[last - i],
            ));
        }
        i = index;
    }
    assert(draws.subrange(0, last - first) =~= draws);
    if closed {
        steps.push(Step::Close { abs: segments[end - 1].abs });
    }
    assert(steps@ =~= before + spec_reverse_subpath(segments@, start as int, end as int));
}

/// Reverses the drawing direction of every subpath, keeping the subpaths in
/// their order.
///
/// Relative segments stay relative and absolute ones stay absolute. Arcs
/// stay arcs with their sweep flag flipped. A smooth segment (`S`/`T`) stays
/// smooth when its reversed neighbour allows it and becomes a full `C`/`Q`
/// otherwise. An open subpath starts from its old end; a closed one starts
/// from its last point and still ends with a close path.
pub fn reverse(segments: &Vec<Segment>) -> (steps: Vec<Step>)
    ensures
        steps@ == spec_reverse(segments@),
{
    let ranges = subpath_ranges(segments);
    let ghost spec = spec_subpath_ranges(segments@);
    proof {
        subpath_ranges_partition(segments@);
    }
    let mut steps: Vec<Step> = Vec::new();
    let mut k: usize = 0;
    while k < ranges.len()
        invariant
            k <= ranges.len() == spec.len(),
            spec == spec_subpath_ranges(segments@),
            forall|m: int|
                0 <= m < spec.len() ==> 0 <= #[trigger] spec[m].0 < spec[m].1 <= segments@.len(),
            forall|m: int|
                0 <= m < ranges@.len() ==> (ranges@[m].0 as int, ranges@[m].1 as int)
                    == #[trigger] spec[m],
            steps@ == reverse_ranges(segments@, spec.subrange(0, k as int)),
        decreases ranges.len() - k,
    {
        let (start, end) = ranges[k];
        assert((start as int, end as int) == spec[k as int]);
        reverse_subpath(segments, start, end, &mut steps);
        proof {
            let next = spec.subrange(0, k + 1);
            assert(next.drop_last() =~= spec.subrange(0, k as int));
        }
        k += 1;
    }
    assert(spec.subrange(0, ranges.len() as int) =~= spec);
    steps
}


/// The segment at `i` is a move if a subpath starts there.
pub open spec fn move_where_subpath_starts(segments: Seq<Segment>, i: int) -> bool {
    (i == 0 || segments[i - 1].is_close()) ==> segments[i].is_move()
}

/// Every subpath starts with a move of its own: the path does, and so does
/// whatever follows a close path.
pub open spec fn moves_start_subpaths(segments: Seq<Segment>) -> bool {
    forall|i: int| 0 <= i < segments.len() ==> #[trigger] move_where_subpath_starts(segments, i)
}

/// The segment at `i`, if it is a smooth curve, follows a curve of its kind.
pub open spec fn smooth_after_curve(segments: Seq<Segment>, i: int) -> bool {
    &&& segments[i].command == Command::SmoothCurveTo ==> i > 0 && (segments[i - 1].command
        == Command::CurveTo || segments[i - 1].command == Command::SmoothCurveTo)
    &&& segments[i].command == Command::SmoothQuadratic ==> i > 0 && (segments[i - 1].command
        == Command::Quadratic || segments[i - 1].command == Command::SmoothQuadratic)
}

/// Every smooth curve follows a curve of its kind, whose control it
/// mirrors, rather than taking its start as its first control.
pub open spec fn smooth_follows_curve(segments: Seq<Segment>) -> bool {
    forall|i: int| 0 <= i < segments.len() ==> #[trigger] smooth_after_curve(segments, i)
}

/// A single subpath that starts with a move.
pub open spec fn is_block(block: Seq<Segment>) -> bool {
    &&& block.len() > 0
    &&& block[0].is_move()
    &&& forall|j: int| 0 < j < block.len() ==> !starts_subpath(block, j)
}

/// The commands of a path with every subpath reversed.
pub open spec fn reversed_commands(segments: Seq<Segment>) -> Seq<Segment> {
    step_segments(spec_reverse(segments))
}

/// The commands of the single subpath `block` reversed.
pub open spec fn reversed_block(block: Seq<Segment>) -> Seq<Segment> {
    step_segments(spec_reverse_subpath(block, 0, block.len() as int))
}

proof fn lemma_append_block_prefix(p: Seq<Segment>, b: Seq<Segment>, m: int)
    requires
        is_block(b),
        1 <= m <= b.len(),
    ensures
        spec_subpath_ranges(p + b.subrange(0, m)) == spec_subpath_ranges(p).push(
            (p.len() as int, p.len() + m),
        ),
    decreases m,
{
    let x = p + b.subrange(0, m);
    let i = p.len() + m - 1;
    subpath_ranges_partition(p);
    if m == 1 {
        assert(x.drop_last() =~= p);
        assert(x[i] == b[0]);
        if spec_subpath_ranges(p).len() == 0 {
            assert(spec_subpath_ranges(p).push((0int, 1int)) =~= seq![(0int, 1int)]);
        }
    } else {
        lemma_append_block_prefix(p, b, m - 1);
        assert(x.drop_last() =~= p + b.subrange(0, m - 1));
        assert(x[i] == b[m - 1]);
        assert(x[i - 1] == b[m - 2]);
        assert(!starts_subpath(b, m - 1));
        assert(!starts_subpath(x, i));
        let before = spec_subpath_ranges(p).push((p.len() as int, p.len() + m - 1));
        assert(before.update(before.len() - 1, (p.len() as int, p.len() + m)) =~= spec_subpath_ranges(
            p,
        ).push((p.len() as int, p.len() + m)));
    }
}

/// A subpath that starts with a move, appended to a path, is a subpath of
/// its own there.
proof fn lemma_append_block(p: Seq<Segment>, b: Seq<Segment>)
    requires
        is_block(b),
    ensures
        spec_subpath_ranges(p + b) == spec_subpath_ranges(p).push(
            (p.len() as int, (p.len() + b.len()) as int),
        ),
{
    lemma_append_block_prefix(p, b, b.len() as int);
    assert(b.subrange(0, b.len() as int) =~= b);
}

/// The reversed subpath `start..end` reads nothing outside it.
proof fn lemma_reverse_subpath_frame(a: Seq<Segment>, start: int, end: int, b: Seq<Segment>, offset: int)
    requires
        0 <= start < end <= a.len(),
        0 <= offset,
        end + offset <= b.len(),
        forall|i: int| start <= i < end ==> a[i] == b[i + offset],
    ensures
        step_segments(spec_reverse_subpath(a, start, end)) == step_segments(
            spec_reverse_subpath(b, start + offset, end + offset),
        ),
        offset == 0 ==> spec_reverse_subpath(a, start, end) == spec_reverse_subpath(b, start, end),
{
    let (first, last) = (draws_start(a, start), draws_end(a, start, end));
    assert(a[start] == b[start + offset]);
    assert(a[end - 1] == b[end - 1 + offset]);
    assert(draws_start(b, start + offset) == first + offset);
    assert(draws_end(b, start + offset, end + offset) == last + offset);
    let da = reversed_draws(a, first, last);
    let db = reversed_draws(b, first + offset, last + offset);
    assert forall|j: int| 0 <= j < da.len() implies step_segment(da[j]) == step_segment(db[j]) by {
        let i = last - 1 - j;
        assert(a[i] == b[i + offset]);
        if i + 1 < last {
            assert(a[i + 1] == b[i + 1 + offset]);
        }
    }
    let sa = spec_reverse_subpath(a, start, end);
    let sb = spec_reverse_subpath(b, start + offset, end + offset);
    assert(sa.len() == sb.len());
    assert forall|j: int| 0 <= j < sa.len() implies step_segment(sa[j]) == step_segment(sb[j]) by {
        if 1 <= j < 1 + da.len() {
            assert(sa[j] == da[j - 1]);
            assert(sb[j] == db[j - 1]);
        }
    }
    assert(step_segments(sa) =~= step_segments(sb));
    if offset == 0 {
        assert forall|j: int| 0 <= j < da.len() implies da[j] == db[j] by {
            let i = last - 1 - j;
            assert(a[i] == b[i]);
            if i + 1 < last {
                assert(a[i + 1] == b[i + 1]);
            }
        }
        assert(da =~= db);
        assert(sa =~= sb);
    }
}

/// Reversing subpaths that lie within a prefix reads nothing after it.
proof fn lemma_reverse_ranges_frame(a: Seq<Segment>, b: Seq<Segment>, ranges: Seq<(int, int)>)
    requires
        b.len() <= a.len(),
        forall|i: int| 0 <= i < b.len() ==> a[i] == b[i],
        forall|k: int|
            0 <= k < ranges.len() ==> 0 <= #[trigger] ranges[k].0 < ranges[k].1 <= b.len(),
    ensures
        reverse_ranges(a, ranges) == reverse_ranges(b, ranges),
    decreases ranges.len(),
{
    if ranges.len() > 0 {
        let last = ranges.last();
        assert(ranges[ranges.len() - 1] == last);
        lemma_reverse_ranges_frame(a, b, ranges.drop_last());
        lemma_reverse_subpath_frame(a, last.0, last.1, b, 0);
    }
}

proof fn lemma_step_segments_add(x: Seq<Step>, y: Seq<Step>)
    ensures
        step_segments(x + y) == step_segments(x) + step_segments(y),
{
    assert(step_segments(x + y) =~= step_segments(x) + step_segments(y));
}

/// Reversing a path that ends with a subpath of its own reverses the rest
/// and that subpath apart.
#[verifier::spinoff_prover]
#[verifier::rlimit(30)]
proof fn lemma_reverse_append_block(x: Seq<Segment>, y: Seq<Segment>)
    requires
        is_block(y),
    ensures
        reversed_commands(x + y) == reversed_commands(x) + reversed_block(y),
{
    let xy = x + y;
    lemma_append_block(x, y);
    subpath_ranges_partition(x);
    let rx = spec_subpath_ranges(x);
    let rxy = spec_subpath_ranges(xy);
    assert(rxy.drop_last() =~= rx);
    assert(rxy.last() == (x.len() as int, (x.len() + y.len()) as int));
    assert forall|i: int| 0 <= i < x.len() implies xy[i] == x[i] by {}
    lemma_reverse_ranges_frame(xy, x, rx);
    assert forall|i: int| x.len() <= i < xy.len() implies xy[i] == y[i - x.len()] by {}
    lemma_reverse_subpath_frame(y, 0, y.len() as int, xy, x.len() as int);
    lemma_step_segments_add(
        reverse_ranges(x, rx),
        spec_reverse_subpath(xy, x.len() as int, (x.len() + y.len()) as int),
    );
}

/// The drawing segments of a subpath that starts with a move: everything
/// between the move and a final close path.
proof fn lemma_block_draws(y: Seq<Segment>)
    requires
        is_block(y),
    ensures
        draws_start(y, 0) == 1,
        1 <= draws_end(y, 0, y.len() as int) <= y.len(),
        forall|j: int| 1 <= j < draws_end(y, 0, y.len() as int) ==> (#[trigger] y[j]).is_drawing(),
{
    let last = draws_end(y, 0, y.len() as int);
    assert forall|j: int| 1 <= j < last implies (#[trigger] y[j]).is_drawing() by {
        assert(!starts_subpath(y, j));
        if y[j].is_close() {
            if j + 1 < y.len() {
                assert(!starts_subpath(y, j + 1));
            }
        }
    }
}

proof fn lemma_reversed_segment_kind(segment: Segment, next: Option<Segment>)
    requires
        segment.is_drawing(),
    ensures
        spec_reversed_segment(segment, next).is_drawing(),
        spec_reversed_segment(segment, next).abs == segment.abs,
{
}

/// Reversing a subpath that starts with a move gives one of the same length
/// that starts with a move, with its close path, if any, still last.
proof fn lemma_reversed_block_shape(y: Seq<Segment>)
    requires
        is_block(y),
    ensures
        is_block(reversed_block(y)),
        reversed_block(y).len() == y.len(),
        has_close(reversed_block(y), 0, y.len() as int) == has_close(y, 0, y.len() as int),
        draws_end(reversed_block(y), 0, y.len() as int) == draws_end(y, 0, y.len() as int),
        reversed_block(y)[0] == y[0],
        has_close(y, 0, y.len() as int) ==> reversed_block(y)[y.len() - 1] == y[y.len() - 1],
        forall|m: int|
            1 <= m < draws_end(y, 0, y.len() as int) ==> #[trigger] reversed_block(y)[m]
                == spec_reversed_segment(
                y[draws_end(y, 0, y.len() as int) - m],
                if draws_end(y, 0, y.len() as int) - m + 1 < draws_end(y, 0, y.len() as int) {
                    Some(y[draws_end(y, 0, y.len() as int) - m + 1])
                } else {
                    None
                },
            ),
{
    lemma_block_draws(y);
    let n = y.len() as int;
    let last = draws_end(y, 0, n);
    let steps = spec_reverse_subpath(y, 0, n);
    let draws = reversed_draws(y, 1, last);
    let z = reversed_block(y);
    assert(steps.len() == n);
    assert(z[0] == y[0]);
    assert forall|m: int| 1 <= m < last implies #[trigger] z[m] == spec_reversed_segment(
        y[last - m],
        if last - m + 1 < last {
            Some(y[last - m + 1])
        } else {
            None
        },
    ) by {
        assert(steps[m] == draws[m - 1]);
    }
    assert forall|m: int| 1 <= m < last implies (#[trigger] z[m]).is_drawing() by {
        assert(y[last - m].is_drawing());
        lemma_reversed_segment_kind(
            y[last - m],
            if last - m + 1 < last {
                Some(y[last - m + 1])
            } else {
                None
            },
        );
    }
    if has_close(y, 0, n) {
        assert(z[n - 1] == y[n - 1]);
    } else if n - 1 >= 1 {
        assert(z[n - 1].is_drawing());
    }
    assert forall|j: int| 0 < j < z.len() implies !starts_subpath(z, j) by {
        if j < last {
            assert(z[j].is_drawing());
        }
        if j - 1 >= 1 && j - 1 < last {
            assert(z[j - 1].is_drawing());
        }
    }
}

/// A drawing segment reversed twice, each time before the segment that
/// followed it, is itself again, when a smooth one follows a curve of its
/// kind.
proof fn lemma_segment_reversed_twice(
    segment: Segment,
    next: Option<Segment>,
    previous: Option<Segment>,
)
    requires
        segment.is_drawing(),
        previous is Some ==> previous->0.is_drawing(),
        segment.command == Command::SmoothCurveTo ==> previous is Some && (previous->0.command
            == Command::CurveTo || previous->0.command == Command::SmoothCurveTo),
        segment.command == Command::SmoothQuadratic ==> previous is Some && (previous->0.command
            == Command::Quadratic || previous->0.command == Command::SmoothQuadratic),
    ensures
        spec_reversed_segment(
            spec_reversed_segment(segment, next),
            match previous {
                Some(p) => Some(spec_reversed_segment(p, Some(segment))),
                None => None,
            },
        ) == segment,
{
}

/// Reversing a subpath that starts with a move twice gives it back, when
/// its smooth curves follow curves of their kind.
proof fn lemma_reverse_block_twice(y: Seq<Segment>)
    requires
        is_block(y),
        smooth_follows_curve(y),
    ensures
        reversed_block(reversed_block(y)) == y,
{
    let n = y.len() as int;
    let z = reversed_block(y);
    lemma_reversed_block_shape(y);
    lemma_reversed_block_shape(z);
    lemma_block_draws(y);
    let w = reversed_block(z);
    let last = draws_end(y, 0, n);
    assert forall|m: int| 1 <= m < last implies w[m] == y[m] by {
        let next = if m + 1 < last {
            Some(y[m + 1])
        } else {
            None
        };
        let previous = if m > 1 {
            Some(y[m - 1])
        } else {
            None
        };
        assert(z[last - m] == spec_reversed_segment(y[m], next));
        if m > 1 {
            assert(z[last - m + 1] == spec_reversed_segment(y[m - 1], Some(y[m])));
            assert(y[m - 1].is_drawing());
        }
        assert(y[m].is_drawing());
        assert(smooth_after_curve(y, m));
        assert(!y[0].is_drawing());
        lemma_segment_reversed_twice(y[m], next, previous);
    }
    assert forall|m: int| 0 <= m < n implies w[m] == y[m] by {
        if 1 <= m < last {
        }
    }
    assert(w =~= y);
}

proof fn lemma_prefix_conditions(segments: Seq<Segment>, s: int)
    requires
        0 <= s <= segments.len(),
        moves_start_subpaths(segments),
        smooth_follows_curve(segments),
    ensures
        moves_start_subpaths(segments.subrange(0, s)),
        smooth_follows_curve(segments.subrange(0, s)),
{
    let p = segments.subrange(0, s);
    assert forall|i: int| 0 <= i < p.len() implies #[trigger] move_where_subpath_starts(p, i) by {
        assert(move_where_subpath_starts(segments, i));
        assert(p[i] == segments[i]);
        if i > 0 {
            assert(p[i - 1] == segments[i - 1]);
        }
    }
    assert forall|i: int| 0 <= i < p.len() implies #[trigger] smooth_after_curve(p, i) by {
        assert(smooth_after_curve(segments, i));
        assert(p[i] == segments[i]);
        if i > 0 {
            assert(p[i - 1] == segments[i - 1]);
        }
    }
}

proof fn lemma_last_subpath_is_block(segments: Seq<Segment>)
    requires
        segments.len() > 0,
        moves_start_subpaths(segments),
        smooth_follows_curve(segments),
    ensures
        ({
            let ranges = spec_subpath_ranges(segments);
            let s = ranges.last().0;
            let q = segments.subrange(s, segments.len() as int);
            &&& 0 <= s < segments.len()
            &&& is_block(q)
            &&& smooth_follows_curve(q)
        }),
{
    subpath_ranges_partition(segments);
    let ranges = spec_subpath_ranges(segments);
    let n = segments.len() as int;
    let k = ranges.len() - 1;
    let s = ranges[k].0;
    assert(ranges[k] == ranges.last());
    let q = segments.subrange(s, n);
    if k > 0 {
        assert(starts_subpath(segments, ranges[k].0));
    }
    assert(move_where_subpath_starts(segments, s));
    assert(segments[s].is_move());
    assert forall|j: int| 0 < j < q.len() implies !starts_subpath(q, j) by {
        assert(q[j] == segments[s + j]);
        assert(q[j - 1] == segments[s + j - 1]);
        assert(ranges[k].0 < s + j < ranges[k].1);
        assert(!starts_subpath(segments, s + j));
    }
    assert(is_block(q));
    assert forall|i: int| 0 <= i < q.len() implies #[trigger] smooth_after_curve(q, i) by {
        assert(smooth_after_curve(segments, s + i));
        assert(q[i] == segments[s + i]);
        if i > 0 {
            assert(q[i - 1] == segments[s + i - 1]);
        }
    }
}

/// Reversing a path twice gives back its commands, when every subpath
/// starts with a move of its own and every smooth curve follows a curve of
/// its kind. (Otherwise the first reversal adds the moves, or writes the
/// smooth curve in full, and the path draws the same but is written
/// differently.)
pub proof fn reverse_twice(segments: Seq<Segment>)
    requires
        moves_start_subpaths(segments),
        smooth_follows_curve(segments),
    ensures
        reversed_commands(reversed_commands(segments)) == segments,
    decreases segments.len(),
{
    if segments.len() == 0 {
        assert(spec_subpath_ranges(segments).len() == 0);
        assert(reversed_commands(segments) =~= Seq::<Segment>::empty());
        assert(spec_subpath_ranges(Seq::<Segment>::empty()).len() == 0);
        assert(reversed_commands(reversed_commands(segments)) =~= segments);
    } else {
        subpath_ranges_partition(segments);
        let ranges = spec_subpath_ranges(segments);
        let n = segments.len() as int;
        let k = ranges.len() - 1;
        let s = ranges[k].0;
        assert(ranges[k] == ranges.last());
        assert(0 <= s < n);
        let p = segments.subrange(0, s);
        let q = segments.subrange(s, n);
        assert(segments =~= p + q);
        lemma_last_subpath_is_block(segments);
        lemma_prefix_conditions(segments, s);
        reverse_twice(p);
        lemma_reverse_append_block(p, q);
        lemma_reversed_block_shape(q);
        lemma_reverse_append_block(reversed_commands(p), reversed_block(q));
        lemma_reverse_block_twice(q);
    }
}

/// Two commands draw the same kind of thing: the same command, or both
/// cubic curves, or both quadratic curves, one of them smooth.
pub open spec fn same_kind(a: Command, b: Command) -> bool {
    ||| a == b
    ||| (a == Command::CurveTo || a == Command::SmoothCurveTo) && (b == Command::CurveTo || b
        == Command::SmoothCurveTo)
    ||| (a == Command::Quadratic || a == Command::SmoothQuadratic) && (b == Command::Quadratic
        || b == Command::SmoothQuadratic)
}

/// A reversed step draws its source segment backwards: a drawing segment,
/// written relative when the source was and absolute when it was, with a
/// command of the same kind.
pub open spec fn draws_its_source(segments: Seq<Segment>, step: Step) -> bool {
    step matches Step::Draw { source, segment } ==> {
        &&& source < segments.len()
        &&& segments[source as int].is_drawing()
        &&& segment.abs == segments[source as int].abs
        &&& same_kind(segment.command, segments[source as int].command)
    }
}

proof fn lemma_subpath_draws_its_sources(segments: Seq<Segment>, start: int, end: int)
    requires
        0 <= start < end <= segments.len() <= usize::MAX,
        forall|i: int| start < i < end ==> !starts_subpath(segments, i),
    ensures
        forall|j: int|
            0 <= j < spec_reverse_subpath(segments, start, end).len() ==> draws_its_source(
                segments,
                #[trigger] spec_reverse_subpath(segments, start, end)[j],
            ),
{
    let first = draws_start(segments, start);
    let last = draws_end(segments, start, end);
    let draws = reversed_draws(segments, first, last);
    let steps = spec_reverse_subpath(segments, start, end);
    assert forall|j: int| 0 <= j < steps.len() implies draws_its_source(
        segments,
        #[trigger] steps[j],
    ) by {
        if 1 <= j < 1 + draws.len() {
            assert(steps[j] == draws[j - 1]);
            let i = last - 1 - (j - 1);
            assert(first <= i < last);
            // Between a move and a final close path, every segment draws
            if i > start {
                assert(!starts_subpath(segments, i));
            } else {
                assert(!segments[i].is_move());
            }
            if segments[i].is_close() {
                assert(i < end - 1);
                assert(!starts_subpath(segments, i + 1));
            }
        }
    }
}

proof fn lemma_ranges_draw_their_sources(segments: Seq<Segment>, ranges: Seq<(int, int)>)
    requires
        segments.len() <= usize::MAX,
        forall|k: int|
            0 <= k < ranges.len() ==> 0 <= #[trigger] ranges[k].0 < ranges[k].1 <= segments.len(),
        forall|k: int, i: int|
            #![trigger ranges[k], starts_subpath(segments, i)]
            0 <= k < ranges.len() && ranges[k].0 < i < ranges[k].1 ==> !starts_subpath(segments, i),
    ensures
        forall|j: int|
            0 <= j < reverse_ranges(segments, ranges).len() ==> draws_its_source(
                segments,
                #[trigger] reverse_ranges(segments, ranges)[j],
            ),
    decreases ranges.len(),
{
    if ranges.len() > 0 {
        let rest = ranges.drop_last();
        let last = ranges.last();
        assert(ranges[ranges.len() - 1] == last);
        assert forall|k: int, i: int|
            #![trigger rest[k], starts_subpath(segments, i)]
            0 <= k < rest.len() && rest[k].0 < i < rest[k].1 implies !starts_subpath(segments, i) by {
            assert(rest[k] == ranges[k]);
        }
        assert forall|k: int| 0 <= k < rest.len() implies 0 <= #[trigger] rest[k].0 < rest[k].1
            <= segments.len() by {
            assert(rest[k] == ranges[k]);
        }
        lemma_ranges_draw_their_sources(segments, rest);
        assert forall|i: int| last.0 < i < last.1 implies !starts_subpath(segments, i) by {
            assert(ranges[ranges.len() - 1].0 < i < ranges[ranges.len() - 1].1);
        }
        lemma_subpath_draws_its_sources(segments, last.0, last.1);
        let before = reverse_ranges(segments, rest);
        let own = spec_reverse_subpath(segments, last.0, last.1);
        assert forall|j: int| 0 <= j < reverse_ranges(segments, ranges).len() implies draws_its_source(
            segments,
            #[trigger] reverse_ranges(segments, ranges)[j],
        ) by {
            if j < before.len() {
                assert(reverse_ranges(segments, ranges)[j] == before[j]);
            } else {
                assert(reverse_ranges(segments, ranges)[j] == own[j - before.len()]);
            }
        }
    }
}

/// Reversing keeps every segment's case and kind: a segment drawn backwards
/// is written relative when it was relative and absolute when it was
/// absolute, an arc stays an arc, a line a line of the same form, and a
/// curve a curve of its degree.
pub proof fn reverse_keeps_case_and_kind(segments: Seq<Segment>)
    requires
        segments.len() <= usize::MAX,
    ensures
        forall|j: int|
            0 <= j < spec_reverse(segments).len() ==> draws_its_source(
                segments,
                #[trigger] spec_reverse(segments)[j],
            ),
{
    subpath_ranges_partition(segments);
    lemma_ranges_draw_their_sources(segments, spec_subpath_ranges(segments));
}

/// A path that ends where another begins with a move: something of the two
/// is drawn when either draws something, and each drawing segment goes on
/// in the whole exactly when it goes on in its own part.
proof fn lemma_goes_on_across(a: Seq<Segment>, b: Seq<Segment>)
    requires
        b.len() > 0,
        b[0].is_move(),
    ensures
        drawing_goes_on(a + b) == (drawing_goes_on(a) && drawing_goes_on(b)),
        draws_anything(a + b) == (draws_anything(a) || draws_anything(b)),
{
    let c = a + b;
    let n = a.len() as int;
    if drawing_goes_on(c) {
        assert forall|i: int| 0 <= i < a.len() && (#[trigger] a[i]).is_drawing() implies i + 1
            < a.len() && !a[i + 1].is_move() by {
            assert(c[i] == a[i]);
            if i + 1 == n {
                assert(c[i + 1] == b[0]);
            } else {
                assert(c[i + 1] == a[i + 1]);
            }
        }
        assert forall|i: int| 0 <= i < b.len() && (#[trigger] b[i]).is_drawing() implies i + 1
            < b.len() && !b[i + 1].is_move() by {
            assert(c[n + i] == b[i]);
            assert(c[n + i + 1] == b[i + 1]);
        }
    }
    if drawing_goes_on(a) && drawing_goes_on(b) {
        assert forall|i: int| 0 <= i < c.len() && (#[trigger] c[i]).is_drawing() implies i + 1
            < c.len() && !c[i + 1].is_move() by {
            if i < n {
                assert(a[i] == c[i]);
                assert(c[i + 1] == a[i + 1]);
            } else {
                assert(b[i - n] == c[i]);
                assert(c[i + 1] == b[i - n + 1]);
            }
        }
    }
    if draws_anything(c) {
        let i = choose|i: int| 0 <= i < c.len() && !(#[trigger] c[i]).is_move();
        if i < n {
            assert(a[i] == c[i]);
        } else {
            assert(b[i - n] == c[i]);
        }
    }
    if draws_anything(a) {
        let i = choose|i: int| 0 <= i < a.len() && !(#[trigger] a[i]).is_move();
        assert(c[i] == a[i]);
    }
    if draws_anything(b) {
        let i = choose|i: int| 0 <= i < b.len() && !(#[trigger] b[i]).is_move();
        assert(c[n + i] == b[i]);
    }
}

/// The reversed subpath `start..end` starts with a move, draws something
/// when the subpath does, and ends with a drawing segment exactly when the
/// subpath does.
proof fn lemma_reversed_subpath_ends(segments: Seq<Segment>, start: int, end: int)
    requires
        0 <= start < end <= segments.len(),
        forall|i: int| start < i < end ==> !starts_subpath(segments, i),
    ensures
        ({
            let b = step_segments(spec_reverse_subpath(segments, start, end));
            &&& b.len() > 0
            &&& b[0].is_move()
            &&& draws_anything(b) == subpath_draws(segments, (start, end))
            &&& drawing_goes_on(b) == !segments[end - 1].is_drawing()
        }),
{
    let first = draws_start(segments, start);
    let last = draws_end(segments, start, end);
    let draws = reversed_draws(segments, first, last);
    let steps = spec_reverse_subpath(segments, start, end);
    let b = step_segments(steps);
    let d = last - first;
    let closed = has_close(segments, start, end);
    assert(b.len() == steps.len());
    assert(b[0] == step_segment(steps[0]));
    // Between a move and a final close path, every segment draws
    assert forall|i: int| first <= i < last implies (#[trigger] segments[i]).is_drawing() by {
        if i > start {
            assert(!starts_subpath(segments, i));
        } else {
            assert(!segments[i].is_move());
        }
        if segments[i].is_close() {
            assert(i < end - 1);
            assert(!starts_subpath(segments, i + 1));
        }
    }
    assert forall|j: int| 1 <= j < 1 + d implies (#[trigger] b[j]).is_drawing() by {
        assert(steps[j] == draws[j - 1]);
        let i = last - j;
        assert(segments[i].is_drawing());
        lemma_reversed_segment_kind(
            segments[i],
            if i + 1 < last {
                Some(segments[i + 1])
            } else {
                None
            },
        );
    }
    if closed {
        assert(b[b.len() - 1].is_close());
        assert forall|j: int| 0 <= j < b.len() && (#[trigger] b[j]).is_drawing() implies j + 1
            < b.len() && !b[j + 1].is_move() by {
            assert(j != 0);
            assert(j < 1 + d);
            if j + 1 < 1 + d {
                assert(b[j + 1].is_drawing());
            }
        }
        assert(!b[b.len() - 1].is_move());
    } else if d > 0 {
        assert(b.len() == 1 + d);
        assert(b[d].is_drawing());
        assert(segments[end - 1].is_drawing());
        assert(!b[1].is_move());
    } else {
        assert(b.len() == 1);
        assert(segments[start].is_move());
        assert(end == start + 1);
    }
    if d > 0 {
        assert(!segments[first].is_move());
    }
    if closed {
        assert(!segments[end - 1].is_move());
    }
}

/// Reversing the subpaths `ranges` draws something exactly when one of them
/// does, and ends no subpath with a drawing segment exactly when none of
/// them ends with one.
proof fn lemma_reversed_ranges_ends(segments: Seq<Segment>, ranges: Seq<(int, int)>)
    requires
        forall|k: int|
            0 <= k < ranges.len() ==> 0 <= #[trigger] ranges[k].0 < ranges[k].1 <= segments.len(),
        forall|k: int, i: int|
            #![trigger ranges[k], starts_subpath(segments, i)]
            0 <= k < ranges.len() && ranges[k].0 < i < ranges[k].1 ==> !starts_subpath(segments, i),
    ensures
        ({
            let r = step_segments(reverse_ranges(segments, ranges));
            &&& draws_anything(r) == exists|k: int|
                0 <= k < ranges.len() && subpath_draws(segments, #[trigger] ranges[k])
            &&& drawing_goes_on(r) == forall|k: int|
                0 <= k < ranges.len() ==> !segments[#[trigger] ranges[k].1 - 1].is_drawing()
        }),
    decreases ranges.len(),
{
    let r = step_segments(reverse_ranges(segments, ranges));
    if ranges.len() == 0 {
        assert(r.len() == 0);
    } else {
        let rest = ranges.drop_last();
        let last = ranges.last();
        let k_last = ranges.len() - 1;
        assert(ranges[k_last] == last);
        assert forall|k: int, i: int|
            #![trigger rest[k], starts_subpath(segments, i)]
            0 <= k < rest.len() && rest[k].0 < i < rest[k].1 implies !starts_subpath(segments, i) by {
            assert(rest[k] == ranges[k]);
        }
        assert forall|k: int| 0 <= k < rest.len() implies 0 <= #[trigger] rest[k].0 < rest[k].1
            <= segments.len() by {
            assert(rest[k] == ranges[k]);
        }
        lemma_reversed_ranges_ends(segments, rest);
        assert forall|i: int| last.0 < i < last.1 implies !starts_subpath(segments, i) by {
            assert(ranges[k_last].0 < i < ranges[k_last].1);
        }
        lemma_reversed_subpath_ends(segments, last.0, last.1);
        let before = step_segments(reverse_ranges(segments, rest));
        let own = step_segments(spec_reverse_subpath(segments, last.0, last.1));
        lemma_step_segments_add(
            reverse_ranges(segments, rest),
            spec_reverse_subpath(segments, last.0, last.1),
        );
        lemma_goes_on_across(before, own);
        assert(r == before + own);
        if exists|k: int| 0 <= k < ranges.len() && subpath_draws(segments, #[trigger] ranges[k]) {
            let k = choose|k: int| 0 <= k < ranges.len() && subpath_draws(segments, #[trigger] ranges[k]);
            if k < rest.len() {
                assert(rest[k] == ranges[k]);
            }
        }
        if exists|k: int| 0 <= k < rest.len() && subpath_draws(segments, #[trigger] rest[k]) {
            let k = choose|k: int| 0 <= k < rest.len() && subpath_draws(segments, #[trigger] rest[k]);
            assert(rest[k] == ranges[k]);
        }
        if forall|k: int| 0 <= k < ranges.len() ==> !segments[#[trigger] ranges[k].1 - 1].is_drawing() {
            assert forall|k: int| 0 <= k < rest.len() implies !segments[#[trigger] rest[k].1
                - 1].is_drawing() by {
                assert(rest[k] == ranges[k]);
            }
        }
        if drawing_goes_on(r) {
            assert forall|k: int| 0 <= k < ranges.len() implies !segments[#[trigger] ranges[k].1
                - 1].is_drawing() by {
                if k < rest.len() {
                    assert(rest[k] == ranges[k]);
                }
            }
        }
    }
}

/// A subpath that draws something ends with a close path exactly when it
/// does not end with a drawing segment, and one that draws nothing ends with
/// a move.
proof fn lemma_subpath_end(segments: Seq<Segment>, start: int, end: int)
    requires
        0 <= start < end <= segments.len(),
        forall|i: int| start < i < end ==> !starts_subpath(segments, i),
    ensures
        subpath_draws(segments, (start, end)) ==> (segments[end - 1].is_close()
            <==> !segments[end - 1].is_drawing()),
        !subpath_draws(segments, (start, end)) ==> !segments[end - 1].is_drawing(),
{
    let last = end - 1;
    if subpath_draws(segments, (start, end)) && segments[last].is_move() {
        let j = choose|j: int| start <= j < end && !(#[trigger] segments[j]).is_move();
        if last > start {
            assert(!starts_subpath(segments, last));
        }
    }
    if !subpath_draws(segments, (start, end)) {
        assert(start <= last < end);
        assert(segments[last].is_move());
    }
}

/// A path is closed exactly when one of its subpaths draws something and
/// none ends with a drawing segment.
proof fn lemma_closed_by_subpath_ends(segments: Seq<Segment>)
    ensures
        ({
            let ranges = spec_subpath_ranges(segments);
            spec_is_closed(segments) == ((exists|k: int|
                0 <= k < ranges.len() && subpath_draws(segments, #[trigger] ranges[k])) && (forall|
                k: int,
            |
                0 <= k < ranges.len() ==> !segments[#[trigger] ranges[k].1 - 1].is_drawing()))
        }),
{
    subpath_ranges_partition(segments);
    let ranges = spec_subpath_ranges(segments);
    assert forall|k: int|
        #![trigger ranges[k]]
        0 <= k < ranges.len() implies (subpath_draws(segments, ranges[k]) ==> (segments[ranges[k].1
        - 1].is_close() <==> !segments[ranges[k].1 - 1].is_drawing())) && (!subpath_draws(
        segments,
        ranges[k],
    ) ==> !segments[ranges[k].1 - 1].is_drawing()) by {
        assert forall|i: int| ranges[k].0 < i < ranges[k].1 implies !starts_subpath(segments, i) by {}
        lemma_subpath_end(segments, ranges[k].0, ranges[k].1);
    }
}

/// Reversing keeps a path closed, and an open path open: a closed subpath
/// still ends with its close path, and an open one with a drawing segment.
pub proof fn reverse_keeps_closedness(segments: Seq<Segment>)
    ensures
        spec_is_closed(reversed_commands(segments)) == spec_is_closed(segments),
{
    subpath_ranges_partition(segments);
    closed_when_drawing_goes_on(reversed_commands(segments));
    lemma_reversed_ranges_ends(segments, spec_subpath_ranges(segments));
    lemma_closed_by_subpath_ends(segments);
}

} // verus!
