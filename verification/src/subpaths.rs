//! Subpaths: where each one starts and ends, whether they are closed, and
//! how each becomes a path of its own.
use vstd::prelude::*;

use crate::command::{Command, Segment};

verus! {

/// A subpath starts at a move, or at a segment that follows a close path
/// without a move of its own.
pub open spec fn starts_subpath(segments: Seq<Segment>, i: int) -> bool {
    segments[i].is_move() || (i > 0 && segments[i - 1].is_close())
}

/// The index ranges `(start, end)` of the subpaths of `segments`, in order.
pub open spec fn spec_subpath_ranges(segments: Seq<Segment>) -> Seq<(int, int)>
    decreases segments.len(),
{
    if segments.len() == 0 {
        Seq::empty()
    } else {
        let before = spec_subpath_ranges(segments.drop_last());
        let i = segments.len() - 1;
        if before.len() == 0 {
            seq![(0, 1)]
        } else if starts_subpath(segments, i) {
            before.push((i, i + 1))
        } else {
            before.update(before.len() - 1, (before.last().0, i + 1))
        }
    }
}

/// `ranges` cut `0..n` into consecutive non-empty pieces.
pub open spec fn is_partition(ranges: Seq<(int, int)>, n: int) -> bool {
    &&& (ranges.len() == 0 <==> n == 0)
    &&& ranges.len() > 0 ==> ranges[0].0 == 0 && ranges.last().1 == n
    &&& forall|k: int| 0 <= k < ranges.len() ==> #[trigger] ranges[k].0 < ranges[k].1
    &&& forall|k: int| 0 <= k < ranges.len() - 1 ==> #[trigger] ranges[k].1 == ranges[k + 1].0
}

/// Each piece starts where a subpath starts, and no subpath starts inside one.
pub open spec fn cuts_at_subpaths(segments: Seq<Segment>, ranges: Seq<(int, int)>) -> bool {
    &&& forall|k: int| 0 < k < ranges.len() ==> starts_subpath(segments, #[trigger] ranges[k].0)
    &&& forall|k: int, i: int|
        #![trigger ranges[k], starts_subpath(segments, i)]
        0 <= k < ranges.len() && ranges[k].0 < i < ranges[k].1 ==> !starts_subpath(segments, i)
}

proof fn lemma_prefix_starts(segments: Seq<Segment>)
    requires
        segments.len() > 0,
    ensures
        forall|j: int|
            0 <= j < segments.len() - 1 ==> starts_subpath(segments.drop_last(), j)
                == starts_subpath(segments, j),
{
    let before = segments.drop_last();
    assert forall|j: int| 0 <= j < segments.len() - 1 implies starts_subpath(before, j)
        == starts_subpath(segments, j) by {
        assert(before[j] == segments[j]);
        if j > 0 {
            assert(before[j - 1] == segments[j - 1]);
        }
    }
}

proof fn lemma_ranges_partition(segments: Seq<Segment>)
    ensures
        is_partition(spec_subpath_ranges(segments), segments.len() as int),
        forall|k: int|
            0 <= k < spec_subpath_ranges(segments).len() ==> 0 <= #[trigger] spec_subpath_ranges(
                segments,
            )[k].0 && spec_subpath_ranges(segments)[k].1 <= segments.len(),
    decreases segments.len(),
{
    if segments.len() > 0 {
        lemma_ranges_partition(segments.drop_last());
        let before = spec_subpath_ranges(segments.drop_last());
        let ranges = spec_subpath_ranges(segments);
        let i = segments.len() - 1;
        if before.len() == 0 {
        } else if starts_subpath(segments, i) {
            assert forall|k: int| 0 <= k < ranges.len() - 1 implies #[trigger] ranges[k].1
                == ranges[k + 1].0 by {
                if k < before.len() - 1 {
                    assert(before[k].1 == before[k + 1].0);
                }
            }
        } else {
            assert forall|k: int| 0 <= k < ranges.len() - 1 implies #[trigger] ranges[k].1
                == ranges[k + 1].0 by {
                assert(before[k].1 == before[k + 1].0);
            }
        }
    }
}

proof fn lemma_ranges_cut(segments: Seq<Segment>)
    ensures
        cuts_at_subpaths(segments, spec_subpath_ranges(segments)),
    decreases segments.len(),
{
    if segments.len() > 0 {
        let before_segments = segments.drop_last();
        lemma_ranges_cut(before_segments);
        lemma_ranges_partition(before_segments);
        lemma_prefix_starts(segments);
        let before = spec_subpath_ranges(before_segments);
        let ranges = spec_subpath_ranges(segments);
        let i = segments.len() - 1;
        if before.len() == 0 {
        } else if starts_subpath(segments, i) {
            assert forall|k: int, j: int|
                #![trigger ranges[k], starts_subpath(segments, j)]
                0 <= k < ranges.len() && ranges[k].0 < j < ranges[k].1 implies !starts_subpath(
                segments,
                j,
            ) by {
                if k < before.len() {
                    assert(ranges[k] == before[k]);
                    assert(before[k].0 < j < before[k].1);
                    assert(!starts_subpath(before_segments, j));
                }
            }
            assert forall|k: int| 0 < k < ranges.len() implies starts_subpath(
                segments,
                #[trigger] ranges[k].0,
            ) by {
                if k < before.len() {
                    assert(ranges[k] == before[k]);
                    assert(starts_subpath(before_segments, before[k].0));
                }
            }
        } else {
            assert forall|k: int, j: int|
                #![trigger ranges[k], starts_subpath(segments, j)]
                0 <= k < ranges.len() && ranges[k].0 < j < ranges[k].1 implies !starts_subpath(
                segments,
                j,
            ) by {
                if k < before.len() - 1 {
                    assert(ranges[k] == before[k]);
                    assert(before[k].0 < j < before[k].1);
                    assert(!starts_subpath(before_segments, j));
                } else if j < i {
                    assert(ranges[k].0 == before[k].0);
                    assert(before[k].0 < j < before[k].1);
                    assert(!starts_subpath(before_segments, j));
                }
            }
            assert forall|k: int| 0 < k < ranges.len() implies starts_subpath(
                segments,
                #[trigger] ranges[k].0,
            ) by {
                assert(ranges[k].0 == before[k].0);
                assert(starts_subpath(before_segments, before[k].0));
            }
        }
    }
}

/// The subpaths cut a path into consecutive pieces, each starting at a move
/// or after a close path, with no other such place inside any of them.
pub proof fn subpath_ranges_partition(segments: Seq<Segment>)
    ensures
        is_partition(spec_subpath_ranges(segments), segments.len() as int),
        cuts_at_subpaths(segments, spec_subpath_ranges(segments)),
        forall|k: int|
            0 <= k < spec_subpath_ranges(segments).len() ==> 0 <= #[trigger] spec_subpath_ranges(
                segments,
            )[k].0 && spec_subpath_ranges(segments)[k].1 <= segments.len(),
{
    lemma_ranges_partition(segments);
    lemma_ranges_cut(segments);
}

/// Index ranges `(start, end)` of the subpaths of `segments`. A subpath
/// starts at a move, or at a drawing segment that follows a close path
/// without a move.
pub fn subpath_ranges(segments: &Vec<Segment>) -> (ranges: Vec<(usize, usize)>)
    ensures
        ranges@.len() == spec_subpath_ranges(segments@).len(),
        forall|k: int|
            0 <= k < ranges@.len() ==> (ranges@[k].0 as int, ranges@[k].1 as int)
                == #[trigger] spec_subpath_ranges(segments@)[k],
{
    let n = segments.len();
    let mut ranges: Vec<(usize, usize)> = Vec::new();
    let mut start: usize = 0;
    let mut i: usize = 0;
    while i < n
        invariant
            i <= n == segments.len(),
            start <= i,
            i == 0 ==> start == 0 && ranges@.len() == 0,
            i > 0 ==> start < i,
            ({
                let spec = spec_subpath_ranges(segments@.subrange(0, i as int));
                &&& i > 0 ==> spec.len() == ranges@.len() + 1 && spec.last() == (
                    start as int,
                    i as int,
                )
                &&& forall|k: int|
                    0 <= k < ranges@.len() ==> (ranges@[k].0 as int, ranges@[k].1 as int)
                        == #[trigger] spec[k]
            }),
        decreases n - i,
    {
        let after_close = i > 0 && segments[i - 1].is_close_path();
        let starts = segments[i].is_move_to() || after_close;
        proof {
            let prefix = segments@.subrange(0, i + 1);
            assert(prefix.drop_last() =~= segments@.subrange(0, i as int));
            assert(prefix[i as int] == segments@[i as int]);
            if i > 0 {
                assert(prefix[i - 1] == segments@[i - 1]);
            }
            assert(starts == starts_subpath(prefix, i as int));
        }
        let ghost old_ranges = ranges@;
        let ghost old_start = start;
        if i > start && starts {
            ranges.push((start, i));
            start = i;
        }
        proof {
            let before = spec_subpath_ranges(segments@.subrange(0, i as int));
            let next = spec_subpath_ranges(segments@.subrange(0, i + 1));
            if i == 0 {
                assert(next == seq![(0int, 1int)]);
            } else if starts {
                assert(next == before.push((i as int, i + 1)));
                assert forall|k: int| 0 <= k < ranges@.len() implies (
                    ranges@[k].0 as int,
                    ranges@[k].1 as int,
                ) == #[trigger] next[k] by {
                    if k < old_ranges.len() {
                        assert(ranges@[k] == old_ranges[k]);
                    } else {
                        assert(k == old_ranges.len());
                    }
                }
            } else {
                assert(next == before.update(before.len() - 1, (old_start as int, i + 1)));
                assert forall|k: int| 0 <= k < ranges@.len() implies (
                    ranges@[k].0 as int,
                    ranges@[k].1 as int,
                ) == #[trigger] next[k] by {
                    assert(next[k] == before[k]);
                }
            }
        }
        i += 1;
    }
    if start < n {
        ranges.push((start, n));
    }
    assert(segments@.subrange(0, n as int) =~= segments@);
    ranges
}

/// Whether the subpath `range` draws anything: holds a segment other than
/// a move.
pub open spec fn subpath_draws(segments: Seq<Segment>, range: (int, int)) -> bool {
    exists|j: int| range.0 <= j < range.1 && !(#[trigger] segments[j]).is_move()
}

/// Every subpath that draws something ends with a close path, and at least
/// one draws something.
pub open spec fn spec_is_closed(segments: Seq<Segment>) -> bool {
    let ranges = spec_subpath_ranges(segments);
    &&& exists|k: int| 0 <= k < ranges.len() && subpath_draws(segments, #[trigger] ranges[k])
    &&& forall|k: int|
        0 <= k < ranges.len() && subpath_draws(segments, #[trigger] ranges[k])
            ==> segments[ranges[k].1 - 1].is_close()
}

fn draws_in(segments: &Vec<Segment>, start: usize, end: usize) -> (draws: bool)
    requires
        start <= end <= segments.len(),
    ensures
        draws == subpath_draws(segments@, (start as int, end as int)),
{
    let mut j = start;
    while j < end
        invariant
            start <= j <= end <= segments.len(),
            forall|m: int| start <= m < j ==> segments@[m].is_move(),
        decreases end - j,
    {
        if !segments[j].is_move_to() {
            return true;
        }
        j += 1;
    }
    false
}

/// Returns whether every subpath that draws something ends with a close
/// path (`Z`/`z`). An empty path, or one that only moves, is not closed.
///
/// This follows SVG: a subpath that returns to its start without a close
/// path is still open, and a stroke gets line caps there instead of a join.
pub fn is_closed(segments: &Vec<Segment>) -> (closed: bool)
    ensures
        closed == spec_is_closed(segments@),
{
    let ranges = subpath_ranges(segments);
    let ghost spec = spec_subpath_ranges(segments@);
    proof {
        subpath_ranges_partition(segments@);
    }
    let mut draws_anything = false;
    let mut k: usize = 0;
    while k < ranges.len()
        invariant
            k <= ranges.len() == spec.len(),
            spec == spec_subpath_ranges(segments@),
            forall|m: int|
                0 <= m < spec.len() ==> 0 <= #[trigger] spec[m].0 < spec[m].1 <= segments@.len(),
            forall|m: int|
                0 <= m < ranges@.len() ==> (ranges@[m].0 as int, ranges@[m].1 as int)
                    == #[trigger] spec[m],
            draws_anything <==> exists|m: int|
                0 <= m < k && subpath_draws(segments@, #[trigger] spec[m]),
            forall|m: int|
                0 <= m < k && subpath_draws(segments@, #[trigger] spec[m])
                    ==> segments@[spec[m].1 - 1].is_close(),
        decreases ranges.len() - k,
    {
        let (start, end) = ranges[k];
        assert((start as int, end as int) == spec[k as int]);
        let drawing = draws_in(segments, start, end);
        if drawing {
            draws_anything = true;
            if !segments[end - 1].is_close_path() {
                return false;
            }
        }
        k += 1;
    }
    draws_anything
}

/// How a subpath begins once it is a path of its own.
#[derive(Clone, Copy, Debug, PartialEq, Eq, Structural)]
pub enum Lead {
    /// Its first segment is kept as it is: an absolute move, or the path's
    /// own first move, which is relative to the origin either way.
    Keep,
    /// Its first segment is a relative move that depended on the subpath
    /// before it, and becomes an absolute move to the same point.
    AbsoluteMove,
    /// It starts without a move, after a close path: an absolute move to
    /// where it starts comes before its first segment.
    AddMove,
}

/// A subpath of a path: the segments `start..end`, and how its own path
/// begins.
#[derive(Clone, Copy, Debug, PartialEq, Eq, Structural)]
pub struct Subpath {
    pub start: usize,
    pub end: usize,
    pub lead: Lead,
}

/// How the subpath starting at `start` begins as a path of its own.
pub open spec fn spec_lead(segments: Seq<Segment>, start: int) -> Lead {
    if segments[start].is_move() {
        if !segments[start].abs && start > 0 {
            Lead::AbsoluteMove
        } else {
            Lead::Keep
        }
    } else {
        Lead::AddMove
    }
}

/// Splits a path into its subpaths, each one to become a path of its own.
///
/// A subpath starts at a move, or at a drawing segment that follows a close
/// path without a move of its own. A relative move that depended on the
/// previous subpath becomes absolute, and a subpath that started without a
/// move gets one. Every other segment is kept as it is.
pub fn split_subpaths(segments: &Vec<Segment>) -> (subpaths: Vec<Subpath>)
    ensures
        subpaths@.len() == spec_subpath_ranges(segments@).len(),
        forall|k: int|
            0 <= k < subpaths@.len() ==> {
                let range = #[trigger] spec_subpath_ranges(segments@)[k];
                &&& subpaths@[k].start == range.0
                &&& subpaths@[k].end == range.1
                &&& subpaths@[k].lead == spec_lead(segments@, range.0)
            },
{
    let ranges = subpath_ranges(segments);
    proof {
        subpath_ranges_partition(segments@);
    }
    let ghost spec = spec_subpath_ranges(segments@);
    let mut subpaths: Vec<Subpath> = Vec::new();
    let mut k: usize = 0;
    while k < ranges.len()
        invariant
            k <= ranges.len() == spec.len(),
            spec == spec_subpath_ranges(segments@),
            forall|m: int|
                0 <= m < spec.len() ==> 0 <= #[trigger] spec[m].0 < spec[m].1 <= segments@.len(),
            forall|m: int|
                0 <= m < ranges@.len() ==> (ranges@[m].0 as int, ranges@[m].1 as int)
                    == #[trigger] spec[m],
            subpaths@.len() == k,
            forall|m: int|
                0 <= m < k ==> {
                    let range = #[trigger] spec[m];
                    &&& subpaths@[m].start == range.0
                    &&& subpaths@[m].end == range.1
                    &&& subpaths@[m].lead == spec_lead(segments@, range.0)
                },
        decreases ranges.len() - k,
    {
        let (start, end) = ranges[k];
        assert((start as int, end as int) == spec[k as int]);
        let first = segments[start];
        let lead = if first.is_move_to() {
            if !first.abs && start > 0 {
                Lead::AbsoluteMove
            } else {
                Lead::Keep
            }
        } else {
            Lead::AddMove
        };
        subpaths.push(Subpath { start, end, lead });
        k += 1;
    }
    subpaths
}

/// The commands of the path the subpath `start..end` becomes on its own.
pub open spec fn part_segments(segments: Seq<Segment>, start: int, end: int, lead: Lead) -> Seq<
    Segment,
> {
    let absolute_move = Segment { command: Command::MoveTo, abs: true };
    match lead {
        Lead::Keep => segments.subrange(start, end),
        Lead::AbsoluteMove => seq![absolute_move] + segments.subrange(start + 1, end),
        Lead::AddMove => seq![absolute_move] + segments.subrange(start, end),
    }
}

/// Each path [`split_subpaths`] makes is a single subpath.
pub proof fn split_parts_are_single_subpaths(segments: Seq<Segment>, k: int)
    requires
        0 <= k < spec_subpath_ranges(segments).len(),
    ensures
        ({
            let range = spec_subpath_ranges(segments)[k];
            let part = part_segments(segments, range.0, range.1, spec_lead(segments, range.0));
            spec_subpath_ranges(part) == seq![(0int, part.len() as int)]
        }),
{
    subpath_ranges_partition(segments);
    let ranges = spec_subpath_ranges(segments);
    let range = ranges[k];
    assert(0 <= range.0 < range.1 <= segments.len());
    let lead = spec_lead(segments, range.0);
    let part = part_segments(segments, range.0, range.1, lead);
    assert forall|j: int| range.0 < j < range.1 implies !starts_subpath(segments, j) by {
        assert(ranges[k].0 < j < ranges[k].1);
    }
    lemma_part_no_inner_starts(segments, range.0, range.1, lead);
    lemma_single_subpath(part, part.len() as int);
    assert(part.subrange(0, part.len() as int) =~= part);
}

proof fn lemma_part_no_inner_starts(segments: Seq<Segment>, start: int, end: int, lead: Lead)
    requires
        0 <= start < end <= segments.len(),
        lead == spec_lead(segments, start),
        forall|j: int| start < j < end ==> !starts_subpath(segments, j),
    ensures
        forall|j: int|
            0 < j < part_segments(segments, start, end, lead).len() ==> !starts_subpath(
                part_segments(segments, start, end, lead),
                j,
            ),
{
    let part = part_segments(segments, start, end, lead);
    match lead {
        Lead::Keep => {
            assert forall|j: int| 0 < j < part.len() implies !starts_subpath(part, j) by {
                assert(part[j] == segments[start + j]);
                assert(part[j - 1] == segments[start + j - 1]);
                assert(!starts_subpath(segments, start + j));
            }
        },
        Lead::AbsoluteMove => {
            assert forall|j: int| 0 < j < part.len() implies !starts_subpath(part, j) by {
                assert(part[j] == segments[start + j]);
                assert(!starts_subpath(segments, start + j));
                if j > 1 {
                    assert(part[j - 1] == segments[start + j - 1]);
                }
            }
        },
        Lead::AddMove => {
            assert forall|j: int| 0 < j < part.len() implies !starts_subpath(part, j) by {
                assert(part[j] == segments[start + j - 1]);
                if j > 1 {
                    assert(part[j - 1] == segments[start + j - 2]);
                    assert(!starts_subpath(segments, start + j - 1));
                } else {
                    assert(!segments[start].is_move());
                }
            }
        },
    }
}

proof fn lemma_single_subpath(part: Seq<Segment>, n: int)
    requires
        0 < n <= part.len(),
        forall|j: int| 0 < j < part.len() ==> !starts_subpath(part, j),
    ensures
        spec_subpath_ranges(part.subrange(0, n)) == seq![(0int, n)],
    decreases n,
{
    reveal_with_fuel(spec_subpath_ranges, 2);
    let prefix = part.subrange(0, n);
    assert(prefix.drop_last() =~= part.subrange(0, n - 1));
    if n > 1 {
        lemma_single_subpath(part, n - 1);
        assert(prefix[n - 1] == part[n - 1]);
        assert(prefix[n - 2] == part[n - 2]);
        assert(!starts_subpath(part, n - 1));
        assert(!starts_subpath(prefix, n - 1));
        assert(seq![(0int, n - 1)].update(0, (0int, n)) =~= seq![(0int, n)]);
    }
}

/// An empty path, or one that only moves, is not closed: it draws nothing.
pub proof fn moves_alone_are_not_closed(segments: Seq<Segment>)
    requires
        forall|i: int| 0 <= i < segments.len() ==> (#[trigger] segments[i]).is_move(),
    ensures
        !spec_is_closed(segments),
{
    subpath_ranges_partition(segments);
    let ranges = spec_subpath_ranges(segments);
    assert forall|k: int| 0 <= k < ranges.len() implies !subpath_draws(segments, #[trigger] ranges[k]) by {
        assert(0 <= ranges[k].0 && ranges[k].1 <= segments.len());
    }
}

/// A path whose every subpath ends with a close path is closed, as long as
/// one of them draws something.
pub proof fn closing_every_subpath_closes_the_path(segments: Seq<Segment>)
    requires
        segments.len() > 0,
        exists|i: int| 0 <= i < segments.len() && !(#[trigger] segments[i]).is_move(),
        forall|k: int|
            0 <= k < spec_subpath_ranges(segments).len() ==> segments[#[trigger] spec_subpath_ranges(
                segments,
            )[k].1 - 1].is_close(),
    ensures
        spec_is_closed(segments),
{
    subpath_ranges_partition(segments);
    let ranges = spec_subpath_ranges(segments);
    let i = choose|i: int| 0 <= i < segments.len() && !(#[trigger] segments[i]).is_move();
    let k = lemma_range_of(ranges, segments.len() as int, i);
    assert(subpath_draws(segments, ranges[k]));
}

/// The piece of a partition that holds position `i`.
proof fn lemma_range_of(ranges: Seq<(int, int)>, n: int, i: int) -> (k: int)
    requires
        is_partition(ranges, n),
        0 <= i < n,
    ensures
        0 <= k < ranges.len(),
        ranges[k].0 <= i < ranges[k].1,
    decreases ranges.len(),
{
    let last = ranges.len() - 1;
    assert(ranges[last] == ranges.last());
    if ranges[last].0 <= i {
        last
    } else {
        let before = ranges.drop_last();
        assert(before.len() > 0) by {
            if before.len() == 0 {
                assert(ranges[0].0 == 0);
            }
        }
        assert(before.last() == ranges[last - 1]);
        assert(ranges[last - 1].1 == ranges[last].0);
        assert(is_partition(before, ranges[last].0)) by {
            assert forall|k: int| 0 <= k < before.len() implies #[trigger] before[k].0 < before[k].1 by {
                assert(before[k] == ranges[k]);
            }
            assert forall|k: int| 0 <= k < before.len() - 1 implies #[trigger] before[k].1 == before[k
                + 1].0 by {
                assert(before[k] == ranges[k]);
                assert(before[k + 1] == ranges[k + 1]);
            }
        }
        let k = lemma_range_of(before, ranges[last].0, i);
        assert(before[k] == ranges[k]);
        k
    }
}

/// The path that subpath `k` of `segments` becomes on its own.
pub open spec fn subpath_part(segments: Seq<Segment>, k: int) -> Seq<Segment> {
    let range = spec_subpath_ranges(segments)[k];
    part_segments(segments, range.0, range.1, spec_lead(segments, range.0))
}

/// A path is closed exactly when some path [`split_subpaths`] makes of it
/// draws something, and every one that does is closed.
pub proof fn closed_when_its_parts_are(segments: Seq<Segment>)
    ensures
        spec_is_closed(segments) == ({
            let n = spec_subpath_ranges(segments).len();
            &&& exists|k: int|
                0 <= k < n && subpath_draws(
                    #[trigger] subpath_part(segments, k),
                    (0, subpath_part(segments, k).len() as int),
                )
            &&& forall|k: int|
                0 <= k < n && subpath_draws(
                    #[trigger] subpath_part(segments, k),
                    (0, subpath_part(segments, k).len() as int),
                ) ==> spec_is_closed(subpath_part(segments, k))
        }),
{
    let ranges = spec_subpath_ranges(segments);
    assert forall|k: int|
        #![trigger subpath_part(segments, k)]
        #![trigger ranges[k]]
        0 <= k < ranges.len() implies {
        &&& subpath_draws(
            subpath_part(segments, k),
            (0, subpath_part(segments, k).len() as int),
        ) == subpath_draws(segments, ranges[k])
        &&& spec_is_closed(subpath_part(segments, k)) == (subpath_draws(segments, ranges[k])
            && segments[ranges[k].1 - 1].is_close())
    } by {
        lemma_part_draws_as_its_subpath(segments, k);
        split_parts_are_single_subpaths(segments, k);
        lemma_single_range_closed(subpath_part(segments, k));
    }
    subpath_ranges_partition(segments);
}

proof fn lemma_single_range_closed(part: Seq<Segment>)
    requires
        part.len() > 0,
        spec_subpath_ranges(part) == seq![(0int, part.len() as int)],
    ensures
        spec_is_closed(part) == (subpath_draws(part, (0, part.len() as int)) && part[part.len()
            - 1].is_close()),
{
    let ranges = spec_subpath_ranges(part);
    assert(ranges[0] == (0int, part.len() as int));
    if subpath_draws(part, (0, part.len() as int)) {
        assert(subpath_draws(part, ranges[0]));
    }
}

#[verifier::spinoff_prover]
proof fn lemma_part_draws_as_its_subpath(segments: Seq<Segment>, k: int)
    requires
        0 <= k < spec_subpath_ranges(segments).len(),
    ensures
        ({
            let range = spec_subpath_ranges(segments)[k];
            let part = subpath_part(segments, k);
            &&& part.len() > 0
            &&& subpath_draws(part, (0, part.len() as int)) == subpath_draws(segments, range)
            &&& part[part.len() - 1].is_close() == segments[range.1 - 1].is_close()
        }),
{
    subpath_ranges_partition(segments);
    let range = spec_subpath_ranges(segments)[k];
    let start = range.0;
    let end = range.1;
    assert(0 <= start < end <= segments.len());
    let part = subpath_part(segments, k);
    let first = segments[start];
    match spec_lead(segments, start) {
        Lead::Keep => {
            assert(part =~= segments.subrange(start, end));
            lemma_shifted_draws(segments, start, end, part);
        },
        Lead::AbsoluteMove => {
            assert(first.is_move());
            lemma_moved_front_draws(segments, start, end, part);
        },
        Lead::AddMove => {
            lemma_added_move_draws(segments, start, end, part);
        },
    }
}

proof fn lemma_shifted_draws(segments: Seq<Segment>, start: int, end: int, part: Seq<Segment>)
    requires
        0 <= start < end <= segments.len(),
        part == segments.subrange(start, end),
    ensures
        part.len() > 0,
        part[part.len() - 1] == segments[end - 1],
        subpath_draws(part, (0, part.len() as int)) == subpath_draws(
            segments,
            (start, end),
        ),
{
    if subpath_draws(segments, (start, end)) {
        let j = choose|j: int| start <= j < end && !(#[trigger] segments[j]).is_move();
        assert(part[j - start] == segments[j]);
    }
    if subpath_draws(part, (0, part.len() as int)) {
        let j = choose|j: int| 0 <= j < part.len() && !(#[trigger] part[j]).is_move();
        assert(part[j] == segments[start + j]);
    }
}

proof fn lemma_moved_front_draws(segments: Seq<Segment>, start: int, end: int, part: Seq<Segment>)
    requires
        0 <= start < end <= segments.len(),
        segments[start].is_move(),
        part == seq![Segment { command: Command::MoveTo, abs: true }] + segments.subrange(
            start + 1,
            end,
        ),
    ensures
        part.len() > 0,
        part[part.len() - 1].is_close() == segments[end - 1].is_close(),
        subpath_draws(part, (0, part.len() as int)) == subpath_draws(segments, (start, end)),
{
    assert(part.len() == end - start);
    assert forall|j: int| 0 < j < part.len() implies part[j] == segments[start + j] by {}
    if subpath_draws(segments, (start, end)) {
        let j = choose|j: int| start <= j < end && !(#[trigger] segments[j]).is_move();
        assert(part[j - start] == segments[j]);
    }
    if subpath_draws(part, (0, part.len() as int)) {
        let j = choose|j: int| 0 <= j < part.len() && !(#[trigger] part[j]).is_move();
        assert(part[j] == segments[start + j]);
    }
    if part.len() > 1 {
        assert(part[part.len() - 1] == segments[end - 1]);
    }
}

proof fn lemma_added_move_draws(segments: Seq<Segment>, start: int, end: int, part: Seq<Segment>)
    requires
        0 <= start < end <= segments.len(),
        !segments[start].is_move(),
        part == seq![Segment { command: Command::MoveTo, abs: true }] + segments.subrange(
            start,
            end,
        ),
    ensures
        part.len() > 0,
        part[part.len() - 1].is_close() == segments[end - 1].is_close(),
        subpath_draws(part, (0, part.len() as int)),
        subpath_draws(segments, (start, end)),
{
    assert(part[1] == segments[start]);
    assert(part[part.len() - 1] == segments[end - 1]);
}

/// Some segment of `segments` is not a move.
pub open spec fn draws_anything(segments: Seq<Segment>) -> bool {
    exists|i: int| 0 <= i < segments.len() && !(#[trigger] segments[i]).is_move()
}

/// Every segment that draws is followed by one that is not a move: a drawing
/// segment, or a close path.
pub open spec fn drawing_goes_on(segments: Seq<Segment>) -> bool {
    forall|i: int|
        0 <= i < segments.len() && (#[trigger] segments[i]).is_drawing() ==> i + 1
            < segments.len() && !segments[i + 1].is_move()
}

/// A path is closed exactly when it draws something and no drawing segment
/// ends a subpath: each is followed by another drawing segment or a close
/// path, never by a move or by the end of the path.
pub proof fn closed_when_drawing_goes_on(segments: Seq<Segment>)
    ensures
        spec_is_closed(segments) == (draws_anything(segments) && drawing_goes_on(segments)),
{
    subpath_ranges_partition(segments);
    let ranges = spec_subpath_ranges(segments);
    let n = segments.len() as int;
    if spec_is_closed(segments) {
        let k = choose|k: int| 0 <= k < ranges.len() && subpath_draws(segments, #[trigger] ranges[k]);
        let j = choose|j: int| ranges[k].0 <= j < ranges[k].1 && !(#[trigger] segments[j]).is_move();
        assert(!segments[j].is_move());
        assert forall|i: int| 0 <= i < n && (#[trigger] segments[i]).is_drawing() implies i + 1 < n
            && !segments[i + 1].is_move() by {
            let m = lemma_range_of(ranges, n, i);
            assert(subpath_draws(segments, ranges[m]));
            assert(segments[ranges[m].1 - 1].is_close());
            assert(i + 1 < ranges[m].1);
            assert(!starts_subpath(segments, i + 1));
        }
    }
    if draws_anything(segments) && drawing_goes_on(segments) {
        let i = choose|i: int| 0 <= i < n && !(#[trigger] segments[i]).is_move();
        let m = lemma_range_of(ranges, n, i);
        assert(subpath_draws(segments, ranges[m]));
        assert forall|k: int|
            0 <= k < ranges.len() && subpath_draws(segments, #[trigger] ranges[k]) implies segments[ranges[k].1
            - 1].is_close() by {
            let last = ranges[k].1 - 1;
            let j = choose|j: int| ranges[k].0 <= j < ranges[k].1 && !(#[trigger] segments[j]).is_move();
            if !segments[last].is_close() {
                if segments[last].is_move() {
                    if last > ranges[k].0 {
                        assert(!starts_subpath(segments, last));
                    }
                    assert(j == last);
                }
                assert(segments[last].is_drawing());
                assert(last + 1 < n);
                assert(k + 1 < ranges.len());
                assert(ranges[k].1 == ranges[k + 1].0);
                assert(starts_subpath(segments, ranges[k + 1].0));
            }
        }
    }
}

} // verus!
