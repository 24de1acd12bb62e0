//! Runs of pieces between the corners of a path.
use vstd::prelude::*;

verus! {

/// `runs` cut `0..sharp.len()` into consecutive non-empty pieces, a new one
/// starting exactly where `sharp` holds: `sharp[i]` says whether the join
/// into piece `i` is a corner, and `sharp[0]` is not read.
pub open spec fn runs_between_corners(sharp: Seq<bool>, runs: Seq<(usize, usize)>) -> bool {
    &&& (runs.len() == 0 <==> sharp.len() == 0)
    &&& runs.len() > 0 ==> runs[0].0 == 0 && runs.last().1 == sharp.len()
    &&& forall|k: int| 0 <= k < runs.len() ==> #[trigger] runs[k].0 < runs[k].1
    &&& forall|k: int| 0 <= k < runs.len() - 1 ==> #[trigger] runs[k].1 == runs[k + 1].0
    &&& forall|k: int| 0 < k < runs.len() ==> sharp[#[trigger] runs[k].0 as int]
    &&& forall|k: int, i: int|
        #![trigger runs[k], sharp[i]]
        0 <= k < runs.len() && runs[k].0 < i < runs[k].1 ==> !sharp[i]
}

/// The runs of pieces that follow each other between the joins that are
/// corners, as ranges of piece indices. `sharp[i]` says whether the join
/// from piece `i - 1` into piece `i` turns by more than the corner angle.
pub fn corner_runs(sharp: &Vec<bool>) -> (runs: Vec<(usize, usize)>)
    ensures
        runs_between_corners(sharp@, runs@),
{
    let n = sharp.len();
    let mut runs: Vec<(usize, usize)> = Vec::new();
    if n == 0 {
        return runs;
    }
    let mut first: usize = 0;
    let mut i: usize = 1;
    while i < n
        invariant
            n == sharp.len(),
            first < i <= n,
            (runs@.len() == 0 <==> first == 0),
            runs@.len() > 0 ==> runs@[0].0 == 0 && runs@.last().1 == first,
            forall|k: int| 0 <= k < runs@.len() ==> #[trigger] runs@[k].0 < runs@[k].1,
            forall|k: int| 0 <= k < runs@.len() - 1 ==> #[trigger] runs@[k].1 == runs@[k + 1].0,
            forall|k: int| 0 < k < runs@.len() ==> sharp@[#[trigger] runs@[k].0 as int],
            runs@.len() > 0 ==> sharp@[first as int],
            forall|k: int, j: int|
                #![trigger runs@[k], sharp@[j]]
                0 <= k < runs@.len() && runs@[k].0 < j < runs@[k].1 ==> !sharp@[j],
            forall|j: int| first < j < i ==> !sharp@[j],
        decreases n - i,
    {
        if sharp[i] {
            let ghost before = runs@;
            runs.push((first, i));
            proof {
                assert(runs@[runs@.len() - 1] == (first, i));
                assert forall|k: int| 0 <= k < runs@.len() - 1 implies #[trigger] runs@[k].1
                    == runs@[k + 1].0 by {
                    if k < before.len() - 1 {
                        assert(before[k].1 == before[k + 1].0);
                    } else {
                        assert(before.last() == before[k]);
                    }
                }
                assert forall|k: int| 0 < k < runs@.len() implies sharp@[#[trigger] runs@[k].0 as int] by {
                    if k < before.len() {
                        assert(runs@[k] == before[k]);
                    }
                }
                assert forall|k: int, j: int|
                    #![trigger runs@[k], sharp@[j]]
                    0 <= k < runs@.len() && runs@[k].0 < j < runs@[k].1 implies !sharp@[j] by {
                    if k < before.len() {
                        assert(runs@[k] == before[k]);
                    }
                }
            }
            first = i;
        }
        i += 1;
    }
    let ghost before = runs@;
    runs.push((first, n));
    proof {
        assert(runs@[runs@.len() - 1] == (first, n));
        assert forall|k: int| 0 <= k < runs@.len() - 1 implies #[trigger] runs@[k].1 == runs@[k
            + 1].0 by {
            if k < before.len() - 1 {
                assert(before[k].1 == before[k + 1].0);
            } else {
                assert(before.last() == before[k]);
            }
        }
        assert forall|k: int| 0 < k < runs@.len() implies sharp@[#[trigger] runs@[k].0 as int] by {
            if k < before.len() {
                assert(runs@[k] == before[k]);
            }
        }
        assert forall|k: int, j: int|
            #![trigger runs@[k], sharp@[j]]
            0 <= k < runs@.len() && runs@[k].0 < j < runs@[k].1 implies !sharp@[j] by {
            if k < before.len() {
                assert(runs@[k] == before[k]);
            }
        }
    }
    runs
}

/// The piece indices `start..end`, in order.
pub open spec fn indices(start: int, end: int) -> Seq<usize> {
    Seq::new((end - start) as nat, |j: int| (start + j) as usize)
}

/// Each run as the list of its piece indices.
pub open spec fn run_lists(runs: Seq<(usize, usize)>) -> Seq<Seq<usize>> {
    Seq::new(runs.len(), |k: int| indices(runs[k].0 as int, runs[k].1 as int))
}

/// The runs of a subpath smoothed across its start: with a smooth seam and
/// more than one run, the first run goes on from the end of the last.
pub open spec fn across_seam(lists: Seq<Seq<usize>>, seam: bool) -> Seq<Seq<usize>> {
    if seam && lists.len() > 1 {
        lists.subrange(1, lists.len() - 1).push(lists.last() + lists[0])
    } else {
        lists
    }
}

/// The lists of `lists` that hold more than one piece, in order.
pub open spec fn longer_than_one(lists: Seq<Seq<usize>>) -> Seq<Seq<usize>>
    decreases lists.len(),
{
    if lists.len() == 0 {
        Seq::empty()
    } else {
        let before = longer_than_one(lists.drop_last());
        if lists.last().len() > 1 {
            before.push(lists.last())
        } else {
            before
        }
    }
}

/// The lists held by a vector of vectors.
pub open spec fn lists_of(v: Seq<Vec<usize>>) -> Seq<Seq<usize>> {
    Seq::new(v.len(), |k: int| v[k]@)
}

/// The stretches of a subpath's drawing pieces that are each drawn as one
/// smooth curve through their points, and whether the only one goes all
/// round a closed subpath.
pub struct Stretches {
    pub runs: Vec<Vec<usize>>,
    pub cyclic: bool,
}

/// Whether a closed subpath is smoothed across its start: it has more than
/// one piece and the join from its last piece into its first is no corner.
pub open spec fn smooth_across_start(pieces: usize, closed: bool, smooth_seam: bool) -> bool {
    closed && pieces > 1 && smooth_seam
}

fn push_indices(list: &mut Vec<usize>, start: usize, end: usize)
    requires
        start <= end,
    ensures
        final(list)@ == old(list)@ + indices(start as int, end as int),
{
    let ghost before = list@;
    let mut i = start;
    while i < end
        invariant
            start <= i <= end,
            list@ == before + indices(start as int, i as int),
        decreases end - i,
    {
        list.push(i);
        proof {
            assert(indices(start as int, i + 1) =~= indices(start as int, i as int).push(i));
        }
        i += 1;
    }
}

proof fn lemma_longer_than_one_step(lists: Seq<Seq<usize>>, k: int)
    requires
        0 <= k < lists.len(),
    ensures
        longer_than_one(lists.subrange(0, k + 1)) == if lists[k].len() > 1 {
            longer_than_one(lists.subrange(0, k)).push(lists[k])
        } else {
            longer_than_one(lists.subrange(0, k))
        },
{
    assert(lists.subrange(0, k + 1).drop_last() =~= lists.subrange(0, k));
    assert(lists.subrange(0, k + 1).last() == lists[k]);
}

/// Keeps `list` as a stretch when it holds more than one piece.
fn keep_if_longer(out: &mut Vec<Vec<usize>>, list: Vec<usize>)
    ensures
        lists_of(final(out)@) == if list@.len() > 1 {
            lists_of(old(out)@).push(list@)
        } else {
            lists_of(old(out)@)
        },
{
    if list.len() > 1 {
        let ghost before = out@;
        out.push(list);
        proof {
            assert(lists_of(out@) =~= lists_of(before).push(out@[out@.len() - 1]@));
        }
    }
}

/// The stretches smoothed as one curve each: the corner `runs` of the
/// `pieces` drawing pieces of a subpath, the first joined onto the last when
/// the closed subpath is smoothed across its start, or a single stretch
/// going all round when it has no corner at all. A stretch of one piece
/// keeps its segment and is left out.
pub fn stretches(runs: &Vec<(usize, usize)>, pieces: usize, closed: bool, smooth_seam: bool) -> (s: Stretches)
    requires
        forall|k: int| 0 <= k < runs.len() ==> #[trigger] runs[k].0 <= runs[k].1,
    ensures
        s.cyclic == (smooth_across_start(pieces, closed, smooth_seam) && runs.len() == 1),
        lists_of(s.runs@) == longer_than_one(
            across_seam(run_lists(runs@), smooth_across_start(pieces, closed, smooth_seam)),
        ),
{
    let seam = closed && pieces > 1 && smooth_seam;
    let n = runs.len();
    let ghost all = run_lists(runs@);
    let ghost target = across_seam(all, seam);
    let mut out: Vec<Vec<usize>> = Vec::new();
    let merged = seam && n > 1;
    let (from, to) = if merged {
        (1, n - 1)
    } else {
        (0, n)
    };
    let mut k = from;
    while k < to
        invariant
            from <= k <= to <= n == runs.len(),
            merged == (seam && n > 1),
            all.len() == n,
            merged ==> from == 1 && to == n - 1,
            !merged ==> from == 0 && to == n,
            all == run_lists(runs@),
            target == across_seam(all, seam),
            forall|m: int| 0 <= m < runs.len() ==> #[trigger] runs[m].0 <= runs[m].1,
            lists_of(out@) == longer_than_one(target.subrange(0, k - from)),
        decreases to - k,
    {
        let mut list: Vec<usize> = Vec::new();
        push_indices(&mut list, runs[k].0, runs[k].1);
        proof {
            assert(list@ =~= all[k as int]);
            if merged {
                assert(all.subrange(1, n - 1)[k - 1] == all[k as int]);
            }
            assert(target[k - from] == all[k as int]);
            lemma_longer_than_one_step(target, k - from);
        }
        keep_if_longer(&mut out, list);
        k += 1;
    }
    if merged {
        let mut list: Vec<usize> = Vec::new();
        push_indices(&mut list, runs[n - 1].0, runs[n - 1].1);
        push_indices(&mut list, runs[0].0, runs[0].1);
        proof {
            assert(list@ =~= all.last() + all[0]);
            assert(target.len() == n - 1);
            assert(target[n - 2] == all.last() + all[0]);
            lemma_longer_than_one_step(target, n - 2);
        }
        keep_if_longer(&mut out, list);
        assert(target.subrange(0, n - 1) =~= target);
    } else {
        assert(target.subrange(0, n as int) =~= target);
    }
    Stretches { runs: out, cyclic: seam && n == 1 }
}


/// A closed subpath smoothed across its start, with more than one run,
/// is smoothed as one stretch from its last run on into its first: the last
/// stretch is the last run's pieces followed by the first run's, and no
/// stretch is the first run alone. Without the seam, each run of more than
/// one piece is a stretch of its own, the first run first.
pub proof fn seam_joins_first_run_onto_last(runs: Seq<(usize, usize)>, seam: bool)
    requires
        runs.len() > 1,
        forall|k: int| 0 <= k < runs.len() ==> #[trigger] runs[k].0 < runs[k].1,
        forall|a: int, b: int| 0 <= a < b < runs.len() ==> #[trigger] runs[a].1 <= #[trigger] runs[b].0,
    ensures
        ({
            let out = longer_than_one(across_seam(run_lists(runs), seam));
            let first = indices(runs[0].0 as int, runs[0].1 as int);
            let last = indices(runs.last().0 as int, runs.last().1 as int);
            &&& seam ==> out.len() > 0 && out.last() == last + first
            &&& seam ==> forall|m: int| 0 <= m < out.len() ==> #[trigger] out[m] != first
            &&& !seam && first.len() > 1 ==> out.len() > 0 && out[0] == first
        }),
{
    let lists = run_lists(runs);
    let n = runs.len() as int;
    let first = indices(runs[0].0 as int, runs[0].1 as int);
    let last = indices(runs.last().0 as int, runs.last().1 as int);
    assert(lists[0] == first);
    assert(lists[n - 1] == last);
    assert(lists.last() == last);
    if seam {
        let joined = lists.subrange(1, n - 1).push(last + first);
        assert(joined.last() == last + first);
        assert(joined.drop_last() =~= lists.subrange(1, n - 1));
        assert((last + first).len() > 1);
        let out = longer_than_one(joined);
        lemma_longer_than_one_within(joined);
        assert forall|m: int| 0 <= m < out.len() implies #[trigger] out[m] != first by {
            let j = choose|j: int| 0 <= j < joined.len() && joined[j] == out[m];
            if j < n - 2 {
                assert(joined[j] == lists[j + 1]);
                let r = runs[j + 1];
                assert(lists[j + 1] == indices(r.0 as int, r.1 as int));
                assert(lists[j + 1][0] == r.0);
                assert(first[0] == runs[0].0);
                assert(runs[0].1 <= runs[j + 1].0);
                assert(out[m][0] != first[0]);
            } else {
                assert((last + first).len() > first.len());
            }
        }
    } else if first.len() > 1 {
        lemma_longer_than_one_first(lists);
    }
}

/// Each list kept is one of the lists.
proof fn lemma_longer_than_one_within(lists: Seq<Seq<usize>>)
    ensures
        forall|m: int|
            0 <= m < longer_than_one(lists).len() ==> exists|j: int|
                0 <= j < lists.len() && lists[j] == #[trigger] longer_than_one(lists)[m],
    decreases lists.len(),
{
    if lists.len() > 0 {
        let before = lists.drop_last();
        lemma_longer_than_one_within(before);
        let out = longer_than_one(lists);
        assert forall|m: int| 0 <= m < out.len() implies exists|j: int|
            0 <= j < lists.len() && lists[j] == #[trigger] out[m] by {
            if m < longer_than_one(before).len() {
                let j = choose|j: int| 0 <= j < before.len() && before[j] == longer_than_one(before)[m];
                assert(lists[j] == before[j]);
            } else {
                assert(lists[lists.len() - 1] == out[m]);
            }
        }
    }
}

/// The first list, when it is kept, comes first.
proof fn lemma_longer_than_one_first(lists: Seq<Seq<usize>>)
    requires
        lists.len() > 0,
        lists[0].len() > 1,
    ensures
        longer_than_one(lists).len() > 0,
        longer_than_one(lists)[0] == lists[0],
    decreases lists.len(),
{
    let before = lists.drop_last();
    if lists.len() == 1 {
        assert(before =~= Seq::<Seq<usize>>::empty());
        assert(longer_than_one(before).len() == 0);
        assert(lists.last() == lists[0]);
    } else {
        assert(before[0] == lists[0]);
        lemma_longer_than_one_first(before);
        let kept = longer_than_one(before);
        if lists.last().len() > 1 {
            assert(kept.push(lists.last())[0] == kept[0]);
        }
    }
}

} // verus!
