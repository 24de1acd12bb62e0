//! Rewriting a path segment by segment.
use vstd::prelude::*;

verus! {

/// `items` with each one replaced by its entry of `replacements`, or kept
/// where that entry is empty.
pub open spec fn spliced<T>(items: Seq<T>, replacements: Seq<Seq<T>>) -> Seq<T>
    decreases items.len(),
{
    if items.len() == 0 {
        Seq::empty()
    } else {
        spliced(items.drop_last(), replacements.drop_last()) + if replacements.last().len() == 0 {
            seq![items.last()]
        } else {
            replacements.last()
        }
    }
}

/// Replaces each item with the items it was rewritten to, in place. An
/// empty replacement keeps the item as it is, so a rewrite that changes
/// nothing need not copy it.
pub fn splice_replacements<T: Copy>(items: &Vec<T>, replacements: &Vec<Vec<T>>) -> (out: Vec<T>)
    requires
        items.len() == replacements.len(),
    ensures
        out@ == spliced(items@, Seq::new(replacements.len() as nat, |i: int| replacements[i]@)),
{
    let ghost all = Seq::new(replacements.len() as nat, |i: int| replacements[i]@);
    let mut out: Vec<T> = Vec::new();
    let mut i: usize = 0;
    while i < items.len()
        invariant
            i <= items.len() == replacements.len(),
            all == Seq::new(replacements.len() as nat, |i: int| replacements[i]@),
            out@ == spliced(items@.subrange(0, i as int), all.subrange(0, i as int)),
        decreases items.len() - i,
    {
        let ghost before = out@;
        let replacement = &replacements[i];
        if replacement.len() == 0 {
            out.push(items[i]);
        } else {
            let mut j: usize = 0;
            while j < replacement.len()
                invariant
                    j <= replacement.len(),
                    out@ == before + replacement@.subrange(0, j as int),
                decreases replacement.len() - j,
            {
                out.push(replacement[j]);
                j += 1;
                assert(replacement@.subrange(0, j as int) =~= replacement@.subrange(0, j - 1).push(
                    replacement@[j - 1],
                ));
            }
            assert(replacement@.subrange(0, replacement.len() as int) =~= replacement@);
        }
        proof {
            let items_next = items@.subrange(0, i + 1);
            let all_next = all.subrange(0, i + 1);
            assert(items_next.drop_last() =~= items@.subrange(0, i as int));
            assert(all_next.drop_last() =~= all.subrange(0, i as int));
            assert(all_next.last() == replacements[i as int]@);
            assert(items_next.last() == items@[i as int]);
            assert(out@ =~= spliced(items_next, all_next));
        }
        i += 1;
    }
    assert(items@.subrange(0, items.len() as int) =~= items@);
    assert(all.subrange(0, items.len() as int) =~= all);
    out
}

/// Where nothing is rewritten, the items stay as they are.
pub proof fn splice_nothing_keeps_items<T>(items: Seq<T>, replacements: Seq<Seq<T>>)
    requires
        items.len() == replacements.len(),
        forall|i: int| 0 <= i < replacements.len() ==> #[trigger] replacements[i].len() == 0,
    ensures
        spliced(items, replacements) == items,
    decreases items.len(),
{
    if items.len() > 0 {
        let (a, b) = (items.drop_last(), replacements.drop_last());
        assert forall|i: int| 0 <= i < b.len() implies #[trigger] b[i].len() == 0 by {
            assert(b[i] == replacements[i]);
        }
        splice_nothing_keeps_items(a, b);
        assert(replacements.last() == replacements[replacements.len() - 1]);
        assert(items =~= a.push(items.last()));
    }
}


/// Splicing a path is splicing its two parts apart: the replacements of the
/// items before `k` make up the start of the result, and those of the rest
/// the end.
pub proof fn splice_by_parts<T>(items: Seq<T>, replacements: Seq<Seq<T>>, k: int)
    requires
        items.len() == replacements.len(),
        0 <= k <= items.len(),
    ensures
        spliced(items, replacements) == spliced(items.subrange(0, k), replacements.subrange(0, k))
            + spliced(
            items.subrange(k, items.len() as int),
            replacements.subrange(k, replacements.len() as int),
        ),
    decreases items.len(),
{
    if k == items.len() {
        assert(items.subrange(0, k) =~= items);
        assert(replacements.subrange(0, k) =~= replacements);
        assert(items.subrange(k, items.len() as int) =~= Seq::<T>::empty());
        assert(spliced(items.subrange(k, items.len() as int), replacements.subrange(k, replacements.len() as int)) =~= Seq::<T>::empty());
    } else {
        let (a, b) = (items.drop_last(), replacements.drop_last());
        splice_by_parts(a, b, k);
        assert(a.subrange(0, k) =~= items.subrange(0, k));
        assert(b.subrange(0, k) =~= replacements.subrange(0, k));
        let (ta, tb) = (items.subrange(k, items.len() as int), replacements.subrange(k, replacements.len() as int));
        assert(ta.drop_last() =~= a.subrange(k, a.len() as int));
        assert(tb.drop_last() =~= b.subrange(k, b.len() as int));
        assert(ta.last() == items.last());
        assert(tb.last() == replacements.last());
    }
}

/// Where every item is rewritten to at most one item, the result has an
/// item for each: the one it was rewritten to, or the item itself where its
/// replacement is empty. A segment transformed into one segment takes the
/// place of the segment.
pub proof fn one_for_one_replacements_take_their_place<T>(items: Seq<T>, replacements: Seq<Seq<T>>)
    requires
        items.len() == replacements.len(),
        forall|i: int| 0 <= i < replacements.len() ==> #[trigger] replacements[i].len() <= 1,
    ensures
        spliced(items, replacements).len() == items.len(),
        forall|i: int|
            0 <= i < items.len() ==> #[trigger] spliced(items, replacements)[i] == if replacements[i].len()
                == 1 {
                replacements[i][0]
            } else {
                items[i]
            },
    decreases items.len(),
{
    if items.len() > 0 {
        let (a, b) = (items.drop_last(), replacements.drop_last());
        assert forall|i: int| 0 <= i < b.len() implies #[trigger] b[i].len() <= 1 by {
            assert(b[i] == replacements[i]);
        }
        one_for_one_replacements_take_their_place(a, b);
        let n = items.len() - 1;
        assert(replacements.last() == replacements[n]);
        assert(items.last() == items[n]);
        assert(replacements[n].len() <= 1);
        let s = spliced(items, replacements);
        assert forall|i: int| 0 <= i < items.len() implies #[trigger] spliced(items, replacements)[i]
            == if replacements[i].len() == 1 {
            replacements[i][0]
        } else {
            items[i]
        } by {
            if i < n {
                assert(s[i] == spliced(a, b)[i]);
                assert(a[i] == items[i]);
                assert(b[i] == replacements[i]);
            }
        }
    }
}


/// A single item is replaced by what it was rewritten to, or kept where
/// that is nothing.
pub proof fn splice_one<T>(item: T, replacement: Seq<T>)
    ensures
        spliced(seq![item], seq![replacement]) == if replacement.len() == 0 {
            seq![item]
        } else {
            replacement
        },
{
    assert(seq![item].drop_last() =~= Seq::<T>::empty());
    assert(seq![replacement].drop_last() =~= Seq::<Seq<T>>::empty());
    assert(spliced(Seq::<T>::empty(), Seq::<Seq<T>>::empty()) =~= Seq::<T>::empty());
    if replacement.len() == 0 {
        assert(Seq::<T>::empty() + seq![item] =~= seq![item]);
    } else {
        assert(Seq::<T>::empty() + replacement =~= replacement);
    }
}

} // verus!
