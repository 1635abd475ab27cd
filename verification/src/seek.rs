//! Where a position falls among the items of a tree.

use crate::node::NODE_CAPACITY;
use crate::piece::{
    known, lemma_known_part, lemma_total_concat, lemma_total_one, lemma_total_part_fits,
    piece_values, total, Piece,
};
use crate::storage::{Inline, Trees};
use crate::summary::{
    lemma_total_of_concat, total_of, values_of, Dimension, Item, Summary, SummaryValue,
};
use crate::tree::Tree;
use std::ops::Add;
use vstd::prelude::*;

verus! {

/// Which side of a boundary between items a position on it belongs to.
#[derive(Eq, PartialEq, Structural)]
pub enum SeekBias {
    Left,
    Right,
}

/// Whether a position lies behind a run of items, which reaches as far as
/// `summary` says. A position at the very end of the run does so if the bias is
/// to the right.
pub open spec fn is_behind<D: Dimension>(
    pos: D::V,
    bias: SeekBias,
    summary: <D::Summary as View>::V,
) -> bool {
    ||| D::before(D::measure(summary), pos)
    ||| pos == D::measure(summary) && bias == SeekBias::Right
}

/// Whether a position lies behind the item at `index`.
pub open spec fn passes<T: Item, D: Dimension<Summary = T::Summary>>(
    items: Seq<Piece<T>>,
    index: int,
    pos: D::V,
    bias: SeekBias,
) -> bool {
    is_behind::<D>(pos, bias, total(items.take(index + 1)))
}

/// The index of the first item from `from` on that a position does not lie
/// behind, or the number of items if it lies behind all of them.
pub open spec fn stop_from<T: Item, D: Dimension<Summary = T::Summary>>(
    items: Seq<Piece<T>>,
    from: int,
    pos: D::V,
    bias: SeekBias,
) -> int
    decreases items.len() - from,
{
    if from < items.len() && passes::<T, D>(items, from, pos, bias) {
        stop_from::<T, D>(items, from + 1, pos, bias)
    } else {
        from
    }
}

/// A position behind an item lies behind those in front of it too.
pub proof fn lemma_passes_earlier<T: Item, D: Dimension<Summary = T::Summary>>(
    items: Seq<Piece<T>>,
    earlier: int,
    later: int,
    pos: D::V,
    bias: SeekBias,
)
    requires
        0 <= earlier <= later < items.len(),
        T::Summary::fits(total(items)),
        passes::<T, D>(items, later, pos, bias),
    ensures
        passes::<T, D>(items, earlier, pos, bias),
{
    let near = items.take(earlier + 1);
    let far = items.take(later + 1);
    let between = items.subrange(earlier + 1, later + 1);
    assert(far =~= near + between);
    lemma_total_concat(near, between);
    lemma_total_part_fits(items, 0, later + 1);
    assert(items.subrange(0, later + 1) =~= far);
    D::measure_is_monotone(total(near), total(between));
    let a = D::measure(total(near));
    let b = D::measure(total(far));
    D::before_is_total_order(a, b, pos);
    D::before_is_total_order(b, a, pos);
}

/// What `stop_from` gives: every item in front of it is passed, and the one at it
/// is not.
pub proof fn lemma_stop_from<T: Item, D: Dimension<Summary = T::Summary>>(
    items: Seq<Piece<T>>,
    from: int,
    pos: D::V,
    bias: SeekBias,
)
    requires
        0 <= from <= items.len(),
    ensures
        ({
            let stop = stop_from::<T, D>(items, from, pos, bias);
            &&& from <= stop <= items.len()
            &&& forall|i: int| from <= i < stop ==> passes::<T, D>(items, i, pos, bias)
            &&& stop < items.len() ==> !passes::<T, D>(items, stop, pos, bias)
        }),
    decreases items.len() - from,
{
    if from < items.len() && passes::<T, D>(items, from, pos, bias) {
        lemma_stop_from::<T, D>(items, from + 1, pos, bias);
    }
}

/// A position that lies behind the item in front of `to` stops at `to` or later.
pub proof fn lemma_stop_from_later<T: Item, D: Dimension<Summary = T::Summary>>(
    items: Seq<Piece<T>>,
    from: int,
    to: int,
    pos: D::V,
    bias: SeekBias,
)
    requires
        0 <= from <= to <= items.len(),
        T::Summary::fits(total(items)),
        to > from ==> passes::<T, D>(items, to - 1, pos, bias),
    ensures
        stop_from::<T, D>(items, from, pos, bias) == stop_from::<T, D>(items, to, pos, bias),
    decreases to - from,
{
    if from < to {
        lemma_passes_earlier::<T, D>(items, from, to - 1, pos, bias);
        lemma_stop_from_later::<T, D>(items, from + 1, to, pos, bias);
    }
}

/// Whether a position lies behind two adjacent runs of items.
fn is_behind_both<D: Dimension>(
    pos: &D,
    bias: &SeekBias,
    first: &D::Summary,
    second: &D::Summary,
) -> (result: bool)
    requires
        D::Summary::fits(D::Summary::plus(first@, second@)),
    ensures
        result == is_behind::<D>(pos@, *bias, D::Summary::plus(first@, second@)),
{
    let start = D::from_summary(first);
    let length = D::from_summary(second);
    proof {
        D::measure_is_additive(start, length, first@, second@);
    }
    let end = start.add(&length);
    let is_past = *pos > end;
    let is_at = *pos == end;
    proof {
        D::gt_is_before(pos, &end, is_past);
        D::eq_is_equality(pos, &end, is_at);
    }
    is_past || (is_at && *bias == SeekBias::Right)
}

/// Adds a summary behind another one.
proof fn lemma_add_next<S: Summary>(base: S::V, values: Seq<S::V>, from: int, index: int)
    requires
        0 <= from <= index < values.len(),
        S::fits(S::plus(base, total_of::<S>(values.skip(from)))),
    ensures
        S::plus(S::plus(base, total_of::<S>(values.subrange(from, index))), values[index])
            == S::plus(base, total_of::<S>(values.subrange(from, index + 1))),
        S::fits(S::plus(base, total_of::<S>(values.subrange(from, index + 1)))),
{
    let done = values.subrange(from, index);
    let more = values.subrange(from, index + 1);
    assert(more.drop_last() =~= done);
    S::plus_is_associative(base, total_of::<S>(done), values[index]);
    let rest = values.skip(index + 1);
    assert(values.skip(from) =~= more + rest);
    lemma_total_of_concat::<S>(more, rest);
    S::plus_is_associative(base, total_of::<S>(more), total_of::<S>(rest));
    S::parts_fit(S::plus(base, total_of::<S>(more)), total_of::<S>(rest));
}

/// Walks along children from `index` on, past those that the position lies
/// behind. Adds their summaries up, and keeps them if asked to.
pub(crate) fn pass_children<T: Item, D: Dimension<Summary = T::Summary>>(
    child_summaries: &[T::Summary],
    child_trees: &[Tree<T>],
    index: usize,
    pos: &D,
    bias: &SeekBias,
    summary: &mut T::Summary,
    keep: bool,
    kept: &mut Trees<T>,
) -> (result: usize)
    requires
        index <= child_summaries@.len(),
        child_summaries@.len() == child_trees@.len(),
        T::Summary::fits(
            T::Summary::plus(
                old(summary)@,
                total_of::<T::Summary>(values_of(child_summaries@).skip(index as int)),
            ),
        ),
    ensures
        index <= result <= child_summaries@.len(),
        final(summary)@ == T::Summary::plus(
            old(summary)@,
            total_of::<T::Summary>(
                values_of(child_summaries@).subrange(index as int, result as int),
            ),
        ),
        result > index ==> is_behind::<D>(pos@, *bias, final(summary)@),
        result < child_summaries@.len() ==> !is_behind::<D>(
            pos@,
            *bias,
            T::Summary::plus(final(summary)@, child_summaries@[result as int]@),
        ),
        final(kept)@ == if keep {
            old(kept)@ + child_trees@.subrange(index as int, result as int)
        } else {
            old(kept)@
        },
{
    let ghost base = summary@;
    let ghost values = values_of(child_summaries@);
    let ghost old_kept = kept@;
    let mut i: usize = index;
    proof {
        assert(values.subrange(index as int, index as int) =~= Seq::<SummaryValue<T>>::empty());
        T::Summary::zero_is_neutral(base);
        assert(child_trees@.subrange(index as int, index as int) =~= Seq::<Tree<T>>::empty());
        assert(old_kept + Seq::<Tree<T>>::empty() =~= old_kept);
    }
    while i < child_summaries.len()
        invariant
            index <= i <= child_summaries@.len(),
            child_summaries@.len() == child_trees@.len(),
            base == old(summary)@,
            old_kept == old(kept)@,
            values == values_of(child_summaries@),
            T::Summary::fits(
                T::Summary::plus(base, total_of::<T::Summary>(values.skip(index as int))),
            ),
            summary@ == T::Summary::plus(
                base,
                total_of::<T::Summary>(values.subrange(index as int, i as int)),
            ),
            i > index ==> is_behind::<D>(pos@, *bias, summary@),
            kept@ == if keep {
                old_kept + child_trees@.subrange(index as int, i as int)
            } else {
                old_kept
            },
        decreases child_summaries@.len() - i,
    {
        proof {
            lemma_add_next::<T::Summary>(base, values, index as int, i as int);
        }
        let child_summary = &child_summaries[i];
        if !is_behind_both(pos, bias, summary, child_summary) {
            return i;
        }
        summary.add_assign(child_summary);
        if keep {
            kept.push(child_trees[i].clone());
            assert(child_trees@.subrange(index as int, i + 1) =~= child_trees@.subrange(
                index as int,
                i as int,
            ).push(child_trees@[i as int]));
            assert(kept@ =~= old_kept + child_trees@.subrange(index as int, i + 1));
        }
        i = i + 1;
    }
    i
}

/// Walks along items from `index` on, past those that the position lies behind.
/// Adds their summaries up, and returns the items with their summary if asked to.
pub(crate) fn pass_items<T: Item, D: Dimension<Summary = T::Summary>>(
    items: &[T],
    index: usize,
    pos: &D,
    bias: &SeekBias,
    summary: &mut T::Summary,
    keep: bool,
) -> (result: (usize, Inline<T, NODE_CAPACITY>, T::Summary))
    requires
        index <= items@.len(),
        T::Summary::fits(
            T::Summary::plus(old(summary)@, total(known(items@).skip(index as int))),
        ),
    ensures
        index <= result.0 <= items@.len(),
        final(summary)@ == T::Summary::plus(
            old(summary)@,
            total(known(items@).subrange(index as int, result.0 as int)),
        ),
        result.0 > index ==> is_behind::<D>(pos@, *bias, final(summary)@),
        result.0 < items@.len() ==> !is_behind::<D>(
            pos@,
            *bias,
            T::Summary::plus(final(summary)@, items@[result.0 as int].summary_value()),
        ),
        result.1@ == if keep {
            items@.subrange(index as int, result.0 as int)
        } else {
            Seq::empty()
        },
        result.2@ == total(known(result.1@)),
{
    let ghost base = summary@;
    let ghost shown = known(items@);
    let ghost values = piece_values(shown);
    let mut kept: Inline<T, NODE_CAPACITY> = Inline::new();
    let mut kept_summary = <T::Summary as Default>::default();
    let mut i: usize = index;
    proof {
        T::Summary::default_is_zero(kept_summary);
        assert(items@.subrange(index as int, index as int) =~= Seq::<T>::empty());
        assert(shown.subrange(index as int, index as int) =~= Seq::<Piece<T>>::empty());
        assert(known(Seq::<T>::empty()) =~= Seq::<Piece<T>>::empty());
        T::Summary::zero_is_neutral(base);
        assert(piece_values(shown.skip(index as int)) =~= values.skip(index as int));
        T::Summary::parts_fit(base, total(shown.skip(index as int)));
    }
    while i < items.len()
        invariant
            index <= i <= items@.len(),
            base == old(summary)@,
            shown == known(items@),
            values == piece_values(shown),
            T::Summary::fits(
                T::Summary::plus(base, total_of::<T::Summary>(values.skip(index as int))),
            ),
            T::Summary::fits(total(shown.skip(index as int))),
            summary@ == T::Summary::plus(base, total(shown.subrange(index as int, i as int))),
            i > index ==> is_behind::<D>(pos@, *bias, summary@),
            kept@ == if keep {
                items@.subrange(index as int, i as int)
            } else {
                Seq::empty()
            },
            kept_summary@ == total(known(kept@)),
        decreases items@.len() - i,
    {
        let ghost run = shown.subrange(index as int, i as int);
        let ghost longer = shown.subrange(index as int, i + 1);
        let item = &items[i];
        let item_summary = item.summarize();
        proof {
            assert(piece_values(run) =~= values.subrange(index as int, i as int));
            assert(piece_values(longer) =~= values.subrange(index as int, i + 1));
            assert(shown[i as int] == Piece::Item(*item));
            assert(values[i as int] == item_summary@);
            lemma_add_next::<T::Summary>(base, values, index as int, i as int);
        }
        if !is_behind_both(pos, bias, summary, &item_summary) {
            return (i, kept, kept_summary);
        }
        summary.add_assign(&item_summary);
        if keep {
            let copy = item.clone();
            proof {
                T::clone_is_equal(*item, copy);
                let one = seq![Piece::Item(copy)];
                assert(items@.subrange(index as int, i + 1) =~= kept@.push(copy));
                lemma_known_part(items@, index as int, i as int);
                lemma_known_part(items@, index as int, i + 1);
                assert(longer =~= run + one);
                lemma_total_concat(run, one);
                lemma_total_one(Piece::Item(copy));
                let count = i + 1 - index;
                lemma_total_part_fits(shown.skip(index as int), 0, count);
                assert(shown.skip(index as int).subrange(0, count) =~= longer);
            }
            kept.push(copy);
            kept_summary.add_assign(&item_summary);
        }
        i = i + 1;
    }
    (i, kept, kept_summary)
}

} // verus!
