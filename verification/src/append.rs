//! Putting more into a node, and splitting it when it is full.

use crate::model::split_point;
use crate::node::{Node, NodeView, NODE_CAPACITY};
use crate::piece::{
    known, lemma_known_concat, lemma_total_concat, lemma_total_part_fits, piece_values, total,
};
use crate::storage::{Inline, Trees};
use crate::summary::{
    lemma_total_of_part_fits, sum, sum_owned, total_of, values_of, Item, Summary, SummaryValue,
};
use crate::tree::Tree;
use std::sync::Arc;
use vstd::prelude::*;

verus! {

/// Clones of the elements of two slices, in order, split behind the first `mid`.
pub(crate) fn split_cloned<X: Clone>(first: &[X], second: &[X], mid: usize) -> (result: (
    Vec<X>,
    Vec<X>,
))
    requires
        mid <= first@.len() + second@.len() <= usize::MAX,
    ensures
        result.0@.len() == mid,
        result.0@.len() + result.1@.len() == first@.len() + second@.len(),
        forall|i: int|
            0 <= i < first@.len() + second@.len() ==> cloned::<X>(
                (first@ + second@)[i],
                #[trigger] (result.0@ + result.1@)[i],
            ),
{
    let mut left: Vec<X> = Vec::new();
    let mut right: Vec<X> = Vec::new();
    let count = first.len() + second.len();
    let ghost all = first@ + second@;
    let mut i: usize = 0;
    while i < count
        invariant
            count == first@.len() + second@.len(),
            all == first@ + second@,
            mid <= count,
            i <= count,
            left@.len() == if i < mid { i } else { mid },
            left@.len() + right@.len() == i,
            forall|j: int| 0 <= j < i ==> cloned::<X>(all[j], #[trigger] (left@ + right@)[j]),
        decreases count - i,
    {
        let element = if i < first.len() {
            first[i].clone()
        } else {
            second[i - first.len()].clone()
        };
        let ghost before = left@ + right@;
        if i < mid {
            left.push(element);
            assert(left@ + right@ =~= before.push(element));
        } else {
            right.push(element);
            assert(left@ + right@ =~= before.push(element));
        }
        i = i + 1;
    }
    (left, right)
}

/// Whether `node`, and perhaps a new one, hold these items: all in the one, or the
/// first half of them there and the other half in the new one.
pub open spec fn items_placed<T: Item>(
    items: Seq<T>,
    node: NodeView<T>,
    split: Option<Tree<T>>,
) -> bool {
    let mid = split_point(items.len() as int);
    if items.len() <= NODE_CAPACITY {
        &&& split is None
        &&& node == (NodeView::Leaf { summary: total(known(items)), items })
    } else {
        let (left, right) = (items.take(mid), items.skip(mid));
        &&& node == (NodeView::Leaf { summary: total(known(left)), items: left })
        &&& split matches Some(Tree::Resident(new_node))
        &&& new_node@ == (NodeView::Leaf { summary: total(known(right)), items: right })
    }
}

/// Appends items to those of a leaf. If they are too many for one leaf, the leaf
/// keeps the first half of them, and the other half is returned in a new one.
pub(crate) fn append_items<T: Item>(
    summary: &mut T::Summary,
    items: &mut Inline<T, NODE_CAPACITY>,
    more: &Node<T>,
) -> (result: Option<Tree<T>>)
    requires
        old(summary)@ == total(known(old(items)@)),
        *more is Leaf,
        more@.summary() == total(known(more@->items)),
        old(items)@.len() <= NODE_CAPACITY,
        more@.len() <= NODE_CAPACITY,
        T::Summary::fits(T::Summary::plus(old(summary)@, more@.summary())),
    ensures
        items_placed(
            old(items)@ + more@->items,
            NodeView::Leaf { summary: final(summary)@, items: final(items)@ },
            result,
        ),
{
    let ghost all = items@ + more@->items;
    proof {
        lemma_known_concat(items@, more@->items);
        lemma_total_concat(known(items@), known(more@->items));
    }
    let child_count = items.as_slice().len() + more.items().as_slice().len();
    if child_count > NODE_CAPACITY {
        let midpoint = (child_count + child_count % 2) / 2;
        let (left_items, right_items) = split_cloned(
            items.as_slice(),
            more.items().as_slice(),
            midpoint,
        );
        proof {
            let both = left_items@ + right_items@;
            assert forall|i: int| 0 <= i < all.len() implies #[trigger] both[i] == all[i] by {
                T::clone_is_equal(all[i], both[i]);
            }
            assert(both =~= all);
            assert(left_items@ =~= all.take(midpoint as int));
            assert(right_items@ =~= all.skip(midpoint as int));
            lemma_total_part_fits(known(all), 0, midpoint as int);
            lemma_total_part_fits(known(all), midpoint as int, all.len() as int);
            assert(known(all).subrange(0, midpoint as int) =~= known(left_items@));
            assert(known(all).subrange(midpoint as int, all.len() as int) =~= known(
                right_items@,
            ));
        }
        *summary = sum_owned(summarize_all(left_items.as_slice()).into_iter());
        let right_summary = sum_owned(summarize_all(right_items.as_slice()).into_iter());
        *items = Inline::from_vec(left_items);
        Some(
            Tree::Resident(
                Arc::new(
                    Node::Leaf { summary: right_summary, items: Inline::from_vec(right_items) },
                ),
            ),
        )
    } else {
        summary.add_assign(more.summary());
        let more_items = more.items().clone();
        proof {
            assert forall|i: int| 0 <= i < more_items@.len() implies #[trigger] more_items@[i]
                == more@->items[i] by {
                T::clone_is_equal(more@->items[i], more_items@[i]);
            }
            assert(more_items@ =~= more@->items);
        }
        items.extend(more_items);
        None
    }
}

/// A summary with the same value.
pub(crate) fn clone_summary<S: Summary>(summary: &S) -> (result: S)
    ensures
        result@ == summary@,
{
    let result = summary.clone();
    proof {
        S::clone_keeps_value(*summary, result);
    }
    result
}

/// Summaries with the same values.
pub(crate) fn clone_summaries<S: Summary>(summaries: &Inline<S, NODE_CAPACITY>) -> (result: Inline<
    S,
    NODE_CAPACITY,
>)
    ensures
        values_of(result@) == values_of(summaries@),
{
    let result = summaries.clone();
    proof {
        assert forall|i: int| 0 <= i < summaries@.len() implies (#[trigger] result@[i])@
            == summaries@[i]@ by {
            S::clone_keeps_value(summaries@[i], result@[i]);
        }
        assert(values_of(result@) =~= values_of(summaries@));
    }
    result
}

/// The summaries of items.
pub(crate) fn summarize_all<T: Item>(items: &[T]) -> (result: Vec<T::Summary>)
    ensures
        values_of(result@) == piece_values(known(items@)),
{
    let mut summaries: Vec<T::Summary> = Vec::new();
    let mut i: usize = 0;
    while i < items.len()
        invariant
            i <= items@.len(),
            values_of(summaries@) =~= piece_values(known(items@.take(i as int))),
        decreases items@.len() - i,
    {
        let ghost before = summaries@;
        summaries.push(items[i].summarize());
        proof {
            assert(items@.take(i + 1) =~= items@.take(i as int).push(items@[i as int]));
            assert(values_of(summaries@) =~= values_of(before).push(summaries@.last()@));
            assert(piece_values(known(items@.take(i + 1))) =~= piece_values(
                known(items@.take(i as int)),
            ).push(items@[i as int].summary_value()));
        }
        i = i + 1;
    }
    assert(items@.take(i as int) =~= items@);
    summaries
}

/// Whether `node`, and perhaps a new one, hold these children: all in the one, or
/// the first half of them there and the other half in the new one.
pub open spec fn children_placed<T: Item>(
    height: nat,
    trees: Seq<Tree<T>>,
    summaries: Seq<SummaryValue<T>>,
    node: NodeView<T>,
    split: Option<Tree<T>>,
) -> bool {
    let mid = split_point(trees.len() as int);
    if trees.len() <= NODE_CAPACITY {
        &&& split is None
        &&& node == (NodeView::Internal {
            height,
            summary: total_of::<T::Summary>(summaries),
            child_summaries: summaries,
            child_trees: trees,
        })
    } else {
        &&& node == (NodeView::Internal {
            height,
            summary: total_of::<T::Summary>(summaries.take(mid)),
            child_summaries: summaries.take(mid),
            child_trees: trees.take(mid),
        })
        &&& split matches Some(Tree::Resident(new_node))
        &&& new_node@ == (NodeView::Internal {
            height,
            summary: total_of::<T::Summary>(summaries.skip(mid)),
            child_summaries: summaries.skip(mid),
            child_trees: trees.skip(mid),
        })
    }
}

/// Appends children to those of an internal node. If they are too many for one
/// node, the node keeps the first half of them, and the other half is returned in
/// a new one. The summary of the node already counts them.
pub(crate) fn append_children<T: Item>(
    height: u8,
    summary: &mut T::Summary,
    child_summaries: &mut Inline<T::Summary, NODE_CAPACITY>,
    child_trees: &mut Trees<T>,
    more_summaries: Inline<T::Summary, NODE_CAPACITY>,
    more_trees: Trees<T>,
) -> (result: Option<Tree<T>>)
    requires
        old(child_summaries)@.len() == old(child_trees)@.len() <= NODE_CAPACITY,
        more_summaries@.len() == more_trees@.len() <= NODE_CAPACITY,
        old(summary)@ == total_of::<T::Summary>(
            values_of(old(child_summaries)@) + values_of(more_summaries@),
        ),
        T::Summary::fits(
            total_of::<T::Summary>(
                values_of(old(child_summaries)@) + values_of(more_summaries@),
            ),
        ),
    ensures
        children_placed(
            height as nat,
            old(child_trees)@ + more_trees@,
            values_of(old(child_summaries)@) + values_of(more_summaries@),
            NodeView::Internal {
                height: height as nat,
                summary: final(summary)@,
                child_summaries: values_of(final(child_summaries)@),
                child_trees: final(child_trees)@,
            },
            result,
        ),
{
    let ghost all = child_trees@ + more_trees@;
    let ghost all_summaries = values_of(child_summaries@) + values_of(more_summaries@);
    let child_count = child_trees.as_slice().len() + more_trees.as_slice().len();
    if child_count > NODE_CAPACITY {
        let midpoint = (child_count + child_count % 2) / 2;
        let (left_summaries, right_summaries) = split_cloned(
            child_summaries.as_slice(),
            more_summaries.as_slice(),
            midpoint,
        );
        let (left_trees, right_trees) = split_cloned(
            child_trees.as_slice(),
            more_trees.as_slice(),
            midpoint,
        );
        proof {
            let mid = midpoint as int;
            let trees = left_trees@ + right_trees@;
            assert forall|i: int| 0 <= i < all.len() implies #[trigger] trees[i] == all[i] by {}
            assert(trees =~= all);
            assert(left_trees@ =~= all.take(mid));
            assert(right_trees@ =~= all.skip(mid));
            let sums = left_summaries@ + right_summaries@;
            let given = child_summaries@ + more_summaries@;
            assert forall|i: int| 0 <= i < all.len() implies (#[trigger] sums[i])@
                == all_summaries[i] by {
                T::Summary::clone_keeps_value(given[i], sums[i]);
            }
            assert(values_of(left_summaries@) =~= all_summaries.take(mid)) by {
                assert forall|i: int| 0 <= i < mid implies left_summaries@[i]@
                    == all_summaries[i] by {
                    assert(sums[i] == left_summaries@[i]);
                }
            }
            assert(values_of(right_summaries@) =~= all_summaries.skip(mid)) by {
                assert forall|i: int| 0 <= i < all.len() - mid implies right_summaries@[i]@
                    == all_summaries[mid + i] by {
                    assert(sums[mid + i] == right_summaries@[i]);
                }
            }
            lemma_total_of_part_fits::<T::Summary>(all_summaries, 0, mid);
            lemma_total_of_part_fits::<T::Summary>(all_summaries, mid, all.len() as int);
            assert(all_summaries.subrange(0, mid) =~= all_summaries.take(mid));
            assert(all_summaries.subrange(mid, all.len() as int) =~= all_summaries.skip(mid));
        }
        *summary = sum_slice(left_summaries.as_slice());
        let right_summary = sum_slice(right_summaries.as_slice());
        *child_summaries = Inline::from_vec(left_summaries);
        *child_trees = Trees::from_vec(left_trees);
        Some(
            Tree::Resident(
                Arc::new(
                    Node::Internal {
                        height,
                        summary: right_summary,
                        child_summaries: Inline::from_vec(right_summaries),
                        child_trees: Trees::from_vec(right_trees),
                    },
                ),
            ),
        )
    } else {
        proof {
            assert(values_of(child_summaries@ + more_summaries@) =~= all_summaries);
        }
        child_summaries.extend(more_summaries);
        child_trees.extend(more_trees);
        None
    }
}

/// Adds up a slice of summaries.
pub(crate) fn sum_slice<S: Summary>(summaries: &[S]) -> (result: S)
    requires
        S::fits(total_of::<S>(values_of(summaries@))),
    ensures
        result@ == total_of::<S>(values_of(summaries@)),
{
    broadcast use vstd::std_specs::slice::group_slice_axioms;
    proof {
        assert(summaries@.as_ref().map_values(|s: &S| s@) =~= values_of(summaries@));
    }
    sum(summaries.iter())
}

} // verus!
