//! What holds of trees and cursors as a whole.

use crate::append::{children_placed, items_placed};
use crate::cursor::{is_item_at, next_position, Cursor};
use crate::join::{
    broken_off, grown, joined, last_of, last_replaced, last_summary_replaced, node_over,
};
use crate::model::{
    all_in_memory, below_in_memory, items_in, items_of, items_of_all, last_way_in_memory,
    lemma_least_items, lemma_sound_as_root, lemma_summary_is_total, lemma_trees_in_memory_part,
    sound, sound_children, sound_node, split_point, trees_in_memory, Rigor,
};
use crate::node::{NodeView, NODE_CAPACITY, TREE_BASE};
use crate::parts::contents;
use crate::path::lemma_front_and_back;
use crate::piece::{
    known, lemma_total_concat, lemma_total_one, lemma_total_part_fits, lemma_weight_known,
    piece_values, total, weight, Piece,
};
use crate::reads::{
    child_at, child_start, child_with, goes_below, goes_into_last, id_of, law_leaf_holds_its_items,
    leaf_from, lemma_child_exists, lemma_front_grows, list_ids, merge_ids, rest_ids, walk_ids,
    way_back_ids, way_end, way_ids, way_up_ids,
};
use crate::seek::{
    lemma_passes_earlier, lemma_stop_from, lemma_stop_from_later, passes, stop_from, SeekBias,
};
use crate::store::{ids_read, only_read, read_again, read_in_order, NodeId, NodeStore, Nodes, Reads};
use crate::summary::{
    lemma_total_of_concat, lemma_total_of_one, total_of, values_of, Dimension, Item, Summary,
    SummaryValue,
};
use crate::tree::{first_leaf, fully_joined, leaf_start, merged, partly_joined, Tree};
use std::ops::Add;
use vstd::arithmetic::power2::pow2;
use vstd::prelude::*;

verus! {

/// The root of a sound tree carries the summary of all that the tree shows.
pub proof fn law_root_summarizes_all_items<T: Item>(nodes: Nodes<T>, tree: Tree<T>)
    requires
        tree.wf(nodes),
        !tree.dangling(nodes),
    ensures
        tree.at(nodes).summary() == total(tree.content(nodes)),
{
    lemma_summary_is_total(nodes, tree.at(nodes), tree.at(nodes).height(), true);
}

/// A tree is balanced: with each level the number of its items at least doubles. Of a
/// tree that is hidden in part, this is the least number that it can have.
pub proof fn law_height_is_logarithmic<T: Item>(nodes: Nodes<T>, tree: Tree<T>)
    requires
        tree.wf(nodes),
        !tree.dangling(nodes),
        tree.at(nodes) is Internal,
    ensures
        pow2(tree.at(nodes).height()) <= weight(tree.content(nodes)),
        forall|items: Seq<T>|
            tree.content(nodes) == #[trigger] known(items) ==> pow2(tree.at(nodes).height())
                <= items.len(),
{
    lemma_least_items(nodes, tree.at(nodes), tree.at(nodes).height(), true, Rigor::Summed);
    assert forall|items: Seq<T>| tree.content(nodes) == #[trigger] known(items) implies pow2(
        tree.at(nodes).height(),
    ) <= items.len() by {
        lemma_weight_known(items);
    }
}

/// A tree that is wholly in memory shows the same items whatever a store holds, none of
/// them hidden, and is sound with any store if it is sound with one.
pub proof fn law_memory_needs_no_store<T: Item>(nodes: Nodes<T>, others: Nodes<T>, tree: Tree<T>)
    requires
        tree.in_memory(),
    ensures
        tree.at(others) == tree.at(nodes),
        tree.content(others) == tree.content(nodes),
        tree.wf(others) == tree.wf(nodes),
        forall|i: int|
            0 <= i < tree.content(nodes).len() ==> (#[trigger] tree.content(nodes)[i]) is Item,
{
    lemma_memory_needs_no_store(nodes, others, tree.at(nodes), tree.at(nodes).height(), true);
}

proof fn lemma_memory_needs_no_store<T: Item>(
    nodes: Nodes<T>,
    others: Nodes<T>,
    node: NodeView<T>,
    height: nat,
    root: bool,
)
    requires
        below_in_memory(node, height),
    ensures
        items_in(others, node, height) == items_in(nodes, node, height),
        sound_node(others, node, height, root, Rigor::Summed) == sound_node(
            nodes,
            node,
            height,
            root,
            Rigor::Summed,
        ),
        forall|i: int|
            0 <= i < items_in(nodes, node, height).len() ==> (#[trigger] items_in(
                nodes,
                node,
                height,
            )[i]) is Item,
    decreases height, 0nat,
{
    match node {
        NodeView::Leaf { .. } => {},
        NodeView::Internal { child_summaries, child_trees, .. } => {
            let below = (height - 1) as nat;
            lemma_trees_need_no_store(nodes, others, child_trees, child_summaries, below);
        },
    }
}

proof fn lemma_trees_need_no_store<T: Item>(
    nodes: Nodes<T>,
    others: Nodes<T>,
    trees: Seq<Tree<T>>,
    summaries: Seq<SummaryValue<T>>,
    height: nat,
)
    requires
        trees_in_memory(trees, height),
    ensures
        items_of_all(others, trees, summaries, height) == items_of_all(
            nodes,
            trees,
            summaries,
            height,
        ),
        sound_children(others, trees, summaries, height, Rigor::Summed) == sound_children(
            nodes,
            trees,
            summaries,
            height,
            Rigor::Summed,
        ),
        forall|i: int|
            0 <= i < items_of_all(nodes, trees, summaries, height).len() ==> (
            #[trigger] items_of_all(nodes, trees, summaries, height)[i]) is Item,
    decreases height, trees.len() + 1,
{
    assert forall|i: int| #![trigger trees[i]] 0 <= i < trees.len() implies {
        &&& trees[i] is Resident
        &&& sound(others, trees[i], height, false, Rigor::Summed) == sound(
            nodes,
            trees[i],
            height,
            false,
            Rigor::Summed,
        )
    } by {
        lemma_memory_needs_no_store(nodes, others, trees[i].at(nodes), height, false);
    }
    if trees.len() > 0 {
        let n = trees.len() - 1;
        lemma_trees_in_memory_part(trees, height, 0, n);
        assert(trees.subrange(0, n) =~= trees.drop_last());
        lemma_trees_need_no_store(
            nodes,
            others,
            trees.drop_last(),
            summaries.drop_last(),
            height,
        );
        assert(trees[n] == trees.last());
        lemma_memory_needs_no_store(nodes, others, trees.last().at(nodes), height, false);
        let front = items_of_all(nodes, trees.drop_last(), summaries.drop_last(), height);
        let all = items_of_all(nodes, trees, summaries, height);
        let last = items_in(nodes, trees.last().at(nodes), height);
        assert(items_of(nodes, trees.last(), summaries.last(), height) == last);
        assert(items_of(others, trees.last(), summaries.last(), height) == last);
        assert forall|i: int| 0 <= i < all.len() implies (#[trigger] all[i]) is Item by {
            if i < front.len() {
                assert(all[i] == front[i]);
            } else {
                assert(all[i] == last[i - front.len()]);
            }
        }
    }
}

/// A cursor that starts at the first item and moves to the next one `steps` times comes
/// to the item with that index, or behind everything.
pub proof fn law_steps_reach_index(steps: nat, len: nat)
    ensures
        position_after(steps, len) == if steps <= len {
            steps
        } else {
            len
        },
    decreases steps,
{
    if steps > 0 {
        law_steps_reach_index((steps - 1) as nat, len);
    }
}

/// Where a cursor that starts at the first of `len` items stands after so many steps.
pub open spec fn position_after(steps: nat, len: nat) -> int
    decreases steps,
{
    if steps == 0 {
        0
    } else {
        next_position(position_after((steps - 1) as nat, len), len as int)
    }
}

/// A joined tree reaches as far as the two trees together.
pub proof fn law_extents_add_up<T: Item, D: Dimension<Summary = T::Summary>>(
    nodes: Nodes<T>,
    first: Tree<T>,
    second: Tree<T>,
    whole: Tree<T>,
    x: D,
    y: D,
)
    requires
        whole.content(nodes) == first.content(nodes) + second.content(nodes),
        T::Summary::fits(total(whole.content(nodes))),
        x@ == D::measure(total(first.content(nodes))),
        y@ == D::measure(total(second.content(nodes))),
    ensures
        forall|z: D|
            #[trigger] call_ensures(<D as Add<&D>>::add, (x, &y), z) ==> z@ == D::measure(
                total(whole.content(nodes)),
            ),
{
    lemma_total_concat(first.content(nodes), second.content(nodes));
    D::measure_is_additive(x, y, total(first.content(nodes)), total(second.content(nodes)));
}

/// A position parts the items of a tree: it lies behind those in front of the place
/// where a cursor that seeks it comes to stand, and behind no others.
pub proof fn law_seek_parts_items<T: Item, D: Dimension<Summary = T::Summary>>(
    items: Seq<Piece<T>>,
    pos: D::V,
    bias: SeekBias,
)
    requires
        T::Summary::fits(total(items)),
    ensures
        0 <= stop_from::<T, D>(items, 0, pos, bias) <= items.len(),
        forall|i: int|
            0 <= i < items.len() ==> (#[trigger] passes::<T, D>(items, i, pos, bias) <==> i
                < stop_from::<T, D>(items, 0, pos, bias)),
{
    let stop = stop_from::<T, D>(items, 0, pos, bias);
    lemma_stop_from::<T, D>(items, 0, pos, bias);
    assert forall|i: int| 0 <= i < items.len() implies (#[trigger] passes::<T, D>(
        items,
        i,
        pos,
        bias,
    ) <==> i < stop) by {
        if stop <= i && passes::<T, D>(items, i, pos, bias) {
            lemma_passes_earlier::<T, D>(items, stop, i, pos, bias);
        }
    }
}

/// Whether one position with its bias is not behind another one with its bias.
pub open spec fn not_behind<D: Dimension>(
    first: D::V,
    first_bias: SeekBias,
    second: D::V,
    second_bias: SeekBias,
) -> bool {
    ||| D::before(first, second)
    ||| first == second && (first_bias == SeekBias::Left || second_bias == SeekBias::Right)
}

/// A cursor that seeks a later position comes to stand no earlier. At one position,
/// a bias to the right takes it no less far than one to the left.
pub proof fn law_seek_is_monotone<T: Item, D: Dimension<Summary = T::Summary>>(
    items: Seq<Piece<T>>,
    from: int,
    first: D::V,
    first_bias: SeekBias,
    second: D::V,
    second_bias: SeekBias,
)
    requires
        0 <= from <= items.len(),
        not_behind::<D>(first, first_bias, second, second_bias),
    ensures
        stop_from::<T, D>(items, from, first, first_bias) <= stop_from::<T, D>(
            items,
            from,
            second,
            second_bias,
        ),
    decreases items.len() - from,
{
    if from < items.len() {
        let end = D::measure(total(items.take(from + 1)));
        D::before_is_total_order(end, first, second);
        law_seek_is_monotone::<T, D>(
            items,
            from + 1,
            first,
            first_bias,
            second,
            second_bias,
        );
        lemma_stop_from::<T, D>(items, from, second, second_bias);
    }
}

/// To cut up to one position and then up to a later one is to cut up to the later one
/// at once, in two parts.
pub proof fn law_slices_compose<T: Item, D: Dimension<Summary = T::Summary>>(
    items: Seq<Piece<T>>,
    from: int,
    first: D::V,
    first_bias: SeekBias,
    second: D::V,
    second_bias: SeekBias,
)
    requires
        0 <= from <= items.len(),
        not_behind::<D>(first, first_bias, second, second_bias),
    ensures
        ({
            let middle = stop_from::<T, D>(items, from, first, first_bias);
            let end = stop_from::<T, D>(items, from, second, second_bias);
            &&& from <= middle <= end <= items.len()
            &&& stop_from::<T, D>(items, middle, second, second_bias) == end
            &&& items.subrange(from, middle) + items.subrange(middle, end) == items.subrange(
                from,
                end,
            )
        }),
    decreases items.len() - from,
{
    let middle = stop_from::<T, D>(items, from, first, first_bias);
    let end = stop_from::<T, D>(items, from, second, second_bias);
    lemma_stop_from::<T, D>(items, from, first, first_bias);
    lemma_stop_from::<T, D>(items, from, second, second_bias);
    law_seek_is_monotone::<T, D>(items, from, first, first_bias, second, second_bias);
    if from < middle {
        law_slices_compose::<T, D>(items, from + 1, first, first_bias, second, second_bias);
    }
    assert(items.subrange(from, middle) + items.subrange(middle, end) =~= items.subrange(
        from,
        end,
    ));
}

/// A cursor that seeks the extent of its tree, with a bias to the right, goes behind
/// the last item.
pub proof fn law_extent_is_behind_all_items<T: Item, D: Dimension<Summary = T::Summary>>(
    items: Seq<Piece<T>>,
    from: int,
)
    requires
        0 <= from <= items.len(),
        T::Summary::fits(total(items)),
    ensures
        stop_from::<T, D>(items, from, D::measure(total(items)), SeekBias::Right) == items.len(),
{
    let extent = D::measure(total(items));
    if from < items.len() {
        assert(items.take(items.len() as int) =~= items);
        assert(passes::<T, D>(items, items.len() - 1, extent, SeekBias::Right));
        lemma_stop_from_later::<T, D>(
            items,
            from,
            items.len() as int,
            extent,
            SeekBias::Right,
        );
    }
}

/// To cut a tree at a position and join the two parts again gives its items back.
pub proof fn law_cut_and_join<T: Item, D: Dimension<Summary = T::Summary>>(
    items: Seq<Piece<T>>,
    pos: D::V,
    bias: SeekBias,
)
    requires
        T::Summary::fits(total(items)),
    ensures
        ({
            let extent = D::measure(total(items));
            let cut = stop_from::<T, D>(items, 0, pos, bias);
            let end = stop_from::<T, D>(items, cut, extent, SeekBias::Right);
            items.subrange(0, cut) + items.subrange(cut, end) == items
        }),
{
    law_splice::<T, D>(items, pos, bias, pos, bias, Seq::empty());
    let cut = stop_from::<T, D>(items, 0, pos, bias);
    lemma_stop_from::<T, D>(items, 0, pos, bias);
    law_extent_is_behind_all_items::<T, D>(items, cut);
    assert(items.subrange(0, cut) + items.subrange(cut, items.len() as int) =~= items);
}

/// To cut out the items in front of one position, add new ones, and join the items
/// from another position on, up to the extent, replaces the items in between.
pub proof fn law_splice<T: Item, D: Dimension<Summary = T::Summary>>(
    items: Seq<Piece<T>>,
    first: D::V,
    first_bias: SeekBias,
    second: D::V,
    second_bias: SeekBias,
    new_items: Seq<Piece<T>>,
)
    requires
        T::Summary::fits(total(items)),
    ensures
        ({
            let extent = D::measure(total(items));
            let start = stop_from::<T, D>(items, 0, first, first_bias);
            let end = stop_from::<T, D>(items, 0, second, second_bias);
            let last = stop_from::<T, D>(items, end, extent, SeekBias::Right);
            &&& 0 <= start <= items.len()
            &&& 0 <= end <= items.len()
            &&& items.subrange(0, start) + new_items + items.subrange(end, last) == items.take(
                start,
            ) + new_items + items.skip(end)
        }),
{
    lemma_stop_from::<T, D>(items, 0, first, first_bias);
    lemma_stop_from::<T, D>(items, 0, second, second_bias);
    let start = stop_from::<T, D>(items, 0, first, first_bias);
    let end = stop_from::<T, D>(items, 0, second, second_bias);
    law_extent_is_behind_all_items::<T, D>(items, end);
    assert(items.subrange(0, start) =~= items.take(start));
    assert(items.subrange(end, items.len() as int) =~= items.skip(end));
}

/// The child of a tree in memory in which a place lies is in memory.
proof fn lemma_child_in_memory<T: Item>(
    nodes: Nodes<T>,
    tree: Tree<T>,
    height: nat,
    root: bool,
    index: int,
)
    requires
        sound(nodes, tree, height, root, Rigor::Linked),
        all_in_memory(tree, height),
        goes_below(nodes, tree, height, index),
    ensures
        ({
            let child = child_with(nodes, tree, height, index);
            let below = (height - 1) as nat;
            &&& sound(nodes, child, below, false, Rigor::Linked)
            &&& all_in_memory(child, below)
            &&& child_start(nodes, tree.at(nodes), height, index) <= index
        }),
{
    let node = tree.at(nodes);
    lemma_front_and_back(nodes, node, height, node.len() as int);
    lemma_child_exists(nodes, node, height, index, node.len() as int);
    let i = child_at(nodes, node, height, index);
    assert(trees_in_memory(node->child_trees, (height - 1) as nat));
    assert(node->child_trees[i] == child_with(nodes, tree, height, index));
}

/// Nothing is read of a tree of height `height` that is in memory, whether a cursor goes down
/// to a place, up from it, on to a later one, or looks for the leaf in front of it.
pub proof fn law_memory_is_not_read<T: Item>(
    nodes: Nodes<T>,
    tree: Tree<T>,
    height: nat,
    root: bool,
    from: int,
    to: int,
)
    requires
        sound(nodes, tree, height, root, Rigor::Linked),
        all_in_memory(tree, height),
        0 <= from <= to,
    ensures
        way_ids(nodes, tree, height, from).len() == 0,
        way_up_ids(nodes, tree, height, from).len() == 0,
        way_end(nodes, tree, height, from) is Resident,
        walk_ids(nodes, tree, height, from, to).len() == 0,
        way_back_ids(nodes, tree, height, from).len() == 0,
    decreases height,
{
    let node = tree.at(nodes);
    if goes_below(nodes, tree, height, from) {
        let below = (height - 1) as nat;
        let child = child_with(nodes, tree, height, from);
        let start = child_start(nodes, node, height, from);
        lemma_child_in_memory(nodes, tree, height, root, from);
        law_memory_is_not_read(nodes, child, below, false, from - start, from - start);
        if to < items_in(nodes, node, height).len() {
            let later = child_with(nodes, tree, height, to);
            let later_start = child_start(nodes, node, height, to);
            lemma_child_in_memory(nodes, tree, height, root, to);
            if child_at(nodes, node, height, from) == child_at(nodes, node, height, to) {
                law_memory_is_not_read(nodes, child, below, false, from - start, to - start);
            } else {
                law_memory_is_not_read(
                    nodes,
                    later,
                    below,
                    false,
                    to - later_start,
                    to - later_start,
                );
            }
        }
        if from > 0 {
            let front = child_with(nodes, tree, height, from - 1);
            let front_start = child_start(nodes, node, height, from - 1);
            let at = from - 1 - front_start;
            lemma_child_in_memory(nodes, tree, height, root, from - 1);
            law_memory_is_not_read(nodes, front, below, false, at, at);
        }
    }
}

/// To cut out what is in front of a position, to add items to that, and to join to it what
/// a cursor that has sought another position goes past on its way to the end, puts the
/// items in the place of what lies between the two positions.
pub proof fn law_splice_trees<T: Item, D: Dimension<Summary = T::Summary>>(
    nodes: Nodes<T>,
    fresh: Cursor<T>,
    first: D::V,
    first_bias: SeekBias,
    cut: Cursor<T>,
    head: Tree<T>,
    new_items: Seq<T>,
    longer: Tree<T>,
    second: D::V,
    second_bias: SeekBias,
    again: Cursor<T>,
    end: Cursor<T>,
    tail: Tree<T>,
    whole: Tree<T>,
)
    requires
        fresh.wf(nodes),
        fresh.position(nodes) == 0,
        fresh.slices_to::<D>(nodes, first, first_bias, cut, head),
        longer.content(nodes) == head.content(nodes) + known(new_items),
        cut.seeks_to::<D>(nodes, second, second_bias, again),
        again.slices_to::<D>(
            nodes,
            D::measure(total(fresh.items(nodes))),
            SeekBias::Right,
            end,
            tail,
        ),
        fully_joined(nodes, longer, tail, whole),
    ensures
        ({
            let items = fresh.items(nodes);
            let from = cut.position(nodes);
            let to = again.position(nodes);
            &&& whole.wf(nodes)
            &&& 0 <= from <= items.len()
            &&& 0 <= to <= items.len()
            &&& end.at_end(nodes)
            &&& whole.content(nodes) == items.take(from) + known(new_items) + items.skip(to)
        }),
{
    let items = fresh.items(nodes);
    fresh.lemma_wf_is_anchored(nodes);
    fresh.lemma_anchored(nodes);
    law_splice::<T, D>(items, first, first_bias, second, second_bias, known(new_items));
    law_extent_is_behind_all_items::<T, D>(items, again.position(nodes));
}

/// What slices one after the other go past is, joined together, what lies between where the
/// first one began and where the last one ended.
pub proof fn law_slices_part_items<T: Item, D: Dimension<Summary = T::Summary>>(
    nodes: Nodes<T>,
    cursors: Seq<Cursor<T>>,
    positions: Seq<D::V>,
    biases: Seq<SeekBias>,
    trees: Seq<Tree<T>>,
)
    requires
        cursors.len() == trees.len() + 1,
        positions.len() == trees.len(),
        biases.len() == trees.len(),
        cursors[0].wf(nodes),
        forall|i: int|
            #![trigger trees[i]]
            0 <= i < trees.len() ==> cursors[i].slices_to::<D>(
                nodes,
                positions[i],
                biases[i],
                cursors[i + 1],
                trees[i],
            ),
    ensures
        cursors.last().wf(nodes),
        cursors.last().tree() == cursors[0].tree(),
        cursors[0].position(nodes) <= cursors.last().position(nodes),
        contents(nodes, trees) == cursors[0].items(nodes).subrange(
            cursors[0].position(nodes),
            cursors.last().position(nodes),
        ),
        cursors[0].position(nodes) == 0 && cursors.last().position(nodes) == cursors[0].items(
            nodes,
        ).len() ==> contents(nodes, trees) == cursors[0].items(nodes),
    decreases trees.len(),
{
    let items = cursors[0].items(nodes);
    cursors[0].lemma_position_bounds(nodes);
    if trees.len() == 0 {
        let at = cursors[0].position(nodes);
        assert(items.subrange(at, at) =~= Seq::<Piece<T>>::empty());
    } else {
        let n = trees.len() - 1;
        let before = cursors[n];
        let fewer = trees.drop_last();
        assert forall|i: int| #![trigger fewer[i]] 0 <= i < fewer.len() implies (
        cursors.drop_last())[i].slices_to::<D>(
            nodes,
            positions.drop_last()[i],
            biases.drop_last()[i],
            cursors.drop_last()[i + 1],
            fewer[i],
        ) by {
            assert(trees[i] == fewer[i]);
        }
        law_slices_part_items::<T, D>(
            nodes,
            cursors.drop_last(),
            positions.drop_last(),
            biases.drop_last(),
            fewer,
        );
        assert(trees[n] == trees.last());
        before.lemma_position_bounds(nodes);
        let (start, from) = (cursors[0].position(nodes), before.position(nodes));
        let to = cursors.last().position(nodes);
        lemma_stop_from::<T, D>(items, from, positions[n], biases[n]);
        assert(items.subrange(start, to) =~= items.subrange(start, from) + items.subrange(
            from,
            to,
        ));
    }
    let last = cursors.last().position(nodes);
    if cursors[0].position(nodes) == 0 && last == items.len() {
        assert(items.subrange(0, last) =~= items);
    }
}

/// Trees that are joined one after the other show what they showed one after the other. So
/// slices one after the other, from the start of a tree to its end, make up the tree again.
pub proof fn law_joined_slices_make_up_tree<T: Item, D: Dimension<Summary = T::Summary>>(
    nodes: Nodes<T>,
    cursors: Seq<Cursor<T>>,
    positions: Seq<D::V>,
    biases: Seq<SeekBias>,
    trees: Seq<Tree<T>>,
    joined: Seq<Tree<T>>,
)
    requires
        cursors.len() == trees.len() + 1,
        positions.len() == trees.len(),
        biases.len() == trees.len(),
        cursors[0].wf(nodes),
        forall|i: int|
            #![trigger trees[i]]
            0 <= i < trees.len() ==> cursors[i].slices_to::<D>(
                nodes,
                positions[i],
                biases[i],
                cursors[i + 1],
                trees[i],
            ),
        cursors[0].position(nodes) == 0,
        cursors.last().position(nodes) == cursors[0].items(nodes).len(),
        joined.len() == trees.len() + 1,
        joined[0].content(nodes).len() == 0,
        forall|i: int|
            #![trigger trees[i]]
            0 <= i < trees.len() ==> fully_joined(nodes, joined[i], trees[i], joined[i + 1]),
    ensures
        joined.last().content(nodes) == cursors[0].items(nodes),
{
    law_slices_part_items::<T, D>(nodes, cursors, positions, biases, trees);
    lemma_joined_in_a_row(nodes, trees, joined);
}

/// Trees that are joined one after the other to an empty one show what they showed one after
/// the other.
proof fn lemma_joined_in_a_row<T: Item>(
    nodes: Nodes<T>,
    trees: Seq<Tree<T>>,
    joined: Seq<Tree<T>>,
)
    requires
        joined.len() == trees.len() + 1,
        joined[0].content(nodes).len() == 0,
        forall|i: int|
            #![trigger trees[i]]
            0 <= i < trees.len() ==> fully_joined(nodes, joined[i], trees[i], joined[i + 1]),
    ensures
        joined.last().content(nodes) == contents(nodes, trees),
    decreases trees.len(),
{
    if trees.len() == 0 {
        assert(joined.last().content(nodes) =~= contents(nodes, trees));
    } else {
        let n = trees.len() - 1;
        let fewer = trees.drop_last();
        let before = joined.drop_last();
        assert forall|i: int| #![trigger fewer[i]] 0 <= i < fewer.len() implies fully_joined(
            nodes,
            before[i],
            fewer[i],
            before[i + 1],
        ) by {
            assert(trees[i] == fewer[i]);
        }
        lemma_joined_in_a_row(nodes, fewer, before);
        assert(trees[n] == trees.last());
        assert(before.last() == joined[n]);
    }
}

/// Reading from a store changes no tree, whatever else is done meanwhile. So clones of a
/// tree, and the tree of a cursor, still show what they showed when something has been
/// joined to another clone or to a slice.
pub proof fn law_reading_changes_no_tree<T: Item, S: NodeStore<T>, X>(
    before: S,
    after: S,
    result: Result<X, S::ReadError>,
    tree: Tree<T>,
)
    requires
        only_read(before, after, result),
    ensures
        tree.content(after.nodes()) == tree.content(before.nodes()),
        tree.at(after.nodes()) == tree.at(before.nodes()),
        tree.wf(after.nodes()) == tree.wf(before.nodes()),
        tree.can_be_walked(after.nodes()) == tree.can_be_walked(before.nodes()),
{
}

/// A cursor comes to stand at the same place whether or not what it goes past is cut out,
/// and what is cut out is what is in front of that place.
pub proof fn law_slice_stops_where_seek_does<T: Item, D: Dimension<Summary = T::Summary>>(
    nodes: Nodes<T>,
    fresh: Cursor<T>,
    pos: D::V,
    bias: SeekBias,
    sought: Cursor<T>,
    sliced: Cursor<T>,
    tree: Tree<T>,
)
    requires
        fresh.wf(nodes),
        fresh.position(nodes) == 0,
        fresh.seeks_to::<D>(nodes, pos, bias, sought),
        fresh.slices_to::<D>(nodes, pos, bias, sliced, tree),
    ensures
        sliced.position(nodes) == sought.position(nodes),
        tree.content(nodes) == fresh.items(nodes).take(sought.position(nodes)),
{
    let items = fresh.items(nodes);
    let stop = sought.position(nodes);
    lemma_stop_from::<T, D>(items, 0, pos, bias);
    assert(items.subrange(0, stop) =~= items.take(stop));
}

/// A cursor that stands at the first item and takes `k` steps stands at the item at `k`, or
/// behind the last one.
pub proof fn law_steps_visit_items<T: Item>(nodes: Nodes<T>, cursors: Seq<Cursor<T>>, k: int)
    requires
        0 <= k < cursors.len(),
        cursors[0].wf(nodes),
        cursors[0].position(nodes) == 0,
        forall|i: int|
            #![trigger cursors[i]]
            0 < i < cursors.len() ==> cursors[i - 1].steps_to(nodes, cursors[i]),
    ensures
        cursors[k].tree() == cursors[0].tree(),
        cursors[k].position(nodes) == position_after(k as nat, cursors[0].items(nodes).len()),
        cursors[k].position(nodes) == if k <= cursors[0].items(nodes).len() {
            k
        } else {
            cursors[0].items(nodes).len() as int
        },
    decreases k,
{
    if k > 0 {
        law_steps_visit_items(nodes, cursors, k - 1);
        assert(cursors[k - 1].steps_to(nodes, cursors[k]));
    }
    law_steps_reach_index(k as nat, cursors[0].items(nodes).len());
}

/// The last item of the leaf that is remembered when the item in front of the cursor is
/// asked for is that item, so that to ask again gives it again.
pub proof fn law_remembered_leaf_answers<T: Item>(
    nodes: Nodes<T>,
    cursor: Cursor<T>,
    leaf: Tree<T>,
    item: Option<&T>,
)
    requires
        0 < cursor.position(nodes) <= cursor.items(nodes).len(),
        leaf.content(nodes).len() > 0,
        leaf.content(nodes).is_suffix_of(cursor.items(nodes).take(cursor.position(nodes))),
    ensures
        is_item_at(leaf.content(nodes), leaf.content(nodes).len() - 1, item) == is_item_at(
            cursor.items(nodes),
            cursor.position(nodes) - 1,
            item,
        ),
{
    let front = cursor.items(nodes).take(cursor.position(nodes));
    let shown = leaf.content(nodes);
    let start = front.len() - shown.len();
    assert(shown.last() == front.subrange(start, front.len() as int).last());
}

/// An empty tree reaches as far as no items do.
pub proof fn law_empty_tree_has_no_extent<T: Item, D: Dimension<Summary = T::Summary>>(
    nodes: Nodes<T>,
    tree: Tree<T>,
)
    requires
        tree.wf(nodes),
        !tree.dangling(nodes),
        tree.content(nodes).len() == 0,
    ensures
        D::measure(tree.at(nodes).summary()) == D::measure(T::Summary::zero()),
{
    law_root_summarizes_all_items(nodes, tree);
    assert(piece_values(tree.content(nodes)).len() == 0);
}

/// With a bias to the left a cursor goes past exactly the items that end in front of the
/// position. With a bias to the right it also goes past those that end at it.
pub proof fn law_seek_goes_by_item_ends<T: Item, D: Dimension<Summary = T::Summary>>(
    items: Seq<Piece<T>>,
    from: int,
    pos: D::V,
)
    requires
        0 <= from <= items.len(),
        T::Summary::fits(total(items)),
    ensures
        ({
            let left = stop_from::<T, D>(items, from, pos, SeekBias::Left);
            let right = stop_from::<T, D>(items, from, pos, SeekBias::Right);
            &&& from <= left <= right <= items.len()
            &&& forall|n: int|
                from < n <= items.len() ==> {
                    let end = D::measure(total(#[trigger] items.take(n)));
                    &&& n <= left <==> D::before(end, pos)
                    &&& n <= right <==> D::before(end, pos) || end == pos
                    &&& n <= right <==> !D::before(pos, end)
                }
        }),
{
    let left = stop_from::<T, D>(items, from, pos, SeekBias::Left);
    let right = stop_from::<T, D>(items, from, pos, SeekBias::Right);
    lemma_stop_from::<T, D>(items, from, pos, SeekBias::Left);
    lemma_stop_from::<T, D>(items, from, pos, SeekBias::Right);
    assert forall|n: int| from < n <= items.len() implies {
        let end = D::measure(total(#[trigger] items.take(n)));
        &&& n <= left <==> D::before(end, pos)
        &&& n <= right <==> D::before(end, pos) || end == pos
        &&& n <= right <==> !D::before(pos, end)
    } by {
        let end = D::measure(total(items.take(n)));
        let goes_left = passes::<T, D>(items, n - 1, pos, SeekBias::Left);
        let goes_right = passes::<T, D>(items, n - 1, pos, SeekBias::Right);
        assert(items.take(n - 1 + 1) == items.take(n));
        assert(n <= left ==> goes_left);
        assert(n <= right ==> goes_right);
        D::before_is_total_order(end, pos, end);
        D::before_is_total_order(pos, end, pos);
        if left < n && passes::<T, D>(items, n - 1, pos, SeekBias::Left) {
            lemma_passes_earlier::<T, D>(items, left, n - 1, pos, SeekBias::Left);
        }
        if right < n && passes::<T, D>(items, n - 1, pos, SeekBias::Right) {
            lemma_passes_earlier::<T, D>(items, right, n - 1, pos, SeekBias::Right);
        }
    }
    if right < left {
        let n = right + 1;
        let end = D::measure(total(items.take(n)));
        assert(n <= left <==> D::before(end, pos));
    }
}

/// With a bias to the left the position of no items is in front of every item, also of those
/// that reach no further than it.
pub proof fn law_seek_to_the_start_goes_past_nothing<
    T: Item,
    D: Dimension<Summary = T::Summary>,
>(items: Seq<Piece<T>>, from: int)
    requires
        0 <= from <= items.len(),
        T::Summary::fits(total(items)),
    ensures
        stop_from::<T, D>(items, from, D::measure(T::Summary::zero()), SeekBias::Left) == from,
{
    let start = D::measure(T::Summary::zero());
    law_seek_goes_by_item_ends::<T, D>(items, from, start);
    let left = stop_from::<T, D>(items, from, start, SeekBias::Left);
    if left > from {
        let front = items.take(left);
        lemma_total_part_fits(items, 0, left);
        assert(items.subrange(0, left) =~= front);
        T::Summary::zero_is_neutral(total(front));
        D::measure_is_monotone(T::Summary::zero(), total(front));
    }
}

/// A cursor that has sought a position has exactly those items in front of it that end in
/// front of the position or, with a bias to the right, at it.
pub proof fn law_sought_position_parts_items<T: Item, D: Dimension<Summary = T::Summary>>(
    nodes: Nodes<T>,
    cursor: Cursor<T>,
    pos: D::V,
    bias: SeekBias,
    after: Cursor<T>,
)
    requires
        cursor.seeks_to::<D>(nodes, pos, bias, after),
    ensures
        ({
            let items = cursor.tree().content(nodes);
            let stop = after.position(nodes);
            &&& 0 <= stop <= items.len()
            &&& forall|n: int|
                0 < n <= items.len() ==> {
                    let end = D::measure(total(#[trigger] items.take(n)));
                    n <= stop <==> match bias {
                        SeekBias::Left => D::before(end, pos),
                        SeekBias::Right => !D::before(pos, end),
                    }
                }
        }),
{
    after.lemma_wf_is_anchored(nodes);
    after.lemma_anchored(nodes);
    law_seek_goes_by_item_ends::<T, D>(cursor.items(nodes), 0, pos);
}

/// A slice holds exactly the items behind the cursor that end in front of the position or,
/// with a bias to the right, at it, and the cursor stands behind them afterwards.
pub proof fn law_slice_holds_items_up_to_position<T: Item, D: Dimension<Summary = T::Summary>>(
    nodes: Nodes<T>,
    cursor: Cursor<T>,
    pos: D::V,
    bias: SeekBias,
    after: Cursor<T>,
    tree: Tree<T>,
)
    requires
        cursor.wf(nodes),
        cursor.slices_to::<D>(nodes, pos, bias, after, tree),
    ensures
        ({
            let items = cursor.tree().content(nodes);
            let (start, stop) = (cursor.position(nodes), after.position(nodes));
            &&& 0 <= start <= stop <= items.len()
            &&& tree.content(nodes) == items.subrange(start, stop)
            &&& forall|n: int|
                start < n <= items.len() ==> {
                    let end = D::measure(total(#[trigger] items.take(n)));
                    n <= stop <==> match bias {
                        SeekBias::Left => D::before(end, pos),
                        SeekBias::Right => !D::before(pos, end),
                    }
                }
        }),
{
    cursor.lemma_position_bounds(nodes);
    cursor.lemma_wf_is_anchored(nodes);
    cursor.lemma_anchored(nodes);
    law_seek_goes_by_item_ends::<T, D>(cursor.items(nodes), cursor.position(nodes), pos);
}

/// A cursor that seeks, steps or slices moves in the same tree as before, and goes on to
/// remember the leaf that it remembered.
pub proof fn law_moving_keeps_tree_and_leaf<T: Item, D: Dimension<Summary = T::Summary>>(
    nodes: Nodes<T>,
    cursor: Cursor<T>,
    pos: D::V,
    bias: SeekBias,
    after: Cursor<T>,
    tree: Tree<T>,
)
    requires
        cursor.steps_to(nodes, after) || cursor.seeks_to::<D>(nodes, pos, bias, after)
            || cursor.slices_to::<D>(nodes, pos, bias, after, tree) || after.same_anchor(cursor),
    ensures
        after.tree() == cursor.tree(),
        after.remembered() == cursor.remembered(),
{
}

/// A cursor that steps from one item of a leaf to the next one stands at no beginning of a
/// leaf, so that the item in front of it is the one that it left, whatever it remembers.
pub proof fn law_step_within_leaf<T: Item>(
    nodes: Nodes<T>,
    cursor: Cursor<T>,
    after: Cursor<T>,
)
    requires
        cursor.wf(nodes),
        cursor.sought(),
        cursor.steps_to(nodes, after),
        after.position(nodes) < after.tree().content(nodes).len(),
        ({
            let height = cursor.tree().at(nodes).height();
            leaf_from(nodes, cursor.tree(), height, cursor.position(nodes)) == leaf_from(
                nodes,
                cursor.tree(),
                height,
                after.position(nodes),
            )
        }),
    ensures
        after.position(nodes) == cursor.position(nodes) + 1,
        !after.at_leaf_start(),
{
    let tree = cursor.tree();
    cursor.lemma_position_bounds(nodes);
    after.lemma_wf_is_anchored(nodes);
    after.lemma_anchored(nodes);
    law_leaf_holds_its_items(
        nodes,
        tree,
        tree.at(nodes).height(),
        true,
        cursor.position(nodes),
    );
    after.law_leaf_start(nodes);
}

/// Two cursors at the same item of a tree stand at the first item of a leaf, or both do not.
pub proof fn law_leaf_start_depends_on_place_only<T: Item>(
    nodes: Nodes<T>,
    a: Cursor<T>,
    b: Cursor<T>,
)
    requires
        a.wf(nodes),
        a.sought(),
        b.wf(nodes),
        b.sought(),
        a.tree() == b.tree(),
        a.position(nodes) == b.position(nodes),
        a.position(nodes) < a.tree().content(nodes).len(),
    ensures
        a.at_leaf_start() == b.at_leaf_start(),
{
    a.law_leaf_start(nodes);
    b.law_leaf_start(nodes);
}

/// An item is shown at a place that lies within a run, and nothing is shown elsewhere.
pub proof fn law_item_is_what_is_shown<T: Item>(
    run: Seq<Piece<T>>,
    index: int,
    item: Option<&T>,
)
    ensures
        is_item_at(run, index, item) <==> match item {
            Some(item) => 0 <= index < run.len() && run[index] == Piece::Item(*item),
            None => index < 0 || index >= run.len(),
        },
{
}

/// The summary of no items is zero, that of one item or hidden subtree is its own, and that
/// of two runs, one after the other, is the sum of theirs.
pub proof fn law_totals_add_up<T: Item>(
    item: T,
    id: NodeId,
    height: nat,
    summary: SummaryValue<T>,
    a: Seq<Piece<T>>,
    b: Seq<Piece<T>>,
)
    ensures
        total(Seq::<Piece<T>>::empty()) == T::Summary::zero(),
        total(seq![Piece::Item(item)]) == item.summary_value(),
        total(a + b) == T::Summary::plus(total(a), total(b)),
        total(seq![Piece::<T>::Hidden { id, height, summary }]) == summary,
{
    assert(piece_values(Seq::<Piece<T>>::empty()).len() == 0);
    lemma_total_one(Piece::Item(item));
    lemma_total_concat(a, b);
    lemma_total_one(Piece::<T>::Hidden { id, height, summary });
}

/// Summaries add up to zero if there are none, to the one if there is one, and to the sum of
/// two sums if there are two runs of them.
pub proof fn law_sums_add_up<S: Summary>(value: S::V, a: Seq<S::V>, b: Seq<S::V>)
    ensures
        total_of::<S>(Seq::empty()) == S::zero(),
        total_of::<S>(seq![value]) == value,
        total_of::<S>(a + b) == S::plus(total_of::<S>(a), total_of::<S>(b)),
{
    lemma_total_of_one::<S>(value);
    lemma_total_of_concat::<S>(a, b);
}

/// A run of items shows each of them in its place.
pub proof fn law_known_items_are_shown<T: Item>(items: Seq<T>, i: int)
    ensures
        known(items).len() == items.len(),
        0 <= i < items.len() ==> known(items)[i] == Piece::Item(items[i]),
{
}

/// A failed read is reported: the store has met with an error exactly if the result is one,
/// and then it is the last one that the store has met with.
pub proof fn law_failed_reads_are_reported<T: Item, S: NodeStore<T>, X>(
    before: S,
    after: S,
    result: Result<X, S::ReadError>,
)
    requires
        only_read(before, after, result),
    ensures
        result is Ok <==> after.failures() == before.failures(),
        result matches Err(error) ==> {
            &&& after.failures().len() == before.failures().len() + 1
            &&& after.failures().last() == error
            &&& after.failures().drop_last() == before.failures()
        },
{
    if let Err(error) = result {
        assert(before.failures().push(error).drop_last() =~= before.failures());
    }
}

/// To get at the root of a tree takes one read of that node, or none if it is in memory.
pub proof fn law_root_takes_one_read<T: Item>(tree: Tree<T>)
    ensures
        match tree {
            Tree::Resident(_) => id_of(tree).len() == 0,
            Tree::NonResident(id) => id_of(tree).len() == 1 && id_of(tree)[0] == id,
        },
{
}

/// A node of a sound tree that is found has as many children or items as it may have, and
/// its children are one level lower, and carry the summaries that the node has for them.
pub proof fn law_nodes_are_balanced<T: Item>(
    nodes: Nodes<T>,
    node: NodeView<T>,
    height: nat,
    root: bool,
    i: int,
)
    requires
        sound_node(nodes, node, height, root, Rigor::Summed),
    ensures
        node.height() == height,
        node.len() <= NODE_CAPACITY,
        !root ==> node.len() >= TREE_BASE,
        node is Leaf <==> height == 0,
        node matches NodeView::Internal { child_trees, child_summaries, .. } ==> {
            &&& child_trees.len() > 0
            &&& child_summaries.len() == child_trees.len()
            &&& 0 <= i < child_trees.len() && !child_trees[i].dangling(nodes) ==> {
                let child = child_trees[i].at(nodes);
                &&& child.height() + 1 == height
                &&& TREE_BASE <= child.len() <= NODE_CAPACITY
                &&& child.summary() == child_summaries[i]
            }
        },
{
    if let NodeView::Internal { child_trees, .. } = node {
        if 0 <= i < child_trees.len() {
            assert(sound(nodes, child_trees[i], (height - 1) as nat, false, Rigor::Summed));
        }
    }
}

/// The values that summaries stand for are those of each of them, in its place.
pub proof fn law_values_keep_their_places<S: Summary>(summaries: Seq<S>, i: int)
    ensures
        values_of(summaries).len() == summaries.len(),
        0 <= i < summaries.len() ==> values_of(summaries)[i] == summaries[i]@,
{
}

/// Two trees that are joined show what the one showed, then what the other one showed, and
/// reach as far as both together.
pub proof fn law_joined_tree_shows_both<T: Item>(
    nodes: Nodes<T>,
    first: Tree<T>,
    second: Tree<T>,
    whole: Tree<T>,
)
    requires
        fully_joined(nodes, first, second, whole),
    ensures
        whole.content(nodes).len() == first.content(nodes).len() + second.content(nodes).len(),
        first.content(nodes).is_prefix_of(whole.content(nodes)),
        second.content(nodes).is_suffix_of(whole.content(nodes)),
        whole.at(nodes).summary() == T::Summary::plus(
            total(first.content(nodes)),
            total(second.content(nodes)),
        ),
{
    let (a, b) = (first.content(nodes), second.content(nodes));
    assert(a =~= (a + b).subrange(0, a.len() as int));
    assert(b =~= (a + b).subrange(a.len() as int, (a + b).len() as int));
    law_root_summarizes_all_items(nodes, whole);
    lemma_total_concat(a, b);
}

/// A tree to which another one could not be joined wholly still shows what it showed, then
/// perhaps some of what the other one shows, and nothing else. Nothing is joined of a tree
/// that is not higher.
pub proof fn law_failed_join_loses_nothing<T: Item>(
    nodes: Nodes<T>,
    first: Tree<T>,
    second: Tree<T>,
    left: Tree<T>,
)
    requires
        partly_joined(nodes, first, second, left),
    ensures
        first.content(nodes).is_prefix_of(left.content(nodes)),
        left.content(nodes).is_prefix_of(first.content(nodes) + second.content(nodes)),
        first.at(nodes).height() >= second.at(nodes).height() ==> left.content(nodes)
            == first.content(nodes),
        first is Resident ==> left is Resident,
{
}

/// If a node below the root cannot be read while a tree is joined to another one, the root
/// already carries the summary of both, and the summaries of its children, and all of them
/// but the last, are as they were.
pub proof fn law_failed_join_below_root<T: Item>(
    nodes: Nodes<T>,
    first: Tree<T>,
    second: Tree<T>,
    left: Tree<T>,
    height: nat,
    ids: Reads,
    i: int,
)
    requires
        broken_off(nodes, first, second, left, height, ids),
        ids.len() > id_of(first).len() + id_of(second).len(),
        first.wf(nodes),
        !first.dangling(nodes),
    ensures
        left is Resident,
        left.at(nodes) is Internal,
        left.at(nodes).summary() == T::Summary::plus(
            first.at(nodes).summary(),
            second.at(nodes).summary(),
        ),
        left.at(nodes)->child_summaries == first.at(nodes)->child_summaries,
        left.at(nodes).len() == first.at(nodes).len(),
        0 <= i < first.at(nodes).len() - 1 ==> left.at(nodes)->child_trees[i] == first.at(
            nodes,
        )->child_trees[i],
{
}

/// Items that are too many for one leaf are split evenly, the first half being the longer
/// one if they are odd in number. Others stay in one leaf.
pub proof fn law_leaf_is_split_evenly<T: Item>(
    items: Seq<T>,
    node: NodeView<T>,
    split: Option<Tree<T>>,
    nodes: Nodes<T>,
)
    requires
        items_placed(items, node, split),
    ensures
        node is Leaf,
        split is Some <==> items.len() > NODE_CAPACITY,
        match split {
            None => node->items == items,
            Some(right) => {
                &&& right.at(nodes) is Leaf
                &&& node->items + right.at(nodes)->items == items
                &&& 0 <= node.len() - right.at(nodes).len() <= 1
            },
        },
{
    if items.len() > NODE_CAPACITY {
        let mid = split_point(items.len() as int);
        assert(items.take(mid) + items.skip(mid) =~= items);
    }
}

/// Children that are too many for one node are split evenly, the first half being the longer
/// one if they are odd in number. Others stay in one node.
pub proof fn law_node_is_split_evenly<T: Item>(
    height: nat,
    trees: Seq<Tree<T>>,
    summaries: Seq<SummaryValue<T>>,
    node: NodeView<T>,
    split: Option<Tree<T>>,
    nodes: Nodes<T>,
)
    requires
        children_placed(height, trees, summaries, node, split),
        trees.len() == summaries.len(),
    ensures
        node is Internal,
        node.height() == height,
        split is Some <==> trees.len() > NODE_CAPACITY,
        match split {
            None => node->child_trees == trees && node->child_summaries == summaries,
            Some(right) => {
                &&& right.at(nodes) is Internal
                &&& right.at(nodes).height() == height
                &&& node->child_trees + right.at(nodes)->child_trees == trees
                &&& node->child_summaries + right.at(nodes)->child_summaries == summaries
                &&& 0 <= node.len() - right.at(nodes).len() <= 1
            },
        },
{
    if trees.len() > NODE_CAPACITY {
        let mid = split_point(trees.len() as int);
        assert(trees.take(mid) + trees.skip(mid) =~= trees);
        assert(summaries.take(mid) + summaries.skip(mid) =~= summaries);
    }
}

/// Items that are cut into leaves fill all leaves but the last one, which is not empty.
pub proof fn law_leaves_are_filled(len: nat)
    requires
        len > 0,
    ensures
        leaf_start(len) % (NODE_CAPACITY as nat) == 0,
        0 < len - leaf_start(len) <= NODE_CAPACITY,
    decreases len,
{
    assert(NODE_CAPACITY == 4);
    if len > NODE_CAPACITY {
        law_leaves_are_filled((len - NODE_CAPACITY) as nat);
    }
}

/// The first leaf holds the first items, as many as there are and as fit in.
pub proof fn law_first_leaf_is_filled<T>(items: Seq<T>)
    ensures
        first_leaf(items).is_prefix_of(items),
        first_leaf(items).len() == NODE_CAPACITY || first_leaf(items) == items,
        first_leaf(items).len() <= NODE_CAPACITY,
{
    assert(first_leaf(items) =~= items.subrange(0, first_leaf(items).len() as int));
}

/// The subtree of height `low` on the way down the last children of a tree of height
/// `height`.
pub open spec fn end_at<T: Item>(nodes: Nodes<T>, tree: Tree<T>, height: nat, low: nat) -> Tree<T>
    decreases height,
{
    if height <= low {
        tree
    } else {
        end_at(nodes, tree.at(nodes)->child_trees.last(), (height - 1) as nat, low)
    }
}

/// What is placed last among children is at the end.
proof fn lemma_grown_end<T: Item>(
    nodes: Nodes<T>,
    old_tree: Tree<T>,
    other: Tree<T>,
    tree: Tree<T>,
    split: Option<Tree<T>>,
    height: nat,
)
    requires
        grown(nodes, old_tree, other, tree, split, height),
        sound(nodes, old_tree, height, true, Rigor::Summed),
        other.at(nodes).height() < height,
        other.at(nodes).len() >= TREE_BASE,
    ensures
        end_at(nodes, last_of(tree, split), height, other.at(nodes).height()) == other,
    decreases height,
{
    let from = other.at(nodes);
    let low = from.height();
    let below = (height - 1) as nat;
    let old_trees = old_tree.at(nodes)->child_trees;
    let old_summaries = old_tree.at(nodes)->child_summaries;
    if low + 1 == height {
        let trees = old_trees + seq![other];
        let summaries = old_summaries + seq![from.summary()];
        lemma_placed_last(nodes, height, trees, summaries, tree, split);
        assert(trees.last() == other);
        assert(end_at(nodes, other, below, low) == other);
    } else {
        let (last, last_split) = choose|last: Tree<T>, last_split: Option<Tree<T>>|
            {
                &&& grown(nodes, old_trees.last(), other, last, last_split, below)
                &&& children_placed(
                    height,
                    #[trigger] last_replaced(old_trees, last, last_split),
                    last_summary_replaced(nodes, old_summaries, last, last_split),
                    tree.at(nodes),
                    split,
                )
            };
        let trees = last_replaced(old_trees, last, last_split);
        let summaries = last_summary_replaced(nodes, old_summaries, last, last_split);
        let n = old_trees.len() - 1;
        assert(sound(nodes, old_trees[n], below, false, Rigor::Summed));
        lemma_sound_as_root(nodes, old_trees[n], below, Rigor::Summed);
        lemma_grown_end(nodes, old_trees.last(), other, last, last_split, below);
        lemma_placed_last(nodes, height, trees, summaries, tree, split);
        assert(trees.last() == last_of(last, last_split));
    }
}

/// The last of the children that are placed is the last child of the last node.
proof fn lemma_placed_last<T: Item>(
    nodes: Nodes<T>,
    height: nat,
    trees: Seq<Tree<T>>,
    summaries: Seq<SummaryValue<T>>,
    tree: Tree<T>,
    split: Option<Tree<T>>,
)
    requires
        children_placed(height, trees, summaries, tree.at(nodes), split),
        trees.len() > 0,
    ensures
        last_of(tree, split).at(nodes) is Internal,
        last_of(tree, split).at(nodes)->child_trees.last() == trees.last(),
{
    if trees.len() > NODE_CAPACITY {
        let mid = split_point(trees.len() as int);
        assert(trees.skip(mid).last() == trees.last());
    }
}

/// A tree that is lower than another one, and not short of children or items, is joined to
/// it as it is: it becomes the last subtree of its height.
pub proof fn law_lower_tree_is_joined_as_it_is<T: Item>(
    nodes: Nodes<T>,
    old_tree: Tree<T>,
    other: Tree<T>,
    tree: Tree<T>,
)
    requires
        old_tree.wf(nodes),
        other.wf(nodes),
        !other.dangling(nodes),
        merged(nodes, old_tree, other, tree),
        other.at(nodes).height() < old_tree.at(nodes).height(),
        other.at(nodes).len() >= TREE_BASE,
    ensures
        end_at(nodes, tree, tree.at(nodes).height(), other.at(nodes).height()) == other,
{
    let height = old_tree.at(nodes).height();
    let (left, split) = choose|left: Tree<T>, split: Option<Tree<T>>|
        {
            &&& #[trigger] grown(nodes, old_tree, other, left, split, height)
            &&& match split {
                None => tree == left,
                Some(right) => {
                    &&& tree is Resident
                    &&& tree.at(nodes) == node_over(nodes, seq![left, right], height)
                },
            }
        };
    lemma_grown_end(nodes, old_tree, other, left, split, height);
    lemma_grown_height(nodes, old_tree, other, left, split, height);
    if let Some(right) = split {
        assert(seq![left, right].last() == right);
    }
}

/// What becomes of the root when a tree is joined to another one.
proof fn lemma_grown_height<T: Item>(
    nodes: Nodes<T>,
    old_tree: Tree<T>,
    other: Tree<T>,
    tree: Tree<T>,
    split: Option<Tree<T>>,
    height: nat,
)
    requires
        grown(nodes, old_tree, other, tree, split, height),
        sound(nodes, old_tree, height, true, Rigor::Summed),
        other.at(nodes).height() <= height,
        other.at(nodes) is Leaf <==> other.at(nodes).height() == 0,
    ensures
        tree.at(nodes).height() == height,
        tree.at(nodes) is Leaf <==> old_tree.at(nodes) is Leaf,
        other.at(nodes).height() == height ==> (split is Some <==> old_tree.at(nodes).len()
            + other.at(nodes).len() > NODE_CAPACITY),
        other.at(nodes).height() < height && split is Some ==> old_tree.at(nodes).len()
            == NODE_CAPACITY,
        ({
            let trees = old_tree.at(nodes)->child_trees;
            forall|i: int|
                0 <= i < old_tree.at(nodes).len() - 1 && i < tree.at(nodes).len()
                    && old_tree.at(nodes) is Internal ==> #[trigger] tree.at(nodes)->child_trees[i]
                    == trees[i]
        }),
{
}

/// A tree to which one that is not higher is joined becomes higher by one level at most, and
/// only if its root has no room: for the children or items of one that is as high, or for
/// one child more. The children of its root, but for the last one, stay where they are.
pub proof fn law_join_grows_only_when_full<T: Item>(
    nodes: Nodes<T>,
    old_tree: Tree<T>,
    other: Tree<T>,
    tree: Tree<T>,
    i: int,
)
    requires
        old_tree.wf(nodes),
        other.wf(nodes),
        !other.dangling(nodes),
        merged(nodes, old_tree, other, tree),
        other.at(nodes).height() <= old_tree.at(nodes).height(),
    ensures
        ({
            let height = old_tree.at(nodes).height();
            let higher = tree.at(nodes).height() == height + 1;
            let left = if higher {
                tree.at(nodes)->child_trees[0]
            } else {
                tree
            };
            &&& higher || tree.at(nodes).height() == height
            &&& higher ==> tree.at(nodes).len() == 2
            &&& other.at(nodes).height() == height ==> (higher <==> old_tree.at(nodes).len()
                + other.at(nodes).len() > NODE_CAPACITY)
            &&& other.at(nodes).height() < height && higher ==> old_tree.at(nodes).len()
                == NODE_CAPACITY
            &&& old_tree.at(nodes) is Internal && 0 <= i < old_tree.at(nodes).len() - 1 && i
                < left.at(nodes).len() ==> left.at(nodes)->child_trees[i] == old_tree.at(
                nodes,
            )->child_trees[i]
        }),
{
    let height = old_tree.at(nodes).height();
    let (left, split) = choose|left: Tree<T>, split: Option<Tree<T>>|
        {
            &&& #[trigger] grown(nodes, old_tree, other, left, split, height)
            &&& match split {
                None => tree == left,
                Some(right) => {
                    &&& tree is Resident
                    &&& tree.at(nodes) == node_over(nodes, seq![left, right], height)
                },
            }
        };
    lemma_grown_height(nodes, old_tree, other, left, split, height);
}

/// Going up from a place is going down to it the other way round, and no way is longer than
/// the tree is high.
pub proof fn law_way_up_is_way_down_reversed<T: Item>(
    nodes: Nodes<T>,
    tree: Tree<T>,
    height: nat,
    index: int,
)
    ensures
        way_up_ids(nodes, tree, height, index) == way_ids(nodes, tree, height, index).reverse(),
        way_ids(nodes, tree, height, index).len() <= height + 1,
        id_of(tree).is_prefix_of(way_ids(nodes, tree, height, index)),
        id_of(way_end(nodes, tree, height, index)).is_suffix_of(
            way_ids(nodes, tree, height, index),
        ),
    decreases height,
{
    let way = way_ids(nodes, tree, height, index);
    if goes_below(nodes, tree, height, index) {
        let child = child_with(nodes, tree, height, index);
        let at = index - child_start(nodes, tree.at(nodes), height, index);
        let rest = way_ids(nodes, child, (height - 1) as nat, at);
        law_way_up_is_way_down_reversed(nodes, child, (height - 1) as nat, at);
        assert((id_of(tree) + rest).reverse() =~= rest.reverse() + id_of(tree).reverse());
        assert(id_of(tree).reverse() =~= id_of(tree));
        let end = id_of(way_end(nodes, tree, height, index));
        assert(end =~= way.subrange(way.len() - end.len(), way.len() as int));
    } else {
        assert(way.reverse() =~= way);
        assert(way =~= way.subrange(0, way.len() as int));
    }
    assert(id_of(tree) =~= way.subrange(0, id_of(tree).len() as int));
}

/// On the way from one item to a later one of the same leaf only that leaf is read, and on
/// no way are there more reads than nodes on the way up to the root and down again.
pub proof fn law_walk_reads_few_nodes<T: Item>(
    nodes: Nodes<T>,
    tree: Tree<T>,
    height: nat,
    root: bool,
    from: int,
    to: int,
)
    requires
        !tree.dangling(nodes),
        sound_node(nodes, tree.at(nodes), height, root, Rigor::Linked),
        0 <= from <= to,
        from < items_in(nodes, tree.at(nodes), height).len(),
    ensures
        walk_ids(nodes, tree, height, from, to).len() <= 2 * height + 1,
        to < items_in(nodes, tree.at(nodes), height).len() && leaf_from(
            nodes,
            tree,
            height,
            from,
        ) == leaf_from(nodes, tree, height, to) ==> walk_ids(nodes, tree, height, from, to)
            == id_of(way_end(nodes, tree, height, from)),
    decreases height,
{
    let node = tree.at(nodes);
    let len = items_in(nodes, node, height).len();
    law_way_up_is_way_down_reversed(nodes, tree, height, from);
    assert(way_up_ids(nodes, tree, height, from).len() <= height + 1);
    if goes_below(nodes, tree, height, from) && to < len {
        let below = (height - 1) as nat;
        lemma_front_and_back(nodes, node, height, node.len() as int);
        lemma_child_exists(nodes, node, height, from, node.len() as int);
        lemma_child_exists(nodes, node, height, to, node.len() as int);
        let (c, d) = (child_at(nodes, node, height, from), child_at(nodes, node, height, to));
        let (child, later) = (node->child_trees[c], node->child_trees[d]);
        let start = child_start(nodes, node, height, from);
        let later_start = child_start(nodes, node, height, to);
        lemma_front_grows(nodes, node, height, c, c);
        lemma_front_grows(nodes, node, height, d, d);
        assert(sound(nodes, child, below, false, Rigor::Linked));
        assert(sound(nodes, later, below, false, Rigor::Linked));
        law_way_up_is_way_down_reversed(nodes, child, below, from - start);
        law_way_up_is_way_down_reversed(nodes, later, below, to - later_start);
        let up = way_up_ids(nodes, child, below, from - start);
        let down = way_ids(nodes, later, below, to - later_start);
        assert(up.len() <= below + 1 && down.len() <= below + 1);
        if c == d {
            if child.dangling(nodes) {
                assert(!goes_below(nodes, child, below, from - start));
                assert(walk_ids(nodes, child, below, from - start, to - start) == id_of(child));
            } else {
                law_walk_reads_few_nodes(nodes, child, below, false, from - start, to - start);
            }
            assert(goes_below(nodes, tree, height, to));
            assert(leaf_from(nodes, tree, height, to) == start + leaf_from(
                nodes,
                child,
                below,
                to - start,
            ));
        } else {
            assert(walk_ids(nodes, tree, height, from, to) == up + id_of(tree) + down);
            if d < c {
                lemma_front_grows(nodes, node, height, d + 1, c);
            }
            lemma_front_grows(nodes, node, height, c + 1, d);
            if !child.dangling(nodes) {
                law_leaf_holds_its_items(nodes, child, below, false, from - start);
            }
            if !later.dangling(nodes) {
                law_leaf_holds_its_items(nodes, later, below, false, to - later_start);
            }
            assert(goes_below(nodes, tree, height, to));
            assert(leaf_from(nodes, later, below, to - later_start) >= 0);
            assert(leaf_from(nodes, tree, height, to) >= later_start);
            assert(leaf_from(nodes, child, below, from - start) <= from - start);
            assert(leaf_from(nodes, tree, height, from) <= from);
        }
    }
}

/// To look for the leaf in front takes no more reads than the tree is high.
pub proof fn law_way_back_is_short<T: Item>(
    nodes: Nodes<T>,
    tree: Tree<T>,
    height: nat,
    index: int,
)
    ensures
        way_back_ids(nodes, tree, height, index).len() <= height + 1,
        index <= 0 ==> way_back_ids(nodes, tree, height, index).len() == 0,
    decreases height,
{
    if goes_below(nodes, tree, height, index) && index > 0 {
        let node = tree.at(nodes);
        let below = (height - 1) as nat;
        let start = child_start(nodes, node, height, index);
        if index > start {
            let child = child_with(nodes, tree, height, index);
            law_way_back_is_short(nodes, child, below, index - start);
        } else {
            let child = child_with(nodes, tree, height, index - 1);
            let at = index - 1 - child_start(nodes, node, height, index - 1);
            law_way_up_is_way_down_reversed(nodes, child, below, at);
        }
    }
}

/// A cursor reads few nodes: one leaf for the item that it stands at, the nodes on the way up
/// and down for the next one, and the nodes on the way down when it has no place yet.
pub proof fn law_cursor_reads_few_nodes<T: Item, D: Dimension<Summary = T::Summary>>(
    nodes: Nodes<T>,
    cursor: Cursor<T>,
    pos: D::V,
    bias: SeekBias,
)
    requires
        cursor.wf(nodes),
        !cursor.tree().dangling(nodes),
    ensures
        ({
            let height = cursor.tree().at(nodes).height();
            let position = cursor.position(nodes);
            &&& cursor.item_ids(nodes).len() <= 1
            &&& cursor.next_ids(nodes).len() <= 2 * height + 1
            &&& cursor.back_ids(nodes).len() <= height + 1
            &&& cursor.remembered() is Some ==> cursor.back_ids(nodes).len() == 0
            &&& !cursor.sought() ==> cursor.seek_ids::<D>(nodes, pos, bias).len() <= height + 1
            &&& cursor.seek_ids::<D>(nodes, pos, bias).len() <= 2 * height + 1
            &&& position + 1 < cursor.tree().content(nodes).len() && leaf_from(
                nodes,
                cursor.tree(),
                height,
                position,
            ) == leaf_from(nodes, cursor.tree(), height, position + 1) ==> cursor.next_ids(nodes)
                == cursor.item_ids(nodes)
            &&& cursor.at_end(nodes) ==> {
                &&& cursor.item_ids(nodes).len() == 0
                &&& cursor.next_ids(nodes).len() == 0
                &&& cursor.seek_ids::<D>(nodes, pos, bias).len() == 0
            }
        }),
{
    let tree = cursor.tree();
    let height = tree.at(nodes).height();
    let position = cursor.position(nodes);
    let stop = cursor.stop::<D>(nodes, pos, bias);
    cursor.lemma_position_bounds(nodes);
    cursor.lemma_wf_is_anchored(nodes);
    cursor.lemma_anchored(nodes);
    lemma_stop_from::<T, D>(cursor.items(nodes), position, pos, bias);
    law_way_up_is_way_down_reversed(nodes, tree, height, stop);
    law_way_back_is_short(nodes, tree, height, position);
    if position < cursor.items(nodes).len() {
        law_walk_reads_few_nodes(nodes, tree, height, true, position, position + 1);
        law_walk_reads_few_nodes(nodes, tree, height, true, position, stop);
    }
}

/// To list a tree takes few reads for each item, and those on the way to the first one.
pub proof fn law_listing_reads_few_nodes<T: Item>(nodes: Nodes<T>, tree: Tree<T>, from: int)
    requires
        tree.can_be_walked(nodes),
        !tree.dangling(nodes),
        0 <= from <= tree.content(nodes).len(),
    ensures
        ({
            let height = tree.at(nodes).height();
            let left = tree.content(nodes).len() - from;
            &&& rest_ids(nodes, tree, from).len() <= left * (2 * height + 2)
            &&& from == 0 ==> list_ids(nodes, tree).len() <= left * (2 * height + 2) + height + 2
        }),
    decreases tree.content(nodes).len() - from,
{
    let height = tree.at(nodes).height();
    let left = tree.content(nodes).len() - from;
    law_way_up_is_way_down_reversed(nodes, tree, height, 0);
    if left > 0 {
        law_listing_reads_few_nodes(nodes, tree, from + 1);
        law_walk_reads_few_nodes(nodes, tree, height, true, from, from + 1);
        assert(left * (2 * height + 2) == (left - 1) * (2 * height + 2) + (2 * height + 2))
            by (nonlinear_arith);
    } else {
        assert(left * (2 * height + 2) == 0) by (nonlinear_arith)
            requires
                left == 0,
        ;
    }
}

/// To join a tree that is not higher takes few reads: two looks at each root, and on each
/// level of the way down to where it is put one read of the node there and one of the tree.
/// None is needed if the other tree and the end of this one are in memory.
pub proof fn law_join_reads_few_nodes<T: Item>(
    nodes: Nodes<T>,
    tree: Tree<T>,
    other: Tree<T>,
    height: nat,
)
    ensures
        merge_ids(nodes, tree, other, height).len() <= 2 * (height + 1),
        (id_of(tree) + id_of(other)).is_prefix_of(merge_ids(nodes, tree, other, height)),
        other is Resident && last_way_in_memory(nodes, tree, height) ==> merge_ids(
            nodes,
            tree,
            other,
            height,
        ).len() == 0,
    decreases height,
{
    let here = id_of(tree) + id_of(other);
    let all = merge_ids(nodes, tree, other, height);
    if goes_into_last(nodes, tree, other, height) && height > 0 {
        law_join_reads_few_nodes(
            nodes,
            tree.at(nodes)->child_trees.last(),
            other,
            (height - 1) as nat,
        );
    }
    assert(here =~= all.subrange(0, here.len() as int));
}

/// What was read in order is all that was asked for in between, up to the read that failed.
pub proof fn law_reads_are_recorded<T: Item, S: NodeStore<T>, X>(
    before: S,
    after: S,
    ids: Reads,
    result: Result<X, S::ReadError>,
)
    requires
        read_in_order(before, after, ids, result),
    ensures
        after.nodes() == before.nodes(),
        result is Ok ==> after.reads() == before.reads() + ids,
        result is Ok ==> after.failures() == before.failures(),
        result matches Err(error) ==> {
            &&& after.failures() == before.failures().push(error)
            &&& before.reads().len() < after.reads().len() <= before.reads().len() + ids.len()
            &&& after.reads().is_prefix_of(before.reads() + ids)
        },
{
    if result is Err {
        let read = ids_read(before, after);
        assert(after.reads() =~= (before.reads() + ids).subrange(0, after.reads().len() as int));
    }
}

/// A node that is read twice may fail twice, and the result goes by the second read.
pub proof fn law_second_read_decides<T: Item, S: NodeStore<T>, X>(
    before: S,
    after: S,
    result: Result<X, S::ReadError>,
)
    requires
        read_again(before, after, result),
    ensures
        before.failures().is_prefix_of(after.failures()),
        result is Ok ==> after.failures().len() <= before.failures().len() + 1,
        result matches Err(error) ==> {
            &&& before.failures().len() < after.failures().len() <= before.failures().len() + 2
            &&& after.failures().last() == error
        },
{
    let (a, b) = (before.failures(), after.failures());
    assert(a =~= b.subrange(0, a.len() as int));
}

/// A tree is out of reach if its root is neither in memory nor held by the store, and shows
/// nothing then.
pub proof fn law_unreachable_tree_shows_nothing<T: Item>(nodes: Nodes<T>, tree: Tree<T>)
    ensures
        match tree {
            Tree::Resident(_) => !tree.dangling(nodes),
            Tree::NonResident(id) => tree.dangling(nodes) <==> !nodes.dom().contains(id),
        },
        tree.dangling(nodes) ==> tree.content(nodes).len() == 0,
{
}

/// The root of a sound tree is as a root may be, its children are as children may be, and so
/// on down to the leaves. A leaf shows its items.
pub proof fn law_sound_tree_is_balanced<T: Item>(nodes: Nodes<T>, tree: Tree<T>, i: int)
    requires
        tree.wf(nodes),
        !tree.dangling(nodes),
    ensures
        sound_node(nodes, tree.at(nodes), tree.at(nodes).height(), true, Rigor::Summed),
        tree.at(nodes).len() <= NODE_CAPACITY,
        match tree.at(nodes) {
            NodeView::Leaf { items, .. } => tree.content(nodes) == known(items),
            NodeView::Internal { child_trees, height, .. } => {
                &&& child_trees.len() > 0
                &&& 0 <= i < child_trees.len() && !child_trees[i].dangling(nodes) ==> {
                    &&& child_trees[i].wf(nodes)
                    &&& sound_node(
                        nodes,
                        child_trees[i].at(nodes),
                        (height - 1) as nat,
                        false,
                        Rigor::Summed,
                    )
                    &&& TREE_BASE <= child_trees[i].at(nodes).len()
                }
            },
        },
{
    if let NodeView::Internal { child_trees, height, .. } = tree.at(nodes) {
        if 0 <= i < child_trees.len() {
            let below = (height - 1) as nat;
            assert(sound(nodes, child_trees[i], below, false, Rigor::Summed));
            lemma_sound_as_root(nodes, child_trees[i], below, Rigor::Summed);
        }
    }
}

/// A tree whose children can all be found shows what they show, one after the other.
pub proof fn law_tree_shows_its_children<T: Item>(nodes: Nodes<T>, tree: Tree<T>)
    requires
        tree.wf(nodes),
        !tree.dangling(nodes),
        tree.at(nodes) is Internal,
        forall|i: int|
            0 <= i < tree.at(nodes).len() ==> !(#[trigger] tree.at(
                nodes,
            )->child_trees[i]).dangling(nodes),
    ensures
        tree.content(nodes) == contents(nodes, tree.at(nodes)->child_trees),
{
    let node = tree.at(nodes);
    assert(sound_node(nodes, node, node.height(), true, Rigor::Summed));
    lemma_children_show(
        nodes,
        node->child_trees,
        node->child_summaries,
        (node.height() - 1) as nat,
    );
}

/// Children that can be found show what they show, one after the other.
proof fn lemma_children_show<T: Item>(
    nodes: Nodes<T>,
    trees: Seq<Tree<T>>,
    summaries: Seq<SummaryValue<T>>,
    height: nat,
)
    requires
        sound_children(nodes, trees, summaries, height, Rigor::Summed),
        forall|i: int| 0 <= i < trees.len() ==> !(#[trigger] trees[i]).dangling(nodes),
    ensures
        items_of_all(nodes, trees, summaries, height) == contents(nodes, trees),
    decreases trees.len(),
{
    if trees.len() > 0 {
        let n = trees.len() - 1;
        let (fewer, fewer_summaries) = (trees.drop_last(), summaries.drop_last());
        assert forall|i: int| #![trigger fewer[i]] 0 <= i < fewer.len() implies {
            &&& sound(nodes, fewer[i], height, false, Rigor::Summed)
            &&& fewer_summaries[i] == fewer[i].at(nodes).summary()
            &&& !fewer[i].dangling(nodes)
        } by {
            assert(fewer[i] == trees[i]);
        }
        lemma_children_show(nodes, fewer, fewer_summaries, height);
        assert(sound(nodes, trees[n], height, false, Rigor::Summed));
        assert(trees[n].at(nodes).height() == height);
        assert(items_of(nodes, trees[n], summaries[n], height) == trees[n].content(nodes));
    } else {
        assert(items_of_all(nodes, trees, summaries, height) =~= contents(nodes, trees));
    }
}

} // verus!
