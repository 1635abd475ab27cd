//! What a walk along the items of a tree goes past, and where it stops.

use crate::model::{
    gathered, items_of, items_of_all, lemma_child_summary_is_total, lemma_children_gathered,
    lemma_gathered_concat, lemma_items_of_all_concat, lemma_items_of_all_split,
    lemma_least_items_of, lemma_shows_concat, lemma_sound_children_part, lemma_sound_is_shaped,
    lemma_summaries_add_up, lemma_total_fits, lemma_trees_in_memory_part, shows, sound_children,
    trees_in_memory, way_in_memory, Rigor,
};
use crate::node::{NodeView, NODE_CAPACITY};
use crate::path::{
    end_height, front_items, items_behind, items_into, items_up_to, leads_down, leads_into,
    lemma_front_and_back, lemma_path_end_index, lemma_path_in_memory, lemma_path_splits,
    lemma_walk_climbs, lemma_walk_descends, lemma_walk_goes_on, points_at, walked, Path,
};
use crate::piece::{known, lemma_total_concat, lemma_total_one, lemma_total_part_fits, total, Piece};
use crate::seek::{is_behind, lemma_stop_from, lemma_stop_from_later, passes, stop_from, SeekBias};
use crate::store::Nodes;
use crate::summary::{total_of, Dimension, Item, Summary, SummaryValue};
use crate::tree::Tree;
use vstd::prelude::*;

verus! {

/// What a walk along the children of a node from `from` to `to` has behind it: the
/// items `head` that it had behind it before, then those of these children.
pub proof fn lemma_children_run<T: Item>(
    nodes: Nodes<T>,
    items: Seq<Piece<T>>,
    head: Seq<Piece<T>>,
    tail: Seq<Piece<T>>,
    trees: Seq<Tree<T>>,
    summaries: Seq<SummaryValue<T>>,
    height: nat,
    from: int,
    to: int,
)
    requires
        sound_children(nodes, trees, summaries, height, Rigor::Summed),
        0 <= from <= to <= trees.len(),
        items == head + items_of_all(nodes, trees.skip(from), summaries.skip(from), height) + tail,
        T::Summary::fits(total(items)),
    ensures
        ({
            let part = trees.subrange(from, to);
            let run = items_of_all(nodes, part, summaries.subrange(from, to), height);
            let reached = (head.len() + run.len()) as int;
            &&& reached <= items.len()
            &&& items.take(reached) == head + run
            &&& T::Summary::fits(
                T::Summary::plus(total(head), total_of::<T::Summary>(summaries.skip(from))),
            )
            &&& T::Summary::plus(
                total(head),
                total_of::<T::Summary>(summaries.subrange(from, to)),
            ) == total(items.take(reached))
            &&& items_of_all(nodes, trees.take(to), summaries.take(to), height) == items_of_all(
                nodes,
                trees.take(from),
                summaries.take(from),
                height,
            ) + run
            &&& shows(nodes, part, run)
            &&& trees_in_memory(trees, height) ==> gathered(nodes, part, true)
            &&& gathered(nodes, part, false)
            &&& to < trees.len() ==> {
                let child_len = items_of(nodes, trees[to], summaries[to], height).len();
                &&& child_len > 0
                &&& reached + child_len <= items.len()
                &&& T::Summary::plus(total(items.take(reached)), summaries[to]) == total(
                    items.take(reached + child_len),
                )
            }
        }),
{
    let len = trees.len() as int;
    let (rest, rest_summaries) = (trees.skip(from), summaries.skip(from));
    let (part, part_summaries) = (trees.subrange(from, to), summaries.subrange(from, to));
    let run = items_of_all(nodes, part, part_summaries, height);
    let reached = (head + run).len() as int;
    assert(rest =~= trees.subrange(from, len));
    assert(rest_summaries =~= summaries.subrange(from, len));
    lemma_sound_children_part(nodes, trees, summaries, height, from, len);
    lemma_sound_children_part(nodes, trees, summaries, height, from, to);
    lemma_summaries_add_up(nodes, rest, rest_summaries, height);
    lemma_summaries_add_up(nodes, part, part_summaries, height);
    assert(rest =~= part + trees.skip(to));
    assert(rest_summaries =~= part_summaries + summaries.skip(to));
    lemma_items_of_all_concat(
        nodes,
        part,
        part_summaries,
        trees.skip(to),
        summaries.skip(to),
        height,
    );
    assert(trees.take(to) =~= trees.take(from) + part);
    assert(summaries.take(to) =~= summaries.take(from) + part_summaries);
    lemma_items_of_all_concat(
        nodes,
        trees.take(from),
        summaries.take(from),
        part,
        part_summaries,
        height,
    );
    let rest_items = items_of_all(nodes, rest, rest_summaries, height);
    lemma_total_concat(head, rest_items);
    lemma_total_part_fits(items, 0, (head + rest_items).len() as int);
    assert(items.subrange(0, (head + rest_items).len() as int) =~= head + rest_items);
    lemma_total_concat(head, run);
    assert(items.take(reached) =~= head + run);
    lemma_children_gathered(nodes, part, part_summaries, height, false);
    if trees_in_memory(trees, height) {
        lemma_trees_in_memory_part(trees, height, from, to);
        lemma_children_gathered(nodes, part, part_summaries, height, true);
    }
    if to < len {
        let child = trees[to];
        let child_items = items_of(nodes, child, summaries[to], height);
        lemma_least_items_of(nodes, child, summaries[to], height, Rigor::Summed);
        lemma_items_of_all_split(nodes, trees.skip(to), summaries.skip(to), 0, height);
        assert(trees.skip(to)[0] == child);
        assert(trees.skip(to).take(0) =~= Seq::<Tree<T>>::empty());
        assert(items.take(reached + child_items.len()) =~= items.take(reached) + child_items);
        lemma_total_concat(items.take(reached), child_items);
        lemma_child_summary_is_total(nodes, child, summaries[to], height);
    }
}

/// What a walk along items from `from` to `to` has behind it: the items `head` that
/// it had behind it before, then these.
pub proof fn lemma_items_run<T: Item>(
    items: Seq<Piece<T>>,
    head: Seq<Piece<T>>,
    tail: Seq<Piece<T>>,
    leaf_items: Seq<Piece<T>>,
    from: int,
    to: int,
)
    requires
        0 <= from <= to <= leaf_items.len(),
        items == head + leaf_items.skip(from) + tail,
        T::Summary::fits(total(items)),
    ensures
        ({
            let run = leaf_items.subrange(from, to);
            let reached = (head.len() + run.len()) as int;
            &&& reached <= items.len()
            &&& items.take(reached) == head + run
            &&& T::Summary::fits(T::Summary::plus(total(head), total(leaf_items.skip(from))))
            &&& T::Summary::plus(total(head), total(run)) == total(items.take(reached))
            &&& leaf_items.take(to) == leaf_items.take(from) + run
            &&& to < leaf_items.len() ==> {
                &&& reached < items.len()
                &&& T::Summary::plus(
                    total(items.take(reached)),
                    leaf_items[to].value(),
                ) == total(items.take(reached + 1))
            }
        }),
{
    let rest = leaf_items.skip(from);
    let run = leaf_items.subrange(from, to);
    let reached = (head + run).len() as int;
    lemma_total_concat(head, rest);
    lemma_total_part_fits(items, 0, (head + rest).len() as int);
    assert(items.subrange(0, (head + rest).len() as int) =~= head + rest);
    lemma_total_concat(head, run);
    assert(items.take(reached) =~= head + run);
    assert(leaf_items.take(to) =~= leaf_items.take(from) + run);
    if to < leaf_items.len() {
        let item = leaf_items[to];
        assert(items.take(reached + 1) =~= items.take(reached) + seq![item]);
        lemma_total_concat(items.take(reached), seq![item]);
        lemma_total_one(item);
    }
}

/// What a walk from the end of a path along the children behind it comes to.
pub proof fn lemma_climb_along_children<T: Item>(
    nodes: Nodes<T>,
    tree: Tree<T>,
    path: Path<T>,
    stop_index: usize,
)
    requires
        tree.wf(nodes),
        leads_down(nodes, tree, tree.at(nodes).height(), path),
        path.len() > 0,
        path.last().0.at(nodes) is Internal,
        path.last().1 < stop_index <= path.last().0.at(nodes).len(),
    ensures
        ({
            let items = tree.content(nodes);
            let h = tree.at(nodes).height();
            let node = path.last().0.at(nodes);
            let (trees, summaries) = (node->child_trees, node->child_summaries);
            let next = path.last().1 + 1;
            let below = (end_height(h, path) - 1) as nat;
            let passed = trees.subrange(next, stop_index as int);
            let head = walked(nodes, tree, h, path);
            let run = items_of_all(
                nodes,
                passed,
                summaries.subrange(next, stop_index as int),
                below,
            );
            let reached = (head + run).len() as int;
            let moved = path.update(path.len() - 1, (path.last().0, stop_index));
            &&& trees.len() == summaries.len()
            &&& reached <= items.len()
            &&& items.take(reached) == head + run
            &&& shows(nodes, passed, run)
            &&& gathered(nodes, passed, tree.in_memory())
            &&& T::Summary::fits(
                T::Summary::plus(total(head), total_of::<T::Summary>(summaries.skip(next))),
            )
            &&& T::Summary::plus(
                total(head),
                total_of::<T::Summary>(summaries.subrange(next, stop_index as int)),
            ) == total(items.take(reached))
            &&& if stop_index < trees.len() {
                let child = trees[stop_index as int];
                let child_len = items_into(nodes, h, moved).len() as int;
                &&& child_len > 0
                &&& reached + child_len <= items.len()
                &&& T::Summary::plus(total(items.take(reached)), summaries[stop_index as int])
                    == total(items.take(reached + child_len))
                &&& leads_down(nodes, tree, h, moved)
                &&& leads_into(nodes, tree, moved, child)
                &&& items_up_to(nodes, h, moved) == head + run
            } else {
                &&& leads_down(nodes, tree, h, path.drop_last())
                &&& points_at(nodes, path.drop_last())
                &&& walked(nodes, tree, h, path.drop_last()) == head + run
            }
        }),
{
    let items = tree.content(nodes);
    let h = tree.at(nodes).height();
    let (subtree, index) = path.last();
    let node = subtree.at(nodes);
    let node_height = end_height(h, path);
    let below = (node_height - 1) as nat;
    let head = walked(nodes, tree, h, path);
    let run = items_of_all(
        nodes,
        node->child_trees.subrange(index + 1, stop_index as int),
        node->child_summaries.subrange(index + 1, stop_index as int),
        below,
    );
    lemma_walk_goes_on(nodes, tree, h, path, index + 1);
    lemma_path_splits(nodes, tree, h, path);
    lemma_total_fits(nodes, tree);
    lemma_children_run(
        nodes,
        items,
        head,
        items_behind(nodes, h, path),
        node->child_trees,
        node->child_summaries,
        below,
        index + 1,
        stop_index as int,
    );
    if tree.in_memory() {
        lemma_path_in_memory(nodes, tree, h, path);
    }
    if stop_index < node->child_trees.len() {
        lemma_path_end_index(nodes, tree, h, path, stop_index);
        let moved = path.update(path.len() - 1, (subtree, stop_index));
        assert(items_up_to(nodes, h, moved) =~= head + run);
    } else {
        lemma_front_and_back(nodes, node, node_height, stop_index as int);
        lemma_walk_climbs(nodes, tree, h, path);
        assert(walked(nodes, tree, h, path.drop_last()) =~= head + run);
    }
}

/// What a walk from the end of a path along the items of the leaf there comes to.
pub proof fn lemma_climb_along_items<T: Item>(
    nodes: Nodes<T>,
    tree: Tree<T>,
    path: Path<T>,
    stop_index: usize,
)
    requires
        tree.wf(nodes),
        leads_down(nodes, tree, tree.at(nodes).height(), path),
        path.len() > 0,
        path.last().0.at(nodes) is Leaf,
        path.last().1 <= stop_index <= path.last().0.at(nodes).len(),
    ensures
        ({
            let items = tree.content(nodes);
            let h = tree.at(nodes).height();
            let leaf_items = known(path.last().0.at(nodes)->items);
            let index = path.last().1 as int;
            let head = walked(nodes, tree, h, path);
            let run = leaf_items.subrange(index, stop_index as int);
            let reached = (head + run).len() as int;
            let moved = path.update(path.len() - 1, (path.last().0, stop_index));
            &&& reached <= items.len()
            &&& items.take(reached) == head + run
            &&& T::Summary::fits(T::Summary::plus(total(head), total(leaf_items.skip(index))))
            &&& T::Summary::plus(total(head), total(run)) == total(items.take(reached))
            &&& if stop_index < leaf_items.len() {
                &&& reached < items.len()
                &&& T::Summary::plus(
                    total(items.take(reached)),
                    leaf_items[stop_index as int].value(),
                ) == total(items.take(reached + 1))
                &&& leads_down(nodes, tree, h, moved)
                &&& points_at(nodes, moved)
                &&& walked(nodes, tree, h, moved) == head + run
            } else {
                &&& leads_down(nodes, tree, h, path.drop_last())
                &&& points_at(nodes, path.drop_last())
                &&& walked(nodes, tree, h, path.drop_last()) == head + run
            }
        }),
{
    let items = tree.content(nodes);
    let h = tree.at(nodes).height();
    let (subtree, index) = path.last();
    let leaf_items = known(subtree.at(nodes)->items);
    let head = walked(nodes, tree, h, path);
    let run = leaf_items.subrange(index as int, stop_index as int);
    lemma_walk_goes_on(nodes, tree, h, path, index as int);
    lemma_path_splits(nodes, tree, h, path);
    lemma_total_fits(nodes, tree);
    lemma_items_run(
        items,
        head,
        items_behind(nodes, h, path),
        leaf_items,
        index as int,
        stop_index as int,
    );
    if stop_index < leaf_items.len() {
        lemma_path_end_index(nodes, tree, h, path, stop_index);
        let moved = path.update(path.len() - 1, (subtree, stop_index));
        assert(walked(nodes, tree, h, moved) =~= head + run);
    } else {
        lemma_front_and_back(nodes, subtree.at(nodes), end_height(h, path), stop_index as int);
        lemma_walk_climbs(nodes, tree, h, path);
        assert(walked(nodes, tree, h, path.drop_last()) =~= head + run);
    }
}

/// What a walk along the children of a subtree that a path leads into comes to.
pub proof fn lemma_descend_along_children<T: Item>(
    nodes: Nodes<T>,
    tree: Tree<T>,
    path: Path<T>,
    subtree: Tree<T>,
    stop_index: usize,
)
    requires
        tree.wf(nodes),
        leads_down(nodes, tree, tree.at(nodes).height(), path),
        leads_into(nodes, tree, path, subtree),
        !subtree.dangling(nodes),
        subtree.at(nodes) is Internal,
        stop_index <= subtree.at(nodes).len(),
    ensures
        ({
            let items = tree.content(nodes);
            let h = tree.at(nodes).height();
            let node = subtree.at(nodes);
            let (trees, summaries) = (node->child_trees, node->child_summaries);
            let passed = trees.subrange(0, stop_index as int);
            let head = items_up_to(nodes, h, path);
            let run = items_of_all(
                nodes,
                passed,
                summaries.subrange(0, stop_index as int),
                (h - path.len() - 1) as nat,
            );
            let reached = (head + run).len() as int;
            let longer = path.push((subtree, stop_index));
            &&& path.len() < h
            &&& shows(nodes, passed, run)
            &&& run == front_items(
                nodes,
                node,
                (h - path.len()) as nat,
                stop_index as int,
            )
            &&& trees.len() == summaries.len()
            &&& reached <= items.len()
            &&& items.take(reached) == head + run
            &&& gathered(nodes, passed, tree.in_memory())
            &&& T::Summary::fits(
                T::Summary::plus(total(head), total_of::<T::Summary>(summaries.skip(0))),
            )
            &&& T::Summary::plus(
                total(head),
                total_of::<T::Summary>(summaries.subrange(0, stop_index as int)),
            ) == total(items.take(reached))
            &&& if stop_index < trees.len() {
                let child = trees[stop_index as int];
                let child_len = items_into(nodes, h, longer).len() as int;
                &&& child_len > 0
                &&& reached + child_len <= items.len()
                &&& T::Summary::plus(total(items.take(reached)), summaries[stop_index as int])
                    == total(items.take(reached + child_len))
                &&& leads_down(nodes, tree, h, longer)
                &&& leads_into(nodes, tree, longer, child)
                &&& items_up_to(nodes, h, longer) == head + run
            } else {
                &&& run == subtree.content(nodes)
                &&& path.len() == 0 ==> head + run == items
            }
        }),
{
    lemma_sound_is_shaped(nodes, tree, tree.at(nodes).height(), true);
    let items = tree.content(nodes);
    let h = tree.at(nodes).height();
    let node = subtree.at(nodes);
    let longer = path.push((subtree, stop_index));
    lemma_walk_descends(nodes, tree, h, path, subtree, stop_index);
    let node_height = end_height(h, longer);
    let below = (node_height - 1) as nat;
    let trees = node->child_trees;
    let summaries = node->child_summaries;
    let head = items_up_to(nodes, h, path);
    lemma_path_splits(nodes, tree, h, longer);
    lemma_total_fits(nodes, tree);
    assert(trees.skip(0) =~= trees);
    assert(summaries.skip(0) =~= summaries);
    lemma_children_run(
        nodes,
        items,
        head,
        items_behind(nodes, h, longer),
        trees,
        summaries,
        below,
        0,
        stop_index as int,
    );
    if tree.in_memory() {
        lemma_path_in_memory(nodes, tree, h, longer);
    }
    assert(trees.subrange(0, stop_index as int) =~= trees.take(stop_index as int));
    assert(summaries.subrange(0, stop_index as int) =~= summaries.take(stop_index as int));
    if stop_index == trees.len() {
        assert(trees.take(stop_index as int) =~= trees);
        assert(summaries.take(stop_index as int) =~= summaries);
    }
}

/// What a walk along the items of a leaf that a path leads into comes to.
pub proof fn lemma_descend_along_items<T: Item>(
    nodes: Nodes<T>,
    tree: Tree<T>,
    path: Path<T>,
    subtree: Tree<T>,
    stop_index: usize,
)
    requires
        tree.wf(nodes),
        leads_down(nodes, tree, tree.at(nodes).height(), path),
        leads_into(nodes, tree, path, subtree),
        !subtree.dangling(nodes),
        subtree.at(nodes) is Leaf,
        stop_index <= subtree.at(nodes).len(),
    ensures
        ({
            let items = tree.content(nodes);
            let h = tree.at(nodes).height();
            let leaf_items = known(subtree.at(nodes)->items);
            let head = items_up_to(nodes, h, path);
            let run = leaf_items.subrange(0, stop_index as int);
            let reached = (head + run).len() as int;
            let longer = path.push((subtree, stop_index));
            &&& path.len() <= h
            &&& leaf_items.len() <= NODE_CAPACITY
            &&& reached <= items.len()
            &&& items.take(reached) == head + run
            &&& T::Summary::fits(T::Summary::plus(total(head), total(leaf_items.skip(0))))
            &&& T::Summary::plus(total(head), total(run)) == total(items.take(reached))
            &&& if stop_index < leaf_items.len() {
                &&& reached < items.len()
                &&& T::Summary::plus(
                    total(items.take(reached)),
                    leaf_items[stop_index as int].value(),
                ) == total(items.take(reached + 1))
                &&& leads_down(nodes, tree, h, longer)
                &&& points_at(nodes, longer)
                &&& walked(nodes, tree, h, longer) == head + run
            } else {
                &&& run == subtree.content(nodes)
                &&& path.len() == 0 ==> head + run == items
            }
        }),
{
    lemma_sound_is_shaped(nodes, tree, tree.at(nodes).height(), true);
    let items = tree.content(nodes);
    let h = tree.at(nodes).height();
    let leaf_items = known(subtree.at(nodes)->items);
    let longer = path.push((subtree, stop_index));
    let head = items_up_to(nodes, h, path);
    let run = leaf_items.subrange(0, stop_index as int);
    lemma_walk_descends(nodes, tree, h, path, subtree, stop_index);
    lemma_path_splits(nodes, tree, h, longer);
    lemma_total_fits(nodes, tree);
    assert(leaf_items.skip(0) =~= leaf_items);
    lemma_items_run(
        items,
        head,
        items_behind(nodes, h, longer),
        leaf_items,
        0,
        stop_index as int,
    );
    assert(leaf_items.take(stop_index as int) =~= run);
    if stop_index == leaf_items.len() {
        assert(run =~= leaf_items);
        assert(path.len() == 0 ==> head + run =~= items);
    }
}

/// The way to a place in a tree goes on in the child that shows it.
pub proof fn lemma_way_into_child<T: Item>(
    nodes: Nodes<T>,
    tree: Tree<T>,
    height: nat,
    child: int,
    index: int,
)
    requires
        tree.at(nodes) is Internal,
        way_in_memory(nodes, tree, height, index),
        0 <= child < tree.at(nodes)->child_trees.len(),
        ({
            let start = front_items(nodes, tree.at(nodes), height, child).len();
            let shown = items_of(
                nodes,
                tree.at(nodes)->child_trees[child],
                tree.at(nodes)->child_summaries[child],
                (height - 1) as nat,
            );
            start <= index < start + shown.len()
        }),
    ensures
        way_in_memory(
            nodes,
            tree.at(nodes)->child_trees[child],
            (height - 1) as nat,
            index - front_items(nodes, tree.at(nodes), height, child).len(),
        ),
{
}

/// What has been gathered grows by a run of items that the walk goes past.
pub proof fn lemma_gather_run<T: Item>(
    nodes: Nodes<T>,
    items: Seq<Piece<T>>,
    start: int,
    head: Seq<Piece<T>>,
    run: Seq<Piece<T>>,
    kept: Seq<Tree<T>>,
    more: Seq<Tree<T>>,
    in_memory: bool,
)
    requires
        gathered(nodes, kept, in_memory),
        gathered(nodes, more, in_memory),
        0 <= start <= head.len(),
        (head + run).len() <= items.len(),
        items.take((head + run).len() as int) == head + run,
        shows(nodes, kept, items.subrange(start, head.len() as int)),
        shows(nodes, more, run),
    ensures
        gathered(nodes, kept + more, in_memory),
        shows(nodes, kept + more, items.subrange(start, (head + run).len() as int)),
{
    lemma_shows_concat(nodes, kept, items.subrange(start, head.len() as int), more, run);
    lemma_gathered_concat(nodes, kept, more, in_memory);
    let reached = (head + run).len() as int;
    assert forall|i: int| head.len() <= i < reached implies items[i] == run[i - head.len()] by {
        assert(items.take(reached)[i] == (head + run)[i]);
    }
    assert(items.subrange(start, reached) =~= items.subrange(start, head.len() as int) + run);
}

/// A leaf that is in memory can be joined to another tree.
pub proof fn lemma_gather_leaf<T: Item>(nodes: Nodes<T>, leaf: Tree<T>, items: Seq<T>)
    requires
        leaf is Resident,
        leaf.at(nodes) == (NodeView::Leaf { summary: total(known(items)), items }),
        items.len() <= NODE_CAPACITY,
    ensures
        gathered(nodes, seq![leaf], true),
        gathered(nodes, seq![leaf], false),
        shows(nodes, seq![leaf], known(items)),
{
    assert(seq![leaf].drop_last() =~= Seq::<Tree<T>>::empty());
    assert(leaf.content(nodes) == known(items));
    assert(known(items).skip(0) =~= known(items));
    assert(shows(nodes, Seq::<Tree<T>>::empty(), known(items).take(0)));
}

/// A walk past items that the position lies behind stops where it would have stopped.
pub proof fn lemma_walk_stops<T: Item, D: Dimension<Summary = T::Summary>>(
    items: Seq<Piece<T>>,
    from: int,
    to: int,
    len: int,
    pos: D::V,
    bias: SeekBias,
)
    requires
        0 <= from <= to <= items.len(),
        T::Summary::fits(total(items)),
        to > from ==> is_behind::<D>(pos, bias, total(items.take(to))),
        len > 0 ==> to + len <= items.len() && !is_behind::<D>(
            pos,
            bias,
            total(items.take(to + len)),
        ),
    ensures
        stop_from::<T, D>(items, from, pos, bias) == stop_from::<T, D>(items, to, pos, bias),
        len > 0 ==> to <= stop_from::<T, D>(items, to, pos, bias) < to + len,
{
    lemma_stop_from_later::<T, D>(items, from, to, pos, bias);
    lemma_stop_from::<T, D>(items, to, pos, bias);
    if len > 0 && stop_from::<T, D>(items, to, pos, bias) >= to + len {
        assert(passes::<T, D>(items, to + len - 1, pos, bias));
    }
}

} // verus!
