//! What is left when trees are joined.

use crate::append::{children_placed, items_placed};
use crate::model::{
    all_in_memory, below_in_memory, items_in, items_of_all, last_way_in_memory,
    lemma_items_of_all_concat, lemma_items_of_all_one, lemma_items_of_all_split,
    lemma_node_over_children, lemma_sound_children_concat, lemma_split_children,
    lemma_summaries_add_up, lemma_trees_in_memory_concat, sound, sound_children, sound_node,
    split_point, trees_in_memory, Rigor,
};
use crate::node::{NodeView, NODE_CAPACITY, TREE_BASE};
use crate::piece::{known, lemma_known_concat, total};
use crate::reads::id_of;
use crate::store::{Nodes, Reads};
use crate::summary::{total_of, Item, Summary, SummaryValue};
use crate::tree::Tree;
use vstd::prelude::*;

verus! {

/// What is left when a tree has been joined to the end of another one of height
/// `height`: the first tree, and perhaps a second one that did not fit in it.
pub open spec fn joined<T: Item>(
    nodes: Nodes<T>,
    old_tree: Tree<T>,
    other: Tree<T>,
    tree: Tree<T>,
    split: Option<Tree<T>>,
    height: nat,
) -> bool {
    &&& tree is Resident
    &&& match split {
        None => {
            &&& sound_node(nodes, tree.at(nodes), height, true, Rigor::Summed)
            &&& sound_node(nodes, old_tree.at(nodes), height, false, Rigor::Summed) ==> sound_node(
                nodes,
                tree.at(nodes),
                height,
                false,
                Rigor::Summed,
            )
            &&& tree.at(nodes).len() >= old_tree.at(nodes).len()
            &&& tree.content(nodes) == old_tree.content(nodes) + other.content(nodes)
        },
        Some(split) => {
            &&& split is Resident
            &&& sound_node(nodes, tree.at(nodes), height, false, Rigor::Summed)
            &&& sound_node(nodes, split.at(nodes), height, false, Rigor::Summed)
            &&& tree.content(nodes) + split.content(nodes) == old_tree.content(nodes)
                + other.content(nodes)
            &&& old_tree.at(nodes) is Leaf ==> (old_tree.content(nodes) + other.content(
                nodes,
            )).len() > NODE_CAPACITY
        },
    }
}

/// The children of a node whose last child has been replaced by one tree, or by two.
pub open spec fn last_replaced<T: Item>(
    trees: Seq<Tree<T>>,
    last: Tree<T>,
    split: Option<Tree<T>>,
) -> Seq<Tree<T>> {
    let replaced = trees.update(trees.len() - 1, last);
    match split {
        None => replaced,
        Some(split) => replaced + seq![split],
    }
}

/// The summaries of these children.
pub open spec fn last_summary_replaced<T: Item>(
    nodes: Nodes<T>,
    summaries: Seq<SummaryValue<T>>,
    last: Tree<T>,
    split: Option<Tree<T>>,
) -> Seq<SummaryValue<T>> {
    let replaced = summaries.update(summaries.len() - 1, last.at(nodes).summary());
    match split {
        None => replaced,
        Some(split) => replaced + seq![split.at(nodes).summary()],
    }
}

/// How a tree that is not higher is joined to the end of another one of height `height`,
/// and what comes of it.
///
/// Of two leaves the items are put together. A tree of the same height gives its
/// children to the root. One that is lower by one becomes a child of the root, if it has
/// enough children or items. Any other is joined to the last child. What is then too
/// much for the root is split in halves.
pub open spec fn grown<T: Item>(
    nodes: Nodes<T>,
    old_tree: Tree<T>,
    other: Tree<T>,
    tree: Tree<T>,
    split: Option<Tree<T>>,
    height: nat,
) -> bool
    decreases height,
{
    let from = other.at(nodes);
    &&& !old_tree.dangling(nodes)
    &&& !other.dangling(nodes)
    &&& match old_tree.at(nodes) {
        NodeView::Leaf { items, .. } => items_placed(
            items + from->items,
            tree.at(nodes),
            split,
        ),
        NodeView::Internal { child_trees, child_summaries, .. } => if from.height() == height {
            let trees = child_trees + from->child_trees;
            let summaries = child_summaries + from->child_summaries;
            children_placed(height, trees, summaries, tree.at(nodes), split)
        } else if from.height() + 1 == height && from.len() >= TREE_BASE {
            let trees = child_trees + seq![other];
            let summaries = child_summaries + seq![from.summary()];
            children_placed(height, trees, summaries, tree.at(nodes), split)
        } else {
            &&& height > 0
            &&& exists|last: Tree<T>, last_split: Option<Tree<T>>|
                {
                    &&& grown(
                        nodes,
                        child_trees.last(),
                        other,
                        last,
                        last_split,
                        (height - 1) as nat,
                    )
                    &&& children_placed(
                        height,
                        #[trigger] last_replaced(child_trees, last, last_split),
                        last_summary_replaced(nodes, child_summaries, last, last_split),
                        tree.at(nodes),
                        split,
                    )
                }
        },
    }
}

/// Whether what is left after joining two trees is in memory.
pub open spec fn joined_in_memory<T: Item>(
    tree: Tree<T>,
    split: Option<Tree<T>>,
    height: nat,
) -> bool {
    &&& all_in_memory(tree, height)
    &&& split matches Some(split) ==> all_in_memory(split, height)
}

/// The last of the trees that are left after joining two trees.
pub open spec fn last_of<T: Item>(tree: Tree<T>, split: Option<Tree<T>>) -> Tree<T> {
    match split {
        None => tree,
        Some(split) => split,
    }
}

/// If the end of the last child is in memory, so is that of the node in which children have
/// been placed, or of the second of two.
pub proof fn lemma_placed_end_in_memory<T: Item>(
    nodes: Nodes<T>,
    height: nat,
    trees: Seq<Tree<T>>,
    summaries: Seq<SummaryValue<T>>,
    tree: Tree<T>,
    split: Option<Tree<T>>,
)
    requires
        trees.len() > 0,
        tree is Resident,
        children_placed(height + 1, trees, summaries, tree.at(nodes), split),
        last_way_in_memory(nodes, trees.last(), height),
    ensures
        last_way_in_memory(nodes, last_of(tree, split), height + 1),
{
    let mid = split_point(trees.len() as int);
    if trees.len() > NODE_CAPACITY {
        assert(trees.skip(mid).last() == trees.last());
    }
}

/// Joining a tree to the last of a list of children joins it to all of them.
pub proof fn lemma_join_last_child<T: Item>(
    nodes: Nodes<T>,
    trees: Seq<Tree<T>>,
    summaries: Seq<SummaryValue<T>>,
    other: Tree<T>,
    last: Tree<T>,
    split: Option<Tree<T>>,
    height: nat,
)
    requires
        trees.len() > 0,
        sound_children(nodes, trees, summaries, height, Rigor::Summed),
        !trees.last().dangling(nodes),
        joined(nodes, trees.last(), other, last, split, height),
    ensures
        ({
            let new_trees = last_replaced(trees, last, split);
            let new_summaries = last_summary_replaced(nodes, summaries, last, split);
            &&& sound_children(nodes, new_trees, new_summaries, height, Rigor::Summed)
            &&& items_of_all(nodes, new_trees, new_summaries, height) == items_of_all(
                nodes,
                trees,
                summaries,
                height,
            ) + other.content(nodes)
            &&& trees_in_memory(trees, height) && joined_in_memory(last, split, height)
                ==> trees_in_memory(new_trees, height)
        }),
{
    let n = trees.len() - 1;
    let new_trees = trees.update(n, last);
    let new_summaries = summaries.update(n, last.at(nodes).summary());
    assert(trees[n] == trees.last());
    assert forall|i: int| #![trigger new_trees[i]] 0 <= i < new_trees.len() implies {
        &&& sound(nodes, new_trees[i], height, false, Rigor::Summed)
        &&& !new_trees[i].dangling(nodes) ==> new_summaries[i] == new_trees[i].at(nodes).summary()
    } by {
        if i < n {
            assert(new_trees[i] == trees[i]);
        }
    }
    lemma_items_of_all_split(nodes, trees, summaries, n, height);
    lemma_items_of_all_split(nodes, new_trees, new_summaries, n, height);
    assert(trees.skip(n + 1) =~= Seq::<Tree<T>>::empty());
    assert(new_trees.skip(n + 1) =~= Seq::<Tree<T>>::empty());
    assert(trees.take(n) =~= new_trees.take(n));
    assert(summaries.take(n) =~= new_summaries.take(n));
    let before = items_of_all(nodes, trees.take(n), summaries.take(n), height);
    assert(items_of_all(nodes, trees, summaries, height) =~= before + trees.last().content(nodes));
    assert(items_of_all(nodes, new_trees, new_summaries, height) =~= before + last.content(nodes));
    if trees_in_memory(trees, height) && joined_in_memory(last, split, height) {
        assert forall|i: int| #![trigger new_trees[i]] 0 <= i < new_trees.len() implies
            all_in_memory(new_trees[i], height) by {
            if i < n {
                assert(new_trees[i] == trees[i]);
            }
        }
        assert(trees_in_memory(new_trees, height));
    }
    match split {
        None => {
            assert(items_of_all(nodes, new_trees, new_summaries, height) =~= items_of_all(
                nodes,
                trees,
                summaries,
                height,
            ) + other.content(nodes));
        },
        Some(split) => {
            let one = seq![split];
            let one_summary = seq![split.at(nodes).summary()];
            assert forall|i: int| #![trigger one[i]] 0 <= i < one.len() implies {
                &&& sound(nodes, one[i], height, false, Rigor::Summed)
                &&& !one[i].dangling(nodes) ==> one_summary[i] == one[i].at(nodes).summary()
            } by {}
            lemma_sound_children_concat(
                nodes,
                new_trees,
                new_summaries,
                one,
                one_summary,
                height,
            );
            lemma_items_of_all_concat(nodes, new_trees, new_summaries, one, one_summary, height);
            lemma_items_of_all_one(nodes, split, split.at(nodes).summary(), height);
            let last_items = last.content(nodes);
            let split_items = split.content(nodes);
            assert((before + last_items) + split_items =~= before + (last_items + split_items));
            assert(before + (trees.last().content(nodes) + other.content(nodes)) =~= (before
                + trees.last().content(nodes)) + other.content(nodes));
            if trees_in_memory(trees, height) && joined_in_memory(last, Some(split), height) {
                assert(trees_in_memory(one, height));
                lemma_trees_in_memory_concat(new_trees, one, height);
            }
        },
    }
}

/// Joining a tree to the last of a list of children that fails leaves what they show.
pub proof fn lemma_last_child_kept<T: Item>(
    nodes: Nodes<T>,
    trees: Seq<Tree<T>>,
    summaries: Seq<SummaryValue<T>>,
    last: Tree<T>,
    height: nat,
)
    requires
        trees.len() > 0,
        sound_children(nodes, trees, summaries, height, Rigor::Sized),
        kept(nodes, trees.last(), last, height),
    ensures
        ({
            let new_trees = trees.update(trees.len() - 1, last);
            &&& sound_children(nodes, new_trees, summaries, height, Rigor::Sized)
            &&& items_of_all(nodes, new_trees, summaries, height) == items_of_all(
                nodes,
                trees,
                summaries,
                height,
            )
        }),
{
    let n = trees.len() - 1;
    let new_trees = trees.update(n, last);
    assert(trees[n] == trees.last());
    assert forall|i: int| #![trigger new_trees[i]] 0 <= i < new_trees.len() implies sound(
        nodes,
        new_trees[i],
        height,
        false,
        Rigor::Sized,
    ) by {
        if i < n {
            assert(new_trees[i] == trees[i]);
        }
    }
    lemma_items_of_all_split(nodes, trees, summaries, n, height);
    lemma_items_of_all_split(nodes, new_trees, summaries, n, height);
    assert(trees.take(n) =~= new_trees.take(n));
    assert(trees.skip(n + 1) =~= new_trees.skip(n + 1));
}

/// Whether a tree of height `height` to which nothing could be joined shows what it
/// showed before, and has kept its shape.
pub open spec fn kept<T: Item>(
    nodes: Nodes<T>,
    old_tree: Tree<T>,
    tree: Tree<T>,
    height: nat,
) -> bool {
    ||| tree == old_tree
    ||| {
        &&& !old_tree.dangling(nodes)
        &&& tree is Resident
        &&& sound_node(nodes, old_tree.at(nodes), height, false, Rigor::Sized) ==> sound_node(
            nodes,
            tree.at(nodes),
            height,
            false,
            Rigor::Sized,
        )
        &&& sound_node(nodes, tree.at(nodes), height, true, Rigor::Sized)
        &&& items_in(nodes, tree.at(nodes), height) == items_in(
            nodes,
            old_tree.at(nodes),
            height,
        )
    }
}

/// The children of a tree of the same height as a node can be its children.
pub proof fn lemma_join_children<T: Item>(
    nodes: Nodes<T>,
    trees: Seq<Tree<T>>,
    summaries: Seq<SummaryValue<T>>,
    other: Tree<T>,
    height: nat,
)
    requires
        sound_children(nodes, trees, summaries, height, Rigor::Summed),
        !other.dangling(nodes),
        sound_node(nodes, other.at(nodes), height + 1, true, Rigor::Summed),
    ensures
        other.at(nodes) is Internal,
        ({
            let more_trees = other.at(nodes)->child_trees;
            let more_summaries = other.at(nodes)->child_summaries;
            &&& sound_children(
                nodes,
                trees + more_trees,
                summaries + more_summaries,
                height,
                Rigor::Summed,
            )
            &&& items_of_all(nodes, trees + more_trees, summaries + more_summaries, height)
                == items_of_all(nodes, trees, summaries, height) + other.content(nodes)
            &&& trees_in_memory(trees, height) && other.in_memory() ==> trees_in_memory(
                trees + more_trees,
                height,
            )
        }),
{
    let more_trees = other.at(nodes)->child_trees;
    let more_summaries = other.at(nodes)->child_summaries;
    lemma_sound_children_concat(nodes, trees, summaries, more_trees, more_summaries, height);
    lemma_items_of_all_concat(nodes, trees, summaries, more_trees, more_summaries, height);
    if trees_in_memory(trees, height) && other.in_memory() {
        lemma_trees_in_memory_concat(trees, more_trees, height);
    }
}

/// A tree that is lower by one than a node can be its child.
pub proof fn lemma_join_child<T: Item>(
    nodes: Nodes<T>,
    trees: Seq<Tree<T>>,
    summaries: Seq<SummaryValue<T>>,
    other: Tree<T>,
    height: nat,
)
    requires
        sound_children(nodes, trees, summaries, height, Rigor::Summed),
        !other.dangling(nodes),
        sound_node(nodes, other.at(nodes), height, true, Rigor::Summed),
        other.at(nodes).len() >= TREE_BASE,
    ensures
        ({
            let all = trees + seq![other];
            let all_summaries = summaries + seq![other.at(nodes).summary()];
            &&& sound_children(nodes, all, all_summaries, height, Rigor::Summed)
            &&& items_of_all(nodes, all, all_summaries, height) == items_of_all(
                nodes,
                trees,
                summaries,
                height,
            ) + other.content(nodes)
            &&& trees_in_memory(trees, height) && other.in_memory() ==> trees_in_memory(all, height)
        }),
{
    let one = seq![other];
    let one_summary = seq![other.at(nodes).summary()];
    assert(sound_node(nodes, other.at(nodes), height, false, Rigor::Summed));
    lemma_sound_children_concat(nodes, trees, summaries, one, one_summary, height);
    lemma_items_of_all_concat(nodes, trees, summaries, one, one_summary, height);
    lemma_items_of_all_one(nodes, other, other.at(nodes).summary(), height);
    if trees_in_memory(trees, height) && other.in_memory() {
        assert(trees_in_memory(one, height));
        lemma_trees_in_memory_concat(trees, one, height);
    }
}

/// Sound children that have been placed in a node, or in two, are joined trees.
pub proof fn lemma_children_joined<T: Item>(
    nodes: Nodes<T>,
    old_tree: Tree<T>,
    other: Tree<T>,
    trees: Seq<Tree<T>>,
    summaries: Seq<SummaryValue<T>>,
    tree: Tree<T>,
    split: Option<Tree<T>>,
    height: nat,
)
    requires
        !old_tree.dangling(nodes),
        sound_node(nodes, old_tree.at(nodes), height + 1, true, Rigor::Summed),
        old_tree.at(nodes).len() <= trees.len() <= 2 * NODE_CAPACITY,
        sound_children(nodes, trees, summaries, height, Rigor::Summed),
        items_of_all(nodes, trees, summaries, height) == old_tree.content(nodes) + other.content(
            nodes,
        ),
        tree is Resident,
        children_placed(height + 1, trees, summaries, tree.at(nodes), split),
    ensures
        joined(nodes, old_tree, other, tree, split, height + 1),
        trees_in_memory(trees, height) ==> joined_in_memory(tree, split, height + 1),
{
    if trees.len() > NODE_CAPACITY {
        lemma_split_children(nodes, trees, summaries, height);
    } else {
        lemma_node_over_children(nodes, trees, summaries, height, true);
        if trees.len() >= TREE_BASE {
            lemma_node_over_children(nodes, trees, summaries, height, false);
        }
    }
}

/// Items that have been placed in a leaf, or in two, are joined trees.
pub proof fn lemma_items_joined<T: Item>(
    nodes: Nodes<T>,
    old_tree: Tree<T>,
    other: Tree<T>,
    tree: Tree<T>,
    split: Option<Tree<T>>,
)
    requires
        !old_tree.dangling(nodes),
        !other.dangling(nodes),
        sound_node(nodes, old_tree.at(nodes), 0, true, Rigor::Summed),
        sound_node(nodes, other.at(nodes), 0, true, Rigor::Summed),
        tree is Resident,
        items_placed(
            old_tree.at(nodes)->items + other.at(nodes)->items,
            tree.at(nodes),
            split,
        ),
    ensures
        joined(nodes, old_tree, other, tree, split, 0),
        joined_in_memory(tree, split, 0),
{
    let all = old_tree.at(nodes)->items + other.at(nodes)->items;
    let mid = split_point(all.len() as int);
    lemma_known_concat(old_tree.at(nodes)->items, other.at(nodes)->items);
    if all.len() > NODE_CAPACITY {
        assert(known(all.take(mid)) + known(all.skip(mid)) =~= known(all));
    }
}

/// The values of the summaries of trees.
pub open spec fn root_summaries<T: Item>(nodes: Nodes<T>, trees: Seq<Tree<T>>) -> Seq<
    SummaryValue<T>,
> {
    trees.map_values(|tree: Tree<T>| tree.at(nodes).summary())
}

/// A node over a list of trees, which become its children.
pub open spec fn node_over<T: Item>(
    nodes: Nodes<T>,
    trees: Seq<Tree<T>>,
    height: nat,
) -> NodeView<T> {
    NodeView::Internal {
        height: height + 1,
        summary: total_of::<T::Summary>(root_summaries(nodes, trees)),
        child_summaries: root_summaries(nodes, trees),
        child_trees: trees,
    }
}

/// Two trees of the same height can be the children of a root.
pub proof fn lemma_two_children<T: Item>(nodes: Nodes<T>, a: Tree<T>, b: Tree<T>, height: nat)
    requires
        a is Resident,
        b is Resident,
        sound_node(nodes, a.at(nodes), height, false, Rigor::Summed),
        sound_node(nodes, b.at(nodes), height, false, Rigor::Summed),
    ensures
        ({
            let node = node_over(nodes, seq![a, b], height);
            &&& sound_node(nodes, node, height + 1, true, Rigor::Summed)
            &&& items_in(nodes, node, height + 1) == a.content(nodes) + b.content(nodes)
            &&& node.summary() == total(a.content(nodes) + b.content(nodes))
            &&& all_in_memory(a, height) && all_in_memory(b, height) ==> below_in_memory(
                node,
                height + 1,
            )
        }),
{
    let trees = seq![a, b];
    let summaries = root_summaries(nodes, trees);
    assert(trees[0] == a && trees[1] == b);
    assert(sound_children(nodes, trees, summaries, height, Rigor::Summed));
    lemma_node_over_children(nodes, trees, summaries, height, true);
    lemma_summaries_add_up(nodes, trees, summaries, height);
    assert(trees =~= seq![a] + seq![b]);
    assert(summaries =~= seq![a.at(nodes).summary()] + seq![b.at(nodes).summary()]);
    lemma_items_of_all_concat(
        nodes,
        seq![a],
        seq![a.at(nodes).summary()],
        seq![b],
        seq![b.at(nodes).summary()],
        height,
    );
    lemma_items_of_all_one(nodes, a, a.at(nodes).summary(), height);
    lemma_items_of_all_one(nodes, b, b.at(nodes).summary(), height);
    if all_in_memory(a, height) && all_in_memory(b, height) {
        assert(trees_in_memory(trees, height));
    }
}

/// What is left when a read fails while a tree that is not higher is joined to one of height
/// `height`, after these reads, of which the last one failed.
///
/// A tree whose root cannot be read is left as it is. If the other one cannot be read, the
/// root is in memory, and nothing else has changed. If a node further down cannot be read,
/// the root already carries the summary of what should have been joined, while the
/// summaries of its children are as they were.
pub open spec fn broken_off<T: Item>(
    nodes: Nodes<T>,
    old_tree: Tree<T>,
    other: Tree<T>,
    tree: Tree<T>,
    height: nat,
    ids: Reads,
) -> bool
    decreases height,
{
    let here = id_of(old_tree) + id_of(other);
    &&& ids.len() > 0
    &&& if ids.len() <= id_of(old_tree).len() {
        tree == old_tree
    } else if ids.len() <= here.len() {
        tree is Resident && tree.at(nodes) == old_tree.at(nodes)
    } else {
        let from = old_tree.at(nodes);
        let last = tree.at(nodes)->child_trees.last();
        &&& height > 0
        &&& from is Internal
        &&& tree is Resident
        &&& tree.at(nodes) == (NodeView::Internal {
            height: from.height(),
            summary: T::Summary::plus(from.summary(), other.at(nodes).summary()),
            child_summaries: from->child_summaries,
            child_trees: from->child_trees.update(from.len() - 1, last),
        })
        &&& broken_off(
            nodes,
            from->child_trees.last(),
            other,
            last,
            (height - 1) as nat,
            ids.skip(here.len() as int),
        )
    }
}

/// What is left when a read fails while a tree is joined to the last child.
pub proof fn lemma_broken_off_below<T: Item>(
    nodes: Nodes<T>,
    old_tree: Tree<T>,
    other: Tree<T>,
    tree: Tree<T>,
    last: Tree<T>,
    height: nat,
    more: Reads,
)
    requires
        height > 0,
        old_tree.at(nodes) is Internal,
        old_tree.at(nodes).len() > 0,
        tree is Resident,
        tree.at(nodes) is Internal,
        tree.at(nodes)->Internal_height == old_tree.at(nodes).height(),
        tree.at(nodes).summary() == T::Summary::plus(
            old_tree.at(nodes).summary(),
            other.at(nodes).summary(),
        ),
        tree.at(nodes)->child_summaries == old_tree.at(nodes)->child_summaries,
        tree.at(nodes)->child_trees == old_tree.at(nodes)->child_trees.update(
            old_tree.at(nodes).len() - 1,
            last,
        ),
        broken_off(
            nodes,
            old_tree.at(nodes)->child_trees.last(),
            other,
            last,
            (height - 1) as nat,
            more,
        ),
    ensures
        broken_off(nodes, old_tree, other, tree, height, id_of(old_tree) + id_of(other) + more),
{
    let here = id_of(old_tree) + id_of(other);
    assert(tree.at(nodes)->child_trees.last() == last);
    assert((here + more).skip(here.len() as int) =~= more);
    assert(more.len() > 0);
}

} // verus!
