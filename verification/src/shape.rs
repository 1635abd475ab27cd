//! How high and how full a tree gets when items are added to it.

use crate::append::{children_placed, items_placed};
use crate::join::{grown, last_replaced, last_summary_replaced, node_over};
use crate::model::split_point;
use crate::node::{NodeView, NODE_CAPACITY, TREE_BASE};
use crate::store::{Nodes, Reads};
use crate::summary::{Item, SummaryValue};
use crate::tree::{extended, leaf_of, leaf_start, lemma_leaf_start_is_less, merged, pushed, Tree};
use vstd::prelude::*;

verus! {

/// Whether nodes of the right heights lead from the root of a tree of height `height`
/// down its last children to a leaf.
pub open spec fn spined<T: Item>(nodes: Nodes<T>, tree: Tree<T>, height: nat) -> bool
    decreases height,
{
    &&& tree.at(nodes).height() == height
    &&& match tree.at(nodes) {
        NodeView::Leaf { .. } => true,
        NodeView::Internal { child_trees, child_summaries, .. } => {
            &&& height > 0
            &&& 0 < child_trees.len() == child_summaries.len()
            &&& spined(nodes, child_trees.last(), (height - 1) as nat)
        },
    }
}

/// The number of children of the root, of its last child, and so on, and of items of the
/// last leaf.
pub open spec fn spine<T: Item>(nodes: Nodes<T>, tree: Tree<T>, height: nat) -> Seq<nat>
    decreases height,
{
    match tree.at(nodes) {
        NodeView::Internal { child_trees, .. } if height > 0 => seq![child_trees.len()] + spine(
            nodes,
            child_trees.last(),
            (height - 1) as nat,
        ),
        node => seq![node.len()],
    }
}

/// What a node with `len` children or items keeps of them at its end: all, or the last
/// half if they are too many for one node.
pub open spec fn end_len(len: nat) -> nat {
    if len <= NODE_CAPACITY {
        len
    } else {
        (len - split_point(len as int)) as nat
    }
}

/// What becomes of the end of a tree below its root when a leaf of `len` items is joined
/// to it, and whether a node on the highest level was split.
///
/// The leaf becomes a child of the last node above the leaves. One that is too short for
/// that gives its items to the last leaf.
pub open spec fn carried(lens: Seq<nat>, len: nat) -> (Seq<nat>, bool)
    decreases lens.len(),
{
    if lens.len() <= 1 {
        if len >= TREE_BASE {
            (seq![len], true)
        } else {
            (seq![end_len(lens[0] + len)], lens[0] + len > NODE_CAPACITY)
        }
    } else {
        let (rest, more) = carried(lens.drop_first(), len);
        let count = if more {
            lens[0] + 1
        } else {
            lens[0]
        };
        (seq![end_len(count)] + rest, count > NODE_CAPACITY)
    }
}

/// The spine of a tree to which a leaf of `len` items has been joined.
pub open spec fn spine_with(lens: Seq<nat>, len: nat) -> Seq<nat> {
    let (rest, more) = if lens.len() == 1 {
        (seq![end_len(lens[0] + len)], lens[0] + len > NODE_CAPACITY)
    } else {
        carried(lens, len)
    };
    if more {
        seq![2nat] + rest
    } else {
        rest
    }
}

/// The spine of an empty tree to which `len` items have been added.
pub open spec fn spine_of(len: nat) -> Seq<nat>
    decreases len,
{
    if len <= NODE_CAPACITY {
        seq![len]
    } else {
        proof {
            lemma_leaf_start_is_less(len);
        }
        spine_with(spine_of(leaf_start(len)), (len - leaf_start(len)) as nat)
    }
}

/// A spine has one number for each level.
proof fn lemma_spine_len<T: Item>(nodes: Nodes<T>, tree: Tree<T>, height: nat)
    requires
        spined(nodes, tree, height),
    ensures
        spine(nodes, tree, height).len() == height + 1,
        spine(nodes, tree, height)[0] == tree.at(nodes).len(),
    decreases height,
{
    if let NodeView::Internal { child_trees, .. } = tree.at(nodes) {
        lemma_spine_len(nodes, child_trees.last(), (height - 1) as nat);
    }
}

/// The end of a node in which children have been placed, or of the second of two.
proof fn lemma_placed_end<T: Item>(
    nodes: Nodes<T>,
    height: nat,
    trees: Seq<Tree<T>>,
    summaries: Seq<SummaryValue<T>>,
    tree: Tree<T>,
    split: Option<Tree<T>>,
)
    requires
        height > 0,
        0 < trees.len() == summaries.len(),
        children_placed(height, trees, summaries, tree.at(nodes), split),
        spined(nodes, trees.last(), (height - 1) as nat),
    ensures
        split is Some <==> trees.len() > NODE_CAPACITY,
        ({
            let end = match split {
                None => tree,
                Some(split) => split,
            };
            &&& spined(nodes, end, height)
            &&& spine(nodes, end, height) == seq![end_len(trees.len())] + spine(
                nodes,
                trees.last(),
                (height - 1) as nat,
            )
        }),
{
    let mid = split_point(trees.len() as int);
    if trees.len() > NODE_CAPACITY {
        assert(trees.skip(mid).last() == trees.last());
    }
}

/// What joining a leaf to a tree makes of its spine, level by level.
proof fn lemma_grown_spine<T: Item>(
    nodes: Nodes<T>,
    old_tree: Tree<T>,
    leaf: Tree<T>,
    tree: Tree<T>,
    split: Option<Tree<T>>,
    height: nat,
)
    requires
        spined(nodes, old_tree, height),
        leaf.at(nodes) is Leaf,
        height > 0 || leaf.at(nodes).len() < TREE_BASE,
        grown(nodes, old_tree, leaf, tree, split, height),
    ensures
        ({
            let (lens, more) = carried(spine(nodes, old_tree, height), leaf.at(nodes).len());
            let end = match split {
                None => tree,
                Some(split) => split,
            };
            &&& split is Some <==> more
            &&& spined(nodes, end, height)
            &&& spine(nodes, end, height) == lens
        }),
    decreases height,
{
    let len = leaf.at(nodes).len();
    let lens = spine(nodes, old_tree, height);
    lemma_spine_len(nodes, old_tree, height);
    match old_tree.at(nodes) {
        NodeView::Leaf { items, .. } => {
            let all = items + leaf.at(nodes)->items;
            assert(items_placed(all, tree.at(nodes), split));
        },
        NodeView::Internal { child_trees, child_summaries, .. } => {
            let below = (height - 1) as nat;
            let last_child = child_trees.last();
            assert(lens.drop_first() =~= spine(nodes, last_child, below));
            if height == 1 && len >= TREE_BASE {
                let trees = child_trees + seq![leaf];
                let summaries = child_summaries + seq![leaf.at(nodes).summary()];
                assert(trees.last() == leaf);
                lemma_spine_len(nodes, last_child, below);
                assert(spined(nodes, leaf, 0));
                assert(spine(nodes, leaf, 0) == seq![len]);
                assert(carried(lens.drop_first(), len) == (seq![len], true));
                lemma_placed_end(nodes, height, trees, summaries, tree, split);
            } else {
                let (last, last_split) = choose|last: Tree<T>, last_split: Option<Tree<T>>|
                    {
                        &&& grown(nodes, last_child, leaf, last, last_split, below)
                        &&& children_placed(
                            height,
                            #[trigger] last_replaced(child_trees, last, last_split),
                            last_summary_replaced(nodes, child_summaries, last, last_split),
                            tree.at(nodes),
                            split,
                        )
                    };
                lemma_grown_spine(nodes, last_child, leaf, last, last_split, below);
                let trees = last_replaced(child_trees, last, last_split);
                let summaries = last_summary_replaced(nodes, child_summaries, last, last_split);
                lemma_placed_end(nodes, height, trees, summaries, tree, split);
            }
        },
    }
}

/// Joining a leaf to a tree adds to its spine as [`spine_with`] says.
pub proof fn law_leaf_adds_to_spine<T: Item>(
    nodes: Nodes<T>,
    old_tree: Tree<T>,
    leaf: Tree<T>,
    tree: Tree<T>,
)
    requires
        spined(nodes, old_tree, old_tree.at(nodes).height()),
        leaf.at(nodes) is Leaf,
        merged(nodes, old_tree, leaf, tree),
    ensures
        ({
            let lens = spine_with(
                spine(nodes, old_tree, old_tree.at(nodes).height()),
                leaf.at(nodes).len(),
            );
            &&& lens.len() == tree.at(nodes).height() + 1
            &&& spined(nodes, tree, tree.at(nodes).height())
            &&& spine(nodes, tree, tree.at(nodes).height()) == lens
        }),
{
    let height = old_tree.at(nodes).height();
    let lens = spine(nodes, old_tree, height);
    lemma_spine_len(nodes, old_tree, height);
    let (left, split) = choose|left: Tree<T>, split: Option<Tree<T>>|
        {
            &&& #[trigger] grown(nodes, old_tree, leaf, left, split, height)
            &&& match split {
                None => tree == left,
                Some(right) => {
                    &&& tree is Resident
                    &&& tree.at(nodes) == node_over(nodes, seq![left, right], height)
                },
            }
        };
    if height > 0 {
        lemma_grown_spine(nodes, old_tree, leaf, left, split, height);
    } else {
        let all = old_tree.at(nodes)->items + leaf.at(nodes)->items;
        assert(items_placed(all, left.at(nodes), split));
    }
    if let Some(right) = split {
        assert(seq![left, right].last() == right);
        assert(spined(nodes, right, height));
        lemma_spine_len(nodes, right, height);
    } else {
        lemma_spine_len(nodes, left, height);
    }
}

/// An empty tree to which items have been added has the spine of that many items, and so
/// a height that depends on their number only.
pub proof fn law_extend_gives_spine<T: Item>(
    nodes: Nodes<T>,
    empty: Tree<T>,
    items: Seq<T>,
    tree: Tree<T>,
    ids: Reads,
)
    requires
        empty.at(nodes) is Leaf,
        empty.at(nodes).len() == 0,
        extended(nodes, empty, items, tree, ids),
    ensures
        spine_of(items.len()).len() == tree.at(nodes).height() + 1,
        spined(nodes, tree, tree.at(nodes).height()),
        spine(nodes, tree, tree.at(nodes).height()) == spine_of(items.len()),
    decreases items.len(),
{
    if items.len() > 0 {
        lemma_leaf_start_is_less(items.len());
        let cut = leaf_start(items.len()) as int;
        let (before, leaf, m) = choose|before: Tree<T>, leaf: Tree<T>, m: int|
            {
                &&& 0 <= m <= ids.len()
                &&& extended(nodes, empty, items.take(cut), before, ids.take(m))
                &&& leaf is Resident
                &&& leaf.at(nodes) == leaf_of(items.skip(cut))
                &&& #[trigger] pushed(nodes, before, leaf, tree, 0, ids.skip(m))
            };
        law_extend_gives_spine(nodes, empty, items.take(cut), before, ids.take(m));
        law_leaf_adds_to_spine(nodes, before, leaf, tree);
        if items.len() <= NODE_CAPACITY {
            assert(spine_of(0) =~= seq![0nat]);
            assert(spine_with(seq![0nat], items.len()) =~= seq![items.len()]);
        }
    } else {
        assert(spine(nodes, tree, 0) =~= seq![0nat]);
    }
}

} // verus!
