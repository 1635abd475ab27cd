//! Paths from the root of a tree down to a place in it.

use crate::model::{
    all_in_memory, items_in, items_of, items_of_all, last_leaf, lemma_children_are_shaped,
    lemma_items_of_all_concat, lemma_items_of_all_split, lemma_least_items, lemma_least_items_of,
    lemma_sound_as_root, sound, sound_node, trees_in_memory, way_in_memory, Rigor,
};
use crate::node::NodeView;
use crate::piece::{known, Piece};
use crate::store::Nodes;
use crate::summary::Item;
use crate::tree::Tree;
use vstd::prelude::*;

verus! {

/// A path: subtrees, each with the index of the child or the item that the path
/// goes on to.
pub type Path<T> = Seq<(Tree<T>, usize)>;

/// Whether the subtree at `level` of a path is where the level above it leads to.
pub open spec fn linked<T: Item>(
    nodes: Nodes<T>,
    root: Tree<T>,
    path: Path<T>,
    level: int,
) -> bool {
    if level == 0 {
        path[0].0 == root
    } else {
        &&& path[level - 1].0.at(nodes) matches NodeView::Internal { child_trees, .. }
        &&& path[level - 1].1 < child_trees.len()
        &&& path[level].0 == child_trees[path[level - 1].1 as int]
    }
}

/// Whether a path leads down from the root of a tree of height `height` with a sound
/// shape. If the tree is sound, so are the subtrees on the path.
pub open spec fn leads_down<T: Item>(
    nodes: Nodes<T>,
    root: Tree<T>,
    height: nat,
    path: Path<T>,
) -> bool
    decreases path.len(),
{
    path.len() > 0 ==> {
        let level = path.len() - 1;
        &&& level <= height
        &&& linked(nodes, root, path, level)
        &&& !path.last().0.dangling(nodes)
        &&& sound_node(
            nodes,
            path.last().0.at(nodes),
            (height - level) as nat,
            level == 0,
            root.rigor(nodes),
        )
        &&& leads_down(nodes, root, height, path.drop_last())
    }
}

/// The height of the subtree at the end of a path.
pub open spec fn end_height<T: Item>(height: nat, path: Path<T>) -> nat {
    (height - (path.len() - 1)) as nat
}

/// The items of a tree of height `height` in front of its child or item at `index`.
pub open spec fn front_items<T: Item>(
    nodes: Nodes<T>,
    node: NodeView<T>,
    height: nat,
    index: int,
) -> Seq<Piece<T>> {
    match node {
        NodeView::Leaf { items, .. } => known(items).take(index),
        NodeView::Internal { child_trees, child_summaries, .. } => items_of_all(
            nodes,
            child_trees.take(index),
            child_summaries.take(index),
            (height - 1) as nat,
        ),
    }
}

/// The items in front of the subtree at the end of a path.
pub open spec fn items_before<T: Item>(nodes: Nodes<T>, height: nat, path: Path<T>) -> Seq<Piece<T>>
    decreases path.len(),
{
    if path.len() <= 1 {
        Seq::empty()
    } else {
        let above = path.drop_last();
        items_before(nodes, height, above) + front_items(
            nodes,
            above.last().0.at(nodes),
            end_height(height, above),
            above.last().1 as int,
        )
    }
}

/// The items in front of the place that a path leads to.
pub open spec fn items_passed<T: Item>(nodes: Nodes<T>, height: nat, path: Path<T>) -> Seq<
    Piece<T>,
> {
    items_before(nodes, height, path) + front_items(
        nodes,
        path.last().0.at(nodes),
        end_height(height, path),
        path.last().1 as int,
    )
}

/// The items behind the subtree at the end of a path.
pub open spec fn items_behind<T: Item>(nodes: Nodes<T>, height: nat, path: Path<T>) -> Seq<Piece<T>>
    decreases path.len(),
{
    if path.len() <= 1 {
        Seq::empty()
    } else {
        let above = path.drop_last();
        items_of_all(
            nodes,
            above.last().0.at(nodes)->child_trees.skip(above.last().1 + 1),
            above.last().0.at(nodes)->child_summaries.skip(above.last().1 + 1),
            end_height(height, path),
        ) + items_behind(nodes, height, above)
    }
}

/// What the subtree at the end of a path shows.
pub open spec fn items_at_end<T: Item>(nodes: Nodes<T>, height: nat, path: Path<T>) -> Seq<
    Piece<T>,
> {
    items_in(nodes, path.last().0.at(nodes), end_height(height, path))
}

/// A tree shows what is in front of the subtree at the end of a path, what that subtree
/// shows, and what is behind it.
pub proof fn lemma_path_splits<T: Item>(
    nodes: Nodes<T>,
    root: Tree<T>,
    height: nat,
    path: Path<T>,
)
    requires
        leads_down(nodes, root, height, path),
        path.len() > 0,
    ensures
        !root.dangling(nodes),
        root.at(nodes).height() == height,
        root.content(nodes) == items_before(nodes, height, path) + items_at_end(
            nodes,
            height,
            path,
        ) + items_behind(nodes, height, path),
    decreases path.len(),
{
    if path.len() == 1 {
        assert(root.content(nodes) =~= Seq::<Piece<T>>::empty() + root.content(nodes) + Seq::<
            Piece<T>,
        >::empty());
    } else {
        let above = path.drop_last();
        let (parent, index) = above.last();
        let trees = parent.at(nodes)->child_trees;
        let summaries = parent.at(nodes)->child_summaries;
        let below = end_height(height, path);
        lemma_path_splits(nodes, root, height, above);
        assert(above.last() == path[path.len() - 2]);
        assert(leads_down(nodes, root, height, above));
        assert(end_height(height, above) == below + 1);
        lemma_items_of_all_split(nodes, trees, summaries, index as int, below);
        assert(root.content(nodes) =~= items_before(nodes, height, path) + items_at_end(
            nodes,
            height,
            path,
        ) + items_behind(nodes, height, path));
    }
}

/// A path can go on to the child that its end points at.
pub proof fn lemma_path_goes_on<T: Item>(
    nodes: Nodes<T>,
    root: Tree<T>,
    height: nat,
    path: Path<T>,
    child: Tree<T>,
    index: usize,
)
    requires
        leads_down(nodes, root, height, path),
        path.len() > 0,
        path.last().0.at(nodes) matches NodeView::Internal { child_trees, .. }
            && path.last().1 < child_trees.len() && child == child_trees[path.last().1 as int],
        !child.dangling(nodes),
    ensures
        leads_down(nodes, root, height, path.push((child, index))),
        end_height(height, path) == end_height(height, path.push((child, index))) + 1,
        items_before(nodes, height, path.push((child, index))) == items_passed(
            nodes,
            height,
            path,
        ),
{
    let longer = path.push((child, index));
    assert(longer.drop_last() =~= path);
    assert(longer[longer.len() - 2] == path.last());
    assert(sound_node(
        nodes,
        path.last().0.at(nodes),
        end_height(height, path),
        path.len() == 1,
        root.rigor(nodes),
    ));
}

/// The index at the end of a path does not matter for what leads there.
pub proof fn lemma_path_end_index<T: Item>(
    nodes: Nodes<T>,
    root: Tree<T>,
    height: nat,
    path: Path<T>,
    index: usize,
)
    requires
        leads_down(nodes, root, height, path),
        path.len() > 0,
    ensures
        ({
            let moved = path.update(path.len() - 1, (path.last().0, index));
            &&& leads_down(nodes, root, height, moved)
            &&& moved.last() == (path.last().0, index)
            &&& moved.drop_last() == path.drop_last()
            &&& items_before(nodes, height, moved) == items_before(nodes, height, path)
            &&& end_height(height, moved) == end_height(height, path)
        }),
{
    let moved = path.update(path.len() - 1, (path.last().0, index));
    assert(moved.drop_last() =~= path.drop_last());
    assert(linked(nodes, root, path, path.len() - 1));
}

/// Every subtree on a path in a tree that is in memory is in memory.
pub proof fn lemma_path_in_memory<T: Item>(
    nodes: Nodes<T>,
    root: Tree<T>,
    height: nat,
    path: Path<T>,
)
    requires
        leads_down(nodes, root, height, path),
        path.len() > 0,
        all_in_memory(root, height),
    ensures
        all_in_memory(path.last().0, end_height(height, path)),
    decreases path.len(),
{
    if path.len() > 1 {
        let above = path.drop_last();
        lemma_path_in_memory(nodes, root, height, above);
        let parent = above.last().0;
        assert(above.last() == path[path.len() - 2]);
        assert(trees_in_memory(parent.at(nodes)->child_trees, end_height(height, path)));
    }
}

/// The items of a tree of height `height` from its child or item at `index` on.
pub open spec fn back_items<T: Item>(
    nodes: Nodes<T>,
    node: NodeView<T>,
    height: nat,
    index: int,
) -> Seq<Piece<T>> {
    match node {
        NodeView::Leaf { items, .. } => known(items).skip(index),
        NodeView::Internal { child_trees, child_summaries, .. } => items_of_all(
            nodes,
            child_trees.skip(index),
            child_summaries.skip(index),
            (height - 1) as nat,
        ),
    }
}

/// The items in front of an index and those from it on are all the items.
pub proof fn lemma_front_and_back<T: Item>(
    nodes: Nodes<T>,
    node: NodeView<T>,
    height: nat,
    index: int,
)
    requires
        0 <= index <= node.len(),
        node is Internal ==> height > 0 && node->child_summaries.len() == node.len(),
    ensures
        items_in(nodes, node, height) == front_items(nodes, node, height, index) + back_items(
            nodes,
            node,
            height,
            index,
        ),
        index == 0 ==> front_items(nodes, node, height, index) == Seq::<Piece<T>>::empty(),
        index == node.len() ==> back_items(nodes, node, height, index) == Seq::<Piece<T>>::empty(),
{
    match node {
        NodeView::Leaf { items, .. } => {
            assert(known(items) =~= known(items).take(index) + known(items).skip(index));
        },
        NodeView::Internal { child_trees, child_summaries, .. } => {
            assert(child_trees =~= child_trees.take(index) + child_trees.skip(index));
            assert(child_summaries =~= child_summaries.take(index) + child_summaries.skip(
                index,
            ));
            lemma_items_of_all_concat(
                nodes,
                child_trees.take(index),
                child_summaries.take(index),
                child_trees.skip(index),
                child_summaries.skip(index),
                (height - 1) as nat,
            );
        },
    }
}

/// The leaf in front of the one that a path leads down to: the last one of the child in
/// front of the path, on the lowest level where there is one.
pub open spec fn leaf_before<T: Item>(nodes: Nodes<T>, height: nat, path: Path<T>) -> Option<
    Tree<T>,
>
    decreases path.len(),
{
    if path.len() <= 1 {
        None
    } else {
        let above = path.drop_last();
        let (parent, index) = above.last();
        if index == 0 {
            leaf_before(nodes, height, above)
        } else {
            Some(
                last_leaf(
                    nodes,
                    parent.at(nodes)->child_trees[index - 1],
                    end_height(height, path),
                ),
            )
        }
    }
}

/// Whether the index at the end of a path is that of a child or an item.
pub open spec fn points_at<T: Item>(nodes: Nodes<T>, path: Path<T>) -> bool {
    path.len() > 0 ==> path.last().1 < path.last().0.at(nodes).len()
}

/// The items that a walk which has come to the end of a path has behind it. The
/// child that the path ends at has been walked through, the item that it ends at
/// has not. At the end of an empty path the whole tree has been walked through.
pub open spec fn walked<T: Item>(
    nodes: Nodes<T>,
    root: Tree<T>,
    height: nat,
    path: Path<T>,
) -> Seq<Piece<T>> {
    if path.len() == 0 {
        root.content(nodes)
    } else {
        let (tree, index) = path.last();
        let next = if tree.at(nodes) is Internal {
            index + 1
        } else {
            index as int
        };
        items_before(nodes, height, path) + front_items(
            nodes,
            tree.at(nodes),
            end_height(height, path),
            next,
        )
    }
}

/// A walk goes on with the rest of the subtree at the end of the path, then with
/// what is behind that subtree.
pub proof fn lemma_walk_goes_on<T: Item>(
    nodes: Nodes<T>,
    root: Tree<T>,
    height: nat,
    path: Path<T>,
    index: int,
)
    requires
        leads_down(nodes, root, height, path),
        path.len() > 0,
        0 <= index <= path.last().0.at(nodes).len(),
    ensures
        ({
            let node = path.last().0.at(nodes);
            let h = end_height(height, path);
            let front = items_before(nodes, height, path) + front_items(nodes, node, h, index);
            &&& root.content(nodes) == front + back_items(nodes, node, h, index)
                + items_behind(nodes, height, path)
        }),
{
    let node = path.last().0.at(nodes);
    let h = end_height(height, path);
    lemma_path_splits(nodes, root, height, path);
    lemma_front_and_back(nodes, node, h, index);
    assert(root.content(nodes) =~= items_before(nodes, height, path) + front_items(
        nodes,
        node,
        h,
        index,
    ) + back_items(nodes, node, h, index) + items_behind(nodes, height, path));
}

/// When the subtree at the end of a path has been walked through, the walk goes on
/// one level up.
pub proof fn lemma_walk_climbs<T: Item>(
    nodes: Nodes<T>,
    root: Tree<T>,
    height: nat,
    path: Path<T>,
)
    requires
        leads_down(nodes, root, height, path),
        path.len() > 0,
    ensures
        leads_down(nodes, root, height, path.drop_last()),
        points_at(nodes, path.drop_last()),
        path.len() > 1 ==> path.drop_last().last().0.at(nodes) is Internal,
        walked(nodes, root, height, path.drop_last()) == items_before(nodes, height, path)
            + items_at_end(nodes, height, path),
{
    let above = path.drop_last();
    if path.len() > 1 {
        let (parent, index) = above.last();
        assert(above.last() == path[path.len() - 2]);
        let node = parent.at(nodes);
        assert(leads_down(nodes, root, height, above));
        lemma_items_of_all_split(
            nodes,
            node->child_trees,
            node->child_summaries,
            index as int,
            end_height(height, path),
        );
        assert(walked(nodes, root, height, above) =~= items_before(nodes, height, path)
            + items_at_end(nodes, height, path));
    } else {
        lemma_path_splits(nodes, root, height, path);
        assert(walked(nodes, root, height, above) =~= items_before(nodes, height, path)
            + items_at_end(nodes, height, path));
    }
}

/// What a walk has behind it are the first items of the tree.
pub proof fn lemma_walked_is_prefix<T: Item>(
    nodes: Nodes<T>,
    root: Tree<T>,
    height: nat,
    path: Path<T>,
)
    requires
        leads_down(nodes, root, height, path),
        points_at(nodes, path),
    ensures
        walked(nodes, root, height, path).is_prefix_of(root.content(nodes)),
        walked(nodes, root, height, path).len() == root.content(nodes).len() && path.len() > 0
            ==> path.last().0.at(nodes) is Internal,
{
    if path.len() > 0 {
        let (tree, index) = path.last();
        let next = if tree.at(nodes) is Internal {
            index + 1
        } else {
            index as int
        };
        lemma_walk_goes_on(nodes, root, height, path, next);
        if let NodeView::Leaf { items, .. } = tree.at(nodes) {
            assert(known(items).skip(next).len() > 0);
        }
    }
}

/// A path in an empty tree ends at the root.
pub proof fn lemma_empty_path<T: Item>(
    nodes: Nodes<T>,
    root: Tree<T>,
    height: nat,
    path: Path<T>,
)
    requires
        leads_down(nodes, root, height, path),
        path.len() > 0,
        root.content(nodes).len() == 0,
    ensures
        path.last().0 == root,
{
    if path.len() > 1 {
        lemma_path_splits(nodes, root, height, path);
        lemma_least_items(
            nodes,
            path.last().0.at(nodes),
            end_height(height, path),
            false,
            root.rigor(nodes),
        );
    }
}

/// Whether a walk along a path can go down into `subtree`: it is where the end of
/// the path leads to, or the whole tree if the path is empty.
pub open spec fn leads_into<T: Item>(
    nodes: Nodes<T>,
    root: Tree<T>,
    path: Path<T>,
    subtree: Tree<T>,
) -> bool {
    if path.len() == 0 {
        subtree == root
    } else {
        &&& path.last().0.at(nodes) matches NodeView::Internal { child_trees, .. }
        &&& path.last().1 < child_trees.len()
        &&& subtree == child_trees[path.last().1 as int]
    }
}

/// Where the end of a path leads to.
pub open spec fn into_tree<T: Item>(nodes: Nodes<T>, root: Tree<T>, path: Path<T>) -> Tree<T> {
    if path.len() == 0 {
        root
    } else {
        path.last().0.at(nodes)->child_trees[path.last().1 as int]
    }
}

/// The items in front of where the end of a path leads to.
pub open spec fn items_up_to<T: Item>(nodes: Nodes<T>, height: nat, path: Path<T>) -> Seq<
    Piece<T>,
> {
    if path.len() == 0 {
        Seq::empty()
    } else {
        items_passed(nodes, height, path)
    }
}

/// What is shown where the end of a path leads to.
pub open spec fn items_into<T: Item>(nodes: Nodes<T>, height: nat, path: Path<T>) -> Seq<
    Piece<T>,
> {
    let node = path.last().0.at(nodes);
    let index = path.last().1 as int;
    items_of(
        nodes,
        node->child_trees[index],
        node->child_summaries[index],
        (end_height(height, path) - 1) as nat,
    )
}

/// A walk goes down into a subtree.
pub proof fn lemma_walk_descends<T: Item>(
    nodes: Nodes<T>,
    root: Tree<T>,
    height: nat,
    path: Path<T>,
    subtree: Tree<T>,
    index: usize,
)
    requires
        root.linked(nodes),
        height == root.at(nodes).height(),
        leads_down(nodes, root, height, path),
        leads_into(nodes, root, path, subtree),
        !subtree.dangling(nodes),
    ensures
        ({
            let longer = path.push((subtree, index));
            &&& leads_down(nodes, root, height, longer)
            &&& items_before(nodes, height, longer) == items_up_to(nodes, height, path)
            &&& end_height(height, longer) == height - path.len()
            &&& path.len() <= height
            &&& sound_node(
                nodes,
                subtree.at(nodes),
                end_height(height, longer),
                path.len() == 0,
                root.rigor(nodes),
            )
        }),
{
    let longer = path.push((subtree, index));
    assert(longer.drop_last() =~= path);
    if path.len() > 0 {
        lemma_path_goes_on(nodes, root, height, path, subtree, index);
    } else {
        assert(linked(nodes, root, longer, 0));
    }
}

/// A subtree that a path in a tree that is in memory leads into is in memory.
pub proof fn lemma_into_in_memory<T: Item>(
    nodes: Nodes<T>,
    root: Tree<T>,
    height: nat,
    path: Path<T>,
    subtree: Tree<T>,
)
    requires
        leads_down(nodes, root, height, path),
        leads_into(nodes, root, path, subtree),
        all_in_memory(root, height),
    ensures
        subtree is Resident,
        path.len() <= height ==> all_in_memory(subtree, (height - path.len()) as nat),
{
    if path.len() > 0 {
        lemma_path_in_memory(nodes, root, height, path);
        let trees = path.last().0.at(nodes)->child_trees;
        assert(trees_in_memory(trees, (end_height(height, path) - 1) as nat));
    }
}

/// The subtree at the end of a path is on the way to all that it shows.
pub proof fn lemma_path_on_way<T: Item>(
    nodes: Nodes<T>,
    root: Tree<T>,
    height: nat,
    path: Path<T>,
    index: int,
)
    requires
        leads_down(nodes, root, height, path),
        path.len() > 0,
        way_in_memory(nodes, root, height, index),
        0 <= index - items_before(nodes, height, path).len() < items_at_end(
            nodes,
            height,
            path,
        ).len(),
    ensures
        way_in_memory(
            nodes,
            path.last().0,
            end_height(height, path),
            index - items_before(nodes, height, path).len(),
        ),
    decreases path.len(),
{
    if path.len() > 1 {
        let above = path.drop_last();
        let (parent, at) = above.last();
        let node = parent.at(nodes);
        assert(above.last() == path[path.len() - 2]);
        assert(leads_down(nodes, root, height, above));
        lemma_items_of_all_split(
            nodes,
            node->child_trees,
            node->child_summaries,
            at as int,
            end_height(height, path),
        );
        lemma_path_on_way(nodes, root, height, above, index);
        assert(node->child_trees[at as int] == path.last().0);
    }
}

/// Every subtree on a path is on the way to all that the last one shows.
pub proof fn lemma_all_on_way<T: Item>(
    nodes: Nodes<T>,
    root: Tree<T>,
    height: nat,
    path: Path<T>,
    index: int,
)
    requires
        leads_down(nodes, root, height, path),
        path.len() > 0,
        way_in_memory(nodes, root, height, index),
        0 <= index - items_before(nodes, height, path).len() < items_at_end(
            nodes,
            height,
            path,
        ).len(),
    ensures
        forall|level: int| 0 <= level < path.len() ==> (#[trigger] path[level]).0 is Resident,
    decreases path.len(),
{
    lemma_path_on_way(nodes, root, height, path, index);
    if path.len() > 1 {
        let above = path.drop_last();
        let (parent, at) = above.last();
        let node = parent.at(nodes);
        assert(above.last() == path[path.len() - 2]);
        assert(leads_down(nodes, root, height, above));
        lemma_items_of_all_split(
            nodes,
            node->child_trees,
            node->child_summaries,
            at as int,
            end_height(height, path),
        );
        lemma_all_on_way(nodes, root, height, above, index);
        assert forall|level: int| 0 <= level < path.len() implies (
        #[trigger] path[level]).0 is Resident by {
            if level < path.len() - 1 {
                assert(path[level] == above[level]);
            }
        }
    }
}

/// A subtree that a path leads into is on the way to all that it shows.
pub proof fn lemma_into_on_way<T: Item>(
    nodes: Nodes<T>,
    root: Tree<T>,
    height: nat,
    path: Path<T>,
    index: int,
)
    requires
        leads_down(nodes, root, height, path),
        path.len() > 0,
        path.last().0.at(nodes) is Internal,
        points_at(nodes, path),
        way_in_memory(nodes, root, height, index),
        0 <= index - items_up_to(nodes, height, path).len() < items_into(
            nodes,
            height,
            path,
        ).len(),
    ensures
        way_in_memory(
            nodes,
            path.last().0.at(nodes)->child_trees[path.last().1 as int],
            (end_height(height, path) - 1) as nat,
            index - items_up_to(nodes, height, path).len(),
        ),
{
    let node = path.last().0.at(nodes);
    let at = path.last().1 as int;
    let below = (end_height(height, path) - 1) as nat;
    lemma_items_of_all_split(nodes, node->child_trees, node->child_summaries, at, below);
    lemma_path_on_way(nodes, root, height, path, index);
}

/// What is in front of the end of a path: the child in front of it on the level above, or
/// what is in front of that level.
pub proof fn lemma_step_back<T: Item>(
    nodes: Nodes<T>,
    root: Tree<T>,
    height: nat,
    path: Path<T>,
)
    requires
        leads_down(nodes, root, height, path),
        path.len() > 1,
    ensures
        ({
            let above = path.drop_last();
            let (parent, index) = above.last();
            let below = end_height(height, path);
            &&& !parent.dangling(nodes)
            &&& parent.at(nodes) is Internal
            &&& index < parent.at(nodes).len()
            &&& all_in_memory(root, height) ==> parent is Resident
            &&& if index == 0 {
                &&& items_before(nodes, height, path) == items_before(nodes, height, above)
                &&& leaf_before(nodes, height, path) == leaf_before(nodes, height, above)
            } else {
                let child = parent.at(nodes)->child_trees[index - 1];
                &&& child.linked(nodes)
                &&& items_before(nodes, height, path).len() > 0
                &&& leaf_before(nodes, height, path) == Some(last_leaf(nodes, child, below))
                &&& all_in_memory(root, height) ==> all_in_memory(child, below)
                &&& way_in_memory(
                    nodes,
                    root,
                    height,
                    items_before(nodes, height, path).len() - 1,
                ) ==> way_in_memory(nodes, child, below, child.content(nodes).len() - 1)
                &&& !child.dangling(nodes) ==> {
                    &&& child.at(nodes).height() == below
                    &&& child.at(nodes).len() > 0
                    &&& child.content(nodes).len() > 0
                    &&& child.content(nodes).is_suffix_of(items_before(nodes, height, path))
                }
            }
        }),
{
    let above = path.drop_last();
    let (parent, index) = above.last();
    let node = parent.at(nodes);
    assert(above.last() == path[path.len() - 2]);
    assert(leads_down(nodes, root, height, above));
    if all_in_memory(root, height) {
        lemma_path_in_memory(nodes, root, height, above);
    }
    if index == 0 {
        lemma_front_and_back(nodes, node, end_height(height, above), 0);
        assert(items_before(nodes, height, path) =~= items_before(nodes, height, above));
    } else {
        let child = node->child_trees[index - 1];
        lemma_child_in_front(nodes, root, height, above);
        lemma_child_in_front_on_way(nodes, root, height, above);
        if all_in_memory(root, height) {
            assert(trees_in_memory(node->child_trees, end_height(height, path)));
        }
        if !child.dangling(nodes) {
            let before = items_before(nodes, height, path);
            let shown = child.content(nodes);
            assert(before.subrange(before.len() - shown.len(), before.len() as int) =~= shown);
        }
    }
}

/// The child in front of the one that a path goes on to is on the way to its last item.
proof fn lemma_child_in_front_on_way<T: Item>(
    nodes: Nodes<T>,
    root: Tree<T>,
    height: nat,
    path: Path<T>,
)
    requires
        leads_down(nodes, root, height, path),
        path.len() > 0,
        path.last().0.at(nodes) is Internal,
        0 < path.last().1 <= path.last().0.at(nodes).len(),
    ensures
        ({
            let (parent, index) = path.last();
            let below = (end_height(height, path) - 1) as nat;
            let child = parent.at(nodes)->child_trees[index - 1];
            way_in_memory(
                nodes,
                root,
                height,
                items_passed(nodes, height, path).len() - 1,
            ) ==> way_in_memory(nodes, child, below, child.content(nodes).len() - 1)
        }),
{
    let (parent, index) = path.last();
    let node = parent.at(nodes);
    let below = (end_height(height, path) - 1) as nat;
    let (trees, summaries) = (node->child_trees, node->child_summaries);
    let child = trees[index - 1];
    let shown = items_of(nodes, child, summaries[index - 1], below);
    let last = items_passed(nodes, height, path).len() - 1;
    lemma_child_in_front(nodes, root, height, path);
    if way_in_memory(nodes, root, height, last) {
        lemma_front_and_back(nodes, node, below + 1, index as int);
        lemma_path_on_way(nodes, root, height, path, last);
        assert(trees[index - 1] == child);
        assert(way_in_memory(nodes, child, below, shown.len() - 1));
        assert(shown == child.content(nodes));
    }
}

/// The child in front of the one that a path goes on to is not empty.
proof fn lemma_child_in_front<T: Item>(
    nodes: Nodes<T>,
    root: Tree<T>,
    height: nat,
    path: Path<T>,
)
    requires
        leads_down(nodes, root, height, path),
        path.len() > 0,
        path.last().0.at(nodes) is Internal,
        0 < path.last().1 <= path.last().0.at(nodes).len(),
    ensures
        ({
            let (parent, index) = path.last();
            let (trees, summaries) = (
                parent.at(nodes)->child_trees,
                parent.at(nodes)->child_summaries,
            );
            let below = (end_height(height, path) - 1) as nat;
            let child = trees[index - 1];
            let front = items_of_all(
                nodes,
                trees.take(index as int),
                summaries.take(index as int),
                below,
            );
            let shown = items_of(nodes, child, summaries[index - 1], below);
            &&& trees.len() == summaries.len()
            &&& sound(nodes, child, below, false, Rigor::Linked)
            &&& child.linked(nodes)
            &&& shown.len() > 0
            &&& front == items_of_all(
                nodes,
                trees.take(index - 1),
                summaries.take(index - 1),
                below,
            ) + shown
            &&& !child.dangling(nodes) ==> {
                &&& child.at(nodes).height() == below
                &&& child.at(nodes).len() > 0
            }
        }),
{
    let (parent, index) = path.last();
    let node = parent.at(nodes);
    let below = (end_height(height, path) - 1) as nat;
    let (trees, summaries) = (node->child_trees, node->child_summaries);
    let child = trees[index - 1];
    let rigor = root.rigor(nodes);
    assert(sound_node(nodes, node, end_height(height, path), path.len() == 1, rigor));
    if !(rigor is Linked) {
        lemma_children_are_shaped(nodes, trees, summaries, below);
    }
    assert(sound(nodes, child, below, false, Rigor::Linked));
    lemma_sound_as_root(nodes, child, below, Rigor::Linked);
    lemma_least_items_of(nodes, child, summaries[index - 1], below, Rigor::Linked);
    assert(trees.take(index as int).drop_last() =~= trees.take(index - 1));
    assert(summaries.take(index as int).drop_last() =~= summaries.take(index - 1));
}

/// The upper part of a path is a path.
pub proof fn lemma_upper_path<T: Item>(
    nodes: Nodes<T>,
    root: Tree<T>,
    height: nat,
    path: Path<T>,
    len: int,
)
    requires
        leads_down(nodes, root, height, path),
        0 <= len <= path.len(),
    ensures
        leads_down(nodes, root, height, path.take(len)),
    decreases path.len(),
{
    if len == path.len() {
        assert(path.take(len) =~= path);
    } else {
        lemma_upper_path(nodes, root, height, path.drop_last(), len);
        assert(path.drop_last().take(len) =~= path.take(len));
    }
}

} // verus!
