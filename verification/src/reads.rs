//! Which nodes are read from a store, and in which order.

use crate::model::{
    items_in, items_of, items_of_all, lemma_items_of_all_split, lemma_least_items_of, sound,
    sound_node, Rigor,
};
use crate::node::{NodeView, TREE_BASE};
use crate::path::{
    end_height, front_items, items_at_end, items_before, items_into, items_up_to, leads_down,
    lemma_front_and_back, points_at, Path,
};
use crate::piece::Piece;
use crate::store::{
    has_read, ids_read, lemma_ids_read, lemma_read_begun, lemma_read_nothing, lemma_read_on,
    read_in_order, NodeStore, Nodes, Reads,
};
use crate::summary::Item;
use crate::tree::Tree;
use vstd::prelude::*;

verus! {

/// The name of the root of a tree, if the root is not in memory: what is read to get at it.
pub open spec fn id_of<T: Item>(tree: Tree<T>) -> Reads {
    match tree {
        Tree::Resident(_) => Seq::empty(),
        Tree::NonResident(id) => seq![id],
    }
}

/// What is read to get at the roots of trees, one after the other.
pub open spec fn ids_of<T: Item>(trees: Seq<Tree<T>>) -> Reads
    decreases trees.len(),
{
    if trees.len() == 0 {
        Seq::empty()
    } else {
        ids_of(trees.drop_last()) + id_of(trees.last())
    }
}

/// What is read of some trees is read of the one at `i` after those in front of it.
pub proof fn lemma_ids_of_split<T: Item>(trees: Seq<Tree<T>>, i: int)
    requires
        0 <= i < trees.len(),
    ensures
        ids_of(trees) == ids_of(trees.take(i)) + id_of(trees[i]) + ids_of(trees.skip(i + 1)),
    decreases trees.len(),
{
    if i == trees.len() - 1 {
        assert(trees.drop_last() =~= trees.take(i));
        assert(trees.skip(i + 1) =~= Seq::<Tree<T>>::empty());
        assert(ids_of(trees) =~= ids_of(trees.take(i)) + id_of(trees[i]) + ids_of(
            trees.skip(i + 1),
        ));
    } else {
        let fewer = trees.drop_last();
        lemma_ids_of_split(fewer, i);
        assert(fewer.take(i) =~= trees.take(i));
        assert(fewer.skip(i + 1) =~= trees.skip(i + 1).drop_last());
        assert(ids_of(trees) =~= ids_of(trees.take(i)) + id_of(trees[i]) + ids_of(
            trees.skip(i + 1),
        ));
    }
}

/// Nothing is read of two trees that are in memory.
pub proof fn lemma_ids_of_two<T: Item>(a: Tree<T>, b: Tree<T>)
    requires
        a is Resident,
        b is Resident,
    ensures
        ids_of(seq![a, b]) == Reads::empty(),
{
    lemma_ids_of_split(seq![a, b], 0);
    lemma_ids_of_split(seq![a, b].skip(1), 0);
    assert(ids_of(seq![a, b]) =~= Reads::empty());
}

/// To get at the root of a tree takes one read, or none if it is in memory.
pub proof fn lemma_read_root<T: Item, S: NodeStore<T>>(before: S, tree: Tree<T>)
    ensures
        tree is Resident ==> has_read(before, before, id_of(tree)),
        tree matches Tree::NonResident(id) ==> forall|after: S|
            (#[trigger] after.reads()) == before.reads().push(id) ==> {
                &&& has_read(before, after, id_of(tree))
                &&& ids_read(before, after) == id_of(tree)
            },
        id_of(tree).is_prefix_of(id_of(tree)),
{
    lemma_read_nothing(before);
    assert(id_of(tree).subrange(0, id_of(tree).len() as int) =~= id_of(tree));
    if let Tree::NonResident(id) = tree {
        assert forall|after: S|
            (#[trigger] after.reads()) == before.reads().push(id) implies {
            &&& has_read(before, after, id_of(tree))
            &&& ids_read(before, after) == id_of(tree)
        } by {
            assert(after.reads() =~= before.reads() + id_of(tree));
            lemma_ids_read(before, after, id_of(tree));
        }
    }
}

/// If the root of a tree cannot be read, it is what was asked for last.
pub proof fn lemma_last_read<T: Item, S: NodeStore<T>, X>(
    before: S,
    after: S,
    tree: Tree<T>,
    result: Result<X, S::ReadError>,
)
    requires
        result is Err,
        read_in_order(before, after, id_of(tree), result),
    ensures
        ids_read(before, after) == id_of(tree),
        tree == Tree::<T>::NonResident(ids_read(before, after).last()),
{
    assert(ids_read(before, after) =~= id_of(tree));
}

/// A root that is read twice takes two reads, whether or not they succeed.
pub proof fn lemma_read_again<T: Item, S: NodeStore<T>>(
    before: S,
    between: S,
    again: S,
    ids: Reads,
    tree: Tree<T>,
)
    requires
        has_read(before, between, ids),
        has_read(between, again, id_of(tree)) || tree is NonResident && has_read(
            between,
            again,
            ids_read(between, again),
        ) && ids_read(between, again).is_prefix_of(id_of(tree)) && ids_read(between, again).len()
            > 0,
    ensures
        has_read(before, again, ids + id_of(tree)),
        forall|after: S|
            has_read(again, after, id_of(tree)) || has_read(
                again,
                after,
                ids_read(again, after),
            ) && ids_read(again, after).is_prefix_of(id_of(tree)) && ids_read(again, after).len()
                > 0 ==> #[trigger] has_read(before, after, ids + id_of(tree) + id_of(tree)),
{
    let once = ids + id_of(tree);
    if !has_read(between, again, id_of(tree)) {
        assert(ids_read(between, again) =~= id_of(tree));
    }
    assert(again.reads() =~= before.reads() + once);
    assert forall|after: S|
        has_read(again, after, id_of(tree)) || has_read(again, after, ids_read(again, after))
            && ids_read(again, after).is_prefix_of(id_of(tree)) && ids_read(again, after).len()
            > 0 implies #[trigger] has_read(before, after, ids + id_of(tree) + id_of(tree)) by {
        if !has_read(again, after, id_of(tree)) {
            assert(ids_read(again, after) =~= id_of(tree));
        }
        assert(after.reads() =~= before.reads() + (once + id_of(tree)));
    }
}

/// What is read twice after some nodes comes behind them twice.
pub proof fn lemma_read_then_again<T: Item, S: NodeStore<T>>(
    before: S,
    between: S,
    ids: Reads,
    tree: Tree<T>,
)
    requires
        has_read(before, between, ids),
    ensures
        forall|after: S|
            has_read(between, after, id_of(tree) + id_of(tree)) ==> #[trigger] has_read(
                before,
                after,
                ids + id_of(tree) + id_of(tree),
            ),
{
    assert forall|after: S|
        has_read(between, after, id_of(tree) + id_of(tree)) implies #[trigger] has_read(
        before,
        after,
        ids + id_of(tree) + id_of(tree),
    ) by {
        assert(after.reads() =~= before.reads() + (ids + id_of(tree) + id_of(tree)));
    }
}

/// Whether a tree is joined to the last child of the root of another one, which has height
/// `height`, and not to the root itself.
pub open spec fn goes_into_last<T: Item>(
    nodes: Nodes<T>,
    tree: Tree<T>,
    other: Tree<T>,
    height: nat,
) -> bool {
    let from = other.at(nodes);
    &&& !tree.dangling(nodes)
    &&& tree.at(nodes) is Internal
    &&& from.height() != height
    &&& from.height() + 1 != height || from.len() < TREE_BASE
}

/// What is read to join a tree that is not higher to one of height `height`, in which the
/// nodes on the way to the place where it is put are brought into memory.
pub open spec fn merge_ids<T: Item>(
    nodes: Nodes<T>,
    tree: Tree<T>,
    other: Tree<T>,
    height: nat,
) -> Reads
    decreases height,
{
    let here = id_of(tree) + id_of(other);
    if goes_into_last(nodes, tree, other, height) && height > 0 {
        here + merge_ids(
            nodes,
            tree.at(nodes)->child_trees.last(),
            other,
            (height - 1) as nat,
        )
    } else {
        here
    }
}

/// A tree that cannot be read is not joined.
pub proof fn lemma_merge_not_begun<T: Item, S: NodeStore<T>>(
    before: S,
    after: S,
    tree: Tree<T>,
    other: Tree<T>,
    height: nat,
    error: S::ReadError,
)
    requires
        read_in_order(before, after, id_of(tree), Err::<(), S::ReadError>(error)),
    ensures
        read_in_order(
            before,
            after,
            merge_ids(before.nodes(), tree, other, height),
            Err::<(), S::ReadError>(error),
        ),
{
    let result = Err::<(), S::ReadError>(error);
    let all = merge_ids(before.nodes(), tree, other, height);
    let rest = all.skip(id_of(tree).len() as int);
    assert(all =~= id_of(tree) + rest);
    lemma_read_begun(before, after, id_of(tree), rest, result);
}

/// Both trees are read before anything is joined.
pub proof fn lemma_merge_begun<T: Item, S: NodeStore<T>>(
    before: S,
    between: S,
    after: S,
    tree: Tree<T>,
    other: Tree<T>,
    height: nat,
    result: Result<(), S::ReadError>,
)
    requires
        between.nodes() == before.nodes(),
        between.failures() == before.failures(),
        has_read(before, between, id_of(tree)),
        read_in_order(between, after, id_of(other), result),
    ensures
        result is Ok ==> has_read(before, after, id_of(tree) + id_of(other)),
        result is Err ==> read_in_order(
            before,
            after,
            merge_ids(before.nodes(), tree, other, height),
            result,
        ),
{
    let here = id_of(tree) + id_of(other);
    lemma_read_on(before, between, after, id_of(tree), id_of(other), result);
    if result is Err {
        let all = merge_ids(before.nodes(), tree, other, height);
        let rest = all.skip(here.len() as int);
        assert(all =~= here + rest);
        lemma_read_begun(before, after, here, rest, result);
    }
}

/// The child of a node in which what the node shows at `index` lies.
#[verifier::opaque]
pub open spec fn child_at<T: Item>(
    nodes: Nodes<T>,
    node: NodeView<T>,
    height: nat,
    index: int,
) -> int {
    choose|i: int|
        {
            &&& 0 <= i < node.len()
            &&& (#[trigger] front_items(nodes, node, height, i)).len() <= index
            &&& index < front_items(nodes, node, height, i + 1).len()
        }
}

/// How many items of a node lie in front of the child in which `index` lies.
pub open spec fn child_start<T: Item>(
    nodes: Nodes<T>,
    node: NodeView<T>,
    height: nat,
    index: int,
) -> int {
    front_items(nodes, node, height, child_at(nodes, node, height, index)).len() as int
}

/// The child of a tree in which what the tree shows at `index` lies.
pub open spec fn child_with<T: Item>(
    nodes: Nodes<T>,
    tree: Tree<T>,
    height: nat,
    index: int,
) -> Tree<T> {
    tree.at(nodes)->child_trees[child_at(nodes, tree.at(nodes), height, index)]
}

/// Whether what a tree of height `height` shows at `index` lies in a child of its root.
pub open spec fn goes_below<T: Item>(
    nodes: Nodes<T>,
    tree: Tree<T>,
    height: nat,
    index: int,
) -> bool {
    &&& !tree.dangling(nodes)
    &&& tree.at(nodes) is Internal
    &&& height > 0
    &&& 0 <= index < items_in(nodes, tree.at(nodes), height).len()
}

/// What is read on the way from the root of a tree of height `height` down to what it shows
/// at `index`. Only the root is on the way to a place behind everything.
pub open spec fn way_ids<T: Item>(
    nodes: Nodes<T>,
    tree: Tree<T>,
    height: nat,
    index: int,
) -> Reads
    decreases height,
{
    if goes_below(nodes, tree, height, index) {
        id_of(tree) + way_ids(
            nodes,
            child_with(nodes, tree, height, index),
            (height - 1) as nat,
            index - child_start(nodes, tree.at(nodes), height, index),
        )
    } else {
        id_of(tree)
    }
}

/// What is read of the nodes on the way down to what a tree shows at `index`, from the last
/// one up to the root.
pub open spec fn way_up_ids<T: Item>(
    nodes: Nodes<T>,
    tree: Tree<T>,
    height: nat,
    index: int,
) -> Reads
    decreases height,
{
    if goes_below(nodes, tree, height, index) {
        way_up_ids(
            nodes,
            child_with(nodes, tree, height, index),
            (height - 1) as nat,
            index - child_start(nodes, tree.at(nodes), height, index),
        ) + id_of(tree)
    } else {
        id_of(tree)
    }
}

/// The last node on the way down to what a tree shows at `index`.
pub open spec fn way_end<T: Item>(
    nodes: Nodes<T>,
    tree: Tree<T>,
    height: nat,
    index: int,
) -> Tree<T>
    decreases height,
{
    if goes_below(nodes, tree, height, index) {
        way_end(
            nodes,
            child_with(nodes, tree, height, index),
            (height - 1) as nat,
            index - child_start(nodes, tree.at(nodes), height, index),
        )
    } else {
        tree
    }
}

/// Where the leaf begins in which what a tree of height `height` shows at `index` lies.
pub open spec fn leaf_from<T: Item>(
    nodes: Nodes<T>,
    tree: Tree<T>,
    height: nat,
    index: int,
) -> int
    decreases height,
{
    if goes_below(nodes, tree, height, index) {
        let start = child_start(nodes, tree.at(nodes), height, index);
        start + leaf_from(
            nodes,
            child_with(nodes, tree, height, index),
            (height - 1) as nat,
            index - start,
        )
    } else {
        0
    }
}

/// What is read on the way from what a tree shows at `from` to a place that is not in
/// front of it: the nodes up to the one below which both places lie, then those down to
/// `to`. To go behind everything is to go up to the root.
pub open spec fn walk_ids<T: Item>(
    nodes: Nodes<T>,
    tree: Tree<T>,
    height: nat,
    from: int,
    to: int,
) -> Reads
    decreases height,
{
    let node = tree.at(nodes);
    if !goes_below(nodes, tree, height, from) || to >= items_in(nodes, node, height).len() {
        way_up_ids(nodes, tree, height, from)
    } else {
        let below = (height - 1) as nat;
        let child = child_with(nodes, tree, height, from);
        let start = child_start(nodes, node, height, from);
        if child_at(nodes, node, height, from) == child_at(nodes, node, height, to) {
            walk_ids(nodes, child, below, from - start, to - start)
        } else {
            way_up_ids(nodes, child, below, from - start) + id_of(tree) + way_ids(
                nodes,
                child_with(nodes, tree, height, to),
                below,
                to - child_start(nodes, node, height, to),
            )
        }
    }
}

/// What is read to find the leaf in front of the one that begins at `index`: the node below
/// which both lie, then those down to the leaf in front.
pub open spec fn way_back_ids<T: Item>(
    nodes: Nodes<T>,
    tree: Tree<T>,
    height: nat,
    index: int,
) -> Reads
    decreases height,
{
    if goes_below(nodes, tree, height, index) && index > 0 {
        let node = tree.at(nodes);
        let below = (height - 1) as nat;
        let start = child_start(nodes, node, height, index);
        if index > start {
            way_back_ids(
                nodes,
                child_with(nodes, tree, height, index),
                below,
                index - start,
            )
        } else {
            id_of(tree) + way_ids(
                nodes,
                child_with(nodes, tree, height, index - 1),
                below,
                index - 1 - child_start(nodes, node, height, index - 1),
            )
        }
    } else {
        Seq::empty()
    }
}

/// What is read to list what a tree shows from `from` on: for each item the leaf that it is
/// in, then the nodes on the way to the next one.
pub open spec fn rest_ids<T: Item>(nodes: Nodes<T>, tree: Tree<T>, from: int) -> Reads
    decreases tree.content(nodes).len() - from,
{
    let height = tree.at(nodes).height();
    if from < tree.content(nodes).len() {
        id_of(way_end(nodes, tree, height, from)) + walk_ids(
            nodes,
            tree,
            height,
            from,
            from + 1,
        ) + rest_ids(nodes, tree, from + 1)
    } else {
        Seq::empty()
    }
}

/// What is read to list all that a tree shows: the nodes on the way to the first item, then
/// the rest. The only leaf of an empty tree is read twice.
pub open spec fn list_ids<T: Item>(nodes: Nodes<T>, tree: Tree<T>) -> Reads {
    way_ids(nodes, tree, tree.at(nodes).height(), 0) + if tree.content(nodes).len() == 0 {
        id_of(tree)
    } else {
        rest_ids(nodes, tree, 0)
    }
}

/// The items in front of a child are the more the later the child comes.
pub proof fn lemma_front_grows<T: Item>(
    nodes: Nodes<T>,
    node: NodeView<T>,
    height: nat,
    i: int,
    j: int,
)
    requires
        node is Internal,
        node->child_summaries.len() == node.len(),
        0 <= i <= j <= node.len(),
    ensures
        front_items(nodes, node, height, i).len() <= front_items(nodes, node, height, j).len(),
        i < node.len() ==> front_items(nodes, node, height, i + 1) == front_items(
            nodes,
            node,
            height,
            i,
        ) + items_of(
            nodes,
            node->child_trees[i],
            node->child_summaries[i],
            (height - 1) as nat,
        ),
    decreases j - i,
{
    let (trees, summaries) = (node->child_trees, node->child_summaries);
    if i < node.len() {
        assert(trees.take(i + 1).drop_last() =~= trees.take(i));
        assert(summaries.take(i + 1).drop_last() =~= summaries.take(i));
    }
    if i < j {
        lemma_front_grows(nodes, node, height, i + 1, j);
    }
}

/// There is only one child in which a place lies.
pub proof fn lemma_child_at<T: Item>(
    nodes: Nodes<T>,
    node: NodeView<T>,
    height: nat,
    index: int,
    i: int,
)
    requires
        node is Internal,
        height > 0,
        node->child_summaries.len() == node.len(),
        0 <= i < node.len(),
        0 <= index - front_items(nodes, node, height, i).len() < items_of(
            nodes,
            node->child_trees[i],
            node->child_summaries[i],
            (height - 1) as nat,
        ).len(),
    ensures
        child_at(nodes, node, height, index) == i,
        0 <= index < items_in(nodes, node, height).len(),
        front_items(nodes, node, height, i + 1).len() == front_items(nodes, node, height, i).len()
            + items_of(
            nodes,
            node->child_trees[i],
            node->child_summaries[i],
            (height - 1) as nat,
        ).len(),
{
    reveal(child_at);
    lemma_front_grows(nodes, node, height, i, node.len() as int);
    lemma_front_grows(nodes, node, height, i + 1, node.len() as int);
    lemma_front_and_back(nodes, node, height, node.len() as int);
    let j = child_at(nodes, node, height, index);
    assert(front_items(nodes, node, height, i).len() <= index);
    if j < i {
        lemma_front_grows(nodes, node, height, j + 1, i);
    } else if j > i {
        lemma_front_grows(nodes, node, height, i + 1, j);
    }
}

/// The beginning of a beginning is a beginning.
pub proof fn lemma_begins<X>(a: Seq<X>, b: Seq<X>, c: Seq<X>)
    requires
        a.is_prefix_of(b),
        b.is_prefix_of(c),
    ensures
        a.is_prefix_of(c),
{
    assert(a =~= c.subrange(0, a.len() as int));
}

/// A run begins with what it is made of.
pub proof fn lemma_begins_with<X>(a: Seq<X>, b: Seq<X>)
    ensures
        a.is_prefix_of(a + b),
{
    assert(a =~= (a + b).subrange(0, a.len() as int));
}

/// The child that a path goes through is the one in which all that lies at the end of the
/// path lies.
pub proof fn lemma_path_child<T: Item>(
    nodes: Nodes<T>,
    root: Tree<T>,
    height: nat,
    path: Path<T>,
    index: int,
)
    requires
        leads_down(nodes, root, height, path),
        path.len() > 1,
        0 <= index - items_before(nodes, height, path).len() < items_at_end(
            nodes,
            height,
            path,
        ).len(),
    ensures
        ({
            let above = path.drop_last();
            let (parent, at) = above.last();
            let before = items_before(nodes, height, above).len();
            let h = end_height(height, above);
            &&& leads_down(nodes, root, height, above)
            &&& goes_below(nodes, parent, h, index - before)
            &&& child_at(nodes, parent.at(nodes), h, index - before) == at
            &&& child_with(nodes, parent, h, index - before) == path.last().0
            &&& child_start(nodes, parent.at(nodes), h, index - before) == items_before(
                nodes,
                height,
                path,
            ).len() - before
            &&& end_height(height, path) == h - 1
            &&& h > 0
        }),
{
    let above = path.drop_last();
    let (parent, at) = above.last();
    let node = parent.at(nodes);
    assert(above.last() == path[path.len() - 2]);
    assert(leads_down(nodes, root, height, above));
    lemma_child_at(
        nodes,
        node,
        end_height(height, above),
        index - items_before(nodes, height, above).len(),
        at as int,
    );
}

/// The way to what lies at the end of a path is the path and the way from there.
pub proof fn lemma_way_end<T: Item>(
    nodes: Nodes<T>,
    root: Tree<T>,
    height: nat,
    path: Path<T>,
    index: int,
)
    requires
        leads_down(nodes, root, height, path),
        path.len() > 0,
        0 <= index - items_before(nodes, height, path).len() < items_at_end(
            nodes,
            height,
            path,
        ).len(),
    ensures
        way_end(nodes, root, height, index) == way_end(
            nodes,
            path.last().0,
            end_height(height, path),
            index - items_before(nodes, height, path).len(),
        ),
    decreases path.len(),
{
    if path.len() > 1 {
        lemma_path_child(nodes, root, height, path, index);
        lemma_way_end(nodes, root, height, path.drop_last(), index);
    }
}

/// The leaf in which what lies at the end of a path lies begins there too.
pub proof fn lemma_leaf_from<T: Item>(
    nodes: Nodes<T>,
    root: Tree<T>,
    height: nat,
    path: Path<T>,
    index: int,
)
    requires
        leads_down(nodes, root, height, path),
        path.len() > 0,
        0 <= index - items_before(nodes, height, path).len() < items_at_end(
            nodes,
            height,
            path,
        ).len(),
    ensures
        leaf_from(nodes, root, height, index) == items_before(nodes, height, path).len()
            + leaf_from(
            nodes,
            path.last().0,
            end_height(height, path),
            index - items_before(nodes, height, path).len(),
        ),
    decreases path.len(),
{
    if path.len() > 1 {
        lemma_path_child(nodes, root, height, path, index);
        lemma_leaf_from(nodes, root, height, path.drop_last(), index);
    }
}

/// The leaf at the end of the way to a place holds what the tree shows from where the leaf
/// begins on, the place among it.
pub proof fn law_leaf_holds_its_items<T: Item>(
    nodes: Nodes<T>,
    tree: Tree<T>,
    height: nat,
    root: bool,
    index: int,
)
    requires
        !tree.dangling(nodes),
        sound_node(nodes, tree.at(nodes), height, root, Rigor::Linked),
        0 <= index < items_in(nodes, tree.at(nodes), height).len(),
    ensures
        ({
            let shown = items_in(nodes, tree.at(nodes), height);
            let leaf = way_end(nodes, tree, height, index);
            let from = leaf_from(nodes, tree, height, index);
            if leaf.dangling(nodes) {
                from == index && shown[index] is Hidden
            } else {
                &&& leaf.at(nodes) is Leaf
                &&& from <= index < from + leaf.at(nodes).len() <= shown.len()
                &&& 0 <= from
                &&& forall|i: int|
                    0 <= i < leaf.at(nodes).len() ==> shown[from + i] == Piece::Item(
                        #[trigger] leaf.at(nodes)->items[i],
                    )
            }
        }),
    decreases height,
{
    let node = tree.at(nodes);
    let shown = items_in(nodes, node, height);
    if let NodeView::Internal { child_trees, child_summaries, .. } = node {
        let below = (height - 1) as nat;
        lemma_front_and_back(nodes, node, height, node.len() as int);
        lemma_child_exists(nodes, node, height, index, node.len() as int);
        let c = child_at(nodes, node, height, index);
        let child = child_trees[c];
        let start = front_items(nodes, node, height, c).len() as int;
        lemma_front_grows(nodes, node, height, c, c);
        assert(sound(nodes, child, below, false, Rigor::Linked));
        lemma_items_of_all_split(nodes, child_trees, child_summaries, c, below);
        let part = items_of(nodes, child, child_summaries[c], below);
        assert(shown == items_of_all(
            nodes,
            child_trees.take(c),
            child_summaries.take(c),
            below,
        ) + part + items_of_all(
            nodes,
            child_trees.skip(c + 1),
            child_summaries.skip(c + 1),
            below,
        ));
        assert forall|i: int| 0 <= i < part.len() implies shown[start + i]
            == #[trigger] part[i] by {
        }
        if child.dangling(nodes) {
            assert(part[0] == shown[start + 0]);
        } else {
            law_leaf_holds_its_items(nodes, child, below, false, index - start);
            let leaf = way_end(nodes, child, below, index - start);
            let from = leaf_from(nodes, child, below, index - start);
            if !leaf.dangling(nodes) {
                assert forall|i: int| 0 <= i < leaf.at(nodes).len() implies shown[start + from + i]
                    == Piece::Item(#[trigger] leaf.at(nodes)->items[i]) by {
                    assert(part[from + i] == shown[start + (from + i)]);
                }
            } else {
                assert(part[from] == shown[start + from]);
            }
        }
    }
}

/// A walk between two places at the end of a path stays there.
pub proof fn lemma_walk_within<T: Item>(
    nodes: Nodes<T>,
    root: Tree<T>,
    height: nat,
    path: Path<T>,
    from: int,
    to: int,
)
    requires
        leads_down(nodes, root, height, path),
        path.len() > 0,
        from <= to,
        0 <= from - items_before(nodes, height, path).len(),
        to - items_before(nodes, height, path).len() < items_at_end(nodes, height, path).len(),
    ensures
        walk_ids(nodes, root, height, from, to) == walk_ids(
            nodes,
            path.last().0,
            end_height(height, path),
            from - items_before(nodes, height, path).len(),
            to - items_before(nodes, height, path).len(),
        ),
    decreases path.len(),
{
    if path.len() > 1 {
        let above = path.drop_last();
        lemma_path_child(nodes, root, height, path, from);
        lemma_path_child(nodes, root, height, path, to);
        lemma_walk_within(nodes, root, height, above, from, to);
    }
}

/// A walk that leaves what lies at the end of a path first goes up to the end of the path.
pub proof fn lemma_walk_leaves<T: Item>(
    nodes: Nodes<T>,
    root: Tree<T>,
    height: nat,
    path: Path<T>,
    from: int,
    to: int,
)
    requires
        leads_down(nodes, root, height, path),
        path.len() > 0,
        0 <= from - items_before(nodes, height, path).len() < items_at_end(
            nodes,
            height,
            path,
        ).len(),
        to - items_before(nodes, height, path).len() >= items_at_end(nodes, height, path).len(),
    ensures
        way_up_ids(
            nodes,
            path.last().0,
            end_height(height, path),
            from - items_before(nodes, height, path).len(),
        ).is_prefix_of(walk_ids(nodes, root, height, from, to)),
    decreases path.len(),
{
    let tree = path.last().0;
    let h = end_height(height, path);
    let up = way_up_ids(nodes, tree, h, from - items_before(nodes, height, path).len());
    let all = walk_ids(nodes, root, height, from, to);
    lemma_begins_with(up, Reads::empty());
    assert(up + Reads::empty() =~= up);
    if path.len() > 1 {
        let above = path.drop_last();
        let parent = above.last().0;
        let before = items_before(nodes, height, above).len() as int;
        let above_h = end_height(height, above);
        lemma_path_child(nodes, root, height, path, from);
        lemma_begins_with(up, id_of(parent));
        if to - before >= items_at_end(nodes, height, above).len() {
            lemma_walk_leaves(nodes, root, height, above, from, to);
            lemma_begins(up, up + id_of(parent), all);
        } else {
            lemma_walk_within(nodes, root, height, above, from, to);
            lemma_child_of(nodes, root, height, above, to);
            let at = above.last().1 as int;
            lemma_front_grows(nodes, parent.at(nodes), above_h, at, at);
            assert(child_at(nodes, parent.at(nodes), above_h, to - before) != at);
            assert(all.is_prefix_of(all) && up.is_prefix_of(all)) by {
                assert(all.subrange(0, all.len() as int) =~= all);
                let rest = way_ids(
                    nodes,
                    child_with(nodes, parent, above_h, to - before),
                    (above_h - 1) as nat,
                    to - before - child_start(nodes, parent.at(nodes), above_h, to - before),
                );
                lemma_begins_with(up + id_of(parent), rest);
                lemma_begins(up, up + id_of(parent), all);
            }
        }
    }
}

/// What a node at the end of a path shows lies in a child of it.
pub proof fn lemma_child_of<T: Item>(
    nodes: Nodes<T>,
    root: Tree<T>,
    height: nat,
    path: Path<T>,
    index: int,
)
    requires
        leads_down(nodes, root, height, path),
        path.len() > 0,
        path.last().0.at(nodes) is Internal,
        0 <= index - items_before(nodes, height, path).len() < items_at_end(
            nodes,
            height,
            path,
        ).len(),
    ensures
        ({
            let h = end_height(height, path);
            let node = path.last().0.at(nodes);
            let at = index - items_before(nodes, height, path).len();
            let i = child_at(nodes, node, h, at);
            &&& goes_below(nodes, path.last().0, h, at)
            &&& 0 <= i < node.len()
            &&& child_start(nodes, node, h, at) <= at < front_items(nodes, node, h, i + 1).len()
        }),
{
    let h = end_height(height, path);
    let node = path.last().0.at(nodes);
    let at = index - items_before(nodes, height, path).len();
    assert(sound_node(nodes, node, h, path.len() == 1, root.rigor(nodes)));
    lemma_front_and_back(nodes, node, h, node.len() as int);
    lemma_child_exists(nodes, node, h, at, node.len() as int);
}

/// All that a node shows lies in a child of it.
pub proof fn lemma_child_exists<T: Item>(
    nodes: Nodes<T>,
    node: NodeView<T>,
    height: nat,
    index: int,
    count: int,
)
    requires
        node is Internal,
        height > 0,
        node->child_summaries.len() == node.len(),
        0 <= count <= node.len(),
        0 <= index < front_items(nodes, node, height, count).len(),
    ensures
        ({
            let i = child_at(nodes, node, height, index);
            &&& 0 <= i < node.len()
            &&& front_items(nodes, node, height, i).len() <= index
            &&& index < front_items(nodes, node, height, i + 1).len()
            &&& index < items_in(nodes, node, height).len()
        }),
    decreases count,
{
    assert(node->child_trees.take(0).len() == 0);
    lemma_front_grows(nodes, node, height, count, node.len() as int);
    lemma_front_and_back(nodes, node, height, node.len() as int);
    let last = front_items(nodes, node, height, count - 1);
    if index < last.len() {
        lemma_child_exists(nodes, node, height, index, count - 1);
    } else {
        lemma_front_grows(nodes, node, height, count - 1, count);
        lemma_child_at(nodes, node, height, index, count - 1);
    }
}

/// What is read when a walk goes on behind the child that a path goes on to: the node at the
/// end of the path, after the nodes below it.
pub proof fn lemma_climb_ids<T: Item>(
    nodes: Nodes<T>,
    root: Tree<T>,
    height: nat,
    path: Path<T>,
    from: int,
    to: int,
)
    requires
        leads_down(nodes, root, height, path),
        path.len() > 0,
        path.last().0.at(nodes) is Internal,
        points_at(nodes, path),
        0 <= from - items_up_to(nodes, height, path).len() < items_into(
            nodes,
            height,
            path,
        ).len(),
        to - items_up_to(nodes, height, path).len() >= items_into(nodes, height, path).len(),
    ensures
        ({
            let (tree, at) = path.last();
            let h = end_height(height, path);
            let below = (h - 1) as nat;
            let before = items_before(nodes, height, path).len();
            let up = way_up_ids(
                nodes,
                tree.at(nodes)->child_trees[at as int],
                below,
                from - items_up_to(nodes, height, path).len(),
            ) + id_of(tree);
            let all = walk_ids(nodes, root, height, from, to);
            &&& up == way_up_ids(nodes, tree, h, from - before)
            &&& up.is_prefix_of(all)
            &&& forall|i: int|
                #![trigger tree.at(nodes)->child_trees[i]]
                {
                    &&& at < i < tree.at(nodes).len()
                    &&& 0 <= to - before - front_items(nodes, tree.at(nodes), h, i).len()
                        < items_of(
                        nodes,
                        tree.at(nodes)->child_trees[i],
                        tree.at(nodes)->child_summaries[i],
                        below,
                    ).len()
                } ==> all == up + way_ids(
                    nodes,
                    tree.at(nodes)->child_trees[i],
                    below,
                    to - before - front_items(nodes, tree.at(nodes), h, i).len(),
                )
        }),
{
    let (tree, at) = path.last();
    let node = tree.at(nodes);
    let h = end_height(height, path);
    let below = (h - 1) as nat;
    let before = items_before(nodes, height, path).len() as int;
    let child = node->child_trees[at as int];
    let up = way_up_ids(nodes, tree, h, from - before);
    let all = walk_ids(nodes, root, height, from, to);
    lemma_child_at(nodes, node, h, from - before, at as int);
    if to - before >= items_at_end(nodes, height, path).len() {
        lemma_walk_leaves(nodes, root, height, path, from, to);
    } else {
        lemma_walk_within(nodes, root, height, path, from, to);
        lemma_child_of(nodes, root, height, path, to);
        assert(child_at(nodes, node, h, to - before) != at);
        let rest = way_ids(
            nodes,
            child_with(nodes, tree, h, to - before),
            below,
            to - before - child_start(nodes, node, h, to - before),
        );
        assert(all == up + rest);
        lemma_begins_with(up, rest);
    }
    assert forall|i: int|
        #![trigger tree.at(nodes)->child_trees[i]]
        {
            &&& at < i < tree.at(nodes).len()
            &&& 0 <= to - before - front_items(nodes, tree.at(nodes), h, i).len() < items_of(
                nodes,
                tree.at(nodes)->child_trees[i],
                tree.at(nodes)->child_summaries[i],
                below,
            ).len()
        } implies all == up + way_ids(
        nodes,
        tree.at(nodes)->child_trees[i],
        below,
        to - before - front_items(nodes, tree.at(nodes), h, i).len(),
    ) by {
        lemma_child_at(nodes, node, h, to - before, i);
    }
}

/// What is read when a walk begins: the leaf at the end of the path.
pub proof fn lemma_climb_leaf_ids<T: Item>(
    nodes: Nodes<T>,
    root: Tree<T>,
    height: nat,
    path: Path<T>,
    from: int,
    to: int,
)
    requires
        leads_down(nodes, root, height, path),
        path.len() > 0,
        path.last().0.at(nodes) is Leaf,
        from <= to,
        0 <= from - items_before(nodes, height, path).len() < items_at_end(
            nodes,
            height,
            path,
        ).len(),
    ensures
        ({
            let leaf = path.last().0;
            let before = items_before(nodes, height, path).len();
            let h = end_height(height, path);
            let all = walk_ids(nodes, root, height, from, to);
            &&& way_up_ids(nodes, leaf, h, from - before) == id_of(leaf)
            &&& way_end(nodes, root, height, from) == leaf
            &&& id_of(leaf).is_prefix_of(all)
            &&& to - before < items_at_end(nodes, height, path).len() ==> all == id_of(leaf)
        }),
{
    let before = items_before(nodes, height, path).len();
    lemma_way_end(nodes, root, height, path, from);
    if to - before < items_at_end(nodes, height, path).len() {
        lemma_walk_within(nodes, root, height, path, from, to);
        let all = walk_ids(nodes, root, height, from, to);
        assert(all.subrange(0, all.len() as int) =~= all);
    } else {
        lemma_walk_leaves(nodes, root, height, path, from, to);
    }
}

/// To go up to the end of a path and further is to go up to the root.
pub proof fn lemma_walk_to_end<T: Item>(
    nodes: Nodes<T>,
    root: Tree<T>,
    height: nat,
    from: int,
    to: int,
)
    requires
        !root.dangling(nodes),
        height == root.at(nodes).height(),
        to >= root.content(nodes).len(),
    ensures
        walk_ids(nodes, root, height, from, to) == way_up_ids(nodes, root, height, from),
{
}

/// The way to a place in a child goes through the root.
pub proof fn lemma_way_into<T: Item>(
    nodes: Nodes<T>,
    tree: Tree<T>,
    height: nat,
    index: int,
    i: int,
)
    requires
        !tree.dangling(nodes),
        tree.at(nodes) is Internal,
        height > 0,
        tree.at(nodes)->child_summaries.len() == tree.at(nodes).len(),
        0 <= i < tree.at(nodes).len(),
        0 <= index - front_items(nodes, tree.at(nodes), height, i).len() < items_of(
            nodes,
            tree.at(nodes)->child_trees[i],
            tree.at(nodes)->child_summaries[i],
            (height - 1) as nat,
        ).len(),
    ensures
        way_ids(nodes, tree, height, index) == id_of(tree) + way_ids(
            nodes,
            tree.at(nodes)->child_trees[i],
            (height - 1) as nat,
            index - front_items(nodes, tree.at(nodes), height, i).len(),
        ),
        way_end(nodes, tree, height, index) == way_end(
            nodes,
            tree.at(nodes)->child_trees[i],
            (height - 1) as nat,
            index - front_items(nodes, tree.at(nodes), height, i).len(),
        ),
{
    lemma_child_at(nodes, tree.at(nodes), height, index, i);
}

/// The way back from a place that is not where a path begins stays at the end of the path.
pub proof fn lemma_way_back_within<T: Item>(
    nodes: Nodes<T>,
    root: Tree<T>,
    height: nat,
    path: Path<T>,
    index: int,
)
    requires
        leads_down(nodes, root, height, path),
        path.len() > 0,
        0 < index - items_before(nodes, height, path).len() < items_at_end(
            nodes,
            height,
            path,
        ).len(),
    ensures
        way_back_ids(nodes, root, height, index) == way_back_ids(
            nodes,
            path.last().0,
            end_height(height, path),
            index - items_before(nodes, height, path).len(),
        ),
    decreases path.len(),
{
    if path.len() > 1 {
        lemma_path_child(nodes, root, height, path, index);
        lemma_way_back_within(nodes, root, height, path.drop_last(), index);
    }
}

/// The way back from where a child begins goes down into the child in front of it.
proof fn lemma_way_back_from_child<T: Item>(
    nodes: Nodes<T>,
    tree: Tree<T>,
    height: nat,
    at: int,
    index: int,
)
    requires
        goes_below(nodes, tree, height, index),
        tree.at(nodes)->child_summaries.len() == tree.at(nodes).len(),
        0 < at < tree.at(nodes).len(),
        child_at(nodes, tree.at(nodes), height, index) == at,
        index == front_items(nodes, tree.at(nodes), height, at).len(),
        items_of(
            nodes,
            tree.at(nodes)->child_trees[at - 1],
            tree.at(nodes)->child_summaries[at - 1],
            (height - 1) as nat,
        ).len() > 0,
    ensures
        index > 0,
        way_end(nodes, tree, height, index - 1) == way_end(
            nodes,
            tree.at(nodes)->child_trees[at - 1],
            (height - 1) as nat,
            items_of(
                nodes,
                tree.at(nodes)->child_trees[at - 1],
                tree.at(nodes)->child_summaries[at - 1],
                (height - 1) as nat,
            ).len() - 1,
        ),
        way_back_ids(nodes, tree, height, index) == id_of(tree) + way_ids(
            nodes,
            tree.at(nodes)->child_trees[at - 1],
            (height - 1) as nat,
            items_of(
                nodes,
                tree.at(nodes)->child_trees[at - 1],
                tree.at(nodes)->child_summaries[at - 1],
                (height - 1) as nat,
            ).len() - 1,
        ),
{
    let node = tree.at(nodes);
    lemma_front_grows(nodes, node, height, at - 1, at);
    lemma_child_at(nodes, node, height, index - 1, at - 1);
    assert(child_start(nodes, node, height, index) == index);
    assert(child_with(nodes, tree, height, index - 1) == node->child_trees[at - 1]);
}

/// The way back from where a path begins goes down into the child in front of it.
pub proof fn lemma_way_back_ids<T: Item>(
    nodes: Nodes<T>,
    root: Tree<T>,
    height: nat,
    path: Path<T>,
)
    requires
        leads_down(nodes, root, height, path),
        path.len() > 1,
        path.drop_last().last().1 > 0,
        items_at_end(nodes, height, path).len() > 0,
    ensures
        ({
            let (parent, at) = path.drop_last().last();
            let node = parent.at(nodes);
            let below = end_height(height, path);
            let index = items_before(nodes, height, path).len() as int;
            let shown = items_of(
                nodes,
                node->child_trees[at - 1],
                node->child_summaries[at - 1],
                below,
            );
            &&& way_back_ids(nodes, root, height, index) == id_of(parent) + way_ids(
                nodes,
                node->child_trees[at - 1],
                below,
                shown.len() - 1,
            )
            &&& index > 0
            &&& way_end(nodes, root, height, index - 1) == way_end(
                nodes,
                node->child_trees[at - 1],
                below,
                shown.len() - 1,
            )
        }),
{
    let above = path.drop_last();
    let (parent, at) = above.last();
    let node = parent.at(nodes);
    let below = end_height(height, path);
    let h = end_height(height, above);
    let index = items_before(nodes, height, path).len() as int;
    let before = items_before(nodes, height, above).len() as int;
    let (child, summary) = (node->child_trees[at - 1], node->child_summaries[at - 1]);
    lemma_path_child(nodes, root, height, path, index);
    assert(items_of(nodes, child, summary, below).len() > 0) by {
        assert(sound_node(nodes, node, h, above.len() == 1, root.rigor(nodes)));
        lemma_least_items_of(nodes, child, summary, below, root.rigor(nodes));
    }
    assert(node->child_summaries.len() == node.len()) by {
        assert(sound_node(nodes, node, h, above.len() == 1, root.rigor(nodes)));
    }
    lemma_way_back_from_child(nodes, parent, h, at as int, index - before);
    lemma_way_back_within(nodes, root, height, above, index);
    lemma_way_end(nodes, root, height, above, index - 1);
}

} // verus!
