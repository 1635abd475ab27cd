//! What a tree stands for: what it shows from left to right, and when its shape is
//! sound.

use crate::node::{Node, NodeView, NODE_CAPACITY, TREE_BASE};
use crate::piece::{
    known, lemma_total_concat, lemma_total_one, lemma_weight_concat, lemma_weight_known,
    piece_values, total, weight, Piece,
};
use crate::store::Nodes;
use crate::summary::{total_of, Item, Summary, SummaryValue};
use crate::tree::Tree;
use vstd::arithmetic::power2::pow2;
use vstd::prelude::*;

verus! {

/// What a node of height `height` shows, from left to right.
pub open spec fn items_in<T: Item>(nodes: Nodes<T>, node: NodeView<T>, height: nat) -> Seq<
    Piece<T>,
>
    decreases height, 0nat,
{
    match node {
        NodeView::Leaf { items, .. } => known(items),
        NodeView::Internal { child_summaries, child_trees, .. } => if height == 0 {
            Seq::empty()
        } else {
            items_of_all(nodes, child_trees, child_summaries, (height - 1) as nat)
        },
    }
}

/// What a subtree of height `height` shows, if the node above it says that `summary` is
/// its summary.
pub open spec fn items_of<T: Item>(
    nodes: Nodes<T>,
    tree: Tree<T>,
    summary: SummaryValue<T>,
    height: nat,
) -> Seq<Piece<T>>
    decreases height, 1nat,
{
    if tree.dangling(nodes) {
        seq![Piece::Hidden { id: tree->NonResident_0, height, summary }]
    } else {
        items_in(nodes, tree.at(nodes), height)
    }
}

/// What a list of subtrees of height `height` shows, with these summaries.
pub open spec fn items_of_all<T: Item>(
    nodes: Nodes<T>,
    trees: Seq<Tree<T>>,
    summaries: Seq<SummaryValue<T>>,
    height: nat,
) -> Seq<Piece<T>>
    decreases height, trees.len() + 1,
{
    if trees.len() == 0 {
        Seq::empty()
    } else {
        items_of_all(nodes, trees.drop_last(), summaries.drop_last(), height) + items_of(
            nodes,
            trees.last(),
            summaries.last(),
            height,
        )
    }
}

/// How much is asked of the nodes of a tree.
pub enum Rigor {
    /// No node below the root is empty, so that the tree can be walked along.
    Linked,
    /// Each node also has as many children or items as it may have.
    Sized,
    /// Each node also carries the summary of what is below it.
    Summed,
}

/// The least number of children, or of items, of a node.
pub open spec fn least_len<T: Item>(node: NodeView<T>, root: bool, rigor: Rigor) -> nat {
    if root && node is Leaf {
        0
    } else if root || rigor is Linked {
        1
    } else {
        TREE_BASE as nat
    }
}

/// Whether a node is the root of a sound tree of height `height`: as far as the nodes
/// below it can be found, they and it are as `rigor` asks, and all the leaves are at the
/// same depth.
pub open spec fn sound_node<T: Item>(
    nodes: Nodes<T>,
    node: NodeView<T>,
    height: nat,
    root: bool,
    rigor: Rigor,
) -> bool
    decreases height, 0nat,
{
    &&& node.height() == height
    &&& least_len(node, root, rigor) <= node.len()
    &&& rigor is Linked || node.len() <= NODE_CAPACITY
    &&& match node {
        NodeView::Leaf { summary, items } => rigor is Summed ==> summary == total(known(items)),
        NodeView::Internal { summary, child_summaries, child_trees, .. } => {
            &&& height > 0
            &&& rigor is Summed ==> summary == total_of::<T::Summary>(child_summaries)
            &&& sound_children(nodes, child_trees, child_summaries, (height - 1) as nat, rigor)
        },
    }
}

/// Whether trees are sound trees of height `height` that may stand below
/// another one, with these summaries.
pub open spec fn sound_children<T: Item>(
    nodes: Nodes<T>,
    trees: Seq<Tree<T>>,
    summaries: Seq<SummaryValue<T>>,
    height: nat,
    rigor: Rigor,
) -> bool
    decreases height, 2nat,
{
    &&& trees.len() == summaries.len()
    &&& forall|i: int|
        #![trigger trees[i]]
        0 <= i < trees.len() ==> {
            &&& sound(nodes, trees[i], height, false, rigor)
            &&& rigor is Summed && !trees[i].dangling(nodes) ==> summaries[i] == trees[i].at(
                nodes,
            ).summary()
        }
}

/// Whether a tree is a sound tree of height `height`, as far as it can be found.
pub open spec fn sound<T: Item>(
    nodes: Nodes<T>,
    tree: Tree<T>,
    height: nat,
    root: bool,
    rigor: Rigor,
) -> bool
    decreases height, 1nat,
{
    tree.dangling(nodes) || sound_node(nodes, tree.at(nodes), height, root, rigor)
}

/// Whether every node below a node of height `height` is in memory.
pub open spec fn below_in_memory<T: Item>(node: NodeView<T>, height: nat) -> bool
    decreases height, 0nat,
{
    match node {
        NodeView::Leaf { .. } => true,
        NodeView::Internal { child_trees, .. } => height > 0 && trees_in_memory(
            child_trees,
            (height - 1) as nat,
        ),
    }
}

/// Whether every node of trees of height `height` is in memory.
pub open spec fn trees_in_memory<T: Item>(trees: Seq<Tree<T>>, height: nat) -> bool
    decreases height, 2nat,
{
    forall|i: int| #![trigger trees[i]] 0 <= i < trees.len() ==> all_in_memory(trees[i], height)
}

/// Whether every node of a tree of height `height` is in memory.
pub open spec fn all_in_memory<T: Item>(tree: Tree<T>, height: nat) -> bool
    decreases height, 1nat,
{
    tree matches Tree::Resident(node) && below_in_memory(node@, height)
}

/// Whether the nodes of a tree of height `height` on the way from the root down to what
/// it shows at `index` are in memory. Only the root is on the way to a place behind
/// everything.
pub open spec fn way_in_memory<T: Item>(
    nodes: Nodes<T>,
    tree: Tree<T>,
    height: nat,
    index: int,
) -> bool
    decreases height,
{
    &&& tree is Resident
    &&& tree.at(nodes) matches NodeView::Internal { child_trees, child_summaries, .. } ==> {
        &&& height > 0
        &&& forall|i: int|
            #![trigger child_trees[i]]
            0 <= i < child_trees.len() ==> {
                let below = (height - 1) as nat;
                let start = items_of_all(
                    nodes,
                    child_trees.take(i),
                    child_summaries.take(i),
                    below,
                ).len();
                let len = items_of(nodes, child_trees[i], child_summaries[i], below).len();
                start <= index < start + len ==> way_in_memory(
                    nodes,
                    child_trees[i],
                    below,
                    index - start,
                )
            }
    }
}

/// Whether the root of a tree of height `height`, its last child and so on down to the last
/// leaf are in memory.
pub open spec fn last_way_in_memory<T: Item>(nodes: Nodes<T>, tree: Tree<T>, height: nat) -> bool
    decreases height,
{
    &&& tree is Resident
    &&& tree.at(nodes) matches NodeView::Internal { child_trees, .. } ==> height > 0
        && last_way_in_memory(nodes, child_trees.last(), (height - 1) as nat)
}

impl<T: Item> Tree<T> {
    /// Whether the root is in neither memory nor the store.
    pub open spec fn dangling(self, nodes: Nodes<T>) -> bool {
        self matches Tree::NonResident(id) && !nodes.contains_key(id)
    }

    /// What the root holds.
    pub open spec fn at(self, nodes: Nodes<T>) -> NodeView<T> {
        match self {
            Tree::Resident(node) => node@,
            Tree::NonResident(id) => nodes[id]@,
        }
    }

    /// The height of the tree, as far as it can be found.
    pub open spec fn depth(self, nodes: Nodes<T>) -> nat {
        if self.dangling(nodes) {
            0
        } else {
            self.at(nodes).height()
        }
    }

    /// What the tree shows from left to right: nothing, if its root cannot be found.
    pub open spec fn content(self, nodes: Nodes<T>) -> Seq<Piece<T>> {
        if self.dangling(nodes) {
            Seq::empty()
        } else {
            items_in(nodes, self.at(nodes), self.at(nodes).height())
        }
    }

    /// Whether this is a sound tree, as far as it can be found.
    pub open spec fn wf(self, nodes: Nodes<T>) -> bool {
        sound(nodes, self, self.at(nodes).height(), true, Rigor::Summed)
    }

    /// Whether the shape of the tree is sound, as far as it can be found, though the
    /// summaries in it may be out of step with its items.
    pub open spec fn shaped(self, nodes: Nodes<T>) -> bool {
        sound(nodes, self, self.at(nodes).height(), true, Rigor::Sized)
    }

    /// Whether no node below the root is empty, as far as the tree can be found. Its nodes
    /// may have too few or too many children or items all the same.
    pub open spec fn linked(self, nodes: Nodes<T>) -> bool {
        sound(nodes, self, self.at(nodes).height(), true, Rigor::Linked)
    }

    /// What can be asked of the nodes of a tree that can be walked along.
    pub open spec fn rigor(self, nodes: Nodes<T>) -> Rigor {
        if self.wf(nodes) {
            Rigor::Summed
        } else {
            Rigor::Linked
        }
    }

    /// Whether the tree can be walked along: no node below its root is empty, and what it
    /// shows can be summed up.
    pub open spec fn can_be_walked(self, nodes: Nodes<T>) -> bool {
        self.linked(nodes) && T::Summary::fits(total(self.content(nodes)))
    }

    /// Whether the root is an internal node with fewer children than one that
    /// is not a root may have.
    pub open spec fn slim(self, nodes: Nodes<T>) -> bool {
        !self.dangling(nodes) && self.at(nodes) is Internal && self.at(nodes).len() < TREE_BASE
    }

    /// Whether the nodes on the way to the end of the tree are in memory. No others are read
    /// when something is joined to the tree.
    pub open spec fn end_in_memory(self, nodes: Nodes<T>) -> bool {
        last_way_in_memory(nodes, self, self.at(nodes).height())
    }

    /// Whether the whole tree is in memory, so that no store is read.
    pub open spec fn in_memory(self) -> bool {
        self matches Tree::Resident(node) && all_in_memory(self, node@.height())
    }
}

/// The last leaf of a tree of height `height`.
pub open spec fn last_leaf<T: Item>(nodes: Nodes<T>, tree: Tree<T>, height: nat) -> Tree<T>
    decreases height,
{
    match tree.at(nodes) {
        NodeView::Internal { child_trees, .. } if height > 0 => last_leaf(
            nodes,
            child_trees.last(),
            (height - 1) as nat,
        ),
        _ => tree,
    }
}

/// Whether a run has grown, and by no more than it was meant to.
pub open spec fn partly_grown<X>(before: Seq<X>, after: Seq<X>, meant: Seq<X>) -> bool {
    before.is_prefix_of(after) && after.is_prefix_of(meant)
}

/// Whether a tree of height `height` can be joined to a tree of height `low`. It is a
/// sound tree whose root is not short of children, or its root cannot be found, so that
/// it is not joined. Or it is higher, so that its children are joined one by one, and
/// they are such trees; only the first of them is sure to meet a tree of height `low`.
pub open spec fn joinable<T: Item>(
    nodes: Nodes<T>,
    low: nat,
    tree: Tree<T>,
    height: nat,
) -> bool
    decreases height,
{
    ||| tree.dangling(nodes)
    ||| sound_node(nodes, tree.at(nodes), height, true, Rigor::Summed) && !tree.slim(nodes)
    ||| {
        &&& low < height
        &&& tree.at(nodes).height() == height
        &&& tree.at(nodes) matches NodeView::Internal { child_trees, child_summaries, .. }
        &&& child_trees.len() == child_summaries.len()
        &&& forall|i: int|
            #![trigger child_trees[i]]
            0 <= i < child_trees.len() ==> joinable(
                nodes,
                if i == 0 {
                    low
                } else {
                    (height - 1) as nat
                },
                child_trees[i],
                (height - 1) as nat,
            )
    }
}

/// Where a list of `len` elements that is too long for one node is split.
pub open spec fn split_point(len: int) -> int {
    (len + len % 2) / 2
}

/// The number of items that no tree can hold: one with so many could be
/// higher than a node's height can say.
pub open spec fn item_limit() -> nat {
    pow2(255)
}

/// A run that grows step by step has grown as a whole.
pub proof fn lemma_grows_on<X>(before: Seq<X>, middle: Seq<X>, after: Seq<X>, meant: Seq<X>)
    requires
        before.is_prefix_of(middle),
        middle.is_prefix_of(after),
        after.is_prefix_of(meant),
    ensures
        partly_grown(before, after, meant),
        middle.is_prefix_of(meant),
{
    assert(before =~= after.subrange(0, before.len() as int));
    assert(middle =~= meant.subrange(0, middle.len() as int));
}

/// The end of the end of a run is the end of the run.
pub proof fn lemma_suffix_of_suffix<X>(a: Seq<X>, b: Seq<X>, c: Seq<X>)
    requires
        a.is_suffix_of(b),
        b.is_suffix_of(c),
    ensures
        a.is_suffix_of(c),
{
    assert(c.subrange(c.len() - a.len(), c.len() as int) =~= b.subrange(
        b.len() - a.len(),
        b.len() as int,
    ));
}

/// Two lists of trees show what the first shows, then what the second shows.
pub proof fn lemma_items_of_all_concat<T: Item>(
    nodes: Nodes<T>,
    a: Seq<Tree<T>>,
    a_summaries: Seq<SummaryValue<T>>,
    b: Seq<Tree<T>>,
    b_summaries: Seq<SummaryValue<T>>,
    height: nat,
)
    requires
        a.len() == a_summaries.len(),
        b.len() == b_summaries.len(),
    ensures
        items_of_all(nodes, a + b, a_summaries + b_summaries, height) == items_of_all(
            nodes,
            a,
            a_summaries,
            height,
        ) + items_of_all(nodes, b, b_summaries, height),
    decreases b.len(),
{
    if b.len() == 0 {
        assert(a + b =~= a);
        assert(a_summaries + b_summaries =~= a_summaries);
    } else {
        assert((a + b).drop_last() =~= a + b.drop_last());
        assert((a_summaries + b_summaries).drop_last() =~= a_summaries + b_summaries.drop_last());
        lemma_items_of_all_concat(
            nodes,
            a,
            a_summaries,
            b.drop_last(),
            b_summaries.drop_last(),
            height,
        );
    }
}

/// What a list of one tree shows.
pub proof fn lemma_items_of_all_one<T: Item>(
    nodes: Nodes<T>,
    tree: Tree<T>,
    summary: SummaryValue<T>,
    height: nat,
)
    ensures
        items_of_all(nodes, seq![tree], seq![summary], height) == items_of(
            nodes,
            tree,
            summary,
            height,
        ),
{
    let none = Seq::<Tree<T>>::empty();
    assert(seq![tree].drop_last() =~= none);
    assert(items_of_all(nodes, none, seq![summary].drop_last(), height) =~= Seq::<
        Piece<T>,
    >::empty());
}

/// What a list of trees shows, with the tree at `index` singled out.
pub proof fn lemma_items_of_all_split<T: Item>(
    nodes: Nodes<T>,
    trees: Seq<Tree<T>>,
    summaries: Seq<SummaryValue<T>>,
    index: int,
    height: nat,
)
    requires
        0 <= index < trees.len(),
        trees.len() == summaries.len(),
    ensures
        items_of_all(nodes, trees, summaries, height) == items_of_all(
            nodes,
            trees.take(index),
            summaries.take(index),
            height,
        ) + items_of(nodes, trees[index], summaries[index], height) + items_of_all(
            nodes,
            trees.skip(index + 1),
            summaries.skip(index + 1),
            height,
        ),
        items_of_all(nodes, trees.take(index + 1), summaries.take(index + 1), height)
            == items_of_all(nodes, trees.take(index), summaries.take(index), height) + items_of(
            nodes,
            trees[index],
            summaries[index],
            height,
        ),
{
    assert(trees =~= trees.take(index + 1) + trees.skip(index + 1));
    assert(summaries =~= summaries.take(index + 1) + summaries.skip(index + 1));
    assert(trees.take(index + 1).drop_last() =~= trees.take(index));
    assert(summaries.take(index + 1).drop_last() =~= summaries.take(index));
    lemma_items_of_all_concat(
        nodes,
        trees.take(index + 1),
        summaries.take(index + 1),
        trees.skip(index + 1),
        summaries.skip(index + 1),
        height,
    );
}

/// A tree that may stand below another one is a sound tree in itself.
pub proof fn lemma_sound_as_root<T: Item>(
    nodes: Nodes<T>,
    tree: Tree<T>,
    height: nat,
    rigor: Rigor,
)
    requires
        sound(nodes, tree, height, false, rigor),
    ensures
        sound(nodes, tree, height, true, rigor),
{
}

/// A sound tree has a sound shape.
pub proof fn lemma_sound_is_shaped<T: Item>(
    nodes: Nodes<T>,
    tree: Tree<T>,
    height: nat,
    root: bool,
)
    requires
        sound(nodes, tree, height, root, Rigor::Summed) || sound(
            nodes,
            tree,
            height,
            root,
            Rigor::Sized,
        ),
    ensures
        sound(nodes, tree, height, root, Rigor::Sized),
        sound(nodes, tree, height, root, Rigor::Linked),
    decreases height, 0nat,
{
    if !tree.dangling(nodes) {
        if let NodeView::Internal { child_trees, child_summaries, .. } = tree.at(nodes) {
            lemma_children_are_shaped(nodes, child_trees, child_summaries, (height - 1) as nat);
        }
    }
}

/// Sound children have sound shapes.
pub proof fn lemma_children_are_shaped<T: Item>(
    nodes: Nodes<T>,
    trees: Seq<Tree<T>>,
    summaries: Seq<SummaryValue<T>>,
    height: nat,
)
    requires
        sound_children(nodes, trees, summaries, height, Rigor::Summed) || sound_children(
            nodes,
            trees,
            summaries,
            height,
            Rigor::Sized,
        ),
    ensures
        sound_children(nodes, trees, summaries, height, Rigor::Sized),
        sound_children(nodes, trees, summaries, height, Rigor::Linked),
    decreases height, 1nat,
{
    assert forall|i: int| #![trigger trees[i]] 0 <= i < trees.len() implies {
        &&& sound(nodes, trees[i], height, false, Rigor::Sized)
        &&& sound(nodes, trees[i], height, false, Rigor::Linked)
    } by {
        lemma_sound_is_shaped(nodes, trees[i], height, false);
    }
}

/// The summaries of sound trees add up to the summary of what they show.
pub proof fn lemma_summaries_add_up<T: Item>(
    nodes: Nodes<T>,
    trees: Seq<Tree<T>>,
    summaries: Seq<SummaryValue<T>>,
    height: nat,
)
    requires
        sound_children(nodes, trees, summaries, height, Rigor::Summed),
    ensures
        total_of::<T::Summary>(summaries) == total(items_of_all(nodes, trees, summaries, height)),
    decreases height, trees.len() + 1,
{
    if trees.len() > 0 {
        lemma_sound_children_part(nodes, trees, summaries, height, 0, trees.len() - 1);
        assert(trees.subrange(0, trees.len() - 1) =~= trees.drop_last());
        assert(summaries.subrange(0, trees.len() - 1) =~= summaries.drop_last());
        lemma_summaries_add_up(nodes, trees.drop_last(), summaries.drop_last(), height);
        lemma_total_concat(
            items_of_all(nodes, trees.drop_last(), summaries.drop_last(), height),
            items_of(nodes, trees.last(), summaries.last(), height),
        );
        assert(trees.last() == trees[trees.len() - 1]);
        lemma_child_summary_is_total(nodes, trees.last(), summaries.last(), height);
    } else {
        assert(items_of_all(nodes, trees, summaries, height) =~= Seq::<Piece<T>>::empty());
        assert(piece_values(Seq::<Piece<T>>::empty()) =~= summaries);
    }
}

/// The summary that a node has for a child is the summary of what the child shows.
pub proof fn lemma_child_summary_is_total<T: Item>(
    nodes: Nodes<T>,
    tree: Tree<T>,
    summary: SummaryValue<T>,
    height: nat,
)
    requires
        sound(nodes, tree, height, false, Rigor::Summed),
        !tree.dangling(nodes) ==> summary == tree.at(nodes).summary(),
    ensures
        summary == total(items_of(nodes, tree, summary, height)),
    decreases height, 1nat,
{
    if tree.dangling(nodes) {
        lemma_total_one(Piece::<T>::Hidden { id: tree->NonResident_0, height, summary });
    } else {
        lemma_summary_is_total(nodes, tree.at(nodes), height, false);
    }
}

/// A node's summary is the summary of all that it shows.
pub proof fn lemma_summary_is_total<T: Item>(
    nodes: Nodes<T>,
    node: NodeView<T>,
    height: nat,
    root: bool,
)
    requires
        sound_node(nodes, node, height, root, Rigor::Summed),
    ensures
        node.summary() == total(items_in(nodes, node, height)),
    decreases height, 0nat,
{
    match node {
        NodeView::Leaf { .. } => {},
        NodeView::Internal { child_summaries, child_trees, .. } => {
            lemma_summaries_add_up(nodes, child_trees, child_summaries, (height - 1) as nat);
        },
    }
}

/// A part of a sound list of children is one too.
pub proof fn lemma_sound_children_part<T: Item>(
    nodes: Nodes<T>,
    trees: Seq<Tree<T>>,
    summaries: Seq<SummaryValue<T>>,
    height: nat,
    from: int,
    to: int,
)
    requires
        sound_children(nodes, trees, summaries, height, Rigor::Summed),
        0 <= from <= to <= trees.len(),
    ensures
        sound_children(
            nodes,
            trees.subrange(from, to),
            summaries.subrange(from, to),
            height,
            Rigor::Summed,
        ),
{
    let part = trees.subrange(from, to);
    assert forall|i: int| #![trigger part[i]] 0 <= i < part.len() implies {
        &&& sound(nodes, part[i], height, false, Rigor::Summed)
        &&& !part[i].dangling(nodes) ==> summaries.subrange(from, to)[i] == part[i].at(
            nodes,
        ).summary()
    } by {
        assert(part[i] == trees[from + i]);
    }
}

/// Two sound lists of children make one.
pub proof fn lemma_sound_children_concat<T: Item>(
    nodes: Nodes<T>,
    trees: Seq<Tree<T>>,
    summaries: Seq<SummaryValue<T>>,
    more_trees: Seq<Tree<T>>,
    more_summaries: Seq<SummaryValue<T>>,
    height: nat,
)
    requires
        sound_children(nodes, trees, summaries, height, Rigor::Summed),
        sound_children(nodes, more_trees, more_summaries, height, Rigor::Summed),
    ensures
        sound_children(
            nodes,
            trees + more_trees,
            summaries + more_summaries,
            height,
            Rigor::Summed,
        ),
{
    let all = trees + more_trees;
    assert forall|i: int| #![trigger all[i]] 0 <= i < all.len() implies {
        &&& sound(nodes, all[i], height, false, Rigor::Summed)
        &&& !all[i].dangling(nodes) ==> (summaries + more_summaries)[i] == all[i].at(
            nodes,
        ).summary()
    } by {
        if i < trees.len() {
            assert(all[i] == trees[i]);
        } else {
            assert(all[i] == more_trees[i - trees.len()]);
        }
    }
}

/// A node's summary is one that can be held.
pub proof fn lemma_node_summary_fits<T: Item>(node: &Node<T>)
    ensures
        T::Summary::fits(node@.summary()),
{
    match node {
        Node::Internal { summary, .. } => T::Summary::value_fits(*summary),
        Node::Leaf { summary, .. } => T::Summary::value_fits(*summary),
    }
}

/// The summary of all that a tree shows is one that can be held.
pub proof fn lemma_total_fits<T: Item>(nodes: Nodes<T>, tree: Tree<T>)
    requires
        tree.wf(nodes),
        !tree.dangling(nodes),
    ensures
        T::Summary::fits(total(tree.content(nodes))),
{
    lemma_summary_is_total(nodes, tree.at(nodes), tree.at(nodes).height(), true);
    match tree {
        Tree::Resident(node) => lemma_node_summary_fits(&node),
        Tree::NonResident(id) => lemma_node_summary_fits(&nodes[id]),
    }
}

/// What a list of trees shows weighs at least so much for each tree.
pub proof fn lemma_least_items_of_all<T: Item>(
    nodes: Nodes<T>,
    trees: Seq<Tree<T>>,
    summaries: Seq<SummaryValue<T>>,
    height: nat,
)
    requires
        trees.len() == summaries.len(),
        forall|i: int|
            #![trigger trees[i]]
            0 <= i < trees.len() ==> weight(items_of(nodes, trees[i], summaries[i], height))
                >= pow2(height + 1),
    ensures
        weight(items_of_all(nodes, trees, summaries, height)) >= trees.len() * pow2(height + 1),
    decreases trees.len(),
{
    if trees.len() > 0 {
        let (fewer, fewer_summaries) = (trees.drop_last(), summaries.drop_last());
        assert forall|i: int| #![trigger fewer[i]] 0 <= i < fewer.len() implies weight(
            items_of(nodes, fewer[i], fewer_summaries[i], height),
        ) >= pow2(height + 1) by {
            assert(fewer[i] == trees[i]);
        }
        lemma_least_items_of_all(nodes, fewer, fewer_summaries, height);
        assert(trees.last() == trees[trees.len() - 1]);
        lemma_weight_concat(
            items_of_all(nodes, fewer, fewer_summaries, height),
            items_of(nodes, trees.last(), summaries.last(), height),
        );
        assert(trees.len() * pow2(height + 1) == (trees.len() - 1) * pow2(height + 1) + pow2(
            height + 1,
        )) by (nonlinear_arith);
    } else {
        assert(trees.len() * pow2(height + 1) == 0) by (nonlinear_arith)
            requires
                trees.len() == 0,
        ;
    }
}

/// What a child shows weighs at least as much as its height calls for.
pub proof fn lemma_least_items_of<T: Item>(
    nodes: Nodes<T>,
    tree: Tree<T>,
    summary: SummaryValue<T>,
    height: nat,
    rigor: Rigor,
)
    requires
        sound(nodes, tree, height, false, rigor),
    ensures
        !(rigor is Linked) ==> weight(items_of(nodes, tree, summary, height)) >= pow2(height + 1),
        items_of(nodes, tree, summary, height).len() > 0,
    decreases height, 1nat,
{
    if tree.dangling(nodes) {
        let shown = items_of(nodes, tree, summary, height);
        assert(shown.drop_last() =~= Seq::<Piece<T>>::empty());
        assert(weight(shown.drop_last()) == 0);
    } else {
        lemma_least_items(nodes, tree.at(nodes), height, false, rigor);
        vstd::arithmetic::power2::lemma_pow2_pos(height + 1);
    }
}

/// What a sound node shows weighs at least as much as its height calls for.
pub proof fn lemma_least_items<T: Item>(
    nodes: Nodes<T>,
    node: NodeView<T>,
    height: nat,
    root: bool,
    rigor: Rigor,
)
    requires
        sound_node(nodes, node, height, root, rigor),
    ensures
        !(rigor is Linked) ==> {
            &&& !root ==> weight(items_in(nodes, node, height)) >= pow2(height + 1)
            &&& height > 0 ==> weight(items_in(nodes, node, height)) >= pow2(height)
        },
        height > 0 || !root ==> items_in(nodes, node, height).len() > 0,
    decreases height, 0nat,
{
    let shown = items_in(nodes, node, height);
    match node {
        NodeView::Leaf { items, .. } => {
            vstd::arithmetic::power2::lemma2_to64();
            lemma_weight_known(items);
        },
        NodeView::Internal { child_trees, child_summaries, .. } => {
            let below = (height - 1) as nat;
            let (first, summary) = (child_trees[0], child_summaries[0]);
            lemma_items_of_all_split(nodes, child_trees, child_summaries, 0, below);
            lemma_least_items_of(nodes, first, summary, below, rigor);
            if !(rigor is Linked) {
                assert forall|i: int| #![trigger child_trees[i]] 0 <= i < child_trees.len() implies
                    weight(items_of(nodes, child_trees[i], child_summaries[i], below)) >= pow2(
                    below + 1,
                ) by {
                    lemma_least_items_of(nodes, child_trees[i], child_summaries[i], below, rigor);
                }
                lemma_least_items_of_all(nodes, child_trees, child_summaries, below);
                vstd::arithmetic::power2::lemma_pow2_unfold(height + 1);
                vstd::arithmetic::power2::lemma_pow2_pos(height);
                let n = child_trees.len();
                let p = pow2(height);
                assert(n * p >= p) by (nonlinear_arith)
                    requires
                        n >= 1,
                        p >= 0,
                ;
                assert(n >= 2 ==> n * p >= 2 * p) by (nonlinear_arith)
                    requires
                        p >= 0,
                ;
            }
        },
    }
}

/// The limit is not reached by a few items.
pub proof fn lemma_item_limit()
    ensures
        item_limit() > 2 * NODE_CAPACITY,
{
    vstd::arithmetic::power2::lemma2_to64();
    vstd::arithmetic::power2::lemma_pow2_strictly_increases(4, 255);
}

/// A tree that weighs less than the limit is lower than a node's height can say.
pub proof fn lemma_height_limit<T: Item>(nodes: Nodes<T>, node: NodeView<T>, height: nat)
    requires
        sound_node(nodes, node, height, true, Rigor::Summed),
        weight(items_in(nodes, node, height)) < item_limit(),
    ensures
        height < 255,
{
    lemma_least_items(nodes, node, height, true, Rigor::Summed);
    if height > 255 {
        vstd::arithmetic::power2::lemma_pow2_strictly_increases(255, height);
    }
}

/// Trees that may stand below another one can be joined to any tree.
pub proof fn lemma_children_are_joinable<T: Item>(
    nodes: Nodes<T>,
    trees: Seq<Tree<T>>,
    summaries: Seq<SummaryValue<T>>,
    height: nat,
)
    requires
        sound_children(nodes, trees, summaries, height, Rigor::Summed),
    ensures
        forall|i: int, low: nat|
            0 <= i < trees.len() ==> #[trigger] joinable(nodes, low, trees[i], height),
{
    assert forall|i: int, low: nat| 0 <= i < trees.len() implies #[trigger] joinable(
        nodes,
        low,
        trees[i],
        height,
    ) by {
        lemma_sound_as_root(nodes, trees[i], height, Rigor::Summed);
    }
}

/// A node over sound children is sound.
pub proof fn lemma_node_over_children<T: Item>(
    nodes: Nodes<T>,
    trees: Seq<Tree<T>>,
    summaries: Seq<SummaryValue<T>>,
    height: nat,
    root: bool,
)
    requires
        sound_children(nodes, trees, summaries, height, Rigor::Summed),
        if root { 1 } else { TREE_BASE as int } <= trees.len() <= NODE_CAPACITY,
    ensures
        ({
            let node = NodeView::Internal {
                height: height + 1,
                summary: total_of::<T::Summary>(summaries),
                child_summaries: summaries,
                child_trees: trees,
            };
            &&& sound_node(nodes, node, height + 1, root, Rigor::Summed)
            &&& items_in(nodes, node, height + 1) == items_of_all(nodes, trees, summaries, height)
        }),
{
}

/// A list of children that is too long for one node makes two sound nodes.
pub proof fn lemma_split_children<T: Item>(
    nodes: Nodes<T>,
    trees: Seq<Tree<T>>,
    summaries: Seq<SummaryValue<T>>,
    height: nat,
)
    requires
        sound_children(nodes, trees, summaries, height, Rigor::Summed),
        NODE_CAPACITY < trees.len() <= 2 * NODE_CAPACITY,
    ensures
        ({
            let mid = split_point(trees.len() as int);
            let left = NodeView::Internal {
                height: height + 1,
                summary: total_of::<T::Summary>(summaries.take(mid)),
                child_summaries: summaries.take(mid),
                child_trees: trees.take(mid),
            };
            let right = NodeView::Internal {
                height: height + 1,
                summary: total_of::<T::Summary>(summaries.skip(mid)),
                child_summaries: summaries.skip(mid),
                child_trees: trees.skip(mid),
            };
            &&& sound_node(nodes, left, height + 1, false, Rigor::Summed)
            &&& sound_node(nodes, right, height + 1, false, Rigor::Summed)
            &&& items_in(nodes, left, height + 1) + items_in(nodes, right, height + 1)
                == items_of_all(nodes, trees, summaries, height)
            &&& trees_in_memory(trees, height) ==> below_in_memory(left, height + 1)
                && below_in_memory(right, height + 1)
        }),
{
    let len = trees.len() as int;
    let mid = split_point(len);
    assert(trees.subrange(0, mid) =~= trees.take(mid));
    assert(trees.subrange(mid, len) =~= trees.skip(mid));
    assert(summaries.subrange(0, mid) =~= summaries.take(mid));
    assert(summaries.subrange(mid, len) =~= summaries.skip(mid));
    lemma_sound_children_part(nodes, trees, summaries, height, 0, mid);
    lemma_sound_children_part(nodes, trees, summaries, height, mid, len);
    lemma_node_over_children(nodes, trees.take(mid), summaries.take(mid), height, false);
    lemma_node_over_children(nodes, trees.skip(mid), summaries.skip(mid), height, false);
    assert(trees =~= trees.take(mid) + trees.skip(mid));
    assert(summaries =~= summaries.take(mid) + summaries.skip(mid));
    lemma_items_of_all_concat(
        nodes,
        trees.take(mid),
        summaries.take(mid),
        trees.skip(mid),
        summaries.skip(mid),
        height,
    );
    if trees_in_memory(trees, height) {
        lemma_trees_in_memory_part(trees, height, 0, mid);
        lemma_trees_in_memory_part(trees, height, mid, len);
    }
}

/// A part of a list of trees that are in memory is in memory.
pub proof fn lemma_trees_in_memory_part<T: Item>(
    trees: Seq<Tree<T>>,
    height: nat,
    from: int,
    to: int,
)
    requires
        trees_in_memory(trees, height),
        0 <= from <= to <= trees.len(),
    ensures
        trees_in_memory(trees.subrange(from, to), height),
{
    let part = trees.subrange(from, to);
    assert forall|i: int| #![trigger part[i]] 0 <= i < part.len() implies all_in_memory(
        part[i],
        height,
    ) by {
        assert(part[i] == trees[from + i]);
    }
}

/// Two lists of trees that are in memory make one.
pub proof fn lemma_trees_in_memory_concat<T: Item>(
    a: Seq<Tree<T>>,
    b: Seq<Tree<T>>,
    height: nat,
)
    requires
        trees_in_memory(a, height),
        trees_in_memory(b, height),
    ensures
        trees_in_memory(a + b, height),
{
    let all = a + b;
    assert forall|i: int| #![trigger all[i]] 0 <= i < all.len() implies all_in_memory(
        all[i],
        height,
    ) by {
        if i < a.len() {
            assert(all[i] == a[i]);
        } else {
            assert(all[i] == b[i - a.len()]);
        }
    }
}

/// In a tree that is in memory every way down is.
pub proof fn lemma_every_way_in_memory<T: Item>(
    nodes: Nodes<T>,
    tree: Tree<T>,
    height: nat,
    index: int,
)
    requires
        all_in_memory(tree, height),
    ensures
        way_in_memory(nodes, tree, height, index),
    decreases height,
{
    if let NodeView::Internal { child_trees, child_summaries, .. } = tree.at(nodes) {
        let below = (height - 1) as nat;
        assert forall|i: int| #![trigger child_trees[i]] 0 <= i < child_trees.len() implies ({
            let start = items_of_all(
                nodes,
                child_trees.take(i),
                child_summaries.take(i),
                below,
            ).len();
            way_in_memory(nodes, child_trees[i], below, index - start)
        }) by {
            let start = items_of_all(
                nodes,
                child_trees.take(i),
                child_summaries.take(i),
                below,
            ).len();
            lemma_every_way_in_memory(nodes, child_trees[i], below, index - start);
        }
    }
}

/// The end of a tree that is in memory is in memory.
pub proof fn lemma_end_in_memory<T: Item>(nodes: Nodes<T>, tree: Tree<T>, height: nat)
    requires
        all_in_memory(tree, height),
        sound(nodes, tree, height, true, Rigor::Summed),
    ensures
        last_way_in_memory(nodes, tree, height),
    decreases height,
{
    if let NodeView::Internal { child_trees, .. } = tree.at(nodes) {
        let last = child_trees[child_trees.len() - 1];
        let below = (height - 1) as nat;
        assert(all_in_memory(last, below));
        assert(sound(nodes, last, below, false, Rigor::Summed));
        lemma_end_in_memory(nodes, last, below);
    }
}

/// Whether a list of trees of any height shows this run: each tree shows what it
/// contains, or is hidden.
pub open spec fn shows<T: Item>(
    nodes: Nodes<T>,
    trees: Seq<Tree<T>>,
    run: Seq<Piece<T>>,
) -> bool
    decreases trees.len(),
{
    if trees.len() == 0 {
        run.len() == 0
    } else {
        let len = if trees.last().dangling(nodes) {
            1
        } else {
            trees.last().content(nodes).len() as int
        };
        &&& len <= run.len()
        &&& !trees.last().dangling(nodes) ==> run.skip(run.len() - len) == trees.last().content(
            nodes,
        )
        &&& shows(nodes, trees.drop_last(), run.take(run.len() - len))
    }
}

/// Whether trees of any height can be joined to another one, one by one, and
/// whether they are in memory if they have to be.
pub open spec fn gathered<T: Item>(
    nodes: Nodes<T>,
    trees: Seq<Tree<T>>,
    in_memory: bool,
) -> bool {
    forall|i: int|
        #![trigger trees[i]]
        0 <= i < trees.len() ==> {
            &&& trees[i].wf(nodes)
            &&& !trees[i].slim(nodes)
            &&& in_memory ==> trees[i].in_memory()
        }
}

/// Two lists of trees show what the first shows, then what the second shows.
pub proof fn lemma_shows_concat<T: Item>(
    nodes: Nodes<T>,
    a: Seq<Tree<T>>,
    a_run: Seq<Piece<T>>,
    b: Seq<Tree<T>>,
    b_run: Seq<Piece<T>>,
)
    requires
        shows(nodes, a, a_run),
        shows(nodes, b, b_run),
    ensures
        shows(nodes, a + b, a_run + b_run),
    decreases b.len(),
{
    if b.len() == 0 {
        assert(a + b =~= a);
        assert(a_run + b_run =~= a_run);
    } else {
        let len = if b.last().dangling(nodes) {
            1
        } else {
            b.last().content(nodes).len() as int
        };
        let (all, run) = (a + b, a_run + b_run);
        let rest = b_run.take(b_run.len() - len);
        assert(all.drop_last() =~= a + b.drop_last());
        assert(run.take(run.len() - len) =~= a_run + rest);
        assert(run.skip(run.len() - len) =~= b_run.skip(b_run.len() - len));
        lemma_shows_concat(nodes, a, a_run, b.drop_last(), rest);
    }
}

/// Of a list of trees that shows a run, the first ones show the first part of it.
pub proof fn lemma_shows_part<T: Item>(
    nodes: Nodes<T>,
    trees: Seq<Tree<T>>,
    run: Seq<Piece<T>>,
    index: int,
) -> (reached: int)
    requires
        shows(nodes, trees, run),
        0 <= index < trees.len(),
    ensures
        0 <= reached <= run.len(),
        shows(nodes, trees.take(index), run.take(reached)),
        !trees[index].dangling(nodes) ==> {
            let next = reached + trees[index].content(nodes).len();
            &&& next <= run.len()
            &&& run.subrange(reached, next) == trees[index].content(nodes)
            &&& shows(nodes, trees.take(index + 1), run.take(next))
        },
    decreases trees.len(),
{
    let len = if trees.last().dangling(nodes) {
        1
    } else {
        trees.last().content(nodes).len() as int
    };
    let n = trees.len() - 1;
    let rest = run.take(run.len() - len);
    assert(trees.drop_last() =~= trees.take(n));
    if index == n {
        assert(trees.take(n + 1) =~= trees);
        assert(run.take(run.len() as int) =~= run);
        assert(run.subrange(run.len() - len, run.len() as int) =~= run.skip(run.len() - len));
        run.len() - len
    } else {
        let reached = lemma_shows_part(nodes, trees.drop_last(), rest, index);
        assert(trees.drop_last().take(index) =~= trees.take(index));
        assert(trees.drop_last().take(index + 1) =~= trees.take(index + 1));
        assert(rest.take(reached) =~= run.take(reached));
        if !trees[index].dangling(nodes) {
            let next = reached + trees[index].content(nodes).len();
            assert(rest.take(next) =~= run.take(next));
            assert(rest.subrange(reached, next) =~= run.subrange(reached, next));
        }
        reached
    }
}

/// A list of trees shows one run only, if all of its roots can be found.
pub proof fn lemma_shows_is_unique<T: Item>(
    nodes: Nodes<T>,
    trees: Seq<Tree<T>>,
    a: Seq<Piece<T>>,
    b: Seq<Piece<T>>,
)
    requires
        shows(nodes, trees, a),
        shows(nodes, trees, b),
        forall|i: int| 0 <= i < trees.len() ==> !(#[trigger] trees[i]).dangling(nodes),
    ensures
        a == b,
    decreases trees.len(),
{
    if trees.len() > 0 {
        let len = trees.last().content(nodes).len() as int;
        assert(trees.last() == trees[trees.len() - 1]);
        lemma_shows_is_unique(
            nodes,
            trees.drop_last(),
            a.take(a.len() - len),
            b.take(b.len() - len),
        );
        assert(a =~= a.take(a.len() - len) + a.skip(a.len() - len));
        assert(b =~= b.take(b.len() - len) + b.skip(b.len() - len));
    } else {
        assert(a =~= b);
    }
}

/// Two lists of trees that can be joined to another one make one.
pub proof fn lemma_gathered_concat<T: Item>(
    nodes: Nodes<T>,
    a: Seq<Tree<T>>,
    b: Seq<Tree<T>>,
    in_memory: bool,
)
    requires
        gathered(nodes, a, in_memory),
        gathered(nodes, b, in_memory),
    ensures
        gathered(nodes, a + b, in_memory),
{
    let all = a + b;
    assert forall|i: int| #![trigger all[i]] 0 <= i < all.len() implies {
        &&& all[i].wf(nodes)
        &&& !all[i].slim(nodes)
        &&& in_memory ==> all[i].in_memory()
    } by {
        if i < a.len() {
            assert(all[i] == a[i]);
        } else {
            assert(all[i] == b[i - a.len()]);
        }
    }
}

/// Children of a node can be joined to another tree.
pub proof fn lemma_children_gathered<T: Item>(
    nodes: Nodes<T>,
    trees: Seq<Tree<T>>,
    summaries: Seq<SummaryValue<T>>,
    height: nat,
    in_memory: bool,
)
    requires
        sound_children(nodes, trees, summaries, height, Rigor::Summed),
        in_memory ==> trees_in_memory(trees, height),
    ensures
        gathered(nodes, trees, in_memory),
        shows(nodes, trees, items_of_all(nodes, trees, summaries, height)),
    decreases trees.len(),
{
    assert forall|i: int| #![trigger trees[i]] 0 <= i < trees.len() implies trees[i].wf(nodes)
        && !trees[i].slim(nodes) by {
        lemma_sound_as_root(nodes, trees[i], height, Rigor::Summed);
    }
    if trees.len() > 0 {
        let n = trees.len() - 1;
        assert(trees[n] == trees.last());
        lemma_sound_children_part(nodes, trees, summaries, height, 0, n);
        assert(trees.subrange(0, n) =~= trees.drop_last());
        assert(summaries.subrange(0, n) =~= summaries.drop_last());
        if in_memory {
            lemma_trees_in_memory_part(trees, height, 0, n);
        }
        lemma_children_gathered(
            nodes,
            trees.drop_last(),
            summaries.drop_last(),
            height,
            in_memory,
        );
        let front = items_of_all(nodes, trees.drop_last(), summaries.drop_last(), height);
        let back = items_of(nodes, trees.last(), summaries.last(), height);
        let run = items_of_all(nodes, trees, summaries, height);
        assert(run.take(run.len() - back.len()) =~= front);
        assert(run.skip(run.len() - back.len()) =~= back);
    }
}

} // verus!
