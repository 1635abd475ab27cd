//! A sequence of items in a balanced tree.

use crate::append::{append_children, append_items, clone_summaries, clone_summary, sum_slice};
use crate::join::{
    broken_off, grown, joined, joined_in_memory, kept, last_of, last_replaced,
    last_summary_replaced, lemma_broken_off_below, lemma_children_joined, lemma_items_joined,
    lemma_join_child, lemma_join_children, lemma_join_last_child, lemma_last_child_kept,
    lemma_placed_end_in_memory, lemma_two_children, node_over, root_summaries,
};
use crate::laws::{end_at, law_lower_tree_is_joined_as_it_is};
use crate::model::{
    below_in_memory, item_limit, items_of, items_of_all, joinable, last_leaf, last_way_in_memory,
    lemma_children_are_joinable, lemma_children_are_shaped, lemma_end_in_memory, lemma_grows_on,
    lemma_height_limit, lemma_item_limit, lemma_items_of_all_one, lemma_items_of_all_split,
    lemma_least_items_of, lemma_sound_as_root, lemma_sound_is_shaped, lemma_suffix_of_suffix,
    lemma_summaries_add_up, lemma_summary_is_total, lemma_total_fits, partly_grown, sound,
    sound_children, sound_node, trees_in_memory, way_in_memory, Rigor,
};
use crate::node::{Node, NodeView, NODE_CAPACITY, TREE_BASE};
use crate::piece::{
    known, lemma_known_concat, lemma_total_concat, lemma_total_one, lemma_total_part_fits,
    lemma_weight_concat, lemma_weight_known, lemma_weight_part, total, weight, Piece,
};
use crate::reads::{
    id_of, ids_of, lemma_begins_with, lemma_ids_of_split, lemma_ids_of_two, lemma_merge_begun,
    lemma_merge_not_begun, lemma_read_root, lemma_way_into, merge_ids, way_end, way_ids,
};
use crate::storage::{make_mut, Inline, Trees};
use crate::store::{
    has_read, ids_read, lemma_ids_read, lemma_read_begun, lemma_read_nothing, lemma_read_on,
    lemma_read_within, only_read, read_in_order, NodeId, NodeStore, Nodes, Reads,
};
use crate::summary::{lemma_total_of_one, total_of, values_of, yields, Dimension, Item, Summary};
use std::sync::Arc;
use vstd::prelude::*;
use vstd::std_specs::iter::IteratorSpec;

verus! {

/// A tree: its root, in memory or in a store.
#[verifier::reject_recursive_types(T)]
pub enum Tree<T: Item> {
    Resident(Arc<Node<T>>),
    NonResident(NodeId),
}

impl<T: Item> Clone for Tree<T> {
    fn clone(&self) -> (result: Self)
        ensures
            result == *self,
    {
        match self {
            Tree::Resident(node) => Tree::Resident(node.clone()),
            Tree::NonResident(id) => Tree::NonResident(*id),
        }
    }
}

impl<T: Item> Tree<T> {
    /// An empty tree.
    pub fn new() -> (result: Self)
        ensures
            forall|nodes: Nodes<T>| #[trigger] result.wf(nodes),
            forall|nodes: Nodes<T>| #[trigger] result.content(nodes) == Seq::<Piece<T>>::empty(),
            forall|nodes: Nodes<T>| #[trigger] result.at(nodes) is Leaf,
            result.in_memory(),
    {
        let summary = <T::Summary as Default>::default();
        proof {
            T::Summary::default_is_zero(summary);
        }
        assert(known(Seq::<T>::empty()) =~= Seq::<Piece<T>>::empty());
        Tree::Resident(Arc::new(Node::Leaf { summary, items: Inline::new() }))
    }

    pub(crate) fn node<'a, S: NodeStore<T>>(&'a self, db: &'a mut S) -> (result: Result<
        &'a Node<T>,
        S::ReadError,
    >)
        ensures
            read_in_order(*old(db), *final(db), id_of(*self), result),
            result matches Ok(node) ==> !self.dangling(old(db).nodes()) && node@ == self.at(
                old(db).nodes(),
            ),
            *self is Resident ==> result is Ok && *final(db) == *old(db),
    {
        proof {
            lemma_read_root(*db, *self);
        }
        match self {
            Tree::Resident(node) => Ok(node),
            Tree::NonResident(node_id) => db.get(*node_id),
        }
    }

    fn height<S: NodeStore<T>>(&self, db: &mut S) -> (result: Result<u8, S::ReadError>)
        ensures
            read_in_order(*old(db), *final(db), id_of(*self), result),
            result matches Ok(height) ==> !self.dangling(old(db).nodes()) && height == self.at(
                old(db).nodes(),
            ).height(),
            *self is Resident ==> result is Ok && *final(db) == *old(db),
    {
        proof {
            lemma_read_root(*db, *self);
        }
        match self {
            Tree::Resident(node) => Ok(node.height()),
            Tree::NonResident(node_id) => match db.get(*node_id) {
                Ok(node) => Ok(node.height()),
                Err(error) => Err(error),
            },
        }
    }

    fn summary<'a, S: NodeStore<T>>(&'a self, db: &'a mut S) -> (result: Result<
        &'a T::Summary,
        S::ReadError,
    >)
        ensures
            read_in_order(*old(db), *final(db), id_of(*self), result),
            result matches Ok(summary) ==> !self.dangling(old(db).nodes()) && summary@ == self.at(
                old(db).nodes(),
            ).summary(),
            *self is Resident ==> result is Ok && *final(db) == *old(db),
    {
        proof {
            lemma_read_root(*db, *self);
        }
        match self {
            Tree::Resident(node) => Ok(node.summary()),
            Tree::NonResident(node_id) => match db.get(*node_id) {
                Ok(node) => Ok(node.summary()),
                Err(error) => Err(error),
            },
        }
    }

    /// The children of the root. Only an internal node has them.
    fn child_trees<'a, S: NodeStore<T>>(&'a self, db: &'a mut S) -> (result: Result<
        &'a Trees<T>,
        S::ReadError,
    >)
        requires
            self.at(old(db).nodes()) is Internal,
        ensures
            read_in_order(*old(db), *final(db), id_of(*self), result),
            result matches Ok(child_trees) ==> !self.dangling(old(db).nodes()) && child_trees@
                == self.at(old(db).nodes())->child_trees,
            *self is Resident ==> result is Ok && *final(db) == *old(db),
    {
        proof {
            lemma_read_root(*db, *self);
        }
        match self {
            Tree::Resident(node) => Ok(node.child_trees()),
            Tree::NonResident(node_id) => match db.get(*node_id) {
                Ok(node) => Ok(node.child_trees()),
                Err(error) => Err(error),
            },
        }
    }

    /// The root, to be changed. It is brought into memory for that.
    fn make_mut_node<S: NodeStore<T>>(&mut self, db: &mut S) -> (result: Result<
        &mut Node<T>,
        S::ReadError,
    >)
        ensures
            read_in_order(*old(db), *final(db), id_of(*old(self)), result),
            result matches Ok(node) ==> {
                &&& !old(self).dangling(old(db).nodes())
                &&& node@ == old(self).at(old(db).nodes())
                &&& *final(self) matches Tree::Resident(new_node)
                &&& *new_node == *final(node)
            },
            result is Err ==> *final(self) == *old(self),
            *old(self) is Resident ==> result is Ok && *final(db) == *old(db),
    {
        proof {
            lemma_read_root(*db, *self);
        }
        if let Tree::NonResident(node_id) = self {
            match db.get(*node_id) {
                Ok(node) => {
                    *self = Tree::Resident(Arc::new(node.clone()));
                },
                Err(error) => {
                    return Err(error);
                },
            }
        }
        match self {
            Tree::Resident(node) => Ok(make_mut(node)),
            Tree::NonResident(_) => vstd::pervasive::unreached(),
        }
    }
}

impl<T: Item> Tree<T> {
    /// Joins a tree that is not higher to the end of this one. If that makes too
    /// many children or items for the root, the last of them are returned in a
    /// tree of the same height.
    #[verifier::rlimit(60)]
    fn push_tree_recursive<S: NodeStore<T>>(&mut self, other: Tree<T>, db: &mut S) -> (result:
        Result<Option<Tree<T>>, S::ReadError>)
        requires
            old(self).wf(old(db).nodes()),
            other.wf(old(db).nodes()),
            !other.slim(old(db).nodes()),
            !old(self).dangling(old(db).nodes()) && !other.dangling(old(db).nodes()) ==> {
                &&& other.at(old(db).nodes()).height() <= old(self).at(old(db).nodes()).height()
                &&& T::Summary::fits(
                    total(old(self).content(old(db).nodes()) + other.content(old(db).nodes())),
                )
            },
        ensures
            read_in_order(
                *old(db),
                *final(db),
                merge_ids(
                    old(db).nodes(),
                    *old(self),
                    other,
                    old(self).at(old(db).nodes()).height(),
                ),
                result,
            ),
            old(self).dangling(old(db).nodes()) ==> result is Err && *final(self) == *old(self),
            other.dangling(old(db).nodes()) ==> result is Err,
            result matches Ok(split) ==> {
                let nodes = old(db).nodes();
                let height = old(self).at(nodes).height();
                &&& joined(nodes, *old(self), other, *final(self), split, height)
                &&& grown(nodes, *old(self), other, *final(self), split, height)
            },
            result is Err ==> {
                let nodes = old(db).nodes();
                let height = old(self).at(nodes).height();
                &&& kept(nodes, *old(self), *final(self), height)
                &&& broken_off(
                    nodes,
                    *old(self),
                    other,
                    *final(self),
                    height,
                    ids_read(*old(db), *final(db)),
                )
            },
            old(self).end_in_memory(old(db).nodes()) && other.in_memory() ==> result is Ok,
            other.in_memory() ==> (result matches Ok(split) ==> last_way_in_memory(
                old(db).nodes(),
                last_of(*final(self), split),
                old(self).at(old(db).nodes()).height(),
            )),
            old(self).in_memory() && other.in_memory() ==> {
                &&& result matches Ok(split)
                &&& joined_in_memory(
                    *final(self),
                    split,
                    old(self).at(old(db).nodes()).height(),
                )
            },
        decreases old(self).depth(old(db).nodes()),
    {
        let ghost nodes = db.nodes();
        let ghost start = *db;
        let ghost old_tree = *self;
        let ghost h = self.at(nodes).height();
        let ghost all_items = self.content(nodes) + other.content(nodes);
        let ghost all_resident = self.in_memory() && other.in_memory();
        let ghost end_resident = self.end_in_memory(nodes);
        let ghost other_resident = other.in_memory();
        proof {
            if other_resident {
                lemma_end_in_memory(nodes, other, other.at(nodes).height());
            }
            lemma_sound_is_shaped(nodes, *self, h, true);
            if !self.dangling(nodes) && !other.dangling(nodes) {
                lemma_summary_is_total(nodes, self.at(nodes), h, true);
                lemma_summary_is_total(nodes, other.at(nodes), other.at(nodes).height(), true);
                lemma_total_concat(self.content(nodes), other.content(nodes));
            }
        }
        let node = match self.make_mut_node(db) {
            Ok(node) => node,
            Err(error) => {
                proof {
                    lemma_merge_not_begun(start, *db, old_tree, other, h, error);
                }
                return Err(error);
            },
        };
        let ghost between = *db;
        match node {
            Node::Internal { height, summary, child_summaries, child_trees } => {
                let ghost below = (h - 1) as nat;
                let ghost trees = child_trees@;
                let ghost summaries = values_of(child_summaries@);
                proof {
                    if all_resident {
                        assert(below_in_memory(old_tree.at(nodes), h));
                        assert(trees_in_memory(trees, below));
                    }
                }
                let ghost mut last = old_tree;
                let ghost mut last_split: Option<Tree<T>> = None;
                let height_delta: u8;
                let other_is_underflowing: bool;
                let mut summaries_to_append: Inline<T::Summary, NODE_CAPACITY> = Inline::new();
                let mut trees_to_append: Trees<T> = Trees::new();
                {
                    let other_node = match other.node(db) {
                        Ok(node) => node,
                        Err(error) => {
                            proof {
                                lemma_merge_begun(
                                    start,
                                    between,
                                    *db,
                                    old_tree,
                                    other,
                                    h,
                                    Err(error),
                                );
                            }
                            return Err(error);
                        },
                    };
                    summary.add_assign(other_node.summary());
                    height_delta = *height - other_node.height();
                    other_is_underflowing = other_node.is_underflowing();
                    if height_delta == 0 {
                        summaries_to_append = clone_summaries(other_node.child_summaries());
                        trees_to_append = other_node.child_trees().clone();
                        assert(trees_to_append@ =~= other_node@->child_trees);
                        proof {
                            lemma_join_children(nodes, trees, summaries, other, below);
                        }
                    } else if height_delta == 1 && !other_is_underflowing {
                        summaries_to_append.push(clone_summary(other_node.summary()));
                        proof {
                            lemma_join_child(nodes, trees, summaries, other, below);
                            assert(values_of(summaries_to_append@) =~= seq![
                                other.at(nodes).summary(),
                            ]);
                        }
                    }
                }
                let ghost here = *db;
                proof {
                    lemma_merge_begun(start, between, here, old_tree, other, h, Ok(()));
                }
                if height_delta > 1 || other_is_underflowing {
                    let ghost last_child = trees.last();
                    proof {
                        assert(trees[trees.len() - 1] == last_child);
                        lemma_sound_as_root(nodes, last_child, below, Rigor::Summed);
                        assert(all_resident ==> last_child.in_memory());
                        if end_resident {
                            assert(last_way_in_memory(nodes, last_child, below));
                            assert(last_child.at(nodes).height() == below);
                        }
                        lemma_items_of_all_split(nodes, trees, summaries, trees.len() - 1, below);
                        assert(trees.skip(trees.len() as int) =~= Seq::<Tree<T>>::empty());
                        let part = items_of(nodes, last_child, summaries.last(), below)
                            + other.content(nodes);
                        lemma_total_part_fits(
                            all_items,
                            all_items.len() - part.len(),
                            all_items.len() as int,
                        );
                        assert(all_items.subrange(
                            all_items.len() - part.len(),
                            all_items.len() as int,
                        ) =~= part);
                    }
                    let last_tree = match child_trees.as_mut_slice().last_mut() {
                        Some(tree) => tree,
                        None => vstd::pervasive::unreached(),
                    };
                    let ghost ids = id_of(old_tree) + id_of(other);
                    let ghost more = merge_ids(nodes, last_child, other, below);
                    let split = match last_tree.push_tree_recursive(other, db) {
                        Ok(split) => {
                            proof {
                                let result = Ok::<(), S::ReadError>(());
                                lemma_read_on(start, here, *db, ids, more, result);
                            }
                            split
                        },
                        Err(error) => {
                            proof {
                                let result = Err::<(), S::ReadError>(error);
                                lemma_read_on(start, here, *db, ids, more, result);
                                assert(child_trees@ =~= trees.update(
                                    trees.len() - 1,
                                    *last_tree,
                                ));
                                lemma_children_are_shaped(nodes, trees, summaries, below);
                                lemma_last_child_kept(
                                    nodes,
                                    trees,
                                    summaries,
                                    *last_tree,
                                    below,
                                );
                                lemma_broken_off_below(
                                    nodes,
                                    old_tree,
                                    other,
                                    *self,
                                    *last_tree,
                                    h,
                                    ids_read(here, *db),
                                );
                            }
                            return Err(error);
                        },
                    };
                    proof {
                        last = *last_tree;
                        last_split = split;
                    }
                    let last_summary = match last_tree.summary(db) {
                        Ok(summary) => clone_summary(summary),
                        Err(_) => vstd::pervasive::unreached(),
                    };
                    proof {
                        lemma_join_last_child(
                            nodes,
                            trees,
                            summaries,
                            other,
                            *last_tree,
                            split,
                            below,
                        );
                    }
                    match child_summaries.as_mut_slice().last_mut() {
                        Some(summary) => {
                            *summary = last_summary;
                        },
                        None => vstd::pervasive::unreached(),
                    }
                    if let Some(split_tree) = split {
                        match split_tree.summary(db) {
                            Ok(summary) => summaries_to_append.push(clone_summary(summary)),
                            Err(_) => vstd::pervasive::unreached(),
                        }
                        trees_to_append.push(split_tree);
                        proof {
                            assert(trees_to_append@ =~= seq![split_tree]);
                            assert(values_of(summaries_to_append@) =~= seq![
                                split_tree.at(nodes).summary(),
                            ]);
                        }
                    }
                    proof {
                        assert(child_trees@ =~= trees.update(trees.len() - 1, *last_tree));
                        assert(values_of(child_summaries@) =~= summaries.update(
                            trees.len() - 1,
                            last_summary@,
                        ));
                    }
                } else if height_delta == 1 {
                    trees_to_append.push(other);
                    assert(trees_to_append@ =~= seq![other]);
                }
                let ghost all = child_trees@ + trees_to_append@;
                let ghost all_summaries = values_of(child_summaries@) + values_of(
                    summaries_to_append@,
                );
                proof {
                    if height_delta > 1 || other_is_underflowing {
                        assert(all =~= last_replaced(trees, last, last_split));
                        assert(all_summaries =~= last_summary_replaced(
                            nodes,
                            summaries,
                            last,
                            last_split,
                        ));
                    }
                    assert(sound_children(nodes, all, all_summaries, below, Rigor::Summed));
                    assert(items_of_all(nodes, all, all_summaries, below) == all_items);
                    assert(all_resident ==> trees_in_memory(all, below));
                    if other_resident {
                        if height_delta == 0 {
                            assert(all.last() == other.at(nodes)->child_trees.last());
                        } else if height_delta == 1 && !other_is_underflowing {
                            assert(all.last() == other);
                        } else {
                            assert(all.last() == last_of(last, last_split));
                        }
                        assert(last_way_in_memory(nodes, all.last(), below));
                    }
                    lemma_summaries_add_up(nodes, all, all_summaries, below);
                }
                let split = append_children(
                    *height,
                    summary,
                    child_summaries,
                    child_trees,
                    summaries_to_append,
                    trees_to_append,
                );
                proof {
                    lemma_children_joined(
                        nodes,
                        old_tree,
                        other,
                        all,
                        all_summaries,
                        *self,
                        split,
                        below,
                    );
                    assert(grown(nodes, old_tree, other, *self, split, h));
                    if other_resident {
                        lemma_placed_end_in_memory(
                            nodes,
                            below,
                            all,
                            all_summaries,
                            *self,
                            split,
                        );
                    }
                }
                Ok(split)
            },
            Node::Leaf { summary, items } => {
                let other_node = match other.node(db) {
                    Ok(node) => node,
                    Err(error) => {
                        proof {
                            lemma_merge_begun(
                                start,
                                between,
                                *db,
                                old_tree,
                                other,
                                h,
                                Err(error),
                            );
                        }
                        return Err(error);
                    },
                };
                let split = append_items(summary, items, other_node);
                proof {
                    lemma_merge_begun(start, between, *db, old_tree, other, h, Ok(()));
                    lemma_items_joined(nodes, old_tree, other, *self, split);
                    assert(grown(nodes, old_tree, other, *self, split, h));
                }
                Ok(split)
            },
        }
    }
}

impl<T: Item> Tree<T> {
    /// Whether `other` can be joined to the end of this tree, as far as both can be found.
    pub open spec fn can_take(self, other: Tree<T>, nodes: Nodes<T>) -> bool {
        self.dangling(nodes) || joinable(
            nodes,
            self.at(nodes).height(),
            other,
            other.at(nodes).height(),
        )
    }

    /// Whether what this tree and another one show can be summed up, and is less than no
    /// tree can hold.
    pub open spec fn has_room_for(self, other: Tree<T>, nodes: Nodes<T>) -> bool {
        let all = self.content(nodes) + other.content(nodes);
        T::Summary::fits(total(all)) && weight(all) < item_limit()
    }

    /// A tree over a list of trees, which become the children of its root.
    fn from_child_trees<S: NodeStore<T>>(child_trees: Vec<Tree<T>>, db: &mut S) -> (result: Result<
        Self,
        S::ReadError,
    >)
        requires
            child_trees@.len() > 0,
            !child_trees@[0].dangling(old(db).nodes()) ==> child_trees@[0].at(
                old(db).nodes(),
            ).height() < u8::MAX,
            (forall|i: int|
                0 <= i < child_trees@.len() ==> !(#[trigger] child_trees@[i]).dangling(
                    old(db).nodes(),
                )) ==> T::Summary::fits(
                total_of::<T::Summary>(root_summaries(old(db).nodes(), child_trees@)),
            ),
        ensures
            read_in_order(
                *old(db),
                *final(db),
                id_of(child_trees@[0]) + ids_of(child_trees@),
                result,
            ),
            result matches Ok(tree) ==> {
                &&& forall|i: int|
                    0 <= i < child_trees@.len() ==> !(#[trigger] child_trees@[i]).dangling(
                        old(db).nodes(),
                    )
                &&& tree is Resident
                &&& tree.at(old(db).nodes()) == node_over(
                    old(db).nodes(),
                    child_trees@,
                    child_trees@[0].at(old(db).nodes()).height(),
                )
            },
            (forall|i: int| 0 <= i < child_trees@.len() ==> child_trees@[i] is Resident)
                ==> result is Ok,
    {
        let ghost nodes = db.nodes();
        let ghost start = *db;
        let ghost mut ids = id_of(child_trees@[0]);
        let height = match child_trees[0].height(db) {
            Ok(height) => height + 1,
            Err(error) => {
                proof {
                    lemma_read_begun(
                        start,
                        *db,
                        ids,
                        ids_of(child_trees@),
                        Err::<(), S::ReadError>(error),
                    );
                }
                return Err(error);
            },
        };
        let mut child_summaries: Inline<T::Summary, NODE_CAPACITY> = Inline::new();
        let mut i: usize = 0;
        assert(ids + ids_of(child_trees@.take(0)) =~= ids);
        while i < child_trees.len()
            invariant
                i <= child_trees@.len(),
                db.nodes() == nodes,
                db.failures() == old(db).failures(),
                nodes == old(db).nodes(),
                start == *old(db),
                child_trees@.len() > 0,
                ids == id_of(child_trees@[0]) + ids_of(child_trees@.take(i as int)),
                has_read(start, *db, ids),
                forall|j: int|
                    0 <= j < i ==> !(#[trigger] child_trees@[j]).dangling(nodes),
                values_of(child_summaries@) =~= root_summaries(nodes, child_trees@.take(i as int)),
            decreases child_trees@.len() - i,
        {
            let ghost before = child_summaries@;
            let ghost between = *db;
            let ghost id = id_of(child_trees@[i as int]);
            match child_trees[i].summary(db) {
                Ok(summary) => child_summaries.push(clone_summary(summary)),
                Err(error) => {
                    proof {
                        let result = Err::<(), S::ReadError>(error);
                        lemma_read_on(start, between, *db, ids, id, result);
                        lemma_ids_of_split(child_trees@, i as int);
                        let rest = ids_of(child_trees@.skip(i + 1));
                        assert(ids + id + rest =~= id_of(child_trees@[0]) + ids_of(child_trees@));
                        lemma_read_begun(start, *db, ids + id, rest, result);
                    }
                    return Err(error);
                },
            }
            proof {
                lemma_read_on(start, between, *db, ids, id, Ok::<(), S::ReadError>(()));
                assert(child_trees@.take(i + 1).drop_last() =~= child_trees@.take(i as int));
                ids = ids + id;
                assert(ids =~= id_of(child_trees@[0]) + ids_of(child_trees@.take(i + 1)));
                assert(values_of(child_summaries@) =~= values_of(before).push(
                    child_summaries@.last()@,
                ));
                assert(child_trees@.take(i + 1) =~= child_trees@.take(i as int).push(
                    child_trees@[i as int],
                ));
                assert(root_summaries(nodes, child_trees@.take(i + 1)) =~= root_summaries(
                    nodes,
                    child_trees@.take(i as int),
                ).push(child_trees@[i as int].at(nodes).summary()));
            }
            i = i + 1;
        }
        assert(child_trees@.take(i as int) =~= child_trees@);
        let summary = sum_slice(child_summaries.as_slice());
        Ok(
            Tree::Resident(
                Arc::new(
                    Node::Internal {
                        height,
                        summary,
                        child_summaries,
                        child_trees: Trees::from_vec(child_trees),
                    },
                ),
            ),
        )
    }

    /// Joins a tree that is not higher to the end of this one.
    #[verifier::rlimit(40)]
    fn push_lower<S: NodeStore<T>>(&mut self, other: Self, db: &mut S) -> (result: Result<
        (),
        S::ReadError,
    >)
        requires
            old(self).wf(old(db).nodes()),
            other.wf(old(db).nodes()),
            !old(self).dangling(old(db).nodes()),
            !other.dangling(old(db).nodes()),
            !other.slim(old(db).nodes()),
            other.at(old(db).nodes()).height() <= old(self).at(old(db).nodes()).height(),
            old(self).has_room_for(other, old(db).nodes()),
        ensures
            read_in_order(
                *old(db),
                *final(db),
                merge_ids(
                    old(db).nodes(),
                    *old(self),
                    other,
                    old(self).at(old(db).nodes()).height(),
                ),
                result,
            ),
            result is Ok ==> {
                &&& fully_joined(old(db).nodes(), *old(self), other, *final(self))
                &&& merged(old(db).nodes(), *old(self), other, *final(self))
            },
            result is Err ==> {
                &&& partly_joined(old(db).nodes(), *old(self), other, *final(self))
                &&& broken_off(
                    old(db).nodes(),
                    *old(self),
                    other,
                    *final(self),
                    old(self).at(old(db).nodes()).height(),
                    ids_read(*old(db), *final(db)),
                )
            },
            old(self).end_in_memory(old(db).nodes()) && other.in_memory() ==> result is Ok,
            result is Ok && other.in_memory() ==> final(self).end_in_memory(old(db).nodes()),
            old(self).in_memory() && other.in_memory() ==> result is Ok
                && final(self).in_memory(),
    {
        let ghost nodes = db.nodes();
        let ghost old_tree = *self;
        let ghost height = self.at(nodes).height();
        proof {
            lemma_total_fits(nodes, *self);
            lemma_sound_is_shaped(nodes, *self, height, true);
            lemma_grows_by_nothing(self.content(nodes), other.content(nodes));
        }
        let split = match self.push_tree_recursive(other, db) {
            Ok(split) => split,
            Err(error) => {
                proof {
                    lemma_sound_is_shaped(nodes, *self, height, true);
                }
                return Err(error);
            },
        };
        let ghost left = *self;
        if let Some(split_tree) = split {
            let children = vec![self.clone(), split_tree];
            let ghost between = *db;
            proof {
                lemma_ids_of_two(*self, split_tree);
                lemma_two_children(nodes, *self, split_tree, height);
                assert(children@ =~= seq![*self, split_tree]);
                lemma_weight_concat(old_tree.content(nodes), other.content(nodes));
                lemma_height_limit(nodes, old_tree.at(nodes), height);
            }
            *self = match Self::from_child_trees(children, db) {
                Ok(tree) => tree,
                Err(_) => vstd::pervasive::unreached(),
            };
            assert(db.reads() =~= between.reads());
        }
        assert(grown(nodes, old_tree, other, left, split, height));
        Ok(())
    }

    /// Joins the children of a higher tree to the end of this one, one by one.
    fn push_children<S: NodeStore<T>>(&mut self, other: &Self, trees: &Trees<T>, db: &mut S) -> (
    result: Result<(), S::ReadError>)
        requires
            joins_children(old(db).nodes(), *old(self), *other),
            trees@ == other.at(old(db).nodes())->child_trees,
        ensures
            only_read(*old(db), *final(db), result),
            has_read(*old(db), *final(db), ids_read(*old(db), *final(db))),
            result is Ok ==> {
                &&& fully_joined(old(db).nodes(), *old(self), *other, *final(self))
                &&& pushed_all(
                    old(db).nodes(),
                    *old(self),
                    trees@,
                    *final(self),
                    (other.at(old(db).nodes()).height() - 1) as nat,
                    ids_read(*old(db), *final(db)),
                )
            },
            result is Err ==> {
                &&& partly_joined(old(db).nodes(), *old(self), *other, *final(self))
                &&& children_cut_short(
                    old(db).nodes(),
                    *old(self),
                    *other,
                    *final(self),
                    (other.at(old(db).nodes()).height() - 1) as nat,
                    ids_read(*old(db), *final(db)),
                )
            },
            result is Err ==> forall|k: int|
                #[trigger] is_free_up_to(old(db).nodes(), *old(self), *other, k) ==> (old(
                    self,
                ).content(old(db).nodes()) + first_children(
                    old(db).nodes(),
                    *other,
                    k,
                )).is_prefix_of(final(self).content(old(db).nodes())),
            forall|k: int|
                #[trigger] stops_at_child(old(db).nodes(), *old(self), *other, k) ==> result is Err
                    && joined_up_to(old(db).nodes(), *old(self), *other, k, *final(self)),
            old(self).end_in_memory(old(db).nodes()) && other.in_memory() ==> result is Ok
                && final(self).end_in_memory(old(db).nodes()),
            old(self).in_memory() && other.in_memory() ==> result is Ok
                && final(self).in_memory(),
        decreases other.depth(old(db).nodes()), 0nat,
    {
        let ghost nodes = db.nodes();
        let ghost start = *db;
        let ghost old_tree = *self;
        let ghost mut ids = Reads::empty();
        proof {
            lemma_joining_start(nodes, *self, *other);
            lemma_read_nothing(start);
        }
        let mut i: usize = 0;
        while i < trees.as_slice().len()
            invariant
                i <= trees@.len(),
                db.nodes() == nodes,
                db.failures() == old(db).failures(),
                nodes == old(db).nodes(),
                start == *old(db),
                has_read(start, *db, ids),
                old_tree == *old(self),
                trees@ == other.at(nodes)->child_trees,
                joins_children(nodes, old_tree, *other),
                joining(nodes, old_tree, *other, i as int, *self, ids),
            decreases trees@.len() - i,
        {
            let tree = trees.as_slice()[i].clone();
            let ghost before = *self;
            let ghost between = *db;
            proof {
                lemma_joining_ready(nodes, old_tree, *other, i as int, before, ids);
            }
            let result = self.push_tree(tree, db);
            let ghost more = ids_read(between, *db);
            proof {
                assert(db.reads() =~= start.reads() + (ids + more));
            }
            match result {
                Ok(()) => {
                    proof {
                        lemma_joining_next(
                            nodes,
                            old_tree,
                            *other,
                            i as int,
                            before,
                            *self,
                            ids,
                            more,
                        );
                        ids = ids + more;
                    }
                },
                Err(error) => {
                    proof {
                        lemma_ids_read(start, *db, ids + more);
                        lemma_joining_stopped(
                            nodes,
                            old_tree,
                            *other,
                            i as int,
                            before,
                            *self,
                            ids,
                            more,
                        );
                    }
                    return Err(error);
                },
            }
            i = i + 1;
        }
        proof {
            lemma_ids_read(start, *db, ids);
            lemma_joining_end(nodes, old_tree, *other, *self, ids);
        }
        Ok(())
    }

    /// Joins a tree to the end of this one.
    ///
    /// If a node cannot be read, this tree still has its items. Of a tree that is higher, the
    /// children in front of the one where that happened are joined, and of that child the
    /// same is true. The summaries in this tree may be out of step with its items.
    pub fn push_tree<S: NodeStore<T>>(&mut self, other: Self, db: &mut S) -> (result: Result<
        (),
        S::ReadError,
    >)
        requires
            old(self).wf(old(db).nodes()),
            old(self).can_take(other, old(db).nodes()),
            !old(self).dangling(old(db).nodes()) && !other.dangling(old(db).nodes())
                ==> old(self).has_room_for(other, old(db).nodes()),
        ensures
            only_read(*old(db), *final(db), result),
            has_read(*old(db), *final(db), ids_read(*old(db), *final(db))),
            old(self).dangling(old(db).nodes()) || other.dangling(old(db).nodes())
                ==> result is Err && *final(self) == *old(self),
            other.dangling(old(db).nodes()) ==> ids_read(*old(db), *final(db)) == id_of(other),
            old(self).dangling(old(db).nodes()) ==> ids_read(*old(db), *final(db)).is_prefix_of(
                id_of(other) + id_of(*old(self)),
            ),
            result is Ok ==> {
                &&& fully_joined(old(db).nodes(), *old(self), other, *final(self))
                &&& pushed(
                    old(db).nodes(),
                    *old(self),
                    other,
                    *final(self),
                    other.at(old(db).nodes()).height(),
                    ids_read(*old(db), *final(db)),
                )
            },
            result is Err ==> {
                &&& partly_joined(old(db).nodes(), *old(self), other, *final(self))
                &&& cut_short(
                    old(db).nodes(),
                    *old(self),
                    other,
                    *final(self),
                    other.at(old(db).nodes()).height(),
                    ids_read(*old(db), *final(db)),
                )
            },
            result is Err ==> forall|k: int|
                #[trigger] is_free_up_to(old(db).nodes(), *old(self), other, k) ==> (old(
                    self,
                ).content(old(db).nodes()) + first_children(
                    old(db).nodes(),
                    other,
                    k,
                )).is_prefix_of(final(self).content(old(db).nodes())),
            forall|k: int|
                #[trigger] stops_at_child(old(db).nodes(), *old(self), other, k) ==> result is Err
                    && joined_up_to(old(db).nodes(), *old(self), other, k, *final(self)),
            old(self).end_in_memory(old(db).nodes()) && other.in_memory() ==> result is Ok
                && final(self).end_in_memory(old(db).nodes()),
            result is Ok && other.in_memory() && !joined_by_children(
                old(db).nodes(),
                *old(self),
                other,
            ) ==> final(self).end_in_memory(old(db).nodes()),
            old(self).in_memory() && other.in_memory() ==> result is Ok
                && final(self).in_memory(),
        decreases other.depth(old(db).nodes()), 1nat,
    {
        let ghost nodes = db.nodes();
        let ghost start = *db;
        let ghost old_tree = *self;
        let ghost first = id_of(other);
        proof {
            lemma_nothing_joined(nodes, *self, other);
            assert forall|k: int|
                #[trigger] stops_at_child(nodes, *self, other, k) implies *self is Resident
                && other is Resident && self.at(nodes).height() < other.at(nodes).height() by {
                lemma_stops_at_child(nodes, *self, other, k, k);
            }
            assert forall|k: int|
                #[trigger] is_free_up_to(nodes, *self, other, k) implies *self is Resident
                && other is Resident && self.at(nodes).height() < other.at(nodes).height() by {
            }
        }
        let other_height = match other.height(db) {
            Ok(height) => height,
            Err(error) => {
                proof {
                    lemma_not_joined(nodes, *self, other, ids_read(start, *db));
                }
                return Err(error);
            },
        };
        let ghost between = *db;
        let ghost second = id_of(*self);
        let height = match self.height(db) {
            Ok(height) => height,
            Err(error) => {
                proof {
                    let result = Err::<(), S::ReadError>(error);
                    lemma_read_on(start, between, *db, first, second, result);
                    lemma_not_joined(nodes, *self, other, ids_read(start, *db));
                }
                return Err(error);
            },
        };
        let ghost ids = first + second;
        proof {
            lemma_read_on(start, between, *db, first, second, Ok::<(), S::ReadError>(()));
        }
        let ghost between = *db;
        if height < other_height {
            proof {
                lemma_child_joinable(nodes, height as nat, other, other_height as nat);
            }
            let trees = match other.child_trees(db) {
                Ok(trees) => trees.clone(),
                Err(error) => {
                    proof {
                        let result = Err::<(), S::ReadError>(error);
                        lemma_read_on(start, between, *db, ids, first, result);
                    }
                    return Err(error);
                },
            };
            proof {
                lemma_read_on(start, between, *db, ids, first, Ok::<(), S::ReadError>(()));
                assert(trees@ =~= other.at(nodes)->child_trees);
            }
            let ghost between = *db;
            let result = self.push_children(&other, &trees, db);
            proof {
                let all = ids + first;
                let more = ids_read(between, *db);
                assert(db.reads() =~= start.reads() + (all + more));
                lemma_ids_read(start, *db, all + more);
                assert((all + more).skip(all.len() as int) =~= more);
                assert((all + more).subrange(0, all.len() as int) =~= all);
                if result is Err {
                    lemma_cut_short_after_all(nodes, old_tree, other, *self, all, more);
                }
            }
            result
        } else {
            proof {
                lemma_joinable_low(nodes, height as nat, other, other_height as nat);
            }
            let result = self.push_lower(other, db);
            proof {
                let more = merge_ids(nodes, old_tree, other, height as nat);
                lemma_read_on(start, between, *db, ids, more, result);
                if result is Ok {
                    lemma_ids_read(start, *db, ids + more);
                } else {
                    let read = ids_read(between, *db);
                    assert((ids + read).skip(ids.len() as int) =~= read);
                }
            }
            result
        }
    }
}

impl<T: Item> Tree<T> {
    /// Adds an item at the end. The root of the tree has to be a leaf.
    ///
    /// If the root cannot be read, this tree is left as it is.
    pub fn push<S: NodeStore<T>>(&mut self, item: T, db: &mut S) -> (result: Result<
        (),
        S::ReadError,
    >)
        requires
            old(self).wf(old(db).nodes()),
            !old(self).dangling(old(db).nodes()) ==> old(self).at(old(db).nodes()) is Leaf,
            T::Summary::fits(
                total(old(self).content(old(db).nodes()).push(Piece::Item(item))),
            ),
        ensures
            read_in_order(
                *old(db),
                *final(db),
                id_of(*old(self)) + id_of(*old(self)) + id_of(*old(self)),
                result,
            ),
            old(self).dangling(old(db).nodes()) ==> result is Err,
            result is Err ==> *final(self) == *old(self),
            result is Ok ==> {
                let nodes = old(db).nodes();
                &&& final(self).wf(nodes)
                &&& *final(self) is Resident
                &&& final(self).content(nodes) == old(self).content(nodes).push(
                    Piece::Item(item),
                )
                &&& extended(
                    nodes,
                    *old(self),
                    seq![item],
                    *final(self),
                    id_of(*old(self)) + id_of(*old(self)),
                )
                &&& !final(self).slim(nodes)
                &&& final(self).content(nodes).len() <= NODE_CAPACITY ==> final(self).at(
                    nodes,
                ) is Leaf
            },
            old(self).end_in_memory(old(db).nodes()) ==> result is Ok
                && final(self).end_in_memory(old(db).nodes()),
            old(self).in_memory() ==> result is Ok && final(self).in_memory(),
    {
        let ghost nodes = db.nodes();
        let ghost start = *db;
        let ghost old_tree = *self;
        let ghost items = self.content(nodes);
        let ghost one = known(seq![item]);
        let summary = item.summarize();
        let leaf = Tree::Resident(
            Arc::new(Node::Leaf { summary, items: Inline::from_vec(vec![item]) }),
        );
        proof {
            assert(one =~= seq![Piece::Item(item)]);
            lemma_total_one(Piece::Item(item));
            assert(leaf.at(nodes)->items =~= seq![item]);
            assert(items.push(Piece::Item(item)) =~= items + one);
            let n = items.len() as int;
            lemma_total_part_fits(items + one, n, n + 1);
            assert((items + one).subrange(n, n + 1) =~= one);
            assert(root_summaries(nodes, seq![leaf]) =~= seq![summary@]);
            lemma_total_of_one::<T::Summary>(summary@);
        }
        let children = vec![leaf];
        proof {
            assert(children@ =~= seq![leaf]);
            lemma_ids_of_split(seq![leaf], 0);
        }
        let other = match Self::from_child_trees(children, db) {
            Ok(tree) => tree,
            Err(error) => {
                return Err(error);
            },
        };
        proof {
            lemma_items_of_all_one(nodes, leaf, summary@, 0);
            assert(other.content(nodes) == one);
            assert(seq![leaf][0] == leaf);
            assert(joinable(nodes, 0, leaf, 0));
            assert(trees_in_memory(seq![leaf], 0));
            lemma_item_limit();
            lemma_weight_known(seq![item]);
            lemma_weight_concat(items, one);
            if !self.dangling(nodes) {
                lemma_weight_known(self.at(nodes)->items);
            }
        }
        assert(db.reads() =~= start.reads());
        let result = self.push_tree(other, db);
        proof {
            let ids = ids_read(start, *db);
            if result is Ok {
                lemma_pushed_one(nodes, old_tree, leaf, other, *self, seq![item], ids);
            } else if old_tree.dangling(nodes) {
                let all = id_of(old_tree) + id_of(old_tree) + id_of(old_tree);
                assert(ids =~= all.subrange(0, ids.len() as int));
            } else {
                lemma_one_cut_short(nodes, old_tree, leaf, other, *self, ids);
            }
        }
        result
    }

    /// Joins a leaf to the end of this tree.
    fn push_leaf<S: NodeStore<T>>(&mut self, leaf: Tree<T>, db: &mut S) -> (result: Result<
        (),
        S::ReadError,
    >)
        requires
            old(self).wf(old(db).nodes()),
            leaf is Resident,
            leaf.at(old(db).nodes()) is Leaf,
            leaf.at(old(db).nodes()) == leaf_of(leaf.at(old(db).nodes())->items),
            0 < leaf.at(old(db).nodes()).len() <= NODE_CAPACITY,
            ({
                let all = old(self).content(old(db).nodes()) + leaf.content(old(db).nodes());
                T::Summary::fits(total(all)) && weight(all) < item_limit()
            }),
        ensures
            only_read(*old(db), *final(db), result),
            has_read(*old(db), *final(db), ids_read(*old(db), *final(db))),
            old(self).dangling(old(db).nodes()) ==> result is Err && *final(self) == *old(self),
            result is Ok ==> {
                let nodes = old(db).nodes();
                &&& final(self).wf(nodes)
                &&& *final(self) is Resident
                &&& final(self).content(nodes) == old(self).content(nodes) + leaf.content(nodes)
                &&& pushed(
                    nodes,
                    *old(self),
                    leaf,
                    *final(self),
                    0,
                    ids_read(*old(db), *final(db)),
                )
                &&& final(self).slim(nodes) ==> old(self).slim(nodes)
                &&& old(self).at(nodes) is Leaf && final(self).content(nodes).len()
                    <= NODE_CAPACITY ==> final(self).at(nodes) is Leaf
            },
            result is Err ==> {
                let nodes = old(db).nodes();
                &&& final(self).shaped(nodes)
                &&& *old(self) is Resident ==> *final(self) is Resident
                &&& !old(self).dangling(nodes) ==> final(self).can_be_walked(nodes)
                &&& cut_short(
                    nodes,
                    *old(self),
                    leaf,
                    *final(self),
                    0,
                    ids_read(*old(db), *final(db)),
                )
                &&& final(self).content(nodes) == old(self).content(nodes)
            },
            result is Ok && old(self).at(old(db).nodes()) is Internal && leaf.at(
                old(db).nodes(),
            ).len() >= TREE_BASE ==> {
                let nodes = old(db).nodes();
                end_at(nodes, *final(self), final(self).at(nodes).height(), 0) == leaf
            },
            result is Ok ==> final(self).at(old(db).nodes()).height() >= old(self).at(
                old(db).nodes(),
            ).height(),
            old(self).end_in_memory(old(db).nodes()) ==> result is Ok,
            result is Ok ==> final(self).end_in_memory(old(db).nodes()),
            old(self).in_memory() ==> result is Ok && final(self).in_memory(),
    {
        let ghost nodes = db.nodes();
        assert(joinable(nodes, self.at(nodes).height(), leaf, 0));
        let ghost old_tree = *self;
        let result = self.push_tree(leaf.clone(), db);
        proof {
            if result is Ok && old_tree.at(nodes) is Internal && leaf.at(nodes).len()
                >= TREE_BASE {
                law_lower_tree_is_joined_as_it_is(nodes, old_tree, leaf, *self);
            }
        }
        result
    }

    /// Adds items at the end.
    ///
    /// If a node cannot be read, which can only happen before the first of the new items is
    /// added, this tree still has its items, but the summaries in it may be out of step with
    /// them.
    #[verifier::rlimit(40)]
    pub fn extend<I, S>(&mut self, iter: I, db: &mut S) -> (result: Result<(), S::ReadError>)
        where
            I: Iterator<Item = T>,
            S: NodeStore<T>,
        requires
            old(self).wf(old(db).nodes()),
            yields(iter),
            T::Summary::fits(total(old(self).content(old(db).nodes()) + known(iter.remaining()))),
            weight(old(self).content(old(db).nodes())) + iter.remaining().len() < item_limit(),
        ensures
            only_read(*old(db), *final(db), result),
            has_read(*old(db), *final(db), ids_read(*old(db), *final(db))),
            iter.remaining().len() == 0 ==> result is Ok && *final(self) == *old(self)
                && *final(db) == *old(db),
            iter.remaining().len() > 0 && old(self).dangling(old(db).nodes()) ==> result is Err
                && *final(self) == *old(self),
            result is Ok ==> {
                let nodes = old(db).nodes();
                &&& final(self).wf(nodes)
                &&& final(self).content(nodes) == old(self).content(nodes) + known(
                    iter.remaining(),
                )
                &&& iter.remaining().len() > 0 ==> *final(self) is Resident
                &&& extended(
                    nodes,
                    *old(self),
                    iter.remaining(),
                    *final(self),
                    ids_read(*old(db), *final(db)),
                )
                &&& final(self).slim(nodes) ==> old(self).slim(nodes)
                &&& old(self).at(nodes) is Leaf && final(self).content(nodes).len()
                    <= NODE_CAPACITY ==> final(self).at(nodes) is Leaf
            },
            result is Ok && old(self).at(old(db).nodes()) is Internal && iter.remaining().len()
                - leaf_start(iter.remaining().len()) >= TREE_BASE ==> {
                let nodes = old(db).nodes();
                let items = iter.remaining();
                let last = end_at(nodes, *final(self), final(self).at(nodes).height(), 0);
                last.at(nodes) == leaf_of(items.skip(leaf_start(items.len()) as int))
            },
            result is Err ==> {
                let nodes = old(db).nodes();
                &&& final(self).shaped(nodes)
                &&& *old(self) is Resident ==> *final(self) is Resident
                &&& !old(self).dangling(nodes) ==> final(self).can_be_walked(nodes)
                &&& final(self).content(nodes) == old(self).content(nodes)
                &&& extension_cut_short(
                    nodes,
                    *old(self),
                    iter.remaining(),
                    *final(self),
                    ids_read(*old(db), *final(db)),
                )
            },
            old(self).end_in_memory(old(db).nodes()) ==> result is Ok,
            result is Ok && iter.remaining().len() > 0 ==> final(self).end_in_memory(
                old(db).nodes(),
            ),
            old(self).in_memory() ==> result is Ok && final(self).in_memory(),
    {
        let ghost nodes = db.nodes();
        let ghost start = *db;
        let ghost mut ids = Reads::empty();
        let ghost old_tree = *self;
        let ghost all = self.content(nodes) + known(iter.remaining());
        let ghost mut done = Seq::<T>::empty();
        let mut rest = iter;
        let mut leaf: Option<Node<T>> = None;
        proof {
            lemma_weight_known(iter.remaining());
            lemma_weight_concat(self.content(nodes), known(iter.remaining()));
            assert(done + Seq::<T>::empty() + iter.remaining() =~= iter.remaining());
            assert(self.content(nodes) + known(done) =~= self.content(nodes));
            lemma_extended_by_nothing(nodes, *self);
            lemma_read_nothing(start);
        }
        loop
            invariant
                yields(rest),
                db.nodes() == nodes,
                db.failures() == old(db).failures(),
                nodes == old(db).nodes(),
                start == *old(db),
                has_read(start, *db, ids),
                old_tree == *old(self),
                all == old_tree.content(nodes) + known(iter.remaining()),
                T::Summary::fits(total(all)),
                weight(all) < item_limit(),
                self.wf(nodes),
                done.len() == 0 ==> *self == old_tree && *db == *old(db),
                done.len() > 0 ==> !old_tree.dangling(nodes) && *self is Resident,
                done.len() == 0 && leaf is None ==> rest.remaining() == iter.remaining(),
                self.slim(nodes) ==> old_tree.slim(nodes),
                old_tree.at(nodes) is Leaf && self.content(nodes).len() <= NODE_CAPACITY
                    ==> self.at(nodes) is Leaf,
                old_tree.in_memory() ==> self.in_memory(),
                old_tree.end_in_memory(nodes) || done.len() > 0 ==> self.end_in_memory(nodes),
                pending_leaf(leaf),
                fills_leaves(done.len()),
                old_tree.wf(nodes),
                extended(nodes, old_tree, done, *self, ids),
                self.at(nodes).height() >= old_tree.at(nodes).height(),
                old_tree.at(nodes) is Internal ==> self.at(nodes) is Internal,
                old_tree.at(nodes) is Internal && done.len() - leaf_start(done.len()) >= TREE_BASE
                    ==> end_at(nodes, *self, self.at(nodes).height(), 0).at(nodes) == leaf_of(
                    done.skip(leaf_start(done.len()) as int),
                ),
                iter.remaining() == done + pending_items(leaf) + rest.remaining(),
                self.content(nodes) == old_tree.content(nodes) + known(done),
            decreases rest.decrease()->0,
        {
            let ghost left = rest.remaining();
            let next = rest.next();
            let is_full = match &leaf {
                Some(node) => node.items().as_slice().len() == NODE_CAPACITY,
                None => false,
            };
            let ghost before = *self;
            let ghost leaf_items = pending_items(leaf);
            let ghost more = done + leaf_items;
            proof {
                lemma_runs(old_tree.content(nodes), iter.remaining(), done, leaf_items, left);
                if next is Some {
                    assert(left =~= seq![next->0] + rest.remaining());
                }
            }
            if is_full || next.is_none() {
                if let Some(node) = leaf.take() {
                    let full = Tree::Resident(Arc::new(node));
                    let ghost between = *db;
                    match self.push_leaf(full.clone(), db) {
                        Ok(()) => {
                            proof {
                                let more_ids = ids_read(between, *db);
                                lemma_extended_on(
                                    nodes,
                                    old_tree,
                                    done,
                                    before,
                                    full,
                                    leaf_items,
                                    *self,
                                    ids,
                                    more_ids,
                                );
                                lemma_leaf_start(done.len(), leaf_items.len());
                                assert(more.skip(done.len() as int) =~= leaf_items);
                                done = more;
                                assert(db.reads() =~= start.reads() + (ids + more_ids));
                                ids = ids + more_ids;
                            }
                        },
                        Err(error) => {
                            proof {
                                assert(done =~= Seq::<T>::empty());
                                assert(leaf_items =~= first_leaf(iter.remaining()));
                                assert(between == start && before == old_tree);
                            }
                            return Err(error);
                        },
                    }
                } else {
                    assert(more =~= done);
                }
                assert(done + pending_items(leaf) =~= more);
            }
            match next {
                Some(item) => {
                    let ghost longer = pending_items(leaf).push(item);
                    proof {
                        assert(done + longer =~= (done + pending_items(leaf)).push(item));
                        assert(iter.remaining() =~= done + longer + rest.remaining());
                        lemma_runs(
                            old_tree.content(nodes),
                            iter.remaining(),
                            done,
                            longer,
                            rest.remaining(),
                        );
                    }
                    leaf = Some(leaf_with(leaf, item));
                },
                None => {
                    proof {
                        assert(left.len() == 0);
                        lemma_ids_read(start, *db, ids);
                        assert(iter.remaining() =~= done);
                    }
                    return Ok(());
                },
            }
        }
    }

    /// How far the tree reaches.
    pub fn extent<D, S>(&self, db: &mut S) -> (result: Result<D, S::ReadError>)
        where
            S: NodeStore<T>,
            D: Dimension<Summary = T::Summary>,
        ensures
            read_in_order(*old(db), *final(db), id_of(*self), result),
            result matches Ok(extent) ==> {
                let nodes = old(db).nodes();
                &&& !self.dangling(nodes)
                &&& extent@ == D::measure(self.at(nodes).summary())
                &&& self.wf(nodes) ==> extent@ == D::measure(total(self.content(nodes)))
            },
            *self is Resident ==> result is Ok && *final(db) == *old(db),
    {
        proof {
            let nodes = db.nodes();
            if self.wf(nodes) && !self.dangling(nodes) {
                lemma_summary_is_total(nodes, self.at(nodes), self.at(nodes).height(), true);
            }
        }
        match self.node(db) {
            Ok(Node::Internal { summary, .. }) => Ok(D::from_summary(summary)),
            Ok(Node::Leaf { summary, .. }) => Ok(D::from_summary(summary)),
            Err(error) => Err(error),
        }
    }

    /// The last leaf.
    pub(crate) fn rightmost_leaf<S: NodeStore<T>>(&self, db: &mut S) -> (result: Result<
        Tree<T>,
        S::ReadError,
    >)
        requires
            self.linked(old(db).nodes()),
        ensures
            read_in_order(
                *old(db),
                *final(db),
                way_ids(
                    old(db).nodes(),
                    *self,
                    self.at(old(db).nodes()).height(),
                    self.content(old(db).nodes()).len() - 1,
                ),
                result,
            ),
            self.dangling(old(db).nodes()) ==> result is Err,
            result matches Ok(leaf) ==> {
                let nodes = old(db).nodes();
                &&& leaf == last_leaf(nodes, *self, self.at(nodes).height())
                &&& leaf == way_end(
                    nodes,
                    *self,
                    self.at(nodes).height(),
                    self.content(nodes).len() - 1,
                )
                &&& !leaf.dangling(nodes)
                &&& leaf.at(nodes) is Leaf
                &&& self.at(nodes).len() > 0 ==> leaf.at(nodes).len() > 0
                &&& leaf.content(nodes).is_suffix_of(self.content(nodes))
            },
            ({
                let nodes = old(db).nodes();
                let last = self.content(nodes).len() - 1;
                last >= 0 && way_in_memory(nodes, *self, self.at(nodes).height(), last) ==> (
                result matches Ok(leaf) && leaf is Resident)
            }),
            self.in_memory() ==> (result matches Ok(leaf) && leaf.in_memory()),
        decreases self.depth(old(db).nodes()),
    {
        let ghost nodes = db.nodes();
        let ghost start = *db;
        let ghost height = self.at(nodes).height();
        let ghost all = way_ids(nodes, *self, height, self.content(nodes).len() - 1);
        proof {
            lemma_begins_with(id_of(*self), all.skip(id_of(*self).len() as int));
            assert(all =~= id_of(*self) + all.skip(id_of(*self).len() as int));
        }
        let last_child = match self.node(db) {
            Ok(Node::Leaf { .. }) => {
                return Ok(self.clone());
            },
            Ok(Node::Internal { child_trees, .. }) => {
                let trees = child_trees.as_slice();
                trees[trees.len() - 1].clone()
            },
            Err(error) => {
                proof {
                    lemma_read_within(
                        start,
                        *db,
                        id_of(*self),
                        all,
                        Err::<(), S::ReadError>(error),
                    );
                }
                return Err(error);
            },
        };
        let ghost between = *db;
        proof {
            let below = (self.at(nodes).height() - 1) as nat;
            let trees = self.at(nodes)->child_trees;
            let summaries = self.at(nodes)->child_summaries;
            let n = trees.len() - 1;
            assert(last_child == trees[n]);
            lemma_sound_as_root(nodes, last_child, below, Rigor::Linked);
            lemma_items_of_all_split(nodes, trees, summaries, n, below);
            assert(trees.skip(n + 1) =~= Seq::<Tree<T>>::empty());
            let before = items_of_all(nodes, trees.take(n), summaries.take(n), below);
            lemma_least_items_of(nodes, last_child, summaries[n], below, Rigor::Linked);
            let shown = items_of(nodes, last_child, summaries[n], below);
            let last = self.content(nodes).len() - 1;
            assert(self.content(nodes) =~= before + shown);
            if way_in_memory(nodes, *self, below + 1, last) {
                assert(trees[n] == last_child);
                assert(way_in_memory(nodes, last_child, below, shown.len() - 1));
            }
            if !last_child.dangling(nodes) {
                assert(sound(nodes, last_child, below, false, Rigor::Linked));
                assert(self.content(nodes) =~= before + last_child.content(nodes));
            }
            if self.in_memory() {
                assert(trees_in_memory(trees, below));
            }
            lemma_way_into(nodes, *self, height, last, n);
        }
        let result = last_child.rightmost_leaf(db);
        proof {
            let rest = way_ids(
                nodes,
                last_child,
                last_child.at(nodes).height(),
                last_child.content(nodes).len() - 1,
            );
            assert(all == id_of(*self) + rest);
            lemma_read_on(start, between, *db, id_of(*self), rest, result);
            if result is Ok {
                let shown = last_child.content(nodes);
                let all = self.content(nodes);
                assert(all.subrange(all.len() - shown.len(), all.len() as int) =~= shown);
                lemma_suffix_of_suffix(result->Ok_0.content(nodes), shown, all);
            }
        }
        result
    }
}

/// What the first `k` children of a tree show.
pub open spec fn first_children<T: Item>(nodes: Nodes<T>, tree: Tree<T>, k: int) -> Seq<
    Piece<T>,
> {
    items_of_all(
        nodes,
        tree.at(nodes)->child_trees.take(k),
        tree.at(nodes)->child_summaries.take(k),
        (tree.at(nodes).height() - 1) as nat,
    )
}

/// Whether the children of `other` are joined to `tree` one by one.
pub open spec fn joined_by_children<T: Item>(
    nodes: Nodes<T>,
    tree: Tree<T>,
    other: Tree<T>,
) -> bool {
    tree.at(nodes).height() < other.at(nodes).height() && other.at(nodes) is Internal
}

/// Whether `other` is joined to `tree` child by child and its child at `k` is the first
/// that cannot be found, while all that is joined before is in memory.
pub open spec fn stops_at_child<T: Item>(
    nodes: Nodes<T>,
    tree: Tree<T>,
    other: Tree<T>,
    k: int,
) -> bool {
    &&& tree.in_memory()
    &&& other is Resident
    &&& joined_by_children(nodes, tree, other)
    &&& 0 <= k < other.at(nodes)->child_trees.len()
    &&& other.at(nodes)->child_trees[k].dangling(nodes)
    &&& forall|j: int| 0 <= j < k ==> (#[trigger] other.at(nodes)->child_trees[j]).in_memory()
}

/// Whether `other` is joined to `tree` child by child, and `tree` and the first `k` children
/// are in memory, so that no read can fail while they are joined.
pub open spec fn is_free_up_to<T: Item>(
    nodes: Nodes<T>,
    tree: Tree<T>,
    other: Tree<T>,
    k: int,
) -> bool {
    &&& tree.in_memory()
    &&& other is Resident
    &&& joined_by_children(nodes, tree, other)
    &&& 0 <= k <= other.at(nodes)->child_trees.len()
    &&& forall|j: int| 0 <= j < k ==> (#[trigger] other.at(nodes)->child_trees[j]).in_memory()
}

/// Whether `tree` is `old_tree` with all that `other` shows behind what it showed.
pub open spec fn fully_joined<T: Item>(
    nodes: Nodes<T>,
    old_tree: Tree<T>,
    other: Tree<T>,
    tree: Tree<T>,
) -> bool {
    &&& tree.wf(nodes)
    &&& !tree.dangling(nodes)
    &&& old_tree is Resident || !joined_by_children(nodes, old_tree, other) || other.content(
        nodes,
    ).len() > 0 ==> tree is Resident
    &&& tree.content(nodes) == old_tree.content(nodes) + other.content(nodes)
    &&& tree.at(nodes).height() >= old_tree.at(nodes).height()
    &&& tree.slim(nodes) ==> old_tree.slim(nodes)
    &&& old_tree.at(nodes) is Leaf && tree.content(nodes).len() <= NODE_CAPACITY ==> tree.at(
        nodes,
    ) is Leaf
}

/// Whether `tree` is `old_tree` with some of what `other` shows behind what it showed.
/// Nothing is joined of a tree that is not higher.
pub open spec fn partly_joined<T: Item>(
    nodes: Nodes<T>,
    old_tree: Tree<T>,
    other: Tree<T>,
    tree: Tree<T>,
) -> bool {
    let (low, high) = (old_tree.at(nodes).height(), other.at(nodes).height());
    &&& tree.shaped(nodes)
    &&& old_tree is Resident ==> tree is Resident
    &&& !old_tree.dangling(nodes) ==> tree.can_be_walked(nodes)
    &&& partly_grown(
        old_tree.content(nodes),
        tree.content(nodes),
        old_tree.content(nodes) + other.content(nodes),
    )
    &&& high <= low ==> tree.content(nodes) == old_tree.content(nodes)
}

/// What is left when a read fails while a tree of height `height` is joined to another
/// one, after these reads, of which the last one failed.
///
/// A tree that is not higher is joined wholly or not at all. The children of a higher one
/// are joined one by one, up to the one at which the read failed.
pub open spec fn cut_short<T: Item>(
    nodes: Nodes<T>,
    old_tree: Tree<T>,
    other: Tree<T>,
    tree: Tree<T>,
    height: nat,
    ids: Reads,
) -> bool
    decreases height, 1nat,
{
    &&& ids.len() > 0
    &&& if old_tree.at(nodes).height() < height {
        let first = id_of(other) + id_of(old_tree) + id_of(other);
        ||| tree == old_tree && ids.is_prefix_of(first)
        ||| {
            &&& first.is_prefix_of(ids)
            &&& children_cut_short(
                nodes,
                old_tree,
                other,
                tree,
                (height - 1) as nat,
                ids.skip(first.len() as int),
            )
        }
    } else {
        let first = id_of(other) + id_of(old_tree);
        &&& tree.content(nodes) == old_tree.content(nodes)
        &&& ids.is_prefix_of(low_ids(nodes, old_tree, other))
        &&& if ids.len() <= first.len() {
            tree == old_tree
        } else {
            broken_off(
                nodes,
                old_tree,
                other,
                tree,
                old_tree.at(nodes).height(),
                ids.skip(first.len() as int),
            )
        }
    }
}

/// What is left when a read fails while the children of a tree, which have height
/// `height`, are joined to another one: the first of them are joined wholly, and the next
/// one is not.
pub open spec fn children_cut_short<T: Item>(
    nodes: Nodes<T>,
    old_tree: Tree<T>,
    other: Tree<T>,
    tree: Tree<T>,
    height: nat,
    ids: Reads,
) -> bool
    decreases height, 2nat,
{
    exists|k: int, before: Tree<T>, m: int|
        {
            &&& 0 <= k < other.at(nodes)->child_trees.len()
            &&& 0 <= m <= ids.len()
            &&& !(#[trigger] before.dangling(nodes))
            &&& before.content(nodes) == old_tree.content(nodes) + #[trigger] first_children(
                nodes,
                other,
                k,
            )
            &&& pushed_all(
                nodes,
                old_tree,
                other.at(nodes)->child_trees.take(k),
                before,
                height,
                ids.take(m),
            )
            &&& cut_short(
                nodes,
                before,
                other.at(nodes)->child_trees[k],
                tree,
                height,
                #[trigger] ids.skip(m),
            )
        }
}

/// Whether `tree` is `old_tree` with the first `k` children of `other` joined to it.
pub open spec fn joined_up_to<T: Item>(
    nodes: Nodes<T>,
    old_tree: Tree<T>,
    other: Tree<T>,
    k: int,
    tree: Tree<T>,
) -> bool {
    &&& tree.wf(nodes)
    &&& tree.in_memory()
    &&& tree.content(nodes) == old_tree.content(nodes) + first_children(nodes, other, k)
}

/// How a tree of height `height` is joined to another one with these reads, and what comes
/// of it.
///
/// The children of a higher tree are joined one by one.
pub open spec fn pushed<T: Item>(
    nodes: Nodes<T>,
    old_tree: Tree<T>,
    other: Tree<T>,
    tree: Tree<T>,
    height: nat,
    ids: Reads,
) -> bool
    decreases height, 0nat,
{
    if old_tree.at(nodes).height() < height {
        let first = id_of(other) + id_of(old_tree) + id_of(other);
        &&& first.is_prefix_of(ids)
        &&& pushed_all(
            nodes,
            old_tree,
            other.at(nodes)->child_trees,
            tree,
            (height - 1) as nat,
            ids.skip(first.len() as int),
        )
    } else {
        &&& ids == low_ids(nodes, old_tree, other)
        &&& merged(nodes, old_tree, other, tree)
    }
}

/// How trees of height `height` are joined to another one, one by one, with these reads,
/// and what comes of it.
pub open spec fn pushed_all<T: Item>(
    nodes: Nodes<T>,
    old_tree: Tree<T>,
    trees: Seq<Tree<T>>,
    tree: Tree<T>,
    height: nat,
    ids: Reads,
) -> bool
    decreases height, trees.len() + 1,
{
    if trees.len() == 0 {
        tree == old_tree && ids.len() == 0
    } else {
        exists|before: Tree<T>, m: int|
            {
                &&& 0 <= m <= ids.len()
                &&& !(#[trigger] before.dangling(nodes))
                &&& pushed_all(nodes, old_tree, trees.drop_last(), before, height, ids.take(m))
                &&& pushed(nodes, before, trees.last(), tree, height, #[trigger] ids.skip(m))
            }
    }
}

/// What is read to join a tree that is not higher to another one.
pub open spec fn low_ids<T: Item>(nodes: Nodes<T>, old_tree: Tree<T>, other: Tree<T>) -> Reads {
    let height = old_tree.at(nodes).height();
    id_of(other) + id_of(old_tree) + merge_ids(nodes, old_tree, other, height)
}

/// How a tree that is not higher is joined to another one, and what comes of it. If that
/// makes two trees, they become the children of a new root.
pub open spec fn merged<T: Item>(
    nodes: Nodes<T>,
    old_tree: Tree<T>,
    other: Tree<T>,
    tree: Tree<T>,
) -> bool {
    let height = old_tree.at(nodes).height();
    exists|left: Tree<T>, split: Option<Tree<T>>|
        {
            &&& #[trigger] grown(nodes, old_tree, other, left, split, height)
            &&& match split {
                None => tree == left,
                Some(right) => {
                    &&& tree is Resident
                    &&& tree.at(nodes) == node_over(nodes, seq![left, right], height)
                },
            }
        }
}

/// How items are added to a tree with these reads, and what comes of it: full leaves are
/// joined to it one by one, and then a leaf of the items that are left.
pub open spec fn extended<T: Item>(
    nodes: Nodes<T>,
    old_tree: Tree<T>,
    items: Seq<T>,
    tree: Tree<T>,
    ids: Reads,
) -> bool
    decreases items.len(),
{
    if items.len() == 0 {
        tree == old_tree && ids.len() == 0
    } else {
        proof {
            lemma_leaf_start_is_less(items.len());
        }
        let cut = leaf_start(items.len()) as int;
        exists|before: Tree<T>, leaf: Tree<T>, m: int|
            {
                &&& 0 <= m <= ids.len()
                &&& extended(nodes, old_tree, items.take(cut), before, ids.take(m))
                &&& leaf is Resident
                &&& leaf.at(nodes) == leaf_of(items.skip(cut))
                &&& #[trigger] pushed(nodes, before, leaf, tree, 0, ids.skip(m))
            }
    }
}

/// What is left when a read fails while items are added to a tree, after these reads, of
/// which the last one failed: the first leaf of items is not joined. Once it is joined, the
/// nodes on the way to the end of the tree are in memory, and nothing is read any more.
pub open spec fn extension_cut_short<T: Item>(
    nodes: Nodes<T>,
    old_tree: Tree<T>,
    items: Seq<T>,
    tree: Tree<T>,
    ids: Reads,
) -> bool {
    exists|leaf: Tree<T>|
        {
            &&& leaf is Resident
            &&& leaf.at(nodes) == leaf_of(first_leaf(items))
            &&& #[trigger] cut_short(nodes, old_tree, leaf, tree, 0, ids)
        }
}

/// The items that go into the first leaf when items are cut into leaves.
pub open spec fn first_leaf<T>(items: Seq<T>) -> Seq<T> {
    if items.len() <= NODE_CAPACITY {
        items
    } else {
        items.take(NODE_CAPACITY as int)
    }
}

/// A leaf that holds these items.
pub open spec fn leaf_of<T: Item>(items: Seq<T>) -> NodeView<T> {
    NodeView::Leaf { summary: total(known(items)), items }
}

/// Where the last leaf begins when `len` items are cut into leaves.
pub open spec fn leaf_start(len: nat) -> nat
    decreases len,
{
    if len <= NODE_CAPACITY {
        0
    } else {
        NODE_CAPACITY as nat + leaf_start((len - NODE_CAPACITY) as nat)
    }
}

/// Whether `len` items fill leaves.
spec fn fills_leaves(len: nat) -> bool
    decreases len,
{
    len == 0 || len >= NODE_CAPACITY && fills_leaves((len - NODE_CAPACITY) as nat)
}

/// The last leaf is not empty.
pub proof fn lemma_leaf_start_is_less(len: nat)
    ensures
        leaf_start(len) <= len,
        len > 0 ==> leaf_start(len) < len,
    decreases len,
{
    if len > NODE_CAPACITY {
        lemma_leaf_start_is_less((len - NODE_CAPACITY) as nat);
    }
}

/// The last leaf begins behind the full ones.
proof fn lemma_leaf_start(full: nat, more: nat)
    requires
        fills_leaves(full),
        0 < more <= NODE_CAPACITY,
    ensures
        leaf_start(full + more) == full,
        more == NODE_CAPACITY ==> fills_leaves(full + more),
    decreases full,
{
    if full > 0 {
        lemma_leaf_start((full - NODE_CAPACITY) as nat, more);
    } else {
        assert(fills_leaves(0));
    }
}

/// No children show nothing.
proof fn lemma_no_children<T: Item>(nodes: Nodes<T>, tree: Tree<T>)
    ensures
        first_children(nodes, tree, 0) == Seq::<Piece<T>>::empty(),
{
    assert(tree.at(nodes)->child_trees.take(0).len() == 0);
}

/// A run that has not grown has grown by nothing.
proof fn lemma_grows_by_nothing<X>(run: Seq<X>, more: Seq<X>)
    ensures
        partly_grown(run, run, run + more),
{
    assert(run =~= run.subrange(0, run.len() as int));
    assert(run =~= (run + more).subrange(0, run.len() as int));
}

/// A tree that nothing has been joined to is one with some of another one joined to it.
proof fn lemma_nothing_joined<T: Item>(nodes: Nodes<T>, tree: Tree<T>, other: Tree<T>)
    requires
        tree.wf(nodes),
    ensures
        partly_joined(nodes, tree, other, tree),
{
    lemma_sound_is_shaped(nodes, tree, tree.at(nodes).height(), true);
    if !tree.dangling(nodes) {
        lemma_total_fits(nodes, tree);
    }
    lemma_grows_by_nothing(tree.content(nodes), other.content(nodes));
}

/// A tree is not joined if its root or that of the other one cannot be read.
proof fn lemma_not_joined<T: Item>(nodes: Nodes<T>, tree: Tree<T>, other: Tree<T>, ids: Reads)
    requires
        ids.len() > 0,
        ids.is_prefix_of(id_of(other)) || ids.is_prefix_of(id_of(other) + id_of(tree)),
    ensures
        forall|height: nat| #[trigger] cut_short(nodes, tree, other, tree, height, ids),
        ids.is_prefix_of(id_of(other)) ==> ids == id_of(other),
        ids.is_prefix_of(id_of(other) + id_of(tree)),
{
    let both = id_of(other) + id_of(tree);
    assert(ids =~= both.subrange(0, ids.len() as int));
    if ids.is_prefix_of(id_of(other)) {
        assert(ids =~= id_of(other));
    }
    assert(ids =~= (both + id_of(other)).subrange(0, ids.len() as int));
    let low = low_ids(nodes, tree, other);
    assert(ids =~= low.subrange(0, ids.len() as int));
}

/// What is left when the child at `k` cannot be joined.
proof fn lemma_child_cut_short<T: Item>(
    nodes: Nodes<T>,
    old_tree: Tree<T>,
    other: Tree<T>,
    k: int,
    before: Tree<T>,
    tree: Tree<T>,
    ids: Reads,
    more: Reads,
)
    requires
        other.at(nodes).height() > 0,
        0 <= k < other.at(nodes)->child_trees.len(),
        !before.dangling(nodes),
        before.content(nodes) == old_tree.content(nodes) + first_children(nodes, other, k),
        ({
            let child = other.at(nodes)->child_trees[k];
            let below = (other.at(nodes).height() - 1) as nat;
            &&& pushed_all(
                nodes,
                old_tree,
                other.at(nodes)->child_trees.take(k),
                before,
                below,
                ids,
            )
            &&& if child.dangling(nodes) {
                tree == before && more == id_of(child)
            } else {
                &&& child.at(nodes).height() == below
                &&& cut_short(nodes, before, child, tree, below, more)
            }
        }),
    ensures
        children_cut_short(
            nodes,
            old_tree,
            other,
            tree,
            (other.at(nodes).height() - 1) as nat,
            ids + more,
        ),
{
    let child = other.at(nodes)->child_trees[k];
    let below = (other.at(nodes).height() - 1) as nat;
    if child.dangling(nodes) {
        assert(more =~= id_of(child).subrange(0, more.len() as int));
        lemma_not_joined(nodes, before, child, more);
    }
    assert(cut_short(nodes, before, child, tree, below, more));
    let m = ids.len() as int;
    assert((ids + more).take(m) =~= ids);
    assert((ids + more).skip(m) =~= more);
    assert(!before.dangling(nodes));
}


/// What it means that joining stops at a child.
proof fn lemma_stops_at_child<T: Item>(
    nodes: Nodes<T>,
    tree: Tree<T>,
    other: Tree<T>,
    k: int,
    j: int,
)
    requires
        stops_at_child(nodes, tree, other, k),
    ensures
        tree.in_memory(),
        other is Resident,
        joined_by_children(nodes, tree, other),
        0 <= k < other.at(nodes)->child_trees.len(),
        other.at(nodes)->child_trees[k].dangling(nodes),
        0 <= j < k ==> other.at(nodes)->child_trees[j].in_memory(),
{
}

/// The first children show a part of what a tree shows, and the next one adds to it.
proof fn lemma_next_child<T: Item>(nodes: Nodes<T>, old_tree: Tree<T>, other: Tree<T>, k: int)
    requires
        !other.dangling(nodes),
        other.at(nodes) is Internal,
        other.at(nodes).height() > 0,
        0 <= k < other.at(nodes)->child_trees.len(),
        other.at(nodes)->child_trees.len() == other.at(nodes)->child_summaries.len(),
        old_tree.has_room_for(other, nodes),
    ensures
        ({
            let tree = other.at(nodes)->child_trees[k];
            let all = old_tree.content(nodes) + other.content(nodes);
            let before = old_tree.content(nodes) + first_children(nodes, other, k);
            &&& partly_grown(old_tree.content(nodes), before, all)
            &&& !tree.dangling(nodes) && tree.at(nodes).height() + 1 == other.at(nodes).height()
                ==> {
                let after = before + tree.content(nodes);
                &&& after == old_tree.content(nodes) + first_children(nodes, other, k + 1)
                &&& after.is_prefix_of(all)
                &&& T::Summary::fits(total(after))
                &&& weight(after) < item_limit()
            }
        }),
{
    let trees = other.at(nodes)->child_trees;
    let summaries = other.at(nodes)->child_summaries;
    let below = (other.at(nodes).height() - 1) as nat;
    let head = old_tree.content(nodes);
    let all = head + other.content(nodes);
    let before = head + first_children(nodes, other, k);
    lemma_items_of_all_split(nodes, trees, summaries, k, below);
    assert(before =~= all.subrange(0, before.len() as int));
    assert(head =~= before.subrange(0, head.len() as int));
    let tree = trees[k];
    if !tree.dangling(nodes) && tree.at(nodes).height() == below {
        let after = before + tree.content(nodes);
        assert(after =~= head + first_children(nodes, other, k + 1));
        assert(after =~= all.subrange(0, after.len() as int));
        lemma_total_part_fits(all, 0, after.len() as int);
        lemma_weight_part(all, 0, after.len() as int);
    }
}

/// What is left when the child at `k` cannot be joined wholly.
proof fn lemma_child_partly_joined<T: Item>(
    nodes: Nodes<T>,
    old_tree: Tree<T>,
    other: Tree<T>,
    k: int,
    before: Tree<T>,
    tree: Tree<T>,
)
    requires
        !old_tree.dangling(nodes),
        !other.dangling(nodes),
        other.at(nodes) is Internal,
        old_tree.at(nodes).height() < other.at(nodes).height(),
        0 <= k < other.at(nodes)->child_trees.len(),
        other.at(nodes)->child_trees.len() == other.at(nodes)->child_summaries.len(),
        old_tree.has_room_for(other, nodes),
        !before.dangling(nodes),
        old_tree is Resident ==> before is Resident,
        before.at(nodes).height() >= old_tree.at(nodes).height(),
        before.content(nodes) == old_tree.content(nodes) + first_children(nodes, other, k),
        ({
            let child = other.at(nodes)->child_trees[k];
            &&& child.dangling(nodes) || child.at(nodes).height() + 1 == other.at(nodes).height()
            &&& child.dangling(nodes) ==> tree == before
            &&& partly_joined(nodes, before, child, tree)
        }),
    ensures
        partly_joined(nodes, old_tree, other, tree),
{
    let child = other.at(nodes)->child_trees[k];
    let all = old_tree.content(nodes) + other.content(nodes);
    let grown = tree.content(nodes);
    lemma_next_child(nodes, old_tree, other, k);
    if child.dangling(nodes) {
        assert(grown == before.content(nodes));
    } else {
        let after = before.content(nodes) + child.content(nodes);
        lemma_grows_on(before.content(nodes), grown, after, all);
        lemma_grows_on(old_tree.content(nodes), before.content(nodes), grown, all);
    }
}

/// The children of a tree that can be joined can be joined.
proof fn lemma_child_joinable<T: Item>(nodes: Nodes<T>, low: nat, tree: Tree<T>, height: nat)
    requires
        joinable(nodes, low, tree, height),
        !tree.dangling(nodes),
        low < height,
        tree.at(nodes).height() == height,
    ensures
        tree.at(nodes) is Internal,
        tree.at(nodes)->child_trees.len() == tree.at(nodes)->child_summaries.len(),
        ({
            let trees = tree.at(nodes)->child_trees;
            forall|i: int|
                #![trigger trees[i]]
                0 <= i < trees.len() ==> joinable(
                    nodes,
                    if i == 0 {
                        low
                    } else {
                        (height - 1) as nat
                    },
                    trees[i],
                    (height - 1) as nat,
                )
        }),
{
    if sound_node(nodes, tree.at(nodes), height, true, Rigor::Summed) {
        let node = tree.at(nodes);
        lemma_children_are_joinable(
            nodes,
            node->child_trees,
            node->child_summaries,
            (height - 1) as nat,
        );
    }
}

/// What can be joined to a tree that is as high or higher can be joined to any tree that
/// is as high or higher.
proof fn lemma_joinable_height<T: Item>(
    nodes: Nodes<T>,
    low: nat,
    new_low: nat,
    tree: Tree<T>,
    height: nat,
)
    requires
        joinable(nodes, low, tree, height),
        low == new_low || low >= height,
    ensures
        tree.dangling(nodes) || tree.at(nodes).height() == height,
        joinable(nodes, new_low, tree, tree.at(nodes).height()),
{
}

/// What can be joined to a tree that is as high or higher is sound.
proof fn lemma_joinable_low<T: Item>(nodes: Nodes<T>, low: nat, tree: Tree<T>, height: nat)
    requires
        joinable(nodes, low, tree, height),
        low >= height,
        !tree.dangling(nodes),
    ensures
        sound_node(nodes, tree.at(nodes), height, true, Rigor::Summed),
        !tree.slim(nodes),
{
}

/// Joining no trees changes nothing.
proof fn lemma_pushed_none<T: Item>(nodes: Nodes<T>, tree: Tree<T>, height: nat)
    ensures
        pushed_all(nodes, tree, Seq::empty(), tree, height, Reads::empty()),
{
}

/// Trees are joined one by one.
proof fn lemma_pushed_next<T: Item>(
    nodes: Nodes<T>,
    old_tree: Tree<T>,
    trees: Seq<Tree<T>>,
    k: int,
    before: Tree<T>,
    tree: Tree<T>,
    height: nat,
    ids: Reads,
    more: Reads,
)
    requires
        0 <= k < trees.len(),
        !before.dangling(nodes),
        pushed_all(nodes, old_tree, trees.take(k), before, height, ids),
        pushed(nodes, before, trees[k], tree, height, more),
    ensures
        pushed_all(nodes, old_tree, trees.take(k + 1), tree, height, ids + more),
{
    let m = ids.len() as int;
    assert(trees.take(k + 1).drop_last() =~= trees.take(k));
    assert((ids + more).take(m) =~= ids);
    assert((ids + more).skip(m) =~= more);
    assert(!before.dangling(nodes));
}

/// Whether the children of `other` can be joined to a tree that is less high.
pub open spec fn joins_children<T: Item>(
    nodes: Nodes<T>,
    old_tree: Tree<T>,
    other: Tree<T>,
) -> bool {
    &&& old_tree.wf(nodes)
    &&& old_tree.can_take(other, nodes)
    &&& !old_tree.dangling(nodes)
    &&& !other.dangling(nodes)
    &&& joined_by_children(nodes, old_tree, other)
    &&& old_tree.has_room_for(other, nodes)
}

/// Whether `tree` is `old_tree` with the first `i` children of `other` joined to it, with
/// these reads.
#[verifier::opaque]
spec fn joining<T: Item>(
    nodes: Nodes<T>,
    old_tree: Tree<T>,
    other: Tree<T>,
    i: int,
    tree: Tree<T>,
    ids: Reads,
) -> bool {
    let trees = other.at(nodes)->child_trees;
    let below = (other.at(nodes).height() - 1) as nat;
    let low = old_tree.at(nodes).height();
    let front = first_children(nodes, other, i);
    &&& 0 <= i <= trees.len()
    &&& tree.wf(nodes)
    &&& !tree.dangling(nodes)
    &&& tree.at(nodes).height() >= low
    &&& i == 0 ==> tree.at(nodes).height() == low
    &&& old_tree is Resident || front.len() > 0 ==> tree is Resident
    &&& tree.slim(nodes) ==> old_tree.slim(nodes)
    &&& old_tree.at(nodes) is Leaf && tree.content(nodes).len() <= NODE_CAPACITY ==> tree.at(
        nodes,
    ) is Leaf
    &&& pushed_all(nodes, old_tree, trees.take(i), tree, below, ids)
    &&& tree.content(nodes) == old_tree.content(nodes) + front
    &&& old_tree.in_memory() && other.in_memory() ==> tree.in_memory()
    &&& old_tree.end_in_memory(nodes) && other.in_memory() ==> tree.end_in_memory(nodes)
    &&& forall|k: int|
        #[trigger] stops_at_child(nodes, old_tree, other, k) ==> i <= k < trees.len()
            && tree.in_memory()
    &&& forall|k: int|
        #[trigger] is_free_up_to(nodes, old_tree, other, k) && i <= k ==> tree.in_memory()
}

/// At first no child is joined.
proof fn lemma_joining_start<T: Item>(nodes: Nodes<T>, tree: Tree<T>, other: Tree<T>)
    requires
        joins_children(nodes, tree, other),
    ensures
        joining(nodes, tree, other, 0, tree, Reads::empty()),
{
    reveal(joining);
    let below = (other.at(nodes).height() - 1) as nat;
    lemma_no_children(nodes, other);
    assert(tree.content(nodes) =~= tree.content(nodes) + first_children(nodes, other, 0));
    assert(other.at(nodes)->child_trees.take(0) =~= Seq::<Tree<T>>::empty());
    lemma_pushed_none(nodes, tree, below);
    assert forall|k: int| #[trigger] stops_at_child(nodes, tree, other, k) implies 0 <= k
        < other.at(nodes)->child_trees.len() && tree.in_memory() by {
        lemma_stops_at_child(nodes, tree, other, k, k);
    }
}

/// The next child can be joined.
proof fn lemma_joining_ready<T: Item>(
    nodes: Nodes<T>,
    old_tree: Tree<T>,
    other: Tree<T>,
    i: int,
    tree: Tree<T>,
    ids: Reads,
)
    requires
        joins_children(nodes, old_tree, other),
        joining(nodes, old_tree, other, i, tree, ids),
        i < other.at(nodes)->child_trees.len(),
    ensures
        ({
            let child = other.at(nodes)->child_trees[i];
            &&& tree.wf(nodes)
            &&& !tree.dangling(nodes)
            &&& tree.can_take(child, nodes)
            &&& child.dangling(nodes) || child.at(nodes).height() + 1 == other.at(nodes).height()
            &&& !child.dangling(nodes) ==> tree.has_room_for(child, nodes)
            &&& child.depth(nodes) < other.depth(nodes)
            &&& other.in_memory() ==> child.in_memory()
        }),
{
    reveal(joining);
    let low = old_tree.at(nodes).height();
    let below = (other.at(nodes).height() - 1) as nat;
    let child = other.at(nodes)->child_trees[i];
    lemma_child_joinable(nodes, low, other, below + 1);
    lemma_joinable_height(
        nodes,
        if i == 0 {
            low
        } else {
            below
        },
        tree.at(nodes).height(),
        child,
        below,
    );
    lemma_next_child(nodes, old_tree, other, i);
    if other.in_memory() {
        assert(trees_in_memory(other.at(nodes)->child_trees, below));
    }
}

/// Once a child is joined, one more is joined.
#[verifier::rlimit(40)]
proof fn lemma_joining_next<T: Item>(
    nodes: Nodes<T>,
    old_tree: Tree<T>,
    other: Tree<T>,
    i: int,
    before: Tree<T>,
    tree: Tree<T>,
    ids: Reads,
    more: Reads,
)
    requires
        joins_children(nodes, old_tree, other),
        joining(nodes, old_tree, other, i, before, ids),
        i < other.at(nodes)->child_trees.len(),
        ({
            let child = other.at(nodes)->child_trees[i];
            &&& !child.dangling(nodes)
            &&& fully_joined(nodes, before, child, tree)
            &&& pushed(nodes, before, child, tree, child.at(nodes).height(), more)
            &&& before.in_memory() && child.in_memory() ==> tree.in_memory()
            &&& before.end_in_memory(nodes) && child.in_memory() ==> tree.end_in_memory(nodes)
        }),
    ensures
        joining(nodes, old_tree, other, i + 1, tree, ids + more),
{
    lemma_joining_ready(nodes, old_tree, other, i, before, ids);
    reveal(joining);
    let trees = other.at(nodes)->child_trees;
    let below = (other.at(nodes).height() - 1) as nat;
    lemma_child_joinable(nodes, old_tree.at(nodes).height(), other, below + 1);
    lemma_next_child(nodes, old_tree, other, i);
    lemma_pushed_next(nodes, old_tree, trees, i, before, tree, below, ids, more);
    assert forall|k: int| #[trigger] stops_at_child(nodes, old_tree, other, k) implies i + 1 <= k
        < trees.len() && tree.in_memory() by {
        lemma_stops_at_child(nodes, old_tree, other, k, i);
    }
    assert forall|k: int| #[trigger] is_free_up_to(nodes, old_tree, other, k) && i + 1
        <= k implies tree.in_memory() by {
        assert(trees[i].in_memory());
    }
}

/// What is left when the next child cannot be joined.
proof fn lemma_joining_stopped<T: Item>(
    nodes: Nodes<T>,
    old_tree: Tree<T>,
    other: Tree<T>,
    i: int,
    before: Tree<T>,
    tree: Tree<T>,
    ids: Reads,
    more: Reads,
)
    requires
        joins_children(nodes, old_tree, other),
        joining(nodes, old_tree, other, i, before, ids),
        i < other.at(nodes)->child_trees.len(),
        ({
            let child = other.at(nodes)->child_trees[i];
            &&& partly_joined(nodes, before, child, tree)
            &&& cut_short(nodes, before, child, tree, child.at(nodes).height(), more)
            &&& child.dangling(nodes) ==> tree == before && more == id_of(child)
            &&& !(before.in_memory() && child.in_memory())
            &&& !(before.end_in_memory(nodes) && child.in_memory())
        }),
    ensures
        partly_joined(nodes, old_tree, other, tree),
        children_cut_short(
            nodes,
            old_tree,
            other,
            tree,
            (other.at(nodes).height() - 1) as nat,
            ids + more,
        ),
        forall|k: int|
            #[trigger] stops_at_child(nodes, old_tree, other, k) ==> joined_up_to(
                nodes,
                old_tree,
                other,
                k,
                tree,
            ),
        forall|k: int|
            #[trigger] is_free_up_to(nodes, old_tree, other, k) ==> (old_tree.content(nodes)
                + first_children(nodes, other, k)).is_prefix_of(tree.content(nodes)),
        !(old_tree.in_memory() && other.in_memory()),
        !(old_tree.end_in_memory(nodes) && other.in_memory()),
{
    lemma_joining_ready(nodes, old_tree, other, i, before, ids);
    reveal(joining);
    let below = (other.at(nodes).height() - 1) as nat;
    lemma_child_joinable(nodes, old_tree.at(nodes).height(), other, below + 1);
    lemma_child_partly_joined(nodes, old_tree, other, i, before, tree);
    lemma_child_cut_short(nodes, old_tree, other, i, before, tree, ids, more);
    assert forall|k: int|
        #[trigger] stops_at_child(nodes, old_tree, other, k) implies joined_up_to(
        nodes,
        old_tree,
        other,
        k,
        tree,
    ) by {
        lemma_stops_at_child(nodes, old_tree, other, k, i);
    }
    assert forall|k: int| #[trigger] is_free_up_to(nodes, old_tree, other, k) implies (
    old_tree.content(nodes) + first_children(nodes, other, k)).is_prefix_of(
        tree.content(nodes),
    ) by {
        if i < k {
            assert(other.at(nodes)->child_trees[i].in_memory());
        } else {
            lemma_fewer_children(nodes, old_tree.content(nodes), other, k, i);
            let few = old_tree.content(nodes) + first_children(nodes, other, k);
            assert(few =~= tree.content(nodes).subrange(0, few.len() as int));
        }
    }
}

/// Fewer children show the beginning of what more of them show.
proof fn lemma_fewer_children<T: Item>(
    nodes: Nodes<T>,
    head: Seq<Piece<T>>,
    tree: Tree<T>,
    few: int,
    many: int,
)
    requires
        tree.at(nodes) is Internal,
        tree.at(nodes)->child_trees.len() == tree.at(nodes)->child_summaries.len(),
        0 <= few <= many <= tree.at(nodes)->child_trees.len(),
    ensures
        (head + first_children(nodes, tree, few)).is_prefix_of(
            head + first_children(nodes, tree, many),
        ),
    decreases many - few,
{
    let (trees, summaries) = (tree.at(nodes)->child_trees, tree.at(nodes)->child_summaries);
    let less = head + first_children(nodes, tree, few);
    if few < many {
        lemma_fewer_children(nodes, head, tree, few, many - 1);
        assert(trees.take(many).drop_last() =~= trees.take(many - 1));
        assert(summaries.take(many).drop_last() =~= summaries.take(many - 1));
    }
    let more = head + first_children(nodes, tree, many);
    assert(less =~= more.subrange(0, less.len() as int));
}

/// At last all the children are joined.
proof fn lemma_joining_end<T: Item>(
    nodes: Nodes<T>,
    old_tree: Tree<T>,
    other: Tree<T>,
    tree: Tree<T>,
    ids: Reads,
)
    requires
        joins_children(nodes, old_tree, other),
        joining(
            nodes,
            old_tree,
            other,
            other.at(nodes)->child_trees.len() as int,
            tree,
            ids,
        ),
    ensures
        fully_joined(nodes, old_tree, other, tree),
        pushed_all(
            nodes,
            old_tree,
            other.at(nodes)->child_trees,
            tree,
            (other.at(nodes).height() - 1) as nat,
            ids,
        ),
        old_tree.in_memory() && other.in_memory() ==> tree.in_memory(),
        old_tree.end_in_memory(nodes) && other.in_memory() ==> tree.end_in_memory(nodes),
        forall|k: int| !(#[trigger] stops_at_child(nodes, old_tree, other, k)),
{
    reveal(joining);
    let node = other.at(nodes);
    let below = (node.height() - 1) as nat;
    lemma_child_joinable(nodes, old_tree.at(nodes).height(), other, below + 1);
    assert(node->child_trees.take(node.len() as int) =~= node->child_trees);
    assert(node->child_summaries.take(node.len() as int) =~= node->child_summaries);
}

/// Joining the children of a higher tree comes after three looks at the roots.
proof fn lemma_cut_short_after_all<T: Item>(
    nodes: Nodes<T>,
    old_tree: Tree<T>,
    other: Tree<T>,
    tree: Tree<T>,
    first: Reads,
    more: Reads,
)
    requires
        old_tree.at(nodes).height() < other.at(nodes).height(),
        first == id_of(other) + id_of(old_tree) + id_of(other),
        children_cut_short(
            nodes,
            old_tree,
            other,
            tree,
            (other.at(nodes).height() - 1) as nat,
            more,
        ),
    ensures
        cut_short(nodes, old_tree, other, tree, other.at(nodes).height(), first + more),
{
    assert((first + more).skip(first.len() as int) =~= more);
    assert((first + more).subrange(0, first.len() as int) =~= first);
    reveal_with_fuel(children_cut_short, 2);
    let below = (other.at(nodes).height() - 1) as nat;
    let (k, before, m) = choose|k: int, before: Tree<T>, m: int|
        {
            &&& 0 <= k < other.at(nodes)->child_trees.len()
            &&& 0 <= m <= more.len()
            &&& !(#[trigger] before.dangling(nodes))
            &&& before.content(nodes) == old_tree.content(nodes) + #[trigger] first_children(
                nodes,
                other,
                k,
            )
            &&& pushed_all(
                nodes,
                old_tree,
                other.at(nodes)->child_trees.take(k),
                before,
                below,
                more.take(m),
            )
            &&& cut_short(
                nodes,
                before,
                other.at(nodes)->child_trees[k],
                tree,
                below,
                #[trigger] more.skip(m),
            )
        };
    assert(more.skip(m).len() > 0);
}

/// A tree of one leaf that is joined to a leaf adds the items of the leaf.
proof fn lemma_pushed_one<T: Item>(
    nodes: Nodes<T>,
    old_tree: Tree<T>,
    leaf: Tree<T>,
    other: Tree<T>,
    tree: Tree<T>,
    items: Seq<T>,
    ids: Reads,
)
    requires
        old_tree.at(nodes) is Leaf,
        other is Resident,
        other.at(nodes) is Internal,
        other.at(nodes)->child_trees == seq![leaf],
        pushed(nodes, old_tree, other, tree, 1, ids),
        0 < items.len() <= NODE_CAPACITY,
        leaf is Resident,
        leaf.at(nodes) == leaf_of(items),
    ensures
        extended(nodes, old_tree, items, tree, id_of(old_tree) + id_of(old_tree)),
        ids == id_of(old_tree) + id_of(old_tree) + id_of(old_tree),
{
    let first = id_of(other) + id_of(old_tree) + id_of(other);
    let rest = ids.skip(first.len() as int);
    let twice = id_of(old_tree) + id_of(old_tree);
    assert(first =~= id_of(old_tree));
    assert(seq![leaf].drop_last() =~= Seq::<Tree<T>>::empty());
    assert(seq![leaf].last() == leaf);
    assert(pushed_all(nodes, old_tree, seq![leaf], tree, 0, rest));
    let (before, m) = choose|before: Tree<T>, m: int|
        {
            &&& 0 <= m <= rest.len()
            &&& !(#[trigger] before.dangling(nodes))
            &&& pushed_all(nodes, old_tree, seq![leaf].drop_last(), before, 0, rest.take(m))
            &&& pushed(nodes, before, seq![leaf].last(), tree, 0, #[trigger] rest.skip(m))
        };
    assert(before == old_tree);
    assert(rest.skip(m) =~= rest);
    assert(pushed(nodes, old_tree, leaf, tree, 0, rest));
    lemma_leaf_ids(nodes, old_tree, leaf);
    lemma_extended_by_leaf(nodes, old_tree, leaf, tree, items, rest);
    assert(ids =~= first + rest);
    assert(ids =~= twice + id_of(old_tree));
}

/// What is read when a tree of one leaf cannot be joined to a leaf.
proof fn lemma_one_cut_short<T: Item>(
    nodes: Nodes<T>,
    old_tree: Tree<T>,
    leaf: Tree<T>,
    other: Tree<T>,
    tree: Tree<T>,
    ids: Reads,
)
    requires
        old_tree.at(nodes) is Leaf,
        other is Resident,
        other.at(nodes) is Internal,
        other.at(nodes)->child_trees == seq![leaf],
        leaf is Resident,
        leaf.at(nodes) is Leaf,
        cut_short(nodes, old_tree, other, tree, 1, ids),
    ensures
        ids.len() > 0,
        ids.is_prefix_of(id_of(old_tree) + id_of(old_tree) + id_of(old_tree)),
        tree == old_tree,
{
    let first = id_of(other) + id_of(old_tree) + id_of(other);
    let all = id_of(old_tree) + id_of(old_tree) + id_of(old_tree);
    assert(first =~= id_of(old_tree));
    if tree == old_tree && ids.is_prefix_of(first) {
        assert(ids =~= all.subrange(0, ids.len() as int));
    } else {
        let rest = ids.skip(first.len() as int);
        assert(children_cut_short(nodes, old_tree, other, tree, 0, rest));
        let (k, before, m) = choose|k: int, before: Tree<T>, m: int|
            {
                &&& 0 <= k < other.at(nodes)->child_trees.len()
                &&& 0 <= m <= rest.len()
                &&& !(#[trigger] before.dangling(nodes))
                &&& before.content(nodes) == old_tree.content(nodes) + #[trigger] first_children(
                    nodes,
                    other,
                    k,
                )
                &&& pushed_all(
                    nodes,
                    old_tree,
                    other.at(nodes)->child_trees.take(k),
                    before,
                    0,
                    rest.take(m),
                )
                &&& cut_short(
                    nodes,
                    before,
                    other.at(nodes)->child_trees[k],
                    tree,
                    0,
                    #[trigger] rest.skip(m),
                )
            };
        assert(k == 0);
        assert(before == old_tree);
        assert(rest.skip(m) =~= rest);
        lemma_leaf_ids(nodes, old_tree, leaf);
        assert(ids =~= first + rest);
        assert(ids =~= all.subrange(0, ids.len() as int));
    }
}

/// What is read to join a leaf that is in memory to another leaf.
proof fn lemma_leaf_ids<T: Item>(nodes: Nodes<T>, tree: Tree<T>, leaf: Tree<T>)
    requires
        tree.at(nodes) is Leaf,
        leaf is Resident,
    ensures
        low_ids(nodes, tree, leaf) == id_of(tree) + id_of(tree),
{
    assert(low_ids(nodes, tree, leaf) =~= id_of(tree) + id_of(tree));
}

/// Adding no items changes nothing.
proof fn lemma_extended_by_nothing<T: Item>(nodes: Nodes<T>, tree: Tree<T>)
    ensures
        extended(nodes, tree, Seq::empty(), tree, Reads::empty()),
{
}

/// To join a leaf is to add its items.
proof fn lemma_extended_by_leaf<T: Item>(
    nodes: Nodes<T>,
    old_tree: Tree<T>,
    leaf: Tree<T>,
    tree: Tree<T>,
    items: Seq<T>,
    ids: Reads,
)
    requires
        pushed(nodes, old_tree, leaf, tree, 0, ids),
        0 < items.len() <= NODE_CAPACITY,
        leaf is Resident,
        leaf.at(nodes) == leaf_of(items),
    ensures
        extended(nodes, old_tree, items, tree, ids),
{
    assert(items.take(0) =~= Seq::<T>::empty());
    assert(items.skip(0) =~= items);
    assert(leaf_start(items.len()) == 0);
    assert(ids.take(0) =~= Reads::empty());
    assert(ids.skip(0) =~= ids);
    lemma_extended_by_nothing(nodes, old_tree);
    assert(pushed(nodes, old_tree, leaf, tree, 0, ids.skip(0)));
}

/// Items are added leaf by leaf.
proof fn lemma_extended_on<T: Item>(
    nodes: Nodes<T>,
    old_tree: Tree<T>,
    done: Seq<T>,
    before: Tree<T>,
    leaf: Tree<T>,
    more: Seq<T>,
    tree: Tree<T>,
    ids: Reads,
    more_ids: Reads,
)
    requires
        extended(nodes, old_tree, done, before, ids),
        fills_leaves(done.len()),
        0 < more.len() <= NODE_CAPACITY,
        leaf is Resident,
        leaf.at(nodes) == leaf_of(more),
        pushed(nodes, before, leaf, tree, 0, more_ids),
    ensures
        extended(nodes, old_tree, done + more, tree, ids + more_ids),
        more.len() == NODE_CAPACITY ==> fills_leaves((done + more).len()),
{
    let all = done + more;
    let cut = leaf_start(all.len()) as int;
    let m = ids.len() as int;
    lemma_leaf_start(done.len(), more.len());
    assert(all.take(cut) =~= done);
    assert(all.skip(cut) =~= more);
    assert((ids + more_ids).take(m) =~= ids);
    assert((ids + more_ids).skip(m) =~= more_ids);
    assert(pushed(nodes, before, leaf, tree, 0, (ids + more_ids).skip(m)));
}

/// What a tree shows while items are added to it: `head` and those that are done, then
/// those of a leaf.
proof fn lemma_runs<T: Item>(
    head: Seq<Piece<T>>,
    items: Seq<T>,
    done: Seq<T>,
    leaf: Seq<T>,
    rest: Seq<T>,
)
    requires
        items == done + leaf + rest,
        T::Summary::fits(total(head + known(items))),
    ensures
        ({
            let all = head + known(items);
            let reached = head + known(done) + known(leaf);
            &&& reached == head + known(done + leaf)
            &&& T::Summary::fits(total(reached))
            &&& weight(reached) <= weight(all)
            &&& T::Summary::fits(total(known(leaf)))
            &&& partly_grown(head, head + known(done), all)
        }),
{
    let all = head + known(items);
    let reached = head + known(done) + known(leaf);
    let from = (head + known(done)).len() as int;
    let to = reached.len() as int;
    lemma_known_concat(done, leaf);
    lemma_known_concat(done + leaf, rest);
    assert(reached =~= head + known(done + leaf));
    assert(all.subrange(0, to) =~= reached);
    assert(all.subrange(from, to) =~= known(leaf));
    assert(all.subrange(0, from) =~= head + known(done));
    assert((head + known(done)).subrange(0, head.len() as int) =~= head);
    lemma_total_part_fits(all, 0, to);
    lemma_total_part_fits(all, from, to);
    lemma_weight_part(all, 0, to);
}

/// A leaf with one more item.
fn leaf_with<T: Item>(leaf: Option<Node<T>>, item: T) -> (result: Node<T>)
    requires
        pending_leaf(leaf),
        pending_items(leaf).len() < NODE_CAPACITY,
        T::Summary::fits(total(known(pending_items(leaf).push(item)))),
    ensures
        pending_leaf(Some(result)),
        pending_items(Some(result)) == pending_items(leaf).push(item),
{
    let ghost items = pending_items(leaf);
    let mut node = match leaf {
        Some(node) => node,
        None => {
            let summary = <T::Summary as Default>::default();
            proof {
                T::Summary::default_is_zero(summary);
                assert(known(Seq::<T>::empty()) =~= Seq::<Piece<T>>::empty());
            }
            Node::Leaf { summary, items: Inline::new() }
        },
    };
    proof {
        let one = seq![Piece::Item(item)];
        assert(node@->items =~= items);
        assert(known(items.push(item)) =~= known(items) + one);
        lemma_total_concat(known(items), one);
        lemma_total_one(Piece::Item(item));
    }
    node.summary_mut().add_assign(&item.summarize());
    node.items_mut().push(item);
    node
}

/// The items of a leaf that has not been joined to a tree yet.
pub open spec fn pending_items<T: Item>(leaf: Option<Node<T>>) -> Seq<T> {
    match leaf {
        Some(node) => node@->items,
        None => Seq::empty(),
    }
}

/// Whether a leaf that has not been joined to a tree yet is sound.
pub open spec fn pending_leaf<T: Item>(leaf: Option<Node<T>>) -> bool {
    leaf matches Some(node) ==> {
        &&& node is Leaf
        &&& 0 < node@.len() <= NODE_CAPACITY
        &&& node@.summary() == total(known(node@->items))
    }
}

} // verus!
