//! A place in a tree that moves along its items.

use crate::model::{
    gathered, item_limit, items_of, items_of_all, lemma_least_items, lemma_least_items_of,
    lemma_sound_is_shaped, lemma_suffix_of_suffix, lemma_total_fits, partly_grown, shows,
    sound_node, way_in_memory,
};
use crate::node::{Node, NodeView};
use crate::parts::{
    assembled, assembly_cut_short, climbed_ids, climbed_parts, contents, ids_below,
    lemma_last_parts, lemma_left_leaf, lemma_left_node, lemma_made_of_concat, lemma_made_of_shows,
    lemma_parts_within, lemma_turned_down, lemma_way_read, lemma_went_down, lies_into, made_of,
    parts_are_free, parts_below, parts_from, parts_up_to, shown_by, trees_are_free, wholes, Part,
};
use crate::path::{
    end_height, front_items, into_tree, items_before, items_into, items_passed, items_up_to,
    leads_down, leads_into, leaf_before, lemma_all_on_way, lemma_empty_path, lemma_front_and_back,
    lemma_into_in_memory, lemma_into_on_way, lemma_path_end_index, lemma_path_in_memory,
    lemma_path_on_way, lemma_path_splits, lemma_step_back, lemma_upper_path, lemma_walk_climbs,
    lemma_walk_descends, lemma_walk_goes_on, lemma_walked_is_prefix, points_at, walked,
};
use crate::piece::{
    known, lemma_known_part, lemma_total_concat, lemma_total_one, lemma_total_part_fits,
    piece_values, total, weight, Piece,
};
use crate::reads::{
    id_of, leaf_from, lemma_begins_with, lemma_climb_leaf_ids, lemma_front_grows, lemma_last_read,
    lemma_leaf_from, lemma_read_again, lemma_read_then_again, lemma_walk_to_end,
    lemma_way_back_ids, lemma_way_end, lemma_way_into, list_ids, rest_ids, walk_ids, way_back_ids,
    way_end, way_ids,
};
use crate::seek::{is_behind, lemma_stop_from, pass_children, pass_items, stop_from, SeekBias};
use crate::storage::{Inline, Trees};
use crate::store::{
    has_read, ids_read, lemma_ids_read, lemma_read_begun, lemma_read_nothing, lemma_read_on,
    lemma_read_within, only_read, read_again, read_in_order, NodeId, NodeStore, Nodes, Reads,
};
use crate::summary::{total_of, Dimension, Item, Summary};
use crate::tree::{leaf_of, Tree};
use crate::walk::{
    lemma_climb_along_children, lemma_climb_along_items, lemma_descend_along_children,
    lemma_descend_along_items, lemma_gather_leaf, lemma_gather_run, lemma_walk_stops,
    lemma_way_into_child,
};
use std::sync::Arc;
use vstd::prelude::*;

verus! {

/// Whether this is the item that a run shows at `index`: none, where the run ends.
pub open spec fn is_item_at<T: Item>(run: Seq<Piece<T>>, index: int, item: Option<&T>) -> bool {
    if 0 <= index < run.len() {
        item matches Some(item) && run[index] == Piece::Item(*item)
    } else {
        item is None
    }
}

/// Where a cursor at `position` among `len` items goes next.
pub open spec fn next_position(position: int, len: int) -> int {
    if position < len {
        position + 1
    } else {
        position
    }
}

/// A cursor: a tree, and the path down to an item of it.
///
/// A cursor that has not sought a position yet has no path. One that has gone past
/// the last item has none either.
#[verifier::reject_recursive_types(T)]
pub struct Cursor<T: Item> {
    tree: Tree<T>,
    stack: Inline<(Tree<T>, usize), 16>,
    summary: T::Summary,
    did_seek: bool,
    prev_leaf: Option<Option<Tree<T>>>,
}

impl<T: Item> Cursor<T> {
    /// The tree that the cursor moves in.
    pub closed spec fn tree(self) -> Tree<T> {
        self.tree
    }

    /// Whether the cursor has a place.
    pub closed spec fn sought(self) -> bool {
        self.did_seek
    }

    /// The leaf that was found when the item in front of the first item of a leaf
    /// was first asked for: `None` until then, `Some(None)` if there was none.
    pub closed spec fn remembered(self) -> Option<Option<Tree<T>>> {
        self.prev_leaf
    }

    /// What the tree shows.
    pub open spec fn items(self, nodes: Nodes<T>) -> Seq<Piece<T>> {
        self.tree().content(nodes)
    }

    spec fn height(self, nodes: Nodes<T>) -> nat {
        self.tree.at(nodes).height()
    }

    /// Whether the shape of the tree is sound, what it shows can be summed up, and the
    /// leaf that the cursor remembers is sound.
    pub closed spec fn anchored(self, nodes: Nodes<T>) -> bool {
        &&& self.tree.can_be_walked(nodes)
        &&& self.prev_leaf matches Some(Some(leaf)) ==> {
            &&& !leaf.dangling(nodes)
            &&& leaf.at(nodes) is Leaf
            &&& leaf.at(nodes).len() > 0
            &&& self.tree.in_memory() ==> leaf.in_memory()
        }
    }

    /// Whether the path leads down to an item or, in an empty tree, to its only
    /// leaf, and the summary is that of the items in front of it. Behind everything there is
    /// no path, and the summary does not matter.
    spec fn settled(self, nodes: Nodes<T>) -> bool {
        &&& leads_down(nodes, self.tree, self.height(nodes), self.stack@)
        &&& self.stack@.len() > 0 ==> {
            &&& self.stack@.last().0.at(nodes) is Leaf
            &&& self.stack@.last().1 <= self.stack@.last().0.at(nodes).len()
            &&& self.summary@ == total(
                walked(nodes, self.tree, self.height(nodes), self.stack@),
            )
        }
    }

    /// Whether the cursor is sound.
    pub closed spec fn wf(self, nodes: Nodes<T>) -> bool {
        &&& self.anchored(nodes)
        &&& if self.did_seek {
            self.settled(nodes) && points_at(nodes, self.stack@)
        } else {
            self.stack@.len() == 0 && self.summary@ == T::Summary::zero()
        }
    }

    /// What is read to get at the item that the cursor stands at.
    pub open spec fn item_ids(self, nodes: Nodes<T>) -> Reads {
        let position = self.position(nodes);
        if position < self.items(nodes).len() {
            id_of(way_end(nodes, self.tree(), self.tree().at(nodes).height(), position))
        } else {
            Seq::empty()
        }
    }

    /// Whether the path leads into `subtree`, and the summary is that of the items in
    /// front of it.
    spec fn descending(self, nodes: Nodes<T>, subtree: Tree<T>) -> bool {
        &&& self.anchored(nodes)
        &&& leads_down(nodes, self.tree, self.height(nodes), self.stack@)
        &&& leads_into(nodes, self.tree, self.stack@, subtree)
        &&& self.summary@ == total(items_up_to(nodes, self.height(nodes), self.stack@))
    }

    /// Whether the cursor has come to the node `id` and has not got past it. On the way up the
    /// path ends there, and the summary is that of what the cursor has behind it. On the way
    /// down the path ends there or leads there, and the summary is that of what is in front
    /// of the node.
    pub closed spec fn halted(self, nodes: Nodes<T>, id: NodeId) -> bool {
        let path = self.stack@;
        let height = self.height(nodes);
        let unread = Tree::NonResident(id);
        &&& self.anchored(nodes)
        &&& self.did_seek
        &&& {
            ||| {
                &&& path.len() > 0
                &&& path.last().0 == unread
                &&& leads_down(nodes, self.tree, height, path)
                &&& points_at(nodes, path)
                &&& self.summary@ == total(walked(nodes, self.tree, height, path))
            }
            ||| {
                &&& leads_down(nodes, self.tree, height, path)
                &&& leads_into(nodes, self.tree, path, unread)
                &&& self.summary@ == total(items_up_to(nodes, height, path))
            }
            ||| {
                let above = path.drop_last();
                &&& path.len() > 0
                &&& path.last() == (unread, 0usize)
                &&& leads_down(nodes, self.tree, height, above)
                &&& leads_into(nodes, self.tree, above, unread)
                &&& self.summary@ == total(items_up_to(nodes, height, above))
            }
        }
    }

    /// The number of items in front of the cursor.
    pub closed spec fn position(self, nodes: Nodes<T>) -> int {
        if self.did_seek {
            walked(nodes, self.tree, self.height(nodes), self.stack@).len() as int
        } else {
            0
        }
    }

    /// Whether the nodes on the way to what the tree shows at `index` are in memory.
    pub open spec fn way_is_in_memory(self, nodes: Nodes<T>, index: int) -> bool {
        way_in_memory(nodes, self.tree(), self.tree().at(nodes).height(), index)
    }

    /// Whether two cursors move in the same tree and remember the same leaf.
    pub open spec fn same_anchor(self, other: Self) -> bool {
        self.tree() == other.tree() && self.remembered() == other.remembered()
    }

    /// A cursor stands at an item, or behind everything.
    pub proof fn lemma_position_bounds(self, nodes: Nodes<T>)
        requires
            self.wf(nodes),
        ensures
            0 <= self.position(nodes) <= self.items(nodes).len(),
            self.sought() && self.position(nodes) < self.items(nodes).len() ==> self.items(
                nodes,
            )[self.position(nodes)] is Item,
    {
        if self.did_seek {
            let path = self.stack@;
            lemma_walked_is_prefix(nodes, self.tree, self.height(nodes), path);
            if path.len() > 0 {
                let h = self.height(nodes);
                lemma_walk_goes_on(nodes, self.tree, h, path, path.last().1 as int);
            }
        }
    }

    /// A sound cursor is anchored.
    pub proof fn lemma_wf_is_anchored(self, nodes: Nodes<T>)
        requires
            self.wf(nodes),
        ensures
            self.anchored(nodes),
    {
    }

    /// The tree of an anchored cursor has a sound shape.
    pub proof fn lemma_anchored(self, nodes: Nodes<T>)
        requires
            self.anchored(nodes),
        ensures
            self.tree().can_be_walked(nodes),
    {
    }

    /// Only a cursor behind everything has no path.
    proof fn lemma_end(self, nodes: Nodes<T>)
        requires
            self.wf(nodes),
            self.did_seek,
        ensures
            self.position(nodes) == self.items(nodes).len() <==> self.stack@.len() == 0,
    {
        lemma_walked_is_prefix(nodes, self.tree, self.height(nodes), self.stack@);
    }

    /// The leaf that a cursor stands in is the end of the path.
    proof fn lemma_item_ids(self, nodes: Nodes<T>)
        requires
            self.wf(nodes),
            self.did_seek,
        ensures
            self.stack@.len() > 0 ==> {
                &&& self.position(nodes) < self.items(nodes).len()
                &&& self.item_ids(nodes) == id_of(self.stack@.last().0)
            },
    {
        let path = self.stack@;
        let h = self.height(nodes);
        if path.len() > 0 {
            lemma_walk_goes_on(nodes, self.tree, h, path, path.last().1 as int);
            lemma_way_end(nodes, self.tree, h, path, self.position(nodes));
        }
    }

    /// A cursor in `tree` that has no place yet.
    pub fn new(tree: Tree<T>) -> (result: Self)
        ensures
            result.tree() == tree,
            !result.sought(),
            result.remembered() is None,
            forall|nodes: Nodes<T>|
                tree.wf(nodes) || tree.can_be_walked(nodes) ==> #[trigger] result.wf(nodes),
            forall|nodes: Nodes<T>|
                tree.wf(nodes) || tree.can_be_walked(nodes) ==> #[trigger] result.anchored(nodes),
            forall|nodes: Nodes<T>| #[trigger] result.position(nodes) == 0,
    {
        let summary = <T::Summary as Default>::default();
        proof {
            T::Summary::default_is_zero(summary);
            T::Summary::value_fits(summary);
            assert forall|nodes: Nodes<T>| #[trigger] tree.wf(nodes) implies tree.can_be_walked(
                nodes,
            ) by {
                lemma_sound_is_shaped(nodes, tree, tree.at(nodes).height(), true);
                if tree.dangling(nodes) {
                    assert(piece_values(tree.content(nodes)).len() == 0);
                } else {
                    lemma_total_fits(nodes, tree);
                }
            }
        }
        Cursor { tree, stack: Inline::new(), summary, did_seek: false, prev_leaf: None }
    }

    /// Gives up the place.
    fn reset(&mut self)
        ensures
            final(self).same_anchor(*old(self)),
            !final(self).sought(),
            forall|nodes: Nodes<T>| old(self).anchored(nodes) ==> #[trigger] final(self).wf(nodes),
            forall|nodes: Nodes<T>| #[trigger] final(self).position(nodes) == 0,
    {
        self.did_seek = false;
        self.stack.truncate(0);
        self.summary = <T::Summary as Default>::default();
        proof {
            T::Summary::default_is_zero(self.summary);
        }
    }

    /// The subtree at the end of the path, and the index there.
    fn end_of_path(&self) -> (result: (Tree<T>, usize))
        requires
            self.stack@.len() > 0,
        ensures
            result == self.stack@.last(),
    {
        let entries = self.stack.as_slice();
        let entry = &entries[entries.len() - 1];
        (entry.0.clone(), entry.1)
    }

    /// Moves the index at the end of the path.
    fn set_index(&mut self, index: usize)
        requires
            old(self).stack@.len() > 0,
        ensures
            final(self).stack@ == old(self).stack@.update(
                old(self).stack@.len() - 1,
                (old(self).stack@.last().0, index),
            ),
            final(self).tree == old(self).tree,
            final(self).summary == old(self).summary,
            final(self).did_seek == old(self).did_seek,
            final(self).prev_leaf == old(self).prev_leaf,
    {
        match self.stack.as_mut_slice().last_mut() {
            Some(entry) => {
                entry.1 = index;
            },
            None => vstd::pervasive::unreached(),
        }
    }

    /// The item that a settled cursor stands at.
    fn current<'a, S: 'a + NodeStore<T>>(&'a self, db: &'a mut S) -> (result: Result<
        Option<&'a T>,
        S::ReadError,
    >)
        requires
            self.anchored(old(db).nodes()),
            self.did_seek,
            leads_down(
                old(db).nodes(),
                self.tree,
                self.height(old(db).nodes()),
                self.stack@,
            ),
            self.stack@.len() > 0 ==> {
                &&& self.stack@.last().0.at(old(db).nodes()) is Leaf
                &&& self.stack@.last().1 <= self.stack@.last().0.at(old(db).nodes()).len()
            },
        ensures
            read_in_order(
                *old(db),
                *final(db),
                if self.stack@.len() > 0 {
                    id_of(self.stack@.last().0)
                } else {
                    Seq::empty()
                },
                result,
            ),
            self.stack@.len() > 0 && points_at(old(db).nodes(), self.stack@) ==> id_of(
                self.stack@.last().0,
            ) == self.item_ids(old(db).nodes()),
            result matches Ok(item) ==> if points_at(old(db).nodes(), self.stack@) {
                is_item_at(
                    self.items(old(db).nodes()),
                    self.position(old(db).nodes()),
                    item,
                )
            } else {
                item is None
            },
            self.stack@.len() == 0 ==> result is Ok && *final(db) == *old(db),
            points_at(old(db).nodes(), self.stack@) && self.way_is_in_memory(
                old(db).nodes(),
                self.position(old(db).nodes()),
            ) ==> result is Ok,
            self.tree().in_memory() ==> result is Ok,
    {
        let ghost nodes = db.nodes();
        let entries = self.stack.as_slice();
        if entries.len() > 0 {
            let ghost h = self.height(nodes);
            let entry = &entries[entries.len() - 1];
            proof {
                lemma_walk_goes_on(nodes, self.tree, h, self.stack@, entry.1 as int);
                let position = self.position(nodes);
                if points_at(nodes, self.stack@) {
                    lemma_way_end(nodes, self.tree, h, self.stack@, position);
                }
                if points_at(nodes, self.stack@) && self.way_is_in_memory(nodes, position) {
                    lemma_path_on_way(nodes, self.tree, h, self.stack@, position);
                }
                if self.tree.in_memory() {
                    lemma_path_in_memory(nodes, self.tree, h, self.stack@);
                }
            }
            match entry.0.node(db) {
                Ok(Node::Leaf { items, .. }) => {
                    assert(known(items@).skip(entry.1 as int).len() == items@.len() - entry.1);
                    if entry.1 == items.as_slice().len() {
                        Ok(None)
                    } else {
                        Ok(Some(&items.as_slice()[entry.1]))
                    }
                },
                Ok(Node::Internal { .. }) => vstd::pervasive::unreached(),
                Err(error) => Err(error),
            }
        } else {
            proof {
                lemma_read_nothing(*db);
            }
            Ok(None)
        }
    }

    /// The item that the cursor stands at, or `None` behind the last item. The
    /// cursor needs a place.
    pub fn item<'a, S: 'a + NodeStore<T>>(&'a self, db: &'a mut S) -> (result: Result<
        Option<&'a T>,
        S::ReadError,
    >)
        requires
            self.wf(old(db).nodes()),
            self.sought(),
        ensures
            read_in_order(*old(db), *final(db), self.item_ids(old(db).nodes()), result),
            result matches Ok(item) ==> is_item_at(
                self.items(old(db).nodes()),
                self.position(old(db).nodes()),
                item,
            ),
            self.position(old(db).nodes()) == self.items(old(db).nodes()).len() ==> result is Ok
                && *final(db) == *old(db),
            self.way_is_in_memory(old(db).nodes(), self.position(old(db).nodes())) ==> result is Ok,
            self.tree().in_memory() ==> result is Ok,
    {
        proof {
            self.lemma_end(db.nodes());
            lemma_walked_is_prefix(
                db.nodes(),
                self.tree,
                self.height(db.nodes()),
                self.stack@,
            );
        }
        self.current(db)
    }

    /// Goes down from `subtree`, which the path leads into, to the first item of it.
    fn descend_to_start<S: NodeStore<T>>(&mut self, subtree: Tree<T>, db: &mut S) -> (result:
        Result<(), S::ReadError>)
        requires
            old(self).anchored(old(db).nodes()),
            leads_down(
                old(db).nodes(),
                old(self).tree,
                old(self).height(old(db).nodes()),
                old(self).stack@,
            ),
            leads_into(old(db).nodes(), old(self).tree, old(self).stack@, subtree),
            old(self).summary@ == total(
                items_up_to(
                    old(db).nodes(),
                    old(self).height(old(db).nodes()),
                    old(self).stack@,
                ),
            ),
        ensures
            read_in_order(
                *old(db),
                *final(db),
                way_ids(
                    old(db).nodes(),
                    subtree,
                    (old(self).height(old(db).nodes()) - old(self).stack@.len()) as nat,
                    0,
                ),
                result,
            ),
            final(self).same_anchor(*old(self)),
            result is Ok ==> {
                &&& final(self).sought()
                &&& final(self).settled(old(db).nodes())
                &&& old(self).stack@.len() > 0 || old(self).items(old(db).nodes()).len() > 0
                    ==> points_at(old(db).nodes(), final(self).stack@)
                &&& final(self).position(old(db).nodes()) == items_up_to(
                    old(db).nodes(),
                    old(self).height(old(db).nodes()),
                    old(self).stack@,
                ).len()
                &&& final(self).stack@.len() > 0
            },
            result is Err ==> final(self).halted(
                old(db).nodes(),
                ids_read(*old(db), *final(db)).last(),
            ),
            final(self).sought(),
            way_in_memory(
                old(db).nodes(),
                subtree,
                (old(self).height(old(db).nodes()) - old(self).stack@.len()) as nat,
                0,
            ) ==> result is Ok,
            old(self).tree().in_memory() ==> result is Ok,
    {
        let ghost nodes = db.nodes();
        let ghost h = self.height(nodes);
        let ghost passed = items_up_to(nodes, h, self.stack@);
        self.did_seek = true;
        let mut first = subtree.clone();
        let ghost start = *db;
        let ghost mut ids = Reads::empty();
        let ghost all = way_ids(nodes, subtree, (h - self.stack@.len()) as nat, 0);
        proof {
            lemma_read_nothing(start);
            assert(ids + all =~= all);
        }
        loop
            invariant
                db.nodes() == nodes,
                db.failures() == old(db).failures(),
                nodes == old(db).nodes(),
                start == *old(db),
                has_read(start, *db, ids),
                all == way_ids(nodes, subtree, (h - old(self).stack@.len()) as nat, 0),
                all == ids + way_ids(nodes, first, (h - self.stack@.len()) as nat, 0),
                h == self.height(nodes),
                passed == items_up_to(nodes, h, old(self).stack@),
                self.same_anchor(*old(self)),
                self.anchored(nodes),
                self.did_seek,
                self.summary@ == total(passed),
                leads_down(nodes, self.tree, h, self.stack@),
                leads_into(nodes, self.tree, self.stack@, first),
                way_in_memory(nodes, subtree, (h - old(self).stack@.len()) as nat, 0)
                    ==> way_in_memory(nodes, first, (h - self.stack@.len()) as nat, 0),
                items_up_to(nodes, h, self.stack@) == passed,
                self.stack@.len() == 0 ==> old(self).stack@.len() == 0,
            decreases h - self.stack@.len(),
        {
            let ghost path = self.stack@;
            let ghost between = *db;
            let ghost height = (h - path.len()) as nat;
            self.stack.push((first.clone(), 0));
            proof {
                if self.tree.in_memory() {
                    lemma_into_in_memory(nodes, self.tree, h, path, first);
                }
            }
            let node = match first.node(db) {
                Ok(node) => node,
                Err(error) => {
                    proof {
                        let result = Err::<(), S::ReadError>(error);
                        lemma_way_read(start, between, *db, ids, first, height, 0, all, result);
                        lemma_read_on(start, between, *db, ids, id_of(first), result);
                        lemma_last_read(between, *db, first, result);
                        assert(self.stack@.drop_last() =~= path);
                    }
                    return Err(error);
                },
            };
            proof {
                lemma_walk_descends(nodes, self.tree, h, path, first, 0);
                lemma_front_and_back(nodes, first.at(nodes), end_height(h, self.stack@), 0);
                if let NodeView::Internal { child_trees, child_summaries, .. } = first.at(nodes) {
                    lemma_least_items_of(
                        nodes,
                        child_trees[0],
                        child_summaries[0],
                        (end_height(h, self.stack@) - 1) as nat,
                        self.tree.rigor(nodes),
                    );
                    assert(child_trees.take(0).len() == 0);
                }
                assert(items_passed(nodes, h, self.stack@) =~= passed);
                lemma_path_splits(nodes, self.tree, h, self.stack@);
            }
            match node {
                Node::Internal { child_trees, .. } => {
                    let child = child_trees.as_slice()[0].clone();
                    proof {
                        lemma_way_read(start, between, *db, ids, first, height, 0, all, Ok(()));
                        lemma_way_into(nodes, first, height, 0, 0);
                        let rest = way_ids(nodes, child, (height - 1) as nat, 0);
                        assert(all =~= ids + id_of(first) + rest);
                        ids = ids + id_of(first);
                    }
                    first = child;
                },
                Node::Leaf { .. } => {
                    proof {
                        lemma_way_read(start, between, *db, ids, first, height, 0, all, Ok(()));
                    }
                    return Ok(());
                },
            }
        }
    }

    /// Whether a cursor has moved from here to the next item, or behind the last one.
    pub open spec fn steps_to(self, nodes: Nodes<T>, after: Self) -> bool {
        &&& after.same_anchor(self)
        &&& after.wf(nodes)
        &&& after.sought()
        &&& after.position(nodes) == next_position(
            self.position(nodes),
            self.items(nodes).len() as int,
        )
    }

    /// What is read to move to the next item.
    pub open spec fn next_ids(self, nodes: Nodes<T>) -> Reads {
        let position = self.position(nodes);
        if position < self.items(nodes).len() {
            walk_ids(
                nodes,
                self.tree(),
                self.tree().at(nodes).height(),
                position,
                position + 1,
            )
        } else {
            Seq::empty()
        }
    }

    /// Moves to the next item, or behind the last one. A cursor that is already
    /// there stays, and no node is read. The cursor needs a place.
    ///
    /// If the leaf that the cursor stands in cannot be read, the cursor stays. If another
    /// node cannot be read, the cursor halts there, at no item, and has to seek again.
    #[verifier::rlimit(60)]
    pub fn next<S: NodeStore<T>>(&mut self, db: &mut S) -> (result: Result<(), S::ReadError>)
        requires
            old(self).wf(old(db).nodes()),
            old(self).sought(),
        ensures
            read_in_order(
                *old(db),
                *final(db),
                old(self).next_ids(old(db).nodes()),
                result,
            ),
            final(self).same_anchor(*old(self)),
            final(self).anchored(old(db).nodes()),
            final(self).sought(),
            old(self).position(old(db).nodes()) == old(self).items(old(db).nodes()).len()
                ==> result is Ok && *final(self) == *old(self) && *final(db) == *old(db),
            result is Ok ==> old(self).steps_to(old(db).nodes(), *final(self)),
            result is Err ==> final(self).halted(
                old(db).nodes(),
                ids_read(*old(db), *final(db)).last(),
            ),
            result is Err && ids_read(*old(db), *final(db)).len() <= old(self).item_ids(
                old(db).nodes(),
            ).len() ==> *final(self) == *old(self),
            ({
                let nodes = old(db).nodes();
                let position = old(self).position(nodes);
                old(self).way_is_in_memory(nodes, position) && old(self).way_is_in_memory(
                    nodes,
                    position + 1,
                ) ==> result is Ok
            }),
            old(self).tree().in_memory() ==> result is Ok,
    {
        proof {
            self.lemma_end(db.nodes());
            self.lemma_position_bounds(db.nodes());
        }
        let ghost nodes = db.nodes();
        let ghost h = self.height(nodes);
        let ghost tree = self.tree;
        let ghost items = tree.content(nodes);
        let ghost goal = self.position(nodes) + 1;
        let ghost start = *db;
        let ghost from = self.position(nodes);
        let ghost all = self.next_ids(nodes);
        if self.stack.as_slice().len() == 0 {
            proof {
                lemma_read_nothing(start);
            }
            return Ok(());
        }
        let (leaf, index) = self.end_of_path();
        proof {
            lemma_walk_goes_on(nodes, tree, h, self.stack@, index as int);
            lemma_walk_goes_on(nodes, tree, h, self.stack@, index + 1);
            if self.way_is_in_memory(nodes, goal - 1) {
                lemma_all_on_way(nodes, tree, h, self.stack@, goal - 1);
            }
            if tree.in_memory() {
                lemma_path_in_memory(nodes, tree, h, self.stack@);
            }
        }
        let ghost mut ids = id_of(leaf);
        proof {
            self.lemma_item_ids(nodes);
            lemma_climb_leaf_ids(nodes, tree, h, self.stack@, from, goal);
            lemma_left_leaf(nodes, tree, h, self.stack@, from);
        }
        match leaf.node(db) {
            Ok(Node::Leaf { items: leaf_items, .. }) => {
                let item_summary = leaf_items.as_slice()[index].summarize();
                proof {
                    let path = self.stack@;
                    let here = walked(nodes, tree, h, path);
                    let item = Piece::Item(leaf_items@[index as int]);
                    let there = items_before(nodes, h, path) + front_items(
                        nodes,
                        leaf.at(nodes),
                        end_height(h, path),
                        index + 1,
                    );
                    assert(there =~= here + seq![item]);
                    lemma_total_concat(here, seq![item]);
                    lemma_total_one(item);
                    lemma_total_part_fits(items, 0, there.len() as int);
                    assert(items.subrange(0, there.len() as int) =~= there);
                }
                self.summary.add_assign(&item_summary);
                if index + 1 < leaf_items.as_slice().len() {
                    proof {
                        lemma_path_end_index(
                            nodes,
                            tree,
                            h,
                            self.stack@,
                            (index + 1) as usize,
                        );
                    }
                    self.set_index(index + 1);
                    return Ok(());
                }
            },
            Ok(Node::Internal { .. }) => vstd::pervasive::unreached(),
            Err(error) => {
                proof {
                    lemma_last_read(start, *db, leaf, Err::<(), S::ReadError>(error));
                    lemma_read_within(start, *db, ids, all, Err::<(), S::ReadError>(error));
                }
                return Err(error);
            },
        }
        proof {
            lemma_front_and_back(nodes, leaf.at(nodes), end_height(h, self.stack@), index + 1);
            lemma_walk_climbs(nodes, tree, h, self.stack@);
        }
        self.stack.pop();
        assert(self.stack@ =~= old(self).stack@.take(self.stack@.len() as int));
        while self.stack.as_slice().len() > 0
            invariant
                db.nodes() == nodes,
                db.failures() == old(db).failures(),
                nodes == old(db).nodes(),
                start == *old(db),
                has_read(start, *db, ids),
                ids.len() >= old(self).item_ids(nodes).len(),
                from == old(self).position(nodes),
                all == old(self).next_ids(nodes),
                all == walk_ids(nodes, tree, h, from, goal),
                lies_into(nodes, tree, h, self.stack@, from),
                ids == climbed_ids(nodes, tree, h, self.stack@, from),
                tree == old(self).tree,
                h == self.height(nodes),
                items == tree.content(nodes),
                goal == old(self).position(nodes) + 1,
                old(self).position(nodes) < items.len(),
                self.stack@.len() <= old(self).stack@.len(),
                self.stack@ == old(self).stack@.take(self.stack@.len() as int),
                old(self).way_is_in_memory(nodes, goal - 1) ==> forall|level: int|
                    0 <= level < old(self).stack@.len() ==> (
                    #[trigger] old(self).stack@[level]).0 is Resident,
                self.same_anchor(*old(self)),
                self.anchored(nodes),
                self.did_seek,
                leads_down(nodes, tree, h, self.stack@),
                points_at(nodes, self.stack@),
                self.stack@.len() > 0 ==> self.stack@.last().0.at(nodes) is Internal,
                walked(nodes, tree, h, self.stack@).len() == goal,
                self.summary@ == total(walked(nodes, tree, h, self.stack@)),
            decreases self.stack@.len(),
        {
            let (subtree, index) = self.end_of_path();
            let ghost path = self.stack@;
            let ghost between = *db;
            proof {
                lemma_front_grows(
                    nodes,
                    subtree.at(nodes),
                    end_height(h, path),
                    index as int,
                    index as int,
                );
                lemma_left_node(nodes, tree, h, path, from, goal);
                assert(path.last() == old(self).stack@[path.len() - 1]);
                if tree.in_memory() {
                    lemma_path_in_memory(nodes, tree, h, path);
                }
            }
            let next_child = match subtree.node(db) {
                Ok(Node::Internal { child_trees, .. }) => {
                    let trees = child_trees.as_slice();
                    let len = trees.len();
                    if index + 1 < len {
                        Some(trees[index + 1].clone())
                    } else {
                        None
                    }
                },
                Ok(Node::Leaf { .. }) => vstd::pervasive::unreached(),
                Err(error) => {
                    proof {
                        let result = Err::<(), S::ReadError>(error);
                        lemma_read_on(start, between, *db, ids, id_of(subtree), result);
                        lemma_last_read(between, *db, subtree, result);
                        lemma_read_within(start, *db, ids + id_of(subtree), all, result);
                    }
                    return Err(error);
                },
            };
            proof {
                let result = Ok::<(), S::ReadError>(());
                lemma_read_on(start, between, *db, ids, id_of(subtree), result);
                ids = ids + id_of(subtree);
            }
            match next_child {
                Some(child) => {
                    proof {
                        lemma_path_end_index(nodes, tree, h, path, (index + 1) as usize);
                    }
                    self.set_index(index + 1);
                    proof {
                        let node = subtree.at(nodes);
                        lemma_least_items_of(
                            nodes,
                            child,
                            node->child_summaries[index + 1],
                            (end_height(h, path) - 1) as nat,
                            tree.rigor(nodes),
                        );
                        if self.way_is_in_memory(nodes, goal) {
                            lemma_into_on_way(nodes, tree, h, self.stack@, goal);
                        }
                    }
                    let ghost between = *db;
                    let ghost rest = ids_below(nodes, tree, h, self.stack@, goal);
                    proof {
                        assert(all == ids + rest) by {
                            lemma_turned_down(
                                nodes,
                                tree,
                                h,
                                path,
                                from,
                                goal,
                                (index + 1) as usize,
                            );
                        }
                    }
                    let result = self.descend_to_start(child, db);
                    proof {
                        lemma_read_on(start, between, *db, ids, rest, result);
                    }
                    return result;
                },
                None => {
                    proof {
                        lemma_front_and_back(
                            nodes,
                            subtree.at(nodes),
                            end_height(h, path),
                            index + 1,
                        );
                        lemma_walk_climbs(nodes, tree, h, path);
                    }
                    self.stack.pop();
                    assert(self.stack@ =~= old(self).stack@.take(self.stack@.len() as int));
                },
            }
        }
        proof {
            lemma_walk_to_end(nodes, tree, h, from, goal);
        }
        Ok(())
    }
}

impl<T: Item> Cursor<T> {
    /// Whether the cursor stands at the first item of a leaf.
    pub closed spec fn at_leaf_start(self) -> bool {
        self.stack@.len() > 0 && self.stack@.last().1 == 0
    }

    /// A cursor stands at the first item of a leaf exactly where a leaf of the tree begins,
    /// whatever it remembers.
    pub proof fn law_leaf_start(self, nodes: Nodes<T>)
        requires
            self.wf(nodes),
            self.sought(),
            self.position(nodes) < self.items(nodes).len(),
        ensures
            self.at_leaf_start() <==> leaf_from(
                nodes,
                self.tree(),
                self.tree().at(nodes).height(),
                self.position(nodes),
            ) == self.position(nodes),
    {
        let path = self.stack@;
        let h = self.height(nodes);
        self.lemma_end(nodes);
        lemma_walk_goes_on(nodes, self.tree, h, path, path.last().1 as int);
        lemma_leaf_from(nodes, self.tree, h, path, self.position(nodes));
    }

    /// Whether the nodes on the way to the item at the cursor, and on the way to the last one
    /// in front of its leaf, are in memory.
    spec fn way_back_in_memory(self, nodes: Nodes<T>) -> bool {
        let before = items_before(nodes, self.height(nodes), self.stack@).len();
        &&& self.way_is_in_memory(nodes, self.position(nodes))
        &&& before > 0 ==> self.way_is_in_memory(nodes, before - 1)
    }

    /// What is read to find the leaf in front of the one that the cursor stands in.
    spec fn search_ids(self, nodes: Nodes<T>) -> Reads {
        let height = self.height(nodes);
        let before = items_before(nodes, height, self.stack@).len() as int;
        way_back_ids(nodes, self.tree, height, before)
    }

    /// Looks for the leaf in front of the one that the cursor stands in, and remembers it,
    /// or that there is none. What is remembered is not looked for again.
    fn prev_leaf<S: NodeStore<T>>(&mut self, db: &mut S) -> (result: Result<(), S::ReadError>)
        requires
            old(self).wf(old(db).nodes()),
            old(self).stack@.len() > 0,
        ensures
            old(self).prev_leaf is None ==> read_in_order(
                *old(db),
                *final(db),
                old(self).search_ids(old(db).nodes()),
                result,
            ),
            final(self).anchored(old(db).nodes()),
            final(self).tree == old(self).tree,
            final(self).stack == old(self).stack,
            final(self).summary == old(self).summary,
            final(self).did_seek == old(self).did_seek,
            old(self).prev_leaf is Some ==> result is Ok && *final(self) == *old(self)
                && *final(db) == *old(db),
            result is Err ==> *final(self) == *old(self),
            result is Ok && old(self).prev_leaf is None ==> {
                let nodes = old(db).nodes();
                let height = old(self).height(nodes);
                let found = leaf_before(nodes, height, old(self).stack@);
                let before = items_before(nodes, height, old(self).stack@);
                &&& final(self).prev_leaf == Some(found)
                &&& match found {
                    None => before.len() == 0,
                    Some(leaf) => {
                        &&& before.len() > 0
                        &&& leaf == way_end(nodes, old(self).tree, height, before.len() - 1)
                        &&& leaf.content(nodes).is_suffix_of(before)
                    },
                }
            },
            old(self).way_back_in_memory(old(db).nodes()) ==> {
                &&& result is Ok
                &&& old(self).prev_leaf is None ==> (final(self).prev_leaf matches Some(Some(leaf))
                    ==> leaf is Resident)
            },
            old(self).tree.in_memory() ==> result is Ok,
    {
        let ghost nodes = db.nodes();
        let ghost tree = self.tree;
        let ghost h = self.height(nodes);
        let ghost path = self.stack@;
        let ghost start = *db;
        let ghost all = self.search_ids(nodes);
        if self.prev_leaf.is_none() {
            let mut level: usize = self.stack.as_slice().len();
            proof {
                lemma_read_nothing(start);
                lemma_front_and_back(nodes, path.last().0.at(nodes), end_height(h, path), 0);
                assert(path.take(level as int) =~= path);
                if self.way_back_in_memory(nodes) {
                    lemma_walk_goes_on(nodes, tree, h, path, path.last().1 as int);
                    lemma_front_and_back(
                        nodes,
                        path.last().0.at(nodes),
                        end_height(h, path),
                        path.last().1 as int,
                    );
                    lemma_all_on_way(nodes, tree, h, path, self.position(nodes));
                }
            }
            while level > 1
                invariant
                    1 <= level <= path.len(),
                    *db == start,
                    *db == *old(db),
                    db.nodes() == nodes,
                    nodes == old(db).nodes(),
                    all == way_back_ids(nodes, tree, h, items_before(nodes, h, path).len() as int),
                    all == self.search_ids(nodes),
                    *self == *old(self),
                    self.anchored(nodes),
                    self.prev_leaf is None,
                    tree == self.tree,
                    h == self.height(nodes),
                    path == self.stack@,
                    leads_down(nodes, tree, h, path),
                    items_before(nodes, h, path) == items_before(
                        nodes,
                        h,
                        path.take(level as int),
                    ),
                    leaf_before(nodes, h, path) == leaf_before(nodes, h, path.take(level as int)),
                    old(self).way_back_in_memory(nodes) ==> forall|j: int|
                        0 <= j < path.len() ==> (#[trigger] path[j]).0 is Resident,
                decreases level,
            {
                let ancestor = self.stack.as_slice()[level - 2].0.clone();
                let index = self.stack.as_slice()[level - 2].1;
                proof {
                    let upper = path.take(level as int);
                    lemma_upper_path(nodes, tree, h, path, level as int);
                    assert(upper.drop_last() =~= path.take(level - 1));
                    assert(upper.drop_last().last() == (ancestor, index));
                    assert(path[level - 2] == (ancestor, index));
                    lemma_step_back(nodes, tree, h, upper);
                }
                if index != 0 {
                    proof {
                        let upper = path.take(level as int);
                        let node = upper.last().0.at(nodes);
                        assert(leads_down(nodes, tree, h, upper));
                        lemma_least_items(
                            nodes,
                            node,
                            end_height(h, upper),
                            false,
                            tree.rigor(nodes),
                        );
                        lemma_way_back_ids(nodes, tree, h, upper);
                    }
                    let ghost rest = all.skip(id_of(ancestor).len() as int);
                    proof {
                        assert(all =~= id_of(ancestor) + rest);
                        lemma_begins_with(id_of(ancestor), rest);
                    }
                    let prev_child = match ancestor.node(db) {
                        Ok(Node::Internal { child_trees, .. }) => {
                            child_trees.as_slice()[index - 1].clone()
                        },
                        Ok(Node::Leaf { .. }) => vstd::pervasive::unreached(),
                        Err(error) => {
                            proof {
                                lemma_read_within(
                                    start,
                                    *db,
                                    id_of(ancestor),
                                    all,
                                    Err::<(), S::ReadError>(error),
                                );
                            }
                            return Err(error);
                        },
                    };
                    let ghost between = *db;
                    let ghost way = way_ids(
                        nodes,
                        prev_child,
                        prev_child.at(nodes).height(),
                        prev_child.content(nodes).len() - 1,
                    );
                    proof {
                        assert(rest =~= way);
                    }
                    let leaf = match prev_child.rightmost_leaf(db) {
                        Ok(leaf) => leaf,
                        Err(error) => {
                            proof {
                                let result = Err::<(), S::ReadError>(error);
                                lemma_read_on(
                                    start,
                                    between,
                                    *db,
                                    id_of(ancestor),
                                    rest,
                                    result,
                                );
                            }
                            return Err(error);
                        },
                    };
                    proof {
                        let result = Ok::<(), S::ReadError>(());
                        lemma_read_on(start, between, *db, id_of(ancestor), rest, result);
                        lemma_suffix_of_suffix(
                            leaf.content(nodes),
                            prev_child.content(nodes),
                            items_before(nodes, h, path),
                        );
                    }
                    self.prev_leaf = Some(Some(leaf));
                    return Ok(());
                }
                level = level - 1;
            }
            self.prev_leaf = Some(None);
        }
        Ok(())
    }

    /// What is read to find the leaf in front of the cursor, which stands at the first item
    /// of a leaf.
    pub open spec fn back_ids(self, nodes: Nodes<T>) -> Reads {
        if self.remembered() is None {
            way_back_ids(
                nodes,
                self.tree(),
                self.tree().at(nodes).height(),
                self.position(nodes),
            )
        } else {
            Seq::empty()
        }
    }

    /// The item in front of the cursor, or `None` if there is none. The cursor needs
    /// a place, and has to stand at an item.
    ///
    /// At the first item of a leaf the answer comes from the leaf that the cursor
    /// remembers. A cursor that has moved on since it looked for that leaf still
    /// remembers it. The leaf is read twice, and the answer goes by the second read.
    pub fn prev_item<'a, S: 'a + NodeStore<T>>(&'a mut self, db: &'a mut S) -> (result: Result<
        Option<&'a T>,
        S::ReadError,
    >)
        requires
            old(self).wf(old(db).nodes()),
            old(self).sought(),
            old(self).position(old(db).nodes()) < old(self).items(old(db).nodes()).len(),
        ensures
            !old(self).at_leaf_start() ==> read_in_order(
                *old(db),
                *final(db),
                old(self).item_ids(old(db).nodes()),
                result,
            ),
            old(self).at_leaf_start() ==> match final(self).remembered() {
                None => result is Err && read_in_order(
                    *old(db),
                    *final(db),
                    old(self).back_ids(old(db).nodes()),
                    result,
                ),
                Some(None) => result is Ok && read_in_order(
                    *old(db),
                    *final(db),
                    old(self).back_ids(old(db).nodes()),
                    result,
                ),
                Some(Some(leaf)) => {
                    &&& read_again(*old(db), *final(db), result)
                    &&& has_read(
                        *old(db),
                        *final(db),
                        old(self).back_ids(old(db).nodes()) + id_of(leaf) + id_of(leaf),
                    )
                    &&& leaf is Resident ==> result is Ok && final(db).failures() == old(
                        db,
                    ).failures()
                },
            },
            final(self).wf(old(db).nodes()),
            final(self).anchored(old(db).nodes()),
            final(self).tree() == old(self).tree(),
            final(self).sought(),
            final(self).position(old(db).nodes()) == old(self).position(old(db).nodes()),
            final(self).at_leaf_start() == old(self).at_leaf_start(),
            !old(self).at_leaf_start() || old(self).remembered() is Some
                ==> final(self).remembered() == old(self).remembered(),
            old(self).remembered() == Some(None::<Tree<T>>) && old(self).at_leaf_start()
                ==> result is Ok && *final(db) == *old(db),
            result is Ok && old(self).at_leaf_start() && old(self).remembered() is None ==> {
                let nodes = old(db).nodes();
                &&& final(self).remembered() matches Some(found)
                &&& found is None <==> old(self).position(nodes) == 0
                &&& found matches Some(leaf) ==> {
                    &&& leaf == way_end(
                        nodes,
                        old(self).tree(),
                        old(self).tree().at(nodes).height(),
                        old(self).position(nodes) - 1,
                    )
                    &&& leaf.content(nodes).is_suffix_of(
                        old(self).items(nodes).take(old(self).position(nodes)),
                    )
                }
            },
            result matches Ok(item) ==> {
                let nodes = old(db).nodes();
                let tree = old(self).tree();
                let position = old(self).position(nodes);
                leaf_from(nodes, tree, tree.at(nodes).height(), position) < position ==> {
                    &&& item matches Some(item)
                    &&& tree.content(nodes)[position - 1] == Piece::Item(*item)
                }
            },
            result matches Ok(item) ==> {
                let nodes = old(db).nodes();
                if !old(self).at_leaf_start() || old(self).remembered() is None {
                    is_item_at(old(self).items(nodes), old(self).position(nodes) - 1, item)
                } else {
                    match old(self).remembered()->0 {
                        Some(leaf) => {
                            let items = leaf.content(nodes);
                            is_item_at(items, items.len() - 1, item)
                        },
                        None => item is None,
                    }
                }
            },
            ({
                let nodes = old(db).nodes();
                let position = old(self).position(nodes);
                &&& old(self).way_is_in_memory(nodes, position)
                &&& position > 0 ==> old(self).way_is_in_memory(nodes, position - 1)
                &&& old(self).remembered() matches Some(Some(leaf)) ==> leaf is Resident
            }) ==> result is Ok,
            old(self).tree().in_memory() ==> result is Ok,
    {
        let ghost nodes = db.nodes();
        let ghost tree = self.tree;
        let ghost h = self.height(nodes);
        let ghost path = self.stack@;
        proof {
            self.lemma_end(nodes);
            self.law_leaf_start(nodes);
            self.lemma_position_bounds(nodes);
            lemma_path_splits(nodes, tree, h, path);
            lemma_walk_goes_on(nodes, tree, h, path, path.last().1 as int);
            lemma_front_and_back(nodes, path.last().0.at(nodes), end_height(h, path), 0);
            if self.way_is_in_memory(nodes, self.position(nodes)) {
                lemma_path_on_way(nodes, tree, h, path, self.position(nodes));
            }
            if tree.in_memory() {
                lemma_path_in_memory(nodes, tree, h, path);
            }
        }
        let (_, index) = self.end_of_path();
        let ghost start = *db;
        let ghost ids = self.back_ids(nodes);
        if index == 0 {
            assert(items_before(nodes, h, path).len() == self.position(nodes));
            proof {
                lemma_read_nothing(start);
            }
            match self.prev_leaf(db) {
                Ok(()) => {},
                Err(error) => {
                    return Err(error);
                },
            }
            assert(tree.content(nodes).take(self.position(nodes)) =~= items_before(nodes, h, path));
            match &self.prev_leaf {
                Some(Some(leaf)) => {
                    proof {
                        lemma_read_then_again(start, *db, ids, *leaf);
                    }
                    leaf.last_item(db)
                },
                _ => Ok(None),
            }
        } else {
            proof {
                lemma_way_end(nodes, tree, h, path, self.position(nodes));
            }
            let entries = self.stack.as_slice();
            match entries[entries.len() - 1].0.node(db) {
                Ok(Node::Leaf { items, .. }) => {
                    assert(known(items@)[index - 1] == Piece::Item(items@[index - 1]));
                    Ok(Some(&items.as_slice()[index - 1]))
                },
                Ok(Node::Internal { .. }) => vstd::pervasive::unreached(),
                Err(error) => Err(error),
            }
        }
    }
}

impl<T: Item> Cursor<T> {
    /// Whether a walk that began behind `start` items and ends behind `stop` items
    /// has come to the end of the path, and has gathered the items in between.
    spec fn walking<D: Dimension<Summary = T::Summary>>(
        self,
        nodes: Nodes<T>,
        start: int,
        stop: int,
        pos: D::V,
        bias: SeekBias,
        subtrees: Seq<Tree<T>>,
    ) -> bool {
        let items = self.items(nodes);
        let behind = walked(nodes, self.tree, self.height(nodes), self.stack@);
        &&& self.anchored(nodes)
        &&& self.tree.wf(nodes)
        &&& self.did_seek
        &&& leads_down(nodes, self.tree, self.height(nodes), self.stack@)
        &&& points_at(nodes, self.stack@)
        &&& self.stack@.len() > 0 ==> self.summary@ == total(behind)
        &&& 0 <= start <= behind.len() <= items.len()
        &&& stop_from::<T, D>(items, behind.len() as int, pos, bias) == stop
        &&& gathered(nodes, subtrees, self.tree.in_memory())
        &&& shows(nodes, subtrees, items.subrange(start, behind.len() as int))
    }

    /// Whether a walk that began behind `start` items and ends behind `stop` items
    /// has to go down into `subtree`.
    spec fn heading_into<D: Dimension<Summary = T::Summary>>(
        self,
        nodes: Nodes<T>,
        start: int,
        stop: int,
        pos: D::V,
        bias: SeekBias,
        subtree: Tree<T>,
    ) -> bool {
        let items = self.items(nodes);
        let reached = items_up_to(nodes, self.height(nodes), self.stack@).len() as int;
        &&& self.did_seek
        &&& self.tree.wf(nodes)
        &&& self.descending(nodes, subtree)
        &&& 0 <= start <= reached <= items.len()
        &&& stop_from::<T, D>(items, reached, pos, bias) == stop
        &&& self.stack@.len() > 0 ==> stop < reached + items_into(
            nodes,
            self.height(nodes),
            self.stack@,
        ).len()
    }

    /// Whether a walk that began behind `start` items has gathered the items in front of
    /// where the path leads to.
    spec fn has_gathered(self, nodes: Nodes<T>, start: int, subtrees: Seq<Tree<T>>) -> bool {
        let reached = items_up_to(nodes, self.height(nodes), self.stack@).len() as int;
        &&& gathered(nodes, subtrees, self.tree.in_memory())
        &&& shows(nodes, subtrees, self.items(nodes).subrange(start, reached))
    }

    /// Whether a walk that began behind `start` items and ends behind `stop` items
    /// has to go down into `subtree`, and has gathered the items in front of it if
    /// `keep` says so.
    spec fn walking_into<D: Dimension<Summary = T::Summary>>(
        self,
        nodes: Nodes<T>,
        start: int,
        stop: int,
        pos: D::V,
        bias: SeekBias,
        keep: bool,
        subtrees: Seq<Tree<T>>,
        subtree: Tree<T>,
    ) -> bool {
        &&& self.heading_into::<D>(nodes, start, stop, pos, bias, subtree)
        &&& keep ==> self.has_gathered(nodes, start, subtrees)
    }

    /// Whether a walk that began behind `start` items has ended behind `stop` items,
    /// and has gathered the items in between if `keep` says so.
    spec fn arrived(
        self,
        nodes: Nodes<T>,
        start: int,
        stop: int,
        keep: bool,
        subtrees: Seq<Tree<T>>,
    ) -> bool {
        &&& self.wf(nodes)
        &&& self.did_seek
        &&& self.position(nodes) == stop
        &&& 0 <= start <= stop <= self.items(nodes).len()
        &&& keep ==> gathered(nodes, subtrees, self.tree.in_memory())
        &&& keep ==> shows(nodes, subtrees, self.items(nodes).subrange(start, stop))
    }

    /// Whether the nodes on the way from `subtree`, which the path leads into, down to
    /// where the walk ends are in memory.
    spec fn way_is_free(self, nodes: Nodes<T>, stop: int, subtree: Tree<T>) -> bool {
        let height = self.height(nodes);
        way_in_memory(
            nodes,
            subtree,
            (height - self.stack@.len()) as nat,
            stop - items_up_to(nodes, height, self.stack@).len(),
        )
    }

    /// Walks along the children of the node at the end of the path behind the one
    /// that the path goes on to. Returns the one that the position lies in, or goes
    /// one level up.
    #[verifier::rlimit(60)]
    fn climb_from_node<D>(
        &mut self,
        Ghost(nodes): Ghost<Nodes<T>>,
        Ghost(start): Ghost<int>,
        Ghost(stop): Ghost<int>,
        node: &Node<T>,
        index: usize,
        pos: &D,
        bias: &SeekBias,
        subtrees: &mut Trees<T>,
    ) -> (result: Option<Tree<T>>)
        where
            D: Dimension<Summary = T::Summary>,
        requires
            old(self).stack@.len() > 0,
            *node is Internal,
            node@ == old(self).stack@.last().0.at(nodes),
            index == old(self).stack@.last().1,
            old(self).walking::<D>(nodes, start, stop, pos@, *bias, old(subtrees)@),
        ensures
            final(self).same_anchor(*old(self)),
            match result {
                None => {
                    &&& final(self).stack@ == old(self).stack@.drop_last()
                    &&& final(subtrees)@ == old(subtrees)@ + node@->child_trees.skip(index + 1)
                    &&& final(self).walking::<D>(
                        nodes,
                        start,
                        stop,
                        pos@,
                        *bias,
                        final(subtrees)@,
                    )
                },
                Some(subtree) => {
                    let path = old(self).stack@;
                    let stop_index = final(self).stack@.last().1;
                    &&& final(self).stack@ == path.update(
                        path.len() - 1,
                        (path.last().0, stop_index),
                    )
                    &&& index < stop_index < node@.len()
                    &&& subtree == node@->child_trees[stop_index as int]
                    &&& final(subtrees)@ == old(subtrees)@ + node@->child_trees.subrange(
                        index + 1,
                        stop_index as int,
                    )
                    &&& final(self).walking_into::<D>(
                        nodes,
                        start,
                        stop,
                        pos@,
                        *bias,
                        true,
                        final(subtrees)@,
                        subtree,
                    )
                },
            },
    {
        let ghost tree = self.tree;
        let ghost items = tree.content(nodes);
        let ghost path = self.stack@;
        let ghost head = walked(nodes, tree, tree.at(nodes).height(), path);
        let ghost kept = subtrees@;
        let next = index + 1;
        proof {
            lemma_climb_along_children(nodes, tree, path, next);
        }
        let stop_index = pass_children(
            node.child_summaries().as_slice(),
            node.child_trees().as_slice(),
            next,
            pos,
            bias,
            &mut self.summary,
            true,
            subtrees,
        );
        proof {
            lemma_climb_along_children(nodes, tree, path, stop_index);
            let h = tree.at(nodes).height();
            let trees = node@->child_trees;
            let passed = trees.subrange(next as int, stop_index as int);
            let run = items_of_all(
                nodes,
                passed,
                node@->child_summaries.subrange(next as int, stop_index as int),
                (end_height(h, path) - 1) as nat,
            );
            let moved = path.update(path.len() - 1, (path.last().0, stop_index));
            let child_len = if stop_index < trees.len() {
                items_into(nodes, h, moved).len() as int
            } else {
                0
            };
            lemma_walk_stops::<T, D>(
                items,
                head.len() as int,
                (head + run).len() as int,
                child_len,
                pos@,
                *bias,
            );
            lemma_gather_run(nodes, items, start, head, run, kept, passed, tree.in_memory());
        }
        if stop_index < node.child_trees().as_slice().len() {
            let child = node.child_trees().as_slice()[stop_index].clone();
            self.set_index(stop_index);
            Some(child)
        } else {
            proof {
                let trees = node@->child_trees;
                assert(trees.subrange(next as int, stop_index as int) =~= trees.skip(index + 1));
            }
            self.stack.pop();
            None
        }
    }

    /// Walks along the items of the leaf at the end of the path from the one that the
    /// path leads to. Stops at the one that the position lies in, or goes one level up.
    #[verifier::rlimit(60)]
    fn climb_from_leaf<D>(
        &mut self,
        Ghost(nodes): Ghost<Nodes<T>>,
        Ghost(start): Ghost<int>,
        Ghost(stop): Ghost<int>,
        node: &Node<T>,
        index: usize,
        pos: &D,
        bias: &SeekBias,
        subtrees: &mut Trees<T>,
    ) -> (result: bool)
        where
            D: Dimension<Summary = T::Summary>,
        requires
            old(self).stack@.len() > 0,
            *node is Leaf,
            node@ == old(self).stack@.last().0.at(nodes),
            index == old(self).stack@.last().1,
            old(self).walking::<D>(nodes, start, stop, pos@, *bias, old(subtrees)@),
        ensures
            final(self).same_anchor(*old(self)),
            ({
                let stop_index = if result {
                    final(self).stack@.last().1 as int
                } else {
                    node@.len() as int
                };
                let leaf = final(subtrees)@.last();
                &&& index <= stop_index
                &&& final(subtrees)@ == old(subtrees)@.push(leaf)
                &&& leaf is Resident
                &&& leaf.at(nodes) == leaf_of(node@->items.subrange(index as int, stop_index))
            }),
            result ==> {
                let path = old(self).stack@;
                &&& final(self).stack@ == path.update(
                    path.len() - 1,
                    (path.last().0, final(self).stack@.last().1),
                )
                &&& final(self).stack@.last().1 < node@.len()
                &&& final(self).arrived(nodes, start, stop, true, final(subtrees)@)
            },
            !result ==> {
                &&& final(self).stack@ == old(self).stack@.drop_last()
                &&& final(self).walking::<D>(nodes, start, stop, pos@, *bias, final(subtrees)@)
            },
    {
        let ghost tree = self.tree;
        let ghost items = tree.content(nodes);
        let ghost path = self.stack@;
        let ghost head = walked(nodes, tree, tree.at(nodes).height(), path);
        let ghost kept = subtrees@;
        proof {
            lemma_climb_along_items(nodes, tree, path, index);
        }
        let (stop_index, slice_items, slice_items_summary) = pass_items(
            node.items().as_slice(),
            index,
            pos,
            bias,
            &mut self.summary,
            true,
        );
        let slice_leaf = Tree::Resident(
            Arc::new(Node::Leaf { summary: slice_items_summary, items: slice_items }),
        );
        subtrees.push(slice_leaf);
        proof {
            lemma_climb_along_items(nodes, tree, path, stop_index);
            let leaf_items = known(node@->items);
            let run = leaf_items.subrange(index as int, stop_index as int);
            lemma_known_part(node@->items, index as int, stop_index as int);
            let item_len = if stop_index < leaf_items.len() {
                1int
            } else {
                0
            };
            lemma_walk_stops::<T, D>(
                items,
                head.len() as int,
                (head + run).len() as int,
                item_len,
                pos@,
                *bias,
            );
            lemma_gather_leaf(nodes, slice_leaf, slice_leaf.at(nodes)->items);
            assert(subtrees@ =~= kept + seq![slice_leaf]);
            lemma_gather_run(
                nodes,
                items,
                start,
                head,
                run,
                kept,
                seq![slice_leaf],
                tree.in_memory(),
            );
        }
        if stop_index < node.items().as_slice().len() {
            self.set_index(stop_index);
            true
        } else {
            self.stack.pop();
            false
        }
    }

    /// What a walk that has come up from `from` to the end of the path has read and gathered:
    /// nothing yet, if that is where it began.
    spec fn climbing(
        self,
        nodes: Nodes<T>,
        from: int,
        ids: Reads,
        subtrees: Seq<Tree<T>>,
    ) -> bool {
        let path = self.stack@;
        let height = self.height(nodes);
        if path.len() > 0 && path.last().0.at(nodes) is Leaf {
            &&& ids.len() == 0
            &&& subtrees.len() == 0
            &&& from == walked(nodes, self.tree, height, path).len()
        } else {
            &&& lies_into(nodes, self.tree, height, path, from)
            &&& ids == climbed_ids(nodes, self.tree, height, path, from)
            &&& made_of(
                nodes,
                subtrees,
                climbed_parts(nodes, self.tree, height, path, from),
            )
        }
    }

    /// What a walk reads and gathers that turns down into a later child of the node at the
    /// end of the path.
    proof fn lemma_turns_down<D: Dimension<Summary = T::Summary>>(
        self,
        before: Self,
        nodes: Nodes<T>,
        from: int,
        stop: int,
        pos: D::V,
        bias: SeekBias,
        ids: Reads,
        kept: Seq<Tree<T>>,
        subtrees: Seq<Tree<T>>,
        child: Tree<T>,
    )
        requires
            before.stack@.len() > 0,
            before.stack@.last().0.at(nodes) is Internal,
            before.climbing(nodes, from, ids, kept),
            leads_down(nodes, before.tree, before.height(nodes), before.stack@),
            self.same_anchor(before),
            ({
                let (tree, at) = before.stack@.last();
                let i = self.stack@.last().1;
                let trees = tree.at(nodes)->child_trees;
                &&& self.stack@ == before.stack@.update(before.stack@.len() - 1, (tree, i))
                &&& at < i < trees.len()
                &&& child == trees[i as int]
                &&& subtrees == kept + trees.subrange(at + 1, i as int)
            }),
            self.walking_into::<D>(nodes, from, stop, pos, bias, true, subtrees, child),
        ensures
            ({
                let (tree, at) = before.stack@.last();
                let height = self.height(nodes);
                let done = climbed_parts(nodes, self.tree, height, before.stack@, from) + wholes(
                    tree.at(nodes)->child_trees.subrange(at + 1, self.stack@.last().1 as int),
                );
                &&& child == into_tree(nodes, self.tree, self.stack@)
                &&& walk_ids(nodes, self.tree, height, from, stop) == ids + id_of(tree)
                    + ids_below(nodes, self.tree, height, self.stack@, stop)
                &&& made_of(nodes, subtrees, done)
                &&& parts_from(nodes, self.tree, height, from, stop) == done + parts_below(
                    nodes,
                    self.tree,
                    height,
                    self.stack@,
                    stop,
                )
            }),
    {
        let (tree, at) = before.stack@.last();
        let i = self.stack@.last().1;
        let trees = tree.at(nodes)->child_trees;
        let height = self.height(nodes);
        let reached = items_up_to(nodes, height, self.stack@).len() as int;
        lemma_stop_from::<T, D>(self.items(nodes), reached, pos, bias);
        lemma_turned_down(nodes, self.tree, height, before.stack@, from, stop, i);
        lemma_made_of_concat(
            nodes,
            kept,
            climbed_parts(nodes, self.tree, height, before.stack@, from),
            trees.subrange(at + 1, i as int),
            wholes(trees.subrange(at + 1, i as int)),
        );
    }

    /// What a walk reads first when it comes up to the node at the end of the path.
    proof fn lemma_reads_node<D: Dimension<Summary = T::Summary>>(
        self,
        nodes: Nodes<T>,
        from: int,
        stop: int,
        pos: D::V,
        bias: SeekBias,
        ids: Reads,
        kept: Seq<Tree<T>>,
    )
        requires
            self.stack@.len() > 0,
            self.stack@.last().0.at(nodes) is Internal,
            self.climbing(nodes, from, ids, kept),
            self.walking::<D>(nodes, from, stop, pos, bias, kept),
        ensures
            (ids + id_of(self.stack@.last().0)).is_prefix_of(
                walk_ids(nodes, self.tree, self.height(nodes), from, stop),
            ),
    {
        let path = self.stack@;
        let (tree, at) = path.last();
        let node = tree.at(nodes);
        let height = self.height(nodes);
        let behind = walked(nodes, self.tree, height, path).len() as int;
        assert(sound_node(
            nodes,
            node,
            end_height(height, path),
            path.len() == 1,
            self.tree.rigor(nodes),
        ));
        lemma_stop_from::<T, D>(self.items(nodes), behind, pos, bias);
        lemma_front_grows(nodes, node, end_height(height, path), at as int, at as int);
        lemma_left_node(nodes, self.tree, height, path, from, stop);
    }

    /// What a walk reads and gathers that leaves the node at the end of the path.
    proof fn lemma_leaves_node<D: Dimension<Summary = T::Summary>>(
        self,
        before: Self,
        nodes: Nodes<T>,
        from: int,
        stop: int,
        pos: D::V,
        bias: SeekBias,
        ids: Reads,
        kept: Seq<Tree<T>>,
    )
        requires
            before.stack@.len() > 0,
            before.stack@.last().0.at(nodes) is Internal,
            before.climbing(nodes, from, ids, kept),
            before.walking::<D>(nodes, from, stop, pos, bias, kept),
            self.same_anchor(before),
            self.stack@ == before.stack@.drop_last(),
        ensures
            ({
                let (tree, at) = before.stack@.last();
                let read = ids + id_of(tree);
                &&& read.is_prefix_of(
                    walk_ids(nodes, self.tree, self.height(nodes), from, stop),
                )
                &&& self.climbing(
                    nodes,
                    from,
                    read,
                    kept + tree.at(nodes)->child_trees.skip(at + 1),
                )
            }),
    {
        let path = before.stack@;
        let (tree, at) = path.last();
        let node = tree.at(nodes);
        let height = self.height(nodes);
        let behind = walked(nodes, self.tree, height, path).len() as int;
        let later = node->child_trees.skip(at + 1);
        assert(sound_node(
            nodes,
            node,
            end_height(height, path),
            path.len() == 1,
            self.tree.rigor(nodes),
        ));
        lemma_stop_from::<T, D>(self.items(nodes), behind, pos, bias);
        lemma_front_grows(nodes, node, end_height(height, path), at as int, at as int);
        lemma_left_node(nodes, self.tree, height, path, from, stop);
        lemma_walk_climbs(nodes, self.tree, height, path);
        lemma_made_of_concat(
            nodes,
            kept,
            climbed_parts(nodes, self.tree, height, path, from),
            later,
            wholes(later),
        );
    }

    /// What a walk reads and gathers in the leaf where it begins.
    proof fn lemma_leaves_leaf<D: Dimension<Summary = T::Summary>>(
        self,
        before: Self,
        nodes: Nodes<T>,
        from: int,
        stop: int,
        pos: D::V,
        bias: SeekBias,
        ids: Reads,
        kept: Seq<Tree<T>>,
    )
        requires
            before.stack@.len() > 0,
            before.stack@.last().0.at(nodes) is Leaf,
            before.climbing(nodes, from, ids, kept),
            before.walking::<D>(nodes, from, stop, pos, bias, kept),
        ensures
            ({
                let path = before.stack@;
                let (leaf, at) = path.last();
                let items = leaf.at(nodes)->items;
                let height = before.height(nodes);
                let tree = before.tree;
                let start = items_before(nodes, height, path).len();
                let all = walk_ids(nodes, tree, height, from, stop);
                &&& ids + id_of(leaf) == id_of(leaf)
                &&& id_of(leaf).is_prefix_of(all)
                &&& stop - start < items.len() ==> {
                    &&& all == id_of(leaf)
                    &&& parts_from(nodes, tree, height, from, stop) == seq![
                        Part::Items(items.subrange(at as int, stop - start)),
                    ]
                }
                &&& forall|leaf_part: Tree<T>|
                    leaf_part is Resident && #[trigger] leaf_part.at(nodes) == leaf_of(
                        items.subrange(at as int, items.len() as int),
                    ) && self.same_anchor(before) && self.stack@ == path.drop_last()
                        ==> self.climbing(nodes, from, id_of(leaf), kept.push(leaf_part))
            }),
    {
        let path = before.stack@;
        let (leaf, at) = path.last();
        let items = leaf.at(nodes)->items;
        let height = before.height(nodes);
        let tree = before.tree;
        let start = items_before(nodes, height, path).len();
        lemma_walk_goes_on(nodes, tree, height, path, at as int);
        lemma_stop_from::<T, D>(before.items(nodes), from, pos, bias);
        lemma_climb_leaf_ids(nodes, tree, height, path, from, stop);
        lemma_left_leaf(nodes, tree, height, path, from);
        lemma_walk_climbs(nodes, tree, height, path);
        assert(ids + id_of(leaf) =~= id_of(leaf));
        if stop - start < items.len() {
            lemma_parts_within(nodes, tree, height, path, from, stop);
        }
    }

    /// Walks on from the place of the cursor, up the path and along the subtrees
    /// behind it, until the position lies in an item or in a subtree. The items and
    /// subtrees that the walk goes past are gathered. The subtree that the position
    /// lies in is returned.
    fn climb<D, S>(&mut self, pos: &D, bias: &SeekBias, db: &mut S, subtrees: &mut Trees<T>) -> (
    result: Result<Option<Tree<T>>, S::ReadError>)
        where
            D: Dimension<Summary = T::Summary>,
            S: NodeStore<T>,
        requires
            old(self).wf(old(db).nodes()),
            old(self).tree.wf(old(db).nodes()),
            old(self).sought(),
            old(subtrees)@.len() == 0,
        ensures
            only_read(*old(db), *final(db), result),
            result is Err ==> final(self).halted(
                old(db).nodes(),
                ids_read(*old(db), *final(db)).last(),
            ),
            old(self).stack@.len() > 0 ==> {
                let here = id_of(old(self).stack@.last().0).len();
                let read = ids_read(*old(db), *final(db)).len();
                &&& result is Ok ==> read >= here
                &&& result is Err && read <= here ==> *final(self) == *old(self)
            },
            old(self).stack@.len() > 0 ==> {
                let nodes = old(db).nodes();
                let (tree, height) = (old(self).tree, old(self).height(nodes));
                let start = old(self).position(nodes);
                let stop = stop_from::<T, D>(old(self).items(nodes), start, pos@, *bias);
                let ids = walk_ids(nodes, tree, height, start, stop);
                let parts = parts_from(nodes, tree, height, start, stop);
                match result {
                    Err(_) => read_in_order(*old(db), *final(db), ids, result),
                    Ok(None) => {
                        &&& has_read(*old(db), *final(db), ids)
                        &&& made_of(nodes, final(subtrees)@, parts)
                    },
                    Ok(Some(subtree)) => {
                        let path = final(self).stack@;
                        let read = ids_read(*old(db), *final(db));
                        &&& path.len() > 0
                        &&& subtree == into_tree(nodes, tree, path)
                        &&& has_read(*old(db), *final(db), read)
                        &&& ids == read + ids_below(nodes, tree, height, path, stop)
                        &&& exists|done: Seq<Part<T>>|
                            {
                                &&& #[trigger] made_of(nodes, final(subtrees)@, done)
                                &&& parts == done + parts_below(nodes, tree, height, path, stop)
                            }
                    },
                }
            },
            final(self).same_anchor(*old(self)),
            final(self).did_seek,
            old(self).stack@.len() == 0 ==> result == Ok::<Option<Tree<T>>, S::ReadError>(None)
                && *final(self) == *old(self) && *final(db) == *old(db) && final(subtrees)@.len()
                == 0,
            result matches Ok(containing) ==> {
                let nodes = old(db).nodes();
                let start = old(self).position(nodes);
                let stop = stop_from::<T, D>(old(self).items(nodes), start, pos@, *bias);
                match containing {
                    None => final(self).arrived(nodes, start, stop, true, final(subtrees)@),
                    Some(subtree) => final(self).walking_into::<D>(
                        nodes,
                        start,
                        stop,
                        pos@,
                        *bias,
                        true,
                        final(subtrees)@,
                        subtree,
                    ),
                }
            },
            old(self).tree().in_memory() ==> result is Ok,
    {
        let ghost nodes = db.nodes();
        let ghost tree = self.tree;
        let ghost h = self.height(nodes);
        let ghost items = tree.content(nodes);
        let ghost start = self.position(nodes);
        let ghost stop = stop_from::<T, D>(items, start, pos@, *bias);
        let ghost begin = *db;
        let ghost mut ids = Reads::empty();
        proof {
            lemma_read_nothing(begin);
            self.lemma_end(nodes);
            self.lemma_position_bounds(nodes);
            assert(items.subrange(start, start) =~= Seq::<Piece<T>>::empty());
        }
        while self.stack.as_slice().len() > 0
            invariant
                db.nodes() == nodes,
                db.failures() == old(db).failures(),
                nodes == old(db).nodes(),
                begin == *old(db),
                has_read(begin, *db, ids),
                old(self).stack@.len() > 0 ==> *self == *old(self) || ids.len() >= id_of(
                    old(self).stack@.last().0,
                ).len(),
                old(self).stack@.len() > 0 ==> self.climbing(nodes, start, ids, subtrees@),
                tree == self.tree,
                h == self.height(nodes),
                self.same_anchor(*old(self)),
                old(self).stack@.len() == 0 ==> *self == *old(self) && *db == *old(db)
                    && subtrees@.len() == 0,
                start == old(self).position(nodes),
                stop == stop_from::<T, D>(old(self).items(nodes), start, pos@, *bias),
                self.walking::<D>(nodes, start, stop, pos@, *bias, subtrees@),
            decreases self.stack@.len(),
        {
            let (subtree, index) = self.end_of_path();
            let ghost before = *self;
            let ghost kept = subtrees@;
            let ghost between = *db;
            let ghost all = walk_ids(nodes, tree, h, start, stop);
            proof {
                if subtree.at(nodes) is Leaf {
                    self.lemma_leaves_leaf::<D>(
                        before,
                        nodes,
                        start,
                        stop,
                        pos@,
                        *bias,
                        ids,
                        kept,
                    );
                } else {
                    self.lemma_reads_node::<D>(nodes, start, stop, pos@, *bias, ids, kept);
                }
                if tree.in_memory() {
                    lemma_path_in_memory(nodes, tree, h, self.stack@);
                }
            }
            let node = match subtree.node(db) {
                Ok(node) => node,
                Err(error) => {
                    proof {
                        let result = Err::<(), S::ReadError>(error);
                        lemma_read_on(begin, between, *db, ids, id_of(subtree), result);
                        lemma_last_read(between, *db, subtree, result);
                        lemma_read_within(begin, *db, ids + id_of(subtree), all, result);
                    }
                    return Err(error);
                },
            };
            match node {
                Node::Internal { .. } => {
                    let containing = self.climb_from_node(
                        Ghost(nodes),
                        Ghost(start),
                        Ghost(stop),
                        node,
                        index,
                        pos,
                        bias,
                        subtrees,
                    );
                    proof {
                        let result = Ok::<(), S::ReadError>(());
                        lemma_read_on(begin, between, *db, ids, id_of(subtree), result);
                        lemma_ids_read(begin, *db, ids + id_of(subtree));
                    }
                    if let Some(child) = containing {
                        proof {
                            self.lemma_turns_down::<D>(
                                before,
                                nodes,
                                start,
                                stop,
                                pos@,
                                *bias,
                                ids,
                                kept,
                                subtrees@,
                                child,
                            );
                        }
                        return Ok(Some(child));
                    }
                    proof {
                        self.lemma_leaves_node::<D>(
                            before,
                            nodes,
                            start,
                            stop,
                            pos@,
                            *bias,
                            ids,
                            kept,
                        );
                        ids = ids + id_of(subtree);
                    }
                },
                Node::Leaf { .. } => {
                    let arrived = self.climb_from_leaf(
                        Ghost(nodes),
                        Ghost(start),
                        Ghost(stop),
                        node,
                        index,
                        pos,
                        bias,
                        subtrees,
                    );
                    proof {
                        let result = Ok::<(), S::ReadError>(());
                        lemma_read_on(begin, between, *db, ids, id_of(subtree), result);
                        self.lemma_leaves_leaf::<D>(
                            before,
                            nodes,
                            start,
                            stop,
                            pos@,
                            *bias,
                            ids,
                            kept,
                        );
                    }
                    if arrived {
                        proof {
                            lemma_ids_read(begin, *db, id_of(subtree));
                            lemma_path_end_index(
                                nodes,
                                tree,
                                h,
                                before.stack@,
                                self.stack@.last().1,
                            );
                        }
                        return Ok(None);
                    }
                    proof {
                        ids = id_of(subtree);
                    }
                },
            }
        }
        proof {
            lemma_stop_from::<T, D>(items, items.len() as int, pos@, *bias);
            if old(self).stack@.len() > 0 {
                lemma_ids_read(begin, *db, ids);
                lemma_walk_to_end(nodes, tree, h, start, stop);
            }
        }
        Ok(None)
    }
}

impl<T: Item> Cursor<T> {
    /// Walks along the children of `subtree`, which the path leads into and whose root
    /// is `node`. Returns the one that the position lies in. If it lies behind all of
    /// them, `subtree` is the whole tree.
    fn descend_into_node<D>(
        &mut self,
        Ghost(nodes): Ghost<Nodes<T>>,
        Ghost(start): Ghost<int>,
        Ghost(stop): Ghost<int>,
        subtree: &Tree<T>,
        node: &Node<T>,
        pos: &D,
        bias: &SeekBias,
        keep: bool,
        subtrees: &mut Trees<T>,
    ) -> (result: Option<Tree<T>>)
        where
            D: Dimension<Summary = T::Summary>,
        requires
            *node is Internal,
            !subtree.dangling(nodes),
            node@ == subtree.at(nodes),
            old(self).walking_into::<D>(
                nodes,
                start,
                stop,
                pos@,
                *bias,
                keep,
                old(subtrees)@,
                *subtree,
            ),
        ensures
            final(self).same_anchor(*old(self)),
            match result {
                None => {
                    &&& final(self).arrived(nodes, start, stop, keep, final(subtrees)@)
                    &&& stop == items_up_to(
                        nodes,
                        old(self).height(nodes),
                        old(self).stack@,
                    ).len() + subtree.content(nodes).len()
                    &&& subtree.at(nodes).height() == old(self).height(nodes) - old(
                        self,
                    ).stack@.len()
                    &&& final(subtrees)@ == if keep {
                        old(subtrees)@ + node@->child_trees
                    } else {
                        old(subtrees)@
                    }
                },
                Some(child) => {
                    let index = final(self).stack@.last().1;
                    &&& final(self).stack@ == old(self).stack@.push((*subtree, index))
                    &&& index < node@.len()
                    &&& child == node@->child_trees[index as int]
                    &&& final(subtrees)@ == if keep {
                        old(subtrees)@ + node@->child_trees.take(index as int)
                    } else {
                        old(subtrees)@
                    }
                    &&& old(self).stack@.len() < old(self).height(nodes)
                    &&& final(self).stack@.len() == old(self).stack@.len() + 1
                    &&& old(self).way_is_free(nodes, stop, *subtree) ==> final(self).way_is_free(
                        nodes,
                        stop,
                        child,
                    )
                    &&& final(self).walking_into::<D>(
                        nodes,
                        start,
                        stop,
                        pos@,
                        *bias,
                        keep,
                        final(subtrees)@,
                        child,
                    )
                },
            },
    {
        let ghost before = *self;
        let ghost kept = subtrees@;
        proof {
            lemma_descend_along_children(nodes, self.tree, self.stack@, *subtree, 0);
        }
        let index = pass_children(
            node.child_summaries().as_slice(),
            node.child_trees().as_slice(),
            0,
            pos,
            bias,
            &mut self.summary,
            keep,
            subtrees,
        );
        if index < node.child_trees().as_slice().len() {
            let child = node.child_trees().as_slice()[index].clone();
            self.stack.push((subtree.clone(), index));
            proof {
                let trees = node@->child_trees;
                assert(trees.subrange(0, index as int) =~= trees.take(index as int));
                self.lemma_child_entered::<D>(
                    before,
                    nodes,
                    start,
                    stop,
                    pos@,
                    *bias,
                    keep,
                    kept,
                    *subtree,
                    index,
                );
            }
            Some(child)
        } else {
            proof {
                let trees = node@->child_trees;
                assert(trees.subrange(0, index as int) =~= trees);
                self.lemma_children_passed::<D>(
                    before,
                    nodes,
                    start,
                    stop,
                    pos@,
                    *bias,
                    keep,
                    kept,
                    *subtree,
                );
            }
            None
        }
    }

    /// A walk along the children of `subtree` that has passed those in front of `index` goes
    /// down into the child there.
    proof fn lemma_child_entered<D: Dimension<Summary = T::Summary>>(
        self,
        before: Self,
        nodes: Nodes<T>,
        start: int,
        stop: int,
        pos: D::V,
        bias: SeekBias,
        keep: bool,
        kept: Seq<Tree<T>>,
        subtree: Tree<T>,
        index: usize,
    )
        requires
            !subtree.dangling(nodes),
            subtree.at(nodes) is Internal,
            before.walking_into::<D>(nodes, start, stop, pos, bias, keep, kept, subtree),
            self.same_anchor(before),
            self.did_seek,
            index < subtree.at(nodes).len(),
            self.stack@ == before.stack@.push((subtree, index)),
            ({
                let summaries = subtree.at(nodes)->child_summaries;
                let passed = summaries.subrange(0, index as int);
                &&& self.summary@ == T::Summary::plus(
                    before.summary@,
                    total_of::<T::Summary>(passed),
                )
                &&& index > 0 ==> is_behind::<D>(pos, bias, self.summary@)
                &&& !is_behind::<D>(
                    pos,
                    bias,
                    T::Summary::plus(self.summary@, summaries[index as int]),
                )
            }),
        ensures
            before.stack@.len() < before.height(nodes),
            ({
                let trees = subtree.at(nodes)->child_trees;
                let child = trees[index as int];
                let subtrees = if keep {
                    kept + trees.subrange(0, index as int)
                } else {
                    kept
                };
                &&& self.walking_into::<D>(
                    nodes,
                    start,
                    stop,
                    pos,
                    bias,
                    keep,
                    subtrees,
                    child,
                )
                &&& before.way_is_free(nodes, stop, subtree) ==> self.way_is_free(
                    nodes,
                    stop,
                    child,
                )
            }),
    {
        self.lemma_child_headed_into::<D>(before, nodes, start, stop, pos, bias, subtree, index);
        if before.way_is_free(nodes, stop, subtree) {
            self.lemma_child_way_is_free::<D>(
                before,
                nodes,
                start,
                stop,
                pos,
                bias,
                subtree,
                index,
            );
        }
        if keep {
            self.lemma_children_gathered::<D>(
                before,
                nodes,
                start,
                stop,
                pos,
                bias,
                kept,
                subtree,
                index,
            );
        }
    }

    /// A walk along the children of `subtree` that has passed those in front of `index` has
    /// to go down into the child there.
    proof fn lemma_child_headed_into<D: Dimension<Summary = T::Summary>>(
        self,
        before: Self,
        nodes: Nodes<T>,
        start: int,
        stop: int,
        pos: D::V,
        bias: SeekBias,
        subtree: Tree<T>,
        index: usize,
    )
        requires
            !subtree.dangling(nodes),
            subtree.at(nodes) is Internal,
            before.heading_into::<D>(nodes, start, stop, pos, bias, subtree),
            self.same_anchor(before),
            self.did_seek,
            index < subtree.at(nodes).len(),
            self.stack@ == before.stack@.push((subtree, index)),
            ({
                let summaries = subtree.at(nodes)->child_summaries;
                let passed = summaries.subrange(0, index as int);
                &&& self.summary@ == T::Summary::plus(
                    before.summary@,
                    total_of::<T::Summary>(passed),
                )
                &&& index > 0 ==> is_behind::<D>(pos, bias, self.summary@)
                &&& !is_behind::<D>(
                    pos,
                    bias,
                    T::Summary::plus(self.summary@, summaries[index as int]),
                )
            }),
        ensures
            before.stack@.len() < before.height(nodes),
            self.heading_into::<D>(
                nodes,
                start,
                stop,
                pos,
                bias,
                subtree.at(nodes)->child_trees[index as int],
            ),
    {
        let tree = self.tree;
        let items = tree.content(nodes);
        let path = before.stack@;
        let h = tree.at(nodes).height();
        let head = items_up_to(nodes, h, path);
        let node = subtree.at(nodes);
        lemma_descend_along_children(nodes, tree, path, subtree, index);
        let run = items_of_all(
            nodes,
            node->child_trees.subrange(0, index as int),
            node->child_summaries.subrange(0, index as int),
            (h - path.len() - 1) as nat,
        );
        let reached = (head + run).len() as int;
        let child_len = items_into(nodes, h, self.stack@).len() as int;
        lemma_walk_stops::<T, D>(items, head.len() as int, reached, child_len, pos, bias);
    }

    /// What is gathered when a walk along the children of `subtree` has passed those in front
    /// of `index`.
    proof fn lemma_children_gathered<D: Dimension<Summary = T::Summary>>(
        self,
        before: Self,
        nodes: Nodes<T>,
        start: int,
        stop: int,
        pos: D::V,
        bias: SeekBias,
        kept: Seq<Tree<T>>,
        subtree: Tree<T>,
        index: usize,
    )
        requires
            !subtree.dangling(nodes),
            subtree.at(nodes) is Internal,
            before.heading_into::<D>(nodes, start, stop, pos, bias, subtree),
            before.has_gathered(nodes, start, kept),
            self.same_anchor(before),
            index < subtree.at(nodes).len(),
            self.stack@ == before.stack@.push((subtree, index)),
        ensures
            self.has_gathered(
                nodes,
                start,
                kept + subtree.at(nodes)->child_trees.subrange(0, index as int),
            ),
    {
        let tree = self.tree;
        let items = tree.content(nodes);
        let path = before.stack@;
        let h = tree.at(nodes).height();
        let head = items_up_to(nodes, h, path);
        let node = subtree.at(nodes);
        lemma_descend_along_children(nodes, tree, path, subtree, index);
        let passed = node->child_trees.subrange(0, index as int);
        let run = items_of_all(
            nodes,
            passed,
            node->child_summaries.subrange(0, index as int),
            (h - path.len() - 1) as nat,
        );
        lemma_gather_run(nodes, items, start, head, run, kept, passed, tree.in_memory());
    }

    /// The way goes on into the child that a walk has to go down into.
    proof fn lemma_child_way_is_free<D: Dimension<Summary = T::Summary>>(
        self,
        before: Self,
        nodes: Nodes<T>,
        start: int,
        stop: int,
        pos: D::V,
        bias: SeekBias,
        subtree: Tree<T>,
        index: usize,
    )
        requires
            !subtree.dangling(nodes),
            subtree.at(nodes) is Internal,
            before.heading_into::<D>(nodes, start, stop, pos, bias, subtree),
            before.way_is_free(nodes, stop, subtree),
            self.same_anchor(before),
            index < subtree.at(nodes).len(),
            self.stack@ == before.stack@.push((subtree, index)),
            self.heading_into::<D>(
                nodes,
                start,
                stop,
                pos,
                bias,
                subtree.at(nodes)->child_trees[index as int],
            ),
        ensures
            self.way_is_free(nodes, stop, subtree.at(nodes)->child_trees[index as int]),
    {
        let tree = self.tree;
        let path = before.stack@;
        let h = tree.at(nodes).height();
        let height = (h - path.len()) as nat;
        let node = subtree.at(nodes);
        let at = index as int;
        let head = items_up_to(nodes, h, path).len() as int;
        let reached = items_up_to(nodes, h, self.stack@).len() as int;
        let front = front_items(nodes, node, height, at).len() as int;
        assert(reached <= stop) by {
            lemma_stop_from::<T, D>(tree.content(nodes), reached, pos, bias);
        }
        assert(reached == head + front && path.len() < h) by {
            lemma_walk_descends(nodes, tree, h, path, subtree, index);
            assert(self.stack@.last() == (subtree, index));
        }
        assert(items_into(nodes, h, self.stack@) == items_of(
            nodes,
            node->child_trees[at],
            node->child_summaries[at],
            (height - 1) as nat,
        ));
        lemma_way_into_child(nodes, subtree, height, at, stop - head);
    }

    /// A walk along the children of `subtree` that has passed all of them has passed the
    /// whole tree.
    proof fn lemma_children_passed<D: Dimension<Summary = T::Summary>>(
        self,
        before: Self,
        nodes: Nodes<T>,
        start: int,
        stop: int,
        pos: D::V,
        bias: SeekBias,
        keep: bool,
        kept: Seq<Tree<T>>,
        subtree: Tree<T>,
    )
        requires
            !subtree.dangling(nodes),
            subtree.at(nodes) is Internal,
            before.walking_into::<D>(nodes, start, stop, pos, bias, keep, kept, subtree),
            self.same_anchor(before),
            self.did_seek,
            self.stack@ == before.stack@,
            ({
                let summaries = subtree.at(nodes)->child_summaries;
                let passed = summaries.subrange(0, summaries.len() as int);
                &&& self.summary@ == T::Summary::plus(
                    before.summary@,
                    total_of::<T::Summary>(passed),
                )
                &&& summaries.len() > 0 ==> is_behind::<D>(pos, bias, self.summary@)
            }),
        ensures
            stop == items_up_to(nodes, before.height(nodes), before.stack@).len()
                + subtree.content(nodes).len(),
            subtree.at(nodes).height() == before.height(nodes) - before.stack@.len(),
            ({
                let trees = subtree.at(nodes)->child_trees;
                let subtrees = if keep {
                    kept + trees.subrange(0, trees.len() as int)
                } else {
                    kept
                };
                self.arrived(nodes, start, stop, keep, subtrees)
            }),
    {
        let tree = self.tree;
        let items = tree.content(nodes);
        let path = before.stack@;
        let h = tree.at(nodes).height();
        let head = items_up_to(nodes, h, path);
        let node = subtree.at(nodes);
        let len = node->child_trees.len() as usize;
        lemma_sound_is_shaped(nodes, tree, h, true);
        lemma_walk_descends(nodes, tree, h, path, subtree, 0);
        lemma_descend_along_children(nodes, tree, path, subtree, len);
        let passed = node->child_trees.subrange(0, len as int);
        let run = subtree.content(nodes);
        let reached = (head + run).len() as int;
        lemma_walk_stops::<T, D>(items, head.len() as int, reached, 0, pos, bias);
        lemma_stop_from::<T, D>(items, reached, pos, bias);
        if path.len() > 0 {
            assert(items_into(nodes, h, path) == subtree.content(nodes));
        }
        if keep {
            lemma_gather_run(nodes, items, start, head, run, kept, passed, tree.in_memory());
        }
    }

    /// Walks along the items of the leaf `subtree`, which the path leads into and whose
    /// root is `node`, to the one that the position lies in. If it lies behind all of
    /// them, `subtree` is the whole tree.
    #[verifier::rlimit(60)]
    fn descend_into_leaf<D>(
        &mut self,
        Ghost(nodes): Ghost<Nodes<T>>,
        Ghost(start): Ghost<int>,
        Ghost(stop): Ghost<int>,
        subtree: &Tree<T>,
        node: &Node<T>,
        pos: &D,
        bias: &SeekBias,
        keep: bool,
        subtrees: &mut Trees<T>,
    )
        where
            D: Dimension<Summary = T::Summary>,
        requires
            *node is Leaf,
            !subtree.dangling(nodes),
            node@ == subtree.at(nodes),
            old(self).walking_into::<D>(
                nodes,
                start,
                stop,
                pos@,
                *bias,
                keep,
                old(subtrees)@,
                *subtree,
            ),
        ensures
            final(self).same_anchor(*old(self)),
            final(self).arrived(nodes, start, stop, keep, final(subtrees)@),
            ({
                let reached = items_up_to(nodes, old(self).height(nodes), old(self).stack@).len();
                let leaf = final(subtrees)@.last();
                &&& 0 <= stop - reached <= node@.len()
                &&& if keep && stop > reached {
                    &&& final(subtrees)@ == old(subtrees)@.push(leaf)
                    &&& leaf is Resident
                    &&& leaf.at(nodes) == leaf_of(node@->items.take(stop - reached))
                } else {
                    final(subtrees)@ == old(subtrees)@
                }
            }),
    {
        let ghost tree = self.tree;
        let ghost items = tree.content(nodes);
        let ghost path = self.stack@;
        let ghost head = items_up_to(nodes, tree.at(nodes).height(), path);
        let ghost kept = subtrees@;
        proof {
            lemma_descend_along_items(nodes, tree, path, *subtree, 0);
        }
        let (index, slice_items, slice_items_summary) = pass_items(
            node.items().as_slice(),
            0,
            pos,
            bias,
            &mut self.summary,
            keep,
        );
        let ghost leaf_items = known(node@->items);
        let ghost run = leaf_items.subrange(0, index as int);
        let ghost reached = (head + run).len() as int;
        proof {
            lemma_descend_along_items(nodes, tree, path, *subtree, index);
            let item_len = if index < leaf_items.len() {
                1int
            } else {
                0
            };
            lemma_known_part(node@->items, 0, index as int);
            assert(node@->items.subrange(0, index as int) =~= node@->items.take(index as int));
            lemma_walk_stops::<T, D>(
                items,
                head.len() as int,
                reached,
                item_len,
                pos@,
                *bias,
            );
            lemma_stop_from::<T, D>(items, reached, pos@, *bias);
            if path.len() > 0 {
                let h = tree.at(nodes).height();
                lemma_sound_is_shaped(nodes, tree, h, true);
                lemma_walk_descends(nodes, tree, h, path, *subtree, 0);
                assert(items_into(nodes, h, path) == leaf_items);
                assert(index < leaf_items.len());
            }
            assert(reached == stop);
        }
        if index < node.items().as_slice().len() {
            self.stack.push((subtree.clone(), index));
        }
        proof {
            assert(self.position(nodes) == stop);
            assert(self.wf(nodes));
            assert(keep ==> slice_items@.len() == run.len());
        }
        if keep && slice_items.as_slice().len() > 0 {
            let slice_leaf = Tree::Resident(
                Arc::new(Node::Leaf { summary: slice_items_summary, items: slice_items }),
            );
            subtrees.push(slice_leaf);
            proof {
                lemma_gather_leaf(nodes, slice_leaf, slice_leaf.at(nodes)->items);
                assert(subtrees@ =~= kept + seq![slice_leaf]);
                lemma_gather_run(
                    nodes,
                    items,
                    start,
                    head,
                    run,
                    kept,
                    seq![slice_leaf],
                    tree.in_memory(),
                );
            }
        }
    }

    /// What a walk reads and gathers that goes down into a child.
    proof fn lemma_goes_down<D: Dimension<Summary = T::Summary>>(
        self,
        before: Self,
        nodes: Nodes<T>,
        start: int,
        stop: int,
        pos: D::V,
        bias: SeekBias,
        keep: bool,
        subtrees: Seq<Tree<T>>,
        subtree: Tree<T>,
        child: Tree<T>,
    )
        requires
            before.stack@.len() < before.height(nodes),
            self.same_anchor(before),
            subtree == into_tree(nodes, before.tree, before.stack@),
            !subtree.dangling(nodes),
            subtree.at(nodes) is Internal,
            ({
                let index = self.stack@.last().1;
                &&& self.stack@ == before.stack@.push((subtree, index))
                &&& index < subtree.at(nodes).len()
                &&& child == subtree.at(nodes)->child_trees[index as int]
            }),
            self.walking_into::<D>(nodes, start, stop, pos, bias, keep, subtrees, child),
        ensures
            ({
                let height = self.height(nodes);
                let index = self.stack@.last().1;
                &&& ids_below(nodes, self.tree, height, before.stack@, stop) == id_of(subtree)
                    + ids_below(nodes, self.tree, height, self.stack@, stop)
                &&& parts_below(nodes, self.tree, height, before.stack@, stop) == wholes(
                    subtree.at(nodes)->child_trees.take(index as int),
                ) + parts_below(nodes, self.tree, height, self.stack@, stop)
            }),
    {
        let height = self.height(nodes);
        let index = self.stack@.last().1;
        let reached = items_up_to(nodes, height, self.stack@).len() as int;
        lemma_stop_from::<T, D>(self.items(nodes), reached, pos, bias);
        assert(self.stack@.drop_last() =~= before.stack@);
        assert(leads_down(nodes, self.tree, height, self.stack@));
        lemma_went_down(nodes, self.tree, height, before.stack@, stop, index);
    }

    /// Goes down from `subtree`, which the path leads into, to the item that the
    /// position lies in. The items and subtrees that the walk goes past are gathered
    /// if `keep` says so.
    #[verifier::rlimit(40)]
    fn descend<D, S>(
        &mut self,
        Ghost(start): Ghost<int>,
        Ghost(stop): Ghost<int>,
        subtree: Tree<T>,
        pos: &D,
        bias: &SeekBias,
        db: &mut S,
        keep: bool,
        subtrees: &mut Trees<T>,
    ) -> (result: Result<(), S::ReadError>)
        where
            D: Dimension<Summary = T::Summary>,
            S: NodeStore<T>,
        requires
            old(self).walking_into::<D>(
                old(db).nodes(),
                start,
                stop,
                pos@,
                *bias,
                keep,
                old(subtrees)@,
                subtree,
            ),
        ensures
            read_in_order(
                *old(db),
                *final(db),
                ids_below(
                    old(db).nodes(),
                    old(self).tree,
                    old(self).height(old(db).nodes()),
                    old(self).stack@,
                    stop,
                ),
                result,
            ),
            result is Err ==> final(self).halted(
                old(db).nodes(),
                ids_read(*old(db), *final(db)).last(),
            ),
            result is Ok && keep ==> {
                let more = final(subtrees)@.skip(old(subtrees)@.len() as int);
                &&& final(subtrees)@ == old(subtrees)@ + more
                &&& made_of(
                    old(db).nodes(),
                    more,
                    parts_below(
                        old(db).nodes(),
                        old(self).tree,
                        old(self).height(old(db).nodes()),
                        old(self).stack@,
                        stop,
                    ),
                )
            },
            result is Err && ids_read(*old(db), *final(db)).len() <= id_of(subtree).len()
                ==> *final(self) == *old(self),
            final(self).same_anchor(*old(self)),
            result is Ok ==> final(self).arrived(
                old(db).nodes(),
                start,
                stop,
                keep,
                final(subtrees)@,
            ),
            final(self).did_seek,
            subtree.dangling(old(db).nodes()) ==> result is Err && *final(self) == *old(self),
            old(self).way_is_free(old(db).nodes(), stop, subtree) ==> result is Ok,
            old(self).tree().in_memory() ==> result is Ok,
    {
        let ghost nodes = db.nodes();
        let ghost tree = self.tree;
        let ghost h = self.height(nodes);
        let ghost begin = *db;
        let ghost mut ids = Reads::empty();
        let ghost all = ids_below(nodes, tree, h, self.stack@, stop);
        let ghost old_trees = subtrees@;
        let ghost mut more = Seq::<Tree<T>>::empty();
        let ghost mut done = Seq::<Part<T>>::empty();
        let ghost all_parts = parts_below(nodes, tree, h, self.stack@, stop);
        proof {
            lemma_read_nothing(begin);
            assert(ids + all =~= all);
            assert(done + all_parts =~= all_parts);
            assert(old_trees + more =~= old_trees);
        }
        let mut containing = subtree.clone();
        loop
            invariant
                db.nodes() == nodes,
                db.failures() == old(db).failures(),
                nodes == old(db).nodes(),
                begin == *old(db),
                has_read(begin, *db, ids),
                old_trees == old(subtrees)@,
                all == ids_below(nodes, tree, h, old(self).stack@, stop),
                all == ids + ids_below(nodes, tree, h, self.stack@, stop),
                all_parts == parts_below(nodes, tree, h, old(self).stack@, stop),
                keep ==> {
                    &&& subtrees@ == old_trees + more
                    &&& made_of(nodes, more, done)
                    &&& all_parts == done + parts_below(nodes, tree, h, self.stack@, stop)
                },
                ids.len() >= id_of(subtree).len() || *self == *old(self) && containing == subtree,
                tree == self.tree,
                h == self.height(nodes),
                self.same_anchor(*old(self)),
                self.walking_into::<D>(
                    nodes,
                    start,
                    stop,
                    pos@,
                    *bias,
                    keep,
                    subtrees@,
                    containing,
                ),
                old(self).way_is_free(nodes, stop, subtree) ==> self.way_is_free(
                    nodes,
                    stop,
                    containing,
                ),
                subtree.dangling(nodes) ==> containing == subtree && *self == *old(self),
            decreases h - self.stack@.len(),
        {
            let ghost before = *self;
            let ghost between = *db;
            let ghost height = (h - self.stack@.len()) as nat;
            let ghost at = stop - items_up_to(nodes, h, self.stack@).len();
            proof {
                if tree.in_memory() {
                    lemma_into_in_memory(nodes, tree, h, self.stack@, containing);
                }
                assert(containing == into_tree(nodes, tree, self.stack@));
            }
            let node = match containing.node(db) {
                Ok(node) => node,
                Err(error) => {
                    proof {
                        let result = Err::<(), S::ReadError>(error);
                        lemma_way_read(
                            begin,
                            between,
                            *db,
                            ids,
                            containing,
                            height,
                            at,
                            all,
                            result,
                        );
                        lemma_read_on(begin, between, *db, ids, id_of(containing), result);
                        lemma_last_read(between, *db, containing, result);
                    }
                    return Err(error);
                },
            };
            let next_subtree = match node {
                Node::Internal { .. } => self.descend_into_node(
                    Ghost(nodes),
                    Ghost(start),
                    Ghost(stop),
                    &containing,
                    node,
                    pos,
                    bias,
                    keep,
                    subtrees,
                ),
                Node::Leaf { .. } => {
                    self.descend_into_leaf(
                        Ghost(nodes),
                        Ghost(start),
                        Ghost(stop),
                        &containing,
                        node,
                        pos,
                        bias,
                        keep,
                        subtrees,
                    );
                    None
                },
            };
            proof {
                lemma_way_read(
                    begin,
                    between,
                    *db,
                    ids,
                    containing,
                    height,
                    at,
                    all,
                    Ok(()),
                );
            }
            match next_subtree {
                Some(child) => {
                    proof {
                        let i = self.stack@.last().1;
                        let passed = containing.at(nodes)->child_trees.take(i as int);
                        self.lemma_goes_down::<D>(
                            before,
                            nodes,
                            start,
                            stop,
                            pos@,
                            *bias,
                            keep,
                            subtrees@,
                            containing,
                            child,
                        );
                        let rest = ids_below(nodes, tree, h, self.stack@, stop);
                        assert(all =~= ids + id_of(containing) + rest);
                        ids = ids + id_of(containing);
                        if keep {
                            let rest = parts_below(nodes, tree, h, self.stack@, stop);
                            lemma_made_of_concat(nodes, more, done, passed, wholes(passed));
                            assert(all_parts =~= done + wholes(passed) + rest);
                            assert(subtrees@ =~= old_trees + (more + passed));
                            more = more + passed;
                            done = done + wholes(passed);
                        }
                    }
                    containing = child;
                },
                None => {
                    proof {
                        let last = parts_up_to(nodes, containing, height, at);
                        let new = subtrees@.skip((old_trees + more).len() as int);
                        assert(all == ids + id_of(containing));
                        if keep {
                            assert(made_of(nodes, new, last)) by {
                                lemma_last_parts(
                                    nodes,
                                    containing,
                                    height,
                                    at,
                                    old_trees + more,
                                    subtrees@,
                                );
                            }
                            lemma_made_of_concat(nodes, more, done, new, last);
                            assert(subtrees@ =~= old_trees + (more + new));
                            assert(subtrees@.skip(old_trees.len() as int) =~= more + new);
                        }
                    }
                    return Ok(());
                },
            }
        }
    }
}

impl<T: Item> Cursor<T> {
    /// Moves on to the item that the position lies in, or behind everything. The items and
    /// subtrees that the cursor goes past are gathered if `keep` says so.
    fn walk<D, S>(
        &mut self,
        pos: &D,
        bias: &SeekBias,
        db: &mut S,
        keep: bool,
        subtrees: &mut Trees<T>,
    ) -> (result: Result<(), S::ReadError>)
        where
            D: Dimension<Summary = T::Summary>,
            S: NodeStore<T>,
        requires
            old(self).wf(old(db).nodes()),
            old(self).tree().wf(old(db).nodes()),
            old(subtrees)@.len() == 0,
        ensures
            read_in_order(
                *old(db),
                *final(db),
                old(self).seek_ids::<D>(old(db).nodes(), pos@, *bias),
                result,
            ),
            final(self).same_anchor(*old(self)),
            final(self).anchored(old(db).nodes()),
            final(self).sought(),
            old(self).at_end(old(db).nodes()) ==> {
                &&& result is Ok
                &&& *final(self) == *old(self)
                &&& *final(db) == *old(db)
                &&& final(subtrees)@.len() == 0
            },
            result is Ok ==> {
                let nodes = old(db).nodes();
                let start = old(self).position(nodes);
                let stop = old(self).stop::<D>(nodes, pos@, *bias);
                &&& final(self).arrived(nodes, start, stop, keep, final(subtrees)@)
                &&& keep ==> made_of(
                    nodes,
                    final(subtrees)@,
                    old(self).seek_parts::<D>(nodes, pos@, *bias),
                )
            },
            result is Err ==> final(self).halted(
                old(db).nodes(),
                ids_read(*old(db), *final(db)).last(),
            ),
            old(self).sought() ==> {
                let here = old(self).item_ids(old(db).nodes()).len();
                let read = ids_read(*old(db), *final(db)).len();
                &&& result is Ok ==> read >= here
                &&& result is Err && read <= here ==> *final(self) == *old(self)
            },
            result is Err && !old(self).sought() && ids_read(*old(db), *final(db)).len() <= id_of(
                old(self).tree(),
            ).len() ==> {
                let nodes = old(db).nodes();
                &&& final(self).wf(nodes)
                &&& final(self).position(nodes) == old(self).items(nodes).len()
            },
            !old(self).sought() && old(self).tree().dangling(old(db).nodes()) ==> {
                &&& result is Err
                &&& final(self).wf(old(db).nodes())
                &&& final(self).position(old(db).nodes()) == 0
            },
            old(self).stops_at_hidden::<D>(old(db).nodes(), pos@, *bias) ==> result is Err,
            !old(self).sought() && old(self).way_to_stop_in_memory::<D>(
                old(db).nodes(),
                pos@,
                *bias,
            ) ==> result is Ok,
            old(self).tree().in_memory() ==> result is Ok,
    {
        let ghost nodes = db.nodes();
        let ghost tree = self.tree;
        let ghost h = self.height(nodes);
        let ghost items = tree.content(nodes);
        let ghost start = self.position(nodes);
        let ghost stop = stop_from::<T, D>(items, start, pos@, *bias);
        let ghost begin = *db;
        let ghost mut ids = Reads::empty();
        let ghost mut done = Seq::<Part<T>>::empty();
        proof {
            self.lemma_position_bounds(nodes);
            lemma_stop_from::<T, D>(items, start, pos@, *bias);
            lemma_read_nothing(begin);
            if self.did_seek {
                self.lemma_end(nodes);
                self.lemma_item_ids(nodes);
            }
        }
        let containing_subtree = if self.did_seek {
            match self.climb(pos, bias, db, subtrees) {
                Ok(containing) => {
                    proof {
                        if containing is Some {
                            ids = ids_read(begin, *db);
                            done = choose|done: Seq<Part<T>>|
                                {
                                    &&& #[trigger] made_of(nodes, subtrees@, done)
                                    &&& parts_from(nodes, tree, h, start, stop) == done
                                        + parts_below(nodes, tree, h, self.stack@, stop)
                                };
                        }
                    }
                    containing
                },
                Err(error) => {
                    return Err(error);
                },
            }
        } else {
            self.did_seek = true;
            proof {
                assert(items.subrange(0, 0) =~= Seq::<Piece<T>>::empty());
                assert(piece_values(Seq::<Piece<T>>::empty()).len() == 0);
                assert(ids + ids_below(nodes, tree, h, self.stack@, stop) =~= ids_below(
                    nodes,
                    tree,
                    h,
                    self.stack@,
                    stop,
                ));
                assert(done + parts_below(nodes, tree, h, self.stack@, stop) =~= parts_below(
                    nodes,
                    tree,
                    h,
                    self.stack@,
                    stop,
                ));
            }
            Some(self.tree.clone())
        };
        if let Some(subtree) = containing_subtree {
            let ghost between = *db;
            let ghost kept = subtrees@;
            let ghost path = self.stack@;
            let ghost rest = ids_below(nodes, tree, h, path, stop);
            let result = self.descend(
                Ghost(start),
                Ghost(stop),
                subtree,
                pos,
                bias,
                db,
                keep,
                subtrees,
            );
            proof {
                lemma_read_on(begin, between, *db, ids, rest, result);
                if result is Ok && keep {
                    lemma_made_of_concat(
                        nodes,
                        kept,
                        done,
                        subtrees@.skip(kept.len() as int),
                        parts_below(nodes, tree, h, path, stop),
                    );
                }
            }
            match result {
                Ok(()) => {},
                Err(error) => {
                    return Err(error);
                },
            }
        }
        proof {
            self.lemma_position_bounds(nodes);
        }
        Ok(())
    }

    /// Moves on to the item that the position lies in, or behind everything. What
    /// the cursor goes past is joined to the end of `slice`, if there is one.
    fn seek_internal<D, S>(
        &mut self,
        pos: &D,
        bias: SeekBias,
        db: &mut S,
        slice: Option<&mut Tree<T>>,
    ) -> (result: Result<(), S::ReadError>)
        where
            D: Dimension<Summary = T::Summary>,
            S: NodeStore<T>,
        requires
            old(self).wf(old(db).nodes()),
            old(self).tree().wf(old(db).nodes()),
            slice matches Some(tree) ==> {
                let nodes = old(db).nodes();
                let run = old(self).run::<D>(nodes, pos@, bias);
                &&& tree.wf(nodes)
                &&& *tree is Resident
                &&& T::Summary::fits(total(tree.content(nodes) + run))
                &&& weight(tree.content(nodes) + run) < item_limit()
            },
        ensures
            only_read(*old(db), *final(db), result),
            has_read(*old(db), *final(db), ids_read(*old(db), *final(db))),
            slice is None ==> read_in_order(
                *old(db),
                *final(db),
                old(self).seek_ids::<D>(old(db).nodes(), pos@, bias),
                result,
            ),
            final(self).same_anchor(*old(self)),
            final(self).anchored(old(db).nodes()),
            final(self).sought(),
            old(self).at_end(old(db).nodes()) ==> {
                &&& result is Ok
                &&& *final(self) == *old(self)
                &&& *final(db) == *old(db)
                &&& slice matches Some(tree) ==> *final(tree) == *tree
            },
            !old(self).sought() && old(self).tree().dangling(old(db).nodes()) ==> {
                &&& result is Err
                &&& final(self).wf(old(db).nodes())
                &&& final(self).position(old(db).nodes()) == 0
                &&& slice matches Some(tree) ==> *final(tree) == *tree
            },
            slice is None && result is Err ==> final(self).halted(
                old(db).nodes(),
                ids_read(*old(db), *final(db)).last(),
            ),
            result is Err && old(self).sought() && ids_read(*old(db), *final(db)).len() <= old(
                self,
            ).item_ids(old(db).nodes()).len() ==> *final(self) == *old(self),
            result is Err && !old(self).sought() && ids_read(*old(db), *final(db)).len() <= id_of(
                old(self).tree(),
            ).len() ==> {
                let nodes = old(db).nodes();
                &&& final(self).wf(nodes)
                &&& final(self).position(nodes) == old(self).items(nodes).len()
            },
            result is Ok ==> {
                let nodes = old(db).nodes();
                &&& final(self).wf(nodes)
                &&& final(self).position(nodes) == old(self).stop::<D>(nodes, pos@, bias)
                &&& slice matches Some(tree) ==> {
                    &&& final(tree).wf(nodes)
                    &&& *final(tree) is Resident
                    &&& final(tree).slim(nodes) ==> tree.slim(nodes)
                    &&& final(tree).content(nodes) == tree.content(nodes) + old(self).run::<D>(
                        nodes,
                        pos@,
                        bias,
                    )
                    &&& old(self).cut_out::<D>(
                        nodes,
                        pos@,
                        bias,
                        *tree,
                        *final(tree),
                        ids_read(*old(db), *final(db)),
                    )
                }
            },
            result is Err ==> (slice matches Some(tree) ==> {
                let nodes = old(db).nodes();
                &&& final(tree).shaped(nodes)
                &&& final(tree).can_be_walked(nodes)
                &&& *final(tree) is Resident
                &&& partly_grown(
                    tree.content(nodes),
                    final(tree).content(nodes),
                    tree.content(nodes) + old(self).run::<D>(nodes, pos@, bias),
                )
                &&& old(self).partly_cut_out::<D>(
                    nodes,
                    pos@,
                    bias,
                    *final(self),
                    *tree,
                    *final(tree),
                    ids_read(*old(db), *final(db)),
                )
                &&& tree.in_memory() && ids_read(*old(db), *final(db)).len() > old(
                    self,
                ).seek_ids::<D>(nodes, pos@, bias).len() ==> forall|k: int|
                    #[trigger] parts_are_free(old(self).seek_parts::<D>(nodes, pos@, bias), k)
                        ==> (tree.content(nodes) + shown_by(
                        nodes,
                        old(self).seek_parts::<D>(nodes, pos@, bias).take(k),
                    )).is_prefix_of(final(tree).content(nodes))
            }),
            old(self).stops_at_hidden::<D>(old(db).nodes(), pos@, bias) ==> {
                &&& result is Err
                &&& slice matches Some(tree) ==> *final(tree) == *tree
            },
            slice is None && !old(self).sought() && old(self).way_to_stop_in_memory::<D>(
                old(db).nodes(),
                pos@,
                bias,
            ) ==> result is Ok,
            old(self).tree().in_memory() && (slice matches Some(tree) ==> tree.in_memory()) ==> {
                &&& result is Ok
                &&& slice matches Some(tree) ==> final(tree).in_memory()
            },
    {
        let ghost nodes = db.nodes();
        let ghost start = *db;
        let ghost ids = self.seek_ids::<D>(nodes, pos@, bias);
        let ghost parts = self.seek_parts::<D>(nodes, pos@, bias);
        let ghost run = self.run::<D>(nodes, pos@, bias);
        let ghost in_memory = self.tree.in_memory();
        proof {
            if slice is Some {
                let held = slice->0.content(nodes);
                lemma_sound_is_shaped(nodes, *slice->0, slice->0.at(nodes).height(), true);
                lemma_total_fits(nodes, *slice->0);
                assert(held =~= (held + run).subrange(0, held.len() as int));
                assert(held =~= held.subrange(0, held.len() as int));
            }
        }
        let keep = slice.is_some();
        let mut slice_subtrees: Trees<T> = Trees::new();
        match self.walk(pos, &bias, db, keep, &mut slice_subtrees) {
            Ok(()) => {},
            Err(error) => {
                return Err(error);
            },
        }
        let ghost between = *db;
        proof {
            lemma_ids_read(start, between, ids);
        }
        if let Some(target) = slice {
            let ghost subtrees = slice_subtrees@;
            let result = target.push_gathered(Ghost(run), Ghost(in_memory), &slice_subtrees, db);
            proof {
                let more = ids_read(between, *db);
                assert(db.reads() =~= start.reads() + (ids + more));
                lemma_ids_read(start, *db, ids + more);
                lemma_begins_with(ids, more);
                assert((ids + more).skip(ids.len() as int) =~= more);
                assert(!old(self).sought() ==> ids.len() >= id_of(old(self).tree()).len());
                assert(made_of(nodes, subtrees, parts));
                assert forall|k: int| #[trigger] parts_are_free(parts, k) implies trees_are_free(
                    subtrees,
                    k,
                ) && contents(nodes, subtrees.take(k)) == shown_by(nodes, parts.take(k)) by {
                    lemma_made_of_shows(nodes, subtrees, parts, k);
                }
            }
            result
        } else {
            Ok(())
        }
    }

    /// Goes to the item that the position lies in, or behind everything. Only the nodes on
    /// the way there are read.
    ///
    /// If the root cannot be read, the cursor stands behind everything. If another node
    /// cannot be read, the cursor halts there, at no item, and has to seek again.
    pub fn seek<D, S>(&mut self, pos: &D, bias: SeekBias, db: &mut S) -> (result: Result<
        (),
        S::ReadError,
    >)
        where
            D: Dimension<Summary = T::Summary>,
            S: NodeStore<T>,
        requires
            old(self).anchored(old(db).nodes()),
            old(self).tree().wf(old(db).nodes()),
        ensures
            read_in_order(
                *old(db),
                *final(db),
                way_ids(
                    old(db).nodes(),
                    old(self).tree(),
                    old(self).tree().at(old(db).nodes()).height(),
                    stop_from::<T, D>(old(self).items(old(db).nodes()), 0, pos@, bias),
                ),
                result,
            ),
            final(self).same_anchor(*old(self)),
            final(self).anchored(old(db).nodes()),
            final(self).sought(),
            old(self).tree().dangling(old(db).nodes()) ==> {
                &&& result is Err
                &&& final(self).wf(old(db).nodes())
                &&& final(self).position(old(db).nodes()) == 0
            },
            result is Err && ids_read(*old(db), *final(db)).len() <= id_of(
                old(self).tree(),
            ).len() ==> {
                let nodes = old(db).nodes();
                &&& final(self).wf(nodes)
                &&& final(self).position(nodes) == old(self).items(nodes).len()
            },
            result is Err ==> final(self).halted(
                old(db).nodes(),
                ids_read(*old(db), *final(db)).last(),
            ),
            result is Ok ==> old(self).seeks_to::<D>(old(db).nodes(), pos@, bias, *final(self)),
            ({
                let items = old(self).items(old(db).nodes());
                let stop = stop_from::<T, D>(items, 0, pos@, bias);
                0 <= stop < items.len() && items[stop] is Hidden ==> result is Err
            }),
            ({
                let nodes = old(db).nodes();
                let stop = stop_from::<T, D>(old(self).items(nodes), 0, pos@, bias);
                let tree = old(self).tree();
                way_in_memory(nodes, tree, tree.at(nodes).height(), stop) ==> result is Ok
            }),
            old(self).tree().in_memory() ==> result is Ok,
    {
        self.reset();
        assert(self.wf(db.nodes()));
        assert(self.position(db.nodes()) == 0);
        self.seek_internal(pos, bias, db, None)
    }

    /// Moves on to the item that the position lies in, or behind everything, and
    /// returns a tree of the items that it goes past.
    ///
    /// If a node cannot be read, a tree is returned nevertheless. It is empty if the cursor
    /// did not arrive. If the first node that it asked for could not be read, the cursor
    /// stays, or is behind everything if it had no place; if another one could not be read,
    /// it halts there, at no item, and has to seek again. If the cursor did arrive, the tree
    /// holds what it went past up to the node that could not be read, and the summaries in
    /// the tree may be out of step with its items.
    pub fn slice<D, S>(&mut self, end: &D, bias: SeekBias, db: &mut S) -> (result: Result<
        Tree<T>,
        S::ReadError,
    >)
        where
            D: Dimension<Summary = T::Summary>,
            S: NodeStore<T>,
        requires
            old(self).wf(old(db).nodes()),
            old(self).tree().wf(old(db).nodes()),
            weight(old(self).run::<D>(old(db).nodes(), end@, bias)) < item_limit(),
        ensures
            result is Ok,
            result->Ok_0 is Resident,
            final(db).nodes() == old(db).nodes(),
            final(db).failures() == old(db).failures() || exists|error: S::ReadError|
                final(db).failures() == #[trigger] old(db).failures().push(error),
            has_read(*old(db), *final(db), ids_read(*old(db), *final(db))),
            final(self).same_anchor(*old(self)),
            final(self).anchored(old(db).nodes()),
            final(self).sought(),
            result->Ok_0.shaped(old(db).nodes()),
            result->Ok_0.can_be_walked(old(db).nodes()),
            old(self).tree().in_memory() ==> {
                &&& final(db).failures() == old(db).failures()
                &&& result->Ok_0.in_memory()
            },
            !old(self).sought() && old(self).tree().dangling(old(db).nodes()) ==> {
                let nodes = old(db).nodes();
                &&& final(db).failures() != old(db).failures()
                &&& final(self).wf(nodes)
                &&& final(self).position(nodes) == 0
                &&& result->Ok_0.wf(nodes)
                &&& result->Ok_0.in_memory()
                &&& result->Ok_0.content(nodes).len() == 0
            },
            final(db).failures() != old(db).failures() && old(self).sought() && ids_read(
                *old(db),
                *final(db),
            ).len() <= old(self).item_ids(old(db).nodes()).len() ==> *final(self) == *old(self),
            final(db).failures() != old(db).failures() && !old(self).sought() && ids_read(
                *old(db),
                *final(db),
            ).len() <= id_of(old(self).tree()).len() ==> {
                let nodes = old(db).nodes();
                &&& final(self).wf(nodes)
                &&& final(self).position(nodes) == old(self).items(nodes).len()
            },
            old(self).stops_at_hidden::<D>(old(db).nodes(), end@, bias) ==> {
                let nodes = old(db).nodes();
                &&& final(db).failures() != old(db).failures()
                &&& result->Ok_0.wf(nodes)
                &&& result->Ok_0.in_memory()
                &&& result->Ok_0.content(nodes).len() == 0
            },
            final(db).failures() == old(db).failures() ==> {
                let nodes = old(db).nodes();
                &&& old(self).slices_to::<D>(nodes, end@, bias, *final(self), result->Ok_0)
                &&& exists|empty: Tree<T>|
                    {
                        &&& #[trigger] is_empty_leaf(nodes, empty)
                        &&& old(self).cut_out::<D>(
                            nodes,
                            end@,
                            bias,
                            empty,
                            result->Ok_0,
                            ids_read(*old(db), *final(db)),
                        )
                    }
            },
            final(db).failures() != old(db).failures() ==> {
                let nodes = old(db).nodes();
                &&& result->Ok_0.content(nodes).is_prefix_of(
                    old(self).run::<D>(nodes, end@, bias),
                )
                &&& ids_read(*old(db), *final(db)).len() > old(self).seek_ids::<D>(
                    nodes,
                    end@,
                    bias,
                ).len() ==> forall|k: int|
                    #[trigger] parts_are_free(old(self).seek_parts::<D>(nodes, end@, bias), k)
                        ==> shown_by(
                        nodes,
                        old(self).seek_parts::<D>(nodes, end@, bias).take(k),
                    ).is_prefix_of(result->Ok_0.content(nodes))
                &&& exists|empty: Tree<T>|
                    {
                        &&& #[trigger] is_empty_leaf(nodes, empty)
                        &&& old(self).partly_cut_out::<D>(
                            nodes,
                            end@,
                            bias,
                            *final(self),
                            empty,
                            result->Ok_0,
                            ids_read(*old(db), *final(db)),
                        )
                    }
            },
            old(self).at_end(old(db).nodes()) ==> {
                &&& *final(self) == *old(self)
                &&& *final(db) == *old(db)
            },
    {
        let mut slice = Tree::new();
        let ghost nodes = db.nodes();
        let ghost empty = slice;
        let ghost run = self.run::<D>(nodes, end@, bias);
        proof {
            assert(is_empty_leaf(nodes, empty)) by {
                assert(slice.content(nodes).len() == 0);
                assert(known(slice.at(nodes)->items).len() == 0);
                assert(slice.at(nodes)->items =~= Seq::<T>::empty());
                assert(slice.wf(nodes));
            }
            assert(slice.wf(nodes) && slice.at(nodes) is Leaf && slice.content(nodes).len() == 0);
            assert(slice.content(nodes) + run =~= run);
            self.lemma_position_bounds(nodes);
            let start = self.position(nodes);
            lemma_stop_from::<T, D>(self.items(nodes), start, end@, bias);
            lemma_total_part_fits(self.items(nodes), start, self.stop::<D>(nodes, end@, bias));
        }
        let outcome = self.seek_internal(end, bias, db, Some(&mut slice));
        proof {
            if outcome is Err {
                let failures = old(db).failures();
                let parts = old(self).seek_parts::<D>(nodes, end@, bias);
                assert(failures.push(outcome->Err_0).len() == failures.len() + 1);
                assert forall|k: int| #[trigger] parts_are_free(parts, k) implies empty.content(
                    nodes,
                ) + shown_by(nodes, parts.take(k)) == shown_by(nodes, parts.take(k)) by {
                    assert(empty.content(nodes) + shown_by(nodes, parts.take(k)) =~= shown_by(
                        nodes,
                        parts.take(k),
                    ));
                }
            }
            lemma_sound_is_shaped(nodes, slice, slice.at(nodes).height(), true);
        }
        Ok(slice)
    }
}

impl<T: Item> Cursor<T> {
    /// Where a cursor that moves on to a position comes to stand.
    pub open spec fn stop<D: Dimension<Summary = T::Summary>>(
        self,
        nodes: Nodes<T>,
        pos: D::V,
        bias: SeekBias,
    ) -> int {
        stop_from::<T, D>(self.items(nodes), self.position(nodes), pos, bias)
    }

    /// What a cursor that moves on to a position goes past.
    pub open spec fn run<D: Dimension<Summary = T::Summary>>(
        self,
        nodes: Nodes<T>,
        pos: D::V,
        bias: SeekBias,
    ) -> Seq<Piece<T>> {
        self.items(nodes).subrange(self.position(nodes), self.stop::<D>(nodes, pos, bias))
    }

    /// Whether a cursor has gone from here to a position.
    pub open spec fn seeks_to<D: Dimension<Summary = T::Summary>>(
        self,
        nodes: Nodes<T>,
        pos: D::V,
        bias: SeekBias,
        after: Self,
    ) -> bool {
        &&& after.same_anchor(self)
        &&& after.wf(nodes)
        &&& after.sought()
        &&& after.position(nodes) == stop_from::<T, D>(self.items(nodes), 0, pos, bias)
    }

    /// Whether a cursor has moved on from here to a position, and a tree holds what it went
    /// past.
    pub open spec fn slices_to<D: Dimension<Summary = T::Summary>>(
        self,
        nodes: Nodes<T>,
        pos: D::V,
        bias: SeekBias,
        after: Self,
        tree: Tree<T>,
    ) -> bool {
        &&& after.same_anchor(self)
        &&& after.wf(nodes)
        &&& after.sought()
        &&& after.position(nodes) == self.stop::<D>(nodes, pos, bias)
        &&& tree.wf(nodes)
        &&& !tree.slim(nodes)
        &&& tree.content(nodes) == self.run::<D>(nodes, pos, bias)
    }

    /// What is read when the cursor moves on to a position.
    pub open spec fn seek_ids<D: Dimension<Summary = T::Summary>>(
        self,
        nodes: Nodes<T>,
        pos: D::V,
        bias: SeekBias,
    ) -> Reads {
        let height = self.tree().at(nodes).height();
        let stop = self.stop::<D>(nodes, pos, bias);
        if !self.sought() {
            way_ids(nodes, self.tree(), height, stop)
        } else if self.at_end(nodes) {
            Seq::empty()
        } else {
            walk_ids(nodes, self.tree(), height, self.position(nodes), stop)
        }
    }

    /// What a cursor that moves on to a position goes past, in parts.
    pub open spec fn seek_parts<D: Dimension<Summary = T::Summary>>(
        self,
        nodes: Nodes<T>,
        pos: D::V,
        bias: SeekBias,
    ) -> Seq<Part<T>> {
        let height = self.tree().at(nodes).height();
        let stop = self.stop::<D>(nodes, pos, bias);
        if !self.sought() {
            parts_up_to(nodes, self.tree(), height, stop)
        } else if self.at_end(nodes) {
            Seq::empty()
        } else {
            parts_from(nodes, self.tree(), height, self.position(nodes), stop)
        }
    }

    /// Whether `tree` is `old_tree` with what a cursor that moves on to a position goes past
    /// joined to it, with these reads: first those of the walk, then those of the joins.
    pub open spec fn cut_out<D: Dimension<Summary = T::Summary>>(
        self,
        nodes: Nodes<T>,
        pos: D::V,
        bias: SeekBias,
        old_tree: Tree<T>,
        tree: Tree<T>,
        ids: Reads,
    ) -> bool {
        let walk = self.seek_ids::<D>(nodes, pos, bias);
        &&& walk.is_prefix_of(ids)
        &&& assembled(
            nodes,
            old_tree,
            self.seek_parts::<D>(nodes, pos, bias),
            tree,
            ids.skip(walk.len() as int),
        )
    }

    /// What is left when a read fails while a cursor moves on to a position, after these
    /// reads, of which the last one failed. If that was a read of the walk, the cursor has
    /// halted there, and nothing is joined to `old_tree`. Otherwise the cursor has arrived,
    /// and the parts in front of the one at which the read failed are joined.
    pub open spec fn partly_cut_out<D: Dimension<Summary = T::Summary>>(
        self,
        nodes: Nodes<T>,
        pos: D::V,
        bias: SeekBias,
        after: Self,
        old_tree: Tree<T>,
        tree: Tree<T>,
        ids: Reads,
    ) -> bool {
        let walk = self.seek_ids::<D>(nodes, pos, bias);
        ||| {
            &&& tree == old_tree
            &&& ids.len() > 0
            &&& ids.is_prefix_of(walk)
            &&& after.halted(nodes, ids.last())
        }
        ||| {
            &&& after.wf(nodes)
            &&& after.position(nodes) == self.stop::<D>(nodes, pos, bias)
            &&& walk.is_prefix_of(ids)
            &&& assembly_cut_short(
                nodes,
                old_tree,
                self.seek_parts::<D>(nodes, pos, bias),
                tree,
                ids.skip(walk.len() as int),
            )
        }
    }

    /// Whether a cursor that moves on to a position would come to stand in a subtree that
    /// cannot be found.
    pub open spec fn stops_at_hidden<D: Dimension<Summary = T::Summary>>(
        self,
        nodes: Nodes<T>,
        pos: D::V,
        bias: SeekBias,
    ) -> bool {
        let stop = self.stop::<D>(nodes, pos, bias);
        0 <= stop < self.items(nodes).len() && self.items(nodes)[stop] is Hidden
    }

    /// Whether the cursor has gone behind everything.
    pub open spec fn at_end(self, nodes: Nodes<T>) -> bool {
        self.sought() && self.position(nodes) == self.items(nodes).len()
    }

    /// Whether the nodes on the way from the root to where a cursor without a place goes
    /// are in memory.
    spec fn way_to_stop_in_memory<D: Dimension<Summary = T::Summary>>(
        self,
        nodes: Nodes<T>,
        pos: D::V,
        bias: SeekBias,
    ) -> bool {
        way_in_memory(
            nodes,
            self.tree,
            self.height(nodes),
            self.stop::<D>(nodes, pos, bias),
        )
    }
}

/// Whether a tree is a leaf in memory that holds nothing.
pub open spec fn is_empty_leaf<T: Item>(nodes: Nodes<T>, tree: Tree<T>) -> bool {
    tree is Resident && tree.at(nodes) == leaf_of(Seq::<T>::empty())
}

impl<T: Item> Tree<T> {
    /// The last item of a leaf. The leaf is read twice, and the answer goes by the second
    /// read.
    fn last_item<'a, S: 'a + NodeStore<T>>(&'a self, db: &'a mut S) -> (result: Result<
        Option<&'a T>,
        S::ReadError,
    >)
        requires
            self.at(old(db).nodes()) is Leaf,
            self.at(old(db).nodes()).len() > 0,
        ensures
            read_again(*old(db), *final(db), result),
            has_read(*old(db), *final(db), id_of(*self) + id_of(*self)),
            *self is Resident ==> result is Ok && *final(db) == *old(db),
            result matches Ok(item) ==> {
                let items = self.content(old(db).nodes());
                is_item_at(items, items.len() - 1, item)
            },
    {
        let ghost start = *db;
        proof {
            lemma_read_nothing(start);
        }
        match self.node(db) {
            Ok(_) => {},
            Err(_) => {
                assert(db.failures().drop_last() =~= start.failures());
            },
        }
        let ghost again = *db;
        proof {
            lemma_read_again(start, start, again, Reads::empty(), *self);
            assert(Reads::empty() + id_of(*self) + id_of(*self) =~= id_of(*self) + id_of(*self));
            assert forall|error: S::ReadError| (
            #[trigger] again.failures().push(error)).drop_last() == again.failures() by {
                assert(again.failures().push(error).drop_last() =~= again.failures());
            }
        }
        match self.node(db) {
            Ok(Node::Leaf { items, .. }) => {
                let items = items.as_slice();
                assert(known(items@).last() == Piece::Item(items@.last()));
                Ok(Some(&items[items.len() - 1]))
            },
            Ok(Node::Internal { .. }) => vstd::pervasive::unreached(),
            Err(error) => Err(error),
        }
    }
}

impl<T: Item> Tree<T> {
    /// A cursor in the tree that has no place yet.
    pub fn cursor(&self) -> (result: Cursor<T>)
        ensures
            result.tree() == *self,
            !result.sought(),
            result.remembered() is None,
            forall|nodes: Nodes<T>|
                self.wf(nodes) || self.can_be_walked(nodes) ==> #[trigger] result.wf(nodes),
            forall|nodes: Nodes<T>|
                self.wf(nodes) || self.can_be_walked(nodes) ==> #[trigger] result.anchored(nodes),
            forall|nodes: Nodes<T>| #[trigger] result.position(nodes) == 0,
    {
        Cursor::new(self.clone())
    }

    /// The items of the tree, from left to right. Every node of the tree is read.
    pub fn items<S: NodeStore<T>>(&self, db: &mut S) -> (result: Result<Vec<T>, S::ReadError>)
        requires
            self.wf(old(db).nodes()) || self.can_be_walked(old(db).nodes()),
        ensures
            read_in_order(
                *old(db),
                *final(db),
                list_ids(old(db).nodes(), *self),
                result,
            ),
            self.dangling(old(db).nodes()) ==> result is Err,
            result matches Ok(items) ==> known(items@) == self.content(old(db).nodes()),
            self.in_memory() ==> result is Ok,
    {
        let ghost nodes = db.nodes();
        let ghost all = self.content(nodes);
        let ghost start = *db;
        let ghost all_ids = list_ids(nodes, *self);
        let ghost mut ids = way_ids(nodes, *self, self.at(nodes).height(), 0);
        let mut items: Vec<T> = Vec::new();
        let mut cursor = self.cursor();
        assert(cursor.wf(nodes));
        assert(piece_values(Seq::<Piece<T>>::empty()).len() == 0);
        match cursor.descend_to_start(self.clone(), db) {
            Ok(()) => {},
            Err(error) => {
                proof {
                    let rest = all_ids.skip(ids.len() as int);
                    assert(all_ids =~= ids + rest);
                    lemma_read_begun(start, *db, ids, rest, Err::<(), S::ReadError>(error));
                }
                return Err(error);
            },
        }
        proof {
            lemma_path_splits(nodes, *self, self.at(nodes).height(), cursor.stack@);
            assert(all.take(0) =~= known(items@));
            if all.len() == 0 {
                lemma_empty_path(nodes, *self, self.at(nodes).height(), cursor.stack@);
            }
        }
        loop
            invariant
                db.nodes() == nodes,
                db.failures() == old(db).failures(),
                nodes == old(db).nodes(),
                start == *old(db),
                all_ids == list_ids(nodes, *self),
                has_read(start, *db, ids),
                all_ids == ids + if all.len() == 0 {
                    id_of(*self)
                } else {
                    rest_ids(nodes, *self, cursor.position(nodes))
                },
                all.len() == 0 ==> cursor.stack@.len() > 0 && cursor.stack@.last().0 == *self,
                all == self.content(nodes),
                !self.dangling(nodes),
                cursor.tree() == *self,
                cursor.anchored(nodes),
                cursor.did_seek,
                cursor.settled(nodes),
                all.len() > 0 ==> points_at(nodes, cursor.stack@),
                0 <= cursor.position(nodes) <= all.len(),
                known(items@) == all.take(cursor.position(nodes)),
            decreases all.len() - cursor.position(nodes),
        {
            let ghost position = cursor.position(nodes);
            let ghost between = *db;
            let ghost here = if cursor.stack@.len() > 0 {
                id_of(cursor.stack@.last().0)
            } else {
                Seq::empty()
            };
            let ghost rest = all_ids.skip((ids + here).len() as int);
            proof {
                if points_at(nodes, cursor.stack@) {
                    cursor.lemma_end(nodes);
                    cursor.lemma_item_ids(nodes);
                }
                assert(all_ids =~= ids + here + rest);
                lemma_begins_with(ids + here, rest);
            }
            match cursor.current(db) {
                Ok(Some(item)) => {
                    let copy = item.clone();
                    proof {
                        T::clone_is_equal(*item, copy);
                        let grown = known(items@).push(Piece::Item(copy));
                        assert(known(items@.push(copy)) =~= grown);
                        assert(all.take(position + 1) =~= grown);
                    }
                    items.push(copy);
                },
                Ok(None) => {
                    proof {
                        let result = Ok::<(), S::ReadError>(());
                        lemma_read_on(start, between, *db, ids, here, result);
                        assert(all.take(position) =~= all);
                        if all.len() > 0 {
                            assert(here =~= Reads::empty());
                            assert(rest_ids(nodes, *self, position) =~= Reads::empty());
                        }
                        assert(all_ids =~= ids + here);
                    }
                    return Ok(items);
                },
                Err(error) => {
                    proof {
                        let result = Err::<(), S::ReadError>(error);
                        lemma_read_on(start, between, *db, ids, here, result);
                        lemma_read_within(start, *db, ids + here, all_ids, result);
                    }
                    return Err(error);
                },
            }
            let ghost step = cursor.next_ids(nodes);
            let ghost later = rest_ids(nodes, *self, position + 1);
            proof {
                lemma_read_on(start, between, *db, ids, here, Ok::<(), S::ReadError>(()));
                ids = ids + here;
                assert(all_ids =~= ids + step + later);
                lemma_begins_with(ids + step, later);
            }
            let ghost between = *db;
            match cursor.next(db) {
                Ok(()) => {
                    proof {
                        let result = Ok::<(), S::ReadError>(());
                        lemma_read_on(start, between, *db, ids, step, result);
                        ids = ids + step;
                    }
                },
                Err(error) => {
                    proof {
                        let result = Err::<(), S::ReadError>(error);
                        lemma_read_on(start, between, *db, ids, step, result);
                        lemma_read_within(start, *db, ids + step, all_ids, result);
                    }
                    return Err(error);
                },
            }
        }
    }
}

} // verus!
