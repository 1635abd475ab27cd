//! What a walk reads, and what it gathers: the subtrees and the parts of leaves that it
//! goes past.

use crate::model::{
    gathered, item_limit, items_in, items_of, items_of_all, lemma_grows_on,
    lemma_items_of_all_concat, lemma_items_of_all_split, lemma_shows_is_unique, lemma_shows_part,
    partly_grown, shows, sound, sound_children, sound_node, Rigor,
};
use crate::node::NodeView;
use crate::path::{
    end_height, front_items, into_tree, items_at_end, items_before, items_into, items_up_to,
    leads_down, lemma_front_and_back, lemma_path_end_index, lemma_path_splits, points_at, Path,
};
use crate::piece::{known, lemma_total_part_fits, lemma_weight_part, total, weight, Piece};
use crate::reads::{
    child_at, child_start, child_with, goes_below, id_of, lemma_child_at, lemma_child_exists,
    lemma_climb_ids, lemma_front_grows, lemma_path_child, lemma_way_into, walk_ids, way_ids,
    way_up_ids,
};
use crate::storage::Trees;
use crate::store::{
    has_read, ids_read, lemma_ids_read, lemma_read_begun, lemma_read_nothing, lemma_read_on,
    only_read, read_in_order, NodeStore, Nodes, Reads,
};
use crate::summary::{Item, Summary, SummaryValue};
use crate::tree::{cut_short, first_children, is_free_up_to, leaf_of, pushed, Tree};
use vstd::prelude::*;

verus! {

/// Something that a walk goes past: a whole subtree, or some items of a leaf.
#[verifier::reject_recursive_types(T)]
pub enum Part<T: Item> {
    Whole(Tree<T>),
    Items(Seq<T>),
}

/// Whole subtrees.
pub open spec fn wholes<T: Item>(trees: Seq<Tree<T>>) -> Seq<Part<T>> {
    trees.map_values(|tree: Tree<T>| Part::Whole(tree))
}

/// What a walk goes past that goes down from the root of a tree of height `height` to what
/// the tree shows at `to`, or along all of it.
pub open spec fn parts_up_to<T: Item>(
    nodes: Nodes<T>,
    tree: Tree<T>,
    height: nat,
    to: int,
) -> Seq<Part<T>>
    decreases height,
{
    match tree.at(nodes) {
        NodeView::Leaf { items, .. } => if to > 0 {
            seq![Part::Items(items.take(to))]
        } else {
            Seq::empty()
        },
        NodeView::Internal { child_trees, .. } => if goes_below(nodes, tree, height, to) {
            wholes(child_trees.take(child_at(nodes, tree.at(nodes), height, to))) + parts_up_to(
                nodes,
                child_with(nodes, tree, height, to),
                (height - 1) as nat,
                to - child_start(nodes, tree.at(nodes), height, to),
            )
        } else {
            wholes(child_trees)
        },
    }
}

/// What a walk goes past that goes from what a tree of height `height` shows at `from` to
/// what it shows at `to`, or along all the rest of it.
pub open spec fn parts_from<T: Item>(
    nodes: Nodes<T>,
    tree: Tree<T>,
    height: nat,
    from: int,
    to: int,
) -> Seq<Part<T>>
    decreases height,
{
    let node = tree.at(nodes);
    if goes_below(nodes, tree, height, from) {
        let below = (height - 1) as nat;
        let i = child_at(nodes, node, height, from);
        let child = child_with(nodes, tree, height, from);
        let start = child_start(nodes, node, height, from);
        let len = front_items(nodes, node, height, i + 1).len() - start;
        let all = node->child_trees;
        if to >= items_in(nodes, node, height).len() {
            parts_from(nodes, child, below, from - start, len) + wholes(all.skip(i + 1))
        } else if child_at(nodes, node, height, to) == i {
            parts_from(nodes, child, below, from - start, to - start)
        } else {
            parts_from(nodes, child, below, from - start, len) + wholes(
                all.subrange(i + 1, child_at(nodes, node, height, to)),
            ) + parts_up_to(
                nodes,
                child_with(nodes, tree, height, to),
                below,
                to - child_start(nodes, node, height, to),
            )
        }
    } else {
        seq![Part::Items(node->items.subrange(from, to))]
    }
}

/// Whether trees are what a walk goes past: each of them is the subtree, or a leaf of the
/// items.
pub open spec fn made_of<T: Item>(
    nodes: Nodes<T>,
    trees: Seq<Tree<T>>,
    parts: Seq<Part<T>>,
) -> bool {
    &&& trees.len() == parts.len()
    &&& forall|i: int|
        #![trigger trees[i]]
        0 <= i < trees.len() ==> match parts[i] {
            Part::Whole(tree) => trees[i] == tree,
            Part::Items(items) => trees[i] is Resident && trees[i].at(nodes) == leaf_of(items),
        }
}

/// What trees show, one after the other.
pub open spec fn contents<T: Item>(nodes: Nodes<T>, trees: Seq<Tree<T>>) -> Seq<Piece<T>>
    decreases trees.len(),
{
    if trees.len() == 0 {
        Seq::empty()
    } else {
        contents(nodes, trees.drop_last()) + trees.last().content(nodes)
    }
}

/// What parts show, one after the other.
pub open spec fn shown_by<T: Item>(nodes: Nodes<T>, parts: Seq<Part<T>>) -> Seq<Piece<T>>
    decreases parts.len(),
{
    if parts.len() == 0 {
        Seq::empty()
    } else {
        shown_by(nodes, parts.drop_last()) + match parts.last() {
            Part::Whole(tree) => tree.content(nodes),
            Part::Items(items) => known(items),
        }
    }
}

/// Whether the first `k` parts are in memory, so that no read can fail while they are
/// joined to a tree that is in memory.
pub open spec fn parts_are_free<T: Item>(parts: Seq<Part<T>>, k: int) -> bool {
    &&& 0 <= k <= parts.len()
    &&& forall|j: int|
        #![trigger parts[j]]
        0 <= j < k ==> (parts[j] matches Part::Whole(tree) ==> tree.in_memory())
}

/// Whether the first `k` trees are in memory.
pub open spec fn trees_are_free<T: Item>(trees: Seq<Tree<T>>, k: int) -> bool {
    &&& 0 <= k <= trees.len()
    &&& forall|j: int| 0 <= j < k ==> (#[trigger] trees[j]).in_memory()
}

/// Trees that are made of parts show what the parts show, and are in memory if the parts
/// are.
pub proof fn lemma_made_of_shows<T: Item>(
    nodes: Nodes<T>,
    trees: Seq<Tree<T>>,
    parts: Seq<Part<T>>,
    k: int,
)
    requires
        made_of(nodes, trees, parts),
        0 <= k <= parts.len(),
    ensures
        contents(nodes, trees.take(k)) == shown_by(nodes, parts.take(k)),
        parts_are_free(parts, k) ==> trees_are_free(trees, k),
    decreases k,
{
    if k > 0 {
        lemma_made_of_shows(nodes, trees, parts, k - 1);
        assert(trees.take(k).drop_last() =~= trees.take(k - 1));
        assert(parts.take(k).drop_last() =~= parts.take(k - 1));
        assert(trees.take(k).last() == trees[k - 1]);
        if parts_are_free(parts, k) {
            assert(parts_are_free(parts, k - 1));
            assert(parts[k - 1] is Items ==> trees[k - 1].in_memory());
        }
    }
}

/// How trees are joined to another one, one by one, with these reads, and what comes of it.
pub open spec fn pushed_each<T: Item>(
    nodes: Nodes<T>,
    old_tree: Tree<T>,
    trees: Seq<Tree<T>>,
    tree: Tree<T>,
    ids: Reads,
) -> bool
    decreases trees.len(),
{
    if trees.len() == 0 {
        tree == old_tree && ids.len() == 0
    } else {
        exists|before: Tree<T>, m: int|
            {
                &&& 0 <= m <= ids.len()
                &&& !(#[trigger] before.dangling(nodes))
                &&& pushed_each(nodes, old_tree, trees.drop_last(), before, ids.take(m))
                &&& pushed(
                    nodes,
                    before,
                    trees.last(),
                    tree,
                    trees.last().at(nodes).height(),
                    #[trigger] ids.skip(m),
                )
            }
    }
}

/// What is left when a read fails while trees are joined to another one, after these reads,
/// of which the last one failed: the first trees are joined wholly, and the next one is
/// not.
pub open spec fn joins_cut_short<T: Item>(
    nodes: Nodes<T>,
    old_tree: Tree<T>,
    trees: Seq<Tree<T>>,
    tree: Tree<T>,
    ids: Reads,
) -> bool {
    exists|k: int, before: Tree<T>, m: int|
        {
            &&& 0 <= k < trees.len()
            &&& 0 <= m <= ids.len()
            &&& !(#[trigger] before.dangling(nodes))
            &&& before.content(nodes) == old_tree.content(nodes) + contents(
                nodes,
                #[trigger] trees.take(k),
            )
            &&& pushed_each(nodes, old_tree, trees.take(k), before, ids.take(m))
            &&& cut_short(
                nodes,
                before,
                trees[k],
                tree,
                trees[k].at(nodes).height(),
                #[trigger] ids.skip(m),
            )
        }
}

/// Whether a tree is what comes of joining these parts to another one with these reads.
pub open spec fn assembled<T: Item>(
    nodes: Nodes<T>,
    old_tree: Tree<T>,
    parts: Seq<Part<T>>,
    tree: Tree<T>,
    ids: Reads,
) -> bool {
    exists|trees: Seq<Tree<T>>| #[trigger]
        made_of(nodes, trees, parts) && pushed_each(nodes, old_tree, trees, tree, ids)
}

/// Whether a tree is what is left when a read fails while these parts are joined to another
/// one, after these reads, of which the last one failed.
pub open spec fn assembly_cut_short<T: Item>(
    nodes: Nodes<T>,
    old_tree: Tree<T>,
    parts: Seq<Part<T>>,
    tree: Tree<T>,
    ids: Reads,
) -> bool {
    exists|trees: Seq<Tree<T>>| #[trigger]
        made_of(nodes, trees, parts) && joins_cut_short(nodes, old_tree, trees, tree, ids)
}

/// What is made of parts and what is made of more parts is made of all of them.
pub proof fn lemma_made_of_concat<T: Item>(
    nodes: Nodes<T>,
    trees: Seq<Tree<T>>,
    parts: Seq<Part<T>>,
    more_trees: Seq<Tree<T>>,
    more_parts: Seq<Part<T>>,
)
    requires
        made_of(nodes, trees, parts),
        made_of(nodes, more_trees, more_parts),
    ensures
        made_of(nodes, trees + more_trees, parts + more_parts),
{
    let all = trees + more_trees;
    assert forall|i: int| #![trigger all[i]] 0 <= i < all.len() implies match (parts
        + more_parts)[i] {
        Part::Whole(tree) => all[i] == tree,
        Part::Items(items) => all[i] is Resident && all[i].at(nodes) == leaf_of(items),
    } by {
        if i < trees.len() {
            assert(all[i] == trees[i]);
        } else {
            assert(all[i] == more_trees[i - trees.len()]);
        }
    }
}

/// Trees are joined one by one.
pub proof fn lemma_pushed_each_next<T: Item>(
    nodes: Nodes<T>,
    old_tree: Tree<T>,
    trees: Seq<Tree<T>>,
    k: int,
    before: Tree<T>,
    tree: Tree<T>,
    ids: Reads,
    more: Reads,
)
    requires
        0 <= k < trees.len(),
        !before.dangling(nodes),
        pushed_each(nodes, old_tree, trees.take(k), before, ids),
        pushed(nodes, before, trees[k], tree, trees[k].at(nodes).height(), more),
    ensures
        pushed_each(nodes, old_tree, trees.take(k + 1), tree, ids + more),
{
    let m = ids.len() as int;
    assert(trees.take(k + 1).drop_last() =~= trees.take(k));
    assert((ids + more).take(m) =~= ids);
    assert((ids + more).skip(m) =~= more);
    assert(!before.dangling(nodes));
}

/// What is left when the tree at `k` cannot be joined.
pub proof fn lemma_joins_cut_short<T: Item>(
    nodes: Nodes<T>,
    old_tree: Tree<T>,
    trees: Seq<Tree<T>>,
    k: int,
    before: Tree<T>,
    tree: Tree<T>,
    ids: Reads,
    more: Reads,
)
    requires
        0 <= k < trees.len(),
        !before.dangling(nodes),
        before.content(nodes) == old_tree.content(nodes) + contents(nodes, trees.take(k)),
        pushed_each(nodes, old_tree, trees.take(k), before, ids),
        cut_short(nodes, before, trees[k], tree, trees[k].at(nodes).height(), more),
    ensures
        joins_cut_short(nodes, old_tree, trees, tree, ids + more),
{
    let m = ids.len() as int;
    assert((ids + more).take(m) =~= ids);
    assert((ids + more).skip(m) =~= more);
    assert(!before.dangling(nodes));
}

/// What a walk goes past that stays in a child.
proof fn lemma_parts_in_child<T: Item>(
    nodes: Nodes<T>,
    tree: Tree<T>,
    height: nat,
    from: int,
    to: int,
)
    requires
        goes_below(nodes, tree, height, from),
        goes_below(nodes, tree, height, to),
        child_at(nodes, tree.at(nodes), height, from) == child_at(
            nodes,
            tree.at(nodes),
            height,
            to,
        ),
    ensures
        ({
            let start = child_start(nodes, tree.at(nodes), height, from);
            parts_from(nodes, tree, height, from, to) == parts_from(
                nodes,
                child_with(nodes, tree, height, from),
                (height - 1) as nat,
                from - start,
                to - start,
            )
        }),
{
}

/// What a walk goes past that leaves a child.
proof fn lemma_parts_behind_child<T: Item>(
    nodes: Nodes<T>,
    tree: Tree<T>,
    height: nat,
    from: int,
    to: int,
    at: int,
    i: int,
)
    requires
        goes_below(nodes, tree, height, from),
        at == child_at(nodes, tree.at(nodes), height, from),
        at < i <= tree.at(nodes).len(),
        if i == tree.at(nodes).len() {
            to >= items_in(nodes, tree.at(nodes), height).len()
        } else {
            goes_below(nodes, tree, height, to) && i == child_at(
                nodes,
                tree.at(nodes),
                height,
                to,
            )
        },
        0 <= at,
    ensures
        ({
            let node = tree.at(nodes);
            let trees = node->child_trees;
            let below = (height - 1) as nat;
            let start = front_items(nodes, node, height, at).len();
            let len = front_items(nodes, node, height, at + 1).len() - start;
            let past = parts_from(nodes, trees[at], below, from - start, len) + wholes(
                trees.subrange(at + 1, i),
            );
            parts_from(nodes, tree, height, from, to) == if i == node.len() {
                past
            } else {
                past + parts_up_to(
                    nodes,
                    trees[i],
                    below,
                    to - front_items(nodes, node, height, i).len(),
                )
            }
        }),
{
    let trees = tree.at(nodes)->child_trees;
    if i == trees.len() {
        assert(trees.subrange(at + 1, i) =~= trees.skip(at + 1));
    }
}

impl<T: Item> Tree<T> {
    /// Joins trees, which show `run`, to the end of this one, one by one.
    #[verifier::rlimit(40)]
    pub(crate) fn push_gathered<S: NodeStore<T>>(
        &mut self,
        Ghost(run): Ghost<Seq<Piece<T>>>,
        Ghost(in_memory): Ghost<bool>,
        trees: &Trees<T>,
        db: &mut S,
    ) -> (result: Result<(), S::ReadError>)
        requires
            old(self).wf(old(db).nodes()),
            !old(self).dangling(old(db).nodes()),
            gathered(old(db).nodes(), trees@, in_memory),
            shows(old(db).nodes(), trees@, run),
            T::Summary::fits(total(old(self).content(old(db).nodes()) + run)),
            weight(old(self).content(old(db).nodes()) + run) < item_limit(),
        ensures
            only_read(*old(db), *final(db), result),
            has_read(*old(db), *final(db), ids_read(*old(db), *final(db))),
            trees@.len() == 0 ==> result is Ok && *final(self) == *old(self) && *final(db) == *old(
                db,
            ),
            *old(self) is Resident ==> *final(self) is Resident,
            result is Ok ==> {
                let nodes = old(db).nodes();
                &&& final(self).wf(nodes)
                &&& final(self).slim(nodes) ==> old(self).slim(nodes)
                &&& final(self).content(nodes) == old(self).content(nodes) + run
                &&& pushed_each(
                    nodes,
                    *old(self),
                    trees@,
                    *final(self),
                    ids_read(*old(db), *final(db)),
                )
            },
            result is Err ==> {
                let nodes = old(db).nodes();
                &&& ids_read(*old(db), *final(db)).len() > 0
                &&& final(self).shaped(nodes)
                &&& final(self).can_be_walked(nodes)
                &&& partly_grown(
                    old(self).content(nodes),
                    final(self).content(nodes),
                    old(self).content(nodes) + run,
                )
                &&& joins_cut_short(
                    nodes,
                    *old(self),
                    trees@,
                    *final(self),
                    ids_read(*old(db), *final(db)),
                )
            },
            result is Err && old(self).in_memory() ==> forall|k: int|
                #[trigger] trees_are_free(trees@, k) ==> (old(self).content(old(db).nodes())
                    + contents(old(db).nodes(), trees@.take(k))).is_prefix_of(
                    final(self).content(old(db).nodes()),
                ),
            old(self).in_memory() && in_memory ==> result is Ok && final(self).in_memory(),
    {
        let ghost nodes = db.nodes();
        let ghost old_tree = *self;
        let ghost held = self.content(nodes);
        let ghost all = held + run;
        let ghost start = *db;
        let ghost mut ids = Reads::empty();
        let ghost mut reached: int = 0;
        let mut i: usize = 0;
        proof {
            lemma_read_nothing(start);
            assert(trees@.take(0) =~= Seq::<Tree<T>>::empty());
            assert(held + run.take(0) =~= held);
        }
        while i < trees.as_slice().len()
            invariant
                i <= trees@.len(),
                db.nodes() == nodes,
                db.failures() == old(db).failures(),
                nodes == old(db).nodes(),
                start == *old(db),
                has_read(start, *db, ids),
                trees@.len() == 0 ==> *db == *old(db) && *self == *old(self),
                old_tree == *old(self),
                !old_tree.dangling(nodes),
                held == old_tree.content(nodes),
                all == held + run,
                gathered(nodes, trees@, in_memory),
                shows(nodes, trees@, run),
                T::Summary::fits(total(all)),
                weight(all) < item_limit(),
                0 <= reached <= run.len(),
                shows(nodes, trees@.take(i as int), run.take(reached)),
                contents(nodes, trees@.take(i as int)) == run.take(reached),
                forall|j: int| 0 <= j < i ==> !(#[trigger] trees@[j]).dangling(nodes),
                self.wf(nodes),
                !self.dangling(nodes),
                old_tree is Resident ==> *self is Resident,
                self.slim(nodes) ==> old_tree.slim(nodes),
                self.content(nodes) == held + run.take(reached),
                pushed_each(nodes, old_tree, trees@.take(i as int), *self, ids),
                old_tree.in_memory() && in_memory ==> self.in_memory(),
                old_tree.in_memory() ==> forall|k: int|
                    #[trigger] trees_are_free(trees@, k) && i <= k ==> self.in_memory(),
            decreases trees@.len() - i,
        {
            let tree = trees.as_slice()[i].clone();
            let ghost before = *self;
            let ghost between = *db;
            let ghost next: int = reached;
            proof {
                assert(tree == trees@[i as int]);
                lemma_gathered_next(nodes, trees@, run, held, i as int, reached);
                if !tree.dangling(nodes) {
                    next = reached + tree.content(nodes).len();
                }
            }
            let result = self.push_tree(tree, db);
            let ghost more = ids_read(between, *db);
            proof {
                assert(db.reads() =~= start.reads() + (ids + more));
            }
            match result {
                Ok(()) => {
                    proof {
                        lemma_pushed_each_next(
                            nodes,
                            old_tree,
                            trees@,
                            i as int,
                            before,
                            *self,
                            ids,
                            more,
                        );
                        ids = ids + more;
                        reached = next;
                        if old_tree.in_memory() {
                            assert forall|k: int| #[trigger] trees_are_free(trees@, k) && i + 1
                                <= k implies self.in_memory() by {
                                assert(trees@[i as int].in_memory());
                            }
                        }
                    }
                },
                Err(error) => {
                    proof {
                        lemma_ids_read(start, *db, ids + more);
                        lemma_joins_cut_short(
                            nodes,
                            old_tree,
                            trees@,
                            i as int,
                            before,
                            *self,
                            ids,
                            more,
                        );
                        if tree.dangling(nodes) {
                            assert(self.content(nodes) == before.content(nodes));
                        } else {
                            lemma_grows_on(
                                before.content(nodes),
                                self.content(nodes),
                                before.content(nodes) + tree.content(nodes),
                                all,
                            );
                        }
                        lemma_grows_on(held, before.content(nodes), self.content(nodes), all);
                        assert forall|k: int| #[trigger] trees_are_free(trees@, k)
                            && old_tree.in_memory() implies (held + contents(
                            nodes,
                            trees@.take(k),
                        )).is_prefix_of(self.content(nodes)) by {
                            if i < k {
                                assert(trees@[i as int].in_memory());
                            } else {
                                lemma_fewer_trees(nodes, held, trees@, k, i as int);
                                let few = held + contents(nodes, trees@.take(k));
                                assert(few =~= self.content(nodes).subrange(
                                    0,
                                    few.len() as int,
                                ));
                            }
                        }
                    }
                    return Err(error);
                },
            }
            i = i + 1;
        }
        proof {
            assert(trees@.take(i as int) =~= trees@);
            lemma_shows_is_unique(nodes, trees@, run.take(reached), run);
            lemma_ids_read(start, *db, ids);
        }
        Ok(())
    }
}

/// Fewer trees show the beginning of what more of them show.
proof fn lemma_fewer_trees<T: Item>(
    nodes: Nodes<T>,
    head: Seq<Piece<T>>,
    trees: Seq<Tree<T>>,
    few: int,
    many: int,
)
    requires
        0 <= few <= many <= trees.len(),
    ensures
        (head + contents(nodes, trees.take(few))).is_prefix_of(
            head + contents(nodes, trees.take(many)),
        ),
    decreases many - few,
{
    let less = head + contents(nodes, trees.take(few));
    if few < many {
        lemma_fewer_trees(nodes, head, trees, few, many - 1);
        assert(trees.take(many).drop_last() =~= trees.take(many - 1));
    }
    let more = head + contents(nodes, trees.take(many));
    assert(less =~= more.subrange(0, less.len() as int));
}

/// What comes next when trees are joined that show a run.
proof fn lemma_gathered_next<T: Item>(
    nodes: Nodes<T>,
    trees: Seq<Tree<T>>,
    run: Seq<Piece<T>>,
    held: Seq<Piece<T>>,
    i: int,
    reached: int,
)
    requires
        0 <= i < trees.len(),
        shows(nodes, trees, run),
        0 <= reached <= run.len(),
        shows(nodes, trees.take(i), run.take(reached)),
        contents(nodes, trees.take(i)) == run.take(reached),
        forall|j: int| 0 <= j < i ==> !(#[trigger] trees[j]).dangling(nodes),
        T::Summary::fits(total(held + run)),
        weight(held + run) < item_limit(),
    ensures
        partly_grown(held, held + run.take(reached), held + run),
        !trees[i].dangling(nodes) ==> {
            let next = reached + trees[i].content(nodes).len();
            let after = held + run.take(reached) + trees[i].content(nodes);
            &&& next <= run.len()
            &&& after == held + run.take(next)
            &&& after.is_prefix_of(held + run)
            &&& T::Summary::fits(total(after))
            &&& weight(after) < item_limit()
            &&& shows(nodes, trees.take(i + 1), run.take(next))
            &&& contents(nodes, trees.take(i + 1)) == run.take(next)
        },
{
    let all = held + run;
    let done = trees.take(i);
    let before = held + run.take(reached);
    let from = lemma_shows_part(nodes, trees, run, i);
    assert forall|j: int| 0 <= j < done.len() implies !(#[trigger] done[j]).dangling(nodes) by {
        assert(done[j] == trees[j]);
    }
    lemma_shows_is_unique(nodes, done, run.take(reached), run.take(from));
    assert(run.take(reached).len() == run.take(from).len());
    assert(before =~= all.subrange(0, before.len() as int));
    assert(held =~= before.subrange(0, held.len() as int));
    if !trees[i].dangling(nodes) {
        let next = reached + trees[i].content(nodes).len();
        let after = before + trees[i].content(nodes);
        assert(run.take(next) =~= run.take(reached) + trees[i].content(nodes));
        assert(after =~= held + run.take(next));
        assert(after =~= all.subrange(0, after.len() as int));
        assert(trees.take(i + 1).drop_last() =~= done);
        lemma_total_part_fits(all, 0, after.len() as int);
        lemma_weight_part(all, 0, after.len() as int);
    }
}

/// What a walk between two places at the end of a path goes past lies there.
pub proof fn lemma_parts_within<T: Item>(
    nodes: Nodes<T>,
    root: Tree<T>,
    height: nat,
    path: Path<T>,
    from: int,
    to: int,
)
    requires
        leads_down(nodes, root, height, path),
        path.len() > 0,
        from <= to,
        0 <= from - items_before(nodes, height, path).len(),
        to - items_before(nodes, height, path).len() < items_at_end(nodes, height, path).len(),
    ensures
        parts_from(nodes, root, height, from, to) == parts_from(
            nodes,
            path.last().0,
            end_height(height, path),
            from - items_before(nodes, height, path).len(),
            to - items_before(nodes, height, path).len(),
        ),
    decreases path.len(),
{
    if path.len() > 1 {
        let above = path.drop_last();
        lemma_path_child(nodes, root, height, path, from);
        lemma_path_child(nodes, root, height, path, to);
        let before = items_before(nodes, height, above).len() as int;
        let h = end_height(height, above);
        lemma_parts_in_child(nodes, above.last().0, h, from - before, to - before);
        lemma_parts_within(nodes, root, height, above, from, to);
    }
}

/// What a walk goes past that goes on behind the child that a path goes on to.
pub proof fn lemma_climb_parts<T: Item>(
    nodes: Nodes<T>,
    root: Tree<T>,
    height: nat,
    path: Path<T>,
    from: int,
    to: int,
    i: int,
)
    requires
        leads_down(nodes, root, height, path),
        path.len() > 0,
        path.last().0.at(nodes) is Internal,
        path.last().1 < i <= path.last().0.at(nodes).len(),
        0 <= from - items_up_to(nodes, height, path).len() < items_into(
            nodes,
            height,
            path,
        ).len(),
    ensures
        ({
            let (tree, at) = path.last();
            let node = tree.at(nodes);
            let h = end_height(height, path);
            let below = (h - 1) as nat;
            let before = items_before(nodes, height, path).len();
            let front = front_items(nodes, node, h, i).len();
            let trees = node->child_trees;
            let past = parts_from(
                nodes,
                trees[at as int],
                below,
                from - items_up_to(nodes, height, path).len(),
                items_into(nodes, height, path).len() as int,
            ) + wholes(trees.subrange(at + 1, i));
            &&& i == trees.len() ==> parts_from(
                nodes,
                tree,
                h,
                from - before,
                items_at_end(nodes, height, path).len() as int,
            ) == past
            &&& i < trees.len() && 0 <= to - before - front < items_of(
                nodes,
                trees[i],
                node->child_summaries[i],
                below,
            ).len() ==> parts_from(nodes, root, height, from, to) == past + parts_up_to(
                nodes,
                trees[i],
                below,
                to - before - front,
            )
        }),
{
    let (tree, at) = path.last();
    let node = tree.at(nodes);
    let h = end_height(height, path);
    let below = (h - 1) as nat;
    let before = items_before(nodes, height, path).len() as int;
    let trees = node->child_trees;
    lemma_child_at(nodes, node, h, from - before, at as int);
    if i == trees.len() {
        let len = items_at_end(nodes, height, path).len() as int;
        lemma_parts_behind_child(nodes, tree, h, from - before, len, at as int, i);
    } else if 0 <= to - before - front_items(nodes, node, h, i).len() < items_of(
        nodes,
        trees[i],
        node->child_summaries[i],
        below,
    ).len() {
        lemma_child_at(nodes, node, h, to - before, i);
        lemma_front_grows(nodes, node, h, at + 1, i);
        lemma_parts_behind_child(nodes, tree, h, from - before, to - before, at as int, i);
        lemma_parts_within(nodes, root, height, path, from, to);
    }
}

/// What a walk down into a child goes past.
pub proof fn lemma_parts_into<T: Item>(
    nodes: Nodes<T>,
    tree: Tree<T>,
    height: nat,
    to: int,
    i: int,
)
    requires
        !tree.dangling(nodes),
        tree.at(nodes) is Internal,
        height > 0,
        tree.at(nodes)->child_summaries.len() == tree.at(nodes).len(),
        0 <= i < tree.at(nodes).len(),
        0 <= to - front_items(nodes, tree.at(nodes), height, i).len() < items_of(
            nodes,
            tree.at(nodes)->child_trees[i],
            tree.at(nodes)->child_summaries[i],
            (height - 1) as nat,
        ).len(),
    ensures
        parts_up_to(nodes, tree, height, to) == wholes(tree.at(nodes)->child_trees.take(i))
            + parts_up_to(
            nodes,
            tree.at(nodes)->child_trees[i],
            (height - 1) as nat,
            to - front_items(nodes, tree.at(nodes), height, i).len(),
        ),
{
    lemma_child_at(nodes, tree.at(nodes), height, to, i);
}

/// How much is shown where the end of a path leads to.
pub open spec fn into_len<T: Item>(
    nodes: Nodes<T>,
    root: Tree<T>,
    height: nat,
    path: Path<T>,
) -> int {
    if path.len() == 0 {
        root.content(nodes).len() as int
    } else {
        items_into(nodes, height, path).len() as int
    }
}

/// Whether a place lies where the end of a path leads to.
pub open spec fn lies_into<T: Item>(
    nodes: Nodes<T>,
    root: Tree<T>,
    height: nat,
    path: Path<T>,
    index: int,
) -> bool {
    0 <= index - items_up_to(nodes, height, path).len() < into_len(nodes, root, height, path)
}

/// What a walk that has come up from `from` to the end of a path has read.
pub open spec fn climbed_ids<T: Item>(
    nodes: Nodes<T>,
    root: Tree<T>,
    height: nat,
    path: Path<T>,
    from: int,
) -> Reads {
    way_up_ids(
        nodes,
        into_tree(nodes, root, path),
        (height - path.len()) as nat,
        from - items_up_to(nodes, height, path).len(),
    )
}

/// What a walk that has come up from `from` to the end of a path has gone past.
pub open spec fn climbed_parts<T: Item>(
    nodes: Nodes<T>,
    root: Tree<T>,
    height: nat,
    path: Path<T>,
    from: int,
) -> Seq<Part<T>> {
    parts_from(
        nodes,
        into_tree(nodes, root, path),
        (height - path.len()) as nat,
        from - items_up_to(nodes, height, path).len(),
        into_len(nodes, root, height, path),
    )
}

/// What a walk has to read that goes down to `to` from where the end of a path leads to.
pub open spec fn ids_below<T: Item>(
    nodes: Nodes<T>,
    root: Tree<T>,
    height: nat,
    path: Path<T>,
    to: int,
) -> Reads {
    way_ids(
        nodes,
        into_tree(nodes, root, path),
        (height - path.len()) as nat,
        to - items_up_to(nodes, height, path).len(),
    )
}

/// What a walk has to go past that goes down to `to` from where the end of a path leads to.
pub open spec fn parts_below<T: Item>(
    nodes: Nodes<T>,
    root: Tree<T>,
    height: nat,
    path: Path<T>,
    to: int,
) -> Seq<Part<T>> {
    parts_up_to(
        nodes,
        into_tree(nodes, root, path),
        (height - path.len()) as nat,
        to - items_up_to(nodes, height, path).len(),
    )
}

/// The end of a path is where the path without its end leads to.
pub proof fn lemma_end_is_into<T: Item>(
    nodes: Nodes<T>,
    root: Tree<T>,
    height: nat,
    path: Path<T>,
)
    requires
        leads_down(nodes, root, height, path),
        path.len() > 0,
    ensures
        ({
            let above = path.drop_last();
            &&& into_tree(nodes, root, above) == path.last().0
            &&& items_up_to(nodes, height, above) == items_before(nodes, height, path)
            &&& into_len(nodes, root, height, above) == items_at_end(nodes, height, path).len()
            &&& height - above.len() == end_height(height, path)
        }),
{
    let above = path.drop_last();
    if path.len() > 1 {
        assert(above.last() == path[path.len() - 2]);
        assert(leads_down(nodes, root, height, above));
    } else {
        lemma_path_splits(nodes, root, height, path);
    }
}

/// What a walk that has left a leaf has read and gone past.
pub proof fn lemma_left_leaf<T: Item>(
    nodes: Nodes<T>,
    root: Tree<T>,
    height: nat,
    path: Path<T>,
    from: int,
)
    requires
        leads_down(nodes, root, height, path),
        path.len() > 0,
        path.last().0.at(nodes) is Leaf,
        0 <= from - items_before(nodes, height, path).len() < items_at_end(
            nodes,
            height,
            path,
        ).len(),
    ensures
        ({
            let above = path.drop_last();
            let leaf = path.last().0;
            let items = leaf.at(nodes)->items;
            let at = from - items_before(nodes, height, path).len();
            &&& lies_into(nodes, root, height, above, from)
            &&& climbed_ids(nodes, root, height, above, from) == id_of(leaf)
            &&& climbed_parts(nodes, root, height, above, from) == seq![
                Part::Items(items.subrange(at, items.len() as int)),
            ]
        }),
{
    lemma_end_is_into(nodes, root, height, path);
}

/// What a walk that has left a node has read and gone past.
pub proof fn lemma_left_node<T: Item>(
    nodes: Nodes<T>,
    root: Tree<T>,
    height: nat,
    path: Path<T>,
    from: int,
    to: int,
)
    requires
        leads_down(nodes, root, height, path),
        path.len() > 0,
        path.last().0.at(nodes) is Internal,
        points_at(nodes, path),
        lies_into(nodes, root, height, path, from),
        to - items_up_to(nodes, height, path).len() >= items_into(nodes, height, path).len(),
    ensures
        ({
            let above = path.drop_last();
            let (tree, at) = path.last();
            let read = climbed_ids(nodes, root, height, path, from) + id_of(tree);
            &&& lies_into(nodes, root, height, above, from)
            &&& climbed_ids(nodes, root, height, above, from) == read
            &&& climbed_parts(nodes, root, height, above, from) == climbed_parts(
                nodes,
                root,
                height,
                path,
                from,
            ) + wholes(tree.at(nodes)->child_trees.skip(at + 1))
            &&& read.is_prefix_of(walk_ids(nodes, root, height, from, to))
        }),
{
    let (tree, at) = path.last();
    let node = tree.at(nodes);
    let trees = node->child_trees;
    let h = end_height(height, path);
    lemma_end_is_into(nodes, root, height, path);
    lemma_climb_ids(nodes, root, height, path, from, to);
    lemma_climb_parts(nodes, root, height, path, from, to, trees.len() as int);
    assert(trees.subrange(at + 1, trees.len() as int) =~= trees.skip(at + 1));
    lemma_child_at(nodes, node, h, from - items_before(nodes, height, path).len(), at as int);
}

/// What a walk that turns down into a later child of a node has read and gone past, and
/// what is left to read and to go past.
pub proof fn lemma_turned_down<T: Item>(
    nodes: Nodes<T>,
    root: Tree<T>,
    height: nat,
    path: Path<T>,
    from: int,
    to: int,
    i: usize,
)
    requires
        leads_down(nodes, root, height, path),
        path.len() > 0,
        path.last().0.at(nodes) is Internal,
        path.last().1 < i < path.last().0.at(nodes).len(),
        lies_into(nodes, root, height, path, from),
        ({
            let moved = path.update(path.len() - 1, (path.last().0, i));
            lies_into(nodes, root, height, moved, to)
        }),
    ensures
        ({
            let (tree, at) = path.last();
            let moved = path.update(path.len() - 1, (tree, i));
            let trees = tree.at(nodes)->child_trees;
            &&& walk_ids(nodes, root, height, from, to) == climbed_ids(
                nodes,
                root,
                height,
                path,
                from,
            ) + id_of(tree) + ids_below(nodes, root, height, moved, to)
            &&& parts_from(nodes, root, height, from, to) == climbed_parts(
                nodes,
                root,
                height,
                path,
                from,
            ) + wholes(trees.subrange(at + 1, i as int)) + parts_below(
                nodes,
                root,
                height,
                moved,
                to,
            )
        }),
{
    let (tree, at) = path.last();
    let node = tree.at(nodes);
    let h = end_height(height, path);
    let moved = path.update(path.len() - 1, (tree, i));
    lemma_path_end_index(nodes, root, height, path, i);
    assert(sound_node(nodes, node, h, path.len() == 1, root.rigor(nodes)));
    lemma_front_grows(nodes, node, h, at as int, at as int);
    lemma_front_grows(nodes, node, h, at + 1, i as int);
    lemma_climb_ids(nodes, root, height, path, from, to);
    lemma_climb_parts(nodes, root, height, path, from, to, i as int);
    assert(into_tree(nodes, root, moved) == node->child_trees[i as int]);
}

/// What is left to read and to go past when a walk goes down from where a path leads to.
pub proof fn lemma_went_down<T: Item>(
    nodes: Nodes<T>,
    root: Tree<T>,
    height: nat,
    path: Path<T>,
    to: int,
    i: usize,
)
    requires
        path.len() < height,
        !into_tree(nodes, root, path).dangling(nodes),
        into_tree(nodes, root, path).at(nodes) is Internal,
        i < into_tree(nodes, root, path).at(nodes).len(),
        ({
            let tree = into_tree(nodes, root, path);
            let longer = path.push((tree, i));
            &&& tree.at(nodes)->child_summaries.len() == tree.at(nodes).len()
            &&& leads_down(nodes, root, height, longer)
            &&& lies_into(nodes, root, height, longer, to)
        }),
    ensures
        ({
            let tree = into_tree(nodes, root, path);
            let longer = path.push((tree, i));
            &&& ids_below(nodes, root, height, path, to) == id_of(tree) + ids_below(
                nodes,
                root,
                height,
                longer,
                to,
            )
            &&& parts_below(nodes, root, height, path, to) == wholes(
                tree.at(nodes)->child_trees.take(i as int),
            ) + parts_below(nodes, root, height, longer, to)
        }),
{
    let tree = into_tree(nodes, root, path);
    let longer = path.push((tree, i));
    let below = (height - path.len()) as nat;
    let at = to - items_up_to(nodes, height, path).len();
    assert(longer.drop_last() =~= path);
    lemma_end_is_into(nodes, root, height, longer);
    lemma_way_into(nodes, tree, below, at, i as int);
    lemma_parts_into(nodes, tree, below, at, i as int);
}

/// What a walk goes past last: all the children of the root, or some items of a leaf.
pub proof fn lemma_last_parts<T: Item>(
    nodes: Nodes<T>,
    tree: Tree<T>,
    height: nat,
    to: int,
    before: Seq<Tree<T>>,
    after: Seq<Tree<T>>,
)
    requires
        match tree.at(nodes) {
            NodeView::Internal { child_trees, .. } => {
                &&& !goes_below(nodes, tree, height, to)
                &&& after == before + child_trees
            },
            NodeView::Leaf { items, .. } => if to > 0 {
                &&& after == before.push(after.last())
                &&& after.last() is Resident
                &&& after.last().at(nodes) == leaf_of(items.take(to))
            } else {
                after == before
            },
        },
    ensures
        made_of(nodes, after.skip(before.len() as int), parts_up_to(nodes, tree, height, to)),
        after == before + after.skip(before.len() as int),
{
    let new = after.skip(before.len() as int);
    match tree.at(nodes) {
        NodeView::Internal { child_trees, .. } => {
            assert(new =~= child_trees);
        },
        NodeView::Leaf { .. } => {
            if to > 0 {
                assert(new =~= seq![after.last()]);
            } else {
                assert(new =~= Seq::<Tree<T>>::empty());
            }
        },
    }
    assert(after =~= before + new);
}

/// What is read first on the way down.
pub proof fn lemma_way_read<T: Item, S: NodeStore<T>>(
    before: S,
    between: S,
    after: S,
    ids: Reads,
    tree: Tree<T>,
    height: nat,
    index: int,
    all: Reads,
    result: Result<(), S::ReadError>,
)
    requires
        between.nodes() == before.nodes(),
        between.failures() == before.failures(),
        has_read(before, between, ids),
        read_in_order(between, after, id_of(tree), result),
        all == ids + way_ids(before.nodes(), tree, height, index),
    ensures
        result is Ok ==> has_read(before, after, ids + id_of(tree)),
        result is Err ==> read_in_order(before, after, all, result),
{
    let way = way_ids(before.nodes(), tree, height, index);
    lemma_read_on(before, between, after, ids, id_of(tree), result);
    if result is Err {
        assert(way =~= id_of(tree) + way.skip(id_of(tree).len() as int));
        assert(all =~= ids + id_of(tree) + way.skip(id_of(tree).len() as int));
        lemma_read_begun(
            before,
            after,
            ids + id_of(tree),
            way.skip(id_of(tree).len() as int),
            result,
        );
    }
}

/// Parts and more parts show what the ones show, then what the others show.
proof fn lemma_shown_by_concat<T: Item>(nodes: Nodes<T>, a: Seq<Part<T>>, b: Seq<Part<T>>)
    ensures
        shown_by(nodes, a + b) == shown_by(nodes, a) + shown_by(nodes, b),
    decreases b.len(),
{
    if b.len() == 0 {
        assert(a + b =~= a);
        assert(shown_by(nodes, a) + shown_by(nodes, b) =~= shown_by(nodes, a));
    } else {
        assert((a + b).drop_last() =~= a + b.drop_last());
        lemma_shown_by_concat(nodes, a, b.drop_last());
        assert(shown_by(nodes, a + b) =~= shown_by(nodes, a) + shown_by(nodes, b));
    }
}

/// A part of one leaf shows its items.
proof fn lemma_shown_by_items<T: Item>(nodes: Nodes<T>, items: Seq<T>)
    ensures
        shown_by(nodes, seq![Part::Items(items)]) == known(items),
{
    let parts = seq![Part::Items(items)];
    assert(parts.drop_last() =~= Seq::<Part<T>>::empty());
    assert(shown_by(nodes, parts.drop_last()).len() == 0);
    assert(parts.last() == Part::Items(items));
    assert(shown_by(nodes, parts) == shown_by(nodes, parts.drop_last()) + known(items));
    assert(shown_by(nodes, parts) =~= known(items));
}

/// Whether nothing is hidden between two places of a run.
pub open spec fn all_known<T: Item>(run: Seq<Piece<T>>, from: int, to: int) -> bool {
    forall|i: int| from <= i < to ==> (#[trigger] run[i]) is Item
}

/// Whole subtrees show what they show as children, if nothing is hidden there.
proof fn lemma_wholes_show<T: Item>(
    nodes: Nodes<T>,
    trees: Seq<Tree<T>>,
    summaries: Seq<SummaryValue<T>>,
    height: nat,
)
    requires
        sound_children(nodes, trees, summaries, height, Rigor::Linked),
        ({
            let shown = items_of_all(nodes, trees, summaries, height);
            all_known(shown, 0, shown.len() as int)
        }),
    ensures
        shown_by(nodes, wholes(trees)) == items_of_all(nodes, trees, summaries, height),
    decreases trees.len(),
{
    let shown = items_of_all(nodes, trees, summaries, height);
    if trees.len() == 0 {
        assert(shown_by(nodes, wholes(trees)) =~= shown);
    } else {
        let n = trees.len() - 1;
        let (fewer, fewer_summaries) = (trees.drop_last(), summaries.drop_last());
        let front = items_of_all(nodes, fewer, fewer_summaries, height);
        let last = items_of(nodes, trees[n], summaries[n], height);
        assert forall|i: int| #![trigger fewer[i]] 0 <= i < fewer.len() implies sound(
            nodes,
            fewer[i],
            height,
            false,
            Rigor::Linked,
        ) by {
            assert(fewer[i] == trees[i]);
        }
        assert forall|i: int| 0 <= i < front.len() implies (#[trigger] front[i]) is Item by {
            assert(shown[i] == front[i]);
        }
        lemma_wholes_show(nodes, fewer, fewer_summaries, height);
        assert(wholes(trees).drop_last() =~= wholes(fewer));
        assert(sound(nodes, trees[n], height, false, Rigor::Linked));
        if trees[n].dangling(nodes) {
            assert(shown[front.len() as int] == last[0]);
        }
    }
}

/// What a walk goes past on its way down shows what the tree shows in front of the place
/// that it comes to, if nothing is hidden there.
pub proof fn law_parts_up_to_show_front<T: Item>(
    nodes: Nodes<T>,
    tree: Tree<T>,
    height: nat,
    root: bool,
    to: int,
)
    requires
        !tree.dangling(nodes),
        sound_node(nodes, tree.at(nodes), height, root, Rigor::Linked),
        0 <= to <= items_in(nodes, tree.at(nodes), height).len(),
        all_known(items_in(nodes, tree.at(nodes), height), 0, to),
        to < items_in(nodes, tree.at(nodes), height).len() ==> items_in(
            nodes,
            tree.at(nodes),
            height,
        )[to] is Item,
    ensures
        shown_by(nodes, parts_up_to(nodes, tree, height, to)) == items_in(
            nodes,
            tree.at(nodes),
            height,
        ).take(to),
    decreases height,
{
    let node = tree.at(nodes);
    let shown = items_in(nodes, node, height);
    match node {
        NodeView::Leaf { items, .. } => {
            if to > 0 {
                lemma_shown_by_items(nodes, items.take(to));
                assert(known(items.take(to)) =~= known(items).take(to));
            } else {
                assert(shown.take(to) =~= Seq::<Piece<T>>::empty());
            }
        },
        NodeView::Internal { child_trees, child_summaries, .. } => {
            let below = (height - 1) as nat;
            if to < shown.len() {
                lemma_front_and_back(nodes, node, height, node.len() as int);
                lemma_child_exists(nodes, node, height, to, node.len() as int);
                let c = child_at(nodes, node, height, to);
                let (trees, summaries) = (child_trees.take(c), child_summaries.take(c));
                let front = front_items(nodes, node, height, c);
                let child = child_trees[c];
                let at = to - front.len();
                let part = items_of(nodes, child, child_summaries[c], below);
                lemma_front_grows(nodes, node, height, c, c);
                lemma_items_of_all_split(nodes, child_trees, child_summaries, c, below);
                assert(sound_children(nodes, trees, summaries, below, Rigor::Linked)) by {
                    assert forall|i: int| #![trigger trees[i]] 0 <= i < trees.len() implies sound(
                        nodes,
                        trees[i],
                        below,
                        false,
                        Rigor::Linked,
                    ) by {
                        assert(trees[i] == child_trees[i]);
                    }
                }
                assert forall|i: int| 0 <= i < front.len() implies (
                #[trigger] front[i]) is Item by {
                    assert(shown[i] == front[i]);
                }
                lemma_wholes_show(nodes, trees, summaries, below);
                assert(sound(nodes, child, below, false, Rigor::Linked));
                assert(part[at] == shown[to]);
                if child.dangling(nodes) {
                    assert(part.len() == 1);
                }
                assert forall|i: int| 0 <= i < at implies (#[trigger] part[i]) is Item by {
                    assert(shown[front.len() + i] == part[i]);
                }
                law_parts_up_to_show_front(nodes, child, below, false, at);
                lemma_shown_by_concat(
                    nodes,
                    wholes(trees),
                    parts_up_to(nodes, child, below, at),
                );
                assert(shown.take(to) =~= front + part.take(at));
            } else {
                lemma_wholes_show(nodes, child_trees, child_summaries, below);
                assert(shown.take(to) =~= shown);
            }
        },
    }
}

/// What a walk goes past on its way from one place to a later one shows what the tree shows
/// in between, if nothing is hidden there.
#[verifier::rlimit(40)]
pub proof fn law_parts_from_show_run<T: Item>(
    nodes: Nodes<T>,
    tree: Tree<T>,
    height: nat,
    root: bool,
    from: int,
    to: int,
)
    requires
        !tree.dangling(nodes),
        sound_node(nodes, tree.at(nodes), height, root, Rigor::Linked),
        0 <= from <= to <= items_in(nodes, tree.at(nodes), height).len(),
        from < items_in(nodes, tree.at(nodes), height).len(),
        all_known(items_in(nodes, tree.at(nodes), height), from, to),
        items_in(nodes, tree.at(nodes), height)[from] is Item,
        to < items_in(nodes, tree.at(nodes), height).len() ==> items_in(
            nodes,
            tree.at(nodes),
            height,
        )[to] is Item,
    ensures
        shown_by(nodes, parts_from(nodes, tree, height, from, to)) == items_in(
            nodes,
            tree.at(nodes),
            height,
        ).subrange(from, to),
    decreases height,
{
    let node = tree.at(nodes);
    let shown = items_in(nodes, node, height);
    match node {
        NodeView::Leaf { items, .. } => {
            lemma_shown_by_items(nodes, items.subrange(from, to));
            assert(known(items.subrange(from, to)) =~= known(items).subrange(from, to));
        },
        NodeView::Internal { child_trees, child_summaries, .. } => {
            let below = (height - 1) as nat;
            lemma_front_and_back(nodes, node, height, node.len() as int);
            lemma_child_exists(nodes, node, height, from, node.len() as int);
            let c = child_at(nodes, node, height, from);
            let start = front_items(nodes, node, height, c).len() as int;
            let child = child_trees[c];
            let part = items_of(nodes, child, child_summaries[c], below);
            lemma_front_grows(nodes, node, height, c, c);
            lemma_items_of_all_split(nodes, child_trees, child_summaries, c, below);
            assert forall|i: int| 0 <= i < part.len() implies #[trigger] part[i] == shown[start
                + i] by {
            }
            assert(sound(nodes, child, below, false, Rigor::Linked));
            assert(part[from - start] == shown[start + (from - start)]);
            if child.dangling(nodes) {
                assert(part.len() == 1);
            }
            let end = start + part.len();
            let stop = if to < end {
                to
            } else {
                end
            };
            assert forall|i: int| from - start <= i < stop - start implies (
            #[trigger] part[i]) is Item by {
            }
            if to < end {
                assert(part[to - start] == shown[start + (to - start)]);
                lemma_child_at(nodes, node, height, to, c);
                law_parts_from_show_run(nodes, child, below, false, from - start, to - start);
                assert(shown.subrange(from, to) =~= part.subrange(from - start, to - start));
            } else {
                law_parts_from_show_run(
                    nodes,
                    child,
                    below,
                    false,
                    from - start,
                    part.len() as int,
                );
                lemma_parts_behind_show(nodes, tree, height, root, c, to);
                let mine = parts_from(nodes, child, below, from - start, part.len() as int);
                assert(shown.subrange(from, to) =~= part.subrange(
                    from - start,
                    part.len() as int,
                ) + shown.subrange(end, to));
                if to >= shown.len() {
                    lemma_shown_by_concat(nodes, mine, wholes(child_trees.skip(c + 1)));
                } else {
                    lemma_child_exists(nodes, node, height, to, node.len() as int);
                    let d = child_at(nodes, node, height, to);
                    if d < c {
                        lemma_front_grows(nodes, node, height, d + 1, c);
                    }
                    assert(d != c);
                    let passed = wholes(child_trees.subrange(c + 1, d));
                    let last = parts_up_to(
                        nodes,
                        child_trees[d],
                        below,
                        to - front_items(nodes, node, height, d).len(),
                    );
                    lemma_shown_by_concat(nodes, mine + passed, last);
                    lemma_shown_by_concat(nodes, mine, passed);
                    lemma_shown_by_concat(nodes, passed, last);
                    assert(shown_by(nodes, mine) + shown_by(nodes, passed) + shown_by(
                        nodes,
                        last,
                    ) =~= shown_by(nodes, mine) + (shown_by(nodes, passed) + shown_by(
                        nodes,
                        last,
                    )));
                }
            }
        },
    }
}

/// What a walk goes past that goes on behind the child at `c` shows what the tree shows
/// behind that child.
proof fn lemma_parts_behind_show<T: Item>(
    nodes: Nodes<T>,
    tree: Tree<T>,
    height: nat,
    root: bool,
    c: int,
    to: int,
)
    requires
        !tree.dangling(nodes),
        tree.at(nodes) is Internal,
        sound_node(nodes, tree.at(nodes), height, root, Rigor::Linked),
        0 <= c < tree.at(nodes).len(),
        front_items(nodes, tree.at(nodes), height, c + 1).len() <= to <= items_in(
            nodes,
            tree.at(nodes),
            height,
        ).len(),
        all_known(
            items_in(nodes, tree.at(nodes), height),
            front_items(nodes, tree.at(nodes), height, c + 1).len() as int,
            to,
        ),
        to < items_in(nodes, tree.at(nodes), height).len() ==> items_in(
            nodes,
            tree.at(nodes),
            height,
        )[to] is Item,
    ensures
        ({
            let node = tree.at(nodes);
            let shown = items_in(nodes, node, height);
            let end = front_items(nodes, node, height, c + 1).len() as int;
            let below = (height - 1) as nat;
            let d = child_at(nodes, node, height, to);
            if to >= shown.len() {
                shown_by(nodes, wholes(node->child_trees.skip(c + 1))) == shown.subrange(end, to)
            } else {
                shown_by(
                    nodes,
                    wholes(node->child_trees.subrange(c + 1, d)) + parts_up_to(
                        nodes,
                        node->child_trees[d],
                        below,
                        to - front_items(nodes, node, height, d).len(),
                    ),
                ) == shown.subrange(end, to)
            }
        }),
{
    let node = tree.at(nodes);
    let shown = items_in(nodes, node, height);
    let below = (height - 1) as nat;
    let (all, all_summaries) = (node->child_trees, node->child_summaries);
    let end = front_items(nodes, node, height, c + 1).len() as int;
    lemma_front_and_back(nodes, node, height, node.len() as int);
    let d = if to >= shown.len() {
        all.len() as int
    } else {
        lemma_child_exists(nodes, node, height, to, node.len() as int);
        child_at(nodes, node, height, to)
    };
    if d < c + 1 {
        lemma_front_grows(nodes, node, height, d + 1, c + 1);
    }
    let (trees, summaries) = (all.subrange(c + 1, d), all_summaries.subrange(c + 1, d));
    let run = items_of_all(nodes, trees, summaries, below);
    let front = front_items(nodes, node, height, d);
    assert(all.take(d) =~= all.take(c + 1) + trees);
    assert(all_summaries.take(d) =~= all_summaries.take(c + 1) + summaries);
    lemma_items_of_all_concat(
        nodes,
        all.take(c + 1),
        all_summaries.take(c + 1),
        trees,
        summaries,
        below,
    );
    lemma_front_and_back(nodes, node, height, d);
    assert forall|i: int| 0 <= i < run.len() implies #[trigger] run[i] == shown[end + i] by {
        assert(front[end + i] == run[i]);
    }
    assert(sound_children(nodes, trees, summaries, below, Rigor::Linked)) by {
        assert forall|i: int| #![trigger trees[i]] 0 <= i < trees.len() implies sound(
            nodes,
            trees[i],
            below,
            false,
            Rigor::Linked,
        ) by {
            assert(trees[i] == all[c + 1 + i]);
        }
    }
    assert forall|i: int| 0 <= i < run.len() implies (#[trigger] run[i]) is Item by {
        assert(shown[end + i] is Item);
    }
    lemma_wholes_show(nodes, trees, summaries, below);
    if to >= shown.len() {
        assert(trees =~= all.skip(c + 1));
        assert(shown.subrange(end, to) =~= run);
    } else {
        let child = all[d];
        let part = items_of(nodes, child, all_summaries[d], below);
        let at = to - front.len();
        lemma_front_grows(nodes, node, height, d, d);
        lemma_items_of_all_split(nodes, all, all_summaries, d, below);
        assert forall|i: int| 0 <= i < part.len() implies #[trigger] part[i] == shown[front.len()
            + i] by {
        }
        assert(sound(nodes, child, below, false, Rigor::Linked));
        assert(part[at] == shown[front.len() + at]);
        if child.dangling(nodes) {
            assert(part.len() == 1);
        }
        assert forall|i: int| 0 <= i < at implies (#[trigger] part[i]) is Item by {
        }
        law_parts_up_to_show_front(nodes, child, below, false, at);
        lemma_shown_by_concat(nodes, wholes(trees), parts_up_to(nodes, child, below, at));
        assert(shown.subrange(end, to) =~= run + part.take(at));
    }
}

/// Parts of leaves, and whole subtrees that are in memory, are joined without a read.
pub proof fn law_parts_in_memory_are_free<T: Item>(parts: Seq<Part<T>>, k: int)
    requires
        0 <= k <= parts.len(),
        forall|j: int|
            0 <= j < k ==> match #[trigger] parts[j] {
                Part::Whole(tree) => tree.in_memory(),
                Part::Items(_) => true,
            },
    ensures
        parts_are_free(parts, k),
{
}

/// Children that are in memory are joined to a lower tree in memory without a read, and show
/// what they show one after the other.
pub proof fn law_children_in_memory_are_free<T: Item>(
    nodes: Nodes<T>,
    tree: Tree<T>,
    other: Tree<T>,
    k: int,
)
    requires
        tree.in_memory(),
        other is Resident,
        other.wf(nodes),
        other.at(nodes) is Internal,
        tree.at(nodes).height() < other.at(nodes).height(),
        0 <= k <= other.at(nodes)->child_trees.len(),
        forall|j: int| 0 <= j < k ==> (#[trigger] other.at(nodes)->child_trees[j]).in_memory(),
    ensures
        is_free_up_to(nodes, tree, other, k),
        first_children(nodes, other, k) == contents(
            nodes,
            other.at(nodes)->child_trees.take(k),
        ),
    decreases k,
{
    let (trees, summaries) = (other.at(nodes)->child_trees, other.at(nodes)->child_summaries);
    let below = (other.at(nodes).height() - 1) as nat;
    if k > 0 {
        law_children_in_memory_are_free(nodes, tree, other, k - 1);
        assert(trees.take(k).drop_last() =~= trees.take(k - 1));
        assert(summaries.take(k).drop_last() =~= summaries.take(k - 1));
        assert(trees[k - 1].in_memory());
        assert(sound(nodes, trees[k - 1], below, false, Rigor::Summed));
        assert(trees[k - 1].at(nodes).height() == below);
        assert(items_of(nodes, trees[k - 1], summaries[k - 1], below) == trees[k - 1].content(
            nodes,
        ));
        assert(trees.take(k).last() == trees[k - 1]);
        assert(summaries.take(k).last() == summaries[k - 1]);
        assert(items_of_all(nodes, trees.take(k), summaries.take(k), below) == items_of_all(
            nodes,
            trees.take(k - 1),
            summaries.take(k - 1),
            below,
        ) + trees[k - 1].content(nodes));
    } else {
        assert(first_children(nodes, other, k) =~= contents(nodes, trees.take(k)));
    }
}

} // verus!
