//! The nodes of a tree.

use crate::storage::{Inline, Trees};
use crate::summary::{values_of, Item, Summary, SummaryValue};
use crate::tree::Tree;
use vstd::prelude::*;

verus! {

/// The least number of children, or of items, of a node that is not a root.
pub const TREE_BASE: usize = 2;

/// The largest number of children, or of items, of a node.
pub const NODE_CAPACITY: usize = 2 * TREE_BASE;

/// A node of a tree: a list of subtrees with their summaries, or a list of items.
#[verifier::reject_recursive_types(T)]
pub enum Node<T: Item> {
    Internal {
        height: u8,
        summary: T::Summary,
        child_summaries: Inline<T::Summary, NODE_CAPACITY>,
        child_trees: Trees<T>,
    },
    Leaf { summary: T::Summary, items: Inline<T, NODE_CAPACITY> },
}

/// What a node holds.
#[verifier::reject_recursive_types(T)]
#[verifier::ext_equal]
pub enum NodeView<T: Item> {
    Internal {
        height: nat,
        summary: SummaryValue<T>,
        child_summaries: Seq<SummaryValue<T>>,
        child_trees: Seq<Tree<T>>,
    },
    Leaf { summary: SummaryValue<T>, items: Seq<T> },
}

impl<T: Item> NodeView<T> {
    pub open spec fn height(self) -> nat {
        match self {
            NodeView::Internal { height, .. } => height,
            NodeView::Leaf { .. } => 0,
        }
    }

    pub open spec fn summary(self) -> SummaryValue<T> {
        match self {
            NodeView::Internal { summary, .. } => summary,
            NodeView::Leaf { summary, .. } => summary,
        }
    }

    /// The number of children, or of items.
    pub open spec fn len(self) -> nat {
        match self {
            NodeView::Internal { child_trees, .. } => child_trees.len(),
            NodeView::Leaf { items, .. } => items.len(),
        }
    }
}

impl<T: Item> View for Node<T> {
    type V = NodeView<T>;

    open spec fn view(&self) -> NodeView<T> {
        match self {
            Node::Internal { height, summary, child_summaries, child_trees } => {
                NodeView::Internal {
                    height: *height as nat,
                    summary: summary@,
                    child_summaries: values_of(child_summaries@),
                    child_trees: child_trees@,
                }
            },
            Node::Leaf { summary, items } => NodeView::Leaf { summary: summary@, items: items@ },
        }
    }
}

impl<T: Item> Clone for Node<T> {
    fn clone(&self) -> (result: Self)
        ensures
            result@ == self@,
    {
        match self {
            Node::Internal { height, summary, child_summaries, child_trees } => {
                let new_summary = summary.clone();
                let new_child_summaries = child_summaries.clone();
                let new_child_trees = child_trees.clone();
                proof {
                    T::Summary::clone_keeps_value(*summary, new_summary);
                    assert forall|i: int| 0 <= i < child_summaries@.len() implies (
                    #[trigger] new_child_summaries@[i])@ == child_summaries@[i]@ by {
                        T::Summary::clone_keeps_value(
                            child_summaries@[i],
                            new_child_summaries@[i],
                        );
                    }
                    assert(values_of(new_child_summaries@) =~= values_of(child_summaries@));
                    assert(new_child_trees@ =~= child_trees@);
                }
                Node::Internal {
                    height: *height,
                    summary: new_summary,
                    child_summaries: new_child_summaries,
                    child_trees: new_child_trees,
                }
            },
            Node::Leaf { summary, items } => {
                let new_summary = summary.clone();
                let new_items = items.clone();
                proof {
                    T::Summary::clone_keeps_value(*summary, new_summary);
                    assert forall|i: int| 0 <= i < items@.len() implies #[trigger] new_items@[i]
                        == items@[i] by {
                        T::clone_is_equal(items@[i], new_items@[i]);
                    }
                    assert(new_items@ =~= items@);
                }
                Node::Leaf { summary: new_summary, items: new_items }
            },
        }
    }
}

impl<T: Item> Node<T> {
    pub(crate) fn height(&self) -> (result: u8)
        ensures
            result == self@.height(),
    {
        match self {
            Node::Internal { height, .. } => *height,
            Node::Leaf { .. } => 0,
        }
    }

    pub(crate) fn summary(&self) -> (result: &T::Summary)
        ensures
            result@ == self@.summary(),
    {
        match self {
            Node::Internal { summary, .. } => summary,
            Node::Leaf { summary, .. } => summary,
        }
    }

    /// The summaries of the children. Only an internal node has them.
    pub(crate) fn child_summaries(&self) -> (result: &Inline<T::Summary, NODE_CAPACITY>)
        requires
            self is Internal,
        ensures
            values_of(result@) == self@->child_summaries,
            *result == self->child_summaries,
    {
        match self {
            Node::Internal { child_summaries, .. } => child_summaries,
            Node::Leaf { .. } => vstd::pervasive::unreached(),
        }
    }

    /// The children. Only an internal node has them.
    pub(crate) fn child_trees(&self) -> (result: &Trees<T>)
        requires
            self is Internal,
        ensures
            result@ == self@->child_trees,
    {
        match self {
            Node::Internal { child_trees, .. } => child_trees,
            Node::Leaf { .. } => vstd::pervasive::unreached(),
        }
    }

    /// The items. Only a leaf has them.
    pub(crate) fn items(&self) -> (result: &Inline<T, NODE_CAPACITY>)
        requires
            self is Leaf,
        ensures
            result@ == self@->items,
    {
        match self {
            Node::Leaf { items, .. } => items,
            Node::Internal { .. } => vstd::pervasive::unreached(),
        }
    }

    /// The items, to be changed. Only a leaf has them.
    pub(crate) fn items_mut(&mut self) -> (result: &mut Inline<T, NODE_CAPACITY>)
        requires
            *old(self) is Leaf,
        ensures
            *result == (*old(self))->items,
            *final(self) == (Node::Leaf {
                summary: (*old(self))->Leaf_summary,
                items: *final(result),
            }),
    {
        match self {
            Node::Leaf { items, .. } => items,
            Node::Internal { .. } => vstd::pervasive::unreached(),
        }
    }

    /// The summary, to be changed.
    pub(crate) fn summary_mut(&mut self) -> (result: &mut T::Summary)
        ensures
            result@ == old(self)@.summary(),
            *final(self) == match *old(self) {
                Node::Internal { height, child_summaries, child_trees, .. } => Node::Internal {
                    height,
                    summary: *final(result),
                    child_summaries,
                    child_trees,
                },
                Node::Leaf { items, .. } => Node::Leaf { summary: *final(result), items },
            },
    {
        match self {
            Node::Internal { summary, .. } => summary,
            Node::Leaf { summary, .. } => summary,
        }
    }

    /// Whether the node has fewer children, or items, than one that is not a
    /// root may have.
    pub(crate) fn is_underflowing(&self) -> (result: bool)
        ensures
            result == (self@.len() < TREE_BASE),
    {
        match self {
            Node::Internal { child_trees, .. } => child_trees.as_slice().len() < TREE_BASE,
            Node::Leaf { items, .. } => items.as_slice().len() < TREE_BASE,
        }
    }
}

} // verus!
