//! Where the nodes that are not in memory come from.

use crate::node::Node;
use crate::summary::Item;
use std::fmt;
use std::marker::PhantomData;
use vstd::prelude::*;

verus! {

/// The name of a node in a store.
pub type NodeId = usize;

/// The nodes that a store holds, by name.
pub type Nodes<T> = Map<NodeId, Node<T>>;

/// The errors of failed reads, in the order in which they came.
pub type Failures<E> = Seq<E>;

/// The names of nodes that were asked for, in the order in which they were.
pub type Reads = Seq<NodeId>;

/// A place from which nodes can be read.
pub trait NodeStore<T: Item> {
    type ReadError: fmt::Debug;

    /// The nodes that the store holds. Reading does not change them.
    spec fn nodes(&self) -> Nodes<T>;

    /// The errors of all the reads that have failed so far.
    spec fn failures(&self) -> Failures<Self::ReadError>;

    /// The names of the nodes of all the reads so far, failed ones among them.
    spec fn reads(&self) -> Reads;

    /// Reads a node. Whether that succeeds is up to the store, but only a node
    /// that it holds can be read.
    fn get(&mut self, id: NodeId) -> (result: Result<&Node<T>, Self::ReadError>)
        ensures
            final(self).nodes() == old(self).nodes(),
            final(self).failures() == match result {
                Ok(_) => old(self).failures(),
                Err(error) => old(self).failures().push(error),
            },
            final(self).reads() == old(self).reads().push(id),
            result matches Ok(node) ==> old(self).nodes().contains_key(id) && *node == old(
                self,
            ).nodes()[id],
    ;
}

/// Whether a store has only been read from in between. No read has failed, or only
/// the last one has, and then its error is the result.
pub open spec fn only_read<T: Item, S: NodeStore<T>, X>(
    before: S,
    after: S,
    result: Result<X, S::ReadError>,
) -> bool {
    &&& after.nodes() == before.nodes()
    &&& after.failures() == match result {
        Ok(_) => before.failures(),
        Err(error) => before.failures().push(error),
    }
}

/// Whether a store has only been read from in between, and the last node twice: both those
/// reads may have failed, and if the last one has, its error is the result.
pub open spec fn read_again<T: Item, S: NodeStore<T>, X>(
    before: S,
    after: S,
    result: Result<X, S::ReadError>,
) -> bool {
    &&& after.nodes() == before.nodes()
    &&& match result {
        Ok(_) => at_most_one_more(before.failures(), after.failures()),
        Err(error) => {
            &&& after.failures().len() > 0
            &&& after.failures().last() == error
            &&& at_most_one_more(before.failures(), after.failures().drop_last())
        },
    }
}

/// Whether no failure has been added, or one.
pub open spec fn at_most_one_more<E>(before: Failures<E>, after: Failures<E>) -> bool {
    after == before || after.len() > 0 && after.drop_last() == before
}

/// Whether a store has been asked for these nodes in between, and for no others.
pub open spec fn has_read<T: Item, S: NodeStore<T>>(before: S, after: S, ids: Reads) -> bool {
    after.reads() == before.reads() + ids
}

/// The nodes that a store has been asked for in between.
pub open spec fn ids_read<T: Item, S: NodeStore<T>>(before: S, after: S) -> Reads {
    after.reads().skip(before.reads().len() as int)
}

/// Whether a store has been asked for these nodes in between, in this order, up to the
/// first that could not be read.
pub open spec fn read_in_order<T: Item, S: NodeStore<T>, X>(
    before: S,
    after: S,
    ids: Reads,
    result: Result<X, S::ReadError>,
) -> bool {
    &&& only_read(before, after, result)
    &&& match result {
        Ok(_) => has_read(before, after, ids),
        Err(_) => {
            &&& has_read(before, after, ids_read(before, after))
            &&& ids_read(before, after).is_prefix_of(ids)
            &&& ids_read(before, after).len() > 0
        },
    }
}

/// What was read is what has been added to the record.
pub proof fn lemma_ids_read<T: Item, S: NodeStore<T>>(before: S, after: S, ids: Reads)
    requires
        has_read(before, after, ids),
    ensures
        ids_read(before, after) == ids,
{
    assert(ids_read(before, after) =~= ids);
}

/// What is read after some nodes comes behind them.
pub proof fn lemma_read_on<T: Item, S: NodeStore<T>, X>(
    before: S,
    between: S,
    after: S,
    ids: Reads,
    more: Reads,
    result: Result<X, S::ReadError>,
)
    requires
        between.nodes() == before.nodes(),
        between.failures() == before.failures(),
        has_read(before, between, ids),
        read_in_order(between, after, more, result),
    ensures
        read_in_order(before, after, ids + more, result),
        ids_read(before, after) == ids + ids_read(between, after),
{
    let read = ids_read(between, after);
    if result is Ok {
        lemma_ids_read(between, after, more);
    }
    assert(after.reads() =~= before.reads() + (ids + read));
    lemma_ids_read(before, after, ids + read);
    if result is Err {
        assert((ids + read) =~= (ids + more).subrange(0, (ids + read).len() as int));
    }
}

/// What was read before a read failed is the beginning of what would have been read.
pub proof fn lemma_read_begun<T: Item, S: NodeStore<T>, X>(
    before: S,
    after: S,
    ids: Reads,
    more: Reads,
    result: Result<X, S::ReadError>,
)
    requires
        result is Err,
        read_in_order(before, after, ids, result),
    ensures
        read_in_order(before, after, ids + more, result),
{
    let read = ids_read(before, after);
    assert(read =~= (ids + more).subrange(0, read.len() as int));
}

/// What was read before a read failed is the beginning of all that begins with it.
pub proof fn lemma_read_within<T: Item, S: NodeStore<T>, X>(
    before: S,
    after: S,
    ids: Reads,
    all: Reads,
    result: Result<X, S::ReadError>,
)
    requires
        result is Err,
        read_in_order(before, after, ids, result),
        ids.is_prefix_of(all),
    ensures
        read_in_order(before, after, all, result),
{
    let rest = all.skip(ids.len() as int);
    assert(all =~= ids + rest);
    lemma_read_begun(before, after, ids, rest, result);
}

/// Reading nothing leaves the record as it is.
pub proof fn lemma_read_nothing<T: Item, S: NodeStore<T>>(store: S)
    ensures
        has_read(store, store, Seq::empty()),
        ids_read(store, store) == Reads::empty(),
{
    assert(store.reads() =~= store.reads() + Reads::empty());
    lemma_ids_read(store, store, Reads::empty());
}

/// The error of a store that holds nothing.
#[derive(Debug)]
pub struct NullNodeStoreReadError;

/// A store that holds nothing.
#[verifier::reject_recursive_types(T)]
pub struct NullNodeStore<T: Item> {
    items: PhantomData<T>,
    failures: Ghost<Failures<NullNodeStoreReadError>>,
    reads: Ghost<Reads>,
}

impl<T: Item> NullNodeStore<T> {
    pub fn new() -> (result: Self)
        ensures
            result.nodes() == Nodes::<T>::empty(),
            result.failures() == Failures::<NullNodeStoreReadError>::empty(),
            result.reads() == Reads::empty(),
    {
        NullNodeStore {
            items: PhantomData,
            failures: Ghost(Seq::empty()),
            reads: Ghost(Seq::empty()),
        }
    }
}

impl<T: Item> NodeStore<T> for NullNodeStore<T> {
    type ReadError = NullNodeStoreReadError;

    open spec fn nodes(&self) -> Nodes<T> {
        Map::empty()
    }

    closed spec fn failures(&self) -> Failures<NullNodeStoreReadError> {
        self.failures@
    }

    closed spec fn reads(&self) -> Reads {
        self.reads@
    }

    fn get(&mut self, id: NodeId) -> (result: Result<&Node<T>, Self::ReadError>)
        ensures
            result is Err,
    {
        let error = NullNodeStoreReadError;
        self.failures = Ghost(self.failures@.push(error));
        self.reads = Ghost(self.reads@.push(id));
        Err(error)
    }
}

} // verus!
