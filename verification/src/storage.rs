//! The storage that nodes and cursors are built from: `SmallVec`s, which keep a
//! few elements in place, and shared pointers.
//!
//! The functions here hand their arguments to `smallvec` or to `std` and are
//! not proved; their contracts are what the rest of the library rests on. The
//! `SmallVec`s themselves are out of the verifier's sight. Beside each of them
//! stands the ghost sequence of what it holds. The fields are private and every
//! function of this module that makes or changes a `SmallVec` says what becomes
//! of the sequence, so the two never part.
//!
//! As for `Vec`, running out of memory is not modelled.

use crate::node::NODE_CAPACITY;
use crate::summary::Item;
use crate::tree::Tree;
use smallvec::SmallVec;
use std::sync::Arc;
use vstd::prelude::*;

verus! {

#[verifier::external_body]
#[verifier::reject_recursive_types(X)]
struct RawInline<X, const N: usize>(SmallVec<[X; N]>);

/// A sequence of which up to `N` elements are kept in place.
#[verifier::reject_recursive_types(X)]
pub struct Inline<X, const N: usize> {
    raw: RawInline<X, N>,
    elements: Ghost<Seq<X>>,
}

impl<X, const N: usize> View for Inline<X, N> {
    type V = Seq<X>;

    closed spec fn view(&self) -> Seq<X> {
        self.elements@
    }
}

impl<X, const N: usize> Inline<X, N> {
    /// `SmallVec::new`: it holds nothing.
    #[verifier::external_body]
    pub(crate) fn new() -> (result: Self)
        ensures
            result@ == Seq::<X>::empty(),
    {
        Inline { raw: RawInline(SmallVec::new()), elements: Ghost(Seq::empty()) }
    }

    /// `SmallVec::from_vec`: it holds what the vector held, in the same order.
    #[verifier::external_body]
    pub(crate) fn from_vec(elements: Vec<X>) -> (result: Self)
        ensures
            result@ == elements@,
    {
        Inline { raw: RawInline(SmallVec::from_vec(elements)), elements: Ghost(elements@) }
    }

    /// `SmallVec::push`: the element is added behind the others.
    #[verifier::external_body]
    pub(crate) fn push(&mut self, element: X)
        ensures
            final(self)@ == old(self)@.push(element),
    {
        self.raw.0.push(element);
    }

    /// `SmallVec::pop`: the last element is removed and returned, if there is one.
    #[verifier::external_body]
    pub(crate) fn pop(&mut self) -> (result: Option<X>)
        ensures
            old(self)@.len() == 0 ==> result is None && final(self)@ == old(self)@,
            old(self)@.len() > 0 ==> result == Some(old(self)@.last()) && final(self)@ == old(
                self,
            )@.drop_last(),
    {
        self.raw.0.pop()
    }

    /// `SmallVec::truncate`: the elements behind the first `len` are dropped.
    #[verifier::external_body]
    pub(crate) fn truncate(&mut self, len: usize)
        ensures
            final(self)@ == if len < old(self)@.len() {
                old(self)@.take(len as int)
            } else {
                old(self)@
            },
    {
        self.raw.0.truncate(len);
    }

    /// `SmallVec::extend`: the elements of `other` are added behind the others,
    /// in the order that they have there.
    #[verifier::external_body]
    pub(crate) fn extend(&mut self, other: Self)
        ensures
            final(self)@ == old(self)@ + other@,
    {
        self.raw.0.extend(other.raw.0);
    }

    /// `SmallVec::as_slice`: the elements as a slice.
    #[verifier::external_body]
    pub(crate) fn as_slice(&self) -> (result: &[X])
        ensures
            result@ == self@,
    {
        self.raw.0.as_slice()
    }

    /// `SmallVec::as_mut_slice`: the elements as a slice; what is written to the
    /// slice is then what is held.
    #[verifier::external_body]
    pub(crate) fn as_mut_slice(&mut self) -> (result: &mut [X])
        ensures
            result@ == old(self)@,
            final(result)@.len() == result@.len(),
            final(self)@ == final(result)@,
    {
        self.raw.0.as_mut_slice()
    }
}

impl<X: Clone, const N: usize> Clone for Inline<X, N> {
    /// `SmallVec::clone`: each element is cloned into the same place.
    #[verifier::external_body]
    fn clone(&self) -> (result: Self)
        ensures
            result@.len() == self@.len(),
            forall|i: int|
                0 <= i < self@.len() ==> cloned::<X>(self@[i], #[trigger] result@[i]),
    {
        Inline { raw: RawInline(self.raw.0.clone()), elements: Ghost(self@) }
    }
}

#[verifier::external_body]
#[verifier::reject_recursive_types(T)]
struct RawTrees<T: Item>(SmallVec<[Tree<T>; NODE_CAPACITY]>);

/// A sequence of trees of which as many as a node can have are kept in place.
///
/// It stands beside [`Inline`] because a node holds trees, which hold nodes: a type
/// that contains itself through a type parameter is refused by the verifier.
#[verifier::reject_recursive_types(T)]
pub struct Trees<T: Item> {
    raw: RawTrees<T>,
    elements: Ghost<Seq<Tree<T>>>,
}

impl<T: Item> View for Trees<T> {
    type V = Seq<Tree<T>>;

    closed spec fn view(&self) -> Seq<Tree<T>> {
        self.elements@
    }
}

impl<T: Item> Trees<T> {
    /// `SmallVec::new`: it holds nothing.
    #[verifier::external_body]
    pub(crate) fn new() -> (result: Self)
        ensures
            result@ == Seq::<Tree<T>>::empty(),
    {
        Trees { raw: RawTrees(SmallVec::new()), elements: Ghost(Seq::empty()) }
    }

    /// `SmallVec::from_vec`: it holds what the vector held, in the same order.
    #[verifier::external_body]
    pub(crate) fn from_vec(trees: Vec<Tree<T>>) -> (result: Self)
        ensures
            result@ == trees@,
    {
        Trees { raw: RawTrees(SmallVec::from_vec(trees)), elements: Ghost(trees@) }
    }

    /// `SmallVec::push`: the tree is added behind the others.
    #[verifier::external_body]
    pub(crate) fn push(&mut self, tree: Tree<T>)
        ensures
            final(self)@ == old(self)@.push(tree),
    {
        self.raw.0.push(tree);
    }

    /// `SmallVec::extend`: the trees of `other` are added behind the others, in
    /// the order that they have there.
    #[verifier::external_body]
    pub(crate) fn extend(&mut self, other: Self)
        ensures
            final(self)@ == old(self)@ + other@,
    {
        self.raw.0.extend(other.raw.0);
    }

    /// `SmallVec::as_slice`: the trees as a slice.
    #[verifier::external_body]
    pub(crate) fn as_slice(&self) -> (result: &[Tree<T>])
        ensures
            result@ == self@,
    {
        self.raw.0.as_slice()
    }

    /// `SmallVec::as_mut_slice`: the trees as a slice; what is written to the
    /// slice is then what is held.
    #[verifier::external_body]
    pub(crate) fn as_mut_slice(&mut self) -> (result: &mut [Tree<T>])
        ensures
            result@ == old(self)@,
            final(result)@.len() == result@.len(),
            final(self)@ == final(result)@,
    {
        self.raw.0.as_mut_slice()
    }
}

impl<T: Item> Clone for Trees<T> {
    /// `SmallVec::clone`: each tree is cloned into the same place.
    #[verifier::external_body]
    fn clone(&self) -> (result: Self)
        ensures
            result@.len() == self@.len(),
            forall|i: int|
                0 <= i < self@.len() ==> cloned::<Tree<T>>(self@[i], #[trigger] result@[i]),
    {
        Trees { raw: RawTrees(self.raw.0.clone()), elements: Ghost(self@) }
    }
}

/// `Arc::make_mut`: a reference to the value that the pointer points to, or to
/// a clone of it that the pointer points to from then on.
#[verifier::external_body]
pub(crate) fn make_mut<X: Clone>(pointer: &mut Arc<X>) -> (result: &mut X)
    ensures
        *result == **old(pointer) || cloned::<X>(**old(pointer), *result),
        **final(pointer) == *final(result),
{
    Arc::make_mut(pointer)
}

} // verus!
