//! What a tree shows from left to right: its items, and the subtrees that are out of
//! reach.

use crate::store::NodeId;
use crate::summary::{
    lemma_total_of_concat, lemma_total_of_one, lemma_total_of_part_fits, total_of, Item, Summary,
    SummaryValue,
};
use vstd::arithmetic::power2::pow2;
use vstd::prelude::*;

verus! {

/// An item, or a subtree whose root is in neither memory nor the store. Of such a
/// subtree the height and the summary are known from the node above it.
#[verifier::reject_recursive_types(T)]
pub enum Piece<T: Item> {
    Item(T),
    Hidden { id: NodeId, height: nat, summary: SummaryValue<T> },
}

impl<T: Item> Piece<T> {
    /// The value of the summary.
    pub open spec fn value(self) -> SummaryValue<T> {
        match self {
            Piece::Item(item) => item.summary_value(),
            Piece::Hidden { summary, .. } => summary,
        }
    }

    /// The least number of items that this can stand for.
    pub open spec fn weight(self) -> nat {
        match self {
            Piece::Item(_) => 1,
            Piece::Hidden { height, .. } => pow2(height + 1),
        }
    }
}

/// A run of items, none of them hidden.
pub open spec fn known<T: Item>(items: Seq<T>) -> Seq<Piece<T>> {
    items.map_values(|item: T| Piece::Item(item))
}

/// The values of the summaries of a run.
pub open spec fn piece_values<T: Item>(pieces: Seq<Piece<T>>) -> Seq<SummaryValue<T>> {
    pieces.map_values(|piece: Piece<T>| piece.value())
}

/// The value of the summary of a run.
pub open spec fn total<T: Item>(pieces: Seq<Piece<T>>) -> SummaryValue<T> {
    total_of::<T::Summary>(piece_values(pieces))
}

/// The least number of items that a run can stand for. Of a run of items it is their
/// number.
pub open spec fn weight<T: Item>(pieces: Seq<Piece<T>>) -> nat
    decreases pieces.len(),
{
    if pieces.len() == 0 {
        0
    } else {
        weight(pieces.drop_last()) + pieces.last().weight()
    }
}

/// The summary of two adjacent runs is the sum of their summaries.
pub proof fn lemma_total_concat<T: Item>(a: Seq<Piece<T>>, b: Seq<Piece<T>>)
    ensures
        total(a + b) == T::Summary::plus(total(a), total(b)),
{
    assert(piece_values(a + b) =~= piece_values(a) + piece_values(b));
    lemma_total_of_concat::<T::Summary>(piece_values(a), piece_values(b));
}

/// The summary of one piece.
pub proof fn lemma_total_one<T: Item>(piece: Piece<T>)
    ensures
        total(seq![piece]) == piece.value(),
{
    assert(piece_values(seq![piece]) =~= seq![piece.value()]);
    lemma_total_of_one::<T::Summary>(piece.value());
}

/// What can be held of a run can be held of each part of it.
pub proof fn lemma_total_part_fits<T: Item>(pieces: Seq<Piece<T>>, from: int, to: int)
    requires
        0 <= from <= to <= pieces.len(),
        T::Summary::fits(total(pieces)),
    ensures
        T::Summary::fits(total(pieces.subrange(from, to))),
{
    lemma_total_of_part_fits::<T::Summary>(piece_values(pieces), from, to);
    assert(piece_values(pieces.subrange(from, to)) =~= piece_values(pieces).subrange(from, to));
}

/// Two runs of items make one.
pub proof fn lemma_known_concat<T: Item>(a: Seq<T>, b: Seq<T>)
    ensures
        known(a + b) == known(a) + known(b),
{
    assert(known(a + b) =~= known(a) + known(b));
}

/// A part of a run of items is one.
pub proof fn lemma_known_part<T: Item>(items: Seq<T>, from: int, to: int)
    requires
        0 <= from <= to <= items.len(),
    ensures
        known(items.subrange(from, to)) == known(items).subrange(from, to),
{
    assert(known(items.subrange(from, to)) =~= known(items).subrange(from, to));
}

/// Runs of items that look the same are the same.
pub proof fn lemma_known_is_injective<T: Item>(a: Seq<T>, b: Seq<T>)
    requires
        known(a) == known(b),
    ensures
        a == b,
{
    assert(known(a).len() == a.len() && known(b).len() == b.len());
    assert forall|i: int| 0 <= i < a.len() implies a[i] == b[i] by {
        assert(known(a)[i] == Piece::Item(a[i]) && known(b)[i] == Piece::Item(b[i]));
    }
    assert(a =~= b);
}

/// The weight of two adjacent runs is the sum of their weights.
pub proof fn lemma_weight_concat<T: Item>(a: Seq<Piece<T>>, b: Seq<Piece<T>>)
    ensures
        weight(a + b) == weight(a) + weight(b),
    decreases b.len(),
{
    if b.len() == 0 {
        assert(a + b =~= a);
    } else {
        assert((a + b).drop_last() =~= a + b.drop_last());
        lemma_weight_concat(a, b.drop_last());
    }
}

/// A run of items weighs as much as there are.
pub proof fn lemma_weight_known<T: Item>(items: Seq<T>)
    ensures
        weight(known(items)) == items.len(),
    decreases items.len(),
{
    if items.len() > 0 {
        assert(known(items).drop_last() =~= known(items.drop_last()));
        lemma_weight_known(items.drop_last());
    }
}

/// A part of a run weighs no more than the run.
pub proof fn lemma_weight_part<T: Item>(pieces: Seq<Piece<T>>, from: int, to: int)
    requires
        0 <= from <= to <= pieces.len(),
    ensures
        weight(pieces.subrange(from, to)) <= weight(pieces),
{
    let head = pieces.subrange(0, from);
    let part = pieces.subrange(from, to);
    let tail = pieces.subrange(to, pieces.len() as int);
    assert(pieces =~= (head + part) + tail);
    lemma_weight_concat(head + part, tail);
    lemma_weight_concat(head, part);
}

} // verus!
