//! Bytes as items: how many there are, and what they add up to.

use crate::laws::law_root_summarizes_all_items;
use crate::piece::{known, lemma_known_part, lemma_total_concat, lemma_total_one, total, Piece};
use crate::seek::{stop_from, SeekBias};
use crate::store::Nodes;
use crate::summary::{sum, total_of, Dimension, Item, Summary};
use crate::tree::Tree;
use std::ops::Add;
use vstd::prelude::*;

verus! {

/// The number and the sum of a run of bytes.
#[derive(Debug)]
pub struct IntegersSummary {
    pub count: usize,
    pub sum: usize,
}

/// A number of bytes.
#[derive(Ord, Eq, Debug)]
pub struct Count(pub usize);

impl View for IntegersSummary {
    type V = (nat, nat);

    open spec fn view(&self) -> (nat, nat) {
        (self.count as nat, self.sum as nat)
    }
}

impl Default for IntegersSummary {
    fn default() -> (result: Self)
        ensures
            result.count == 0,
            result.sum == 0,
    {
        IntegersSummary { count: 0, sum: 0 }
    }
}

impl Clone for IntegersSummary {
    fn clone(&self) -> (result: Self)
        ensures
            result == *self,
    {
        IntegersSummary { count: self.count, sum: self.sum }
    }
}

impl Summary for IntegersSummary {
    open spec fn zero() -> (nat, nat) {
        (0, 0)
    }

    open spec fn plus(a: (nat, nat), b: (nat, nat)) -> (nat, nat) {
        (a.0 + b.0, a.1 + b.1)
    }

    open spec fn fits(value: (nat, nat)) -> bool {
        value.0 <= usize::MAX && value.1 <= usize::MAX
    }

    proof fn zero_is_neutral(a: (nat, nat)) {
    }

    proof fn plus_is_associative(a: (nat, nat), b: (nat, nat), c: (nat, nat)) {
    }

    proof fn parts_fit(a: (nat, nat), b: (nat, nat)) {
    }

    proof fn value_fits(s: Self) {
    }

    proof fn default_is_zero(s: Self) {
    }

    proof fn clone_keeps_value(a: Self, b: Self) {
    }

    fn add_assign(&mut self, other: &Self)
        ensures
            final(self).count == old(self).count + other.count,
            final(self).sum == old(self).sum + other.sum,
    {
        self.count = self.count + other.count;
        self.sum = self.sum + other.sum;
    }
}

impl Item for u8 {
    type Summary = IntegersSummary;

    open spec fn summary_value(&self) -> (nat, nat) {
        (1, *self as nat)
    }

    proof fn clone_is_equal(a: Self, b: Self) {
    }

    fn summarize(&self) -> (summary: IntegersSummary)
        ensures
            summary.count == 1,
            summary.sum == *self,
    {
        IntegersSummary { count: 1, sum: *self as usize }
    }
}

impl View for Count {
    type V = nat;

    open spec fn view(&self) -> nat {
        self.0 as nat
    }
}

impl Clone for Count {
    fn clone(&self) -> (result: Self)
        ensures
            result == *self,
    {
        Count(self.0)
    }
}

impl PartialEq for Count {
    fn eq(&self, other: &Self) -> (result: bool) {
        self.0 == other.0
    }
}

impl vstd::std_specs::cmp::PartialEqSpecImpl for Count {
    open spec fn obeys_eq_spec() -> bool {
        true
    }

    open spec fn eq_spec(&self, other: &Self) -> bool {
        self.0 == other.0
    }
}

impl PartialOrd for Count {
    fn partial_cmp(&self, other: &Self) -> (result: Option<std::cmp::Ordering>) {
        if self.0 < other.0 {
            Some(std::cmp::Ordering::Less)
        } else if self.0 == other.0 {
            Some(std::cmp::Ordering::Equal)
        } else {
            Some(std::cmp::Ordering::Greater)
        }
    }
}

impl vstd::std_specs::cmp::PartialOrdSpecImpl for Count {
    open spec fn obeys_partial_cmp_spec() -> bool {
        true
    }

    open spec fn partial_cmp_spec(&self, other: &Self) -> Option<std::cmp::Ordering> {
        if self.0 < other.0 {
            Some(std::cmp::Ordering::Less)
        } else if self.0 == other.0 {
            Some(std::cmp::Ordering::Equal)
        } else {
            Some(std::cmp::Ordering::Greater)
        }
    }
}

impl<'a> Add<&'a Count> for Count {
    type Output = Count;

    fn add(self, other: &'a Count) -> (result: Count) {
        Count(self.0 + other.0)
    }
}

impl<'a> vstd::std_specs::ops::AddSpecImpl<&'a Count> for Count {
    open spec fn obeys_add_spec() -> bool {
        true
    }

    open spec fn add_req(self, other: &'a Count) -> bool {
        self.0 + other.0 <= usize::MAX
    }

    open spec fn add_spec(self, other: &'a Count) -> Count {
        Count((self.0 + other.0) as usize)
    }
}

impl Dimension for Count {
    type Summary = IntegersSummary;

    open spec fn measure(summary: (nat, nat)) -> nat {
        summary.0
    }

    open spec fn before(a: nat, b: nat) -> bool {
        a < b
    }

    proof fn measure_is_additive(x: Self, y: Self, a: (nat, nat), b: (nat, nat)) {
    }

    proof fn measure_is_monotone(a: (nat, nat), b: (nat, nat)) {
    }

    proof fn before_is_total_order(a: nat, b: nat, c: nat) {
    }

    proof fn gt_is_before(a: &Self, b: &Self, result: bool) {
    }

    proof fn eq_is_equality(a: &Self, b: &Self, result: bool) {
    }

    fn from_summary(summary: &IntegersSummary) -> (dimension: Self)
        ensures
            dimension.0 == summary.count,
    {
        let dimension = Count(summary.count);
        assert(dimension@ == summary@.0);
        dimension
    }
}

/// A run of bytes counts as many as there are.
pub proof fn lemma_count_is_len(bytes: Seq<u8>)
    ensures
        total(known(bytes)).0 == bytes.len(),
    decreases bytes.len(),
{
    if bytes.len() > 0 {
        let last = seq![Piece::Item(bytes.last())];
        lemma_count_is_len(bytes.drop_last());
        assert(known(bytes) =~= known(bytes.drop_last()) + last);
        lemma_total_concat(known(bytes.drop_last()), last);
        lemma_total_one(Piece::Item(bytes.last()));
    }
}

/// The summary of one byte counts one, and has the byte as its sum.
pub proof fn law_byte_is_its_sum(byte: u8)
    ensures
        byte.summary_value().0 == 1,
        byte.summary_value().1 == byte,
        total(known(seq![byte])).0 == 1,
        total(known(seq![byte])).1 == byte,
{
    assert(known(seq![byte]) =~= seq![Piece::Item(byte)]);
    lemma_total_one(Piece::Item(byte));
}

/// Two summaries added up count as many as both, and have the sum of both. No bytes count
/// nothing and add up to nothing.
pub proof fn law_counts_and_sums_add_up(a: IntegersSummary, b: IntegersSummary)
    ensures
        ({
            let both = IntegersSummary::plus(a@, b@);
            &&& both.0 == a.count + b.count
            &&& both.1 == a.sum + b.sum
            &&& IntegersSummary::fits(both) <==> a.count + b.count <= usize::MAX && a.sum + b.sum
                <= usize::MAX
        }),
        IntegersSummary::zero().0 == 0,
        IntegersSummary::zero().1 == 0,
{
}

/// The values that summaries of bytes stand for are added up number by number, and each
/// pair of numbers that a summary can hold fits in it.
pub proof fn law_values_add_up(a: (nat, nat), b: (nat, nat))
    ensures
        IntegersSummary::plus(a, b).0 == a.0 + b.0,
        IntegersSummary::plus(a, b).1 == a.1 + b.1,
        IntegersSummary::fits(a) <==> a.0 <= usize::MAX && a.1 <= usize::MAX,
{
}

/// What is kept of a run of bytes is how many there are and what they add up to.
pub proof fn law_bytes_are_counted_and_summed(bytes: Seq<u8>)
    ensures
        total(known(bytes)).0 == bytes.len(),
        total(known(bytes)).1 == bytes.fold_left(0int, |sum: int, byte: u8| sum + byte),
    decreases bytes.len(),
{
    lemma_count_is_len(bytes);
    if bytes.len() > 0 {
        let last = seq![Piece::Item(bytes.last())];
        law_bytes_are_counted_and_summed(bytes.drop_last());
        assert(known(bytes) =~= known(bytes.drop_last()) + last);
        lemma_total_concat(known(bytes.drop_last()), last);
        lemma_total_one(Piece::Item(bytes.last()));
    }
}

/// What summaries of bytes add up to is what their counts and their sums add up to.
pub proof fn law_summaries_of_bytes_add_up(values: Seq<(nat, nat)>)
    ensures
        total_of::<IntegersSummary>(values).0 == values.fold_left(
            0int,
            |count: int, value: (nat, nat)| count + value.0,
        ),
        total_of::<IntegersSummary>(values).1 == values.fold_left(
            0int,
            |sum: int, value: (nat, nat)| sum + value.1,
        ),
    decreases values.len(),
{
    if values.len() > 0 {
        law_summaries_of_bytes_add_up(values.drop_last());
    }
}

/// The root of a tree of bytes says how many there are and what they add up to.
pub proof fn law_root_counts_and_sums_bytes(nodes: Nodes<u8>, tree: Tree<u8>, bytes: Seq<u8>)
    requires
        tree.wf(nodes),
        !tree.dangling(nodes),
        tree.content(nodes) == known(bytes),
    ensures
        tree.at(nodes).summary().0 == bytes.len(),
        tree.at(nodes).summary().1 == bytes.fold_left(0int, |sum: int, byte: u8| sum + byte),
{
    law_root_summarizes_all_items(nodes, tree);
    law_bytes_are_counted_and_summed(bytes);
}

/// Counts are measured, added up and ordered as the numbers that they are.
pub proof fn law_counts_are_numbers(a: Count, b: Count, summary: IntegersSummary)
    ensures
        a@ == a.0,
        summary@.0 == summary.count,
        summary@.1 == summary.sum,
        Count::measure(summary@) == summary.count,
        Count::before(a@, b@) <==> a.0 < b.0,
        a.0 + b.0 <= usize::MAX ==> {
            &&& <Count as vstd::std_specs::ops::AddSpec<&Count>>::add_req(a, &b)
            &&& forall|c: Count|
                #[trigger] call_ensures(<Count as Add<&Count>>::add, (a, &b), c) ==> c.0 == a.0
                    + b.0
        },
{
}

/// Counts are equal, less or greater as the numbers that they are.
pub proof fn law_counts_compare_as_numbers(a: Count, b: Count)
    ensures
        forall|equal: bool| #[trigger]
            call_ensures(Count::eq, (&a, &b), equal) ==> equal == (a.0 == b.0),
        forall|less: bool| #[trigger]
            call_ensures(Count::lt, (&a, &b), less) ==> less == (a.0 < b.0),
        forall|greater: bool| #[trigger]
            call_ensures(Count::gt, (&a, &b), greater) ==> greater == (a.0 > b.0),
        forall|order: Option<std::cmp::Ordering>| #[trigger]
            call_ensures(Count::partial_cmp, (&a, &b), order) ==> {
                &&& order == Some(std::cmp::Ordering::Less) <==> a.0 < b.0
                &&& order == Some(std::cmp::Ordering::Equal) <==> a.0 == b.0
                &&& order == Some(std::cmp::Ordering::Greater) <==> a.0 > b.0
            },
{
}

/// A tree of bytes reaches as far as there are bytes in it.
pub proof fn law_extent_counts_bytes(nodes: Nodes<u8>, tree: Tree<u8>, bytes: Seq<u8>)
    requires
        tree.wf(nodes),
        !tree.dangling(nodes),
        tree.content(nodes) == known(bytes),
    ensures
        Count::measure(tree.at(nodes).summary()) == bytes.len(),
{
    law_root_summarizes_all_items(nodes, tree);
    lemma_count_is_len(bytes);
}

/// A position `n` bytes into a tree, with a bias to the right, lies in the byte at
/// index `n`. With a bias to the left it lies in the one in front of that.
pub proof fn lemma_seek_by_count(bytes: Seq<u8>, from: int, n: nat)
    requires
        0 <= from <= bytes.len(),
    ensures
        stop_from::<u8, Count>(known(bytes), from, n, SeekBias::Right) == if from >= n {
            from
        } else if n <= bytes.len() {
            n as int
        } else {
            bytes.len() as int
        },
        stop_from::<u8, Count>(known(bytes), from, n, SeekBias::Left) == if from + 1 >= n {
            from
        } else if n - 1 <= bytes.len() {
            n - 1
        } else {
            bytes.len() as int
        },
    decreases bytes.len() - from,
{
    if from < bytes.len() {
        assert(known(bytes).take(from + 1) =~= known(bytes.take(from + 1)));
        lemma_count_is_len(bytes.take(from + 1));
        lemma_seek_by_count(bytes, from + 1, n);
    }
}

/// A cursor that has sought the count `i` and moves on to the count `j` goes past the
/// bytes from index `i` up to index `j`.
pub proof fn law_slice_by_count(bytes: Seq<u8>, i: nat, j: nat)
    requires
        i <= j <= bytes.len(),
    ensures
        ({
            let items = known(bytes);
            let start = stop_from::<u8, Count>(items, 0, i, SeekBias::Right);
            let stop = stop_from::<u8, Count>(items, start, j, SeekBias::Right);
            &&& start == i
            &&& stop == j
            &&& items.subrange(start, stop) == known(bytes.subrange(i as int, j as int))
        }),
{
    lemma_seek_by_count(bytes, 0, i);
    lemma_seek_by_count(bytes, i as int, j);
    lemma_known_part(bytes, i as int, j as int);
}

} // verus!
