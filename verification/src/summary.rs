//! The algebra that a tree keeps about its items: summaries that add up, and
//! the dimensions along which a position in a tree is measured.

use std::fmt;
use std::ops::Add;
use vstd::prelude::*;
use vstd::std_specs::iter::IteratorSpec;

verus! {

/// A value that describes a run of items and that can be added up.
///
/// `view` is the mathematical value, on which addition is total. The
/// executable type may hold only some of those values: `fits` says which.
pub trait Summary: View + Default + Clone + fmt::Debug {
    /// The summary of no items.
    spec fn zero() -> Self::V;

    /// The summary of two adjacent runs of items.
    spec fn plus(a: Self::V, b: Self::V) -> Self::V;

    /// Whether the executable type can hold this value.
    spec fn fits(value: Self::V) -> bool;

    /// `zero` changes nothing that it is added to.
    proof fn zero_is_neutral(a: Self::V)
        ensures
            Self::plus(Self::zero(), a) == a,
            Self::plus(a, Self::zero()) == a,
    ;

    /// The grouping of a sum does not matter.
    proof fn plus_is_associative(a: Self::V, b: Self::V, c: Self::V)
        ensures
            Self::plus(Self::plus(a, b), c) == Self::plus(a, Self::plus(b, c)),
    ;

    /// What can be held as a whole can be held in parts.
    proof fn parts_fit(a: Self::V, b: Self::V)
        requires
            Self::fits(Self::plus(a, b)),
        ensures
            Self::fits(a),
            Self::fits(b),
    ;

    /// Every value of the executable type fits in it.
    proof fn value_fits(s: Self)
        ensures
            Self::fits(s@),
    ;

    /// `default` is the summary of no items.
    proof fn default_is_zero(s: Self)
        requires
            call_ensures(Self::default, (), s),
        ensures
            s@ == Self::zero(),
    ;

    /// A clone has the value that it was cloned from.
    proof fn clone_keeps_value(a: Self, b: Self)
        requires
            cloned::<Self>(a, b),
        ensures
            a@ == b@,
    ;

    /// Adds `other` behind `self`.
    fn add_assign(&mut self, other: &Self)
        requires
            Self::fits(Self::plus(old(self)@, other@)),
        ensures
            final(self)@ == Self::plus(old(self)@, other@),
    ;
}

/// The mathematical value of the summaries that items of type `T` have.
pub type SummaryValue<T> = <<T as Item>::Summary as View>::V;

/// What a tree can hold.
pub trait Item: Clone + Eq + fmt::Debug {
    type Summary: Summary;

    /// The value of this item's summary.
    spec fn summary_value(&self) -> <Self::Summary as View>::V;

    /// A clone is the item that it was cloned from.
    proof fn clone_is_equal(a: Self, b: Self)
        requires
            cloned::<Self>(a, b),
        ensures
            a == b,
    ;

    fn summarize(&self) -> (summary: Self::Summary)
        ensures
            summary@ == self.summary_value(),
    ;
}

/// A measure of how far into a tree a position lies.
pub trait Dimension: for<'a> Add<&'a Self, Output = Self> + Ord + Clone + fmt::Debug + View {
    type Summary: Summary;

    /// How far a run of items with this summary reaches.
    spec fn measure(summary: <Self::Summary as View>::V) -> Self::V;

    /// Whether `a` lies strictly before `b`.
    spec fn before(a: Self::V, b: Self::V) -> bool;

    /// Two adjacent runs reach as far as their measures added up.
    proof fn measure_is_additive(
        x: Self,
        y: Self,
        a: <Self::Summary as View>::V,
        b: <Self::Summary as View>::V,
    )
        requires
            x@ == Self::measure(a),
            y@ == Self::measure(b),
            Self::Summary::fits(Self::Summary::plus(a, b)),
        ensures
            <Self as vstd::std_specs::ops::AddSpec<&Self>>::add_req(x, &y),
            forall|z: Self|
                #[trigger] call_ensures(<Self as Add<&Self>>::add, (x, &y), z) ==> z@
                    == Self::measure(Self::Summary::plus(a, b)),
    ;

    /// More items never reach less far.
    proof fn measure_is_monotone(a: <Self::Summary as View>::V, b: <Self::Summary as View>::V)
        requires
            Self::Summary::fits(Self::Summary::plus(a, b)),
        ensures
            !Self::before(Self::measure(Self::Summary::plus(a, b)), Self::measure(a)),
    ;

    /// `before` is a strict total order.
    proof fn before_is_total_order(a: Self::V, b: Self::V, c: Self::V)
        ensures
            !Self::before(a, a),
            Self::before(a, b) && Self::before(b, c) ==> Self::before(a, c),
            Self::before(a, b) || Self::before(b, a) || a == b,
    ;

    /// `>` goes by `before`.
    proof fn gt_is_before(a: &Self, b: &Self, result: bool)
        requires
            call_ensures(Self::gt, (a, b), result),
        ensures
            result == Self::before(b@, a@),
    ;

    /// `==` compares the measures.
    proof fn eq_is_equality(a: &Self, b: &Self, result: bool)
        requires
            call_ensures(Self::eq, (a, b), result),
        ensures
            result == (a@ == b@),
    ;

    fn from_summary(summary: &Self::Summary) -> (dimension: Self)
        ensures
            dimension@ == Self::measure(summary@),
    ;

    /// The measure of no items.
    fn default() -> (dimension: Self)
        ensures
            dimension@ == Self::measure(Self::Summary::zero()),
    {
        let summary = <Self::Summary as Default>::default();
        proof {
            Self::Summary::default_is_zero(summary);
        }
        Self::from_summary(&summary)
    }
}

/// The values added up from left to right.
pub open spec fn total_of<S: Summary>(values: Seq<S::V>) -> S::V
    decreases values.len(),
{
    if values.len() == 0 {
        S::zero()
    } else {
        S::plus(total_of::<S>(values.drop_last()), values.last())
    }
}

/// The values that summaries stand for.
pub open spec fn values_of<S: Summary>(summaries: Seq<S>) -> Seq<S::V> {
    summaries.map_values(|s: S| s@)
}

/// A sum can be split at any place.
pub proof fn lemma_total_of_concat<S: Summary>(a: Seq<S::V>, b: Seq<S::V>)
    ensures
        total_of::<S>(a + b) == S::plus(total_of::<S>(a), total_of::<S>(b)),
    decreases b.len(),
{
    if b.len() == 0 {
        assert(a + b =~= a);
        S::zero_is_neutral(total_of::<S>(a));
    } else {
        assert((a + b).drop_last() =~= a + b.drop_last());
        lemma_total_of_concat::<S>(a, b.drop_last());
        S::plus_is_associative(total_of::<S>(a), total_of::<S>(b.drop_last()), b.last());
    }
}

/// The sum of one value is that value.
pub proof fn lemma_total_of_one<S: Summary>(a: S::V)
    ensures
        total_of::<S>(seq![a]) == a,
{
    reveal_with_fuel(total_of, 2);
    assert(seq![a].drop_last() =~= Seq::<S::V>::empty());
    S::zero_is_neutral(a);
}

/// What can be held of a whole can be held of each part of it.
pub proof fn lemma_total_of_part_fits<S: Summary>(values: Seq<S::V>, from: int, to: int)
    requires
        0 <= from <= to <= values.len(),
        S::fits(total_of::<S>(values)),
    ensures
        S::fits(total_of::<S>(values.subrange(from, to))),
{
    let head = values.subrange(0, from);
    let part = values.subrange(from, to);
    let tail = values.subrange(to, values.len() as int);
    assert(values =~= (head + part) + tail);
    lemma_total_of_concat::<S>(head + part, tail);
    lemma_total_of_concat::<S>(head, part);
    S::parts_fit(total_of::<S>(head + part), total_of::<S>(tail));
    S::parts_fit(total_of::<S>(head), total_of::<S>(part));
}

/// Whether an iterator ends, and says beforehand what it will yield.
pub open spec fn yields<I: Iterator>(iter: I) -> bool {
    &&& iter.obeys_prophetic_iter_laws()
    &&& iter.decrease() is Some
}

/// Adds up the summaries that an iterator lends out.
pub fn sum<'a, S, I>(iter: I) -> (result: S)
    where
        S: 'a + Summary,
        I: Iterator<Item = &'a S>,
    requires
        yields(iter),
        S::fits(total_of::<S>(iter.remaining().map_values(|s: &'a S| s@))),
    ensures
        result@ == total_of::<S>(iter.remaining().map_values(|s: &'a S| s@)),
{
    let ghost all = iter.remaining().map_values(|s: &'a S| s@);
    let ghost mut done: int = 0;
    let mut rest = iter;
    let mut sum = S::default();
    proof {
        S::default_is_zero(sum);
        assert(all.skip(0) =~= all);
    }
    loop
        invariant
            yields(rest),
            0 <= done <= all.len(),
            all == iter.remaining().map_values(|s: &'a S| s@),
            rest.remaining().map_values(|s: &'a S| s@) =~= all.skip(done),
            sum@ == total_of::<S>(all.take(done)),
            S::fits(total_of::<S>(all)),
        decreases rest.decrease()->0,
    {
        let ghost left = rest.remaining();
        let next = rest.next();
        proof {
            assert(left.map_values(|s: &'a S| s@).len() == all.skip(done).len());
        }
        match next {
            Some(value) => {
                proof {
                    assert(left.map_values(|s: &'a S| s@)[0] == all.skip(done)[0]);
                    assert(all.take(done + 1).drop_last() =~= all.take(done));
                    lemma_total_of_part_fits::<S>(all, 0, done + 1);
                    assert(all.subrange(0, done + 1) =~= all.take(done + 1));
                }
                sum.add_assign(value);
                proof {
                    assert(rest.remaining().map_values(|s: &'a S| s@)
                        =~= left.map_values(|s: &'a S| s@).drop_first());
                    assert(all.skip(done + 1) =~= all.skip(done).drop_first());
                    done = done + 1;
                }
            },
            None => {
                assert(all.take(done) =~= all);
                return sum;
            },
        }
    }
}

/// Adds up the summaries that an iterator hands over.
pub fn sum_owned<S, I>(iter: I) -> (result: S)
    where
        S: Summary,
        I: Iterator<Item = S>,
    requires
        yields(iter),
        S::fits(total_of::<S>(values_of(iter.remaining()))),
    ensures
        result@ == total_of::<S>(values_of(iter.remaining())),
{
    let ghost all = values_of(iter.remaining());
    let ghost mut done: int = 0;
    let mut rest = iter;
    let mut sum = S::default();
    proof {
        S::default_is_zero(sum);
        assert(all.skip(0) =~= all);
    }
    loop
        invariant
            yields(rest),
            0 <= done <= all.len(),
            all == values_of(iter.remaining()),
            values_of(rest.remaining()) =~= all.skip(done),
            sum@ == total_of::<S>(all.take(done)),
            S::fits(total_of::<S>(all)),
        decreases rest.decrease()->0,
    {
        let ghost left = rest.remaining();
        let next = rest.next();
        proof {
            assert(values_of(left).len() == all.skip(done).len());
        }
        match next {
            Some(value) => {
                proof {
                    assert(values_of(left)[0] == all.skip(done)[0]);
                    assert(all.take(done + 1).drop_last() =~= all.take(done));
                    lemma_total_of_part_fits::<S>(all, 0, done + 1);
                    assert(all.subrange(0, done + 1) =~= all.take(done + 1));
                }
                sum.add_assign(&value);
                proof {
                    assert(values_of(rest.remaining()) =~= values_of(left).drop_first());
                    assert(all.skip(done + 1) =~= all.skip(done).drop_first());
                    done = done + 1;
                }
            },
            None => {
                assert(all.take(done) =~= all);
                return sum;
            },
        }
    }
}

} // verus!
