use crate::interval_tree::interval::Interval;
use crate::interval_tree::interval_type::IntervalType;
use vstd::prelude::*;
use vstd::std_specs::convert::IntoSpec;

verus! {

/// An interval together with the data that the caller attaches to it.
#[derive(Debug)]
pub struct IntervalTreeEntry<T, D> where T: IntervalType {
    pub interval: Interval<T>,
    pub data: D,
}

impl<T, D> IntervalTreeEntry<T, D> where T: IntervalType {
    /// Constructs the entry from anything that converts into an interval,
    /// and the data.
    pub fn new<I>(interval: I, data: D) -> (entry: Self) where I: Into<Interval<T>>
        ensures
            entry.data == data,
            I::obeys_into_spec() ==> entry.interval == interval.into_spec(),
    {
        Self { interval: interval.into(), data }
    }
}

impl<I, T, D> From<(I, D)> for IntervalTreeEntry<T, D> where I: Into<Interval<T>>, T: IntervalType {
    fn from(pair: (I, D)) -> (entry: Self)
    {
        Self { interval: pair.0.into(), data: pair.1 }
    }
}

impl<I, T, D> vstd::std_specs::convert::FromSpecImpl<(I, D)> for IntervalTreeEntry<T, D> where I: Into<Interval<T>>, T: IntervalType {
    open spec fn obeys_from_spec() -> bool {
        I::obeys_into_spec()
    }

    open spec fn from_spec(pair: (I, D)) -> IntervalTreeEntry<T, D> {
        IntervalTreeEntry { interval: pair.0.into_spec(), data: pair.1 }
    }
}

impl<I, T> From<I> for IntervalTreeEntry<T, ()> where I: Into<Interval<T>>, T: IntervalType {
    fn from(value: I) -> (entry: Self)
    {
        Self { interval: value.into(), data: () }
    }
}

impl<I, T> vstd::std_specs::convert::FromSpecImpl<I> for IntervalTreeEntry<T, ()> where I: Into<Interval<T>>, T: IntervalType {
    open spec fn obeys_from_spec() -> bool {
        I::obeys_into_spec()
    }

    open spec fn from_spec(value: I) -> IntervalTreeEntry<T, ()> {
        IntervalTreeEntry { interval: value.into_spec(), data: () }
    }
}

} // verus!
