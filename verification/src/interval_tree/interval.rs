//! `Interval<T>` for capturing intervals.

use crate::interval_tree::interval_type::{at_most, IntervalType};
use std::ops::RangeInclusive;
use vstd::prelude::*;
use vstd::std_specs::cmp::PartialOrdSpec;

verus! {

/// Structure to represent a closed interval.
#[derive(Debug, Default, Eq, PartialEq, Ord, PartialOrd, Copy, Clone)]
pub struct Interval<T> where T: IntervalType {
    pub start: T,
    pub end: T,
}

impl<T> Interval<T> where T: IntervalType {
    /// Constructs a new interval.
    pub fn new(low: T, high: T) -> (interval: Self)
        ensures
            interval == (Interval { start: low, end: high }),
    {
        Self { start: low, end: high }
    }

    /// Two closed intervals overlap when each starts no later than the
    /// other one ends.
    pub open spec fn overlaps(&self, other: &Interval<T>) -> bool {
        at_most(self.start, other.end) && at_most(other.start, self.end)
    }

    /// Checks whether the current interval overlaps with another one.
    pub fn overlaps_with(&self, other: &Interval<T>) -> (b: bool)
        ensures
            T::obeys_partial_cmp_spec() ==> b == self.overlaps(other),
    {
        (self.start <= other.end) && (other.start <= self.end)
    }
}

impl<T> From<(T, T)> for Interval<T> where T: IntervalType {
    /// Constructs an interval from a tuple.
    fn from(interval: (T, T)) -> (r: Self)
    {
        Self { start: interval.0, end: interval.1 }
    }
}

impl<T> vstd::std_specs::convert::FromSpecImpl<(T, T)> for Interval<T> where T: IntervalType {
    open spec fn obeys_from_spec() -> bool {
        true
    }

    open spec fn from_spec(interval: (T, T)) -> Interval<T> {
        Interval { start: interval.0, end: interval.1 }
    }
}

impl<T> From<RangeInclusive<T>> for Interval<T> where T: IntervalType {
    /// Constructs an interval from a `RangeInclusive<T>`.
    fn from(range: RangeInclusive<T>) -> (r: Self)
    {
        Self { start: *range.start(), end: *range.end() }
    }
}

impl<T> vstd::std_specs::convert::FromSpecImpl<RangeInclusive<T>> for Interval<T> where T: IntervalType {
    open spec fn obeys_from_spec() -> bool {
        true
    }

    open spec fn from_spec(range: RangeInclusive<T>) -> Interval<T> {
        Interval { start: range@.start, end: range@.end }
    }
}

impl<T> From<&RangeInclusive<T>> for Interval<T> where T: IntervalType {
    /// Constructs an interval from a `&RangeInclusive<T>`.
    fn from(range: &RangeInclusive<T>) -> (r: Self)
    {
        Self { start: *range.start(), end: *range.end() }
    }
}

impl<T> vstd::std_specs::convert::FromSpecImpl<&RangeInclusive<T>> for Interval<T> where T: IntervalType {
    open spec fn obeys_from_spec() -> bool {
        true
    }

    open spec fn from_spec(range: &RangeInclusive<T>) -> Interval<T> {
        Interval { start: range@.start, end: range@.end }
    }
}

} // verus!
