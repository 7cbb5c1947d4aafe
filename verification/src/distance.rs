//! Distances in metres, with one infinite value above all finite ones.

use vstd::prelude::*;
use crate::base_types::Meter;

verus! {

#[derive(Debug, Clone, Copy, PartialEq, Eq, Structural, Hash)]
pub enum Distance {
    Distance(Meter),
    Infinity,
}

/// The sum of two distances in the lattice: infinite as soon as one of them
/// is, or as soon as the metres no longer fit.
pub open spec fn distance_sum(a: Distance, b: Distance) -> Distance {
    match (a, b) {
        (Distance::Distance(x), Distance::Distance(y)) => if x + y <= Meter::MAX {
            Distance::Distance((x + y) as Meter)
        } else {
            Distance::Infinity
        },
        _ => Distance::Infinity,
    }
}

/// `a <= b` in the lattice.
pub open spec fn distance_le(a: Distance, b: Distance) -> bool {
    match (a, b) {
        (Distance::Distance(x), Distance::Distance(y)) => x <= y,
        (_, Distance::Infinity) => true,
        (Distance::Infinity, Distance::Distance(_)) => false,
    }
}

impl Distance {
    pub fn zero() -> (d: Distance)
        ensures
            d == Distance::Distance(0),
    {
        Distance::Distance(0)
    }

    pub fn from_meter(m: Meter) -> (d: Distance)
        ensures
            d == Distance::Distance(m),
    {
        Distance::Distance(m)
    }

    /// The metres of a finite distance; `None` for the infinite one.
    pub fn in_meter(&self) -> (m: Option<Meter>)
        ensures
            m == match *self {
                Distance::Distance(x) => Some(x),
                Distance::Infinity => None::<Meter>,
            },
    {
        match self {
            Distance::Distance(x) => Some(*x),
            Distance::Infinity => None,
        }
    }

    pub fn plus(&self, other: Distance) -> (d: Distance)
        ensures
            d == distance_sum(*self, other),
    {
        match (*self, other) {
            (Distance::Distance(x), Distance::Distance(y)) => match x.checked_add(y) {
                Some(s) => Distance::Distance(s),
                None => Distance::Infinity,
            },
            _ => Distance::Infinity,
        }
    }

    pub fn le(&self, other: Distance) -> (b: bool)
        ensures
            b == distance_le(*self, other),
    {
        match (*self, other) {
            (Distance::Distance(x), Distance::Distance(y)) => x <= y,
            (_, Distance::Infinity) => true,
            (Distance::Infinity, Distance::Distance(_)) => false,
        }
    }

    pub fn lt(&self, other: Distance) -> (b: bool)
        ensures
            b == !distance_le(other, *self),
    {
        !other.le(*self)
    }
}

/// The lattice order is total, and adding never makes a distance smaller.
pub proof fn lemma_distance_order(a: Distance, b: Distance, c: Distance)
    ensures
        distance_le(a, a),
        distance_le(a, b) || distance_le(b, a),
        distance_le(a, b) && distance_le(b, a) ==> a == b,
        distance_le(a, b) && distance_le(b, c) ==> distance_le(a, c),
        distance_le(a, distance_sum(a, b)),
        distance_sum(a, b) == distance_sum(b, a),
        distance_sum(a, Distance::Distance(0)) == a,
{
}

} // verus!
