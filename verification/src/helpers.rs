//! Small record types for sorting something other than numbers: a person,
//! ordered and compared by age, and a car, compared by age and not ordered.

use vstd::prelude::*;
use vstd::std_specs::cmp::{PartialEqSpecImpl, PartialOrdSpecImpl};
use core::cmp::Ordering;
use crate::Order;
use crate::comparator::{has_specified_order, is_strict_weak_order, natural_order};

verus! {

/// A person, known by age alone.
#[derive(Clone, Copy, Debug)]
pub struct Person {
    age: u8,
}

impl Person {
    /// The age of the person.
    pub closed spec fn age(self) -> u8 {
        self.age
    }

    /// A person of the given age.
    pub fn new(age: u8) -> (person: Person)
        ensures
            person.age() == age,
    {
        Person { age }
    }
}

impl PartialOrd for Person {
    /// Persons are ordered by age.
    fn partial_cmp(&self, other: &Self) -> (r: Option<Ordering>) {
        Some(self.age.cmp(&other.age))
    }
}

impl PartialOrdSpecImpl for Person {
    open spec fn obeys_partial_cmp_spec() -> bool {
        true
    }

    open spec fn partial_cmp_spec(&self, other: &Self) -> Option<Ordering> {
        if self.age() < other.age() {
            Some(Ordering::Less)
        } else if self.age() > other.age() {
            Some(Ordering::Greater)
        } else {
            Some(Ordering::Equal)
        }
    }
}

impl PartialEq for Person {
    /// Persons are equal when their ages are.
    fn eq(&self, other: &Self) -> (r: bool) {
        self.age == other.age
    }
}

impl PartialEqSpecImpl for Person {
    open spec fn obeys_eq_spec() -> bool {
        true
    }

    open spec fn eq_spec(&self, other: &Self) -> bool {
        self.age() == other.age()
    }
}

/// The ordering of persons by age is a strict weak order in both
/// directions, and the comparison operators follow it.
pub proof fn lemma_person_order(order: Order)
    ensures
        has_specified_order::<Person>(),
        is_strict_weak_order(natural_order::<Person>(order)),
{
}

/// A car, known by age alone. Cars have no ordering of their own: they are
/// sorted by a predicate.
#[derive(Clone, Copy, Debug)]
pub struct Car {
    pub age: u8,
}

impl PartialEq for Car {
    /// Cars are equal when their ages are.
    fn eq(&self, other: &Self) -> (r: bool) {
        self.age == other.age
    }
}

impl PartialEqSpecImpl for Car {
    open spec fn obeys_eq_spec() -> bool {
        true
    }

    open spec fn eq_spec(&self, other: &Self) -> bool {
        self.age == other.age
    }
}

} // verus!
