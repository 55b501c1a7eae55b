//! A record type with an open field, for sorting records by one of their
//! fields.

use vstd::prelude::*;
use vstd::std_specs::cmp::{PartialEqSpecImpl, PartialOrdSpecImpl};
use core::cmp::Ordering;

verus! {

/// A person, known by age alone.
#[derive(Clone, Copy, Debug)]
pub struct Person {
    pub age: u8,
}

impl PartialOrd for Person {
    /// Persons are ordered by age.
    fn partial_cmp(&self, other: &Self) -> (r: Option<Ordering>) {
        Some(self.age.cmp(&other.age))
    }
}

impl PartialOrdSpecImpl for Person {
    open spec fn obeys_partial_cmp_spec() -> bool {
        true
    }

    open spec fn partial_cmp_spec(&self, other: &Self) -> Option<Ordering> {
        if self.age < other.age {
            Some(Ordering::Less)
        } else if self.age > other.age {
            Some(Ordering::Greater)
        } else {
            Some(Ordering::Equal)
        }
    }
}

impl PartialEq for Person {
    /// Persons are equal when their ages are.
    fn eq(&self, other: &Self) -> (r: bool) {
        self.age == other.age
    }
}

impl PartialEqSpecImpl for Person {
    open spec fn obeys_eq_spec() -> bool {
        true
    }

    open spec fn eq_spec(&self, other: &Self) -> bool {
        self.age == other.age
    }
}

} // verus!
