use sorting::algorithms::helpers::Person as OpenPerson;
use sorting::algorithms::selection_sort::selection_sort::sort;
use sorting::helpers::{Car, Person};
use sorting::{Order, Partition};

#[test]
fn persons_are_ordered_and_compared_by_age() {
    let young = Person::new(15);
    let old = Person::new(35);
    assert!(young < old);
    assert!(old > young);
    assert!(young <= Person::new(15));
    assert!(young == Person::new(15));
    assert!(young != old);
    assert_eq!(Some(std::cmp::Ordering::Less), young.partial_cmp(&old));
    assert_eq!(Some(std::cmp::Ordering::Equal), young.partial_cmp(&young));
    assert_eq!(Some(std::cmp::Ordering::Greater), old.partial_cmp(&young));
}

#[test]
fn persons_with_an_open_age_are_ordered_and_compared_by_age() {
    let young = OpenPerson { age: 15 };
    let old = OpenPerson { age: 35 };
    assert!(young < old);
    assert!(old > young);
    assert!(young == OpenPerson { age: 15 });
    assert_eq!(Some(std::cmp::Ordering::Greater), old.partial_cmp(&young));

    let mut people = vec![OpenPerson { age: 25 }, young, old];
    sort(&mut people, Order::Desc);
    assert_eq!(vec![old, OpenPerson { age: 25 }, young], people);
}

#[test]
fn cars_are_compared_by_age() {
    assert!(Car { age: 3 } == Car { age: 3 });
    assert!(Car { age: 3 } != Car { age: 4 });
}

#[test]
fn directions_and_policies_compare_as_values() {
    assert_eq!(Order::Asc, Order::Asc);
    assert_ne!(Order::Asc, Order::Desc);
    assert_eq!(Partition::Center, Partition::Center);
    assert_ne!(Partition::First, Partition::Last);
}
