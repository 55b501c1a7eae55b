use sorting::algorithms::heap_sort::heap::{create_heap_by_predicate, down_heap_by_predicate};

fn is_heap(data: &[i32], bound: usize) -> bool {
    for child in 1..bound {
        if data[(child - 1) / 2] < data[child] {
            return false;
        }
    }
    true
}

#[test]
fn create_heap_puts_no_parent_before_a_child() {
    let mut data = [3, 2, 4, 2, 5, 7, 1, 0, 6, 9, 8, 8, 1];
    create_heap_by_predicate(&mut data, &|a, b| a < b);
    assert!(is_heap(&data, 13));
    assert_eq!(9, data[0]);
    let mut seen = data;
    seen.sort();
    assert_eq!([0, 1, 1, 2, 2, 3, 4, 5, 6, 7, 8, 8, 9], seen);
}

#[test]
fn create_heap_with_greater_than_puts_the_least_first() {
    let mut data = [3, 2, 4, 2, 5, 7, 1, 0, 6];
    create_heap_by_predicate(&mut data, &|a, b| a > b);
    assert_eq!(0, data[0]);
    for child in 1..9 {
        assert!(data[(child - 1) / 2] <= data[child]);
    }
}

#[test]
fn create_heap_accepts_short_buffers() {
    let mut none: [i32; 0] = [];
    create_heap_by_predicate(&mut none, &|a, b| a < b);
    let mut one = [4];
    create_heap_by_predicate(&mut one, &|a, b| a < b);
    assert_eq!([4], one);
    let mut two = [1, 2];
    create_heap_by_predicate(&mut two, &|a, b| a < b);
    assert_eq!([2, 1], two);
}

#[test]
fn down_heap_sinks_a_root_that_is_out_of_place() {
    let mut data = [1, 9, 8, 7, 6, 5, 4];
    down_heap_by_predicate(&mut data, 0, 7, &|a, b| a < b);
    assert_eq!([9, 7, 8, 1, 6, 5, 4], data);
    assert!(is_heap(&data, 7));
}

#[test]
fn down_heap_takes_the_greater_child() {
    let mut data = [1, 5, 6];
    down_heap_by_predicate(&mut data, 0, 3, &|a, b| a < b);
    assert_eq!([6, 5, 1], data);
    let mut data = [1, 6, 5];
    down_heap_by_predicate(&mut data, 0, 3, &|a, b| a < b);
    assert_eq!([6, 1, 5], data);
}

#[test]
fn down_heap_lets_a_level_child_rise() {
    let by_key = |a: &(i32, char), b: &(i32, char)| a.0 < b.0;
    let mut data = [(1, 'a'), (1, 'b')];
    down_heap_by_predicate(&mut data, 0, 2, &by_key);
    assert_eq!([(1, 'b'), (1, 'a')], data);

    let mut data = [(1, 'a'), (1, 'b'), (1, 'c')];
    down_heap_by_predicate(&mut data, 0, 3, &by_key);
    assert_eq!([(1, 'c'), (1, 'b'), (1, 'a')], data);

    let mut data = [(2, 'a'), (1, 'b'), (2, 'c')];
    down_heap_by_predicate(&mut data, 0, 3, &by_key);
    assert_eq!([(2, 'c'), (1, 'b'), (2, 'a')], data);
}

#[test]
fn down_heap_leaves_a_root_that_is_in_place() {
    let mut data = [9, 5, 6, 1, 2];
    down_heap_by_predicate(&mut data, 0, 5, &|a, b| a < b);
    assert_eq!([9, 5, 6, 1, 2], data);
}

#[test]
fn down_heap_stays_below_the_bound() {
    let mut data = [1, 5, 6, 7, 8];
    down_heap_by_predicate(&mut data, 0, 3, &|a, b| a < b);
    assert_eq!([6, 5, 1, 7, 8], data);
    let mut data = [1, 5, 6];
    down_heap_by_predicate(&mut data, 0, 2, &|a, b| a < b);
    assert_eq!([5, 1, 6], data);
    let mut data = [1, 5, 6];
    down_heap_by_predicate(&mut data, 0, 1, &|a, b| a < b);
    assert_eq!([1, 5, 6], data);
    down_heap_by_predicate(&mut data, 0, 0, &|a, b| a < b);
    assert_eq!([1, 5, 6], data);
}

#[test]
fn down_heap_touches_the_subtree_of_its_node_only() {
    let mut data = [0, 1, 9, 8, 7, 3, 4];
    down_heap_by_predicate(&mut data, 1, 7, &|a, b| a < b);
    assert_eq!([0, 8, 9, 1, 7, 3, 4], data);
}

#[test]
fn down_heap_leaves_a_node_without_children() {
    let mut data = [1, 2, 3, 4, 5];
    down_heap_by_predicate(&mut data, 2, 5, &|a, b| a < b);
    assert_eq!([1, 2, 3, 4, 5], data);
    down_heap_by_predicate(&mut data, 4, 5, &|a, b| a < b);
    assert_eq!([1, 2, 3, 4, 5], data);
    down_heap_by_predicate(&mut data, 7, 5, &|a, b| a < b);
    assert_eq!([1, 2, 3, 4, 5], data);
    down_heap_by_predicate(&mut data, usize::MAX, 5, &|a, b| a < b);
    assert_eq!([1, 2, 3, 4, 5], data);
}
