use tigerbeetle::direction::Direction::{Ascending, Descending};

#[test]
fn reverse_swaps_directions() {
    assert_eq!(Ascending.reverse(), Descending);
    assert_eq!(Descending.reverse(), Ascending);
}

#[test]
fn direction_aware_comparisons() {
    assert!(Ascending.cmp_lt(&1, &2));
    assert!(Descending.cmp_lt(&2, &1));
    assert!(Ascending.cmp_le(&2, &2));
    assert!(Descending.cmp_le(&2, &2));
    assert!(!Ascending.cmp_lt(&2, &1));

    assert_eq!(Ascending.lower(1, 2), 1);
    assert_eq!(Ascending.upper(1, 2), 2);
    assert_eq!(Descending.lower(1, 2), 2);
    assert_eq!(Descending.upper(1, 2), 1);
}

#[test]
fn slice_peek_and_pop_follow_iteration_order() {
    let values = [10, 20, 30];

    assert_eq!(*Ascending.slice_peek(&values), 10);
    assert_eq!(*Descending.slice_peek(&values), 30);

    let (popped, rest) = Ascending.slice_pop(&values);
    assert_eq!(*popped, 10);
    assert_eq!(rest, &[20, 30]);

    let (popped, rest) = Descending.slice_pop(&values);
    assert_eq!(*popped, 30);
    assert_eq!(rest, &[10, 20]);
}

#[test]
fn works_with_generic_value_types() {
    // Stored ascending; descending iteration peeks/pops from the tail.
    let values = [(1_u32, 'a'), (3, 'c')];
    let peeked = Descending.slice_peek(&values);
    assert_eq!(peeked.0, 3);
    let (popped, rest) = Ascending.slice_pop(&values);
    assert_eq!(popped.0, 1);
    assert_eq!(rest.len(), 1);
}
