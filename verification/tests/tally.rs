use fly_on_the_wall::tally::{biggest, cushion_level, first_largest, mode_of, MOST_BULBS};

#[test]
fn the_commonest_value_and_its_count() {
    assert_eq!(mode_of(&vec![48, 49, 48, 60]), Some((48, 2)));
    assert_eq!(mode_of(&vec![7]), Some((7, 1)));
    assert_eq!(mode_of(&vec![]), None);
    // A tie goes to the value met first.
    assert_eq!(mode_of(&vec![3, 9, 9, 3]), Some((3, 2)));
}

#[test]
fn the_first_of_the_largest_counts() {
    assert_eq!(first_largest(&vec![2, 5, 5, 1]), Some(1));
    assert_eq!(first_largest(&vec![0]), Some(0));
    assert_eq!(first_largest(&vec![]), None);
}

#[test]
fn the_biggest_come_first_and_ties_keep_their_order() {
    assert_eq!(biggest(&vec![4, 9, 4, 12], 3), vec![3, 1, 0]);
    assert_eq!(biggest(&vec![4, 9], 14), vec![1, 0]);
    assert_eq!(biggest(&vec![], MOST_BULBS), Vec::<usize>::new());
    let many: Vec<usize> = (0..20).collect();
    assert_eq!(biggest(&many, MOST_BULBS).len(), MOST_BULBS);
}

#[test]
fn a_cushion_needs_eight_probes_level_with_it() {
    let mut bins = vec![22; 8];
    bins.extend([30, 31, 15]);
    assert_eq!(cushion_level(&bins), Some(22));
    assert_eq!(cushion_level(&vec![22; 7]), None);
    assert_eq!(cushion_level(&vec![]), None);
}
