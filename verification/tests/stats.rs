use kalaha::stats::histogram;

#[test]
fn the_histogram_of_nothing_is_empty() {
    assert_eq!(histogram(&Vec::new()), Vec::<(usize, usize)>::new());
}

#[test]
fn the_histogram_counts_each_length_and_lists_them_rising() {
    let lengths = vec![30, 12, 30, 45, 12, 30, 7];
    assert_eq!(histogram(&lengths), vec![(7, 1), (12, 2), (30, 3), (45, 1)]);
}

#[test]
fn the_histogram_of_one_length() {
    assert_eq!(histogram(&vec![5, 5, 5, 5]), vec![(5, 4)]);
}

#[test]
fn the_histogram_takes_the_lengths_in_any_order() {
    assert_eq!(histogram(&vec![3, 2, 1, 0]), vec![(0, 1), (1, 1), (2, 1), (3, 1)]);
    assert_eq!(histogram(&vec![0, 1, 2, 3]), vec![(0, 1), (1, 1), (2, 1), (3, 1)]);
    assert_eq!(histogram(&vec![usize::MAX, 0, usize::MAX]), vec![(0, 1), (usize::MAX, 2)]);
}
