use practicas::search::{bin_search, count};

#[test]
fn test_count() {
    assert_eq!(count(&mut [0, 1, 3]), 0);
    assert_eq!(count(&mut [-1, 1, 2]), 1);
    assert_eq!(count(&mut [-1, 2, 1, -2]), 2);
    assert_eq!(count(&mut [7, -1, 4, 5, 22, -7, 2, 1, -2]), 3);
}

#[test]
fn count_sorts_its_input() {
    let mut a = [3, -1, 2, -3, 0];
    assert_eq!(count(&mut a), 1);
    assert_eq!(a, [-3, -1, 0, 2, 3]);
}

#[test]
fn count_of_zeros_and_repeats() {
    assert_eq!(count(&mut []), 0);
    assert_eq!(count(&mut [0]), 0);
    assert_eq!(count(&mut [0, 0]), 1);
    assert_eq!(count(&mut [0, 0, 0]), 2);
    assert_eq!(count(&mut [-1, -1, 1]), 2);
    assert_eq!(count(&mut [-1, 1, 1]), 1);
}

#[test]
fn count_does_not_depend_on_order() {
    let mut a = [5, -5, 2, -2, 9, 0, 0];
    let mut b = [0, 9, -2, 0, 5, 2, -5];
    assert_eq!(count(&mut a), count(&mut b));
    assert_eq!(a, b);
}

#[test]
fn bin_search_finds_present_values() {
    let a = [-4, -1, 0, 3, 8, 13];
    for (i, &x) in a.iter().enumerate() {
        assert_eq!(bin_search(x, &a), i as isize);
    }
}

#[test]
fn bin_search_reports_absent_values() {
    let a = [-4, -1, 0, 3, 8, 13];
    for x in [-5, -2, 1, 4, 9, 14] {
        assert_eq!(bin_search(x, &a), -1);
    }
    assert_eq!(bin_search(1, &[]), -1);
    assert_eq!(bin_search(i32::MIN, &[i32::MIN + 1]), -1);
}

#[test]
fn bin_search_midpoint_first() {
    // The first probe is the middle element.
    assert_eq!(bin_search(7, &[7, 7, 7]), 1);
    assert_eq!(bin_search(2, &[1, 2]), 1);
}

#[test]
fn count_twice_gives_the_same_answer() {
    let mut a = [7, -1, 4, 5, 22, -7, 2, 1, -2];
    let first = count(&mut a);
    let second = count(&mut a);
    assert_eq!(first, 3);
    assert_eq!(first, second);
}

#[test]
fn bin_search_probes_like_its_description() {
    // Unsorted input: the probes go by the middle element only.
    assert_eq!(bin_search(1, &[5, 1, 9]), 1);
    assert_eq!(bin_search(0, &[5, 1, 9]), -1);
    assert_eq!(bin_search(9, &[5, 1, 9]), 2);
    assert_eq!(bin_search(5, &[5, 1, 9]), -1);
    assert_eq!(bin_search(1, &[3, 2, 1, 0]), -1);
    assert_eq!(bin_search(2, &[3, 2, 1, 0]), 1);
}
