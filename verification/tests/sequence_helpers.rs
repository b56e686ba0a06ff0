use hutspot::math::intersection_in_sequence;
use hutspot::math::set_intersection;
use hutspot::math::wrap_pairs;

#[test]
fn wrap_pairs_closes_the_polygon() {
    let pairs = wrap_pairs(&[1, 2, 3]);
    assert_eq!(pairs, vec![(1, 2), (2, 3), (3, 1)]);
}

#[test]
fn wrap_pairs_of_two_gives_both_directions() {
    let pairs = wrap_pairs(&[7, 9]);
    assert_eq!(pairs, vec![(7, 9), (9, 7)]);
}

#[test]
fn wrap_pairs_of_one_pairs_it_with_itself() {
    let pairs = wrap_pairs(&[5]);
    assert_eq!(pairs, vec![(5, 5)]);
}

#[test]
fn wrap_pairs_of_empty_is_empty() {
    let pairs: Vec<(u8, u8)> = wrap_pairs(&[]);
    assert_eq!(pairs, Vec::new());
}

#[test]
fn set_intersection_keeps_order_and_multiplicity_of_second() {
    let a = vec![1usize, 2, 3];
    let b = vec![3usize, 1, 1, 4, 3];
    assert_eq!(set_intersection(&a, &b), vec![3, 1, 1, 3]);
}

#[test]
fn set_intersection_with_disjoint_sets_is_empty() {
    let a = vec![10u32, 20];
    let b = vec![1u32, 2, 3];
    assert_eq!(set_intersection(&a, &b), Vec::<u32>::new());
}

#[test]
fn set_intersection_with_empty_first_is_empty() {
    let a: Vec<i64> = Vec::new();
    let b = vec![1i64, 2];
    assert_eq!(set_intersection(&a, &b), Vec::<i64>::new());
}

#[test]
fn set_intersection_works_on_strings() {
    let a = vec!["edge", "face"];
    let b = vec!["vertex", "face", "edge", "face"];
    assert_eq!(set_intersection(&a, &b), vec!["face", "edge", "face"]);
}

#[test]
fn interleaved_marks_alternate() {
    assert!(intersection_in_sequence(1, 2, &[1, 2, 1, 2]));
    assert!(intersection_in_sequence(2, 1, &[2, 1, 2, 1]));
}

#[test]
fn nested_marks_do_not_alternate() {
    assert!(!intersection_in_sequence(1, 2, &[1, 2, 2, 1]));
    assert!(!intersection_in_sequence(1, 2, &[1, 1, 2, 2]));
}

#[test]
fn unrelated_elements_are_ignored() {
    assert!(intersection_in_sequence(1, 2, &[1, 7, 2, 8, 1, 9, 2]));
    assert!(!intersection_in_sequence(1, 2, &[7, 1, 1, 8, 2, 9, 2]));
}
