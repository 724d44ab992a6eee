use unicode_render::similarity::levenshtein::levenshtein_distance;
use unicode_render::similarity::Points;

#[test]
fn levenshtein_empty_sets() {
    let p1 = Points::new();
    let p2 = Points::new();

    let expected = 0;
    let result = levenshtein_distance(&p1, &p2);

    assert_eq!(
        expected, result,
        "Expected: {expected:?}, but got: {result:?}"
    );
}

#[test]
fn levenshtein_identical_sets() {
    let p1 = Points::from_slice(&[(0, 0), (1, 1)]);
    let p2 = Points::from_slice(&[(0, 0), (1, 1)]);

    let expected = 0;
    let result = levenshtein_distance(&p1, &p2);

    assert_eq!(
        expected, result,
        "Expected: {expected:?}, but got: {result:?}"
    );
}

#[test]
fn single_point_difference() {
    let p1 = Points::from_slice(&[(0, 0)]);
    let p2 = Points::from_slice(&[(1, 1)]);

    let expected = 1;
    let result = levenshtein_distance(&p1, &p2);

    assert_eq!(
        expected, result,
        "Expected: {expected:?}, but got: {result:?}"
    );
}

#[test]
fn multiple_differences() {
    let p1 = Points::from_slice(&[(0, 0), (2, 2), (3, 3)]);
    let p2 = Points::from_slice(&[(1, 1), (2, 2), (4, 4)]);

    let expected = 2;
    let result = levenshtein_distance(&p1, &p2);

    assert_eq!(
        expected, result,
        "Expected: {expected:?}, but got: {result:?}"
    );
}

#[test]
fn different_length_sets() {
    let p1 = Points::from_slice(&[(0, 0), (2, 2), (3, 3)]);
    let p2 = Points::from_slice(&[(1, 1)]);

    let expected = 3;
    let result = levenshtein_distance(&p1, &p2);

    assert_eq!(
        expected, result,
        "Expected: {expected:?}, but got: {result:?}"
    );
}

#[test]
fn empty_vs_non_empty() {
    let p1 = Points::new();
    let p2 = Points::from_slice(&[(0, 0), (1, 1)]);

    let expected = 2;
    let result = levenshtein_distance(&p1, &p2);

    assert_eq!(
        expected, result,
        "Expected: {expected:?}, but got: {result:?}"
    );
}

#[test]
fn no_common_points() {
    let p1 = Points::from_slice(&[(0, 0), (2, 2)]);
    let p2 = Points::from_slice(&[(1, 1), (3, 3)]);

    let expected = 2;
    let result = levenshtein_distance(&p1, &p2);

    assert_eq!(
        expected, result,
        "Expected: {expected:?}, but got: {result:?}"
    );
}

#[test]
fn levenshtein_partially_overlapping_sets() {
    let p1 = Points::from_slice(&[(0, 0), (1, 1), (2, 2)]);
    let p2 = Points::from_slice(&[(3, 3), (1, 1), (2, 2)]);

    let expected = 1;
    let result = levenshtein_distance(&p1, &p2);

    assert_eq!(
        expected, result,
        "Expected: {expected:?}, but got: {result:?}"
    );
}

#[test]
fn partially_overlapping_sets_different_cardinalities() {
    let p1 = Points::from_slice(&[(0, 0), (1, 1), (2, 2), (4, 4)]);
    let p2 = Points::from_slice(&[(3, 3), (1, 1), (2, 2)]);

    let expected = 2;
    let result = levenshtein_distance(&p1, &p2);

    assert_eq!(
        expected, result,
        "Expected: {expected:?}, but got: {result:?}"
    );
}

#[test]
fn completely_different_points() {
    let p1 = Points::from_slice(&[(0, 0), (1, 1)]);
    let p2 = Points::from_slice(&[(2, 2), (3, 3)]);

    let expected = 2;
    let result = levenshtein_distance(&p1, &p2);

    assert_eq!(
        expected, result,
        "Expected: {expected:?}, but got: {result:?}"
    );
}

#[test]
fn multiple_similar_points() {
    let p1 = Points::from_slice(&[(0, 0), (1, 1), (2, 2), (3, 3)]);
    let p2 = Points::from_slice(&[(0, 0), (2, 2), (3, 3), (4, 4)]);

    let expected = 1;
    let result = levenshtein_distance(&p1, &p2);

    assert_eq!(
        expected, result,
        "Expected: {expected:?}, but got: {result:?}"
    );
}

#[test]
fn levenshtein_does_not_depend_on_the_order_of_the_sets() {
    let p1 = Points::from_slice(&[(0, 0), (1, 1), (2, 2), (4, 4)]);
    let p2 = Points::from_slice(&[(3, 3), (1, 1), (2, 2)]);
    assert_eq!(levenshtein_distance(&p1, &p2), 2);
    assert_eq!(levenshtein_distance(&p2, &p1), 2);
}

#[test]
fn levenshtein_of_nothing_and_two_points_is_two_either_way() {
    let none = Points::new();
    let two = Points::from_slice(&[(0, 0), (1, 1)]);
    assert_eq!(levenshtein_distance(&none, &two), 2);
    assert_eq!(levenshtein_distance(&two, &none), 2);
}

#[test]
fn levenshtein_is_zero_only_for_the_same_set() {
    let p1 = Points::from_slice(&[(9, 9), (65535, 65535)]);
    let p2 = Points::from_slice(&[(65535, 65535), (9, 9)]);
    let p3 = Points::from_slice(&[(65535, 65535), (9, 8)]);
    assert_eq!(levenshtein_distance(&p1, &p2), 0);
    assert_eq!(levenshtein_distance(&p1, &p3), 1);
}
