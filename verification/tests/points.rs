use unicode_render::points::Points;
use unicode_render::traits::{
    extract_foreground, Error, Foreground, Pointify, COVERAGE_THRESHOLD, INK_THRESHOLD,
};

fn sorted(points: &Points) -> Vec<(u16, u16)> {
    let mut all = points.to_vec();
    all.sort();
    all
}

#[test]
fn a_new_set_is_empty() {
    let points = Points::new();
    assert!(points.is_empty());
    assert_eq!(points.len(), 0);
    assert!(!points.contains((0, 0)));
    assert_eq!(points.to_vec(), vec![]);
}

#[test]
fn a_point_is_in_the_set_once() {
    let mut points = Points::new();
    assert!(points.insert((3, 4)));
    assert!(!points.insert((3, 4)));
    assert!(points.insert((4, 3)));
    assert_eq!(points.len(), 2);
    assert!(!points.is_empty());
    assert!(points.contains((3, 4)));
    assert!(points.contains((4, 3)));
    assert!(!points.contains((3, 3)));
    assert_eq!(sorted(&points), vec![(3, 4), (4, 3)]);
}

#[test]
fn coordinates_are_told_apart_up_to_the_largest() {
    let points = Points::from_slice(&[(0, 65535), (65535, 0), (1, 0), (0, 1), (65535, 65535)]);
    assert_eq!(points.len(), 5);
    assert!(points.contains((0, 65535)));
    assert!(points.contains((65535, 0)));
    assert!(!points.contains((0, 0)));
    assert!(!points.contains((1, 1)));
    assert_eq!(sorted(&points), vec![(0, 1), (0, 65535), (1, 0), (65535, 0), (65535, 65535)]);
}

#[test]
fn a_slice_with_repetitions_gives_each_point_once() {
    let points = Points::from_slice(&[(1, 2), (1, 2), (2, 1), (1, 2)]);
    assert_eq!(points.len(), 2);
    assert_eq!(sorted(&points), vec![(1, 2), (2, 1)]);
}

#[test]
fn common_points_are_counted() {
    let a = Points::from_slice(&[(0, 0), (1, 1), (2, 2), (3, 3)]);
    let b = Points::from_slice(&[(3, 3), (1, 1), (9, 9)]);
    assert_eq!(a.common_count(&b), 2);
    assert_eq!(b.common_count(&a), 2);
    assert_eq!(a.common_count(&a), 4);
    assert_eq!(a.common_count(&Points::new()), 0);
}

#[test]
fn cells_are_numbered_by_column_and_row() {
    let buffer: Vec<u8> = vec![10, 20, 30, 40, 50, 60];
    assert_eq!(
        buffer.to_points(3),
        Ok(vec![(0, 0, 10), (1, 0, 20), (2, 0, 30), (0, 1, 40), (1, 1, 50), (2, 1, 60)])
    );
    assert_eq!(
        buffer.to_points(2),
        Ok(vec![(0, 0, 10), (1, 0, 20), (0, 1, 30), (1, 1, 40), (0, 2, 50), (1, 2, 60)])
    );
    assert_eq!(Vec::<u8>::new().to_points(4), Ok(vec![]));
}

#[test]
fn a_row_size_of_zero_is_refused() {
    let buffer: Vec<u8> = vec![1, 2, 3, 4];
    assert_eq!(buffer.to_points(0), Err(Error::RowSize(0)));
    assert_eq!(
        extract_foreground(&buffer, 0, Foreground::Above(0)).err(),
        Some(Error::RowSize(0))
    );
    assert_eq!(
        extract_foreground(&Vec::new(), 0, Foreground::Above(0)).err(),
        Some(Error::RowSize(0))
    );
}

#[test]
fn a_row_size_that_does_not_divide_the_buffer_is_refused() {
    let buffer: Vec<u8> = vec![1, 2, 3, 4];
    assert_eq!(buffer.to_points(3), Err(Error::RowSize(3)));
    assert_eq!(buffer.to_points(5), Err(Error::RowSize(5)));
    assert_eq!(
        extract_foreground(&buffer, 3, Foreground::Above(0)).err(),
        Some(Error::RowSize(3))
    );
}

#[test]
fn rows_longer_than_the_largest_coordinate_are_refused() {
    let buffer: Vec<u8> = vec![0; 65536];
    assert_eq!(buffer.to_points(65536), Err(Error::RowSize(65536)));
    assert_eq!(
        extract_foreground(&buffer, 65536, Foreground::Below(1)).err(),
        Some(Error::RowSize(65536))
    );
    let widest: Vec<u8> = vec![0; 65535];
    assert_eq!(extract_foreground(&widest, 65535, Foreground::Below(1)).unwrap().len(), 65535);
}

#[test]
fn more_rows_than_the_largest_coordinate_are_refused() {
    let buffer: Vec<u8> = vec![0; 65536];
    assert_eq!(buffer.to_points(1), Err(Error::RowSize(1)));
    assert_eq!(
        extract_foreground(&buffer, 1, Foreground::Below(1)).err(),
        Some(Error::RowSize(1))
    );
    let highest: Vec<u8> = vec![0; 65535];
    let points = extract_foreground(&highest, 1, Foreground::Below(1)).unwrap();
    assert_eq!(points.len(), 65535);
    assert!(points.contains((0, 65534)));
}

#[test]
fn ink_is_what_is_darker_than_the_threshold() {
    let buffer: Vec<u8> = vec![0, 244, 245, 255, 246, 100];
    let points = extract_foreground(&buffer, 3, Foreground::Below(INK_THRESHOLD)).unwrap();
    assert_eq!(sorted(&points), vec![(0, 0), (1, 0), (2, 1)]);
}

#[test]
fn coverage_is_what_is_brighter_than_the_threshold() {
    let buffer: Vec<u8> = vec![0, 100, 101, 255, 99, 200];
    let points = extract_foreground(&buffer, 2, Foreground::Above(COVERAGE_THRESHOLD)).unwrap();
    assert_eq!(sorted(&points), vec![(0, 1), (1, 1), (1, 2)]);
}

#[test]
fn the_two_rules_read_one_buffer_differently() {
    let buffer: Vec<u8> = vec![0, 255, 255, 0];
    let dark = extract_foreground(&buffer, 2, Foreground::Below(128)).unwrap();
    let bright = extract_foreground(&buffer, 2, Foreground::Above(128)).unwrap();
    assert_eq!(sorted(&dark), vec![(0, 0), (1, 1)]);
    assert_eq!(sorted(&bright), vec![(0, 1), (1, 0)]);
    assert!(Foreground::Below(128).test(127));
    assert!(!Foreground::Below(128).test(128));
    assert!(Foreground::Above(128).test(129));
    assert!(!Foreground::Above(128).test(128));
}

#[test]
fn a_buffer_without_foreground_gives_the_empty_set() {
    let buffer: Vec<u8> = vec![255; 12];
    let points = extract_foreground(&buffer, 4, Foreground::Below(INK_THRESHOLD)).unwrap();
    assert!(points.is_empty());
    let nothing = extract_foreground(&Vec::new(), 4, Foreground::Below(INK_THRESHOLD)).unwrap();
    assert!(nothing.is_empty());
}

#[test]
fn row_size_error_says_what_went_wrong() {
    assert_eq!(Error::RowSize(0).to_string(), "Invalid Row Size: 0");
    assert_eq!(Error::RowSize(65536).to_string(), "Invalid Row Size: 65536");
    assert_eq!(Error::RowSize(7).description(), "Invalid Row Size");
}
