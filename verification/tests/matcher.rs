use image::DynamicImage;
use unicode_render::image_utils::Region;
use unicode_render::matcher::{match_char, match_pixels, match_points, render, Error, Glyph};
use unicode_render::points::Points;
use unicode_render::similarity::{score, SimilarityMetric};
use unicode_render::traits::Foreground;

const METRICS: [SimilarityMetric; 3] =
    [SimilarityMetric::Hausdorff, SimilarityMetric::Hamming, SimilarityMetric::Levenshtein];

const COVERED: Foreground = Foreground::Above(100);
const INK: Foreground = Foreground::Below(245);

fn glyph(character: char, width: usize, rows: &[&str]) -> Glyph {
    let mut bitmap: Vec<u8> = Vec::new();
    for row in rows {
        for cell in row.chars() {
            bitmap.push(if cell == '#' { 255 } else { 0 });
        }
    }
    Glyph { character, width, bitmap }
}

/// A grayscale image with ink where the rows have a `#`.
fn image(rows: &[&str]) -> DynamicImage {
    let mut pixels: Vec<u8> = Vec::new();
    for row in rows {
        for cell in row.chars() {
            pixels.push(if cell == '#' { 0 } else { 255 });
        }
    }
    let width = rows[0].len() as u32;
    let height = rows.len() as u32;
    DynamicImage::ImageLuma8(image::GrayImage::from_raw(width, height, pixels).unwrap())
}

fn corner() -> Points {
    Points::from_slice(&[(0, 0), (1, 0), (0, 1)])
}

fn corner_glyph(character: char) -> Glyph {
    glyph(character, 4, &["##..", "#...", "....", "...."])
}

fn far_glyph(character: char) -> Glyph {
    glyph(character, 4, &["....", "....", "...#", "..##"])
}

#[test]
fn the_exact_match_wins_in_either_order_under_every_metric() {
    for metric in METRICS {
        let first = vec![corner_glyph('a'), far_glyph('b')];
        assert_eq!(match_points(&corner(), &first, COVERED, metric), Ok('a'));
        let second = vec![far_glyph('b'), corner_glyph('a')];
        assert_eq!(match_points(&corner(), &second, COVERED, metric), Ok('a'));
    }
}

#[test]
fn the_default_metric_is_hausdorff() {
    assert_eq!(SimilarityMetric::default(), SimilarityMetric::Hausdorff);
}

#[test]
fn scores_are_counts_or_squared_distances() {
    let a = Points::from_slice(&[(0, 0), (1, 1)]);
    let b = Points::from_slice(&[(0, 0), (2, 2)]);
    assert_eq!(score(SimilarityMetric::Hamming, &a, &b), Ok(2));
    assert_eq!(score(SimilarityMetric::Levenshtein, &a, &b), Ok(1));
    assert_eq!(score(SimilarityMetric::Hausdorff, &a, &b), Ok(2));
    let c = Points::from_slice(&[(3, 4)]);
    assert_eq!(score(SimilarityMetric::Hausdorff, &Points::from_slice(&[(0, 0)]), &c), Ok(25));
}

#[test]
fn a_score_that_is_not_defined_says_why() {
    let two = Points::from_slice(&[(0, 0), (1, 1)]);
    let none = Points::new();
    let hamming = score(SimilarityMetric::Hamming, &two, &none).unwrap_err();
    assert_eq!(
        hamming,
        unicode_render::similarity::Error::Hamming(
            unicode_render::similarity::hamming::Error::Cardinality(2, 0)
        )
    );
    assert_eq!(
        hamming.to_string(),
        "Error calculation failed: Cannot compute Hamming distance between sets with cardinality 2 and 0"
    );
    let hausdorff = score(SimilarityMetric::Hausdorff, &two, &none).unwrap_err();
    assert_eq!(
        hausdorff,
        unicode_render::similarity::Error::Hausdorff(
            unicode_render::similarity::hausdorff::Error::EmptySet
        )
    );
    assert_eq!(
        hausdorff.to_string(),
        "Error calculation failed: Hausdorff distance isn't well defined for empty sets"
    );
    assert_eq!(score(SimilarityMetric::Levenshtein, &two, &none), Ok(2));
}

#[test]
fn the_smallest_score_wins() {
    let region = Points::from_slice(&[(0, 0), (1, 0), (2, 0)]);
    let glyphs = vec![
        glyph('x', 3, &["...", "###"]),
        glyph('y', 3, &["##.", "..#"]),
        glyph('z', 3, &["#..", ".##"]),
    ];
    // Set-difference scores: 3, 1 and 2. Hamming distances: 6, 2 and 4.
    assert_eq!(match_points(&region, &glyphs, COVERED, SimilarityMetric::Levenshtein), Ok('y'));
    assert_eq!(match_points(&region, &glyphs, COVERED, SimilarityMetric::Hamming), Ok('y'));
    // Squared Hausdorff distances from the region: 1, 1 and 1: the first wins.
    assert_eq!(match_points(&region, &glyphs, COVERED, SimilarityMetric::Hausdorff), Ok('x'));
}

#[test]
fn of_equal_scores_the_first_wins() {
    let region = Points::from_slice(&[(0, 0)]);
    let left = vec![glyph('l', 2, &[".#"]), glyph('r', 2, &[".#"]), glyph('s', 2, &[".#"])];
    for metric in METRICS {
        assert_eq!(match_points(&region, &left, COVERED, metric), Ok('l'));
    }
    let later = vec![glyph('w', 2, &["##"]), glyph('l', 2, &[".#"]), glyph('r', 2, &[".#"])];
    assert_eq!(match_points(&region, &later, COVERED, SimilarityMetric::Hamming), Ok('l'));
}

#[test]
fn a_glyph_that_cannot_be_read_is_left_out() {
    let region = corner();
    let glyphs = vec![
        Glyph { character: 'e', width: 0, bitmap: vec![] },
        Glyph { character: 'o', width: 3, bitmap: vec![255; 4] },
        far_glyph('f'),
    ];
    for metric in METRICS {
        assert_eq!(match_points(&region, &glyphs, COVERED, metric), Ok('f'));
    }
}

#[test]
fn a_glyph_without_a_score_is_left_out() {
    let region = corner();
    // Four covered cells against three points: no Hamming distance.
    let glyphs = vec![glyph('q', 2, &["##", "##"]), far_glyph('f')];
    assert_eq!(match_points(&region, &glyphs, COVERED, SimilarityMetric::Hamming), Ok('f'));
    // Nothing covered: no Hausdorff distance.
    let blank = vec![glyph(' ', 2, &["..", ".."]), far_glyph('f')];
    assert_eq!(match_points(&region, &blank, COVERED, SimilarityMetric::Hausdorff), Ok('f'));
    // The set-difference score is always defined, and the blank is nearer.
    assert_eq!(match_points(&region, &blank, COVERED, SimilarityMetric::Levenshtein), Ok(' '));
}

#[test]
fn no_candidate_means_no_match() {
    let region = corner();
    for metric in METRICS {
        assert_eq!(
            match_points(&region, &Vec::new(), COVERED, metric),
            Err(Error::NoCandidateMatched)
        );
        let broken = vec![Glyph { character: 'e', width: 0, bitmap: vec![] }];
        assert_eq!(match_points(&region, &broken, COVERED, metric), Err(Error::NoCandidateMatched));
    }
    let unequal = vec![glyph('q', 2, &["##", "##"]), glyph('p', 1, &["#"])];
    assert_eq!(
        match_points(&region, &unequal, COVERED, SimilarityMetric::Hamming),
        Err(Error::NoCandidateMatched)
    );
    let nothing = Points::new();
    assert_eq!(
        match_points(&nothing, &unequal, COVERED, SimilarityMetric::Hausdorff),
        Err(Error::NoCandidateMatched)
    );
}

#[test]
fn the_coverage_threshold_decides_what_a_glyph_covers() {
    let region = Points::from_slice(&[(0, 0)]);
    let faint = vec![
        Glyph { character: 'f', width: 2, bitmap: vec![101, 100] },
        Glyph { character: 'g', width: 2, bitmap: vec![101, 101] },
    ];
    assert_eq!(
        match_points(&region, &faint, Foreground::Above(100), SimilarityMetric::Levenshtein),
        Ok('f')
    );
    assert_eq!(
        match_points(&region, &faint, Foreground::Above(101), SimilarityMetric::Hamming),
        Err(Error::NoCandidateMatched)
    );
}

#[test]
fn pixels_are_matched_by_their_ink() {
    let pixels: Vec<u8> = vec![0, 0, 255, 255, 10, 255, 255, 255, 255, 255, 255, 255, 255, 255, 255, 250];
    let glyphs = vec![far_glyph('f'), corner_glyph('c')];
    for metric in METRICS {
        assert_eq!(match_pixels(&pixels, 4, &glyphs, INK, COVERED, metric), Ok('c'));
    }
}

#[test]
fn pixels_that_cannot_be_read_in_rows_are_refused() {
    let pixels: Vec<u8> = vec![0, 0, 255, 255, 10];
    let glyphs = vec![far_glyph('f'), corner_glyph('c')];
    for metric in METRICS {
        assert_eq!(
            match_pixels(&pixels, 4, &glyphs, INK, COVERED, metric),
            Err(Error::InvalidDimensions)
        );
        assert_eq!(
            match_pixels(&pixels, 0, &glyphs, INK, COVERED, metric),
            Err(Error::InvalidDimensions)
        );
        assert_eq!(
            match_pixels(&Vec::new(), 0, &glyphs, INK, COVERED, metric),
            Err(Error::InvalidDimensions)
        );
    }
}

#[test]
fn a_region_of_an_image_is_matched_by_its_own_pixels() {
    let img = image(&[
        "##......",
        "#.......",
        "......#.",
        ".....##.",
    ]);
    let glyphs = vec![far_glyph('f'), corner_glyph('c')];
    let left = Region { x: 0, y: 0, width: 4, height: 4 };
    let right = Region { x: 4, y: 0, width: 4, height: 4 };
    for metric in METRICS {
        assert_eq!(match_char(&img, &left, &glyphs, INK, COVERED, metric), Ok('c'));
    }
    // The right half holds the far glyph's shape, one column to the left.
    assert_eq!(
        match_char(&img, &right, &glyphs, INK, COVERED, SimilarityMetric::Hausdorff),
        Ok('f')
    );
    let shifted = Region { x: 3, y: 0, width: 4, height: 4 };
    assert_eq!(
        match_char(&img, &shifted, &glyphs, INK, COVERED, SimilarityMetric::Hamming),
        Ok('f')
    );
}

#[test]
fn a_region_beyond_the_image_or_without_pixels_is_refused() {
    let img = image(&["##..", "#...", "....", "...."]);
    let glyphs = vec![corner_glyph('c')];
    let beyond = Region { x: 1, y: 0, width: 4, height: 4 };
    let empty = Region { x: 1, y: 1, width: 0, height: 2 };
    let flat = Region { x: 1, y: 1, width: 2, height: 0 };
    for metric in METRICS {
        assert_eq!(
            match_char(&img, &beyond, &glyphs, INK, COVERED, metric),
            Err(Error::InvalidDimensions)
        );
        assert_eq!(
            match_char(&img, &empty, &glyphs, INK, COVERED, metric),
            Err(Error::InvalidDimensions)
        );
    }
    // Rows of two pixels, none of them: nothing is ink.
    assert_eq!(
        match_char(&img, &flat, &glyphs, INK, COVERED, SimilarityMetric::Levenshtein),
        Ok('c')
    );
    assert_eq!(
        match_char(&img, &flat, &glyphs, INK, COVERED, SimilarityMetric::Hausdorff),
        Err(Error::NoCandidateMatched)
    );
}

#[test]
fn match_error_says_what_went_wrong() {
    assert_eq!(Error::NoCandidateMatched.to_string(), "unable to find minimum");
    assert_eq!(Error::InvalidDimensions.to_string(), "invalid region dimensions");
}

#[test]
fn an_image_is_rendered_row_by_row() {
    let img = image(&[
        "##....#.",
        "#..##...",
        "...#...#",
        "......##",
        "..##....",
        "..#.....",
    ]);
    let glyphs = vec![
        glyph('a', 2, &["##", "#."]),
        glyph('b', 2, &[".#", "##"]),
        glyph('c', 2, &["#.", ".."]),
    ];
    let lines = render(&img, &glyphs, 2, SimilarityMetric::Hamming).unwrap();
    // A region with one inked pixel has a Hamming distance to `c` alone, which
    // covers one cell. A region without ink has none to any glyph and gets the
    // placeholder.
    assert_eq!(lines, vec!["| accc |", "|  c b |", "|  a   |"]);
    let again = render(&img, &glyphs, 2, SimilarityMetric::Hamming).unwrap();
    assert_eq!(lines, again);
}

#[test]
fn partial_regions_have_no_place_in_the_rendered_grid() {
    let img = image(&["##.##", "#..#.", "....."]);
    let glyphs = vec![glyph('a', 2, &["##", "#."])];
    assert_eq!(
        render(&img, &glyphs, 2, SimilarityMetric::Levenshtein),
        Some(vec![String::from("| aa |")])
    );
}

#[test]
fn a_region_size_that_gives_no_row_is_refused() {
    let img = image(&["##..", "#...", "....", "...."]);
    let glyphs = vec![corner_glyph('c')];
    assert_eq!(render(&img, &glyphs, 0, SimilarityMetric::Hausdorff), None);
    assert_eq!(render(&img, &glyphs, 5, SimilarityMetric::Hausdorff), None);
    assert_eq!(
        render(&img, &glyphs, 4, SimilarityMetric::Hausdorff),
        Some(vec![String::from("| c |")])
    );
}
