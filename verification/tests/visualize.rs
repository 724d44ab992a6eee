use image::DynamicImage;
use unicode_render::text::{decimal_chars, decimal_string};
use unicode_render::visualize::{
    frame_lines, grid_lines, image_text, pixels_text, row_length, PLACEHOLDER,
};

#[test]
fn numbers_are_written_in_decimal() {
    assert_eq!(decimal_string(0), "0");
    assert_eq!(decimal_string(7), "7");
    assert_eq!(decimal_string(10), "10");
    assert_eq!(decimal_string(245), "245");
    assert_eq!(decimal_string(65536), "65536");
    assert_eq!(decimal_string(u64::MAX), "18446744073709551615");
    assert_eq!(decimal_chars(1203), vec!['1', '2', '0', '3']);
}

#[test]
fn the_placeholder_is_a_blank() {
    assert_eq!(PLACEHOLDER, ' ');
}

#[test]
fn rows_are_as_long_as_whole_partitions_fit() {
    assert_eq!(row_length(100, 25, false), 4);
    assert_eq!(row_length(100, 25, true), 5);
    assert_eq!(row_length(101, 25, false), 4);
    assert_eq!(row_length(101, 25, true), 5);
    assert_eq!(row_length(24, 25, false), 0);
    assert_eq!(row_length(24, 25, true), 1);
    assert_eq!(row_length(u32::MAX, 1, true), 4_294_967_296);
}

#[test]
fn the_grid_is_laid_out_in_rows_between_bars() {
    let chars: Vec<char> = "abcdefgh".chars().collect();
    assert_eq!(grid_lines(&chars, 4), vec!["| abcd |", "| efgh |"]);
    assert_eq!(grid_lines(&chars, 8), vec!["| abcdefgh |"]);
    assert_eq!(grid_lines(&chars, 1).len(), 8);
    assert_eq!(grid_lines(&chars, 1)[7], "| h |");
}

#[test]
fn the_last_row_of_the_grid_holds_what_is_left() {
    let chars: Vec<char> = "abcdefgh".chars().collect();
    assert_eq!(grid_lines(&chars, 3), vec!["| abc |", "| def |", "| gh |"]);
    assert_eq!(grid_lines(&chars, 9), vec!["| abcdefgh |"]);
    assert_eq!(grid_lines(&chars, usize::MAX), vec!["| abcdefgh |"]);
    assert_eq!(grid_lines(&Vec::new(), 3), Vec::<String>::new());
}

#[test]
fn the_grid_keeps_characters_of_any_script() {
    let chars: Vec<char> = vec!['\u{e9}', ' ', '\u{4e2d}', '\u{1f600}'];
    assert_eq!(grid_lines(&chars, 2), vec!["| \u{e9}  |", "| \u{4e2d}\u{1f600} |"]);
}

#[test]
fn cells_are_framed_two_characters_wide() {
    let cells = vec![true, false, false, true, true, true];
    assert_eq!(
        frame_lines(&cells, 3),
        vec![
            "\u{250f}\u{2501}\u{2501}\u{2501}\u{2501}\u{2501}\u{2501}\u{2513}",
            "\u{2503}\u{2588}\u{2588}    \u{2503}",
            "\u{2503}\u{2588}\u{2588}\u{2588}\u{2588}\u{2588}\u{2588}\u{2503}",
            "\u{2517}\u{2501}\u{2501}\u{2501}\u{2501}\u{2501}\u{2501}\u{251b}",
        ]
    );
}

#[test]
fn the_last_row_of_a_frame_may_be_short() {
    let cells = vec![false, true, true];
    assert_eq!(
        frame_lines(&cells, 2),
        vec![
            "\u{250f}\u{2501}\u{2501}\u{2501}\u{2501}\u{2513}",
            "\u{2503}  \u{2588}\u{2588}\u{2503}",
            "\u{2503}\u{2588}\u{2588}\u{2503}",
            "\u{2517}\u{2501}\u{2501}\u{2501}\u{2501}\u{251b}",
        ]
    );
}

#[test]
fn a_frame_without_cells_has_its_two_edges() {
    assert_eq!(
        frame_lines(&Vec::new(), 1),
        vec!["\u{250f}\u{2501}\u{2501}\u{2513}", "\u{2517}\u{2501}\u{2501}\u{251b}"]
    );
}

#[test]
fn pixels_are_written_as_numbers_or_dots() {
    let pixels: Vec<u8> = vec![0, 245, 246, 255, 7, 100];
    let text: String = pixels_text(&pixels, 3).into_iter().collect();
    assert_eq!(text, "0\n245 .  . \n7100");
    let flat: String = pixels_text(&pixels, 6).into_iter().collect();
    assert_eq!(flat, "0\n245 .  . 7100");
    assert_eq!(pixels_text(&Vec::new(), 0), Vec::<char>::new());
}

#[test]
fn an_image_is_written_with_its_dimensions() {
    let pixels: Vec<u8> = vec![0, 245, 246, 255, 7, 100];
    let img = DynamicImage::ImageLuma8(image::GrayImage::from_raw(3, 2, pixels).unwrap());
    assert_eq!(image_text(&img), "dimensions 3x2\n0\n245 .  . \n7100");
    let none = DynamicImage::new_luma8(0, 0);
    assert_eq!(image_text(&none), "dimensions 0x0\n");
    let wide = DynamicImage::new_luma8(12, 0);
    assert_eq!(image_text(&wide), "dimensions 12x0\n");
}
