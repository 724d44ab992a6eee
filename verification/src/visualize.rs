//! The text that is shown: the grid of matched characters, a framed picture of
//! cells, and an image's intensities.

use crate::image_utils::{dimensions, image_size, region_cells, region_pixels, Region};
use crate::text::{decimal, decimal_chars, decimal_string, join_chars};
use image::DynamicImage;
use vstd::arithmetic::div_mod::{lemma_fundamental_div_mod, lemma_fundamental_div_mod_converse};
use vstd::arithmetic::mul::lemma_mul_is_commutative;
use vstd::prelude::*;

verus! {

/// The number of rows that `cells` cells fill in rows of `row_size` cells, the
/// last of which may be shorter.
pub open spec fn line_count(cells: nat, row_size: nat) -> nat {
    if cells % row_size == 0 {
        cells / row_size
    } else {
        cells / row_size + 1
    }
}

/// The cells of the `r`-th row, where the cells are laid out in rows of
/// `row_size` cells.
pub open spec fn row_cells<T>(cells: Seq<T>, row_size: int, r: int) -> Seq<T> {
    cells.subrange(
        r * row_size,
        if (r + 1) * row_size <= cells.len() {
            (r + 1) * row_size
        } else {
            cells.len() as int
        },
    )
}

/// After `r` rows of `row_size` cells, the next row of `len` cells starts at
/// `start`; this gives where it ends.
fn row_end(len: usize, row_size: usize, start: usize, Ghost(r): Ghost<int>) -> (end: usize)
    requires
        row_size > 0,
        start < len,
        start == r * row_size,
        0 <= r,
    ensures
        start < end <= len,
        end == if (r + 1) * row_size <= len {
            (r + 1) * row_size
        } else {
            len as int
        },
{
    proof {
        assert((r + 1) * row_size == r * row_size + row_size) by (nonlinear_arith);
    }
    if len - start < row_size {
        len
    } else {
        start + row_size
    }
}

/// A number of rows that reaches the end of the cells, while one row less does
/// not, is the number of rows that the cells fill.
proof fn lemma_line_count(cells: nat, row_size: nat, rows: nat)
    requires
        row_size > 0,
        rows * row_size >= cells,
        rows > 0 ==> (rows - 1) * row_size < cells,
    ensures
        rows == line_count(cells, row_size),
{
    let (n, s) = (cells as int, row_size as int);
    let q = n / s;
    lemma_fundamental_div_mod(n, s);
    lemma_mul_is_commutative(s, q);
    if rows == 0 {
        assert(rows * row_size == 0);
        assert(0nat % row_size == 0 && 0nat / row_size == 0) by {
            lemma_fundamental_div_mod_converse(0, s, 0, 0);
        }
    } else {
        let r = rows as int;
        assert(r - 1 <= q) by (nonlinear_arith)
            requires
                (r - 1) * s < n,
                n == q * s + n % s,
                0 <= n % s < s,
        ;
        assert(n % s == 0 ==> q >= r) by (nonlinear_arith)
            requires
                (r - 1) * s < n,
                n == q * s + n % s,
                0 <= n % s < s,
        ;
        assert(q <= r) by (nonlinear_arith)
            requires
                r * s >= n,
                n == q * s + n % s,
                0 <= n % s < s,
                0 < s,
        ;
        assert(n % s != 0 ==> q < r) by (nonlinear_arith)
            requires
                r * s >= n,
                n == q * s + n % s,
                0 <= n % s < s,
        ;
    }
}

/// The text of one row of the grid: the row's characters between `"| "` and
/// `" |"`.
pub open spec fn grid_line(chars: Seq<char>, row_length: int, r: int) -> Seq<char> {
    seq!['|', ' '] + row_cells(chars, row_length, r) + seq![' ', '|']
}

/// The text of lines, line by line.
pub open spec fn lines_text(lines: Seq<String>) -> Seq<Seq<char>> {
    Seq::new(lines.len(), |l: int| lines[l]@)
}

/// The lines of the grid: the characters in rows of `row_length`, top to bottom,
/// each row between `"| "` and `" |"`; the last row holds what is left.
pub open spec fn grid_spec(chars: Seq<char>, row_length: nat) -> Seq<Seq<char>> {
    Seq::new(line_count(chars.len(), row_length), |r: int| grid_line(chars, row_length as int, r))
}

/// The character that stands in the grid for a region without a match.
pub const PLACEHOLDER: char = ' ';

/// The length of the grid's rows for an image of the given width: the number of
/// whole partitions that fit into the width, and one more where partial regions
/// are kept.
pub fn row_length(image_width: u32, partition_width: u32, keep_partial: bool) -> (length: u64)
    requires
        partition_width > 0,
    ensures
        length == image_width / partition_width + if keep_partial {
            1int
        } else {
            0int
        },
{
    let whole: u64 = (image_width / partition_width) as u64;
    if keep_partial {
        whole + 1
    } else {
        whole
    }
}

/// The lines of the grid: the characters in rows of `row_length`, top to bottom,
/// each row between `"| "` and `" |"`. The last row holds what is left.
pub fn grid_lines(chars: &Vec<char>, row_length: usize) -> (lines: Vec<String>)
    requires
        row_length > 0,
    ensures
        lines_text(lines@) == grid_spec(chars@, row_length as nat),
{
    let mut lines: Vec<String> = Vec::new();
    let mut start: usize = 0;
    proof {
        assert(lines@.len() * row_length == 0) by (nonlinear_arith)
            requires
                lines@.len() == 0,
        ;
    }
    while start < chars.len()
        invariant
            row_length > 0,
            start <= chars.len(),
            start < chars.len() ==> start == lines@.len() * row_length,
            lines@.len() * row_length >= start,
            lines@.len() > 0 ==> (lines@.len() - 1) * row_length < chars@.len(),
            forall|r: int|
                0 <= r < lines@.len() ==> (#[trigger] lines@[r])@ == grid_line(
                    chars@,
                    row_length as int,
                    r,
                ),
        decreases chars.len() - start,
    {
        let ghost r = lines@.len() as int;
        let end: usize = row_end(chars.len(), row_length, start, Ghost(r));
        let mut row: Vec<char> = Vec::new();
        let mut i: usize = start;
        while i < end
            invariant
                start <= i <= end <= chars.len(),
                row@ == chars@.subrange(start as int, i as int),
            decreases end - i,
        {
            row.push(chars[i]);
            assert(row@ =~= chars@.subrange(start as int, i + 1));
            i = i + 1;
        }
        let mut line: String = String::from_str("| ");
        let cells: String = join_chars(&row);
        line.append(cells.as_str());
        line.append(" |");
        proof {
            reveal_strlit("| ");
            reveal_strlit(" |");
            assert("| "@ =~= seq!['|', ' ']);
            assert(" |"@ =~= seq![' ', '|']);
            assert(line@ =~= grid_line(chars@, row_length as int, r));
        }
        lines.push(line);
        proof {
            assert((r + 1) * row_length >= end) by (nonlinear_arith)
                requires
                    end <= (r + 1) * row_length,
            ;
            assert((r + 1 - 1) * row_length < chars@.len());
        }
        start = end;
    }
    proof {
        lemma_line_count(chars@.len(), row_length as nat, lines@.len());
        assert(lines_text(lines@) =~= grid_spec(chars@, row_length as nat));
    }
    lines
}

/// The upper or lower edge of a frame around rows of `row_size` cells: a corner,
/// two bars for each cell, a corner.
pub open spec fn frame_edge(left: char, right: char, row_size: nat) -> Seq<char> {
    seq![left] + Seq::new(2 * row_size, |k: int| '\u{2501}') + seq![right]
}

/// One row of a framed picture: between two upright bars, two full blocks for a
/// cell that is set and two blanks for a cell that is not.
pub open spec fn frame_row(cells: Seq<bool>) -> Seq<char> {
    seq!['\u{2503}'] + Seq::new(
        2 * cells.len(),
        |k: int|
            if cells[k / 2] {
                '\u{2588}'
            } else {
                ' '
            },
    ) + seq!['\u{2503}']
}

/// The lines of a framed picture of cells in rows of `row_size`: the upper
/// edge, the rows from top to bottom, the lower edge.
pub open spec fn frame_spec(cells: Seq<bool>, row_size: nat) -> Seq<Seq<char>> {
    let rows = line_count(cells.len(), row_size);
    Seq::new(
        rows + 2,
        |l: int|
            if l == 0 {
                frame_edge('\u{250f}', '\u{2513}', row_size)
            } else if l == rows + 1 {
                frame_edge('\u{2517}', '\u{251b}', row_size)
            } else {
                frame_row(row_cells(cells, row_size as int, l - 1))
            },
    )
}

/// An edge of the frame.
fn frame_edge_line(left: char, right: char, row_size: usize) -> (line: String)
    ensures
        line@ == frame_edge(left, right, row_size as nat),
{
    let mut chars: Vec<char> = Vec::new();
    chars.push(left);
    let mut i: usize = 0;
    while i < row_size
        invariant
            i <= row_size,
            chars@ == seq![left] + Seq::new(2 * (i as nat), |k: int| '\u{2501}'),
        decreases row_size - i,
    {
        chars.push('\u{2501}');
        chars.push('\u{2501}');
        i = i + 1;
        assert(chars@ =~= seq![left] + Seq::new(2 * (i as nat), |k: int| '\u{2501}'));
    }
    chars.push(right);
    assert(chars@ =~= frame_edge(left, right, row_size as nat));
    join_chars(&chars)
}

/// The lines of a framed picture of cells in rows of `row_size`, to be shown one
/// below the other.
pub fn frame_lines(cells: &Vec<bool>, row_size: usize) -> (lines: Vec<String>)
    requires
        row_size > 0,
    ensures
        lines_text(lines@) == frame_spec(cells@, row_size as nat),
{
    let ghost expected = frame_spec(cells@, row_size as nat);
    let mut lines: Vec<String> = Vec::new();
    lines.push(frame_edge_line('\u{250f}', '\u{2513}', row_size));
    let mut start: usize = 0;
    while start < cells.len()
        invariant
            row_size > 0,
            start <= cells.len(),
            lines@.len() >= 1,
            start < cells.len() ==> start == (lines@.len() - 1) * row_size,
            (lines@.len() - 1) * row_size >= start,
            lines@.len() > 1 ==> (lines@.len() - 2) * row_size < cells@.len(),
            lines@[0]@ == frame_edge('\u{250f}', '\u{2513}', row_size as nat),
            forall|l: int|
                1 <= l < lines@.len() ==> (#[trigger] lines@[l])@ == frame_row(
                    row_cells(cells@, row_size as int, l - 1),
                ),
        decreases cells.len() - start,
    {
        let ghost r = lines@.len() - 1;
        let end: usize = row_end(cells.len(), row_size, start, Ghost(r));
        let ghost row = cells@.subrange(start as int, end as int);
        let mut chars: Vec<char> = Vec::new();
        chars.push('\u{2503}');
        let mut i: usize = start;
        while i < end
            invariant
                start <= i <= end <= cells.len(),
                row == cells@.subrange(start as int, end as int),
                chars@ == seq!['\u{2503}'] + Seq::new(
                    2 * ((i - start) as nat),
                    |k: int|
                        if row[k / 2] {
                            '\u{2588}'
                        } else {
                            ' '
                        },
                ),
            decreases end - i,
        {
            let mark: char = if cells[i] {
                '\u{2588}'
            } else {
                ' '
            };
            chars.push(mark);
            chars.push(mark);
            i = i + 1;
            assert(chars@ =~= seq!['\u{2503}'] + Seq::new(
                2 * ((i - start) as nat),
                |k: int|
                    if row[k / 2] {
                        '\u{2588}'
                    } else {
                        ' '
                    },
            ));
        }
        chars.push('\u{2503}');
        assert(chars@ =~= frame_row(row));
        lines.push(join_chars(&chars));
        proof {
            assert((r + 1) * row_size >= end) by (nonlinear_arith)
                requires
                    end <= (r + 1) * row_size,
            ;
        }
        start = end;
    }
    proof {
        lemma_line_count(cells@.len(), row_size as nat, (lines@.len() - 1) as nat);
    }
    lines.push(frame_edge_line('\u{2517}', '\u{251b}', row_size));
    proof {
        assert(lines_text(lines@) =~= expected);
    }
    lines
}

/// What stands for one pixel in an image's text: its intensity in decimal, or
/// `" . "` where it is brighter than 245.
pub open spec fn pixel_token(intensity: u8) -> Seq<char> {
    if intensity > 245 {
        seq![' ', '.', ' ']
    } else {
        decimal(intensity as nat)
    }
}

/// The text of the first `n` pixels of an image `width` pixels wide: each
/// pixel's token, and a line break behind the first pixel of each row.
pub open spec fn pixel_stream(cells: Seq<u8>, width: int, n: int) -> Seq<char>
    decreases n,
{
    if n <= 0 {
        Seq::empty()
    } else {
        pixel_stream(cells, width, n - 1) + pixel_token(cells[n - 1]) + if (n - 1) % width == 0 {
            seq!['\n']
        } else {
            Seq::empty()
        }
    }
}

/// The text of an image: a line with its dimensions, then its pixels.
pub open spec fn image_text_spec(width: u32, height: u32, cells: Seq<u8>) -> Seq<char> {
    "dimensions "@ + decimal(width as nat) + seq!['x'] + decimal(height as nat) + seq!['\n']
        + pixel_stream(cells, width as int, cells.len() as int)
}

/// The text of the pixels of an image `width` pixels wide.
pub fn pixels_text(pixels: &Vec<u8>, width: u32) -> (chars: Vec<char>)
    requires
        width > 0 || pixels@.len() == 0,
    ensures
        chars@ == pixel_stream(pixels@, width as int, pixels@.len() as int),
{
    let mut chars: Vec<char> = Vec::new();
    let mut i: usize = 0;
    while i < pixels.len()
        invariant
            width > 0 || pixels@.len() == 0,
            i <= pixels.len(),
            chars@ == pixel_stream(pixels@, width as int, i as int),
        decreases pixels.len() - i,
    {
        let ghost before = chars@;
        let value: u8 = pixels[i];
        if value > 245 {
            chars.push(' ');
            chars.push('.');
            chars.push(' ');
            assert(chars@ =~= before + pixel_token(value));
        } else {
            let mut digits: Vec<char> = decimal_chars(value as u64);
            chars.append(&mut digits);
            assert(chars@ =~= before + pixel_token(value));
        }
        if i % (width as usize) == 0 {
            chars.push('\n');
        }
        i = i + 1;
        assert(chars@ =~= pixel_stream(pixels@, width as int, i as int));
    }
    chars
}

/// The text of an image: a line with its dimensions, then each pixel's
/// intensity in decimal, or `" . "` for a pixel brighter than 245, with a line
/// break behind the first pixel of each row.
pub fn image_text(img: &DynamicImage) -> (text: String)
    ensures
        text@ == image_text_spec(
            image_size(*img).0,
            image_size(*img).1,
            region_cells(
                *img,
                Region { x: 0, y: 0, width: image_size(*img).0, height: image_size(*img).1 },
            ),
        ),
{
    let (width, height) = dimensions(img);
    let whole = Region { x: 0, y: 0, width, height };
    let mut text: String = String::from_str("dimensions ");
    text.append(decimal_string(width as u64).as_str());
    text.append("x");
    text.append(decimal_string(height as u64).as_str());
    text.append("\n");
    proof {
        reveal_strlit("x");
        reveal_strlit("\n");
        assert("x"@ =~= seq!['x']);
        assert("\n"@ =~= seq!['\n']);
    }
    match region_pixels(img, &whole) {
        Some(pixels) => {
            proof {
                if width == 0 {
                    assert(height * width == 0) by (nonlinear_arith)
                        requires
                            width == 0,
                    ;
                }
            }
            let stream: String = join_chars(&pixels_text(&pixels, width));
            text.append(stream.as_str());
        },
        None => {},
    }
    text
}

} // verus!
