//! Cutting an image's coordinate space into a row-major grid of regions, and
//! reading a region's pixels.

use image::{DynamicImage, GenericImageView, Pixel};
use vstd::arithmetic::div_mod::{lemma_fundamental_div_mod, lemma_fundamental_div_mod_converse};
use vstd::arithmetic::mul::{
    lemma_mul_inequality, lemma_mul_is_commutative, lemma_mul_is_distributive_add,
};
use vstd::prelude::*;

verus! {

/// A rectangular window into an image's coordinate space. It owns no pixels.
#[derive(Clone, Copy, Debug, PartialEq, Eq, Structural)]
pub struct Region {
    pub x: u32,
    pub y: u32,
    pub width: u32,
    pub height: u32,
}

impl Region {
    /// The region lies inside an image of the given size and holds at least one pixel.
    pub open spec fn within(self, image_width: u32, image_height: u32) -> bool {
        &&& self.width > 0
        &&& self.height > 0
        &&& self.x + self.width <= image_width
        &&& self.y + self.height <= image_height
    }

    /// The pixel `(px, py)` of the image lies in the region.
    pub open spec fn covers(self, px: int, py: int) -> bool {
        &&& self.x <= px < self.x + self.width
        &&& self.y <= py < self.y + self.height
    }

    /// No pixel lies in both regions.
    pub open spec fn disjoint(self, other: Region) -> bool {
        ||| self.x + self.width <= other.x
        ||| other.x + other.width <= self.x
        ||| self.y + self.height <= other.y
        ||| other.y + other.height <= self.y
    }

    /// `self` comes before `other` when regions are read row by row, left to right.
    pub open spec fn precedes(self, other: Region) -> bool {
        self.y < other.y || (self.y == other.y && self.x < other.x)
    }
}

/// How many region origins lie along an axis of length `extent` when a region is
/// `step` long: one per full step, and one more for the remainder where partial
/// regions are kept.
pub open spec fn origin_count(extent: u32, step: u32, keep_partial: bool) -> int {
    if step == 0 {
        0
    } else if keep_partial && extent % step != 0 {
        extent / step + 1
    } else {
        (extent / step) as int
    }
}

/// The region whose origin is the `col`-th along x and the `row`-th along y,
/// cut off at the image's right and bottom edges.
pub open spec fn region_at(
    image_width: u32,
    image_height: u32,
    partition_width: u32,
    partition_height: u32,
    row: int,
    col: int,
) -> Region {
    let x = col * partition_width;
    let y = row * partition_height;
    Region {
        x: x as u32,
        y: y as u32,
        width: if image_width - x < partition_width {
            (image_width - x) as u32
        } else {
            partition_width
        },
        height: if image_height - y < partition_height {
            (image_height - y) as u32
        } else {
            partition_height
        },
    }
}

/// The regions of an image, in row-major order.
///
/// An image without pixels has no region. A partition at least as wide or as high
/// as the image gives the whole image as the one region. Otherwise the origins are
/// the multiples of the partition size; a region that would cross the right or
/// bottom edge is dropped, or cut off at the edge where `keep_partial` is set.
pub open spec fn partition_spec(
    image_width: u32,
    image_height: u32,
    partition_width: u32,
    partition_height: u32,
    keep_partial: bool,
) -> Seq<Region> {
    if image_width == 0 || image_height == 0 {
        Seq::empty()
    } else if partition_width >= image_width || partition_height >= image_height {
        seq![Region { x: 0, y: 0, width: image_width, height: image_height }]
    } else {
        let cols = origin_count(image_width, partition_width, keep_partial);
        let rows = origin_count(image_height, partition_height, keep_partial);
        Seq::new(
            (rows * cols) as nat,
            |k: int|
                region_at(
                    image_width,
                    image_height,
                    partition_width,
                    partition_height,
                    k / cols,
                    k % cols,
                ),
        )
    }
}

/// The executable count of origins along one axis.
fn count_origins(extent: u32, step: u32, keep_partial: bool) -> (count: u32)
    requires
        0 < step < extent,
    ensures
        count == origin_count(extent, step, keep_partial),
        count >= 1,
        forall|i: int| 0 <= i < count ==> #[trigger] (i * step) < extent,
{
    let full: u32 = extent / step;
    let rest: u32 = extent % step;
    proof {
        lemma_fundamental_div_mod(extent as int, step as int);
        lemma_mul_is_commutative(step as int, full as int);
        assert(full >= 1) by {
            if full == 0 {
                assert(step * 0 == 0);
            }
        }
        assert forall|i: int| 0 <= i < full implies #[trigger] (i * step) + step <= extent by {
            lemma_mul_inequality(i + 1, full as int, step as int);
            lemma_mul_is_distributive_add(step as int, i, 1);
            lemma_mul_is_commutative(step as int, i);
            lemma_mul_is_commutative(step as int, i + 1);
        }
    }
    if keep_partial && rest != 0 {
        proof {
            assert(full < extent) by {
                lemma_mul_inequality(1, step as int, full as int);
            }
        }
        full + 1
    } else {
        full
    }
}

/// Cuts an image of the given size into regions of the given partition size.
pub fn partition(
    image_width: u32,
    image_height: u32,
    partition_width: u32,
    partition_height: u32,
    keep_partial: bool,
) -> (regions: Vec<Region>)
    ensures
        regions@ == partition_spec(
            image_width,
            image_height,
            partition_width,
            partition_height,
            keep_partial,
        ),
{
    let mut regions: Vec<Region> = Vec::new();
    if image_width == 0 || image_height == 0 {
        return regions;
    }
    if partition_width >= image_width || partition_height >= image_height {
        regions.push(Region { x: 0, y: 0, width: image_width, height: image_height });
        return regions;
    }
    if partition_width == 0 || partition_height == 0 {
        proof {
            assert(origin_count(image_height, partition_height, keep_partial) * origin_count(
                image_width,
                partition_width,
                keep_partial,
            ) == 0) by (nonlinear_arith)
                requires
                    origin_count(image_height, partition_height, keep_partial) == 0
                        || origin_count(image_width, partition_width, keep_partial) == 0,
            ;
        }
        return regions;
    }
    let cols: u32 = count_origins(image_width, partition_width, keep_partial);
    let rows: u32 = count_origins(image_height, partition_height, keep_partial);
    let ghost expected = partition_spec(
        image_width,
        image_height,
        partition_width,
        partition_height,
        keep_partial,
    );
    let mut row: u32 = 0;
    while row < rows
        invariant
            0 < partition_width < image_width,
            0 < partition_height < image_height,
            cols == origin_count(image_width, partition_width, keep_partial),
            rows == origin_count(image_height, partition_height, keep_partial),
            cols >= 1,
            forall|i: int| 0 <= i < cols ==> #[trigger] (i * partition_width) < image_width,
            forall|i: int| 0 <= i < rows ==> #[trigger] (i * partition_height) < image_height,
            expected == partition_spec(
                image_width,
                image_height,
                partition_width,
                partition_height,
                keep_partial,
            ),
            row <= rows,
            regions@.len() == row * cols,
            regions@.len() <= expected.len(),
            regions@ == expected.take(regions@.len() as int),
        decreases rows - row,
    {
        let y: u32 = row * partition_height;
        let height: u32 = if image_height - y < partition_height {
            image_height - y
        } else {
            partition_height
        };
        let mut col: u32 = 0;
        while col < cols
            invariant
                0 < partition_width < image_width,
                0 < partition_height < image_height,
                cols == origin_count(image_width, partition_width, keep_partial),
                rows == origin_count(image_height, partition_height, keep_partial),
                forall|i: int| 0 <= i < cols ==> #[trigger] (i * partition_width) < image_width,
                expected == partition_spec(
                    image_width,
                    image_height,
                    partition_width,
                    partition_height,
                    keep_partial,
                ),
                row < rows,
                col <= cols,
                y == row * partition_height,
                y < image_height,
                height == region_at(
                    image_width,
                    image_height,
                    partition_width,
                    partition_height,
                    row as int,
                    0,
                ).height,
                regions@.len() == row * cols + col,
                regions@.len() <= expected.len(),
                regions@ == expected.take(regions@.len() as int),
            decreases cols - col,
        {
            let x: u32 = col * partition_width;
            let width: u32 = if image_width - x < partition_width {
                image_width - x
            } else {
                partition_width
            };
            let ghost k = row * cols + col;
            proof {
                lemma_grid_index(row as int, col as int, rows as int, cols as int);
                assert(expected[k] == region_at(
                    image_width,
                    image_height,
                    partition_width,
                    partition_height,
                    row as int,
                    col as int,
                ));
            }
            regions.push(Region { x, y, width, height });
            proof {
                assert(regions@ =~= expected.take(k + 1));
            }
            col = col + 1;
        }
        proof {
            assert(row * cols + cols == (row + 1) * cols) by (nonlinear_arith);
        }
        row = row + 1;
    }
    proof {
        assert(regions@ =~= expected);
    }
    regions
}

/// An image of the `image` crate. What the library reads of it are its size and
/// its pixels' intensities.
#[verifier::external_type_specification]
#[verifier::external_body]
pub struct ExDynamicImage(DynamicImage);

/// The width and the height of an image: what `GenericImageView::dimensions`
/// returns for it.
pub uninterp spec fn image_size(img: DynamicImage) -> (u32, u32);

/// The intensity of the pixel in column `x` and row `y` of an image: the first
/// channel of what `GenericImageView::get_pixel` returns for it. For a grayscale
/// image this is the pixel's luminance.
pub uninterp spec fn image_intensity(img: DynamicImage, x: u32, y: u32) -> u8;

/// Calls `GenericImageView::dimensions` on the image. The contract gives the
/// result its name and claims nothing else of it.
#[verifier::external_body]
pub(crate) fn dimensions(img: &DynamicImage) -> (size: (u32, u32))
    ensures
        size == image_size(*img),
{
    img.dimensions()
}

/// Calls `GenericImageView::get_pixel` on the image and takes the first channel
/// of the pixel. `get_pixel` panics outside the image, so the pixel must lie in
/// it. The contract gives the result its name and claims nothing else of it.
#[verifier::external_body]
fn intensity(img: &DynamicImage, x: u32, y: u32) -> (value: u8)
    requires
        x < image_size(*img).0,
        y < image_size(*img).1,
    ensures
        value == image_intensity(*img, x, y),
{
    img.get_pixel(x, y).channels()[0]
}

/// Cuts an image into regions of the given partition size, in row-major order.
pub fn img_partitions_from(
    img: &DynamicImage,
    partition_width: u32,
    partition_height: u32,
    keep_partial_partitions: bool,
) -> (regions: Vec<Region>)
    ensures
        regions@ == partition_spec(
            image_size(*img).0,
            image_size(*img).1,
            partition_width,
            partition_height,
            keep_partial_partitions,
        ),
{
    let (image_width, image_height) = dimensions(img);
    partition(image_width, image_height, partition_width, partition_height, keep_partial_partitions)
}

/// The intensities of the pixels of a region of an image, row after row.
pub open spec fn region_cells(img: DynamicImage, region: Region) -> Seq<u8> {
    Seq::new(
        (region.height * region.width) as nat,
        |i: int|
            image_intensity(
                img,
                (region.x + i % (region.width as int)) as u32,
                (region.y + i / (region.width as int)) as u32,
            ),
    )
}

/// Whether a region does not reach beyond the right or the bottom edge of an
/// image of the given size.
pub open spec fn fits(region: Region, size: (u32, u32)) -> bool {
    region.x + region.width <= size.0 && region.y + region.height <= size.1
}

/// The intensities of the pixels of a region of an image, row after row; `None`
/// where the region reaches beyond the image.
pub fn region_pixels(img: &DynamicImage, region: &Region) -> (result: Option<Vec<u8>>)
    ensures
        match result {
            Some(pixels) => fits(*region, image_size(*img)) && pixels@ == region_cells(
                *img,
                *region,
            ),
            None => !fits(*region, image_size(*img)),
        },
{
    let (image_width, image_height) = dimensions(img);
    if region.x > image_width || region.width > image_width - region.x || region.y > image_height
        || region.height > image_height - region.y {
        return None;
    }
    let ghost cells = region_cells(*img, *region);
    let mut pixels: Vec<u8> = Vec::new();
    let mut row: u32 = 0;
    while row < region.height
        invariant
            fits(*region, image_size(*img)),
            cells == region_cells(*img, *region),
            row <= region.height,
            pixels@.len() == row * region.width,
            pixels@ == cells.take(pixels@.len() as int),
        decreases region.height - row,
    {
        let mut col: u32 = 0;
        while col < region.width
            invariant
                fits(*region, image_size(*img)),
                cells == region_cells(*img, *region),
                row < region.height,
                col <= region.width,
                pixels@.len() == row * region.width + col,
                pixels@ == cells.take(pixels@.len() as int),
            decreases region.width - col,
        {
            proof {
                lemma_grid_index(
                    row as int,
                    col as int,
                    region.height as int,
                    region.width as int,
                );
            }
            let value: u8 = intensity(img, region.x + col, region.y + row);
            pixels.push(value);
            proof {
                assert(pixels@ =~= cells.take(row * region.width + col + 1));
            }
            col = col + 1;
        }
        proof {
            assert(row * region.width + region.width == (row + 1) * region.width)
                by (nonlinear_arith);
        }
        row = row + 1;
    }
    proof {
        assert(pixels@ =~= cells);
    }
    Some(pixels)
}

/// Row `row` and column `col` of a grid with `cols` columns stand at index
/// `row * cols + col`, and the index gives both back.
pub proof fn lemma_grid_index(row: int, col: int, rows: int, cols: int)
    requires
        0 <= row < rows,
        0 <= col < cols,
    ensures
        0 <= row * cols + col < rows * cols,
        (row * cols + col) / cols == row,
        (row * cols + col) % cols == col,
{
    lemma_fundamental_div_mod_converse(row * cols + col, cols, row, col);
    assert(row * cols + col < rows * cols) by (nonlinear_arith)
        requires
            0 <= row < rows,
            0 <= col < cols,
    ;
    assert(0 <= row * cols) by (nonlinear_arith)
        requires
            0 <= row,
            0 < cols,
    ;
}

/// An index into a grid of `rows * cols` cells splits into a row and a column.
pub proof fn lemma_grid_cell(k: int, rows: int, cols: int)
    requires
        0 <= k < rows * cols,
        0 < cols,
    ensures
        0 <= k / cols < rows,
        0 <= k % cols < cols,
        k == (k / cols) * cols + k % cols,
{
    lemma_fundamental_div_mod(k, cols);
    lemma_mul_is_commutative(cols, k / cols);
    let row = k / cols;
    assert(0 <= row < rows) by (nonlinear_arith)
        requires
            0 <= k < rows * cols,
            0 < cols,
            k == row * cols + k % cols,
            0 <= k % cols < cols,
    ;
}

/// Of two cells of a grid, the one with the smaller index stands in an earlier
/// row, or in the same row and an earlier column.
pub proof fn lemma_grid_order(i: int, j: int, rows: int, cols: int)
    requires
        0 <= i < j < rows * cols,
        0 < cols,
    ensures
        i / cols < j / cols || (i / cols == j / cols && i % cols < j % cols),
{
    lemma_grid_cell(i, rows, cols);
    lemma_grid_cell(j, rows, cols);
    let (ri, rj) = (i / cols, j / cols);
    if ri > rj {
        assert(ri * cols >= (rj + 1) * cols) by (nonlinear_arith)
            requires
                ri >= rj + 1,
                0 < cols,
        ;
        assert((rj + 1) * cols == rj * cols + cols) by (nonlinear_arith);
    }
}

/// Where the grid is cut, every origin lies inside the image, and without
/// partial regions a full partition fits behind it.
pub proof fn lemma_origin_bounds(extent: u32, step: u32, keep_partial: bool, i: int)
    requires
        0 < step,
        0 <= i < origin_count(extent, step, keep_partial),
    ensures
        0 <= i * step < extent,
        !keep_partial ==> i * step + step <= extent,
{
    let full = (extent / step) as int;
    lemma_fundamental_div_mod(extent as int, step as int);
    lemma_mul_is_commutative(step as int, full);
    assert(0 <= i * step) by (nonlinear_arith)
        requires
            0 <= i,
            0 < step,
    ;
    if i < full {
        assert(i * step + step <= full * step) by (nonlinear_arith)
            requires
                0 <= i < full,
                0 < step,
        ;
    } else {
        assert(i == full && keep_partial && extent % step != 0);
    }
}

/// Every region of a partition holds at least one pixel and lies inside the image.
pub proof fn lemma_partition_within(
    image_width: u32,
    image_height: u32,
    partition_width: u32,
    partition_height: u32,
    keep_partial: bool,
)
    ensures
        forall|i: int|
            0 <= i < partition_spec(
                image_width,
                image_height,
                partition_width,
                partition_height,
                keep_partial,
            ).len() ==> (#[trigger] partition_spec(
                image_width,
                image_height,
                partition_width,
                partition_height,
                keep_partial,
            )[i]).within(image_width, image_height),
{
    let regions = partition_spec(
        image_width,
        image_height,
        partition_width,
        partition_height,
        keep_partial,
    );
    let cols = origin_count(image_width, partition_width, keep_partial);
    let rows = origin_count(image_height, partition_height, keep_partial);
    assert forall|i: int| 0 <= i < regions.len() implies (#[trigger] regions[i]).within(
        image_width,
        image_height,
    ) by {
        if image_width != 0 && image_height != 0 && partition_width < image_width
            && partition_height < image_height {
            lemma_grid_shape(rows, cols);
            lemma_grid_cell(i, rows, cols);
            lemma_origin_bounds(image_width, partition_width, keep_partial, i % cols);
            lemma_origin_bounds(image_height, partition_height, keep_partial, i / cols);
        }
    }
}

/// A grid with a cell has rows and columns.
proof fn lemma_grid_shape(rows: int, cols: int)
    requires
        0 <= rows,
        0 <= cols,
    ensures
        rows * cols > 0 ==> rows > 0 && cols > 0,
        rows * cols >= 0,
{
    assert(rows * cols >= 0) by (nonlinear_arith)
        requires
            0 <= rows,
            0 <= cols,
    ;
    if rows == 0 || cols == 0 {
        assert(rows * cols == 0) by (nonlinear_arith)
            requires
                rows == 0 || cols == 0,
        ;
    }
}

/// Without partial regions, a whole partition fits into the image behind every
/// region's origin. This is stated for the images that have no pixel and for
/// the partitions that are no larger than the image: a larger partition gives the
/// whole image as its one region.
pub proof fn lemma_partition_full_size(
    image_width: u32,
    image_height: u32,
    partition_width: u32,
    partition_height: u32,
)
    requires
        image_width == 0 || image_height == 0 || (partition_width <= image_width
            && partition_height <= image_height),
    ensures
        forall|i: int|
            0 <= i < partition_spec(
                image_width,
                image_height,
                partition_width,
                partition_height,
                false,
            ).len() ==> {
                let r = #[trigger] partition_spec(
                    image_width,
                    image_height,
                    partition_width,
                    partition_height,
                    false,
                )[i];
                &&& r.x + partition_width <= image_width
                &&& r.y + partition_height <= image_height
            },
{
    let regions = partition_spec(
        image_width,
        image_height,
        partition_width,
        partition_height,
        false,
    );
    let cols = origin_count(image_width, partition_width, false);
    let rows = origin_count(image_height, partition_height, false);
    assert forall|i: int| 0 <= i < regions.len() implies {
        let r = #[trigger] regions[i];
        &&& r.x + partition_width <= image_width
        &&& r.y + partition_height <= image_height
    } by {
        if image_width != 0 && image_height != 0 && partition_width < image_width
            && partition_height < image_height {
            lemma_grid_shape(rows, cols);
            lemma_grid_cell(i, rows, cols);
            lemma_origin_bounds(image_width, partition_width, false, i % cols);
            lemma_origin_bounds(image_height, partition_height, false, i / cols);
        }
    }
}

/// The regions of a partition come in row-major order, and no two of them share
/// a pixel.
pub proof fn lemma_partition_row_major_disjoint(
    image_width: u32,
    image_height: u32,
    partition_width: u32,
    partition_height: u32,
    keep_partial: bool,
    i: int,
    j: int,
)
    requires
        0 <= i < j < partition_spec(
            image_width,
            image_height,
            partition_width,
            partition_height,
            keep_partial,
        ).len(),
    ensures
        ({
            let regions = partition_spec(
                image_width,
                image_height,
                partition_width,
                partition_height,
                keep_partial,
            );
            &&& regions[i].precedes(regions[j])
            &&& regions[i].disjoint(regions[j])
        }),
{
    let cols = origin_count(image_width, partition_width, keep_partial);
    let rows = origin_count(image_height, partition_height, keep_partial);
    lemma_grid_shape(rows, cols);
    lemma_grid_cell(i, rows, cols);
    lemma_grid_cell(j, rows, cols);
    lemma_grid_order(i, j, rows, cols);
    lemma_origin_bounds(image_width, partition_width, keep_partial, i % cols);
    lemma_origin_bounds(image_height, partition_height, keep_partial, i / cols);
    lemma_origin_bounds(image_width, partition_width, keep_partial, j % cols);
    lemma_origin_bounds(image_height, partition_height, keep_partial, j / cols);
    let (ri, ci, rj, cj) = (i / cols, i % cols, j / cols, j % cols);
    if ri < rj {
        assert(ri * partition_height + partition_height <= rj * partition_height)
            by (nonlinear_arith)
            requires
                ri < rj,
                0 < partition_height,
        ;
    } else {
        assert(ci * partition_width + partition_width <= cj * partition_width)
            by (nonlinear_arith)
            requires
                ci < cj,
                0 < partition_width,
        ;
    }
}

/// A partition at least as wide or as high as an image with pixels gives exactly
/// one region: the whole image.
pub proof fn lemma_partition_whole_image(
    image_width: u32,
    image_height: u32,
    partition_width: u32,
    partition_height: u32,
    keep_partial: bool,
)
    requires
        image_width > 0,
        image_height > 0,
        partition_width >= image_width || partition_height >= image_height,
    ensures
        partition_spec(image_width, image_height, partition_width, partition_height, keep_partial)
            == seq![Region { x: 0, y: 0, width: image_width, height: image_height }],
{
}

/// Which pixels a grid of regions covers: all of them where partial regions are
/// kept, and otherwise those of the aligned interior, which ends with the last
/// full partition in each direction.
pub proof fn lemma_partition_coverage(
    image_width: u32,
    image_height: u32,
    partition_width: u32,
    partition_height: u32,
    keep_partial: bool,
    px: int,
    py: int,
)
    requires
        0 < partition_width < image_width,
        0 < partition_height < image_height,
        0 <= px < image_width,
        0 <= py < image_height,
    ensures
        (exists|i: int|
            0 <= i < partition_spec(
                image_width,
                image_height,
                partition_width,
                partition_height,
                keep_partial,
            ).len() && (#[trigger] partition_spec(
                image_width,
                image_height,
                partition_width,
                partition_height,
                keep_partial,
            )[i]).covers(px, py)) <==> (keep_partial || (px < (image_width / partition_width)
            * partition_width && py < (image_height / partition_height) * partition_height)),
{
    let regions = partition_spec(
        image_width,
        image_height,
        partition_width,
        partition_height,
        keep_partial,
    );
    let cols = origin_count(image_width, partition_width, keep_partial);
    let rows = origin_count(image_height, partition_height, keep_partial);
    let (pw, ph) = (partition_width as int, partition_height as int);
    let (col, row) = (px / pw, py / ph);
    lemma_fundamental_div_mod(px, pw);
    lemma_fundamental_div_mod(py, ph);
    lemma_fundamental_div_mod(image_width as int, pw);
    lemma_fundamental_div_mod(image_height as int, ph);
    lemma_mul_is_commutative(pw, col);
    lemma_mul_is_commutative(ph, row);
    lemma_mul_is_commutative(pw, image_width as int / pw);
    lemma_mul_is_commutative(ph, image_height as int / ph);
    let inside = keep_partial || (px < (image_width / partition_width) * partition_width && py < (
    image_height / partition_height) * partition_height);
    lemma_axis_cell(image_width, partition_width, keep_partial, px);
    lemma_axis_cell(image_height, partition_height, keep_partial, py);
    if inside {
        assert(0 <= col < cols);
        assert(0 <= row < rows);
        lemma_grid_index(row, col, rows, cols);
        let k = row * cols + col;
        assert(regions[k] == region_at(
            image_width,
            image_height,
            partition_width,
            partition_height,
            row,
            col,
        ));
        assert(regions[k].covers(px, py));
    } else {
        assert forall|i: int| 0 <= i < regions.len() implies !(#[trigger] regions[i]).covers(
            px,
            py,
        ) by {
            lemma_grid_shape(rows, cols);
            lemma_grid_cell(i, rows, cols);
            lemma_origin_bounds(image_width, partition_width, keep_partial, i % cols);
            lemma_origin_bounds(image_height, partition_height, keep_partial, i / cols);
            if regions[i].covers(px, py) {
                lemma_fundamental_div_mod_converse(px, pw, i % cols, px - (i % cols) * pw);
                lemma_fundamental_div_mod_converse(py, ph, i / cols, py - (i / cols) * ph);
            }
        }
    }
}

/// Along one axis, the position `p` falls behind the `p / step`-th origin, and
/// that origin is one of the grid's where partial regions are kept or `p` lies
/// before the end of the last full step.
proof fn lemma_axis_cell(extent: u32, step: u32, keep_partial: bool, p: int)
    requires
        0 < step,
        0 <= p < extent,
    ensures
        0 <= p / (step as int),
        (keep_partial || p < (extent / step) * step) <==> p / (step as int) < origin_count(
            extent,
            step,
            keep_partial,
        ),
{
    let s = step as int;
    let full = (extent / step) as int;
    let cell = p / s;
    lemma_fundamental_div_mod(p, s);
    lemma_fundamental_div_mod(extent as int, s);
    lemma_mul_is_commutative(s, cell);
    lemma_mul_is_commutative(s, full);
    assert(0 <= cell) by (nonlinear_arith)
        requires
            0 <= p,
            0 < s,
            p == cell * s + p % s,
            0 <= p % s < s,
    ;
    if cell < full {
        assert(cell * s + s <= full * s) by (nonlinear_arith)
            requires
                cell < full,
                0 < s,
        ;
    } else {
        assert(cell * s >= full * s) by (nonlinear_arith)
            requires
                cell >= full,
                0 < s,
        ;
        if cell > full {
            assert(cell * s >= full * s + s) by (nonlinear_arith)
                requires
                    cell >= full + 1,
                    0 < s,
            ;
        }
    }
}

} // verus!
