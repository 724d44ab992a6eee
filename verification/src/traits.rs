//! Reading a row-major buffer of intensities as points.

use crate::image_utils::lemma_grid_index;
use crate::points::Points;
use crate::text::{decimal, decimal_string};
use vstd::arithmetic::div_mod::{lemma_fundamental_div_mod, lemma_fundamental_div_mod_converse};
use vstd::arithmetic::mul::lemma_mul_is_commutative;
use vstd::prelude::*;

verus! {

/// Why a buffer was not read as points.
#[derive(Debug, PartialEq, Eq, Structural)]
pub enum Error {
    /// The buffer has no rows of this size whose coordinates fit in 16 bits.
    RowSize(usize),
}

impl Error {
    /// What the error says: the sentence with the row size in decimal.
    pub open spec fn message(self) -> Seq<char> {
        match self {
            Error::RowSize(size) => "Invalid Row Size: "@ + decimal(size as nat),
        }
    }

    /// What the error says.
    pub fn to_string(&self) -> (text: String)
        ensures
            text@ == self.message(),
    {
        match self {
            Error::RowSize(size) => {
                let mut text: String = String::from_str("Invalid Row Size: ");
                text.append(decimal_string(*size as u64).as_str());
                text
            },
        }
    }

    /// What kind of error it is.
    pub fn description(&self) -> (text: &'static str)
        ensures
            text@ == "Invalid Row Size"@,
    {
        match self {
            Error::RowSize(_) => "Invalid Row Size",
        }
    }
}

/// The largest coordinate of a point, and so the largest width and height of a
/// buffer that is read as points.
pub const MAX_EXTENT: usize = 0xffff;

/// A buffer of `len` cells can be read in rows of `row_size` cells: the rows are
/// not empty, the buffer ends with a row, and neither the row size nor the
/// number of rows is above 65535.
pub open spec fn valid_row_size(len: nat, row_size: usize) -> bool {
    &&& 0 < row_size <= MAX_EXTENT
    &&& len % (row_size as nat) == 0
    &&& len / (row_size as nat) <= MAX_EXTENT
}

/// The `i`-th cell of a buffer in rows of `row_size` cells: its column, its row
/// and its intensity.
pub open spec fn cell_at(cells: Seq<u8>, row_size: usize, i: int) -> (u16, u16, u16) {
    ((i % (row_size as int)) as u16, (i / (row_size as int)) as u16, cells[i] as u16)
}

/// The cells of a buffer in rows of `row_size` cells, in row-major order.
pub open spec fn cells_of(cells: Seq<u8>, row_size: usize) -> Seq<(u16, u16, u16)> {
    Seq::new(cells.len(), |i: int| cell_at(cells, row_size, i))
}

/// The rule that tells foreground from background by a cell's intensity.
#[derive(Clone, Copy, Debug, PartialEq, Eq, Structural)]
pub enum Foreground {
    /// Foreground is what is darker than the threshold: ink on a light image.
    Below(u8),
    /// Foreground is what is brighter than the threshold: the coverage of a glyph.
    Above(u8),
}

/// The intensity below which a pixel of an image counts as ink.
pub const INK_THRESHOLD: u8 = 245;

/// The intensity above which a cell of a glyph's bitmap counts as covered.
pub const COVERAGE_THRESHOLD: u8 = 100;

impl Foreground {
    /// Whether a cell of the given intensity is foreground.
    pub open spec fn holds(self, intensity: u8) -> bool {
        match self {
            Foreground::Below(threshold) => intensity < threshold,
            Foreground::Above(threshold) => intensity > threshold,
        }
    }

    /// Whether a cell of the given intensity is foreground.
    pub fn test(&self, intensity: u8) -> (foreground: bool)
        ensures
            foreground == self.holds(intensity),
    {
        match self {
            Foreground::Below(threshold) => intensity < *threshold,
            Foreground::Above(threshold) => intensity > *threshold,
        }
    }
}

/// The foreground points of a buffer in rows of `row_size` cells: the column and
/// row of every cell whose intensity the rule takes for foreground.
pub open spec fn foreground_points(cells: Seq<u8>, row_size: usize, rule: Foreground) -> Set<
    (u16, u16),
> {
    Set::new(
        |point: (u16, u16)|
            point.0 < row_size && point.1 * row_size + point.0 < cells.len() && rule.holds(
                cells[point.1 * row_size + point.0],
            ),
    )
}

/// Something that can be read as a row-major buffer of intensities.
pub trait Pointify {
    /// The intensities, row after row.
    spec fn intensities(&self) -> Seq<u8>;

    /// The cells of the buffer as `(column, row, intensity)`, in row-major order.
    ///
    /// Fails with the row size where the buffer cannot be read in such rows.
    fn to_points(&self, row_size: usize) -> (result: Result<Vec<(u16, u16, u16)>, Error>)
        ensures
            match result {
                Ok(points) => valid_row_size(self.intensities().len(), row_size) && points@
                    == cells_of(self.intensities(), row_size),
                Err(Error::RowSize(size)) => !valid_row_size(self.intensities().len(), row_size)
                    && size == row_size,
            },
    ;
}

/// The number of rows of a buffer of `len` cells in rows of `row_size` cells,
/// or the error where it cannot be read so.
fn row_count(len: usize, row_size: usize) -> (result: Result<usize, Error>)
    ensures
        match result {
            Ok(rows) => valid_row_size(len as nat, row_size) && rows * row_size == len && rows
                <= MAX_EXTENT,
            Err(Error::RowSize(size)) => !valid_row_size(len as nat, row_size) && size
                == row_size,
        },
{
    if row_size == 0 || row_size > MAX_EXTENT || len % row_size != 0 {
        return Err(Error::RowSize(row_size));
    }
    let rows: usize = len / row_size;
    if rows > MAX_EXTENT {
        return Err(Error::RowSize(row_size));
    }
    proof {
        lemma_fundamental_div_mod(len as int, row_size as int);
        lemma_mul_is_commutative(rows as int, row_size as int);
    }
    Ok(rows)
}

impl Pointify for Vec<u8> {
    open spec fn intensities(&self) -> Seq<u8> {
        self@
    }

    fn to_points(&self, row_size: usize) -> (result: Result<Vec<(u16, u16, u16)>, Error>) {
        let rows: usize = match row_count(self.len(), row_size) {
            Ok(rows) => rows,
            Err(error) => {
                return Err(error);
            },
        };
        let mut points: Vec<(u16, u16, u16)> = Vec::new();
        let mut i: usize = 0;
        let mut y: usize = 0;
        while y < rows
            invariant
                0 < row_size <= MAX_EXTENT,
                rows <= MAX_EXTENT,
                rows * row_size == self@.len(),
                self@.len() <= usize::MAX,
                y <= rows,
                i == y * row_size,
                points@ == cells_of(self@, row_size).take(i as int),
            decreases rows - y,
        {
            let mut x: usize = 0;
            while x < row_size
                invariant
                    0 < row_size <= MAX_EXTENT,
                    rows <= MAX_EXTENT,
                    rows * row_size == self@.len(),
                    self@.len() <= usize::MAX,
                    y < rows,
                    x <= row_size,
                    i == y * row_size + x,
                    points@ == cells_of(self@, row_size).take(i as int),
                decreases row_size - x,
            {
                proof {
                    lemma_grid_index(y as int, x as int, rows as int, row_size as int);
                }
                points.push((x as u16, y as u16, self[i] as u16));
                proof {
                    assert(points@ =~= cells_of(self@, row_size).take(i + 1));
                }
                x = x + 1;
                i = i + 1;
            }
            proof {
                assert(y * row_size + row_size == (y + 1) * row_size) by (nonlinear_arith);
            }
            y = y + 1;
        }
        proof {
            assert(points@ =~= cells_of(self@, row_size));
        }
        Ok(points)
    }
}

/// The foreground points of a buffer of intensities in rows of `row_size` cells.
///
/// Fails with the row size where the buffer cannot be read in such rows. A
/// buffer without foreground gives the empty set.
pub fn extract_foreground(buffer: &Vec<u8>, row_size: usize, rule: Foreground) -> (result: Result<
    Points,
    Error,
>)
    ensures
        match result {
            Ok(points) => valid_row_size(buffer@.len(), row_size) && points@ == foreground_points(
                buffer@,
                row_size,
                rule,
            ),
            Err(Error::RowSize(size)) => !valid_row_size(buffer@.len(), row_size) && size
                == row_size,
        },
{
    let rows: usize = match row_count(buffer.len(), row_size) {
        Ok(rows) => rows,
        Err(error) => {
            return Err(error);
        },
    };
    let mut points = Points::new();
    let mut i: usize = 0;
    let mut y: usize = 0;
    while y < rows
        invariant
            0 < row_size <= MAX_EXTENT,
            rows <= MAX_EXTENT,
            rows * row_size == buffer@.len(),
            buffer@.len() <= usize::MAX,
            y <= rows,
            i == y * row_size,
            points@ == foreground_points(buffer@.take(i as int), row_size, rule),
        decreases rows - y,
    {
        let mut x: usize = 0;
        while x < row_size
            invariant
                0 < row_size <= MAX_EXTENT,
                rows <= MAX_EXTENT,
                rows * row_size == buffer@.len(),
                buffer@.len() <= usize::MAX,
                y < rows,
                x <= row_size,
                i == y * row_size + x,
                points@ == foreground_points(buffer@.take(i as int), row_size, rule),
            decreases row_size - x,
        {
            proof {
                lemma_grid_index(y as int, x as int, rows as int, row_size as int);
                lemma_foreground_step(buffer@, row_size, rule, i as int);
            }
            if rule.test(buffer[i]) {
                points.insert((x as u16, y as u16));
            }
            x = x + 1;
            i = i + 1;
        }
        proof {
            assert(y * row_size + row_size == (y + 1) * row_size) by (nonlinear_arith);
        }
        y = y + 1;
    }
    proof {
        assert(buffer@.take(i as int) =~= buffer@);
    }
    Ok(points)
}

/// Reading one more cell of a buffer adds its point to the foreground points if
/// the cell is foreground, and leaves them unchanged if not.
proof fn lemma_foreground_step(cells: Seq<u8>, row_size: usize, rule: Foreground, i: int)
    requires
        0 < row_size <= MAX_EXTENT,
        0 <= i < cells.len(),
        i / (row_size as int) <= MAX_EXTENT,
    ensures
        foreground_points(cells.take(i + 1), row_size, rule) == if rule.holds(cells[i]) {
            foreground_points(cells.take(i), row_size, rule).insert(
                ((i % (row_size as int)) as u16, (i / (row_size as int)) as u16),
            )
        } else {
            foreground_points(cells.take(i), row_size, rule)
        },
{
    let w = row_size as int;
    let before = foreground_points(cells.take(i), row_size, rule);
    let after = foreground_points(cells.take(i + 1), row_size, rule);
    let here = ((i % w) as u16, (i / w) as u16);
    lemma_fundamental_div_mod(i, w);
    lemma_mul_is_commutative(w, i / w);
    assert(0 <= i / w) by (nonlinear_arith)
        requires
            0 <= i,
            0 < w,
            i == (i / w) * w + i % w,
            0 <= i % w < w,
    ;
    assert forall|point: (u16, u16)| point.0 < w && point.1 * w + point.0 == i implies point
        == here by {
        lemma_fundamental_div_mod_converse(i, w, point.1 as int, point.0 as int);
    }
    assert(here.1 * w + here.0 == i);
    if rule.holds(cells[i]) {
        assert(after =~= before.insert(here));
    } else {
        assert(after =~= before);
    }
}

} // verus!
