//! Matching a region of an image to the glyph whose shape is most similar to it.

use crate::image_utils::{
    dimensions, fits, image_size, img_partitions_from, partition_spec, region_cells,
    region_pixels, Region,
};
use crate::points::Points;
use crate::similarity::hamming::lemma_hamming_self;
use crate::similarity::hausdorff::{
    directed_hausdorff_squared, lemma_directed_hausdorff_subset, lemma_directed_hausdorff_unique,
};
use crate::similarity::{score, score_spec, SimilarityMetric};
use crate::traits::{
    extract_foreground, foreground_points, valid_row_size, Foreground, COVERAGE_THRESHOLD,
    INK_THRESHOLD,
};
use crate::visualize::{grid_lines, grid_spec, lines_text, row_length, PLACEHOLDER};
use image::DynamicImage;
use vstd::prelude::*;

verus! {

/// A candidate for a region: a character and its bitmap, rasterized at the size
/// of the region. The bitmap holds one coverage value per cell, row after row, in
/// rows of `width` cells.
#[derive(Debug)]
pub struct Glyph {
    pub character: char,
    pub width: usize,
    pub bitmap: Vec<u8>,
}

/// Why a region was not matched to a character.
#[derive(Debug, PartialEq, Eq, Structural)]
pub enum Error {
    /// The region does not lie in the image, is without pixels, or is wider or
    /// higher than 65535 pixels.
    InvalidDimensions,
    /// No candidate has a score against the region.
    NoCandidateMatched,
}

impl Error {
    /// What the error says.
    pub open spec fn message(self) -> Seq<char> {
        match self {
            Error::InvalidDimensions => "invalid region dimensions"@,
            Error::NoCandidateMatched => "unable to find minimum"@,
        }
    }

    /// What the error says.
    pub fn to_string(&self) -> (text: String)
        ensures
            text@ == self.message(),
    {
        match self {
            Error::InvalidDimensions => String::from_str("invalid region dimensions"),
            Error::NoCandidateMatched => String::from_str("unable to find minimum"),
        }
    }
}

/// The covered points of a glyph, or `None` where its bitmap cannot be read in
/// rows of its width.
pub open spec fn glyph_points(glyph: Glyph, coverage: Foreground) -> Option<Set<(u16, u16)>> {
    if valid_row_size(glyph.bitmap@.len(), glyph.width) {
        Some(foreground_points(glyph.bitmap@, glyph.width, coverage))
    } else {
        None
    }
}

/// The score of a glyph against the points of a region, or `None` where the
/// glyph is left out: its bitmap cannot be read, or the metric gives no score.
pub open spec fn candidate_score(
    region: Set<(u16, u16)>,
    glyph: Glyph,
    coverage: Foreground,
    metric: SimilarityMetric,
) -> Option<u64> {
    match glyph_points(glyph, coverage) {
        Some(points) => match score_spec(metric, region, points) {
            Ok(value) => Some(value),
            Err(_) => None,
        },
        None => None,
    }
}

/// The scores of the candidates against the points of a region, one by one.
pub open spec fn candidate_scores(
    region: Set<(u16, u16)>,
    glyphs: Seq<Glyph>,
    coverage: Foreground,
    metric: SimilarityMetric,
) -> Seq<Option<u64>> {
    Seq::new(glyphs.len(), |i: int| candidate_score(region, glyphs[i], coverage, metric))
}

/// The `i`-th score is the smallest, and the first of those that are as small.
pub open spec fn is_first_minimum(scores: Seq<Option<u64>>, i: int) -> bool {
    &&& 0 <= i < scores.len()
    &&& scores[i] is Some
    &&& forall|j: int|
        0 <= j < scores.len() && (#[trigger] scores[j]) is Some ==> scores[i]->0 < scores[j]->0
            || (scores[i]->0 == scores[j]->0 && i <= j)
}

/// The place of the smallest score, and of the first where several are as
/// small; `None` where there is no score at all.
pub open spec fn first_minimum(scores: Seq<Option<u64>>) -> Option<int> {
    if exists|i: int| is_first_minimum(scores, i) {
        Some(choose|i: int| is_first_minimum(scores, i))
    } else {
        None
    }
}

/// The character that the points of a region are matched to: that of the
/// candidate with the smallest score, and of the first where several score as
/// little.
pub open spec fn match_spec(
    region: Set<(u16, u16)>,
    glyphs: Seq<Glyph>,
    coverage: Foreground,
    metric: SimilarityMetric,
) -> Result<char, Error> {
    match first_minimum(candidate_scores(region, glyphs, coverage, metric)) {
        Some(i) => Ok(glyphs[i].character),
        None => Err(Error::NoCandidateMatched),
    }
}

/// At most one score is the first minimum.
pub proof fn lemma_first_minimum_unique(scores: Seq<Option<u64>>, i: int, j: int)
    requires
        is_first_minimum(scores, i),
        is_first_minimum(scores, j),
    ensures
        i == j,
{
}

/// The first minimum is the one place of which `is_first_minimum` holds, and
/// there is none just where no candidate has a score.
pub proof fn lemma_first_minimum(scores: Seq<Option<u64>>)
    ensures
        forall|i: int| first_minimum(scores) == Some(i) <==> is_first_minimum(scores, i),
        first_minimum(scores) is None <==> forall|j: int|
            0 <= j < scores.len() ==> (#[trigger] scores[j]) is None,
    decreases scores.len(),
{
    assert forall|i: int| first_minimum(scores) == Some(i) <==> is_first_minimum(scores, i) by {
        if is_first_minimum(scores, i) {
            let k = choose|k: int| is_first_minimum(scores, k);
            lemma_first_minimum_unique(scores, i, k);
        }
    }
    if forall|j: int| 0 <= j < scores.len() ==> (#[trigger] scores[j]) is None {
        assert(first_minimum(scores) is None);
    } else {
        lemma_some_first_minimum(scores);
    }
}

/// Where some candidate has a score, one of them is the first minimum.
proof fn lemma_some_first_minimum(scores: Seq<Option<u64>>)
    requires
        exists|j: int| 0 <= j < scores.len() && (#[trigger] scores[j]) is Some,
    ensures
        exists|i: int| is_first_minimum(scores, i),
    decreases scores.len(),
{
    let shorter = scores.drop_last();
    let last = scores.len() - 1;
    if exists|j: int| 0 <= j < shorter.len() && (#[trigger] shorter[j]) is Some {
        lemma_some_first_minimum(shorter);
        let k = choose|k: int| is_first_minimum(shorter, k);
        if scores[last] is Some && scores[last]->0 < scores[k]->0 {
            assert forall|j: int| 0 <= j < scores.len() && (#[trigger] scores[j]) is Some implies (
            scores[last]->0 < scores[j]->0 || (scores[last]->0 == scores[j]->0 && last <= j)) by {
                if j < last {
                    assert(shorter[j] is Some);
                }
            }
            assert(is_first_minimum(scores, last));
        } else {
            assert forall|j: int| 0 <= j < scores.len() && (#[trigger] scores[j]) is Some implies (
            scores[k]->0 < scores[j]->0 || (scores[k]->0 == scores[j]->0 && k <= j)) by {
                if j < last {
                    assert(shorter[j] is Some);
                }
            }
            assert(is_first_minimum(scores, k));
        }
    } else {
        let j = choose|j: int| 0 <= j < scores.len() && (#[trigger] scores[j]) is Some;
        if j < last {
            assert(shorter[j] is Some);
        }
        assert forall|j: int| 0 <= j < scores.len() && (#[trigger] scores[j]) is Some implies (
        scores[last]->0 < scores[j]->0 || (scores[last]->0 == scores[j]->0 && last <= j)) by {
            if j < last {
                assert(shorter[j] is Some);
            }
        }
        assert(is_first_minimum(scores, last));
    }
}

/// Matches the points of a region to a character: each candidate's covered
/// points are scored against the region's under the metric, and the smallest
/// score wins; of several as small, the first.
///
/// A candidate whose bitmap cannot be read in rows of its width, or for which
/// the metric gives no score, is left out. The match fails where every
/// candidate is left out.
pub fn match_points(
    region_points: &Points,
    glyphs: &Vec<Glyph>,
    coverage: Foreground,
    metric: SimilarityMetric,
) -> (result: Result<char, Error>)
    ensures
        result == match_spec(region_points@, glyphs@, coverage, metric),
{
    let ghost scores = candidate_scores(region_points@, glyphs@, coverage, metric);
    let mut best: Option<(char, u64)> = None;
    let ghost mut best_at: int = 0;
    let mut i: usize = 0;
    while i < glyphs.len()
        invariant
            i <= glyphs.len(),
            scores == candidate_scores(region_points@, glyphs@, coverage, metric),
            match best {
                Some((character, value)) => is_first_minimum(scores.take(i as int), best_at)
                    && scores[best_at] == Some(value) && glyphs@[best_at].character == character,
                None => forall|j: int| 0 <= j < i ==> (#[trigger] scores[j]) is None,
            },
        decreases glyphs.len() - i,
    {
        let glyph = &glyphs[i];
        let ghost shorter = scores.take(i as int);
        let ghost longer = scores.take(i + 1);
        let mut candidate: Option<u64> = None;
        match extract_foreground(&glyph.bitmap, glyph.width, coverage) {
            Ok(points) => match score(metric, region_points, &points) {
                Ok(value) => {
                    candidate = Some(value);
                },
                Err(_) => {},
            },
            Err(_) => {},
        }
        assert(candidate == scores[i as int]);
        match candidate {
            Some(value) => {
                let better: bool = match best {
                    Some((_, least)) => value < least,
                    None => true,
                };
                if better {
                    proof {
                        assert forall|j: int|
                            0 <= j < longer.len() && (#[trigger] longer[j]) is Some implies (
                        longer[i as int]->0 < longer[j]->0 || (longer[i as int]->0 == longer[j]->0
                            && i <= j)) by {
                            if j < i {
                                assert(shorter[j] is Some);
                                assert(scores[j] is Some);
                            }
                        }
                        best_at = i as int;
                    }
                    best = Some((glyph.character, value));
                } else {
                    proof {
                        assert forall|j: int|
                            0 <= j < longer.len() && (#[trigger] longer[j]) is Some implies (
                        longer[best_at]->0 < longer[j]->0 || (longer[best_at]->0 == longer[j]->0
                            && best_at <= j)) by {
                            if j < i {
                                assert(shorter[j] is Some);
                            }
                        }
                    }
                }
            },
            None => {
                proof {
                    if best is Some {
                        assert forall|j: int|
                            0 <= j < longer.len() && (#[trigger] longer[j]) is Some implies (
                        longer[best_at]->0 < longer[j]->0 || (longer[best_at]->0 == longer[j]->0
                            && best_at <= j)) by {
                            if j < i {
                                assert(shorter[j] is Some);
                            }
                        }
                    }
                }
            },
        }
        i = i + 1;
    }
    proof {
        assert(scores.take(i as int) =~= scores);
        lemma_first_minimum(scores);
    }
    match best {
        Some((character, _)) => Ok(character),
        None => Err(Error::NoCandidateMatched),
    }
}

/// The character that a region of an image is matched to.
pub open spec fn match_region_spec(
    cells: Seq<u8>,
    row_size: u32,
    glyphs: Seq<Glyph>,
    ink: Foreground,
    coverage: Foreground,
    metric: SimilarityMetric,
) -> Result<char, Error> {
    if valid_row_size(cells.len(), row_size as usize) {
        match_spec(foreground_points(cells, row_size as usize, ink), glyphs, coverage, metric)
    } else {
        Err(Error::InvalidDimensions)
    }
}

/// Matches a region's pixels, given row after row in rows of `row_size` pixels,
/// to a character: the pixels that `ink` takes for foreground are the region's
/// points, and `match_points` matches them to a candidate.
///
/// Fails with `InvalidDimensions` where the pixels cannot be read in such rows.
pub fn match_pixels(
    pixels: &Vec<u8>,
    row_size: u32,
    glyphs: &Vec<Glyph>,
    ink: Foreground,
    coverage: Foreground,
    metric: SimilarityMetric,
) -> (result: Result<char, Error>)
    ensures
        result == match_region_spec(pixels@, row_size, glyphs@, ink, coverage, metric),
{
    match extract_foreground(pixels, row_size as usize, ink) {
        Ok(points) => match_points(&points, glyphs, coverage, metric),
        Err(_) => Err(Error::InvalidDimensions),
    }
}

/// The character that a region of an image is matched to, or the reason why
/// there is none.
pub open spec fn match_char_spec(
    img: DynamicImage,
    region: Region,
    glyphs: Seq<Glyph>,
    ink: Foreground,
    coverage: Foreground,
    metric: SimilarityMetric,
) -> Result<char, Error> {
    if fits(region, image_size(img)) {
        match_region_spec(region_cells(img, region), region.width, glyphs, ink, coverage, metric)
    } else {
        Err(Error::InvalidDimensions)
    }
}

/// Matches a region of an image to a character.
///
/// The candidates are to be rasterized at the region's width. Fails with
/// `InvalidDimensions` where the region reaches beyond the image, has no pixel,
/// or is wider or higher than 65535 pixels, and with `NoCandidateMatched` where
/// no candidate has a score against the region.
pub fn match_char(
    img: &DynamicImage,
    region: &Region,
    glyphs: &Vec<Glyph>,
    ink: Foreground,
    coverage: Foreground,
    metric: SimilarityMetric,
) -> (result: Result<char, Error>)
    ensures
        result == match_char_spec(*img, *region, glyphs@, ink, coverage, metric),
{
    match region_pixels(img, region) {
        Some(pixels) => match_pixels(&pixels, region.width, glyphs, ink, coverage, metric),
        None => Err(Error::InvalidDimensions),
    }
}

/// The character that stands in the grid for a region: the one it is matched
/// to, or the placeholder where it has no match.
pub open spec fn shown(result: Result<char, Error>) -> char {
    match result {
        Ok(character) => character,
        Err(_) => PLACEHOLDER,
    }
}

/// The characters that stand in the grid for the regions of an image, one by one.
pub open spec fn region_chars(
    img: DynamicImage,
    regions: Seq<Region>,
    glyphs: Seq<Glyph>,
    ink: Foreground,
    coverage: Foreground,
    metric: SimilarityMetric,
) -> Seq<char> {
    Seq::new(
        regions.len(),
        |i: int| shown(match_char_spec(img, regions[i], glyphs, ink, coverage, metric)),
    )
}

/// Matches each of the regions of an image to a character. A region without a
/// match gets the placeholder, so that every region has its place in the grid.
pub fn match_regions(
    img: &DynamicImage,
    regions: &Vec<Region>,
    glyphs: &Vec<Glyph>,
    ink: Foreground,
    coverage: Foreground,
    metric: SimilarityMetric,
) -> (chars: Vec<char>)
    ensures
        chars@ == region_chars(*img, regions@, glyphs@, ink, coverage, metric),
{
    let mut chars: Vec<char> = Vec::new();
    let mut i: usize = 0;
    while i < regions.len()
        invariant
            i <= regions.len(),
            chars@ == region_chars(*img, regions@, glyphs@, ink, coverage, metric).take(i as int),
        decreases regions.len() - i,
    {
        let character: char = match match_char(img, &regions[i], glyphs, ink, coverage, metric) {
            Ok(character) => character,
            Err(_) => PLACEHOLDER,
        };
        chars.push(character);
        assert(chars@ =~= region_chars(*img, regions@, glyphs@, ink, coverage, metric).take(
            i + 1,
        ));
        i = i + 1;
    }
    assert(chars@ =~= region_chars(*img, regions@, glyphs@, ink, coverage, metric));
    chars
}

/// The characters of the grid of an image that is cut into square regions of
/// `region_size` pixels, partial regions left out.
pub open spec fn render_chars(
    img: DynamicImage,
    glyphs: Seq<Glyph>,
    region_size: u32,
    metric: SimilarityMetric,
) -> Seq<char> {
    region_chars(
        img,
        partition_spec(image_size(img).0, image_size(img).1, region_size, region_size, false),
        glyphs,
        Foreground::Below(INK_THRESHOLD),
        Foreground::Above(COVERAGE_THRESHOLD),
        metric,
    )
}

/// The lines of text that an image is rendered as, or `None` where the region
/// size is 0 or larger than the image's width, so that no row of regions fits.
pub open spec fn render_spec(
    img: DynamicImage,
    glyphs: Seq<Glyph>,
    region_size: u32,
    metric: SimilarityMetric,
) -> Option<Seq<Seq<char>>> {
    if region_size == 0 || region_size > image_size(img).0 {
        None
    } else {
        Some(
            grid_spec(
                render_chars(img, glyphs, region_size, metric),
                (image_size(img).0 / region_size) as nat,
            ),
        )
    }
}

/// Renders an image as lines of text: the image is cut into square regions of
/// `region_size` pixels, partial regions left out; each region is matched to one
/// of the candidates; and the characters are laid out in rows as long as the
/// number of whole regions that fit into the image's width.
///
/// A pixel darker than 245 is ink, and a cell of a bitmap is covered where its
/// value is above 100. The candidates are to be rasterized at the width of the
/// regions. There is no grid, and the result is `None`, where the region size is
/// 0 or larger than the image's width.
///
/// The lines depend on the image, the candidates, the region size and the
/// metric alone: the same of each gives the same lines.
pub fn render(
    img: &DynamicImage,
    glyphs: &Vec<Glyph>,
    region_size: u32,
    metric: SimilarityMetric,
) -> (result: Option<Vec<String>>)
    ensures
        match result {
            Some(lines) => render_spec(*img, glyphs@, region_size, metric) == Some(
                lines_text(lines@),
            ),
            None => render_spec(*img, glyphs@, region_size, metric) is None,
        },
{
    let (image_width, _) = dimensions(img);
    if region_size == 0 || region_size > image_width {
        return None;
    }
    let length: u64 = row_length(image_width, region_size, false);
    proof {
        vstd::arithmetic::div_mod::lemma_div_non_zero(image_width as int, region_size as int);
    }
    let regions = img_partitions_from(img, region_size, region_size, false);
    let chars = match_regions(
        img,
        &regions,
        glyphs,
        Foreground::Below(INK_THRESHOLD),
        Foreground::Above(COVERAGE_THRESHOLD),
        metric,
    );
    Some(grid_lines(&chars, length as usize))
}

/// Under each metric, a set that has a score against itself has the score 0.
pub proof fn lemma_score_self(metric: SimilarityMetric, a: Set<(u16, u16)>)
    requires
        a.finite(),
        metric == SimilarityMetric::Hausdorff ==> a.len() > 0,
    ensures
        score_spec(metric, a, a) == Ok::<u64, crate::similarity::Error>(0),
{
    match metric {
        SimilarityMetric::Hausdorff => {
            lemma_directed_hausdorff_subset(a, a);
            lemma_directed_hausdorff_unique(a, a, 0, directed_hausdorff_squared(a, a));
        },
        SimilarityMetric::Hamming => {
            lemma_hamming_self(a);
        },
        SimilarityMetric::Levenshtein => {
            assert(a.intersect(a) =~= a);
        },
    }
}

/// A candidate whose covered points are exactly the region's points wins
/// against candidates that have no score or a score above 0, wherever it stands
/// among them.
pub proof fn lemma_exact_match_wins(
    region: Set<(u16, u16)>,
    glyphs: Seq<Glyph>,
    coverage: Foreground,
    metric: SimilarityMetric,
    k: int,
)
    requires
        region.finite(),
        metric == SimilarityMetric::Hausdorff ==> region.len() > 0,
        0 <= k < glyphs.len(),
        glyph_points(glyphs[k], coverage) == Some(region),
        forall|j: int|
            0 <= j < glyphs.len() && j != k ==> candidate_score(
                region,
                #[trigger] glyphs[j],
                coverage,
                metric,
            ) != Some(0u64),
    ensures
        match_spec(region, glyphs, coverage, metric) == Ok::<char, Error>(glyphs[k].character),
{
    let scores = candidate_scores(region, glyphs, coverage, metric);
    lemma_score_self(metric, region);
    assert(scores[k] == Some(0u64));
    assert forall|j: int| 0 <= j < scores.len() && (#[trigger] scores[j]) is Some implies (
    scores[k]->0 < scores[j]->0 || (scores[k]->0 == scores[j]->0 && k <= j)) by {
        if j != k {
            assert(candidate_score(region, glyphs[j], coverage, metric) != Some(0u64));
        }
    }
    assert(is_first_minimum(scores, k));
    lemma_first_minimum(scores);
}

} // verus!
