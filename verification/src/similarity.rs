//! Measures of how far apart two point sets are.

pub mod hamming;
pub mod hausdorff;
pub mod levenshtein;

pub use crate::points::Points;
pub use hamming::hamming_distance;
pub use hausdorff::hausdorff_distance_squared;
pub use levenshtein::levenshtein_distance;

use vstd::prelude::*;

verus! {

/// The measure by which a glyph is held against a region.
#[derive(Clone, Copy, Debug, PartialEq, Eq, Structural)]
pub enum SimilarityMetric {
    /// The directed Hausdorff distance from the region toward the glyph.
    Hausdorff,
    /// The Hamming distance.
    Hamming,
    /// The set-difference score.
    Levenshtein,
}

impl Default for SimilarityMetric {
    fn default() -> (metric: SimilarityMetric)
        ensures
            metric == SimilarityMetric::Hausdorff,
    {
        SimilarityMetric::Hausdorff
    }
}

/// Why two point sets have no score.
#[derive(Debug, PartialEq, Eq, Structural)]
pub enum Error {
    /// The Hamming distance is not defined.
    Hamming(hamming::Error),
    /// The Hausdorff distance is not defined.
    Hausdorff(hausdorff::Error),
}

impl Error {
    /// What the error says: that no score was computed, and why.
    pub open spec fn message(self) -> Seq<char> {
        "Error calculation failed: "@ + match self {
            Error::Hamming(error) => error.message(),
            Error::Hausdorff(error) => error.message(),
        }
    }

    /// What the error says.
    pub fn to_string(&self) -> (text: String)
        ensures
            text@ == self.message(),
    {
        let mut text: String = String::from_str("Error calculation failed: ");
        match self {
            Error::Hamming(error) => {
                text.append(error.to_string().as_str());
            },
            Error::Hausdorff(error) => {
                text.append(error.to_string().as_str());
            },
        }
        text
    }
}

/// The score of `b` against `a` under a metric; a smaller score is a better
/// match. Under the Hausdorff metric the score is the square of the distance,
/// which orders candidates as the distance does.
pub open spec fn score_spec(metric: SimilarityMetric, a: Set<(u16, u16)>, b: Set<(u16, u16)>)
    -> Result<u64, Error> {
    match metric {
        SimilarityMetric::Hausdorff => if a.len() == 0 || b.len() == 0 {
            Err(Error::Hausdorff(hausdorff::Error::EmptySet))
        } else {
            Ok(hausdorff::directed_hausdorff_squared(a, b) as u64)
        },
        SimilarityMetric::Hamming => if a.len() != b.len() {
            Err(Error::Hamming(hamming::Error::Cardinality(a.len() as usize, b.len() as usize)))
        } else {
            Ok(crate::points::symmetric_difference(a, b).len() as u64)
        },
        SimilarityMetric::Levenshtein => Ok(levenshtein::levenshtein_spec(a, b) as u64),
    }
}

/// The score of `b` against `a` under a metric, or the reason why the metric
/// gives none for the two sets.
pub fn score(metric: SimilarityMetric, a: &Points, b: &Points) -> (result: Result<u64, Error>)
    ensures
        result == score_spec(metric, a@, b@),
{
    match metric {
        SimilarityMetric::Hausdorff => match hausdorff_distance_squared(a, b) {
            Ok(distance) => Ok(distance),
            Err(error) => {
                proof {
                    a.lemma_finite();
                    b.lemma_finite();
                }
                Err(Error::Hausdorff(error))
            },
        },
        SimilarityMetric::Hamming => match hamming_distance(a, b) {
            Ok(distance) => Ok(distance),
            Err(error) => Err(Error::Hamming(error)),
        },
        SimilarityMetric::Levenshtein => Ok(levenshtein_distance(a, b) as u64),
    }
}

} // verus!
