//! The Hamming distance of two point sets of one size.

use crate::points::{lemma_symmetric_difference_len, symmetric_difference, Points};
use crate::text::{decimal, decimal_string};
use vstd::prelude::*;

verus! {

/// Why no Hamming distance was computed.
#[derive(Debug, PartialEq, Eq, Structural)]
pub enum Error {
    /// The two sets hold different numbers of points: the first's and the second's.
    Cardinality(usize, usize),
}

impl Error {
    /// What the error says: the sentence with both sizes in decimal.
    pub open spec fn message(self) -> Seq<char> {
        match self {
            Error::Cardinality(i, j) => "Cannot compute Hamming distance between sets with cardinality "@
                + decimal(i as nat) + " and "@ + decimal(j as nat),
        }
    }

    /// What the error says.
    pub fn to_string(&self) -> (text: String)
        ensures
            text@ == self.message(),
    {
        match self {
            Error::Cardinality(i, j) => {
                let mut text: String = String::from_str(
                    "Cannot compute Hamming distance between sets with cardinality ",
                );
                text.append(decimal_string(*i as u64).as_str());
                text.append(" and ");
                text.append(decimal_string(*j as u64).as_str());
                text
            },
        }
    }

    /// What kind of error it is.
    pub fn description(&self) -> (text: &'static str)
        ensures
            text@ == "Hamming distance isn't well defined for sets with different cardinalities"@,
    {
        match self {
            Error::Cardinality(_, _) => "Hamming distance isn't well defined for sets with different cardinalities",
        }
    }
}

/// The number of points that are in exactly one of two sets of the same size.
///
/// Sets of different sizes have no Hamming distance; the error holds both sizes.
pub fn hamming_distance(a: &Points, b: &Points) -> (result: Result<u64, Error>)
    ensures
        match result {
            Ok(distance) => a@.len() == b@.len() && distance == symmetric_difference(a@, b@).len(),
            Err(Error::Cardinality(i, j)) => a@.len() != b@.len() && i == a@.len() && j
                == b@.len(),
        },
{
    let size: usize = a.len();
    let other_size: usize = b.len();
    if size != other_size {
        return Err(Error::Cardinality(size, other_size));
    }
    let shared: usize = a.common_count(b);
    proof {
        lemma_symmetric_difference_len(a@, b@);
        a.lemma_len_bound();
    }
    let unshared: u64 = (size - shared) as u64;
    Ok(2 * unshared)
}

/// A set has distance 0 from itself.
pub proof fn lemma_hamming_self(a: Set<(u16, u16)>)
    ensures
        symmetric_difference(a, a).len() == 0,
{
    assert(symmetric_difference(a, a) =~= Set::<(u16, u16)>::empty());
}

/// The distance does not depend on which set comes first.
pub proof fn lemma_hamming_symmetric(a: Set<(u16, u16)>, b: Set<(u16, u16)>)
    ensures
        symmetric_difference(a, b) == symmetric_difference(b, a),
{
    assert(symmetric_difference(a, b) =~= symmetric_difference(b, a));
}

/// Two finite sets have distance 0 just when they are the same set.
pub proof fn lemma_hamming_zero_iff_equal(a: Set<(u16, u16)>, b: Set<(u16, u16)>)
    requires
        a.finite(),
        b.finite(),
    ensures
        symmetric_difference(a, b).len() == 0 <==> a == b,
{
    lemma_symmetric_difference_len(a, b);
    if a == b {
        lemma_hamming_self(a);
    }
    if symmetric_difference(a, b).len() == 0 {
        assert(symmetric_difference(a, b) =~= Set::<(u16, u16)>::empty());
        assert forall|p: (u16, u16)| a.contains(p) == b.contains(p) by {
            if a.contains(p) != b.contains(p) {
                assert(symmetric_difference(a, b).contains(p));
            }
        }
        assert(a =~= b);
    }
}

} // verus!
