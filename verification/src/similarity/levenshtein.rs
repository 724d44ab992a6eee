//! A set-difference score of two point sets.
//!
//! The score counts, for each of the two sets, the points that the other lacks,
//! and is the larger of the two counts. It is no edit distance: the sets have no
//! order.

use crate::points::{lemma_symmetric_difference_len, Points};
use vstd::prelude::*;

verus! {

/// The larger of the two one-sided differences `|a| - |a ∩ b|` and `|b| - |a ∩ b|`.
pub open spec fn levenshtein_spec(a: Set<(u16, u16)>, b: Set<(u16, u16)>) -> int {
    let shared = a.intersect(b).len();
    if a.len() - shared >= b.len() - shared {
        a.len() - shared
    } else {
        b.len() - shared
    }
}

/// The set-difference score of two point sets.
pub fn levenshtein_distance(a: &Points, b: &Points) -> (distance: usize)
    ensures
        distance == levenshtein_spec(a@, b@),
{
    let shared: usize = a.common_count(b);
    let size: usize = a.len();
    let other_size: usize = b.len();
    if size - shared >= other_size - shared {
        size - shared
    } else {
        other_size - shared
    }
}

/// The score does not depend on which set comes first.
pub proof fn lemma_levenshtein_symmetric(a: Set<(u16, u16)>, b: Set<(u16, u16)>)
    ensures
        levenshtein_spec(a, b) == levenshtein_spec(b, a),
{
    assert(a.intersect(b) =~= b.intersect(a));
}

/// Two finite sets have the score 0 just when they are the same set.
pub proof fn lemma_levenshtein_zero_iff_equal(a: Set<(u16, u16)>, b: Set<(u16, u16)>)
    requires
        a.finite(),
        b.finite(),
    ensures
        levenshtein_spec(a, b) == 0 <==> a == b,
{
    lemma_symmetric_difference_len(a, b);
    if a == b {
        assert(a.intersect(b) =~= a);
    }
    if levenshtein_spec(a, b) == 0 {
        vstd::set_lib::lemma_set_difference_len(a, b);
        vstd::set_lib::lemma_set_difference_len(b, a);
        assert(b.intersect(a) =~= a.intersect(b));
        assert(a.difference(b) =~= Set::<(u16, u16)>::empty());
        assert(b.difference(a) =~= Set::<(u16, u16)>::empty());
        assert forall|p: (u16, u16)| a.contains(p) == b.contains(p) by {
            if a.contains(p) && !b.contains(p) {
                assert(a.difference(b).contains(p));
            }
            if b.contains(p) && !a.contains(p) {
                assert(b.difference(a).contains(p));
            }
        }
        assert(a =~= b);
    }
}

} // verus!
