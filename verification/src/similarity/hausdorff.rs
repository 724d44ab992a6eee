//! The directed Hausdorff distance from one point set toward another.
//!
//! The distance is the largest of the distances from a point of the first set
//! to the point of the second set that is nearest to it. It is computed and
//! given as its square, which is a whole number: the distance itself is the
//! square root of it.

use crate::points::Points;
use vstd::prelude::*;

verus! {

/// Why no Hausdorff distance was computed.
#[derive(Debug, PartialEq, Eq, Structural)]
pub enum Error {
    /// One of the two sets is without a point.
    EmptySet,
    /// No nearest point was found. With both sets non-empty this does not happen.
    NoMinimum,
}

impl Error {
    /// What the error says.
    pub open spec fn message(self) -> Seq<char> {
        match self {
            Error::EmptySet => "Hausdorff distance isn't well defined for empty sets"@,
            Error::NoMinimum => "Unable to find minimum"@,
        }
    }

    /// What the error says.
    pub fn to_string(&self) -> (text: String)
        ensures
            text@ == self.message(),
    {
        String::from_str(self.description())
    }

    /// What kind of error it is.
    pub fn description(&self) -> (text: &'static str)
        ensures
            text@ == self.message(),
    {
        match self {
            Error::EmptySet => "Hausdorff distance isn't well defined for empty sets",
            Error::NoMinimum => "Unable to find minimum",
        }
    }
}

/// The square of the Euclidean distance of two points.
pub open spec fn squared_distance(p: (u16, u16), q: (u16, u16)) -> int {
    (p.0 - q.0) * (p.0 - q.0) + (p.1 - q.1) * (p.1 - q.1)
}

/// `d` is the squared distance from `p` to a nearest point of `b`.
pub open spec fn is_nearest(p: (u16, u16), b: Set<(u16, u16)>, d: int) -> bool {
    &&& exists|q: (u16, u16)| b.contains(q) && #[trigger] squared_distance(p, q) == d
    &&& forall|q: (u16, u16)| b.contains(q) ==> #[trigger] squared_distance(p, q) >= d
}

/// Some point of `b` lies no farther from `p` than the squared distance `d`.
pub open spec fn is_within(p: (u16, u16), b: Set<(u16, u16)>, d: int) -> bool {
    exists|q: (u16, u16)| b.contains(q) && #[trigger] squared_distance(p, q) <= d
}

/// `d` is the square of the directed Hausdorff distance from `a` toward `b`:
/// some point of `a` has its nearest point of `b` at that distance, and no point
/// of `a` has it farther away.
pub open spec fn is_directed_hausdorff(a: Set<(u16, u16)>, b: Set<(u16, u16)>, d: int) -> bool {
    &&& exists|p: (u16, u16)| a.contains(p) && #[trigger] is_nearest(p, b, d)
    &&& forall|p: (u16, u16)| a.contains(p) ==> #[trigger] is_within(p, b, d)
}

/// The square of the directed Hausdorff distance from `a` toward `b`, where the
/// two sets have one: the number of which `is_directed_hausdorff` holds.
pub open spec fn directed_hausdorff_squared(a: Set<(u16, u16)>, b: Set<(u16, u16)>) -> int {
    choose|d: int| is_directed_hausdorff(a, b, d)
}

/// The square of the Euclidean distance of two points.
pub fn squared_euclidean_distance(p: (u16, u16), q: (u16, u16)) -> (d: u64)
    ensures
        d == squared_distance(p, q),
        d <= 2 * 0xffff * 0xffff,
{
    let dx: u64 = if p.0 >= q.0 {
        (p.0 - q.0) as u64
    } else {
        (q.0 - p.0) as u64
    };
    let dy: u64 = if p.1 >= q.1 {
        (p.1 - q.1) as u64
    } else {
        (q.1 - p.1) as u64
    };
    proof {
        assert(dx * dx == (p.0 - q.0) * (p.0 - q.0)) by (nonlinear_arith)
            requires
                dx == p.0 - q.0 || dx == -(p.0 - q.0),
        ;
        assert(dy * dy == (p.1 - q.1) * (p.1 - q.1)) by (nonlinear_arith)
            requires
                dy == p.1 - q.1 || dy == -(p.1 - q.1),
        ;
        assert(dx * dx <= 0xffff * 0xffff) by (nonlinear_arith)
            requires
                0 <= dx <= 0xffff,
        ;
        assert(dy * dy <= 0xffff * 0xffff) by (nonlinear_arith)
            requires
                0 <= dy <= 0xffff,
        ;
    }
    dx * dx + dy * dy
}

/// The squared distance from `p` to a nearest of the given points.
fn nearest_squared(p: (u16, u16), targets: &Vec<(u16, u16)>) -> (d: u64)
    requires
        targets@.len() > 0,
    ensures
        is_nearest(p, targets@.to_set(), d as int),
{
    let mut nearest: u64 = squared_euclidean_distance(p, targets[0]);
    let mut i: usize = 1;
    while i < targets.len()
        invariant
            1 <= i <= targets.len(),
            exists|j: int| 0 <= j < i && squared_distance(p, #[trigger] targets@[j]) == nearest,
            forall|j: int| 0 <= j < i ==> squared_distance(p, #[trigger] targets@[j]) >= nearest,
        decreases targets.len() - i,
    {
        let d: u64 = squared_euclidean_distance(p, targets[i]);
        if d < nearest {
            nearest = d;
        }
        i = i + 1;
    }
    proof {
        let j = choose|j: int|
            0 <= j < targets@.len() && squared_distance(p, #[trigger] targets@[j]) == nearest;
        assert(targets@.to_set().contains(targets@[j]));
        assert forall|q: (u16, u16)| targets@.to_set().contains(q) implies #[trigger] squared_distance(
            p,
            q,
        ) >= nearest by {
            let k = choose|k: int| 0 <= k < targets@.len() && targets@[k] == q;
            assert(squared_distance(p, targets@[k]) >= nearest);
        }
    }
    nearest
}

/// The square of the directed Hausdorff distance from `a` toward `b`: the largest,
/// over the points of `a`, of the squared distance to the nearest point of `b`.
///
/// The distance is directed: from `b` toward `a` it may be another. It is not
/// defined where one of the sets is without a point.
pub fn hausdorff_distance_squared(a: &Points, b: &Points) -> (result: Result<u64, Error>)
    ensures
        match result {
            Ok(d) => a@.len() > 0 && b@.len() > 0 && is_directed_hausdorff(a@, b@, d as int) && d
                == directed_hausdorff_squared(a@, b@),
            Err(Error::EmptySet) => a@.len() == 0 || b@.len() == 0,
            Err(Error::NoMinimum) => false,
        },
{
    if a.len() == 0 || b.len() == 0 {
        return Err(Error::EmptySet);
    }
    let sources: Vec<(u16, u16)> = a.to_vec();
    let targets: Vec<(u16, u16)> = b.to_vec();
    let mut farthest: u64 = nearest_squared(sources[0], &targets);
    let mut i: usize = 1;
    while i < sources.len()
        invariant
            1 <= i <= sources.len(),
            targets@.len() > 0,
            exists|j: int| 0 <= j < i && is_nearest(#[trigger] sources@[j], targets@.to_set(), farthest as int),
            forall|j: int|
                0 <= j < i ==> is_within(#[trigger] sources@[j], targets@.to_set(), farthest as int),
        decreases sources.len() - i,
    {
        let nearest: u64 = nearest_squared(sources[i], &targets);
        if nearest > farthest {
            farthest = nearest;
        }
        i = i + 1;
    }
    proof {
        let j = choose|j: int|
            0 <= j < sources@.len() && is_nearest(
                #[trigger] sources@[j],
                targets@.to_set(),
                farthest as int,
            );
        assert(sources@.to_set().contains(sources@[j]));
        assert forall|p: (u16, u16)| a@.contains(p) implies #[trigger] is_within(
            p,
            b@,
            farthest as int,
        ) by {
            let k = choose|k: int| 0 <= k < sources@.len() && sources@[k] == p;
            assert(is_within(sources@[k], targets@.to_set(), farthest as int));
        }
        lemma_directed_hausdorff_unique(
            a@,
            b@,
            farthest as int,
            directed_hausdorff_squared(a@, b@),
        );
    }
    Ok(farthest)
}

/// Two point sets have one directed Hausdorff distance at most.
pub proof fn lemma_directed_hausdorff_unique(
    a: Set<(u16, u16)>,
    b: Set<(u16, u16)>,
    d1: int,
    d2: int,
)
    requires
        is_directed_hausdorff(a, b, d1),
        is_directed_hausdorff(a, b, d2),
    ensures
        d1 == d2,
{
    lemma_directed_hausdorff_le(a, b, d1, d2);
    lemma_directed_hausdorff_le(a, b, d2, d1);
}

proof fn lemma_directed_hausdorff_le(a: Set<(u16, u16)>, b: Set<(u16, u16)>, d1: int, d2: int)
    requires
        is_directed_hausdorff(a, b, d1),
        is_directed_hausdorff(a, b, d2),
    ensures
        d1 <= d2,
{
    let p = choose|p: (u16, u16)| a.contains(p) && #[trigger] is_nearest(p, b, d1);
    assert(is_within(p, b, d2));
    let q = choose|q: (u16, u16)| b.contains(q) && #[trigger] squared_distance(p, q) <= d2;
    assert(squared_distance(p, q) >= d1);
}

/// The distance from a set toward a set that holds all its points is 0.
pub proof fn lemma_directed_hausdorff_subset(a: Set<(u16, u16)>, b: Set<(u16, u16)>)
    requires
        a.len() > 0,
        a.subset_of(b),
    ensures
        is_directed_hausdorff(a, b, 0),
{
    let p = a.choose();
    assert(a.contains(p)) by {
        if !a.contains(p) {
            assert(forall|x: (u16, u16)| !a.contains(x));
            assert(a =~= Set::<(u16, u16)>::empty());
        }
    }
    assert forall|x: (u16, u16)| a.contains(x) implies #[trigger] is_within(x, b, 0) by {
        assert(b.contains(x) && squared_distance(x, x) <= 0);
    }
    assert(is_nearest(p, b, 0)) by {
        assert(b.contains(p) && squared_distance(p, p) == 0);
        assert forall|q: (u16, u16)| b.contains(q) implies #[trigger] squared_distance(p, q)
            >= 0 by {
            assert((p.0 - q.0) * (p.0 - q.0) >= 0) by (nonlinear_arith);
            assert((p.1 - q.1) * (p.1 - q.1) >= 0) by (nonlinear_arith);
        }
    }
}

/// The distance from a set toward another is 0 only if the other holds all its
/// points.
pub proof fn lemma_directed_hausdorff_zero(a: Set<(u16, u16)>, b: Set<(u16, u16)>)
    requires
        is_directed_hausdorff(a, b, 0),
    ensures
        a.subset_of(b),
{
    assert forall|p: (u16, u16)| a.contains(p) implies b.contains(p) by {
        assert(is_within(p, b, 0));
        let q = choose|q: (u16, u16)| b.contains(q) && #[trigger] squared_distance(p, q) <= 0;
        let (dx, dy) = (p.0 - q.0, p.1 - q.1);
        assert(dx == 0 && dy == 0) by (nonlinear_arith)
            requires
                dx * dx + dy * dy <= 0,
        ;
    }
}

} // verus!
